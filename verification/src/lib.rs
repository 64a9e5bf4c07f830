//! Static and dynamic tooling for the click-wheel game binaries.

pub mod aggregate;
pub mod args;
pub mod arm;
pub mod audit;
pub mod audit_report;
pub mod bytes;
pub mod callfmt;
pub mod coverage;
pub mod eapp;
pub mod frame;
pub mod hexdump;
pub mod image;
pub mod imports;
pub mod input;
pub mod journal;
pub mod listing;
pub mod names;
pub mod options;
pub mod reaper;
pub mod report;
pub mod script;
pub mod search;
pub mod sinf;
pub mod sound;
pub mod stats;
pub mod table;
pub mod text;
pub mod titles;
