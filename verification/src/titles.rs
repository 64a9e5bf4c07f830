//! What is known of single titles: the settings each was measured to need, the addresses of its
//! input words, and the name it is shown under.

use vstd::prelude::*;

use crate::names::title_of;
#[allow(unused_imports)]
use crate::names::{law_a_title_ends_at_its_version, title};
use crate::text::{chars_of, has_text, starts_with};
#[allow(unused_imports)]
use crate::text::{begins, contains};

verus! {

/// The word that holds Minigolf's button bits.
pub const MINIGOLF_FLAGS: u32 = 0x1803_7a0c;

/// Where Minigolf records when Menu went down; the word behind it is the same for Next.
pub const MINIGOLF_PRESS_TIMES: u32 = 0x1803_7a10;

/// The settings of a title. An explicit option on the command line wins over each of them.
pub struct TitleDefaults {
    /// Load whole files at open.
    pub load_on_open: bool,
    /// The mode of the frame reason.
    pub frame_reason: Option<&'static str>,
    /// The byte that is held at the second context argument.
    pub pump_mark: Option<u8>,
    /// Instructions per call.
    pub budget: Option<u64>,
    /// The reason byte that the first call sees.
    pub ctx_seed: u8,
    /// The title waits for completions and cannot read its files without them.
    pub async_files: bool,
    /// Frames per second, when the title cannot take the usual sixty.
    pub fps: Option<usize>,
}

/// The contents of the settings.
pub struct DefaultsView {
    pub load_on_open: bool,
    pub frame_reason: Option<Seq<char>>,
    pub pump_mark: Option<u8>,
    pub budget: Option<u64>,
    pub ctx_seed: u8,
    pub async_files: bool,
    pub fps: Option<usize>,
}

impl View for TitleDefaults {
    type V = DefaultsView;

    open spec fn view(&self) -> DefaultsView {
        DefaultsView {
            load_on_open: self.load_on_open,
            frame_reason: match self.frame_reason {
                Some(r) => Some(r@),
                None => None,
            },
            pump_mark: self.pump_mark,
            budget: self.budget,
            ctx_seed: self.ctx_seed,
            async_files: self.async_files,
            fps: self.fps,
        }
    }
}

/// The settings that most titles run with.
pub open spec fn usual() -> DefaultsView {
    DefaultsView {
        load_on_open: true,
        frame_reason: None,
        pump_mark: None,
        budget: None,
        ctx_seed: 5,
        async_files: false,
        fps: None,
    }
}

/// The settings of the title whose executable has this name.
pub open spec fn defaults_of(exe: Seq<char>) -> DefaultsView {
    if begins(exe, "Sudoku"@) || begins(exe, "mspacman"@) {
        DefaultsView { frame_reason: Some("first0:1"@), pump_mark: Some(2), ..usual() }
    } else if begins(exe, "Solitaire"@) {
        DefaultsView {
            frame_reason: Some("first0:1"@),
            pump_mark: Some(2),
            budget: Some(200_000_000),
            ..usual()
        }
    } else if begins(exe, "testprep"@) {
        DefaultsView { frame_reason: Some("auto"@), budget: Some(200_000_000), ..usual() }
    } else if begins(exe, "SimsBowling"@) || begins(exe, "SimsPool"@) {
        DefaultsView { frame_reason: Some("auto"@), ..usual() }
    } else if begins(exe, "Lost"@) {
        DefaultsView { frame_reason: Some("first0:1"@), ..usual() }
    } else if begins(exe, "HoldEm"@) {
        DefaultsView { frame_reason: Some("1"@), ctx_seed: 0, async_files: true, ..usual() }
    } else if begins(exe, "vortex"@) {
        DefaultsView { async_files: true, fps: Some(30), ..usual() }
    } else if begins(exe, "Pacman"@) {
        DefaultsView { load_on_open: false, ..usual() }
    } else {
        usual()
    }
}

fn names(exe: &[char], title: &str) -> (r: bool)
    ensures
        r == begins(exe@, title@),
{
    let t = chars_of(title);
    starts_with(exe, t.as_slice())
}

/// The settings of the title whose executable has this name.
pub fn defaults_for(exe: &str) -> (r: TitleDefaults)
    ensures
        r@ == defaults_of(exe@),
{
    let e = chars_of(exe);
    let e = e.as_slice();
    let mut d = TitleDefaults {
        load_on_open: true,
        frame_reason: None,
        pump_mark: None,
        budget: None,
        ctx_seed: 5,
        async_files: false,
        fps: None,
    };
    if names(e, "Sudoku") || names(e, "mspacman") {
        // The reason table is out of reach until the mark is above one, and the reason has to be
        // 0 once and 1 from then on.
        d.frame_reason = Some("first0:1");
        d.pump_mark = Some(2);
    } else if names(e, "Solitaire") {
        // The same, with a frame that runs over ten million instructions.
        d.frame_reason = Some("first0:1");
        d.pump_mark = Some(2);
        d.budget = Some(200_000_000);
    } else if names(e, "testprep") {
        // Parses its whole question bank in a handful of frames.
        d.frame_reason = Some("auto");
        d.budget = Some(200_000_000);
    } else if names(e, "SimsBowling") || names(e, "SimsPool") {
        d.frame_reason = Some("auto");
    } else if names(e, "Lost") {
        // Any reason but 1 and 5 shuts it down.
        d.frame_reason = Some("first0:1");
    } else if names(e, "HoldEm") {
        // Registers its state only while the reason reads 0, and waits for completions.
        d.frame_reason = Some("1");
        d.ctx_seed = 0;
        d.async_files = true;
    } else if names(e, "vortex") {
        // Divides by its own frame time and cannot take frames shorter than 1/64 s.
        d.async_files = true;
        d.fps = Some(30);
    } else if names(e, "Pacman") {
        // Its loader never leaves a loop when a file is there whole at open.
        d.load_on_open = false;
    }
    d
}

/// The title may create the files it writes: it was asked for, or the title cannot do without.
pub open spec fn creates(exe: Seq<char>, asked: bool) -> bool {
    asked || begins(exe, "testprep"@) || begins(exe, "vortex"@)
}

/// Whether the title may create the files it writes.
pub fn may_create(exe: &str, asked: bool) -> (r: bool)
    ensures
        r == creates(exe@, asked),
{
    let e = chars_of(exe);
    asked || names(e.as_slice(), "testprep") || names(e.as_slice(), "vortex")
}

/// The word of the button bits, where it is known from the name of the executable file.
pub open spec fn flags_of(file: Seq<char>) -> Option<u32> {
    if contains(file, "Minigolf"@) {
        Some(MINIGOLF_FLAGS)
    } else {
        None
    }
}

/// The words of the press times, where they are known from the name of the executable file.
pub open spec fn press_times_of(file: Seq<char>) -> Option<u32> {
    if contains(file, "Minigolf"@) {
        Some(MINIGOLF_PRESS_TIMES)
    } else {
        None
    }
}

/// The word of the button bits, where it is known. No title is given an address on a guess.
pub fn known_flags(file: &str) -> (r: Option<u32>)
    ensures
        r == flags_of(file@),
{
    let f = chars_of(file);
    let n = chars_of("Minigolf");
    if has_text(f.as_slice(), n.as_slice()) {
        Some(MINIGOLF_FLAGS)
    } else {
        None
    }
}

/// The words of the press times, where they are known.
pub fn known_press_times(file: &str) -> (r: Option<u32>)
    ensures
        r == press_times_of(file@),
{
    let f = chars_of(file);
    let n = chars_of("Minigolf");
    if has_text(f.as_slice(), n.as_slice()) {
        Some(MINIGOLF_PRESS_TIMES)
    } else {
        None
    }
}

/// The name a title is shown under: that of its manifest, else what its executable's stem names,
/// else the directory it lives in, else `iPod`.
pub open spec fn shown_name(
    manifest: Option<Seq<char>>,
    stem: Seq<char>,
    dir: Option<Seq<char>>,
) -> Seq<char> {
    match manifest {
        Some(m) => m,
        None => if title(stem).len() > 0 {
            title(stem)
        } else {
            match dir {
                Some(d) => d,
                None => "iPod"@,
            }
        },
    }
}

/// The name a title is shown under.
pub fn display_name(manifest: Option<&str>, stem: &str, dir: Option<&str>) -> (r: String)
    ensures
        r@ == shown_name(
            match manifest {
                Some(m) => Some(m@),
                None => None,
            },
            stem@,
            match dir {
                Some(d) => Some(d@),
                None => None,
            },
        ),
{
    if let Some(m) = manifest {
        return String::from_str(m);
    }
    let own = title_of(stem);
    if !own.as_str().is_empty() {
        return own;
    }
    match dir {
        Some(d) => String::from_str(d),
        None => String::from_str("iPod"),
    }
}

// ---------------------------------------------------------------- laws

proof fn lemma_first_letters(exe: Seq<char>, p: Seq<char>)
    requires
        begins(exe, p),
        p.len() >= 2,
    ensures
        exe.len() >= 2,
        exe[0] == p[0],
        exe[1] == p[1],
{
    assert(exe.take(p.len() as int)[0] == exe[0]);
    assert(exe.take(p.len() as int)[1] == exe[1]);
}

/// Each setting, and the titles that differ in it: every other title has the usual one.
#[verifier::rlimit(60)]
pub proof fn law_settings_by_title(exe: Seq<char>)
    ensures
        ({
            let d = defaults_of(exe);
            let paced = begins(exe, "Sudoku"@) || begins(exe, "mspacman"@) || begins(
                exe,
                "Solitaire"@,
            );
            let asked = begins(exe, "testprep"@) || begins(exe, "SimsBowling"@) || begins(
                exe,
                "SimsPool"@,
            );
            &&& d.load_on_open == !begins(exe, "Pacman"@)
            &&& d.frame_reason == (if paced || begins(exe, "Lost"@) {
                Some("first0:1"@)
            } else if asked {
                Some("auto"@)
            } else if begins(exe, "HoldEm"@) {
                Some("1"@)
            } else {
                None
            })
            &&& d.pump_mark == (if paced {
                Some(2u8)
            } else {
                None
            })
            &&& d.budget == (if begins(exe, "Solitaire"@) || begins(exe, "testprep"@) {
                Some(200_000_000u64)
            } else {
                None
            })
            &&& d.ctx_seed == (if begins(exe, "HoldEm"@) {
                0u8
            } else {
                5
            })
            &&& d.async_files == (begins(exe, "HoldEm"@) || begins(exe, "vortex"@))
            &&& d.fps == (if begins(exe, "vortex"@) {
                Some(30usize)
            } else {
                None
            })
        }),
{
    reveal_strlit("Sudoku");
    reveal_strlit("mspacman");
    reveal_strlit("Solitaire");
    reveal_strlit("testprep");
    reveal_strlit("SimsBowling");
    reveal_strlit("SimsPool");
    reveal_strlit("Lost");
    reveal_strlit("HoldEm");
    reveal_strlit("vortex");
    reveal_strlit("Pacman");
    if begins(exe, "Sudoku"@) {
        lemma_first_letters(exe, "Sudoku"@);
    }
    if begins(exe, "mspacman"@) {
        lemma_first_letters(exe, "mspacman"@);
    }
    if begins(exe, "Solitaire"@) {
        lemma_first_letters(exe, "Solitaire"@);
    }
    if begins(exe, "testprep"@) {
        lemma_first_letters(exe, "testprep"@);
    }
    if begins(exe, "SimsBowling"@) {
        lemma_first_letters(exe, "SimsBowling"@);
    }
    if begins(exe, "SimsPool"@) {
        lemma_first_letters(exe, "SimsPool"@);
    }
    if begins(exe, "Lost"@) {
        lemma_first_letters(exe, "Lost"@);
    }
    if begins(exe, "HoldEm"@) {
        lemma_first_letters(exe, "HoldEm"@);
    }
    if begins(exe, "vortex"@) {
        lemma_first_letters(exe, "vortex"@);
    }
    if begins(exe, "Pacman"@) {
        lemma_first_letters(exe, "Pacman"@);
    }
}

/// A name may be given, else it is the title of the file, else the name of its directory, and only
/// where none of these is there the device's.
pub proof fn law_some_name_is_shown(
    manifest: Option<Seq<char>>,
    stem: Seq<char>,
    dir: Option<Seq<char>>,
)
    ensures
        manifest is Some ==> shown_name(manifest, stem, dir) == manifest->0,
        manifest is None && title(stem).len() > 0 ==> begins(
            stem,
            shown_name(manifest, stem, dir),
        ) && shown_name(manifest, stem, dir) == title(stem),
        manifest is None && title(stem).len() == 0 && dir is Some ==> shown_name(
            manifest,
            stem,
            dir,
        ) == dir->0,
        manifest is None && title(stem).len() == 0 && dir is None ==> shown_name(
            manifest,
            stem,
            dir,
        ) == "iPod"@,
{
    law_a_title_ends_at_its_version(stem);
}

/// Files are created on request, and for the two titles that need it.
pub proof fn law_who_may_create_files(exe: Seq<char>, asked: bool)
    ensures
        asked ==> creates(exe, asked),
        !asked ==> (creates(exe, asked) <==> begins(exe, "testprep"@) || begins(exe, "vortex"@)),
{
}

} // verus!
