//! The options of the player: which are known, and what their values say.

use vstd::prelude::*;
use vstd::slice::slice_subrange;

use crate::args::{has_flag, value};
#[allow(unused_imports)]
use crate::args::{law_no_argument_gives_no_value, law_the_first_value_counts, value_of};
use crate::text::{
    chars_of, parse_signed32, parse_unsigned, same_text, split, split_once, starts_with, text_of,
    trim,
};
#[allow(unused_imports)]
use crate::text::{contains, law_parts_are_found, lemma_contained_further};
#[allow(unused_imports)]
use crate::text::{begins, halves, pieces, signed32, texts, trimmed, unsigned, views};
#[allow(unused_imports)]
use crate::text::{
    dec, hex, hex_wide, is_space, law_a_text_is_cut_at_the_first, law_decimal_reads_back,
    law_hex_reads_back, law_joined_parts_come_apart, law_other_text_is_no_number,
    law_trimming_takes_white_space_alone, rejoined,
};

verus! {

// ---------------------------------------------------------------- known options

/// The options without a value.
pub open spec fn plain_flags() -> Seq<Seq<char>> {
    seq![
        "--allow-creates"@,
        "--call-terminate-vector"@,
        "--completion-list"@,
        "--event-buttons"@,
        "--fixed-clock"@,
        "--flip-y"@,
        "--headless"@,
        "--load-on-open"@,
        "--modulate"@,
        "--audio"@,
        "--mute"@,
        "--no-load-on-open"@,
        "--no-rewind"@,
        "--open-returns-handle"@,
        "--sync-files"@,
        "--wheel-invert"@,
        "--wheel-rotate"@,
    ]
}

/// The beginnings of the options with a value.
pub open spec fn value_flags() -> Seq<Seq<char>> {
    seq![
        "--battery="@,
        "--budget="@,
        "--call-log="@,
        "--callgraph-dump="@,
        "--completion-delay="@,
        "--ctx-seed="@,
        "--draws="@,
        "--dump-mem="@,
        "--dump-tex="@,
        "--fast-until="@,
        "--file-ops="@,
        "--flags-addr="@,
        "--fps="@,
        "--frame-reason="@,
        "--frames="@,
        "--gamedir="@,
        "--patch="@,
        "--poke="@,
        "--press-times="@,
        "--pump-mark="@,
        "--reason-offset="@,
        "--scale="@,
        "--script="@,
        "--watch-mem="@,
        "--watch-pc="@,
        "--wheel-sensitivity="@,
        "--wheel-top="@,
    ]
}

/// The contents of a list of literals.
pub open spec fn literals(v: Seq<&'static str>) -> Seq<Seq<char>> {
    v.map_values(|s: &'static str| s@)
}

fn list_plain_flags() -> (v: Vec<&'static str>)
    ensures
        literals(v@) == plain_flags(),
{
    let v: Vec<&'static str> = vec![
        "--allow-creates",
        "--call-terminate-vector",
        "--completion-list",
        "--event-buttons",
        "--fixed-clock",
        "--flip-y",
        "--headless",
        "--load-on-open",
        "--modulate",
        "--audio",
        "--mute",
        "--no-load-on-open",
        "--no-rewind",
        "--open-returns-handle",
        "--sync-files",
        "--wheel-invert",
        "--wheel-rotate",
    ];
    assert(literals(v@) =~= plain_flags());
    v
}

fn list_value_flags() -> (v: Vec<&'static str>)
    ensures
        literals(v@) == value_flags(),
{
    let v: Vec<&'static str> = vec![
        "--battery=",
        "--budget=",
        "--call-log=",
        "--callgraph-dump=",
        "--completion-delay=",
        "--ctx-seed=",
        "--draws=",
        "--dump-mem=",
        "--dump-tex=",
        "--fast-until=",
        "--file-ops=",
        "--flags-addr=",
        "--fps=",
        "--frame-reason=",
        "--frames=",
        "--gamedir=",
        "--patch=",
        "--poke=",
        "--press-times=",
        "--pump-mark=",
        "--reason-offset=",
        "--scale=",
        "--script=",
        "--watch-mem=",
        "--watch-pc=",
        "--wheel-sensitivity=",
        "--wheel-top=",
    ];
    assert(literals(v@) =~= value_flags());
    v
}

/// The argument begins with one of the first `n` of the list.
pub open spec fn begins_with_any(a: Seq<char>, v: Seq<Seq<char>>) -> bool {
    exists|k: int| 0 <= k < v.len() && begins(a, #[trigger] v[k])
}

/// The argument is no option, or one that is known.
pub open spec fn known_argument(a: Seq<char>) -> bool {
    !begins(a, "--"@) || plain_flags().contains(a) || begins_with_any(a, value_flags())
}

/// The arguments among the first `n` that are unknown options, in order.
pub open spec fn unknown_of(a: Seq<Seq<char>>, n: int) -> Seq<Seq<char>>
    decreases n,
{
    if n <= 0 {
        Seq::empty()
    } else if known_argument(a[n - 1]) {
        unknown_of(a, n - 1)
    } else {
        unknown_of(a, n - 1).push(a[n - 1])
    }
}

fn is_among(a: &str, v: &Vec<&'static str>) -> (r: bool)
    ensures
        r == literals(v@).contains(a@),
{
    let mut k: usize = 0;
    while k < v.len()
        invariant
            k <= v@.len(),
            forall|j: int| 0 <= j < k ==> literals(v@)[j] != a@,
        decreases v@.len() - k,
    {
        if same_text(v[k], a) {
            assert(literals(v@)[k as int] == a@);
            return true;
        }
        k += 1;
    }
    false
}

fn begins_among(a: &[char], v: &Vec<&'static str>) -> (r: bool)
    ensures
        r == begins_with_any(a@, literals(v@)),
{
    let mut k: usize = 0;
    while k < v.len()
        invariant
            k <= v@.len(),
            forall|j: int| 0 <= j < k ==> !begins(a@, #[trigger] literals(v@)[j]),
        decreases v@.len() - k,
    {
        let p = chars_of(v[k]);
        assert(literals(v@)[k as int] == p@);
        if starts_with(a, p.as_slice()) {
            return true;
        }
        k += 1;
    }
    false
}

/// The unknown options among the arguments. An option that does nothing is worse than one that is
/// refused: it makes every result taken with it suspect.
pub fn unknown_flags(args: &[String]) -> (r: Vec<String>)
    ensures
        texts(r@) == unknown_of(texts(args@), args@.len() as int),
{
    let flags = list_plain_flags();
    let value_list = list_value_flags();
    let dashes = chars_of("--");
    let mut r: Vec<String> = Vec::new();
    let mut n: usize = 0;
    assert(texts(r@) =~= unknown_of(texts(args@), 0));
    while n < args.len()
        invariant
            n <= args@.len(),
            dashes@ == "--"@,
            literals(flags@) == plain_flags(),
            literals(value_list@) == value_flags(),
            texts(r@) == unknown_of(texts(args@), n as int),
        decreases args@.len() - n,
    {
        assert(texts(args@)[n as int] == args@[n as int]@);
        let a = chars_of(args[n].as_str());
        let known = !starts_with(a.as_slice(), dashes.as_slice()) || is_among(
            args[n].as_str(),
            &flags,
        ) || begins_among(a.as_slice(), &value_list);
        if !known {
            let ghost was = texts(r@);
            r.push(text_of(a.as_slice()));
            assert(texts(r@) =~= was.push(a@));
        }
        n += 1;
    }
    r
}

/// Texts one behind the other with `sep` between each two.
pub open spec fn joined(v: Seq<Seq<char>>, sep: Seq<char>, n: int) -> Seq<char>
    decreases n,
{
    if n <= 0 {
        ""@
    } else if n == 1 {
        v[0]
    } else {
        joined(v, sep, n - 1) + sep + v[n - 1]
    }
}

fn join_literals(v: &Vec<&'static str>, sep: &str) -> (out: String)
    ensures
        out@ == joined(literals(v@), sep@, v@.len() as int),
{
    let mut out = String::from_str("");
    let mut n: usize = 0;
    while n < v.len()
        invariant
            n <= v@.len(),
            out@ == joined(literals(v@), sep@, n as int),
        decreases v@.len() - n,
    {
        assert(literals(v@)[n as int] == v@[n as int]@);
        if n == 0 {
            out = String::from_str(v[n]);
        } else {
            out.append(sep);
            out.append(v[n]);
        }
        n += 1;
    }
    out
}

fn join_texts(v: &Vec<String>, sep: &str) -> (out: String)
    ensures
        out@ == joined(texts(v@), sep@, v@.len() as int),
{
    let mut out = String::from_str("");
    let mut n: usize = 0;
    while n < v.len()
        invariant
            n <= v@.len(),
            out@ == joined(texts(v@), sep@, n as int),
        decreases v@.len() - n,
    {
        assert(texts(v@)[n as int] == v@[n as int]@);
        if n == 0 {
            out = String::from_str(v[n].as_str());
        } else {
            out.append(sep);
            out.append(v[n].as_str());
        }
        n += 1;
    }
    out
}

/// The refusal of unknown options: what they are, and what is known.
pub open spec fn refusal_text(bad: Seq<Seq<char>>) -> Seq<char> {
    "unknown flag(s): "@ + joined(bad, " "@, bad.len() as int) + "\nknown: "@ + joined(
        plain_flags(),
        " "@,
        plain_flags().len() as int,
    ) + " "@ + joined(value_flags(), "… "@, value_flags().len() as int) + "\n"@
}

/// The refusal of unknown options.
pub fn render_refusal(bad: &Vec<String>) -> (out: String)
    ensures
        out@ == refusal_text(texts(bad@)),
{
    let flags = list_plain_flags();
    let value_list = list_value_flags();
    assert(literals(flags@).len() == flags@.len());
    assert(literals(value_list@).len() == value_list@.len());
    assert(texts(bad@).len() == bad@.len());
    let mut out = String::from_str("unknown flag(s): ");
    out.append(join_texts(bad, " ").as_str());
    out.append("\nknown: ");
    out.append(join_literals(&flags, " ").as_str());
    out.append(" ");
    out.append(join_literals(&value_list, "… ").as_str());
    out.append("\n");
    out
}

// ---------------------------------------------------------------- sound and length of a run

/// The run is silent: it was asked for, or the run is scripted or without a window, and sound was
/// not asked for.
pub open spec fn is_muted(a: Seq<Seq<char>>) -> bool {
    (a.contains("--mute"@) || a.contains("--headless"@) || value_of(a, "--script="@) is Some)
        && !a.contains("--audio"@)
}

/// Whether the run is silent.
pub fn muted(args: &[String]) -> (r: bool)
    ensures
        r == is_muted(texts(args@)),
{
    let scripted = match value(args, "--script=") {
        Some(_) => true,
        None => false,
    };
    (has_flag(args, "--mute") || has_flag(args, "--headless") || scripted) && !has_flag(
        args,
        "--audio",
    )
}

/// Where a title's resources lie: where the command line says, else two levels above its
/// executable, as titles are shipped.
pub open spec fn resources(a: Seq<Seq<char>>, above: Option<Seq<char>>) -> Option<Seq<char>> {
    match value_of(a, "--gamedir="@) {
        Some(d) => Some(d),
        None => above,
    }
}

/// Where a title's resources lie. `above` is the directory two levels above its executable.
pub fn game_dir(args: &[String], above: Option<String>) -> (r: Option<String>)
    ensures
        (match r {
            Some(d) => Some(d@),
            None => None,
        }) == resources(
            texts(args@),
            match above {
                Some(d) => Some(d@),
                None => None,
            },
        ),
{
    match value(args, "--gamedir=") {
        Some(d) => Some(d),
        None => above,
    }
}

/// The value of a numeric option, when it is a number of at most `max`.
pub open spec fn number_option(a: Seq<Seq<char>>, key: Seq<char>, max: int) -> Option<int> {
    match value_of(a, key) {
        Some(v) => unsigned(v, false, max),
        None => None,
    }
}

fn read_number(args: &[String], key: &str, max: u128) -> (r: Option<u128>)
    requires
        max <= 0xffff_ffff_ffff_ffff,
    ensures
        match r {
            Some(n) => number_option(texts(args@), key@, max as int) == Some(n as int),
            None => number_option(texts(args@), key@, max as int) is None,
        },
{
    match value(args, key) {
        Some(v) => {
            let c = chars_of(v.as_str());
            parse_unsigned(c.as_slice(), false, max)
        },
        None => None,
    }
}

/// The value of a numeric option, or `default`.
pub fn opt(args: &[String], key: &str, default: usize) -> (r: usize)
    ensures
        match number_option(texts(args@), key@, usize::MAX as int) {
            Some(n) => r == n,
            None => r == default,
        },
{
    match read_number(args, key, usize::MAX as u128) {
        Some(n) => n as usize,
        None => default,
    }
}

/// The value of an option that is a byte.
pub fn opt_byte(args: &[String], key: &str) -> (r: Option<u8>)
    ensures
        match r {
            Some(n) => number_option(texts(args@), key@, 255) == Some(n as int),
            None => number_option(texts(args@), key@, 255) is None,
        },
{
    match read_number(args, key, 255) {
        Some(n) => Some(n as u8),
        None => None,
    }
}

/// The value of an option that is a signed number, or `default`.
pub fn opt_signed(args: &[String], key: &str, default: i32) -> (r: i32)
    ensures
        r == (match value_of(texts(args@), key@) {
            Some(v) => match signed32(v) {
                Some(n) => n,
                None => default as int,
            },
            None => default as int,
        }),
{
    match value(args, key) {
        Some(v) => {
            let c = chars_of(v.as_str());
            match parse_signed32(c.as_slice()) {
                Some(n) => n,
                None => default,
            }
        },
        None => default,
    }
}

/// Whether a run has a window, and after how many frames it ends.
#[derive(Clone, Copy)]
pub struct Run {
    pub headless: bool,
    pub limit: Option<usize>,
}

/// How the run goes; nothing when it has no window and no end, which is refused.
pub fn run_mode(args: &[String]) -> (r: Option<Run>)
    ensures
        match r {
            Some(m) => m.headless == texts(args@).contains("--headless"@) && (m.headless
                ==> m.limit is Some) && number_option(texts(args@), "--frames="@, usize::MAX as int)
                == (match m.limit {
                Some(n) => Some(n as int),
                None => None,
            }),
            None => texts(args@).contains("--headless"@) && number_option(
                texts(args@),
                "--frames="@,
                usize::MAX as int,
            ) is None,
        },
{
    let headless = has_flag(args, "--headless");
    let limit: Option<usize> = match read_number(args, "--frames=", usize::MAX as u128) {
        Some(n) => Some(n as usize),
        None => None,
    };
    match limit {
        None => if headless {
            None
        } else {
            Some(Run { headless, limit: None })
        },
        Some(n) => Some(Run { headless, limit: Some(n) }),
    }
}

/// Whether the run goes on after `frames` frames.
pub fn goes_on(run: Run, frames: usize) -> (r: bool)
    ensures
        r == (match run.limit {
            Some(n) => frames < n,
            None => true,
        }),
{
    match run.limit {
        Some(n) => frames < n,
        None => true,
    }
}

/// The battery level to report: the option's value, at most a hundred.
pub fn battery(args: &[String]) -> (r: Option<u8>)
    ensures
        match number_option(texts(args@), "--battery="@, 255) {
            Some(n) => r == Some((if n < 100 {
                n
            } else {
                100
            }) as u8),
            None => r is None,
        },
{
    match opt_byte(args, "--battery=") {
        Some(n) => if n < 100 {
            Some(n)
        } else {
            Some(100)
        },
        None => None,
    }
}

/// Whether whole files are loaded at open: as the command line says, else as the title wants.
pub fn load_on_open(args: &[String], title: bool) -> (r: bool)
    ensures
        r == (if texts(args@).contains("--load-on-open"@) {
            true
        } else if texts(args@).contains("--no-load-on-open"@) {
            false
        } else {
            title
        }),
{
    if has_flag(args, "--load-on-open") {
        true
    } else if has_flag(args, "--no-load-on-open") {
        false
    } else {
        title
    }
}

/// Whether files are read through completions: for every title, unless the command line opts out.
pub fn async_files(args: &[String]) -> (r: bool)
    ensures
        r == !texts(args@).contains("--sync-files"@),
{
    !has_flag(args, "--sync-files")
}

/// The factor that the window is scaled by.
pub open spec fn scale_for(n: usize) -> usize {
    if n == 1 || n == 2 || n == 8 {
        n
    } else {
        4
    }
}

/// The factor that the window is scaled by: 1, 2, 4 or 8; anything else is 4.
pub fn scale(n: usize) -> (r: usize)
    ensures
        r == scale_for(n),
{
    if n == 1 || n == 2 || n == 8 {
        n
    } else {
        4
    }
}

/// The length of a frame in microseconds; zero when the rate is not limited.
pub fn frame_micros(fps: usize) -> (r: u64)
    ensures
        r == (if fps == 0 {
            0int
        } else {
            1_000_000int / (fps as int)
        }),
{
    if fps == 0 {
        0
    } else {
        1_000_000 / (fps as u64)
    }
}

// ---------------------------------------------------------------- addresses and words

/// The text without any `0x` at its front, however often it stands there.
pub open spec fn bare_hex(s: Seq<char>) -> Seq<char>
    decreases s.len(),
{
    if begins(s, "0x"@) && s.len() >= 2 {
        bare_hex(s.skip(2))
    } else {
        s
    }
}

/// The word that a text writes in hexadecimal, with or without `0x` and white space around it.
pub open spec fn hex_word(s: Seq<char>) -> Option<int> {
    unsigned(bare_hex(trimmed(s)), true, 0xffff_ffff)
}

fn strip_0x<'a>(s: &'a [char]) -> (r: &'a [char])
    ensures
        r@ == bare_hex(s@),
{
    proof {
        reveal_strlit("0x");
    }
    let p = chars_of("0x");
    let mut from: usize = 0;
    assert(s@.skip(0) =~= s@);
    while starts_with(slice_subrange(s, from, s.len()), p.as_slice())
        invariant
            p@ == "0x"@,
            p@.len() == 2,
            from <= s@.len(),
            s@.subrange(from as int, s@.len() as int) == s@.skip(from as int),
            bare_hex(s@) == bare_hex(s@.skip(from as int)),
        decreases s@.len() - from,
    {
        assert(s@.skip(from as int).skip(2) =~= s@.skip(from + 2));
        from += 2;
        assert(s@.subrange(from as int, s@.len() as int) =~= s@.skip(from as int));
    }
    let r = slice_subrange(s, from, s.len());
    assert(r@ =~= s@.skip(from as int));
    r
}

/// Parses a word in hexadecimal.
pub fn parse_hex_word(s: &[char]) -> (r: Option<u32>)
    ensures
        match r {
            Some(n) => hex_word(s@) == Some(n as int),
            None => hex_word(s@) is None,
        },
{
    match parse_unsigned(strip_0x(trim(s)), true, 0xffff_ffff) {
        Some(n) => Some(n as u32),
        None => None,
    }
}

/// The words among the first `n` pieces; a piece that is no word is passed over.
pub open spec fn words_in(p: Seq<Seq<char>>, n: int) -> Seq<u32>
    decreases n,
{
    if n <= 0 {
        Seq::empty()
    } else {
        match hex_word(p[n - 1]) {
            Some(w) => words_in(p, n - 1).push(w as u32),
            None => words_in(p, n - 1),
        }
    }
}

/// The words of a list with commas.
pub open spec fn word_list(s: Seq<char>) -> Seq<u32> {
    words_in(pieces(s, ','), pieces(s, ',').len() as int)
}

/// Parses a list of words with commas.
pub fn parse_word_list(s: &[char]) -> (r: Vec<u32>)
    ensures
        r@ == word_list(s@),
{
    let parts = split(s, ',');
    let ghost all = pieces(s@, ',');
    assert(views(parts@).len() == parts@.len());
    let mut r: Vec<u32> = Vec::new();
    let mut i: usize = 0;
    while i < parts.len()
        invariant
            i <= parts@.len(),
            views(parts@) == all,
            r@ == words_in(all, i as int),
        decreases parts@.len() - i,
    {
        assert(all[i as int] == parts@[i as int]@);
        if let Some(w) = parse_hex_word(parts[i].as_slice()) {
            r.push(w);
        }
        i += 1;
    }
    r
}

/// The addresses of a list with commas, as text.
pub fn parse_addresses(text: &str) -> (r: Vec<u32>)
    ensures
        r@ == word_list(text@),
{
    let c = chars_of(text);
    parse_word_list(c.as_slice())
}

/// An address and the words to be written there; nothing without an address or without a word.
pub open spec fn poke_of(s: Seq<char>) -> Option<(int, Seq<u32>)> {
    match halves(s, '=') {
        Some((a, w)) => match hex_word(a) {
            Some(at) => if word_list(w).len() > 0 {
                Some((at, word_list(w)))
            } else {
                None
            },
            None => None,
        },
        None => None,
    }
}

/// Parses `ADDR=WORD[,WORD…]`.
pub fn parse_poke(text: &str) -> (r: Option<(u32, Vec<u32>)>)
    ensures
        match r {
            Some(p) => poke_of(text@) == Some((p.0 as int, p.1@)),
            None => poke_of(text@) is None,
        },
{
    let c = chars_of(text);
    match split_once(c.as_slice(), '=') {
        Some((a, w)) => match parse_hex_word(a) {
            Some(at) => {
                let words = parse_word_list(w);
                if words.len() > 0 {
                    Some((at, words))
                } else {
                    None
                }
            },
            None => None,
        },
        None => None,
    }
}

/// What an option that must be an address says.
#[derive(Clone, Copy)]
pub enum AddressOption {
    /// The option is not there.
    Absent,
    /// Its value is no address.
    Bad,
    Given(u32),
}

/// What an option that must be an address says; white space is not passed over.
pub open spec fn address_option(a: Seq<Seq<char>>, key: Seq<char>) -> AddressOption {
    match value_of(a, key) {
        None => AddressOption::Absent,
        Some(v) => match unsigned(bare_hex(v), true, 0xffff_ffff) {
            Some(n) => AddressOption::Given(n as u32),
            None => AddressOption::Bad,
        },
    }
}

/// Reads an option that must be an address.
pub fn opt_address(args: &[String], key: &str) -> (r: AddressOption)
    ensures
        r == address_option(texts(args@), key@),
{
    match value(args, key) {
        None => AddressOption::Absent,
        Some(v) => {
            let c = chars_of(v.as_str());
            match parse_unsigned(strip_0x(c.as_slice()), true, 0xffff_ffff) {
                Some(n) => AddressOption::Given(n as u32),
                None => AddressOption::Bad,
            }
        },
    }
}

/// The word of an option, when it is one.
pub fn opt_word(args: &[String], key: &str) -> (r: Option<u32>)
    ensures
        match r {
            Some(n) => value_of(texts(args@), key@) is Some && hex_word(
                value_of(texts(args@), key@)->0,
            ) == Some(n as int),
            None => match value_of(texts(args@), key@) {
                Some(v) => hex_word(v) is None,
                None => true,
            },
        },
{
    match value(args, key) {
        None => None,
        Some(v) => {
            let c = chars_of(v.as_str());
            parse_hex_word(c.as_slice())
        },
    }
}

/// The bit of an address in the filter of watched addresses.
pub fn bloom_bit(pc: u32) -> (r: u64)
    ensures
        r == 1u64 << ((pc / 4 % 64) as u64),
{
    1u64 << ((pc / 4 % 64) as u64)
}

/// An address and a number of words behind a colon. The number is 8 when it is left out or is
/// none.
pub open spec fn memory_range(s: Seq<char>) -> Option<(int, int)> {
    match halves(s, ':') {
        Some((a, n)) => match hex_word(a) {
            Some(at) => Some(
                (
                    at,
                    match unsigned(trimmed(n), false, 0xffff_ffff) {
                        Some(n) => n,
                        None => 8,
                    },
                ),
            ),
            None => None,
        },
        None => match hex_word(s) {
            Some(at) => Some((at, 8)),
            None => None,
        },
    }
}

/// Parses `ADDR:N`.
pub fn parse_memory_range(text: &str) -> (r: Option<(u32, u32)>)
    ensures
        match r {
            Some(p) => memory_range(text@) == Some((p.0 as int, p.1 as int)),
            None => memory_range(text@) is None,
        },
{
    let c = chars_of(text);
    match split_once(c.as_slice(), ':') {
        Some((a, n)) => match parse_hex_word(a) {
            Some(at) => match parse_unsigned(trim(n), false, 0xffff_ffff) {
                Some(n) => Some((at, n as u32)),
                None => Some((at, 8)),
            },
            None => None,
        },
        None => match parse_hex_word(c.as_slice()) {
            Some(at) => Some((at, 8)),
            None => None,
        },
    }
}

/// The numbers among the first `n` pieces, white space around them left aside.
pub open spec fn numbers_in(p: Seq<Seq<char>>, n: int) -> Seq<u32>
    decreases n,
{
    if n <= 0 {
        Seq::empty()
    } else {
        match unsigned(trimmed(p[n - 1]), false, 0xffff_ffff) {
            Some(w) => numbers_in(p, n - 1).push(w as u32),
            None => numbers_in(p, n - 1),
        }
    }
}

/// Parses a list of decimal numbers with commas; a piece that is none is passed over.
pub fn parse_numbers(text: &str) -> (r: Vec<u32>)
    ensures
        r@ == numbers_in(pieces(text@, ','), pieces(text@, ',').len() as int),
{
    let c = chars_of(text);
    let parts = split(c.as_slice(), ',');
    let ghost all = pieces(text@, ',');
    assert(views(parts@).len() == parts@.len());
    let mut r: Vec<u32> = Vec::new();
    let mut i: usize = 0;
    while i < parts.len()
        invariant
            i <= parts@.len(),
            views(parts@) == all,
            r@ == numbers_in(all, i as int),
        decreases parts@.len() - i,
    {
        assert(all[i as int] == parts@[i as int]@);
        if let Some(n) = parse_unsigned(trim(parts[i].as_slice()), false, 0xffff_ffff) {
            r.push(n as u32);
        }
        i += 1;
    }
    r
}

// ---------------------------------------------------------------- the frame reason

/// How the reason byte is kept from frame to frame.
#[derive(Clone, Copy)]
pub struct Reason {
    /// Ask for the first call until it is answered, then for frames.
    pub auto: bool,
    /// Zero on the first frame alone.
    pub first0: bool,
    /// What is written once the title runs.
    pub steady: u8,
    /// The same byte on every frame.
    pub constant: Option<u8>,
}

/// The mode that a text names: `auto`, `first0`, either with the steady byte behind a colon, or a
/// byte.
pub open spec fn reason_of(v: Seq<char>) -> Reason {
    Reason {
        auto: begins(v, "auto"@),
        first0: begins(v, "first0"@),
        steady: match halves(v, ':') {
            Some((_, n)) => match unsigned(n, false, 255) {
                Some(n) => n as u8,
                None => 1,
            },
            None => 1,
        },
        constant: match unsigned(v, false, 255) {
            Some(n) => Some(n as u8),
            None => None,
        },
    }
}

/// The mode when none is named: the byte is left alone.
pub open spec fn reason_left_alone() -> Reason {
    Reason { auto: false, first0: false, steady: 1, constant: None }
}

/// Reads the mode of the frame reason: that of the command line, else that of the title.
pub fn frame_reason(args: &[String], title: Option<&'static str>) -> (r: Reason)
    ensures
        r == (match value_of(texts(args@), "--frame-reason="@) {
            Some(v) => reason_of(v),
            None => match title {
                Some(t) => reason_of(t@),
                None => reason_left_alone(),
            },
        }),
{
    match value(args, "--frame-reason=") {
        Some(v) => parse_reason(v.as_str()),
        None => match title {
            Some(t) => parse_reason(t),
            None => Reason { auto: false, first0: false, steady: 1, constant: None },
        },
    }
}

/// Reads the mode that a text names.
pub fn parse_reason(text: &str) -> (r: Reason)
    ensures
        r == reason_of(text@),
{
    let c = chars_of(text);
    let c = c.as_slice();
    let auto_word = chars_of("auto");
    let first_word = chars_of("first0");
    let steady: u8 = match split_once(c, ':') {
        Some((_, n)) => match parse_unsigned(n, false, 255) {
            Some(n) => n as u8,
            None => 1,
        },
        None => 1,
    };
    let constant: Option<u8> = match parse_unsigned(c, false, 255) {
        Some(n) => Some(n as u8),
        None => None,
    };
    Reason {
        auto: starts_with(c, auto_word.as_slice()),
        first0: starts_with(c, first_word.as_slice()),
        steady,
        constant,
    }
}

/// What is written into the reason byte before a frame, if anything. `answer` is the byte in which
/// the title answers and `mark` what the pump holds there: a different byte is an answer.
pub open spec fn reason_byte(r: Reason, frames: int, answer: u8, mark: Option<u8>) -> Option<u8> {
    if r.first0 {
        Some(
            if frames == 0 {
                0
            } else {
                r.steady
            },
        )
    } else if r.auto {
        let seed: u8 = match mark {
            Some(m) => m,
            None => 0,
        };
        Some(
            if answer != seed {
                r.steady
            } else {
                0
            },
        )
    } else {
        r.constant
    }
}

/// What is written into the reason byte before a frame, if anything.
pub fn next_reason(r: Reason, frames: usize, answer: u8, mark: Option<u8>) -> (b: Option<u8>)
    ensures
        b == reason_byte(r, frames as int, answer, mark),
{
    if r.first0 {
        if frames == 0 {
            Some(0)
        } else {
            Some(r.steady)
        }
    } else if r.auto {
        let seed: u8 = match mark {
            Some(m) => m,
            None => 0,
        };
        if answer != seed {
            Some(r.steady)
        } else {
            Some(0)
        }
    } else {
        r.constant
    }
}

/// Where the title answers: the one of the two bytes that does not carry the reason.
pub fn answer_offset(reason_offset: u32) -> (r: u32)
    ensures
        r == (if reason_offset == 0 {
            0x100u32
        } else {
            0
        }),
{
    if reason_offset == 0 {
        0x100
    } else {
        0
    }
}

/// With `auto` the title is asked for its first call until it answers, and for frames from then
/// on, as long as the answer stands.
pub proof fn law_auto_asks_until_answered(r: Reason, frames: int, answer: u8, mark: Option<u8>)
    requires
        r.auto,
        !r.first0,
    ensures
        ({
            let seed: u8 = match mark {
                Some(m) => m,
                None => 0,
            };
            &&& answer == seed ==> reason_byte(r, frames, answer, mark) == Some(0u8)
            &&& answer != seed ==> reason_byte(r, frames, answer, mark) == Some(r.steady)
        }),
{
}

/// With `first0` the byte is zero on the first frame and the steady byte on every other.
pub proof fn law_first0_is_zero_once(r: Reason, frames: int, answer: u8, mark: Option<u8>)
    requires
        r.first0,
    ensures
        reason_byte(r, 0, answer, mark) == Some(0u8),
        frames != 0 ==> reason_byte(r, frames, answer, mark) == Some(r.steady),
{
}

// ---------------------------------------------------------------- laws of the arguments

proof fn lemma_unknown_is_filter(a: Seq<Seq<char>>, n: int)
    requires
        0 <= n <= a.len(),
    ensures
        unknown_of(a, n) == a.take(n).filter(|s: Seq<char>| !known_argument(s)),
    decreases n,
{
    reveal(Seq::filter);
    if n > 0 {
        lemma_unknown_is_filter(a, n - 1);
        assert(a.take(n).drop_last() =~= a.take(n - 1));
        assert(a.take(n).last() == a[n - 1]);
    } else {
        assert(a.take(0) =~= Seq::empty());
    }
}

/// The arguments that are refused are just those that are not known, in their order.
pub proof fn law_unknown_arguments_are_refused(a: Seq<Seq<char>>)
    ensures
        unknown_of(a, a.len() as int) == a.filter(|s: Seq<char>| !known_argument(s)),
{
    lemma_unknown_is_filter(a, a.len() as int);
    assert(a.take(a.len() as int) =~= a);
}

proof fn lemma_begins_with(p: Seq<char>, rest: Seq<char>)
    ensures
        begins(p + rest, p),
{
    assert((p + rest).take(p.len() as int) =~= p);
}

/// What does not begin with two hyphens is always known; a flag that takes a value is known with
/// every value; and a flag that takes none is known alone.
pub proof fn law_what_is_known(a: Seq<char>, k: int, value: Seq<char>)
    ensures
        !(a.len() >= 2 && a[0] == '-' && a[1] == '-') ==> known_argument(a),
        0 <= k < value_flags().len() ==> known_argument(value_flags()[k] + value),
        0 <= k < plain_flags().len() ==> known_argument(plain_flags()[k]),
        known_argument(a) && a.len() >= 2 && a[0] == '-' && a[1] == '-' ==> plain_flags().contains(a)
            || exists|j: int| 0 <= j < value_flags().len() && begins(a, #[trigger] value_flags()[j]),
{
    reveal_strlit("--");
    if begins(a, "--"@) {
        assert(a.take(2)[0] == a[0] && a.take(2)[1] == a[1]);
    }
    if a.len() >= 2 && a[0] == '-' && a[1] == '-' {
        assert(a.take(2) =~= "--"@);
    }
    if 0 <= k < value_flags().len() {
        lemma_begins_with(value_flags()[k], value);
        assert(begins(value_flags()[k] + value, value_flags()[k]));
    }
    if 0 <= k < plain_flags().len() {
        assert(plain_flags().contains(plain_flags()[k]));
    }
}

/// Every option that is read is known: the flags one by one, and those with a value with any.
#[verifier::rlimit(60)]
pub proof fn law_every_option_is_known(v: Seq<char>)
    ensures
        known_argument("--mute"@),
        known_argument("--audio"@),
        known_argument("--headless"@),
        known_argument("--load-on-open"@),
        known_argument("--no-load-on-open"@),
        known_argument("--sync-files"@),
        known_argument("--script="@ + v),
        known_argument("--gamedir="@ + v),
        known_argument("--frames="@ + v),
        known_argument("--battery="@ + v),
        known_argument("--frame-reason="@ + v),
        known_argument("--pump-mark="@ + v),
        known_argument("--reason-offset="@ + v),
        known_argument("--poke="@ + v),
        known_argument("--patch="@ + v),
        known_argument("--flags-addr="@ + v),
        known_argument("--press-times="@ + v),
        known_argument("--watch-pc="@ + v),
        known_argument("--watch-mem="@ + v),
        known_argument("--dump-mem="@ + v),
        known_argument("--wheel-top="@ + v),
        known_argument("--scale="@ + v),
        known_argument("--fps="@ + v),
{
    let p = plain_flags();
    assert(p[10] == "--mute"@);
    assert(p[9] == "--audio"@);
    assert(p[6] == "--headless"@);
    assert(p[7] == "--load-on-open"@);
    assert(p[11] == "--no-load-on-open"@);
    assert(p[14] == "--sync-files"@);
    law_what_is_known("--mute"@, 10, v);
    law_what_is_known("--audio"@, 9, v);
    law_what_is_known("--headless"@, 6, v);
    law_what_is_known("--load-on-open"@, 7, v);
    law_what_is_known("--no-load-on-open"@, 11, v);
    law_what_is_known("--sync-files"@, 14, v);
    let f = value_flags();
    assert(f[22] == "--script="@);
    assert(f[15] == "--gamedir="@);
    assert(f[14] == "--frames="@);
    assert(f[0] == "--battery="@);
    assert(f[13] == "--frame-reason="@);
    assert(f[19] == "--pump-mark="@);
    assert(f[20] == "--reason-offset="@);
    assert(f[17] == "--poke="@);
    assert(f[16] == "--patch="@);
    assert(f[11] == "--flags-addr="@);
    assert(f[18] == "--press-times="@);
    assert(f[24] == "--watch-pc="@);
    assert(f[23] == "--watch-mem="@);
    assert(f[7] == "--dump-mem="@);
    assert(f[26] == "--wheel-top="@);
    assert(f[21] == "--scale="@);
    assert(f[12] == "--fps="@);
    law_what_is_known(Seq::empty(), 22, v);
    law_what_is_known(Seq::empty(), 15, v);
    law_what_is_known(Seq::empty(), 14, v);
    law_what_is_known(Seq::empty(), 0, v);
    law_what_is_known(Seq::empty(), 13, v);
    law_what_is_known(Seq::empty(), 19, v);
    law_what_is_known(Seq::empty(), 20, v);
    law_what_is_known(Seq::empty(), 17, v);
    law_what_is_known(Seq::empty(), 16, v);
    law_what_is_known(Seq::empty(), 11, v);
    law_what_is_known(Seq::empty(), 18, v);
    law_what_is_known(Seq::empty(), 24, v);
    law_what_is_known(Seq::empty(), 23, v);
    law_what_is_known(Seq::empty(), 7, v);
    law_what_is_known(Seq::empty(), 26, v);
    law_what_is_known(Seq::empty(), 21, v);
    law_what_is_known(Seq::empty(), 12, v);
}

/// Sound is on where it is asked for, whatever else is; else it is off where it is switched off,
/// without a window and in a scripted run, and on in every other run.
pub proof fn law_when_it_is_silent(a: Seq<Seq<char>>)
    ensures
        a.contains("--audio"@) ==> !is_muted(a),
        !a.contains("--audio"@) && (a.contains("--mute"@) || a.contains("--headless"@)) ==> is_muted(
            a,
        ),
        !a.contains("--audio"@) && value_of(a, "--script="@) is Some ==> is_muted(a),
        !a.contains("--mute"@) && !a.contains("--headless"@) && value_of(a, "--script="@) is None
            ==> !is_muted(a),
{
}

/// A directory that is given counts before the one above the binary.
pub proof fn law_a_given_directory_counts_first(
    a: Seq<Seq<char>>,
    k: int,
    dir: Seq<char>,
    above: Option<Seq<char>>,
)
    requires
        0 <= k < a.len(),
        a[k] == "--gamedir="@ + dir,
        forall|j: int| 0 <= j < k ==> !begins(#[trigger] a[j], "--gamedir="@),
    ensures
        resources(a, above) == Some(dir),
        resources(Seq::empty(), above) == above,
{
    law_the_first_value_counts(a, "--gamedir="@, k, dir);
    law_no_argument_gives_no_value("--gamedir="@);
}

/// A number that is given for an option is the number that is read, to its last digit, where it is
/// within the option's limit, and there is none where it is not.
pub proof fn law_a_number_is_given(
    a: Seq<Seq<char>>,
    k: int,
    key: Seq<char>,
    n: nat,
    max: int,
)
    requires
        0 <= k < a.len(),
        a[k] == key + dec(n),
        forall|j: int| 0 <= j < k ==> !begins(#[trigger] a[j], key),
    ensures
        number_option(a, key, max) == (if n <= max {
            Some(n as int)
        } else {
            None
        }),
{
    law_the_first_value_counts(a, key, k, dec(n));
    law_decimal_reads_back(n, 0, max);
}

/// The picture is shown at one of four sizes: the one that is asked for, and four-fold for every
/// other wish.
pub proof fn law_the_picture_has_four_sizes(n: usize)
    ensures
        scale_for(n) == 1 || scale_for(n) == 2 || scale_for(n) == 4 || scale_for(n) == 8,
        n == 1 || n == 2 || n == 4 || n == 8 ==> scale_for(n) == n,
        n != 1 && n != 2 && n != 8 ==> scale_for(n) == 4,
{
}

// ---------------------------------------------------------------- laws of the words

proof fn lemma_hex_is_bare(n: nat)
    ensures
        bare_hex(hex(n)) == hex(n),
        bare_hex("0x"@ + hex(n)) == hex(n),
        trimmed(hex(n)) == hex(n),
        trimmed("0x"@ + hex(n)) == "0x"@ + hex(n),
        !hex(n).contains(','),
        !hex(n).contains('='),
        !hex(n).contains(':'),
        !("0x"@ + hex(n)).contains(','),
        !("0x"@ + hex(n)).contains('='),
        !("0x"@ + hex(n)).contains(':'),
{
    law_hex_reads_back(n, 0, n as int);
    assert(hex_wide(n, 0) =~= hex(n));
    assert(hex(n).len() > 0) by {
        if hex(n).len() == 0 {
            law_other_text_is_no_number(hex(n), true, n as int, 0);
        }
    }
    lemma_digits_are_bare(hex(n));
    lemma_digits_are_trimmed(hex(n));
    lemma_digits_hold_no_mark(hex(n));
}

spec fn hex_digits(h: Seq<char>) -> bool {
    h.len() > 0 && forall|i: int|
        0 <= i < h.len() ==> ('0' <= #[trigger] h[i] <= '9' || 'a' <= h[i] <= 'f')
}

proof fn lemma_digits_are_bare(h: Seq<char>)
    requires
        hex_digits(h),
    ensures
        bare_hex(h) == h,
        bare_hex("0x"@ + h) == h,
{
    reveal_strlit("0x");
    let t = "0x"@ + h;
    if begins(h, "0x"@) {
        assert(h.take(2)[1] == h[1]);
        assert(h[1] == 'x');
    }
    assert(t.take(2) =~= "0x"@);
    assert(t.skip(2) =~= h);
    assert(bare_hex(t) == bare_hex(h));
}

proof fn lemma_digits_are_trimmed(h: Seq<char>)
    requires
        hex_digits(h),
    ensures
        trimmed(h) == h,
        trimmed("0x"@ + h) == "0x"@ + h,
{
    reveal_strlit("0x");
    let t = "0x"@ + h;
    let none = Seq::<char>::empty();
    assert(h.last() == h[h.len() - 1]);
    assert(t[0] == '0' && t.last() == h.last());
    law_trimming_takes_white_space_alone(none, h, none);
    law_trimming_takes_white_space_alone(none, t, none);
    assert(none + h + none =~= h);
    assert(none + t + none =~= t);
}

proof fn lemma_digits_hold_no_mark(h: Seq<char>)
    requires
        hex_digits(h),
    ensures
        !h.contains(','),
        !h.contains('='),
        !h.contains(':'),
        !("0x"@ + h).contains(','),
        !("0x"@ + h).contains('='),
        !("0x"@ + h).contains(':'),
{
    reveal_strlit("0x");
    let t = "0x"@ + h;
    assert forall|k: int| 0 <= k < t.len() implies t[k] != ',' && t[k] != '=' && t[k] != ':' by {
        if k >= 2 {
            assert(t[k] == h[k - 2]);
        }
    }
}

/// A word that is written in hexadecimal, with `0x` or without and with white space around it or
/// without, is read back.
pub proof fn law_a_word_is_read_back(a: Seq<char>, n: u32, b: Seq<char>)
    requires
        forall|k: int| 0 <= k < a.len() ==> is_space(#[trigger] a[k]),
        forall|k: int| 0 <= k < b.len() ==> is_space(#[trigger] b[k]),
    ensures
        hex_word(a + ("0x"@ + hex(n as nat)) + b) == Some(n as int),
        hex_word(a + hex(n as nat) + b) == Some(n as int),
        hex_word("0x"@ + hex(n as nat)) == Some(n as int),
        hex_word(hex(n as nat)) == Some(n as int),
{
    lemma_hex_is_bare(n as nat);
    lemma_hex_ends(n as nat);
    law_hex_reads_back(n as nat, 0, 0xffff_ffff);
    law_trimming_takes_white_space_alone(a, "0x"@ + hex(n as nat), b);
    law_trimming_takes_white_space_alone(a, hex(n as nat), b);
}

proof fn lemma_hex_ends(n: nat)
    ensures
        hex(n).len() > 0,
        !is_space(hex(n)[0]),
        !is_space(hex(n).last()),
        !is_space(("0x"@ + hex(n))[0]),
        !is_space(("0x"@ + hex(n)).last()),
{
    reveal_strlit("0x");
    law_hex_reads_back(n, 0, n as int);
    let h = hex(n);
    assert(hex_wide(n, 0) =~= h);
    assert(h.len() > 0) by {
        if h.len() == 0 {
            law_other_text_is_no_number(h, true, n as int, 0);
        }
    }
    assert(("0x"@ + h).last() == h.last());
}

/// Words as they are written in a list.
pub open spec fn word_texts(v: Seq<u32>) -> Seq<Seq<char>> {
    v.map_values(|w: u32| "0x"@ + hex(w as nat))
}

proof fn lemma_words_in(v: Seq<u32>, n: int)
    requires
        0 <= n <= v.len(),
    ensures
        words_in(word_texts(v), n) == v.take(n),
    decreases n,
{
    if n > 0 {
        lemma_words_in(v, n - 1);
        law_a_word_is_read_back(Seq::empty(), v[n - 1], Seq::empty());
        assert(word_texts(v)[n - 1] == "0x"@ + hex(v[n - 1] as nat));
        assert(v.take(n) =~= v.take(n - 1).push(v[n - 1]));
    } else {
        assert(v.take(0) =~= Seq::empty());
    }
}

/// A list of words that is written with commas is read back, every word in its place.
pub proof fn law_a_list_of_words_is_read_back(v: Seq<u32>)
    requires
        v.len() > 0,
    ensures
        word_list(rejoined(word_texts(v), ',')) == v,
{
    let t = word_texts(v);
    assert forall|k: int| 0 <= k < t.len() implies !(#[trigger] t[k]).contains(',') by {
        lemma_hex_is_bare(v[k] as nat);
    }
    law_joined_parts_come_apart(t, ',');
    lemma_words_in(v, v.len() as int);
    assert(v.take(v.len() as int) =~= v);
}

/// A poke that is written `address=word,word...` is read back; one with no word is none.
pub proof fn law_a_poke_is_read_back(at: u32, v: Seq<u32>)
    requires
        v.len() > 0,
    ensures
        poke_of("0x"@ + hex(at as nat) + seq!['='] + rejoined(word_texts(v), ',')) == Some(
            (at as int, v),
        ),
        poke_of("0x"@ + hex(at as nat)) is None,
{
    let h = "0x"@ + hex(at as nat);
    lemma_hex_is_bare(at as nat);
    law_a_word_is_read_back(Seq::empty(), at, Seq::empty());
    law_a_text_is_cut_at_the_first(h, '=', rejoined(word_texts(v), ','));
    law_a_list_of_words_is_read_back(v);
}

/// A range that is written `address:count` is read back; without a count it has eight words.
pub proof fn law_a_range_is_read_back(at: u32, n: u32)
    ensures
        memory_range("0x"@ + hex(at as nat) + seq![':'] + dec(n as nat)) == Some(
            (at as int, n as int),
        ),
        memory_range("0x"@ + hex(at as nat)) == Some((at as int, 8int)),
{
    let h = "0x"@ + hex(at as nat);
    lemma_hex_is_bare(at as nat);
    law_a_word_is_read_back(Seq::empty(), at, Seq::empty());
    law_a_text_is_cut_at_the_first(h, ':', dec(n as nat));
    lemma_dec_is_trimmed(n as nat);
    law_decimal_reads_back(n as nat, 0, 0xffff_ffff);
}

pub proof fn lemma_dec_is_trimmed(n: nat)
    ensures
        trimmed(dec(n)) == dec(n),
        !is_space(dec(n)[0]),
        !is_space(dec(n).last()),
        !dec(n).contains(','),
        !dec(n).contains(':'),
        !dec(n).contains('#'),
        !dec(n).contains('\n'),
{
    law_decimal_reads_back(n, 0, n as int);
    let d = dec(n);
    let none = Seq::<char>::empty();
    assert(d.last() == d[d.len() - 1]);
    law_trimming_takes_white_space_alone(none, d, none);
    assert(none + d + none =~= d);
}

/// Numbers as they are written in a list.
pub open spec fn number_texts(v: Seq<u32>) -> Seq<Seq<char>> {
    v.map_values(|n: u32| dec(n as nat))
}

proof fn lemma_numbers_in(v: Seq<u32>, n: int)
    requires
        0 <= n <= v.len(),
    ensures
        numbers_in(number_texts(v), n) == v.take(n),
    decreases n,
{
    if n > 0 {
        lemma_numbers_in(v, n - 1);
        lemma_dec_is_trimmed(v[n - 1] as nat);
        law_decimal_reads_back(v[n - 1] as nat, 0, 0xffff_ffff);
        assert(number_texts(v)[n - 1] == dec(v[n - 1] as nat));
        assert(v.take(n) =~= v.take(n - 1).push(v[n - 1]));
    } else {
        assert(v.take(0) =~= Seq::empty());
    }
}

/// A list of numbers that is written with commas is read back, every number in its place.
pub proof fn law_a_list_of_numbers_is_read_back(v: Seq<u32>)
    requires
        v.len() > 0,
    ensures
        ({
            let p = pieces(rejoined(number_texts(v), ','), ',');
            numbers_in(p, p.len() as int) == v
        }),
{
    let t = number_texts(v);
    assert forall|k: int| 0 <= k < t.len() implies !(#[trigger] t[k]).contains(',') by {
        lemma_dec_is_trimmed(v[k] as nat);
    }
    law_joined_parts_come_apart(t, ',');
    lemma_numbers_in(v, v.len() as int);
    assert(v.take(v.len() as int) =~= v);
}

/// An address that is given for an option is the address that is read; without the option there is
/// none, and what is no address is said to be bad.
pub proof fn law_an_address_is_given(a: Seq<Seq<char>>, k: int, key: Seq<char>, n: u32, bad: Seq<char>)
    requires
        0 <= k < a.len(),
        forall|j: int| 0 <= j < k ==> !begins(#[trigger] a[j], key),
        bad.len() > 0,
        bad[0] == 'z',
    ensures
        a[k] == key + ("0x"@ + hex(n as nat)) ==> address_option(a, key) == AddressOption::Given(n),
        a[k] == key + bad ==> address_option(a, key) == AddressOption::Bad,
        address_option(Seq::empty(), key) == AddressOption::Absent,
{
    if a[k] == key + ("0x"@ + hex(n as nat)) {
        law_the_first_value_counts(a, key, k, "0x"@ + hex(n as nat));
        lemma_hex_is_bare(n as nat);
        law_hex_reads_back(n as nat, 0, 0xffff_ffff);
    }
    if a[k] == key + bad {
        law_the_first_value_counts(a, key, k, bad);
        reveal_strlit("0x");
        if begins(bad, "0x"@) {
            assert(bad.take(2)[0] == bad[0]);
        }
        law_other_text_is_no_number(bad, true, 0xffff_ffff, 0);
    }
    law_no_argument_gives_no_value(key);
}

// ---------------------------------------------------------------- laws of the reason

/// A reason that is a number is that number in every frame; one that begins with nought has the
/// number behind its colon afterwards, or one; and so has one that asks.
#[verifier::rlimit(60)]
pub proof fn law_a_reason_is_read_back(n: u8)
    ensures
        reason_of(dec(n as nat)) == (Reason {
            auto: false,
            first0: false,
            steady: 1,
            constant: Some(n),
        }),
        reason_of("first0:"@ + dec(n as nat)) == (Reason {
            auto: false,
            first0: true,
            steady: n,
            constant: None,
        }),
        reason_of("auto:"@ + dec(n as nat)) == (Reason {
            auto: true,
            first0: false,
            steady: n,
            constant: None,
        }),
        reason_of("auto"@) == (Reason { auto: true, first0: false, steady: 1, constant: None }),
        reason_of("first0"@) == (Reason { auto: false, first0: true, steady: 1, constant: None }),
{
    let d = dec(n as nat);
    law_decimal_reads_back(n as nat, 0, 255);
    lemma_dec_is_trimmed(n as nat);
    reveal_strlit("auto");
    reveal_strlit("first0");
    reveal_strlit("auto:");
    reveal_strlit("first0:");
    if begins(d, "auto"@) {
        assert(d.take(4)[0] == d[0]);
    }
    if begins(d, "first0"@) {
        assert(d.take(6)[0] == d[0]);
    }
    law_a_text_is_cut_at_the_first(d, ':', d);
    let f = "first0:"@ + d;
    let g = "auto:"@ + d;
    assert(f =~= "first0"@ + seq![':'] + d);
    assert(g =~= "auto"@ + seq![':'] + d);
    assert(!"first0"@.contains(':'));
    assert(!"auto"@.contains(':'));
    law_a_text_is_cut_at_the_first("first0"@, ':', d);
    law_a_text_is_cut_at_the_first("auto"@, ':', d);
    assert(f.take(6) =~= "first0"@);
    assert(g.take(4) =~= "auto"@);
    assert("auto"@.take(4) =~= "auto"@);
    assert("first0"@.take(6) =~= "first0"@);
    assert(f[0] == 'f');
    assert(g[0] == 'a');
    if begins(f, "auto"@) {
        assert(f.take(4)[0] == f[0]);
    }
    if begins(g, "first0"@) {
        assert(g.take(6)[0] == g[0]);
    }
    if begins("auto"@, "first0"@) {
        assert("auto"@.len() >= 6);
    }
    if begins("first0"@, "auto"@) {
        assert("first0"@.take(4)[0] == "first0"@[0]);
    }
    law_other_text_is_no_number(f, false, 255, 0);
    law_other_text_is_no_number(g, false, 255, 1);
    law_other_text_is_no_number("auto"@, false, 255, 0);
    law_other_text_is_no_number("first0"@, false, 255, 0);
}

/// A constant reason is written in every frame, and nothing is written where no reason was given.
pub proof fn law_a_constant_reason_stays(r: Reason, frames: int, answer: u8, mark: Option<u8>)
    requires
        !r.auto,
        !r.first0,
    ensures
        reason_byte(r, frames, answer, mark) == r.constant,
        reason_byte(reason_left_alone(), frames, answer, mark) is None,
{
}

#[verifier::rlimit(60)]
proof fn lemma_words_are_filtered(p: Seq<Seq<char>>, n: int)
    requires
        0 <= n <= p.len(),
    ensures
        words_in(p, n) == p.take(n).filter_map(
            |s: Seq<char>|
                match hex_word(s) {
                    Some(w) => Some(w as u32),
                    None => None,
                },
        ),
        numbers_in(p, n) == p.take(n).filter_map(
            |s: Seq<char>|
                match unsigned(trimmed(s), false, 0xffff_ffff) {
                    Some(w) => Some(w as u32),
                    None => None,
                },
        ),
    decreases n,
{
    if n > 0 {
        lemma_words_are_filtered(p, n - 1);
        assert(p.take(n).drop_last() =~= p.take(n - 1));
        let a = words_in(p, n - 1);
        let b = numbers_in(p, n - 1);
        if hex_word(p[n - 1]) is Some {
            let w = (hex_word(p[n - 1])->0) as u32;
            assert(a.push(w) =~= a + seq![w]);
        }
        if unsigned(trimmed(p[n - 1]), false, 0xffff_ffff) is Some {
            let w = (unsigned(trimmed(p[n - 1]), false, 0xffff_ffff)->0) as u32;
            assert(b.push(w) =~= b + seq![w]);
        }
    } else {
        assert(p.take(0) =~= Seq::empty());
    }
}

/// What is no word in a list of words, and what is no number in a list of numbers, is passed over;
/// the rest is read in order.
pub proof fn law_other_parts_are_passed_over(s: Seq<char>)
    ensures
        word_list(s) == pieces(s, ',').filter_map(
            |t: Seq<char>|
                match hex_word(t) {
                    Some(w) => Some(w as u32),
                    None => None,
                },
        ),
        numbers_in(pieces(s, ','), pieces(s, ',').len() as int) == pieces(s, ',').filter_map(
            |t: Seq<char>|
                match unsigned(trimmed(t), false, 0xffff_ffff) {
                    Some(w) => Some(w as u32),
                    None => None,
                },
        ),
{
    let p = pieces(s, ',');
    lemma_words_are_filtered(p, p.len() as int);
    assert(p.take(p.len() as int) =~= p);
}

/// A refusal names every argument that is refused, and every one that is known.
#[verifier::rlimit(60)]
pub proof fn law_a_refusal_names_all(bad: Seq<Seq<char>>, k: int)
    ensures
        0 <= k < bad.len() ==> contains(refusal_text(bad), bad[k]),
        0 <= k < plain_flags().len() ==> contains(refusal_text(bad), plain_flags()[k]),
        0 <= k < value_flags().len() ==> contains(refusal_text(bad), value_flags()[k]),
        begins(refusal_text(bad), "unknown flag(s): "@),
{
    let a = "unknown flag(s): "@;
    let b = joined(bad, " "@, bad.len() as int);
    let c = "\nknown: "@;
    let p = plain_flags();
    let d = joined(p, " "@, p.len() as int);
    let q = value_flags();
    let f = joined(q, "… "@, q.len() as int);
    let s = refusal_text(bad);
    assert(s =~= a + b + (c + d + " "@ + f + "\n"@));
    if 0 <= k < bad.len() {
        lemma_joined_holds(bad, " "@, bad.len() as int, k);
        lemma_contained_further(a, b, c + d + " "@ + f + "\n"@, bad[k]);
    }
    if 0 <= k < p.len() {
        lemma_joined_holds(p, " "@, p.len() as int, k);
        lemma_contained_further(a + b + c, d, " "@ + f + "\n"@, p[k]);
        assert(s =~= (a + b + c) + d + (" "@ + f + "\n"@));
    }
    if 0 <= k < q.len() {
        lemma_joined_holds(q, "… "@, q.len() as int, k);
        lemma_contained_further(a + b + c + d + " "@, f, "\n"@, q[k]);
        assert(s =~= (a + b + c + d + " "@) + f + "\n"@);
    }
    assert(s.take(a.len() as int) =~= a);
}

#[verifier::rlimit(60)]
proof fn lemma_joined_holds(v: Seq<Seq<char>>, sep: Seq<char>, n: int, k: int)
    requires
        0 <= k < n <= v.len(),
    ensures
        contains(joined(v, sep, n), v[k]),
    decreases n,
{
    let none = Seq::<char>::empty();
    if n == 1 {
        law_parts_are_found(none, v[0], none, none);
        assert(none + v[0] + none =~= v[0]);
    } else {
        let before = joined(v, sep, n - 1);
        let all = joined(v, sep, n);
        if k < n - 1 {
            lemma_joined_holds(v, sep, n - 1, k);
            lemma_contained_further(none, before, sep + v[n - 1], v[k]);
            assert(none + before + (sep + v[n - 1]) =~= all);
        } else {
            law_parts_are_found(before + sep, v[n - 1], none, none);
            assert(before + sep + v[n - 1] + none =~= all);
        }
    }
}

} // verus!
