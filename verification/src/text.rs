//! Characters and text: digits, padding, searching, splitting and number parsing.
//!
//! Text is modelled as `Seq<char>`. Everything here is total: no function has a precondition
//! beyond an index that lies inside its argument.

use vstd::prelude::*;
use vstd::slice::slice_subrange;
use vstd::string::*;

verus! {

/// `String::push` of the standard library: appends the one character to the end of the string.
pub assume_specification[ String::push ](s: &mut String, c: char)
    ensures
        final(s)@ == old(s)@.push(c),
;

// ---------------------------------------------------------------- digits

/// The digit character of a value below sixteen, in lower case.
pub open spec fn digit_char(d: nat) -> char {
    if d < 10 {
        (48 + d) as char
    } else {
        (87 + d) as char
    }
}

/// Decimal notation without leading zeros.
pub open spec fn dec(n: nat) -> Seq<char>
    decreases n,
{
    if n < 10 {
        seq![digit_char(n)]
    } else {
        dec(n / 10).push(digit_char(n % 10))
    }
}

/// Lower-case hexadecimal notation without leading zeros.
pub open spec fn hex(n: nat) -> Seq<char>
    decreases n,
{
    if n < 16 {
        seq![digit_char(n)]
    } else {
        hex(n / 16).push(digit_char(n % 16))
    }
}

/// `n` copies of `c`.
pub open spec fn run_of(c: char, n: int) -> Seq<char> {
    Seq::new(if n < 0 { 0 } else { n as nat }, |i: int| c)
}

/// `s` filled on the left with `c` up to `width` characters; never cut.
pub open spec fn pad_left(s: Seq<char>, width: int, c: char) -> Seq<char> {
    run_of(c, width - s.len()) + s
}

/// `s` filled on the right with spaces up to `width` characters; never cut.
pub open spec fn pad_right(s: Seq<char>, width: int) -> Seq<char> {
    s + run_of(' ', width - s.len())
}

/// Hexadecimal notation filled with zeros to at least `width` digits.
pub open spec fn hex_wide(n: nat, width: int) -> Seq<char> {
    pad_left(hex(n), width, '0')
}

/// An address: `0x` and eight hexadecimal digits.
pub open spec fn address(n: u32) -> Seq<char> {
    seq!['0', 'x'] + hex_wide(n as nat, 8)
}

fn digit(d: u8) -> (c: char)
    requires
        d < 16,
    ensures
        c == digit_char(d as nat),
{
    if d < 10 {
        (48 + d) as char
    } else {
        (87 + d) as char
    }
}

/// Appends `n` in decimal.
pub fn push_dec(out: &mut String, n: u128)
    ensures
        final(out)@ == old(out)@ + dec(n as nat),
    decreases n,
{
    if n >= 10 {
        push_dec(out, n / 10);
    }
    out.push(digit((n % 10) as u8));
    assert(out@ =~= old(out)@ + dec(n as nat));
}

/// Appends `n` in hexadecimal.
pub fn push_hex(out: &mut String, n: u128)
    ensures
        final(out)@ == old(out)@ + hex(n as nat),
    decreases n,
{
    if n >= 16 {
        push_hex(out, n / 16);
    }
    out.push(digit((n % 16) as u8));
    assert(out@ =~= old(out)@ + hex(n as nat));
}

/// Appends `n` copies of `c`.
pub fn push_run(out: &mut String, c: char, n: usize)
    ensures
        final(out)@ == old(out)@ + run_of(c, n as int),
{
    let mut i: usize = 0;
    assert(out@ =~= old(out)@ + run_of(c, 0));
    while i < n
        invariant
            i <= n,
            out@ == old(out)@ + run_of(c, i as int),
        decreases n - i,
    {
        out.push(c);
        i += 1;
        assert(out@ =~= old(out)@ + run_of(c, i as int));
    }
}

/// Appends `s` filled on the left with `c` up to `width`.
pub fn push_left(out: &mut String, s: &str, width: usize, c: char)
    ensures
        final(out)@ == old(out)@ + pad_left(s@, width as int, c),
{
    let n: usize = s.unicode_len();
    if n < width {
        push_run(out, c, width - n);
    }
    out.append(s);
    assert(out@ =~= old(out)@ + pad_left(s@, width as int, c));
}

/// Appends `s` filled on the right with spaces up to `width`.
pub fn push_right(out: &mut String, s: &str, width: usize)
    ensures
        final(out)@ == old(out)@ + pad_right(s@, width as int),
{
    let n: usize = s.unicode_len();
    out.append(s);
    if n < width {
        push_run(out, ' ', width - n);
    }
    assert(out@ =~= old(out)@ + pad_right(s@, width as int));
}

/// Appends `n` in decimal, filled on the left with spaces up to `width`.
pub fn push_dec_left(out: &mut String, n: u128, width: usize)
    ensures
        final(out)@ == old(out)@ + pad_left(dec(n as nat), width as int, ' '),
{
    let mut t = String::new();
    push_dec(&mut t, n);
    assert(t@ =~= dec(n as nat));
    push_left(out, t.as_str(), width, ' ');
}

/// Appends `n` in hexadecimal with at least `width` digits.
pub fn push_hex_wide(out: &mut String, n: u128, width: usize)
    ensures
        final(out)@ == old(out)@ + hex_wide(n as nat, width as int),
{
    let mut t = String::new();
    push_hex(&mut t, n);
    assert(t@ =~= hex(n as nat));
    push_left(out, t.as_str(), width, '0');
}

/// Appends an address: `0x` and eight digits.
pub fn push_address(out: &mut String, n: u32)
    ensures
        final(out)@ == old(out)@ + address(n),
{
    out.push('0');
    out.push('x');
    push_hex_wide(out, n as u128, 8);
    assert(out@ =~= old(out)@ + address(n));
}

/// What the standard library's `Debug` of a string writes for these characters.
pub uninterp spec fn debug_form(s: Seq<char>) -> Seq<char>;

/// `format!("{:?}", s)` of the standard library on a string: the text in quotation marks with its
/// special characters escaped. The contract names the result and claims that it is a function of
/// the string's characters; which characters are escaped, and how, is left unsaid.
#[verifier::external_body]
pub(crate) fn quoted(s: &str) -> (r: String)
    ensures
        r@ == debug_form(s@),
{
    format!("{:?}", s)
}

/// What the standard library gives as the lower case of these characters.
pub uninterp spec fn lower_form(s: Seq<char>) -> Seq<char>;

/// `str::to_lowercase` of the standard library: the text in lower case by Unicode's rules. The
/// contract names the result and claims that it is a function of the string's characters; the
/// mapping of each character is left unsaid.
#[verifier::external_body]
pub(crate) fn lowercase(s: &str) -> (r: String)
    ensures
        r@ == lower_form(s@),
{
    s.to_lowercase()
}

// ---------------------------------------------------------------- characters and slices

/// Printable ASCII: from the space up to the tilde.
pub open spec fn printable(b: u8) -> bool {
    0x20 <= b < 0x7f
}

/// The character of a printable byte; a dot for any other.
pub open spec fn shown(b: u8) -> char {
    if printable(b) {
        b as char
    } else {
        '.'
    }
}

pub fn is_printable(b: u8) -> (r: bool)
    ensures
        r == printable(b),
{
    0x20 <= b && b < 0x7f
}

pub fn show_byte(b: u8) -> (c: char)
    ensures
        c == shown(b),
{
    if is_printable(b) {
        b as char
    } else {
        '.'
    }
}

/// The characters of a string.
pub fn chars_of(s: &str) -> (v: Vec<char>)
    ensures
        v@ == s@,
{
    let mut v: Vec<char> = Vec::new();
    for c in it: s.chars()
        invariant
            v@ == it.seq().take(it.index() as int),
            it.seq() == s@,
    {
        v.push(c);
        assert(it.seq().take(it.index() as int).push(c) =~= it.seq().take(it.index() + 1));
    }
    assert(v@ =~= s@);
    v
}

/// The string of a run of characters.
pub fn text_of(cs: &[char]) -> (s: String)
    ensures
        s@ == cs@,
{
    let mut s = String::new();
    let mut i: usize = 0;
    while i < cs.len()
        invariant
            i <= cs@.len(),
            s@ == cs@.take(i as int),
        decreases cs@.len() - i,
    {
        s.push(cs[i]);
        i += 1;
        assert(s@ =~= cs@.take(i as int));
    }
    assert(s@ =~= cs@);
    s
}

/// Whether two runs of characters are equal.
pub fn same_chars(a: &[char], b: &[char]) -> (r: bool)
    ensures
        r == (a@ == b@),
{
    if a.len() != b.len() {
        return false;
    }
    let mut i: usize = 0;
    while i < a.len()
        invariant
            i <= a@.len(),
            a@.len() == b@.len(),
            forall|k: int| 0 <= k < i ==> a@[k] == b@[k],
        decreases a@.len() - i,
    {
        if a[i] != b[i] {
            return false;
        }
        i += 1;
    }
    assert(a@ =~= b@);
    true
}

/// Whether two strings are equal.
pub fn same_text(a: &str, b: &str) -> (r: bool)
    ensures
        r == (a@ == b@),
{
    let x = chars_of(a);
    let y = chars_of(b);
    same_chars(x.as_slice(), y.as_slice())
}

// ---------------------------------------------------------------- searching

/// Where `c` first stands at or after `i`; the length of `s` when it does not.
pub open spec fn first_at(s: Seq<char>, c: char, i: int) -> int
    decreases s.len() - i,
{
    if i >= s.len() {
        s.len() as int
    } else if s[i] == c {
        i
    } else {
        first_at(s, c, i + 1)
    }
}

/// Where `c` last stands before `j`; -1 when it does not.
pub open spec fn last_before(s: Seq<char>, c: char, j: int) -> int
    decreases j,
{
    if j <= 0 {
        -1
    } else if s[j - 1] == c {
        j - 1
    } else {
        last_before(s, c, j - 1)
    }
}

/// What `first_at` finds: a position that holds `c`, with none before it.
pub proof fn lemma_first_at(s: Seq<char>, c: char, i: int)
    requires
        0 <= i <= s.len(),
    ensures
        i <= first_at(s, c, i) <= s.len(),
        first_at(s, c, i) < s.len() ==> s[first_at(s, c, i)] == c,
        forall|k: int| i <= k < first_at(s, c, i) ==> s[k] != c,
    decreases s.len() - i,
{
    if i < s.len() && s[i] != c {
        lemma_first_at(s, c, i + 1);
    }
}

/// What `last_before` finds: a position that holds `c`, with none between it and `j`.
pub proof fn lemma_last_before(s: Seq<char>, c: char, j: int)
    requires
        0 <= j <= s.len(),
    ensures
        -1 <= last_before(s, c, j) < j || (j == 0 && last_before(s, c, j) == -1),
        last_before(s, c, j) >= 0 ==> s[last_before(s, c, j)] == c,
        forall|k: int| last_before(s, c, j) < k < j ==> s[k] != c,
    decreases j,
{
    if j > 0 && s[j - 1] != c {
        lemma_last_before(s, c, j - 1);
    }
}

/// The index of the first `c` at or after `from`, or the length.
pub fn find_char(s: &[char], c: char, from: usize) -> (i: usize)
    requires
        from <= s@.len(),
    ensures
        i == first_at(s@, c, from as int),
        from <= i <= s@.len(),
{
    let mut i: usize = from;
    while i < s.len() && s[i] != c
        invariant
            from <= i <= s@.len(),
            first_at(s@, c, from as int) == first_at(s@, c, i as int),
        decreases s@.len() - i,
    {
        i += 1;
    }
    i
}

/// The index of the last `c` before `to`, if there is one.
pub fn rfind_char(s: &[char], c: char, to: usize) -> (r: Option<usize>)
    requires
        to <= s@.len(),
    ensures
        match r {
            Some(i) => i == last_before(s@, c, to as int) && i < to,
            None => last_before(s@, c, to as int) == -1,
        },
{
    let mut j: usize = to;
    while j > 0
        invariant
            j <= to <= s@.len(),
            last_before(s@, c, to as int) == last_before(s@, c, j as int),
        decreases j,
    {
        if s[j - 1] == c {
            return Some(j - 1);
        }
        j -= 1;
    }
    None
}

/// Whether `s` begins with `p`.
pub open spec fn begins(s: Seq<char>, p: Seq<char>) -> bool {
    p.len() <= s.len() && s.take(p.len() as int) == p
}

/// Whether `s` ends with `p`.
pub open spec fn ends(s: Seq<char>, p: Seq<char>) -> bool {
    p.len() <= s.len() && s.skip(s.len() - p.len()) == p
}

/// Whether `n` stands in `h` at `i`.
pub open spec fn occurs_at(h: Seq<char>, n: Seq<char>, i: int) -> bool {
    0 <= i && i + n.len() <= h.len() && h.subrange(i, i + n.len()) == n
}

/// Whether `n` stands anywhere in `h`.
pub open spec fn contains(h: Seq<char>, n: Seq<char>) -> bool {
    exists|i: int| occurs_at(h, n, i)
}

/// Whether `n` stands in `h` at `i`.
pub fn stands_at(h: &[char], n: &[char], i: usize) -> (r: bool)
    ensures
        r == occurs_at(h@, n@, i as int),
{
    if h.len() < n.len() || i > h.len() - n.len() {
        return false;
    }
    let r = same_chars(slice_subrange(h, i, i + n.len()), n);
    r
}

pub fn starts_with(s: &[char], p: &[char]) -> (r: bool)
    ensures
        r == begins(s@, p@),
{
    let r = stands_at(s, p, 0);
    proof {
        if p@.len() <= s@.len() {
            assert(s@.subrange(0, p@.len() as int) =~= s@.take(p@.len() as int));
        }
    }
    r
}

pub fn ends_with(s: &[char], p: &[char]) -> (r: bool)
    ensures
        r == ends(s@, p@),
{
    if s.len() < p.len() {
        return false;
    }
    let r = stands_at(s, p, s.len() - p.len());
    proof {
        assert(s@.subrange(s@.len() - p@.len(), s@.len() as int) =~= s@.skip(s@.len() - p@.len()));
    }
    r
}

/// Whether `n` stands anywhere in `h`.
pub fn has_text(h: &[char], n: &[char]) -> (r: bool)
    ensures
        r == contains(h@, n@),
{
    if h.len() < n.len() {
        return false;
    }
    let last: usize = h.len() - n.len();
    let mut i: usize = 0;
    while i <= last
        invariant
            last == h@.len() - n@.len(),
            i <= last + 1,
            forall|k: int| 0 <= k < i ==> !occurs_at(h@, n@, k),
        decreases last + 1 - i,
    {
        if stands_at(h, n, i) {
            return true;
        }
        if i == last {
            return false;
        }
        i += 1;
    }
    false
}

/// The rest of `s` behind `p`, when `s` begins with `p`.
pub open spec fn behind(s: Seq<char>, p: Seq<char>) -> Option<Seq<char>> {
    if begins(s, p) {
        Some(s.skip(p.len() as int))
    } else {
        None
    }
}

/// The rest of `s` behind `p`, when `s` begins with `p`.
pub fn strip_front<'a>(s: &'a [char], p: &str) -> (r: Option<&'a [char]>)
    ensures
        match r {
            Some(t) => behind(s@, p@) == Some(t@),
            None => behind(s@, p@) is None,
        },
{
    let pc = chars_of(p);
    if starts_with(s, pc.as_slice()) {
        let t = slice_subrange(s, pc.len(), s.len());
        assert(t@ =~= s@.skip(p@.len() as int));
        Some(t)
    } else {
        None
    }
}

// ---------------------------------------------------------------- white space

/// Unicode white space.
pub open spec fn is_space(c: char) -> bool {
    let n = c as u32;
    ||| 9 <= n <= 13
    ||| n == 0x20
    ||| n == 0x85
    ||| n == 0xa0
    ||| n == 0x1680
    ||| 0x2000 <= n <= 0x200a
    ||| n == 0x2028
    ||| n == 0x2029
    ||| n == 0x202f
    ||| n == 0x205f
    ||| n == 0x3000
}

pub fn space(c: char) -> (r: bool)
    ensures
        r == is_space(c),
{
    let n: u32 = c as u32;
    (9 <= n && n <= 13) || n == 0x20 || n == 0x85 || n == 0xa0 || n == 0x1680 || (0x2000 <= n && n
        <= 0x200a) || n == 0x2028 || n == 0x2029 || n == 0x202f || n == 0x205f || n == 0x3000
}

/// The first position at or after `i` that holds no white space, or the length.
pub open spec fn skip_space(s: Seq<char>, i: int) -> int
    decreases s.len() - i,
{
    if i >= s.len() {
        s.len() as int
    } else if is_space(s[i]) {
        skip_space(s, i + 1)
    } else {
        i
    }
}

/// The first position at or after `i` that holds white space, or the length.
pub open spec fn skip_word(s: Seq<char>, i: int) -> int
    decreases s.len() - i,
{
    if i >= s.len() {
        s.len() as int
    } else if is_space(s[i]) {
        i
    } else {
        skip_word(s, i + 1)
    }
}

/// The end of what stands before `j` once the white space directly before `j` is left out.
pub open spec fn drop_space(s: Seq<char>, j: int) -> int
    decreases j,
{
    if j <= 0 {
        0
    } else if is_space(s[j - 1]) {
        drop_space(s, j - 1)
    } else {
        j
    }
}

/// `s` without the white space at its two ends.
pub open spec fn trimmed(s: Seq<char>) -> Seq<char> {
    let a = skip_space(s, 0);
    let b = drop_space(s, s.len() as int);
    if a < b {
        s.subrange(a, b)
    } else {
        Seq::empty()
    }
}

/// The first word of `s` at or after `i`: the longest run without white space; empty at the end.
pub open spec fn word_at(s: Seq<char>, i: int) -> Seq<char> {
    let a = skip_space(s, i);
    s.subrange(a, skip_word(s, a))
}

fn after_space(s: &[char], from: usize) -> (i: usize)
    requires
        from <= s@.len(),
    ensures
        i == skip_space(s@, from as int),
        from <= i <= s@.len(),
{
    let mut i: usize = from;
    while i < s.len() && space(s[i])
        invariant
            from <= i <= s@.len(),
            skip_space(s@, from as int) == skip_space(s@, i as int),
        decreases s@.len() - i,
    {
        i += 1;
    }
    i
}

/// The bounds of the first word at or after `from`.
pub fn next_word(s: &[char], from: usize) -> (r: (usize, usize))
    requires
        from <= s@.len(),
    ensures
        r.0 == skip_space(s@, from as int),
        r.1 == skip_word(s@, r.0 as int),
        from <= r.0 <= r.1 <= s@.len(),
        s@.subrange(r.0 as int, r.1 as int) == word_at(s@, from as int),
{
    let a: usize = after_space(s, from);
    let mut i: usize = a;
    while i < s.len() && !space(s[i])
        invariant
            a <= i <= s@.len(),
            skip_word(s@, a as int) == skip_word(s@, i as int),
        decreases s@.len() - i,
    {
        i += 1;
    }
    (a, i)
}

/// `s` without the white space at its two ends.
pub fn trim<'a>(s: &'a [char]) -> (r: &'a [char])
    ensures
        r@ == trimmed(s@),
{
    let a: usize = after_space(s, 0);
    let mut b: usize = s.len();
    while b > 0 && space(s[b - 1])
        invariant
            b <= s@.len(),
            drop_space(s@, s@.len() as int) == drop_space(s@, b as int),
        decreases b,
    {
        b -= 1;
    }
    if a < b {
        slice_subrange(s, a, b)
    } else {
        let r = slice_subrange(s, 0, 0);
        assert(r@ =~= Seq::<char>::empty());
        r
    }
}

// ---------------------------------------------------------------- numbers

/// The value of a digit or letter; 99 for any other character.
pub open spec fn digit_value(c: char) -> int {
    if '0' <= c <= '9' {
        c as int - 48
    } else if 'a' <= c <= 'z' {
        c as int - 87
    } else if 'A' <= c <= 'Z' {
        c as int - 55
    } else {
        99
    }
}

/// Whether `s` is one or more digits of base sixteen or ten.
pub open spec fn is_number(s: Seq<char>, base16: bool) -> bool {
    s.len() > 0 && forall|i: int|
        0 <= i < s.len() ==> digit_value(#[trigger] s[i]) < (if base16 {
            16int
        } else {
            10
        })
}

/// The value of a run of digits.
pub open spec fn number(s: Seq<char>, base16: bool) -> int
    decreases s.len(),
{
    if s.len() == 0 {
        0
    } else {
        let n = number(s.drop_last(), base16);
        (if base16 {
            16 * n
        } else {
            10 * n
        }) + digit_value(s.last())
    }
}

/// `s` without one plus sign at its front.
pub open spec fn unsigned_part(s: Seq<char>) -> Seq<char> {
    if s.len() > 0 && s[0] == '+' {
        s.skip(1)
    } else {
        s
    }
}

/// The unsigned number that `s` writes: an optional plus sign and digits, at most `max`.
pub open spec fn unsigned(s: Seq<char>, base16: bool, max: int) -> Option<int> {
    let d = unsigned_part(s);
    if is_number(d, base16) && number(d, base16) <= max {
        Some(number(d, base16))
    } else {
        None
    }
}

/// The signed 32-bit number that `s` writes in decimal.
pub open spec fn signed32(s: Seq<char>) -> Option<int> {
    if s.len() > 0 && s[0] == '-' {
        let d = s.skip(1);
        if is_number(d, false) && number(d, false) <= 0x8000_0000 {
            Some(-number(d, false))
        } else {
            None
        }
    } else {
        unsigned(s, false, 0x7fff_ffff)
    }
}

proof fn lemma_number_grows(s: Seq<char>, base16: bool, k: int)
    requires
        0 <= k <= s.len(),
    ensures
        0 <= number(s.take(k), base16) <= number(s, base16),
    decreases s.len(), 
{
    if k == s.len() {
        assert(s.take(k) =~= s);
        if s.len() > 0 {
            lemma_number_grows(s.drop_last(), base16, s.len() - 1);
        }
    } else {
        lemma_number_grows(s.drop_last(), base16, k);
        assert(s.drop_last().take(k) =~= s.take(k));
    }
}

fn value_of(c: char) -> (v: u128)
    ensures
        v == digit_value(c),
{
    let n: u32 = c as u32;
    if 48 <= n && n <= 57 {
        (n - 48) as u128
    } else if 97 <= n && n <= 122 {
        (n - 87) as u128
    } else if 65 <= n && n <= 90 {
        (n - 55) as u128
    } else {
        99
    }
}

fn parse_digits(s: &[char], base16: bool, max: u128) -> (r: Option<u128>)
    requires
        max <= 0xffff_ffff_ffff_ffff,
    ensures
        match r {
            Some(v) => is_number(s@, base16) && v == number(s@, base16) && v <= max,
            None => !(is_number(s@, base16) && number(s@, base16) <= max),
        },
{
    if s.len() == 0 {
        return None;
    }
    let limit: u128 = if base16 {
        16
    } else {
        10
    };
    let mut n: u128 = 0;
    let mut i: usize = 0;
    while i < s.len()
        invariant
            i <= s@.len(),
            max <= 0xffff_ffff_ffff_ffff,
            limit == (if base16 {
                16int
            } else {
                10
            }),
            n == number(s@.take(i as int), base16),
            n <= max,
            forall|k: int| 0 <= k < i ==> digit_value(#[trigger] s@[k]) < limit,
        decreases s@.len() - i,
    {
        let d: u128 = value_of(s[i]);
        if d >= limit {
            return None;
        }
        proof {
            assert(s@.take(i + 1).drop_last() =~= s@.take(i as int));
            lemma_number_grows(s@, base16, i + 1);
        }
        n = (if base16 {
            16 * n
        } else {
            10 * n
        }) + d;
        i += 1;
        if n > max {
            return None;
        }
    }
    assert(s@.take(i as int) =~= s@);
    Some(n)
}

/// Parses an unsigned number, with an optional plus sign.
pub fn parse_unsigned(s: &[char], base16: bool, max: u128) -> (r: Option<u128>)
    requires
        max <= 0xffff_ffff_ffff_ffff,
    ensures
        match r {
            Some(v) => unsigned(s@, base16, max as int) == Some(v as int),
            None => unsigned(s@, base16, max as int) is None,
        },
{
    if s.len() > 0 && s[0] == '+' {
        let d = slice_subrange(s, 1, s.len());
        assert(d@ =~= s@.skip(1));
        parse_digits(d, base16, max)
    } else {
        parse_digits(s, base16, max)
    }
}

/// Parses a signed 32-bit decimal number.
pub fn parse_signed32(s: &[char]) -> (r: Option<i32>)
    ensures
        match r {
            Some(v) => signed32(s@) == Some(v as int),
            None => signed32(s@) is None,
        },
{
    if s.len() > 0 && s[0] == '-' {
        let d = slice_subrange(s, 1, s.len());
        assert(d@ =~= s@.skip(1));
        match parse_digits(d, false, 0x8000_0000) {
            Some(v) => Some((-(v as i64)) as i32),
            None => None,
        }
    } else {
        match parse_unsigned(s, false, 0x7fff_ffff) {
            Some(v) => Some(v as i32),
            None => None,
        }
    }
}

// ---------------------------------------------------------------- splitting

/// The pieces of `s` between the places where `c` stands.
pub open spec fn pieces(s: Seq<char>, c: char) -> Seq<Seq<char>>
    decreases s.len(),
{
    let i = first_at(s, c, 0);
    if 0 <= i < s.len() {
        seq![s.take(i)] + pieces(s.skip(i + 1), c)
    } else {
        seq![s]
    }
}

/// The two sides of the first `c`, when there is one.
pub open spec fn halves(s: Seq<char>, c: char) -> Option<(Seq<char>, Seq<char>)> {
    let i = first_at(s, c, 0);
    if i < s.len() {
        Some((s.take(i), s.skip(i + 1)))
    } else {
        None
    }
}

/// What stands before the first `c`, or all of `s`.
pub open spec fn before(s: Seq<char>, c: char) -> Seq<char> {
    s.take(first_at(s, c, 0))
}

/// The contents of a list of character vectors.
pub open spec fn views(v: Seq<Vec<char>>) -> Seq<Seq<char>> {
    v.map_values(|x: Vec<char>| x@)
}

/// The contents of a list of strings.
pub open spec fn texts(v: Seq<String>) -> Seq<Seq<char>> {
    v.map_values(|x: String| x@)
}

/// The characters of a slice, as a vector of its own.
pub fn copy_chars(s: &[char]) -> (v: Vec<char>)
    ensures
        v@ == s@,
{
    let mut v: Vec<char> = Vec::new();
    let mut i: usize = 0;
    while i < s.len()
        invariant
            i <= s@.len(),
            v@ == s@.take(i as int),
        decreases s@.len() - i,
    {
        v.push(s[i]);
        i += 1;
        assert(v@ =~= s@.take(i as int));
    }
    assert(v@ =~= s@);
    v
}

/// Splits at every `c`.
pub fn split(s: &[char], c: char) -> (r: Vec<Vec<char>>)
    ensures
        views(r@) == pieces(s@, c),
{
    let mut r: Vec<Vec<char>> = Vec::new();
    let mut from: usize = 0;
    assert(s@.skip(0) =~= s@);
    assert(views(r@) + pieces(s@, c) =~= pieces(s@, c));
    loop
        invariant
            from <= s@.len(),
            views(r@) + pieces(s@.skip(from as int), c) == pieces(s@, c),
        decreases s@.len() - from,
    {
        let rest = slice_subrange(s, from, s.len());
        assert(rest@ =~= s@.skip(from as int));
        let i: usize = find_char(rest, c, 0);
        let ghost before_push = r@;
        if i < rest.len() {
            let piece = copy_chars(slice_subrange(rest, 0, i));
            assert(piece@ =~= rest@.take(i as int));
            r.push(piece);
            assert(views(r@) =~= views(before_push).push(piece@));
            assert(rest@.skip(i + 1) =~= s@.skip(from + i + 1));
            assert(views(r@) + pieces(s@.skip(from + i + 1), c) =~= views(before_push) + (
            seq![piece@] + pieces(rest@.skip(i + 1), c)));
            from = from + i + 1;
        } else {
            let piece = copy_chars(rest);
            r.push(piece);
            assert(views(r@) =~= views(before_push).push(piece@));
            assert(views(r@) =~= views(before_push) + seq![piece@]);
            return r;
        }
    }
}

/// Splits at the first `c`.
pub fn split_once<'a>(s: &'a [char], c: char) -> (r: Option<(&'a [char], &'a [char])>)
    ensures
        match r {
            Some(h) => halves(s@, c) == Some((h.0@, h.1@)),
            None => halves(s@, c) is None,
        },
{
    let i: usize = find_char(s, c, 0);
    if i < s.len() {
        let a = slice_subrange(s, 0, i);
        let b = slice_subrange(s, i + 1, s.len());
        assert(a@ =~= s@.take(i as int));
        assert(b@ =~= s@.skip(i + 1));
        Some((a, b))
    } else {
        None
    }
}

/// What stands before the first `c`, or all of `s`.
pub fn front<'a>(s: &'a [char], c: char) -> (r: &'a [char])
    ensures
        r@ == before(s@, c),
{
    let i: usize = find_char(s, c, 0);
    let r = slice_subrange(s, 0, i);
    assert(r@ =~= s@.take(i as int));
    r
}

// ---------------------------------------------------------------- order

/// Lexicographic order by code point.
pub open spec fn text_less(a: Seq<char>, b: Seq<char>) -> bool
    decreases a.len(),
{
    if b.len() == 0 {
        false
    } else if a.len() == 0 {
        true
    } else if a[0] != b[0] {
        a[0] < b[0]
    } else {
        text_less(a.drop_first(), b.drop_first())
    }
}

/// The order is total: of two different texts one comes first.
pub proof fn lemma_text_less_total(a: Seq<char>, b: Seq<char>)
    ensures
        a == b || text_less(a, b) || text_less(b, a),
        a == b ==> !text_less(a, b),
        text_less(a, b) ==> !text_less(b, a),
    decreases a.len(),
{
    if a.len() > 0 && b.len() > 0 {
        lemma_text_less_total(a.drop_first(), b.drop_first());
        if a[0] == b[0] && a.drop_first() == b.drop_first() {
            assert(a =~= seq![a[0]] + a.drop_first());
            assert(b =~= seq![b[0]] + b.drop_first());
        }
    } else if a.len() == 0 && b.len() == 0 {
        assert(a =~= b);
    }
}

/// The order is transitive.
pub proof fn lemma_text_less_transitive(a: Seq<char>, b: Seq<char>, c: Seq<char>)
    requires
        text_less(a, b),
        text_less(b, c),
    ensures
        text_less(a, c),
    decreases a.len(),
{
    if a.len() > 0 && a[0] == b[0] && b[0] == c[0] {
        lemma_text_less_transitive(a.drop_first(), b.drop_first(), c.drop_first());
    }
}

fn code_point(c: char) -> (n: u32)
    ensures
        n as int == c as int,
{
    c as u32
}

/// Whether `a` comes before `b`.
pub fn comes_before(a: &str, b: &str) -> (r: bool)
    ensures
        r == text_less(a@, b@),
{
    let x = chars_of(a);
    let y = chars_of(b);
    let mut i: usize = 0;
    assert(x@.skip(0) =~= x@);
    assert(y@.skip(0) =~= y@);
    while i < x.len() && i < y.len()
        invariant
            x@ == a@,
            y@ == b@,
            i <= x@.len(),
            i <= y@.len(),
            text_less(x@, y@) == text_less(x@.skip(i as int), y@.skip(i as int)),
        decreases x@.len() - i,
    {
        let p: char = x[i];
        let q: char = y[i];
        if p != q {
            return code_point(p) < code_point(q);
        }
        assert(x@.skip(i as int).drop_first() =~= x@.skip(i + 1));
        assert(y@.skip(i as int).drop_first() =~= y@.skip(i + 1));
        i += 1;
    }
    i < y.len()
}

// ---------------------------------------------------------------- reading back

proof fn lemma_dec_digits(n: nat)
    ensures
        dec(n).len() > 0,
        is_number(dec(n), false),
        number(dec(n), false) == n,
        n > 0 ==> dec(n)[0] != '0',
        '0' <= dec(n)[0] <= '9',
        forall|i: int| 0 <= i < dec(n).len() ==> '0' <= #[trigger] dec(n)[i] <= '9',
    decreases n,
{
    let s = dec(n);
    if n >= 10 {
        lemma_dec_digits(n / 10);
        assert(s.drop_last() =~= dec(n / 10));
        assert(s[0] == dec(n / 10)[0]);
        assert forall|i: int| 0 <= i < s.len() implies '0' <= #[trigger] s[i] <= '9' by {
            if i < s.len() - 1 {
                assert(s[i] == dec(n / 10)[i]);
            }
        }
    } else {
        assert(s.drop_last() =~= Seq::empty());
        assert(number(s.drop_last(), false) == 0);
    }
}

proof fn lemma_hex_digits(n: nat)
    ensures
        hex(n).len() > 0,
        is_number(hex(n), true),
        number(hex(n), true) == n,
        forall|i: int|
            0 <= i < hex(n).len() ==> ('0' <= #[trigger] hex(n)[i] <= '9' || 'a' <= hex(n)[i]
                <= 'f'),
    decreases n,
{
    let s = hex(n);
    if n >= 16 {
        lemma_hex_digits(n / 16);
        assert(s.drop_last() =~= hex(n / 16));
        assert forall|i: int| 0 <= i < s.len() implies ('0' <= #[trigger] s[i] <= '9' || 'a' <= s[i]
            <= 'f') by {
            if i < s.len() - 1 {
                assert(s[i] == hex(n / 16)[i]);
            }
        }
        assert forall|i: int| 0 <= i < s.len() implies digit_value(#[trigger] s[i]) < 16 by {}
    } else {
        assert(s.drop_last() =~= Seq::empty());
        assert(number(s.drop_last(), true) == 0);
    }
}

#[verifier::rlimit(60)]
proof fn lemma_zeros_in_front(s: Seq<char>, base16: bool, k: nat)
    ensures
        number(run_of('0', k as int) + s, base16) == number(s, base16),
        is_number(s, base16) ==> is_number(run_of('0', k as int) + s, base16),
    decreases s.len() + k,
{
    let t = run_of('0', k as int) + s;
    if s.len() > 0 {
        lemma_zeros_in_front(s.drop_last(), base16, k);
        assert(t.drop_last() =~= run_of('0', k as int) + s.drop_last());
        assert(t.last() == s.last());
    } else if k > 0 {
        lemma_zeros_in_front(s, base16, (k - 1) as nat);
        assert(t.drop_last() =~= run_of('0', k - 1) + s);
        assert(t.last() == '0');
    } else {
        assert(t =~= s);
    }
    assert forall|i: int| is_number(s, base16) && 0 <= i < t.len() implies digit_value(
        #[trigger] t[i],
    ) < (if base16 {
        16int
    } else {
        10
    }) by {
        if i >= k {
            assert(t[i] == s[i - k]);
        }
    }
}

/// A number that is written in decimal is read back: whatever zeros stand before it and with or
/// without a plus sign, reading gives that very number, to its last digit, and nothing exactly
/// where it is over the limit. What is written is decimal digits without a leading zero.
pub proof fn law_decimal_reads_back(n: nat, zeros: nat, max: int)
    ensures
        unsigned(dec(n), false, max) == (if n <= max {
            Some(n as int)
        } else {
            None
        }),
        unsigned(run_of('0', zeros as int) + dec(n), false, max) == unsigned(dec(n), false, max),
        unsigned(seq!['+'] + dec(n), false, max) == unsigned(dec(n), false, max),
        forall|i: int| 0 <= i < dec(n).len() ==> '0' <= #[trigger] dec(n)[i] <= '9',
        dec(n).len() > 0,
        n > 0 ==> dec(n)[0] != '0',
        n == 0 ==> dec(n) == seq!['0'],
{
    lemma_dec_digits(n);
    lemma_zeros_in_front(dec(n), false, zeros);
    let t = run_of('0', zeros as int) + dec(n);
    assert(t[0] == '0' || t[0] == dec(n)[0]) by {
        if zeros == 0 {
            assert(t =~= dec(n));
        }
    }
    assert((seq!['+'] + dec(n)).skip(1) =~= dec(n));
}

/// A number that is written in hexadecimal, at whatever width, is read back, and nothing comes
/// exactly where it is over the limit. The digits are in lower case, and there are at least as
/// many as the width asks for.
pub proof fn law_hex_reads_back(n: nat, width: nat, max: int)
    ensures
        unsigned(hex(n), true, max) == (if n <= max {
            Some(n as int)
        } else {
            None
        }),
        unsigned(hex_wide(n, width as int), true, max) == unsigned(hex(n), true, max),
        hex_wide(n, width as int).len() >= width,
        hex_wide(n, width as int).len() == width || hex_wide(n, width as int) == hex(n),
        forall|i: int|
            0 <= i < hex_wide(n, width as int).len() ==> ('0' <= #[trigger] hex_wide(
                n,
                width as int,
            )[i] <= '9' || 'a' <= hex_wide(n, width as int)[i] <= 'f'),
{
    lemma_hex_digits(n);
    let s = hex(n);
    let t = hex_wide(n, width as int);
    let k: nat = if width < s.len() {
        0
    } else {
        (width - s.len()) as nat
    };
    lemma_zeros_in_front(s, true, k);
    assert(t =~= run_of('0', k as int) + s);
    if k == 0 {
        assert(t =~= s);
    }
    assert forall|i: int| 0 <= i < t.len() implies ('0' <= #[trigger] t[i] <= '9' || 'a' <= t[i]
        <= 'f') by {
        if i >= k {
            assert(t[i] == s[i - k]);
        }
    }
    assert(s[0] != '+');
    assert(t[0] != '+');
}

/// A signed number that is written is read back, for every value that fits.
pub proof fn law_signed_reads_back(n: i32)
    ensures
        n >= 0 ==> signed32(dec(n as nat)) == Some(n as int),
        n >= 0 ==> signed32(seq!['+'] + dec(n as nat)) == Some(n as int),
        n < 0 ==> signed32(seq!['-'] + dec((-n) as nat)) == Some(n as int),
{
    if n >= 0 {
        law_decimal_reads_back(n as nat, 0, 0x7fff_ffff);
        lemma_dec_digits(n as nat);
    } else {
        lemma_dec_digits((-n) as nat);
        assert((seq!['-'] + dec((-n) as nat)).skip(1) =~= dec((-n) as nat));
    }
}

/// A text in which any character behind an optional plus sign is no digit of the base is no
/// number; nor is an empty one.
pub proof fn law_other_text_is_no_number(s: Seq<char>, base16: bool, max: int, i: int)
    requires
        s.len() == 0 || s == seq!['+'] || (0 <= i < s.len() && (i > 0 || s[i] != '+') && !('0'
            <= s[i] <= '9') && !(base16 && ('a' <= s[i] <= 'f' || 'A' <= s[i] <= 'F'))),
    ensures
        unsigned(s, base16, max) is None,
{
    let d = unsigned_part(s);
    if s.len() > 0 && s != seq!['+'] {
        if s[0] == '+' {
            assert(d[i - 1] == s[i]);
        } else {
            assert(d[i] == s[i]);
        }
    } else if s == seq!['+'] {
        assert(d.len() == 0);
    }
}

/// Hexadecimal digits may be in either case.
pub proof fn law_hex_case_is_free(s: Seq<char>, t: Seq<char>, max: int)
    requires
        s.len() == t.len(),
        forall|i: int|
            0 <= i < s.len() ==> (#[trigger] t[i] == s[i] || ('a' <= s[i] <= 'f' && t[i] as int
                == s[i] as int - 32)),
    ensures
        unsigned(t, true, max) == unsigned(s, true, max),
{
    lemma_case_is_free(unsigned_part(s), unsigned_part(t));
    let a = unsigned_part(s);
    let b = unsigned_part(t);
    assert(a.len() == b.len());
    assert forall|i: int| 0 <= i < a.len() implies digit_value(#[trigger] b[i]) == digit_value(
        a[i],
    ) by {}
    assert(is_number(a, true) == is_number(b, true)) by {
        if is_number(a, true) {
            assert forall|i: int| 0 <= i < b.len() implies digit_value(#[trigger] b[i]) < 16 by {
                assert(digit_value(a[i]) < 16);
            }
        }
        if is_number(b, true) {
            assert forall|i: int| 0 <= i < a.len() implies digit_value(#[trigger] a[i]) < 16 by {
                assert(digit_value(b[i]) < 16);
            }
        }
    }
}

proof fn lemma_case_is_free(s: Seq<char>, t: Seq<char>)
    requires
        s.len() == t.len(),
        forall|i: int|
            0 <= i < s.len() ==> (#[trigger] t[i] == s[i] || ('a' <= s[i] <= 'f' && t[i] as int
                == s[i] as int - 32)),
    ensures
        number(s, true) == number(t, true),
    decreases s.len(),
{
    if s.len() > 0 {
        lemma_case_is_free(s.drop_last(), t.drop_last());
        assert(t.last() == t[t.len() - 1]);
    }
}

proof fn lemma_skip_space_is(s: Seq<char>, i: int, j: int)
    requires
        0 <= i <= j <= s.len(),
        forall|k: int| i <= k < j ==> is_space(#[trigger] s[k]),
        j < s.len() ==> !is_space(s[j]),
    ensures
        skip_space(s, i) == j,
    decreases j - i,
{
    if i < j {
        lemma_skip_space_is(s, i + 1, j);
    }
}

proof fn lemma_drop_space_is(s: Seq<char>, i: int, j: int)
    requires
        0 <= i <= j <= s.len(),
        forall|k: int| i <= k < j ==> is_space(#[trigger] s[k]),
        i > 0 ==> !is_space(s[i - 1]),
    ensures
        drop_space(s, j) == i,
    decreases j - i,
{
    if i < j {
        lemma_drop_space_is(s, i, j - 1);
    }
}

/// White space at either end is taken off and nothing else: what neither begins nor ends with
/// white space comes out whole, whatever white space stood around it.
pub proof fn law_trimming_takes_white_space_alone(a: Seq<char>, t: Seq<char>, b: Seq<char>)
    requires
        forall|k: int| 0 <= k < a.len() ==> is_space(#[trigger] a[k]),
        forall|k: int| 0 <= k < b.len() ==> is_space(#[trigger] b[k]),
        t.len() > 0 ==> !is_space(t[0]) && !is_space(t.last()),
    ensures
        trimmed(a + t + b) == t,
{
    let s = a + t + b;
    if t.len() > 0 {
        assert(s[a.len() as int] == t[0]);
        lemma_skip_space_is(s, 0, a.len() as int);
        assert(s[a.len() + t.len() - 1] == t.last());
        assert forall|k: int| a.len() + t.len() <= k < s.len() implies is_space(#[trigger] s[k]) by {
            assert(s[k] == b[k - a.len() - t.len()]);
        }
        lemma_drop_space_is(s, (a.len() + t.len()) as int, s.len() as int);
        assert(s.subrange(a.len() as int, (a.len() + t.len()) as int) =~= t);
    } else {
        assert forall|k: int| 0 <= k < s.len() implies is_space(#[trigger] s[k]) by {
            if k >= a.len() {
                assert(s[k] == b[k - a.len()]);
            }
        }
        lemma_skip_space_is(s, 0, s.len() as int);
        lemma_drop_space_is(s, 0, s.len() as int);
        assert(trimmed(s) =~= t);
    }
}

pub proof fn lemma_first_at_is(s: Seq<char>, c: char, i: int, j: int)
    requires
        0 <= i <= j <= s.len(),
        forall|k: int| i <= k < j ==> s[k] != c,
        j < s.len() ==> s[j] == c,
    ensures
        first_at(s, c, i) == j,
{
    lemma_first_at(s, c, i);
}

/// A text is cut in two at the first separator: the part before it holds none, and everything
/// behind it stays together. Without a separator there is no cut.
#[verifier::rlimit(60)]
pub proof fn law_a_text_is_cut_at_the_first(a: Seq<char>, c: char, b: Seq<char>)
    requires
        !a.contains(c),
    ensures
        halves(a + seq![c] + b, c) == Some((a, b)),
        halves(a, c) is None,
        before(a + seq![c] + b, c) == a,
        before(a, c) == a,
{
    let s = a + seq![c] + b;
    assert forall|k: int| 0 <= k < a.len() implies s[k] != c by {
        assert(a.contains(a[k]));
    }
    assert forall|k: int| 0 <= k < a.len() implies a[k] != c by {
        assert(a.contains(a[k]));
    }
    lemma_first_at_is(s, c, 0, a.len() as int);
    lemma_first_at_is(a, c, 0, a.len() as int);
    assert(s.take(a.len() as int) =~= a);
    assert(s.skip((a.len() + 1) as int) =~= b);
    assert(a.take(a.len() as int) =~= a);
}

/// The parts of a text, with the separator put back between them.
pub open spec fn rejoined(v: Seq<Seq<char>>, c: char) -> Seq<char>
    decreases v.len(),
{
    if v.len() == 0 {
        Seq::empty()
    } else if v.len() == 1 {
        v[0]
    } else {
        v[0] + seq![c] + rejoined(v.drop_first(), c)
    }
}

/// Splitting loses nothing: no part holds the separator, there is at least one part, and the
/// parts with the separator between them are the text again.
pub proof fn law_parts_rejoin(s: Seq<char>, c: char)
    ensures
        pieces(s, c).len() > 0,
        rejoined(pieces(s, c), c) == s,
        forall|k: int| 0 <= k < pieces(s, c).len() ==> !(#[trigger] pieces(s, c)[k]).contains(c),
    decreases s.len(),
{
    let i = first_at(s, c, 0);
    lemma_first_at(s, c, 0);
    if i < s.len() {
        let rest = s.skip(i + 1);
        law_parts_rejoin(rest, c);
        let v = pieces(s, c);
        assert(v.drop_first() =~= pieces(rest, c));
        assert(s.take(i) + seq![c] + rest =~= s);
        assert(!s.take(i).contains(c));
        assert forall|k: int| 0 <= k < v.len() implies !(#[trigger] v[k]).contains(c) by {
            if k > 0 {
                assert(v[k] == pieces(rest, c)[k - 1]);
            }
        }
    } else {
        assert(!s.contains(c));
    }
}

/// Splitting undoes joining: parts that do not hold the separator come out one by one.
#[verifier::rlimit(60)]
pub proof fn law_joined_parts_come_apart(v: Seq<Seq<char>>, c: char)
    requires
        v.len() > 0,
        forall|k: int| 0 <= k < v.len() ==> !(#[trigger] v[k]).contains(c),
    ensures
        pieces(rejoined(v, c), c) == v,
    decreases v.len(),
{
    let s = rejoined(v, c);
    let a = v[0];
    assert forall|k: int| 0 <= k < a.len() implies a[k] != c by {
        assert(a.contains(a[k]));
    }
    if v.len() == 1 {
        lemma_first_at_is(s, c, 0, s.len() as int);
        assert(pieces(s, c) =~= v);
    } else {
        let t = v.drop_first();
        assert forall|k: int| 0 <= k < t.len() implies !(#[trigger] t[k]).contains(c) by {
            assert(t[k] == v[k + 1]);
        }
        law_joined_parts_come_apart(t, c);
        assert forall|k: int| 0 <= k < a.len() implies s[k] != c by {
            assert(s[k] == a[k]);
        }
        lemma_first_at_is(s, c, 0, a.len() as int);
        assert(s.take(a.len() as int) =~= a);
        assert(s.skip((a.len() + 1) as int) =~= rejoined(t, c));
        assert(pieces(s, c) =~= v);
    }
}

/// Padding changes no text: it stands whole at its end of the cell, blanks fill the rest, and the
/// cell is as wide as asked for, or as the text where that is wider.
pub proof fn law_padding_keeps_the_text(s: Seq<char>, width: nat, c: char)
    ensures
        pad_left(s, width as int, c).len() == (if s.len() < width {
            width
        } else {
            s.len()
        }),
        ends(pad_left(s, width as int, c), s),
        forall|k: int|
            0 <= k < width - s.len() ==> #[trigger] pad_left(s, width as int, c)[k] == c,
        pad_right(s, width as int).len() == (if s.len() < width {
            width
        } else {
            s.len()
        }),
        begins(pad_right(s, width as int), s),
        forall|k: int| s.len() <= k < width ==> #[trigger] pad_right(s, width as int)[k] == ' ',
{
    let l = pad_left(s, width as int, c);
    let r = pad_right(s, width as int);
    assert(l.skip(l.len() - s.len()) =~= s);
    assert(r.take(s.len() as int) =~= s);
}

/// Text is ordered by the first character in which it differs, and a text comes before every
/// longer one that begins with it.
pub proof fn law_text_order_is_by_the_first_difference(
    a: Seq<char>,
    b: Seq<char>,
    k: int,
)
    requires
        0 <= k <= a.len(),
        k <= b.len(),
        forall|i: int| 0 <= i < k ==> a[i] == b[i],
    ensures
        k < a.len() && k < b.len() && a[k] < b[k] ==> text_less(a, b) && !text_less(b, a),
        k == a.len() && k < b.len() ==> text_less(a, b) && !text_less(b, a),
        k == a.len() && k == b.len() ==> !text_less(a, b) && !text_less(b, a),
    decreases k,
{
    if k > 0 {
        let x = a.drop_first();
        let y = b.drop_first();
        assert forall|i: int| 0 <= i < k - 1 implies x[i] == y[i] by {
            assert(x[i] == a[i + 1]);
            assert(y[i] == b[i + 1]);
        }
        law_text_order_is_by_the_first_difference(x, y, k - 1);
        assert(a[0] == b[0]);
        if k < a.len() && k < b.len() {
            assert(x[k - 1] == a[k]);
            assert(y[k - 1] == b[k]);
        }
    }
}

/// A text begins, ends and is continued as it was put together, and holds each of its parts; and
/// what holds a text can be taken apart around it.
#[verifier::rlimit(60)]
pub proof fn law_parts_are_found(a: Seq<char>, n: Seq<char>, b: Seq<char>, h: Seq<char>)
    ensures
        begins(n + b, n),
        behind(n + b, n) == Some(b),
        ends(a + n, n),
        occurs_at(a + n + b, n, a.len() as int),
        contains(a + n + b, n),
        begins(h, n) ==> h == n + h.skip(n.len() as int),
        behind(h, n) is Some <==> begins(h, n),
        ends(h, n) ==> h == h.take(h.len() - n.len()) + n,
        contains(h, n) ==> exists|i: int|
            0 <= i && i + n.len() <= h.len() && h == #[trigger] h.take(i) + n + h.skip(i + n.len()),
{
    assert((n + b).take(n.len() as int) =~= n);
    assert((n + b).skip(n.len() as int) =~= b);
    assert((a + n).skip(a.len() as int) =~= n);
    let s = a + n + b;
    let i = a.len() as int;
    assert(s.subrange(i, i + n.len()) =~= n);
    assert(occurs_at(s, n, i));
    if begins(h, n) {
        assert(h =~= h.take(n.len() as int) + h.skip(n.len() as int));
    }
    if ends(h, n) {
        assert(h =~= h.take(h.len() - n.len()) + h.skip(h.len() - n.len()));
    }
    if contains(h, n) {
        let j = choose|j: int| occurs_at(h, n, j);
        assert(h =~= h.take(j) + h.subrange(j, j + n.len()) + h.skip(j + n.len()));
    }
}

/// White space is just the twenty-five characters that are so by their property.
#[verifier::rlimit(60)]
pub proof fn law_what_is_white_space(c: char)
    ensures
        is_space(c) <==> seq![
            '\u{9}', '\u{a}', '\u{b}', '\u{c}', '\u{d}', '\u{20}', '\u{85}', '\u{a0}', '\u{1680}',
            '\u{2000}', '\u{2001}', '\u{2002}', '\u{2003}', '\u{2004}', '\u{2005}', '\u{2006}',
            '\u{2007}', '\u{2008}', '\u{2009}', '\u{200a}', '\u{2028}', '\u{2029}', '\u{202f}',
            '\u{205f}', '\u{3000}',
        ].contains(c),
{
    let v = seq![
        '\u{9}', '\u{a}', '\u{b}', '\u{c}', '\u{d}', '\u{20}', '\u{85}', '\u{a0}', '\u{1680}',
        '\u{2000}', '\u{2001}', '\u{2002}', '\u{2003}', '\u{2004}', '\u{2005}', '\u{2006}',
        '\u{2007}', '\u{2008}', '\u{2009}', '\u{200a}', '\u{2028}', '\u{2029}', '\u{202f}',
        '\u{205f}', '\u{3000}',
    ];
    let n = c as u32;
    if is_space(c) {
        if 9 <= n <= 13 {
            assert(v[n - 9] == c);
        } else if 0x2000 <= n <= 0x200a {
            assert(v[n - 0x2000 + 9] == c);
        } else if n == 0x20 {
            assert(v[5] == c);
        } else if n == 0x85 {
            assert(v[6] == c);
        } else if n == 0xa0 {
            assert(v[7] == c);
        } else if n == 0x1680 {
            assert(v[8] == c);
        } else if n == 0x2028 {
            assert(v[20] == c);
        } else if n == 0x2029 {
            assert(v[21] == c);
        } else if n == 0x202f {
            assert(v[22] == c);
        } else if n == 0x205f {
            assert(v[23] == c);
        } else {
            assert(v[24] == c);
        }
    }
}

/// An address is written with `0x` and eight digits, and reads back.
#[verifier::rlimit(60)]
pub proof fn law_an_address_is_read_back(n: u32)
    ensures
        address(n).len() == 10,
        address(n)[0] == '0',
        address(n)[1] == 'x',
        unsigned(address(n).skip(2), true, 0xffff_ffff) == Some(n as int),
{
    law_hex_reads_back(n as nat, 8, 0xffff_ffff);
    assert(hex(n as nat).len() <= 8) by {
        reveal_with_fuel(hex, 9);
    }
    assert(hex_wide(n as nat, 8).len() == 8);
    assert(address(n).skip(2) =~= hex_wide(n as nat, 8));
}

/// A word of a text is a run without white space with white space or an end on either side of it.
pub proof fn law_a_word_is_a_whole_run(a: Seq<char>, w: Seq<char>, b: Seq<char>)
    requires
        forall|k: int| 0 <= k < a.len() ==> is_space(#[trigger] a[k]),
        w.len() > 0,
        forall|k: int| 0 <= k < w.len() ==> !is_space(#[trigger] w[k]),
        b.len() > 0 ==> is_space(b[0]),
    ensures
        word_at(a + w + b, 0) == w,
{
    let s = a + w + b;
    let i = a.len() as int;
    let j = i + w.len();
    assert(s[i] == w[0]);
    lemma_skip_space_is(s, 0, i);
    assert forall|k: int| i <= k < j implies !is_space(#[trigger] s[k]) by {
        assert(s[k] == w[k - i]);
    }
    assert(j < s.len() ==> s[j] == b[0]);
    lemma_skip_word_to(s, i, j);
    assert(s.subrange(i, j) =~= w);
}

pub proof fn lemma_skip_word_to(s: Seq<char>, i: int, j: int)
    requires
        0 <= i <= j <= s.len(),
        forall|k: int| i <= k < j ==> !is_space(#[trigger] s[k]),
        j < s.len() ==> is_space(s[j]),
    ensures
        skip_word(s, i) == j,
    decreases j - i,
{
    if i < j {
        lemma_skip_word_to(s, i + 1, j);
    }
}

/// Of parts in a row, each stands where it was put.
#[verifier::rlimit(60)]
pub proof fn lemma_inside(
    a: Seq<char>,
    b: Seq<char>,
    c: Seq<char>,
    d: Seq<char>,
    e: Seq<char>,
    f: Seq<char>,
)
    ensures
        ({
            let s = a + b + c + d + e + f;
            begins(s, a + b) && contains(s, c + d + e) && (f.len() == 0 ==> ends(s, c + d + e))
        }),
{
    let s = a + b + c + d + e + f;
    assert(s.take((a + b).len() as int) =~= a + b);
    let p = c + d + e;
    let i = (a.len() + b.len()) as int;
    assert(s.subrange(i, i + p.len()) =~= p);
    assert(occurs_at(s, p, i));
    if f.len() == 0 {
        assert(s.skip(s.len() - p.len()) =~= p);
    }
}

/// What stands in a part stands in the whole.
pub proof fn lemma_contained_further(a: Seq<char>, h: Seq<char>, b: Seq<char>, n: Seq<char>)
    requires
        contains(h, n),
    ensures
        contains(a + h + b, n),
{
    let i = choose|i: int| occurs_at(h, n, i);
    let s = a + h + b;
    let j = a.len() + i;
    assert(s.subrange(j, j + n.len()) =~= h.subrange(i, i + n.len()));
    assert(occurs_at(s, n, j));
}

/// A row of cells keeps its cells when one more is put behind a gap.
pub proof fn lemma_one_more_cell(a: Seq<char>, gap: Seq<char>, own: Seq<char>, i: int, w: int)
    ensures
        (a + gap + own).len() == a.len() + gap.len() + own.len(),
        0 <= i && 0 <= w && i + w <= a.len() ==> (a + gap + own).subrange(i, i + w) == a.subrange(
            i,
            i + w,
        ),
        0 <= i < a.len() ==> (a + gap + own)[i] == a[i],
        gap.len() > 0 ==> (a + gap + own)[a.len() as int] == gap[0],
        (a + gap + own).subrange(
            (a.len() + gap.len()) as int,
            (a.len() + gap.len() + own.len()) as int,
        ) == own,
{
    let s = a + gap + own;
    if 0 <= i && 0 <= w && i + w <= a.len() {
        assert(s.subrange(i, i + w) =~= a.subrange(i, i + w));
    }
    assert(s.subrange((a.len() + gap.len()) as int, s.len() as int) =~= own);
}

} // verus!
