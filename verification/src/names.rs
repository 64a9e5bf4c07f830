//! File names: which files are of interest, and the fields that a name carries.

use vstd::prelude::*;
use vstd::slice::slice_subrange;

use crate::text::{chars_of, ends_with, rfind_char, same_chars, stands_at, starts_with, text_of};
#[allow(unused_imports)]
use crate::text::{begins, ends, last_before, lemma_last_before, occurs_at, run_of};

verus! {

/// Where the last component of the first `j` characters of a path ends: any `/` and `/.` at the end
/// are passed over.
pub open spec fn component_end(path: Seq<char>, j: int) -> int
    decreases j,
{
    if j > 0 && path[j - 1] == '/' {
        component_end(path, j - 1)
    } else if j > 1 && path[j - 1] == '.' && path[j - 2] == '/' {
        component_end(path, j - 1)
    } else {
        j
    }
}

/// The file that a path names: its last component. A path that ends in `..`, or is `.`, names none.
pub open spec fn base_name(path: Seq<char>) -> Seq<char> {
    let end = component_end(path, path.len() as int);
    let last = path.subrange(last_before(path, '/', end) + 1, end);
    if last == seq!['.'] || last == seq!['.', '.'] {
        Seq::empty()
    } else {
        last
    }
}

/// The part of a file name behind its last dot. A name whose only dot is its first character has
/// none, and neither has `..`.
pub open spec fn extension(f: Seq<char>) -> Option<Seq<char>> {
    let k = last_before(f, '.', f.len() as int);
    if k <= 0 || f == seq!['.', '.'] {
        None
    } else {
        Some(f.skip(k + 1))
    }
}

/// A file name without its extension.
pub open spec fn stem(f: Seq<char>) -> Seq<char> {
    if extension(f) is Some {
        f.take(last_before(f, '.', f.len() as int))
    } else {
        f
    }
}

/// ASCII capitals in lower case; every other character as it is.
pub open spec fn lower(c: char) -> char {
    if 'A' <= c <= 'Z' {
        (c as u32 + 32) as char
    } else {
        c
    }
}

/// A text with its ASCII capitals in lower case.
pub open spec fn lowered(s: Seq<char>) -> Seq<char> {
    s.map_values(|c: char| lower(c))
}

/// A file to inspect: a `bin` or a `sinf`, in any case, and no AppleDouble sidecar.
pub open spec fn wanted(f: Seq<char>) -> bool {
    &&& !begins(f, "._"@)
    &&& extension(f) is Some
    &&& lowered(extension(f)->0) == "bin"@ || lowered(extension(f)->0) == "sinf"@
}

fn last_dot(f: &[char]) -> (r: Option<usize>)
    ensures
        match r {
            Some(k) => extension(f@) is Some && k == last_before(f@, '.', f@.len() as int) && 0 < k
                < f@.len(),
            None => extension(f@) is None,
        },
{
    let dots: Vec<char> = vec!['.', '.'];
    assert(dots@ =~= seq!['.', '.']);
    if same_chars(f, dots.as_slice()) {
        return None;
    }
    match rfind_char(f, '.', f.len()) {
        Some(k) => if k == 0 {
            None
        } else {
            Some(k)
        },
        None => None,
    }
}

fn lower_char(c: char) -> (r: char)
    ensures
        r == lower(c),
{
    let n: u32 = c as u32;
    if 65 <= n && n <= 90 {
        ((n + 32) as u8) as char
    } else {
        c
    }
}

/// The characters with ASCII capitals in lower case.
pub fn to_lower(s: &[char]) -> (v: Vec<char>)
    ensures
        v@ == lowered(s@),
{
    let mut v: Vec<char> = Vec::new();
    let mut i: usize = 0;
    while i < s.len()
        invariant
            i <= s@.len(),
            v@ == lowered(s@.take(i as int)),
        decreases s@.len() - i,
    {
        v.push(lower_char(s[i]));
        i += 1;
        assert(v@ =~= lowered(s@.take(i as int)));
    }
    assert(s@.take(i as int) =~= s@);
    v
}

/// Whether the name's extension is exactly `ext`.
pub fn has_extension(name: &str, ext: &str) -> (r: bool)
    ensures
        r == (extension(name@) == Some(ext@)),
{
    let f = chars_of(name);
    match last_dot(f.as_slice()) {
        Some(k) => {
            assert(f@.len() == f.len());
            let e = slice_subrange(f.as_slice(), k + 1, f.len());
            assert(e@ =~= f@.skip(k + 1));
            let x = chars_of(ext);
            same_chars(e, x.as_slice())
        },
        None => false,
    }
}

/// Whether a file of this name is to be inspected.
pub fn is_wanted(name: &str) -> (r: bool)
    ensures
        r == wanted(name@),
{
    let f = chars_of(name);
    let sidecar = chars_of("._");
    if starts_with(f.as_slice(), sidecar.as_slice()) {
        return false;
    }
    match last_dot(f.as_slice()) {
        Some(k) => {
            assert(f@.len() == f.len());
            let e = slice_subrange(f.as_slice(), k + 1, f.len());
            assert(e@ =~= f@.skip(k + 1));
            let e = to_lower(e);
            let bin = chars_of("bin");
            let sinf = chars_of("sinf");
            same_chars(e.as_slice(), bin.as_slice()) || same_chars(e.as_slice(), sinf.as_slice())
        },
        None => false,
    }
}

/// The file that a path names.
pub fn file_name(path: &str) -> (r: String)
    ensures
        r@ == base_name(path@),
{
    let p = chars_of(path);
    assert(p@.len() == p.len());
    let mut end: usize = p.len();
    while end > 0 && (p[end - 1] == '/' || (end > 1 && p[end - 1] == '.' && p[end - 2] == '/'))
        invariant
            end <= p@.len(),
            component_end(p@, p@.len() as int) == component_end(p@, end as int),
        decreases end,
    {
        end -= 1;
    }
    let from: usize = match rfind_char(p.as_slice(), '/', end) {
        Some(k) => k + 1,
        None => 0,
    };
    let last = slice_subrange(p.as_slice(), from, end);
    let dot: Vec<char> = vec!['.'];
    let dots: Vec<char> = vec!['.', '.'];
    assert(dot@ =~= seq!['.']);
    assert(dots@ =~= seq!['.', '.']);
    if same_chars(last, dot.as_slice()) || same_chars(last, dots.as_slice()) {
        let none = String::new();
        assert(none@ =~= Seq::empty());
        return none;
    }
    text_of(last)
}

/// A file name without its extension.
pub fn file_stem(name: &str) -> (r: String)
    ensures
        r@ == stem(name@),
{
    let f = chars_of(name);
    match last_dot(f.as_slice()) {
        Some(k) => {
            let t = slice_subrange(f.as_slice(), 0, k);
            assert(t@ =~= f@.take(k as int));
            text_of(t)
        },
        None => text_of(f.as_slice()),
    }
}

/// Where `n` first stands in `s` at or after `i`; the length when it does not.
pub open spec fn first_text(s: Seq<char>, n: Seq<char>, i: int) -> int
    decreases s.len() - i,
{
    if i >= s.len() {
        s.len() as int
    } else if occurs_at(s, n, i) {
        i
    } else {
        first_text(s, n, i + 1)
    }
}

/// The title in the stem of an executable's name: what stands before the first `_1_1_`.
pub open spec fn title(s: Seq<char>) -> Seq<char> {
    s.take(first_text(s, "_1_1_"@, 0))
}

/// The title that an executable's stem names.
pub fn title_of(stem: &str) -> (r: String)
    ensures
        r@ == title(stem@),
{
    let s = chars_of(stem);
    let n = chars_of("_1_1_");
    let mut i: usize = 0;
    while i < s.len() && !stands_at(s.as_slice(), n.as_slice(), i)
        invariant
            i <= s@.len(),
            n@ == "_1_1_"@,
            first_text(s@, n@, 0) == first_text(s@, n@, i as int),
        decreases s@.len() - i,
    {
        i += 1;
    }
    let t = slice_subrange(s.as_slice(), 0, i);
    assert(t@ =~= s@.take(i as int));
    text_of(t)
}

// ---------------------------------------------------------------- fields

/// `<Name>_<PlatformID>_<HardwareID>_<BuildID>.bin`.
pub struct NameFields {
    pub name: String,
    pub platform_id: String,
    pub hardware_id: String,
    pub build_id: String,
}

/// The contents of the fields.
pub struct FieldsView {
    pub name: Seq<char>,
    pub platform_id: Seq<char>,
    pub hardware_id: Seq<char>,
    pub build_id: Seq<char>,
}

impl View for NameFields {
    type V = FieldsView;

    open spec fn view(&self) -> FieldsView {
        FieldsView {
            name: self.name@,
            platform_id: self.platform_id@,
            hardware_id: self.hardware_id@,
            build_id: self.build_id@,
        }
    }
}

/// `s` without any `.sinf` at its end, however often it stands there.
pub open spec fn without_sinf(s: Seq<char>) -> Seq<char>
    decreases s.len(),
{
    if ends(s, ".sinf"@) && s.len() >= 5 {
        without_sinf(s.take(s.len() - 5))
    } else {
        s
    }
}

/// What stands before `.bin`, a trailing `.sinf` left aside.
pub open spec fn bin_stem(name: Seq<char>) -> Option<Seq<char>> {
    let s = without_sinf(name);
    if ends(s, ".bin"@) && s.len() >= 4 {
        Some(s.take(s.len() - 4))
    } else {
        None
    }
}

/// The four fields: the last three are what stands behind the last three underscores.
pub open spec fn fields_of(name: Seq<char>) -> Option<FieldsView> {
    match bin_stem(name) {
        None => None,
        Some(s) => {
            let c = last_before(s, '_', s.len() as int);
            let b = last_before(s, '_', c);
            let a = last_before(s, '_', b);
            if a < 0 {
                None
            } else {
                Some(
                    FieldsView {
                        name: s.take(a),
                        platform_id: s.subrange(a + 1, b),
                        hardware_id: s.subrange(b + 1, c),
                        build_id: s.skip(c + 1),
                    },
                )
            }
        },
    }
}

/// Reads the fields out of a file name, if it has them.
pub fn parse_name_fields(name: &str) -> (r: Option<NameFields>)
    ensures
        match r {
            Some(f) => fields_of(name@) == Some(f@),
            None => fields_of(name@) is None,
        },
{
    let all = chars_of(name);
    let sinf = chars_of(".sinf");
    let bin = chars_of(".bin");
    proof {
        reveal_strlit(".sinf");
        reveal_strlit(".bin");
    }
    let mut end: usize = all.len();
    assert(all@.take(end as int) =~= all@);
    while ends_with(slice_subrange(all.as_slice(), 0, end), sinf.as_slice())
        invariant
            end <= all@.len(),
            sinf@ == ".sinf"@,
            sinf@.len() == 5,
            without_sinf(all@) == without_sinf(all@.subrange(0, end as int)),
            all@.subrange(0, end as int).len() == end,
        decreases end,
    {
        assert(all@.subrange(0, end as int).take(end - 5) =~= all@.subrange(0, end - 5));
        end -= 5;
    }
    assert(all@.subrange(0, end as int) == without_sinf(all@));
    if !ends_with(slice_subrange(all.as_slice(), 0, end), bin.as_slice()) {
        return None;
    }
    let s = slice_subrange(all.as_slice(), 0, end - 4);
    assert(s@ =~= without_sinf(all@).take(end - 4));
    let c: usize = match rfind_char(s, '_', s.len()) {
        Some(i) => i,
        None => return None,
    };
    let b: usize = match rfind_char(s, '_', c) {
        Some(i) => i,
        None => return None,
    };
    let a: usize = match rfind_char(s, '_', b) {
        Some(i) => i,
        None => return None,
    };
    let n = slice_subrange(s, 0, a);
    assert(n@ =~= s@.take(a as int));
    let d = slice_subrange(s, c + 1, s.len());
    assert(d@ =~= s@.skip(c + 1));
    Some(
        NameFields {
            name: text_of(n),
            platform_id: text_of(slice_subrange(s, a + 1, b)),
            hardware_id: text_of(slice_subrange(s, b + 1, c)),
            build_id: text_of(d),
        },
    )
}

// ---------------------------------------------------------------- laws

proof fn lemma_last_before_is(s: Seq<char>, c: char, j: int, k: int)
    requires
        0 <= k < j <= s.len(),
        s[k] == c,
        forall|i: int| k < i < j ==> s[i] != c,
    ensures
        last_before(s, c, j) == k,
    decreases j,
{
    if k < j - 1 {
        lemma_last_before_is(s, c, j - 1, k);
    }
}

/// A name that is put together from its fields is taken apart into the same fields, whatever the
/// title holds; the other three hold no underscore.
pub proof fn law_fields_round_trip(
    name: Seq<char>,
    platform: Seq<char>,
    hardware: Seq<char>,
    build: Seq<char>,
)
    requires
        forall|k: int| 0 <= k < platform.len() ==> platform[k] != '_',
        forall|k: int| 0 <= k < hardware.len() ==> hardware[k] != '_',
        forall|k: int| 0 <= k < build.len() ==> build[k] != '_',
    ensures
        fields_of(
            name + seq!['_'] + platform + seq!['_'] + hardware + seq!['_'] + build + ".bin"@,
        ) == Some(
            FieldsView {
                name,
                platform_id: platform,
                hardware_id: hardware,
                build_id: build,
            },
        ),
{
    reveal_strlit(".sinf");
    reveal_strlit(".bin");
    let s = name + seq!['_'] + platform + seq!['_'] + hardware + seq!['_'] + build;
    let f = s + ".bin"@;
    assert(f[f.len() - 1] == 'n');
    if ends(f, ".sinf"@) {
        assert(f.skip(f.len() - 5)[4] == 'f');
    }
    assert(f.skip(f.len() - 4) =~= ".bin"@);
    assert(f.take(f.len() - 4) =~= s);
    let a = name.len() as int;
    let b = a + 1 + platform.len();
    let c = b + 1 + hardware.len();
    assert(s[a] == '_' && s[b] == '_' && s[c] == '_');
    assert forall|i: int| a < i < b implies s[i] != '_' by {
        assert(s[i] == platform[i - a - 1]);
    }
    assert forall|i: int| b < i < c implies s[i] != '_' by {
        assert(s[i] == hardware[i - b - 1]);
    }
    assert forall|i: int| c < i < s.len() implies s[i] != '_' by {
        assert(s[i] == build[i - c - 1]);
    }
    lemma_last_before_is(s, '_', s.len() as int, c);
    lemma_last_before_is(s, '_', c, b);
    lemma_last_before_is(s, '_', b, a);
    assert(s.take(a) =~= name);
    assert(s.subrange(a + 1, b) =~= platform);
    assert(s.subrange(b + 1, c) =~= hardware);
    assert(s.skip(c + 1) =~= build);
}

/// The fields that are found put the name together again, and the last three hold no underscore.
pub proof fn law_fields_compose_the_name(name: Seq<char>)
    requires
        fields_of(name) is Some,
    ensures
        ({
            let f = fields_of(name)->0;
            &&& bin_stem(name) == Some(
                f.name + seq!['_'] + f.platform_id + seq!['_'] + f.hardware_id + seq!['_']
                    + f.build_id,
            )
            &&& forall|k: int| 0 <= k < f.platform_id.len() ==> f.platform_id[k] != '_'
            &&& forall|k: int| 0 <= k < f.hardware_id.len() ==> f.hardware_id[k] != '_'
            &&& forall|k: int| 0 <= k < f.build_id.len() ==> f.build_id[k] != '_'
        }),
{
    let s = bin_stem(name)->0;
    let f = fields_of(name)->0;
    let c = last_before(s, '_', s.len() as int);
    lemma_last_before(s, '_', s.len() as int);
    if c >= 0 {
        let b = last_before(s, '_', c);
        lemma_last_before(s, '_', c);
        if b >= 0 {
            lemma_last_before(s, '_', b);
        }
    }
    assert(s =~= f.name + seq!['_'] + f.platform_id + seq!['_'] + f.hardware_id + seq!['_']
        + f.build_id);
}

/// The rights file of an executable carries the executable's own fields.
pub proof fn law_sinf_shares_the_fields(name: Seq<char>)
    ensures
        fields_of(name + ".sinf"@) == fields_of(name),
{
    reveal_strlit(".sinf");
    let f = name + ".sinf"@;
    assert(f.skip(f.len() - 5) =~= ".sinf"@);
    assert(f.take(f.len() - 5) =~= name);
}

/// A sidecar file is never of interest, whatever its extension.
pub proof fn law_sidecars_are_ignored(rest: Seq<char>)
    ensures
        !wanted("._"@ + rest),
{
    let f = "._"@ + rest;
    assert(f.take("._"@.len() as int) =~= "._"@);
}

// ---------------------------------------------------------------- parts of a name

/// A name with a dot inside it is its stem, the last dot and its extension: each is found again.
pub proof fn law_stem_and_extension_round_trip(s: Seq<char>, e: Seq<char>)
    requires
        s.len() > 0,
        !e.contains('.'),
        s + seq!['.'] + e != seq!['.', '.'],
    ensures
        extension(s + seq!['.'] + e) == Some(e),
        stem(s + seq!['.'] + e) == s,
{
    let f = s + seq!['.'] + e;
    let k = s.len() as int;
    assert forall|j: int| k < j < f.len() implies f[j] != '.' by {
        assert(f[j] == e[j - k - 1]);
        assert(e.contains(e[j - k - 1]));
    }
    lemma_last_before(f, '.', f.len() as int);
    assert(f[k] == '.');
    assert(last_before(f, '.', f.len() as int) == k);
    assert(f.skip(k + 1) =~= e);
    assert(f.take(k) =~= s);
}

/// A name without a dot, or with one at its front alone, has no extension and is its own stem.
pub proof fn law_a_leading_dot_is_no_extension(f: Seq<char>)
    requires
        forall|j: int| 0 < j < f.len() ==> #[trigger] f[j] != '.',
    ensures
        extension(f) is None,
        stem(f) == f,
{
    lemma_last_before(f, '.', f.len() as int);
    let k = last_before(f, '.', f.len() as int);
    if k > 0 {
        assert(f[k] == '.');
    }
}

proof fn lemma_component_end_at(path: Seq<char>, j: int)
    requires
        0 < j <= path.len(),
        path[j - 1] != '/',
        !(j > 1 && path[j - 1] == '.' && path[j - 2] == '/'),
    ensures
        component_end(path, j) == j,
{
}

/// The name of a file is what stands behind the last slash of its path, whatever stands before it,
/// and slashes behind it do not matter.
pub proof fn law_a_file_is_named_by_its_last_part(dir: Seq<char>, name: Seq<char>, slashes: nat)
    requires
        name.len() > 0,
        !name.contains('/'),
        name != seq!['.'],
        name != seq!['.', '.'],
    ensures
        base_name(name) == name,
        base_name(dir + seq!['/'] + name) == name,
        base_name(dir + seq!['/'] + name + run_of('/', slashes as int)) == name,
{
    lemma_last_part(Seq::empty(), name, 0);
    assert(Seq::<char>::empty() + name + run_of('/', 0) =~= name);
    let front = dir + seq!['/'];
    lemma_last_part(front, name, 0);
    assert(front + name + run_of('/', 0) =~= front + name);
    lemma_last_part(front, name, slashes);
}

#[verifier::rlimit(60)]
proof fn lemma_last_part(front: Seq<char>, name: Seq<char>, slashes: nat)
    requires
        front.len() == 0 || front.last() == '/',
        name.len() > 0,
        !name.contains('/'),
        name != seq!['.'],
        name != seq!['.', '.'],
    ensures
        base_name(front + name + run_of('/', slashes as int)) == name,
{
    let path = front + name + run_of('/', slashes as int);
    let end = (front.len() + name.len()) as int;
    assert forall|k: int| front.len() <= k < end implies path[k] != '/' by {
        assert(path[k] == name[k - front.len()]);
        assert(name.contains(name[k - front.len()]));
    }
    assert(path[end - 1] == name.last());
    assert(!(end > 1 && path[end - 1] == '.' && path[end - 2] == '/')) by {
        if end > 1 && path[end - 1] == '.' && path[end - 2] == '/' {
            if name.len() > 1 {
                assert(path[end - 2] == name[name.len() - 2]);
                assert(name.contains(name[name.len() - 2]));
            } else {
                assert(name =~= seq!['.']);
            }
        }
    }
    lemma_component_end_at(path, end);
    lemma_trailing_slashes(path, end, path.len() as int);
    lemma_last_before(path, '/', end);
    let k = last_before(path, '/', end);
    assert(k == front.len() - 1) by {
        if k < front.len() - 1 {
            assert(path[front.len() - 1] == front.last());
        }
    }
    assert(path.subrange(k + 1, end) =~= name);
}

proof fn lemma_trailing_slashes(path: Seq<char>, end: int, j: int)
    requires
        0 <= end <= j <= path.len(),
        forall|k: int| end <= k < j ==> path[k] == '/',
    ensures
        component_end(path, j) == component_end(path, end),
    decreases j - end,
{
    if end < j {
        lemma_trailing_slashes(path, end, j - 1);
    }
}

/// A name in small letters holds no capital and is otherwise as it was; capitals become the small
/// letters of the same place in the alphabet.
pub proof fn law_lower_case_changes_capitals_alone(s: Seq<char>, k: int)
    requires
        0 <= k < s.len(),
    ensures
        lowered(s).len() == s.len(),
        !('A' <= lowered(s)[k] <= 'Z'),
        'A' <= s[k] <= 'Z' ==> lowered(s)[k] as int - 'a' as int == s[k] as int - 'A' as int,
        !('A' <= s[k] <= 'Z') ==> lowered(s)[k] == s[k],
{
}

/// A file is looked at for its extension, whatever its case, unless it is a sidecar of the file
/// system.
pub proof fn law_files_are_wanted_by_extension(s: Seq<char>, e: Seq<char>)
    requires
        s.len() > 0,
        !e.contains('.'),
        s + seq!['.'] + e != seq!['.', '.'],
    ensures
        wanted(s + seq!['.'] + e) <==> (lowered(e) == "bin"@ || lowered(e) == "sinf"@) && !begins(
            s + seq!['.'] + e,
            "._"@,
        ),
{
    law_stem_and_extension_round_trip(s, e);
}

/// A title ends where its first version mark begins, and is the whole name where there is none.
pub proof fn law_a_title_ends_at_its_version(s: Seq<char>)
    ensures
        begins(s, title(s)),
        title(s) == s || occurs_at(s, "_1_1_"@, title(s).len() as int),
        forall|i: int| 0 <= i < title(s).len() ==> !occurs_at(s, "_1_1_"@, i),
{
    lemma_first_text(s, "_1_1_"@, 0);
    let k = first_text(s, "_1_1_"@, 0);
    assert(s.take(k).len() == k);
    assert(s.take(title(s).len() as int) =~= title(s));
    if k == s.len() {
        assert(s.take(k) =~= s);
    }
}

proof fn lemma_first_text(s: Seq<char>, n: Seq<char>, i: int)
    requires
        0 <= i <= s.len(),
    ensures
        i <= first_text(s, n, i) <= s.len(),
        first_text(s, n, i) < s.len() ==> occurs_at(s, n, first_text(s, n, i)),
        forall|k: int| i <= k < first_text(s, n, i) ==> !occurs_at(s, n, k),
    decreases s.len() - i,
{
    if i < s.len() && !occurs_at(s, n, i) {
        lemma_first_text(s, n, i + 1);
    }
}

/// A part that is a single dot does not count, and a path that ends with two dots names no file.
#[verifier::rlimit(60)]
pub proof fn law_dots_at_the_end(front: Seq<char>, name: Seq<char>)
    requires
        front.len() == 0 || front.last() == '/',
        name.len() > 0,
        !name.contains('/'),
        name != seq!['.'],
        name != seq!['.', '.'],
    ensures
        base_name(front + name + seq!['/', '.']) == name,
        base_name(front + seq!['.', '.']).len() == 0,
{
    let path = front + name + seq!['/', '.'];
    let end = (front.len() + name.len()) as int;
    assert(path[end] == '/' && path[end + 1] == '.');
    assert forall|k: int| front.len() <= k < end implies path[k] != '/' by {
        assert(path[k] == name[k - front.len()]);
        assert(name.contains(name[k - front.len()]));
    }
    assert(path[end - 1] == name.last());
    assert(!(end > 1 && path[end - 1] == '.' && path[end - 2] == '/')) by {
        if end > 1 && path[end - 1] == '.' && path[end - 2] == '/' {
            if name.len() > 1 {
                assert(path[end - 2] == name[name.len() - 2]);
                assert(name.contains(name[name.len() - 2]));
            } else {
                assert(name =~= seq!['.']);
            }
        }
    }
    lemma_component_end_at(path, end);
    assert(component_end(path, end + 1) == component_end(path, end));
    assert(component_end(path, end + 2) == component_end(path, end + 1));
    lemma_last_before(path, '/', end);
    let k = last_before(path, '/', end);
    assert(k == front.len() - 1) by {
        if k < front.len() - 1 {
            assert(path[front.len() - 1] == front.last());
        }
    }
    assert(path.subrange(k + 1, end) =~= name);
    let up = front + seq!['.', '.'];
    let n = up.len() as int;
    assert(up[n - 1] == '.' && up[n - 2] == '.');
    lemma_component_end_at(up, n);
    lemma_last_before(up, '/', n);
    let j = last_before(up, '/', n);
    assert(j == front.len() - 1) by {
        if j < front.len() - 1 {
            assert(up[front.len() - 1] == front.last());
        }
    }
    assert(up.subrange(j + 1, n) =~= seq!['.', '.']);
}

} // verus!
