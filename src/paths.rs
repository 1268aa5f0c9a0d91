use vstd::prelude::*;

verus! {

/// Index of the last occurrence of `c` in `s`, or -1 when `c` does not occur.
pub open spec fn last_index_of(s: Seq<char>, c: char) -> int
    decreases s.len(),
{
    if s.len() == 0 {
        -1
    } else if s.last() == c {
        s.len() - 1
    } else {
        last_index_of(s.drop_last(), c)
    }
}

/// A path with its trailing separators and trailing `.` components removed,
/// down to a lone `/` or `.`: `a/b/./` becomes `a/b`, `//` becomes `/`.
pub open spec fn strip_tail(p: Seq<char>) -> Seq<char>
    decreases p.len(),
{
    if p.len() >= 2 && (p.last() == '/' || (p.last() == '.' && p[p.len() - 2] == '/')) {
        strip_tail(p.drop_last())
    } else {
        p
    }
}

/// The last component of a `/`-separated path, once trailing separators and
/// `.` components are set aside; empty for `/` and for the empty path.
pub open spec fn last_component(p: Seq<char>) -> Seq<char> {
    let s = strip_tail(p);
    s.subrange(last_index_of(s, '/') + 1, s.len() as int)
}

/// The file name of a `/`-separated path, by the component rules of
/// `std::path::Path` on Unix: the last component, unless that is the root,
/// `.` or `..` (or there is none).
pub open spec fn spec_file_name(p: Seq<char>) -> Option<Seq<char>> {
    let c = last_component(p);
    if c.len() == 0 || c == seq!['.'] || c == seq!['.', '.'] {
        None
    } else {
        Some(c)
    }
}

/// The extension of a file name: the text after its last `.`, provided that
/// dot is not the first character (`.hidden` has none, `a.` has an empty one).
pub open spec fn spec_extension(name: Seq<char>) -> Option<Seq<char>> {
    let k = last_index_of(name, '.');
    if k > 0 {
        Some(name.subrange(k + 1, name.len() as int))
    } else {
        None
    }
}

/// The extensions, in lower case, that the browser can display.
pub open spec fn is_whitelisted(e: Seq<char>) -> bool {
    ||| e == seq!['j', 'p', 'g']
    ||| e == seq!['j', 'p', 'e', 'g']
    ||| e == seq!['p', 'n', 'g']
    ||| e == seq!['g', 'i', 'f']
    ||| e == seq!['b', 'm', 'p']
    ||| e == seq!['w', 'e', 'b', 'p']
    ||| e == seq!['s', 'v', 'g']
}

/// What `str::to_lowercase` returns for a string.
pub uninterp spec fn lower_of(s: Seq<char>) -> Seq<char>;

/// A path names a supported image when the lower-cased extension of its
/// final component is on the whitelist.
pub open spec fn is_supported_path(p: Seq<char>) -> bool {
    match spec_file_name(p) {
        Some(n) => match spec_extension(n) {
            Some(e) => is_whitelisted(lower_of(e)),
            None => false,
        },
        None => false,
    }
}

/// `l` is `c` lower-cased by the ASCII rule: `A` to `Z` become `a` to `z`,
/// every other character stays.
pub open spec fn ascii_lowered(c: char, l: char) -> bool {
    if 65 <= (c as u32) <= 90 {
        (l as u32) == (c as u32) + 32
    } else {
        l == c
    }
}

/// Relies on `str::to_lowercase`: the result depends on the characters alone,
/// and on ASCII text it lower-cases the letters one for one.
#[verifier::external_body]
pub(crate) fn lowercase(s: &str) -> (r: String)
    ensures
        r@ == lower_of(s@),
        (forall|i: int| 0 <= i < s@.len() ==> (#[trigger] s@[i] as u32) < 128) ==> r@.len()
            == s@.len() && forall|i: int| 0 <= i < s@.len() ==> ascii_lowered(#[trigger] s@[i], r@[i]),
{
    s.to_lowercase()
}

proof fn lemma_last_index_bounds(s: Seq<char>, c: char)
    ensures
        -1 <= last_index_of(s, c) < s.len(),
        last_index_of(s, c) >= 0 ==> s[last_index_of(s, c)] == c,
    decreases s.len(),
{
    if s.len() > 0 && s.last() != c {
        lemma_last_index_bounds(s.drop_last(), c);
    }
}

proof fn lemma_last_index_prefix(s: Seq<char>, c: char, i: int)
    requires
        0 <= i <= s.len(),
        forall|j: int| i <= j < s.len() ==> s[j] != c,
    ensures
        last_index_of(s, c) == last_index_of(s.subrange(0, i), c),
    decreases s.len(),
{
    if i < s.len() {
        assert(s.drop_last().subrange(0, i) =~= s.subrange(0, i));
        lemma_last_index_prefix(s.drop_last(), c, i);
    } else {
        assert(s.subrange(0, i) =~= s);
    }
}

/// Position of the last `c` in `s`, or -1.
fn find_last(s: &str, c: char) -> (r: Option<usize>)
    ensures
        r matches Some(k) ==> k == last_index_of(s@, c) && k < s@.len(),
        r is None ==> last_index_of(s@, c) == -1,
        s@.len() <= usize::MAX,
{
    let n = s.unicode_len();
    let mut i: usize = n;
    while i > 0
        invariant
            0 <= i <= n,
            n == s@.len(),
            forall|j: int| i <= j < n ==> s@[j] != c,
        decreases i,
    {
        if s.get_char(i - 1) == c {
            proof {
                lemma_last_index_prefix(s@, c, i as int);
                assert(s@.subrange(0, i as int).last() == c);
            }
            return Some(i - 1);
        }
        i = i - 1;
    }
    proof {
        lemma_last_index_prefix(s@, c, 0);
    }
    None
}

/// How many leading characters remain once trailing separators and `.`
/// components are stripped.
fn stripped_len(p: &str) -> (r: usize)
    ensures
        r <= p@.len(),
        p@.subrange(0, r as int) == strip_tail(p@),
{
    let mut e = p.unicode_len();
    assert(p@.subrange(0, e as int) =~= p@);
    while e >= 2 && (p.get_char(e - 1) == '/' || (p.get_char(e - 1) == '.' && p.get_char(e - 2)
        == '/'))
        invariant
            e <= p@.len(),
            strip_tail(p@) == strip_tail(p@.subrange(0, e as int)),
        decreases e,
    {
        assert(p@.subrange(0, e as int).drop_last() =~= p@.subrange(0, e - 1));
        e = e - 1;
    }
    e
}

/// Where the last component of an already stripped path begins.
fn component_start(s: &str) -> (r: usize)
    ensures
        r == last_index_of(s@, '/') + 1,
        r <= s@.len(),
{
    proof {
        lemma_last_index_bounds(s@, '/');
    }
    match find_last(s, '/') {
        Some(k) => k + 1,
        None => 0,
    }
}

/// The file name of a `/`-separated path, as `std::path::Path::file_name`
/// gives it on Unix.
pub fn file_name_of(path: &str) -> (r: Option<&str>)
    ensures
        r matches Some(n) ==> spec_file_name(path@) == Some(n@),
        r is None ==> spec_file_name(path@) is None,
{
    let e = stripped_len(path);
    let s = path.substring_char(0, e);
    let start = component_start(s);
    let c = s.substring_char(start, e);
    proof {
        reveal_strlit(".");
        reveal_strlit("..");
        assert("."@ =~= seq!['.']);
        assert(".."@ =~= seq!['.', '.']);
    }
    if c.unicode_len() == 0 || str_equals(c, ".") || str_equals(c, "..") {
        None
    } else {
        Some(c)
    }
}

/// The extension of a file name, if it has one.
pub fn extension_of(name: &str) -> (r: Option<&str>)
    ensures
        r matches Some(e) ==> spec_extension(name@) == Some(e@),
        r is None ==> spec_extension(name@) is None,
{
    proof {
        lemma_last_index_bounds(name@, '.');
    }
    match find_last(name, '.') {
        Some(k) if k > 0 => Some(name.substring_char(k + 1, name.unicode_len())),
        _ => None,
    }
}

pub(crate) fn str_equals(a: &str, b: &str) -> (r: bool)
    ensures
        r == (a@ == b@),
{
    let n = a.unicode_len();
    if n != b.unicode_len() {
        return false;
    }
    let mut i: usize = 0;
    while i < n
        invariant
            n == a@.len(),
            n == b@.len(),
            0 <= i <= n,
            forall|j: int| 0 <= j < i ==> a@[j] == b@[j],
        decreases n - i,
    {
        if a.get_char(i) != b.get_char(i) {
            return false;
        }
        i = i + 1;
    }
    assert(a@ =~= b@);
    true
}

/// Whether an extension, already in lower case, is one the browser displays.
pub fn is_whitelisted_extension(e: &str) -> (r: bool)
    ensures
        r == is_whitelisted(e@),
{
    proof {
        reveal_strlit("jpg");
        reveal_strlit("jpeg");
        reveal_strlit("png");
        reveal_strlit("gif");
        reveal_strlit("bmp");
        reveal_strlit("webp");
        reveal_strlit("svg");
        assert("jpg"@ =~= seq!['j', 'p', 'g']);
        assert("jpeg"@ =~= seq!['j', 'p', 'e', 'g']);
        assert("png"@ =~= seq!['p', 'n', 'g']);
        assert("gif"@ =~= seq!['g', 'i', 'f']);
        assert("bmp"@ =~= seq!['b', 'm', 'p']);
        assert("webp"@ =~= seq!['w', 'e', 'b', 'p']);
        assert("svg"@ =~= seq!['s', 'v', 'g']);
    }
    str_equals(e, "jpg") || str_equals(e, "jpeg") || str_equals(e, "png") || str_equals(e, "gif")
        || str_equals(e, "bmp") || str_equals(e, "webp") || str_equals(e, "svg")
}

/// Whether a path names a supported image, judged by its extension without
/// regard to case.
pub fn is_supported_image(path: &str) -> (r: bool)
    ensures
        r == is_supported_path(path@),
{
    match file_name_of(path) {
        Some(name) => match extension_of(name) {
            Some(ext) => {
                let lower = lowercase(ext);
                is_whitelisted_extension(lower.as_str())
            },
            None => false,
        },
        None => false,
    }
}

/// The parent of a `/`-separated path, by the component rules of
/// `std::path::Path` on Unix: the text before the last component, itself
/// stripped of trailing separators and `.` components; none where there is
/// no last component (the empty path, `/`, `//`).
pub open spec fn spec_parent(p: Seq<char>) -> Option<Seq<char>> {
    let s = strip_tail(p);
    let k = last_index_of(s, '/');
    if k + 1 == s.len() {
        None
    } else {
        Some(strip_tail(s.subrange(0, k + 1)))
    }
}

/// The directory that holds the entry at `path`, as
/// `std::path::Path::parent` gives it on Unix.
pub fn parent_of(path: &str) -> (r: Option<&str>)
    ensures
        r matches Some(d) ==> spec_parent(path@) == Some(d@),
        r is None ==> spec_parent(path@) is None,
{
    let e = stripped_len(path);
    let s = path.substring_char(0, e);
    let start = component_start(s);
    if start == e {
        return None;
    }
    let prefix = s.substring_char(0, start);
    let pe = stripped_len(prefix);
    Some(prefix.substring_char(0, pe))
}

} // verus!
