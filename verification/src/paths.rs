//! Path strings: the standard library's reading of a path (file name,
//! extension, equality) behind trusted wrappers, and the verified path
//! helpers the archive browser uses.
use vstd::prelude::*;
use crate::text::{chars_of, string_from_chars, trim_both, trim_end_chars, trim_start_chars};

verus! {

/// The final component of `path` as `std::path::Path::file_name` reads it on
/// the target platform (`None` for a path that ends in `..`, for `/`, and for
/// the empty path).
pub uninterp spec fn file_name_of(path: Seq<char>) -> Option<Seq<char>>;

/// The extension of `path` as `std::path::Path::extension` reads it on the
/// target platform: the part of the file name after its last `.`, or `None`
/// when there is no file name, no `.` in it, or only a leading one.
pub uninterp spec fn extension_of(path: Seq<char>) -> Option<Seq<char>>;

/// Whether `std::path::Path`'s `==` takes `a` and `b` for the same path
/// (it compares the paths' components).
pub uninterp spec fn same_path(a: Seq<char>, b: Seq<char>) -> bool;

/// A plain file name: non-empty, not `.` or `..`, and free of `/`, `\\`
/// and `:`, so that every platform reads it as a single normal component.
pub open spec fn plain_name(name: Seq<char>) -> bool {
    &&& name.len() > 0
    &&& name != seq!['.']
    &&& name != seq!['.', '.']
    &&& forall|i: int| 0 <= i < name.len() ==> name[i] != '/' && name[i] != '\\' && name[i] != ':'
}

/// The extension of a plain file name, as `Path::extension` documents it:
/// what follows the last `.`, unless that `.` is missing or is the first
/// character.
pub open spec fn plain_extension(name: Seq<char>) -> Option<Seq<char>> {
    let k = last_index_of(name, '.');
    if k > 0 {
        Some(name.subrange(k + 1, name.len() as int))
    } else {
        None
    }
}

/// The view of an optional string slice.
pub open spec fn opt_view(o: Option<&str>) -> Option<Seq<char>> {
    match o {
        Some(s) => Some(s@),
        None => None,
    }
}

/// Trusted: `Path::file_name` on `path`, read back as UTF-8 (always
/// possible, since `path` is a `str`). The result is named; of a plain name
/// it is stated that the name is its own file name (its one component).
#[verifier::external_body]
pub fn path_file_name(path: &str) -> (r: Option<&str>)
    ensures
        opt_view(r) == file_name_of(path@),
        plain_name(path@) ==> opt_view(r) == Some(path@),
{
    std::path::Path::new(path).file_name().and_then(|name| name.to_str())
}

/// Trusted: `Path::extension` on `path`, read back as UTF-8. The result is
/// named; of a plain name it is stated as the documentation of
/// `Path::extension` gives it (`plain_extension`).
#[verifier::external_body]
pub fn path_extension(path: &str) -> (r: Option<&str>)
    ensures
        opt_view(r) == extension_of(path@),
        plain_name(path@) ==> opt_view(r) == plain_extension(path@),
{
    std::path::Path::new(path).extension().and_then(|ext| ext.to_str())
}

/// Trusted: `Path == Path` on the two paths. The result is named; since
/// `Path` is `Eq`, it is stated to be the same both ways round and to hold
/// of equal strings.
#[verifier::external_body]
pub fn paths_equal(a: &str, b: &str) -> (r: bool)
    ensures
        r == same_path(a@, b@),
        r == same_path(b@, a@),
        a@ == b@ ==> r,
{
    std::path::Path::new(a) == std::path::Path::new(b)
}

/// `c`, with a backslash turned into a slash.
pub open spec fn slash_char(c: char) -> char {
    if c == '\\' {
        '/'
    } else {
        c
    }
}

/// A path with backslashes turned into slashes and with leading and trailing
/// slashes removed: the form in which archive entry paths are compared.
pub open spec fn normalized(path: Seq<char>) -> Seq<char> {
    trim_both(path.map_values(|c: char| slash_char(c)), '/')
}

/// Index of the last `c` in `s`, or -1 when there is none.
pub open spec fn last_index_of(s: Seq<char>, c: char) -> int
    decreases s.len(),
{
    if s.len() == 0 {
        -1
    } else if s.last() == c {
        s.len() - 1
    } else {
        last_index_of(s.drop_last(), c)
    }
}

/// The part of `path` before its last `/`, or empty when it has none.
pub open spec fn parent_of(path: Seq<char>) -> Seq<char> {
    let k = last_index_of(path, '/');
    if k < 0 {
        Seq::empty()
    } else {
        path.subrange(0, k)
    }
}

/// `last_index_of` is -1 or an index that holds `c`, with no `c` after it.
pub proof fn lemma_last_index_of(s: Seq<char>, c: char)
    ensures
        -1 <= last_index_of(s, c) < s.len(),
        last_index_of(s, c) >= 0 ==> s[last_index_of(s, c)] == c,
        forall|i: int| last_index_of(s, c) < i < s.len() ==> s[i] != c,
    decreases s.len(),
{
    if s.len() > 0 && s.last() != c {
        lemma_last_index_of(s.drop_last(), c);
        assert forall|i: int| last_index_of(s, c) < i < s.len() implies s[i] != c by {
            if i < s.len() - 1 {
                assert(s.drop_last()[i] == s[i]);
            }
        }
    }
}

/// `v` with every backslash turned into a slash.
fn slashes_of(v: &Vec<char>) -> (r: Vec<char>)
    ensures
        r@ == v@.map_values(|c: char| slash_char(c)),
{
    let mut out: Vec<char> = Vec::new();
    for i in 0..v.len()
        invariant
            out@ == v@.take(i as int).map_values(|c: char| slash_char(c)),
    {
        let c = v[i];
        out.push(if c == '\\' { '/' } else { c });
        assert(v@.take(i + 1).map_values(|c: char| slash_char(c)) =~= v@.take(
            i as int,
        ).map_values(|c: char| slash_char(c)).push(slash_char(c)));
    }
    assert(v@.take(v.len() as int) =~= v@);
    out
}

/// The normalized characters of an entry path.
pub fn normalized_chars(path: &str) -> (r: Vec<char>)
    ensures
        r@ == normalized(path@),
{
    let v = chars_of(path);
    let s = slashes_of(&v);
    let t = trim_start_chars(&s, '/');
    trim_end_chars(&t, '/')
}

/// `path` with backslashes turned into slashes and surrounding slashes removed.
pub fn normalize_path(path: &str) -> (r: String)
    ensures
        r@ == normalized(path@),
{
    let v = normalized_chars(path);
    string_from_chars(v.as_slice())
}

/// The characters of `path` before its last `/`.
pub fn parent_chars(path: &Vec<char>) -> (r: Vec<char>)
    ensures
        r@ == parent_of(path@),
{
    let mut j: usize = path.len();
    assert(path@.subrange(0, path.len() as int) =~= path@);
    while j > 0 && path[j - 1] != '/'
        invariant
            j <= path.len(),
            last_index_of(path@, '/') == last_index_of(path@.subrange(0, j as int), '/'),
        decreases j,
    {
        assert(path@.subrange(0, j as int).drop_last() =~= path@.subrange(0, j - 1));
        j = j - 1;
    }
    let mut out: Vec<char> = Vec::new();
    if j == 0 {
        return out;
    }
    let k = j - 1;
    let mut i: usize = 0;
    while i < k
        invariant
            k < path.len(),
            i <= k,
            out@ == path@.subrange(0, i as int),
        decreases k - i,
    {
        out.push(path[i]);
        assert(path@.subrange(0, i + 1) =~= path@.subrange(0, i as int).push(path@[i as int]));
        i = i + 1;
    }
    out
}

/// The folder above `current_path`: the part before its last `/`, or the
/// root (empty) when it has no `/`.
pub fn parent_path(current_path: &str) -> (r: String)
    ensures
        r@ == parent_of(current_path@),
{
    let v = chars_of(current_path);
    let p = parent_chars(&v);
    string_from_chars(p.as_slice())
}

/// What the browser shows as the type of a file called `name`: its
/// extension, or `File` when it has none.
pub open spec fn file_type_of(name: Seq<char>) -> Seq<char> {
    match extension_of(name) {
        Some(ext) => ext,
        None => "File"@,
    }
}

/// The type shown for a file: its extension, or `File`.
pub fn file_type(name: &str) -> (r: &str)
    ensures
        r@ == file_type_of(name@),
        plain_name(name@) ==> r@ == match plain_extension(name@) {
            Some(ext) => ext,
            None => "File"@,
        },
{
    match path_extension(name) {
        Some(ext) => ext,
        None => "File",
    }
}

} // verus!

verus! {

/// The name under which the archive at `path` is shown: its file name, or
/// `Archive` when it has none.
pub open spec fn display_name_of(path: Seq<char>) -> Seq<char> {
    match file_name_of(path) {
        Some(name) => name,
        None => "Archive"@,
    }
}

/// The name under which the archive at `path` is shown.
pub fn display_name(path: &str) -> (r: String)
    ensures
        r@ == display_name_of(path@),
        plain_name(path@) ==> r@ == path@,
{
    match path_file_name(path) {
        Some(name) => name.to_owned(),
        None => "Archive".to_owned(),
    }
}

} // verus!
