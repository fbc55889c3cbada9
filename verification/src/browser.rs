//! Browsing an opened archive as folders: the rows shown for a folder, the
//! search over them, the breadcrumb trail, and the unit a byte count is
//! shown in.
use vstd::prelude::*;
use crate::archive::{ArchiveEntry, EntryView};
use crate::paths::{normalized, normalized_chars};
use crate::text::{
    ascii_lower, ascii_only, chars_equal, chars_less, chars_of, contains_chars, contains_seq, is_whitespace,
    lemma_seq_lt_total, lemma_seq_lt_transitive, seq_lt, starts_with, starts_with_chars,
    string_from_chars, to_lowercase, trim_end, trim_end_chars, trim_start, trim_start_chars,
    unicode_lower, unicode_whitespace,
};

verus! {

/// One row of the archive browser: a file, or a folder that holds entries.
#[derive(Debug, Clone)]
pub struct BrowserRow {
    pub name: String,
    pub path: String,
    pub size: u64,
    pub compressed_size: Option<u64>,
    pub is_directory: bool,
}

/// A browser row as a value.
pub struct RowView {
    pub name: Seq<char>,
    pub path: Seq<char>,
    pub size: u64,
    pub compressed_size: Option<u64>,
    pub is_directory: bool,
}

impl View for BrowserRow {
    type V = RowView;

    open spec fn view(&self) -> RowView {
        RowView {
            name: self.name@,
            path: self.path@,
            size: self.size,
            compressed_size: self.compressed_size,
            is_directory: self.is_directory,
        }
    }
}

/// The prefix that the normalized path of an entry inside folder `current`
/// starts with: empty at the root, else `current` without trailing slashes,
/// then `/`.
pub open spec fn folder_prefix(current: Seq<char>) -> Seq<char> {
    if current.len() == 0 {
        Seq::empty()
    } else {
        trim_end(current, '/').push('/')
    }
}

/// The length of the leading run of `s` that holds no `/`.
pub open spec fn segment_end(s: Seq<char>) -> int
    decreases s.len(),
{
    if s.len() == 0 {
        0
    } else if s[0] == '/' {
        0
    } else {
        1 + segment_end(s.drop_first())
    }
}

/// The first non-empty `/`-separated segment of `s` (empty when there is none).
pub open spec fn first_segment(s: Seq<char>) -> Seq<char> {
    let t = trim_start(s, '/');
    t.subrange(0, segment_end(t))
}

/// What follows the first non-empty segment of `s`.
pub open spec fn after_first_segment(s: Seq<char>) -> Seq<char> {
    let t = trim_start(s, '/');
    t.subrange(segment_end(t), t.len() as int)
}

/// Where an entry shows up when folder `current` is open: `None` when it
/// lies outside the folder (or is the folder itself), else the name of the
/// child of the folder that holds it, and whether that child is shown as a
/// folder (it is when the entry lies deeper inside it, or is a directory).
pub open spec fn entry_slot(entry: EntryView, current: Seq<char>) -> Option<(Seq<char>, bool)> {
    let full = normalized(entry.path);
    let prefix = folder_prefix(current);
    if !starts_with(full, prefix) {
        None
    } else {
        let rest = full.subrange(prefix.len() as int, full.len() as int);
        let first = first_segment(rest);
        if first.len() == 0 {
            None
        } else {
            Some(
                (
                    first,
                    trim_start(after_first_segment(rest), '/').len() > 0 || entry.is_directory,
                ),
            )
        }
    }
}

/// The path of child `name` of folder `current`.
pub open spec fn child_path(current: Seq<char>, name: Seq<char>) -> Seq<char> {
    if current.len() == 0 {
        name
    } else {
        current.push('/') + name
    }
}

/// The rows of folder `current` after the entries have been seen in order,
/// keyed by name. A child is added by the first entry under it, with no size
/// when it is shown as a folder. A later entry under the same child that is
/// not shown as a folder sets the row's sizes to its own.
pub open spec fn folder_rows(entries: Seq<EntryView>, current: Seq<char>) -> Map<Seq<char>, RowView>
    decreases entries.len(),
{
    if entries.len() == 0 {
        Map::empty()
    } else {
        let rows = folder_rows(entries.drop_last(), current);
        let e = entries.last();
        match entry_slot(e, current) {
            None => rows,
            Some((name, is_dir)) => if rows.contains_key(name) {
                if is_dir {
                    rows
                } else {
                    rows.insert(
                        name,
                        RowView {
                            name: rows[name].name,
                            path: rows[name].path,
                            size: e.size,
                            compressed_size: e.compressed_size,
                            is_directory: rows[name].is_directory,
                        },
                    )
                }
            } else {
                rows.insert(
                    name,
                    RowView {
                        name,
                        path: child_path(current, name),
                        size: if is_dir {
                            0
                        } else {
                            e.size
                        },
                        compressed_size: if is_dir {
                            None
                        } else {
                            e.compressed_size
                        },
                        is_directory: is_dir,
                    },
                )
            },
        }
    }
}

/// The browser's order: folders before files; then by lower-cased name;
/// then by name.
pub open spec fn row_before(a: RowView, b: RowView) -> bool {
    (a.is_directory && !b.is_directory) || (a.is_directory == b.is_directory && (seq_lt(
        unicode_lower(a.name),
        unicode_lower(b.name),
    ) || (unicode_lower(a.name) == unicode_lower(b.name) && seq_lt(a.name, b.name))))
}

/// `rows` lists the values of `m`, each once, in the browser's order.
pub open spec fn lists_rows(rows: Seq<RowView>, m: Map<Seq<char>, RowView>) -> bool {
    &&& forall|i: int|
        0 <= i < rows.len() ==> m.contains_key(#[trigger] rows[i].name) && m[rows[i].name]
            == rows[i]
    &&& forall|k: Seq<char>| #[trigger]
        m.contains_key(k) ==> exists|i: int| 0 <= i < rows.len() && #[trigger] rows[i].name == k
    &&& forall|i: int, j: int| 0 <= i < j < rows.len() ==> row_before(#[trigger] rows[i], #[trigger] rows[j])
}

/// Each row of a folder is keyed by its own name.
pub proof fn lemma_folder_rows_keys(entries: Seq<EntryView>, current: Seq<char>)
    ensures
        forall|k: Seq<char>| #[trigger]
            folder_rows(entries, current).contains_key(k) ==> folder_rows(entries, current)[k].name
                == k,
    decreases entries.len(),
{
    if entries.len() > 0 {
        lemma_folder_rows_keys(entries.drop_last(), current);
    }
}

/// Rows with different names are ordered one way or the other.
pub proof fn lemma_row_before_total(a: RowView, b: RowView)
    requires
        a.name != b.name,
    ensures
        row_before(a, b) || row_before(b, a),
{
    if unicode_lower(a.name) != unicode_lower(b.name) {
        lemma_seq_lt_total(unicode_lower(a.name), unicode_lower(b.name));
    } else {
        lemma_seq_lt_total(a.name, b.name);
    }
}

/// The browser's order is transitive.
pub proof fn lemma_row_before_transitive(a: RowView, b: RowView, c: RowView)
    requires
        row_before(a, b),
        row_before(b, c),
    ensures
        row_before(a, c),
{
    let (la, lb, lc) = (unicode_lower(a.name), unicode_lower(b.name), unicode_lower(c.name));
    if a.is_directory == b.is_directory && b.is_directory == c.is_directory {
        if seq_lt(la, lb) && seq_lt(lb, lc) {
            lemma_seq_lt_transitive(la, lb, lc);
        } else if seq_lt(a.name, b.name) && seq_lt(b.name, c.name) {
            lemma_seq_lt_transitive(a.name, b.name, c.name);
        }
    }
}

} // verus!

verus! {

/// The characters `v[from..to]`.
fn copy_range(v: &Vec<char>, from: usize, to: usize) -> (r: Vec<char>)
    requires
        from <= to <= v.len(),
    ensures
        r@ == v@.subrange(from as int, to as int),
{
    let mut out: Vec<char> = Vec::new();
    let mut k: usize = from;
    while k < to
        invariant
            from <= k <= to <= v.len(),
            out@ == v@.subrange(from as int, k as int),
        decreases to - k,
    {
        out.push(v[k]);
        assert(v@.subrange(from as int, k + 1) =~= v@.subrange(from as int, k as int).push(v@[k as int]));
        k = k + 1;
    }
    out
}

/// `a` followed by `b`.
fn concat_chars(a: &Vec<char>, b: &Vec<char>) -> (r: Vec<char>)
    ensures
        r@ == a@ + b@,
{
    let mut out = copy_range(a, 0, a.len());
    assert(a@.subrange(0, a.len() as int) =~= a@);
    for k in 0..b.len()
        invariant
            out@ == a@ + b@.take(k as int),
    {
        out.push(b[k]);
        assert(a@ + b@.take(k + 1) =~= (a@ + b@.take(k as int)).push(b@[k as int]));
    }
    assert(b@.take(b.len() as int) =~= b@);
    out
}

/// The length of the leading run of `t` that holds no `/`.
fn segment_end_exec(t: &Vec<char>) -> (r: usize)
    ensures
        r as int == segment_end(t@),
        r <= t.len(),
{
    let mut i: usize = 0;
    assert(t@.skip(0) =~= t@);
    while i < t.len() && t[i] != '/'
        invariant
            i <= t.len(),
            segment_end(t@) == i + segment_end(t@.skip(i as int)),
        decreases t.len() - i,
    {
        assert(t@.skip(i as int).drop_first() =~= t@.skip(i + 1));
        i = i + 1;
    }
    i
}

/// The characters of `folder_prefix(current)`.
fn folder_prefix_chars(current: &Vec<char>) -> (r: Vec<char>)
    ensures
        r@ == folder_prefix(current@),
{
    if current.len() == 0 {
        Vec::new()
    } else {
        let mut p = trim_end_chars(current, '/');
        p.push('/');
        p
    }
}

/// The characters of `child_path(current, name)`.
fn child_path_chars(current: &Vec<char>, name: &Vec<char>) -> (r: Vec<char>)
    ensures
        r@ == child_path(current@, name@),
{
    if current.len() == 0 {
        copy_range(name, 0, name.len())
    } else {
        let mut p = copy_range(current, 0, current.len());
        p.push('/');
        assert(current@.subrange(0, current.len() as int) =~= current@);
        concat_chars(&p, name)
    }
}

/// Where `entry` shows up in the folder whose prefix is `prefix`.
fn slot_of(entry: &ArchiveEntry, current: &Vec<char>, prefix: &Vec<char>) -> (r: Option<(Vec<char>, bool)>)
    requires
        prefix@ == folder_prefix(current@),
    ensures
        match entry_slot(entry@, current@) {
            None => r is None,
            Some((name, is_dir)) => r matches Some(s) && s.0@ == name && s.1 == is_dir,
        },
{
    let full = normalized_chars(entry.path.as_str());
    if !starts_with_chars(&full, prefix) {
        return None;
    }
    let rest = copy_range(&full, prefix.len(), full.len());
    let t = trim_start_chars(&rest, '/');
    let end = segment_end_exec(&t);
    if end == 0 {
        return None;
    }
    let first = copy_range(&t, 0, end);
    let after = copy_range(&t, end, t.len());
    let nested = trim_start_chars(&after, '/');
    let is_dir = nested.len() > 0 || entry.is_directory;
    Some((first, is_dir))
}

} // verus!

verus! {

/// The views of a sequence of rows.
pub open spec fn row_views(rows: Seq<BrowserRow>) -> Seq<RowView> {
    rows.map_values(|r: BrowserRow| r@)
}

/// The views of a sequence of entries.
pub open spec fn entry_views(entries: Seq<ArchiveEntry>) -> Seq<EntryView> {
    entries.map_values(|e: ArchiveEntry| e@)
}

/// No row comes before itself.
proof fn lemma_row_before_irreflexive(a: RowView)
    ensures
        !row_before(a, a),
{
    crate::text::lemma_seq_lt_irreflexive(unicode_lower(a.name));
    crate::text::lemma_seq_lt_irreflexive(a.name);
}

/// Two rows of a listing with the same name are the same position.
pub proof fn lemma_listed_names_unique(rows: Seq<RowView>, m: Map<Seq<char>, RowView>, i: int, j: int)
    requires
        lists_rows(rows, m),
        0 <= i < rows.len(),
        0 <= j < rows.len(),
        rows[i].name == rows[j].name,
    ensures
        i == j,
{
    if i < j {
        assert(row_before(rows[i], rows[j]));
        assert(rows[i] == m[rows[i].name]);
        assert(rows[j] == m[rows[j].name]);
        lemma_row_before_irreflexive(rows[i]);
    } else if j < i {
        assert(row_before(rows[j], rows[i]));
        assert(rows[i] == m[rows[i].name]);
        assert(rows[j] == m[rows[j].name]);
        lemma_row_before_irreflexive(rows[i]);
    }
}

/// Inserting a new row at its place in the order keeps the listing.
proof fn lemma_insert_row(rows: Seq<RowView>, m: Map<Seq<char>, RowView>, new: RowView, j: int)
    requires
        lists_rows(rows, m),
        !m.contains_key(new.name),
        0 <= j <= rows.len(),
        forall|l: int| 0 <= l < j ==> !row_before(new, #[trigger] rows[l]),
        j < rows.len() ==> row_before(new, rows[j]),
    ensures
        lists_rows(rows.insert(j, new), m.insert(new.name, new)),
{
    let rows2 = rows.insert(j, new);
    let m2 = m.insert(new.name, new);
    assert forall|i: int| 0 <= i < rows2.len() implies m2.contains_key(#[trigger] rows2[i].name)
        && m2[rows2[i].name] == rows2[i] by {
        if i < j {
            assert(rows2[i] == rows[i]);
            assert(m.contains_key(rows[i].name));
        } else if i > j {
            assert(rows2[i] == rows[i - 1]);
            assert(m.contains_key(rows[i - 1].name));
        }
    }
    assert forall|k: Seq<char>| #[trigger] m2.contains_key(k) implies exists|i: int|
        0 <= i < rows2.len() && #[trigger] rows2[i].name == k by {
        if k == new.name {
            assert(rows2[j].name == k);
        } else {
            assert(m.contains_key(k));
            let i = choose|i: int| 0 <= i < rows.len() && #[trigger] rows[i].name == k;
            if i < j {
                assert(rows2[i].name == k);
            } else {
                assert(rows2[i + 1].name == k);
            }
        }
    }
    assert forall|a: int, b: int| 0 <= a < b < rows2.len() implies row_before(
        #[trigger] rows2[a],
        #[trigger] rows2[b],
    ) by {
        if b < j {
            assert(rows2[a] == rows[a] && rows2[b] == rows[b]);
        } else if a > j {
            assert(rows2[a] == rows[a - 1] && rows2[b] == rows[b - 1]);
        } else if a == j {
            assert(rows2[b] == rows[b - 1]);
            if b - 1 > j {
                assert(row_before(rows[j], rows[b - 1]));
                lemma_row_before_transitive(new, rows[j], rows[b - 1]);
            }
        } else if b == j {
            assert(rows2[a] == rows[a]);
            assert(m.contains_key(rows[a].name));
            lemma_row_before_total(rows[a], new);
        } else {
            assert(a < j && j < b);
            assert(rows2[a] == rows[a] && rows2[b] == rows[b - 1]);
            assert(row_before(rows[a], rows[b - 1]));
        }
    }
}

/// Replacing a row by one with the same name and kind keeps the listing.
proof fn lemma_update_row(rows: Seq<RowView>, m: Map<Seq<char>, RowView>, k: int, upd: RowView)
    requires
        lists_rows(rows, m),
        0 <= k < rows.len(),
        upd.name == rows[k].name,
        upd.is_directory == rows[k].is_directory,
    ensures
        lists_rows(rows.update(k, upd), m.insert(upd.name, upd)),
{
    let rows2 = rows.update(k, upd);
    let m2 = m.insert(upd.name, upd);
    assert forall|i: int| 0 <= i < rows2.len() implies m2.contains_key(#[trigger] rows2[i].name)
        && m2[rows2[i].name] == rows2[i] by {
        if i != k {
            assert(rows2[i] == rows[i]);
            assert(m.contains_key(rows[i].name));
            if rows[i].name == upd.name {
                lemma_listed_names_unique(rows, m, i, k);
            }
        }
    }
    assert forall|key: Seq<char>| #[trigger] m2.contains_key(key) implies exists|i: int|
        0 <= i < rows2.len() && #[trigger] rows2[i].name == key by {
        if key == upd.name {
            assert(rows2[k].name == key);
        } else {
            assert(m.contains_key(key));
            let i = choose|i: int| 0 <= i < rows.len() && #[trigger] rows[i].name == key;
            assert(rows2[i].name == key);
        }
    }
    assert forall|a: int, b: int| 0 <= a < b < rows2.len() implies row_before(
        #[trigger] rows2[a],
        #[trigger] rows2[b],
    ) by {
        assert(row_before(rows[a], rows[b]));
    }
}

} // verus!

verus! {

/// The position of the row named `name`, if there is one.
fn find_row(names: &Vec<Vec<char>>, name: &Vec<char>) -> (r: Option<usize>)
    ensures
        match r {
            Some(k) => k < names.len() && names@[k as int]@ == name@,
            None => forall|k: int| 0 <= k < names.len() ==> (#[trigger] names@[k])@ != name@,
        },
{
    for k in 0..names.len()
        invariant
            forall|l: int| 0 <= l < k ==> (#[trigger] names@[l])@ != name@,
    {
        if chars_equal(&names[k], name) {
            return Some(k);
        }
    }
    None
}

/// Whether a row (is_dir, lower-cased name, name) comes before another in
/// the browser's order.
fn before_exec(
    a_dir: bool,
    a_lower: &Vec<char>,
    a_name: &Vec<char>,
    b_dir: bool,
    b_lower: &Vec<char>,
    b_name: &Vec<char>,
) -> (r: bool)
    ensures
        r == ((a_dir && !b_dir) || (a_dir == b_dir && (seq_lt(a_lower@, b_lower@) || (a_lower@
            == b_lower@ && seq_lt(a_name@, b_name@))))),
{
    if a_dir != b_dir {
        return a_dir;
    }
    if chars_less(a_lower, b_lower) {
        return true;
    }
    chars_equal(a_lower, b_lower) && chars_less(a_name, b_name)
}

/// The rows of folder `current_path` of an archive with `entries`: one row
/// per child of the folder, with the sizes `folder_rows` gives it, folders
/// first, then in order of lower-cased name, then of name.
pub fn visible_rows(entries: &[ArchiveEntry], current_path: &str) -> (r: Vec<BrowserRow>)
    ensures
        lists_rows(row_views(r@), folder_rows(entry_views(entries@), current_path@)),
        forall|i: int|
            0 <= i < r@.len() && ascii_only(#[trigger] r@[i].name@) ==> unicode_lower(r@[i].name@)
                == ascii_lower(r@[i].name@),
{
    let current = chars_of(current_path);
    let prefix = folder_prefix_chars(&current);
    let ghost views = entry_views(entries@);
    let mut rows: Vec<BrowserRow> = Vec::new();
    let mut names: Vec<Vec<char>> = Vec::new();
    let mut lowers: Vec<Vec<char>> = Vec::new();
    assert(views.take(0) =~= Seq::<EntryView>::empty());
    for i in 0..entries.len()
        invariant
            current@ == current_path@,
            prefix@ == folder_prefix(current@),
            views == entry_views(entries@),
            rows.len() == names.len(),
            rows.len() == lowers.len(),
            forall|k: int| 0 <= k < rows.len() ==> (#[trigger] names@[k])@ == rows@[k].name@,
            forall|k: int|
                0 <= k < rows.len() ==> (#[trigger] lowers@[k])@ == unicode_lower(rows@[k].name@),
            forall|k: int|
                0 <= k < rows.len() && ascii_only(#[trigger] rows@[k].name@) ==> unicode_lower(
                    rows@[k].name@,
                ) == ascii_lower(rows@[k].name@),
            lists_rows(row_views(rows@), folder_rows(views.take(i as int), current@)),
    {
        let ghost before_rows = rows@;
        let ghost m = folder_rows(views.take(i as int), current@);
        proof {
            assert(views.take(i + 1).drop_last() =~= views.take(i as int));
            assert(views.take(i + 1).last() == entries@[i as int]@);
            lemma_folder_rows_keys(views.take(i as int), current@);
        }
        let entry = &entries[i];
        match slot_of(entry, &current, &prefix) {
            None => {},
            Some((first, is_dir)) => {
                match find_row(&names, &first) {
                    Some(k) => {
                        proof {
                            assert(row_views(rows@)[k as int].name == first@);
                            assert(m.contains_key(first@));
                        }
                        if !is_dir {
                            let old_row = &rows[k];
                            let updated = BrowserRow {
                                name: old_row.name.clone(),
                                path: old_row.path.clone(),
                                size: entry.size,
                                compressed_size: entry.compressed_size,
                                is_directory: old_row.is_directory,
                            };
                            proof {
                                lemma_update_row(row_views(rows@), m, k as int, updated@);
                            }
                            rows.set(k, updated);
                            assert(row_views(rows@) =~= row_views(before_rows).update(k as int, rows@[k as int]@));
                        }
                    },
                    None => {
                        proof {
                            if m.contains_key(first@) {
                                let l = choose|l: int|
                                    0 <= l < row_views(rows@).len() && #[trigger] row_views(rows@)[l].name == first@;
                                assert(names@[l]@ == first@);
                            }
                        }
                        let name = string_from_chars(first.as_slice());
                        let path_chars = child_path_chars(&current, &first);
                        let path = string_from_chars(path_chars.as_slice());
                        let lower_string = to_lowercase(name.as_str());
                        let lower = chars_of(lower_string.as_str());
                        let new_row = BrowserRow {
                            name,
                            path,
                            size: if is_dir { 0 } else { entry.size },
                            compressed_size: if is_dir { None } else { entry.compressed_size },
                            is_directory: is_dir,
                        };
                        let mut j: usize = 0;
                        while j < rows.len() && !before_exec(is_dir, &lower, &first, rows[j].is_directory, &lowers[j], &names[j])
                            invariant
                                j <= rows.len(),
                                rows.len() == names.len(),
                                rows.len() == lowers.len(),
                                forall|k: int| 0 <= k < rows.len() ==> (#[trigger] names@[k])@ == rows@[k].name@,
                                forall|k: int|
                                    0 <= k < rows.len() ==> (#[trigger] lowers@[k])@ == unicode_lower(rows@[k].name@),
                                lower@ == unicode_lower(first@),
                                new_row@.name == first@,
                                new_row@.is_directory == is_dir,
                                forall|l: int| 0 <= l < j ==> !row_before(new_row@, #[trigger] row_views(rows@)[l]),
                            decreases rows.len() - j,
                        {
                            j = j + 1;
                        }
                        proof {
                            lemma_insert_row(row_views(rows@), m, new_row@, j as int);
                        }
                        rows.insert(j, new_row);
                        names.insert(j, first);
                        lowers.insert(j, lower);
                        assert(row_views(rows@) =~= row_views(before_rows).insert(j as int, rows@[j as int]@));
                    },
                }
            },
        }
    }
    assert(views.take(entries.len() as int) =~= views);
    rows
}

} // verus!

verus! {

/// `query` holds nothing but whitespace (what `str::trim` leaves empty).
pub open spec fn is_blank(query: Seq<char>) -> bool {
    forall|i: int| 0 <= i < query.len() ==> unicode_whitespace(#[trigger] query[i])
}

/// The lower-cased name of `row` contains the lower-cased `query`.
pub open spec fn row_matches(row: RowView, query: Seq<char>) -> bool {
    contains_seq(unicode_lower(row.name), unicode_lower(query))
}

/// The rows that match `query`, in their order.
pub open spec fn matching_rows(rows: Seq<RowView>, query: Seq<char>) -> Seq<RowView>
    decreases rows.len(),
{
    if rows.len() == 0 {
        Seq::empty()
    } else {
        let init = matching_rows(rows.drop_last(), query);
        if row_matches(rows.last(), query) {
            init.push(rows.last())
        } else {
            init
        }
    }
}

/// Whether `query` is blank.
fn blank(query: &str) -> (r: bool)
    ensures
        r == is_blank(query@),
{
    let q = chars_of(query);
    for i in 0..q.len()
        invariant
            q@ == query@,
            forall|k: int| 0 <= k < i ==> unicode_whitespace(#[trigger] query@[k]),
    {
        if !is_whitespace(q[i]) {
            return false;
        }
    }
    true
}

/// The search over a folder's rows: a blank query keeps every row; any
/// other query keeps the rows whose lower-cased name contains the
/// lower-cased query, in their order.
pub fn search_rows(rows: Vec<BrowserRow>, query: &str) -> (r: Vec<BrowserRow>)
    ensures
        is_blank(query@) ==> r@ == rows@,
        !is_blank(query@) ==> row_views(r@) == matching_rows(row_views(rows@), query@),
        (forall|i: int| 0 <= i < query@.len() ==> unicode_whitespace(#[trigger] query@[i])) ==> r@
            == rows@,
        (exists|i: int| 0 <= i < query@.len() && !unicode_whitespace(#[trigger] query@[i])) ==> row_views(
            r@,
        ) == matching_rows(row_views(rows@), query@),
{
    if blank(query) {
        return rows;
    }
    let lowered_query = to_lowercase(query);
    let q = chars_of(lowered_query.as_str());
    let mut kept: Vec<BrowserRow> = Vec::new();
    let n = rows.len();
    assert(row_views(rows@).take(0) =~= Seq::<RowView>::empty());
    for i in 0..n
        invariant
            n == rows.len(),
            q@ == unicode_lower(query@),
            row_views(kept@) == matching_rows(row_views(rows@).take(i as int), query@),
    {
        let row = &rows[i];
        let lowered = to_lowercase(row.name.as_str());
        let name = chars_of(lowered.as_str());
        proof {
            assert(row_views(rows@).take(i + 1).drop_last() =~= row_views(rows@).take(i as int));
        }
        if contains_chars(&name, &q) {
            kept.push(row.clone_row());
            assert(row_views(kept@) =~= matching_rows(row_views(rows@).take(i as int), query@).push(
                rows@[i as int]@,
            ));
        }
    }
    assert(row_views(rows@).take(n as int) =~= row_views(rows@));
    kept
}

impl BrowserRow {
    /// A copy of the row.
    fn clone_row(&self) -> (r: BrowserRow)
        ensures
            r@ == self@,
    {
        BrowserRow {
            name: self.name.clone(),
            path: self.path.clone(),
            size: self.size,
            compressed_size: self.compressed_size,
            is_directory: self.is_directory,
        }
    }
}

} // verus!

verus! {

/// The non-empty `/`-separated segments of `s`, in order (what
/// `split('/')` keeps once empty pieces are dropped).
pub open spec fn path_segments(s: Seq<char>) -> Seq<Seq<char>>
    decreases s.len(),
{
    if s.len() == 0 {
        Seq::empty()
    } else {
        let init = path_segments(s.drop_last());
        let c = s.last();
        if c == '/' {
            init
        } else if s.len() > 1 && s[s.len() - 2] != '/' {
            init.drop_last().push(init.last().push(c))
        } else {
            init.push(seq![c])
        }
    }
}

/// The segments joined with `/` between them.
pub open spec fn join_segments(segments: Seq<Seq<char>>) -> Seq<char>
    decreases segments.len(),
{
    if segments.len() == 0 {
        Seq::empty()
    } else if segments.len() == 1 {
        segments[0]
    } else {
        join_segments(segments.drop_last()).push('/') + segments.last()
    }
}

/// One step of the breadcrumb trail: the folder's name, and the path that
/// clicking it opens.
#[derive(Debug, Clone)]
pub struct Crumb {
    pub label: String,
    pub target: String,
}

/// The segments of a path are non-empty and hold no `/`; a path that ends
/// in a non-slash has at least one segment.
pub proof fn lemma_path_segments(s: Seq<char>)
    ensures
        forall|i: int| 0 <= i < path_segments(s).len() ==> (#[trigger] path_segments(s)[i]).len() > 0,
        forall|i: int, k: int|
            0 <= i < path_segments(s).len() && 0 <= k < path_segments(s)[i].len()
                ==> #[trigger] path_segments(s)[i][k] != '/',
        s.len() > 0 && s.last() != '/' ==> path_segments(s).len() > 0,
    decreases s.len(),
{
    if s.len() > 0 {
        let init = path_segments(s.drop_last());
        lemma_path_segments(s.drop_last());
        let c = s.last();
        if c != '/' && s.len() > 1 && s[s.len() - 2] != '/' {
            assert(s.drop_last().last() == s[s.len() - 2]);
            let r = path_segments(s);
            assert forall|i: int, k: int| 0 <= i < r.len() && 0 <= k < r[i].len() implies #[trigger] r[i][k] != '/' by {
                if i < r.len() - 1 {
                    assert(r[i] == init[i]);
                } else if k < init.last().len() {
                    assert(r[i][k] == init[init.len() - 1][k]);
                }
            }
        }
    }
}

/// The breadcrumb trail of `current_path`: one crumb per non-empty segment,
/// whose target joins the segments up to and including it with `/`.
pub open spec fn crumbs_of(current: Seq<char>) -> Seq<(Seq<char>, Seq<char>)> {
    let segs = path_segments(current);
    Seq::new(segs.len(), |i: int| (segs[i], join_segments(segs.take(i + 1))))
}

/// The breadcrumb trail of `current_path`.
pub fn breadcrumb_trail(current_path: &str) -> (r: Vec<Crumb>)
    ensures
        r@.len() == crumbs_of(current_path@).len(),
        forall|i: int|
            0 <= i < r@.len() ==> (#[trigger] r@[i]).label@ == crumbs_of(current_path@)[i].0
                && r@[i].target@ == crumbs_of(current_path@)[i].1,
{
    let s = chars_of(current_path);
    // the segments split so far, and the one being read
    let mut segments: Vec<Vec<char>> = Vec::new();
    let mut segment: Vec<char> = Vec::new();
    let n = s.len();
    assert(s@.take(0) =~= Seq::<char>::empty());
    for i in 0..n
        invariant
            n == s.len(),
            (segment@.len() > 0 <==> (i > 0 && s@[i - 1] != '/')),
            ({
                let done = segments@.map_values(|v: Vec<char>| v@);
                path_segments(s@.take(i as int)) == if segment@.len() > 0 {
                    done.push(segment@)
                } else {
                    done
                }
            }),
    {
        let c = s[i];
        let ghost done = segments@.map_values(|v: Vec<char>| v@);
        proof {
            assert(s@.take(i + 1).drop_last() =~= s@.take(i as int));
            assert(s@.take(i + 1).last() == c);
            if i > 0 {
                assert(s@.take(i + 1)[i - 1] == s@[i - 1]);
            }
        }
        if c == '/' {
            if segment.len() > 0 {
                let finished = segment;
                segments.push(finished);
                segment = Vec::new();
                assert(segments@.map_values(|v: Vec<char>| v@) =~= done.push(finished@));
            }
        } else {
            let ghost before = segment@;
            segment.push(c);
            proof {
                if before.len() > 0 {
                    assert(done.push(before).drop_last() =~= done);
                    assert(done.push(segment@) =~= done.push(before).drop_last().push(done.push(before).last().push(c)));
                } else {
                    assert(segment@ =~= seq![c]);
                }
            }
        }
    }
    if segment.len() > 0 {
        segments.push(segment);
    }
    assert(s@.take(n as int) =~= s@);
    let ghost segs = path_segments(s@);
    assert(segments@.map_values(|v: Vec<char>| v@) =~= segs);
    let mut trail: Vec<Crumb> = Vec::new();
    let mut built: Vec<char> = Vec::new();
    proof {
        lemma_path_segments(s@);
    }
    for k in 0..segments.len()
        invariant
            segments@.map_values(|v: Vec<char>| v@) == segs,
            segs == path_segments(current_path@),
            forall|i: int| 0 <= i < segs.len() ==> (#[trigger] segs[i]).len() > 0,
            built@ == join_segments(segs.take(k as int)),
            trail@.len() == k,
            forall|i: int|
                0 <= i < k ==> (#[trigger] trail@[i]).label@ == crumbs_of(current_path@)[i].0
                    && trail@[i].target@ == crumbs_of(current_path@)[i].1,
    {
        let seg = &segments[k];
        assert(seg@ == segs[k as int]);
        proof {
            assert(segs.take(k + 1).drop_last() =~= segs.take(k as int));
            if k > 0 {
                assert(join_segments(segs.take(k as int)).len() > 0) by {
                    if k == 1 {
                        assert(segs.take(1)[0] == segs[0]);
                    } else {
                        assert(segs.take(k as int).last() == segs[k - 1]);
                    }
                }
            }
        }
        if built.len() > 0 {
            built.push('/');
        }
        built = concat_chars(&built, seg);
        proof {
            if k == 0 {
                assert(built@ =~= segs.take(1)[0]);
            }
        }
        assert(built@ == join_segments(segs.take(k + 1)));
        let label = string_from_chars(seg.as_slice());
        let target = string_from_chars(built.as_slice());
        trail.push(Crumb { label, target });
    }
    trail
}

} // verus!

verus! {

/// 1024 to the power `k`.
pub open spec fn pow1024(k: nat) -> nat
    decreases k,
{
    if k == 0 {
        1
    } else {
        1024 * pow1024((k - 1) as nat)
    }
}

/// The unit a byte count is shown in: the largest of B, KB, MB, GB, TB
/// (0 to 4) whose size, 1024 to the unit's power, is at most the count;
/// B for counts under 1024.
pub fn byte_unit(bytes: u64) -> (unit: usize)
    ensures
        unit <= 4,
        unit > 0 ==> bytes >= pow1024(unit as nat),
        unit < 4 ==> bytes < pow1024((unit + 1) as nat),
{
    proof {
        reveal_with_fuel(pow1024, 5);
    }
    let mut value: u64 = bytes;
    let mut unit: usize = 0;
    assert(pow1024(0) == 1);
    assert(value as nat * 1 == value as nat);
    assert((value as nat + 1) * 1 == value as nat + 1);
    while value >= 1024 && unit < 4
        invariant
            unit <= 4,
            value as nat * pow1024(unit as nat) <= bytes,
            bytes < (value as nat + 1) * pow1024(unit as nat),
            unit > 0 ==> bytes >= pow1024(unit as nat),
        decreases 4 - unit,
    {
        proof {
            let p = pow1024(unit as nat);
            assert(pow1024((unit + 1) as nat) == 1024 * p);
            let q = value / 1024;
            assert(value == 1024 * q + value % 1024);
            assert(q as nat * (1024 * p) <= value as nat * p) by (nonlinear_arith)
                requires q * 1024 <= value;
            assert((value as nat + 1) * p <= (q as nat + 1) * (1024 * p)) by (nonlinear_arith)
                requires value < 1024 * (q + 1), p >= 0;
            assert(1024 * p <= value as nat * p) by (nonlinear_arith)
                requires value >= 1024, p >= 0;
        }
        value = value / 1024;
        unit = unit + 1;
    }
    proof {
        if unit < 4 {
            let p = pow1024(unit as nat);
            assert(pow1024((unit + 1) as nat) == 1024 * p);
            assert((value as nat + 1) * p <= 1024 * p) by (nonlinear_arith)
                requires value < 1024, p >= 0;
        }
    }
    unit
}

/// The name of unit `unit` (0 to 4): B, KB, MB, GB, TB.
pub open spec fn unit_name(unit: usize) -> Seq<char> {
    if unit == 0 {
        "B"@
    } else if unit == 1 {
        "KB"@
    } else if unit == 2 {
        "MB"@
    } else if unit == 3 {
        "GB"@
    } else {
        "TB"@
    }
}

/// The name of a unit that `byte_unit` returns.
pub fn unit_label(unit: usize) -> (r: &'static str)
    requires
        unit <= 4,
    ensures
        r@ == unit_name(unit),
{
    if unit == 0 {
        "B"
    } else if unit == 1 {
        "KB"
    } else if unit == 2 {
        "MB"
    } else if unit == 3 {
        "GB"
    } else {
        "TB"
    }
}

} // verus!
