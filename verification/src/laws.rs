//! Properties of the library that span its functions, proved over the spec
//! functions that their contracts use.
use vstd::prelude::*;
use crate::archive::{
    format_of_path, lowered_file_name, member_packed_sizes, member_sizes, saturating_total, total,
    zip_document, EntryView,
};
use crate::browser::{
    after_first_segment, folder_prefix, child_path, entry_slot, first_segment, folder_rows, lists_rows, path_segments, join_segments,
    crumbs_of, lemma_path_segments, matching_rows, row_matches, segment_end, RowView,
};
use crate::paths::{last_index_of, normalized, parent_of, slash_char};
use crate::session::{other_paths, recent_after, RECENT_LIMIT};
use crate::text::{
    contains_seq, lemma_seq_lt_asymmetric, lemma_seq_lt_irreflexive, seq_lt, starts_with, trim_end,
    trim_start, unicode_lower,
};
use crate::zip_source::ZipMember;

verus! {

/// The leading run that `segment_end` measures holds no `/`, and ends at a
/// `/` or at the end of `s`.
proof fn lemma_segment_end(s: Seq<char>)
    ensures
        0 <= segment_end(s) <= s.len(),
        forall|i: int| 0 <= i < segment_end(s) ==> s[i] != '/',
        segment_end(s) < s.len() ==> s[segment_end(s)] == '/',
    decreases s.len(),
{
    if s.len() > 0 && s[0] != '/' {
        lemma_segment_end(s.drop_first());
        assert forall|i: int| 0 <= i < segment_end(s) implies s[i] != '/' by {
            if i > 0 {
                assert(s[i] == s.drop_first()[i - 1]);
            }
        }
        if segment_end(s) < s.len() {
            assert(s[segment_end(s)] == s.drop_first()[segment_end(s.drop_first())]);
        }
    }
}

/// Appending characters other than `c` leaves the last `c` where it was.
proof fn lemma_last_index_of_append(s: Seq<char>, t: Seq<char>, c: char)
    requires
        forall|i: int| 0 <= i < t.len() ==> t[i] != c,
    ensures
        last_index_of(s + t, c) == last_index_of(s, c),
    decreases t.len(),
{
    if t.len() == 0 {
        assert(s + t =~= s);
    } else {
        assert((s + t).drop_last() =~= s + t.drop_last());
        lemma_last_index_of_append(s, t.drop_last(), c);
    }
}

/// The folder above a child of `current` is `current`.
pub proof fn lemma_parent_of_child(current: Seq<char>, name: Seq<char>)
    requires
        forall|i: int| 0 <= i < name.len() ==> name[i] != '/',
    ensures
        parent_of(child_path(current, name)) == current,
{
    if current.len() == 0 {
        lemma_last_index_of_append(Seq::empty(), name, '/');
        assert(Seq::<char>::empty() + name =~= name);
    } else {
        lemma_last_index_of_append(current.push('/'), name, '/');
        assert((current.push('/') + name).subrange(0, current.len() as int) =~= current);
    }
}

/// Every child of a folder is named by a non-empty name without `/`, and its
/// path is the child path of the folder.
pub proof fn lemma_folder_rows_paths(entries: Seq<EntryView>, current: Seq<char>)
    ensures
        forall|k: Seq<char>| #[trigger]
            folder_rows(entries, current).contains_key(k) ==> {
                &&& folder_rows(entries, current)[k].path == child_path(current, k)
                &&& k.len() > 0
                &&& forall|i: int| 0 <= i < k.len() ==> k[i] != '/'
            },
    decreases entries.len(),
{
    if entries.len() > 0 {
        lemma_folder_rows_paths(entries.drop_last(), current);
        let e = entries.last();
        match entry_slot(e, current) {
            None => {},
            Some((name, _)) => {
                let full = crate::paths::normalized(e.path);
                let prefix = crate::browser::folder_prefix(current);
                let rest = full.subrange(prefix.len() as int, full.len() as int);
                lemma_segment_end(trim_start(rest, '/'));
                assert(name == first_segment(rest));
            },
        }
    }
}

/// Going back from any row of a folder returns to the folder: the parent
/// of each row's path is the folder the rows were listed for.
pub proof fn law_back_returns_to_folder(
    entries: Seq<EntryView>,
    current: Seq<char>,
    rows: Seq<RowView>,
)
    requires
        lists_rows(rows, folder_rows(entries, current)),
    ensures
        forall|i: int| 0 <= i < rows.len() ==> parent_of(#[trigger] rows[i].path) == current,
{
    lemma_folder_rows_paths(entries, current);
    crate::browser::lemma_folder_rows_keys(entries, current);
    assert forall|i: int| 0 <= i < rows.len() implies parent_of(#[trigger] rows[i].path) == current by {
        let k = rows[i].name;
        assert(folder_rows(entries, current).contains_key(k));
        lemma_parent_of_child(current, k);
    }
}

/// Folders are listed before files: a folder never follows a file.
pub proof fn law_folders_first(rows: Seq<RowView>, m: Map<Seq<char>, RowView>)
    requires
        lists_rows(rows, m),
    ensures
        forall|i: int, j: int|
            0 <= i < j < rows.len() && #[trigger] rows[j].is_directory ==> #[trigger] rows[i].is_directory,
{
    assert forall|i: int, j: int|
        0 <= i < j < rows.len() && #[trigger] rows[j].is_directory implies #[trigger] rows[i].is_directory by {
        assert(crate::browser::row_before(rows[i], rows[j]));
    }
}

/// No two rows of a folder have the same name.
pub proof fn law_rows_unique(rows: Seq<RowView>, m: Map<Seq<char>, RowView>)
    requires
        lists_rows(rows, m),
    ensures
        forall|i: int, j: int|
            0 <= i < rows.len() && 0 <= j < rows.len() && #[trigger] rows[i].name == #[trigger] rows[j].name
                ==> i == j,
{
    assert forall|i: int, j: int|
        0 <= i < rows.len() && 0 <= j < rows.len() && #[trigger] rows[i].name == #[trigger] rows[j].name
        implies i == j by {
        crate::browser::lemma_listed_names_unique(rows, m, i, j);
    }
}

} // verus!

verus! {

/// Joining non-empty segments gives a non-empty path.
proof fn lemma_join_nonempty(segs: Seq<Seq<char>>)
    requires
        segs.len() > 0,
        forall|i: int| 0 <= i < segs.len() ==> (#[trigger] segs[i]).len() > 0,
    ensures
        join_segments(segs).len() > 0,
    decreases segs.len(),
{
}

/// Each crumb's target is the child path of the previous crumb's target,
/// so going back from a crumb's folder lands on the previous crumb; going
/// back from the first crumb lands on the root.
pub proof fn law_crumbs_step_back(current: Seq<char>)
    ensures
        forall|i: int|
            0 < i < crumbs_of(current).len() ==> parent_of(#[trigger] crumbs_of(current)[i].1)
                == crumbs_of(current)[i - 1].1,
        crumbs_of(current).len() > 0 ==> parent_of(crumbs_of(current)[0].1) == Seq::<char>::empty(),
{
    let segs = path_segments(current);
    lemma_path_segments(current);
    assert forall|i: int| 0 < i < crumbs_of(current).len() implies parent_of(
        #[trigger] crumbs_of(current)[i].1,
    ) == crumbs_of(current)[i - 1].1 by {
        let prev = segs.take(i);
        assert(segs.take(i + 1).drop_last() =~= prev);
        assert(segs.take(i + 1).last() == segs[i]);
        assert forall|k: int| 0 <= k < prev.len() implies (#[trigger] prev[k]).len() > 0 by {
            assert(prev[k] == segs[k]);
        }
        lemma_join_nonempty(prev);
        assert forall|k: int| 0 <= k < segs[i].len() implies segs[i][k] != '/' by {}
        lemma_parent_of_child(join_segments(prev), segs[i]);
    }
    if segs.len() > 0 {
        assert(segs.take(1)[0] == segs[0]);
        assert forall|k: int| 0 <= k < segs[0].len() implies segs[0][k] != '/' by {}
        lemma_parent_of_child(Seq::empty(), segs[0]);
    }
}

/// `p` has no `/` at its start and never two in a row.
pub open spec fn tidy(p: Seq<char>) -> bool {
    &&& (p.len() > 0 ==> p[0] != '/')
    &&& forall|i: int| 0 <= i < p.len() - 1 ==> !(p[i] == '/' && #[trigger] p[i + 1] == '/')
}

/// A path that is neither empty, nor starts or ends with `/`, nor holds `//`.
pub open spec fn clean_path(p: Seq<char>) -> bool {
    p.len() > 0 && tidy(p) && p.last() != '/'
}

/// Extending the last segment by a character extends the joined path by it.
proof fn lemma_join_extend_last(segs: Seq<Seq<char>>, c: char)
    requires
        segs.len() > 0,
    ensures
        join_segments(segs.drop_last().push(segs.last().push(c))) == join_segments(segs).push(c),
{
    let s2 = segs.drop_last().push(segs.last().push(c));
    if segs.len() > 1 {
        assert(s2.drop_last() =~= segs.drop_last());
        assert(join_segments(segs.drop_last()).push('/') + segs.last().push(c) =~= (join_segments(
            segs.drop_last(),
        ).push('/') + segs.last()).push(c));
    }
}

/// Joining the segments of a tidy path gives the path back, without a
/// trailing `/`.
proof fn lemma_join_segments_tidy(p: Seq<char>)
    requires
        tidy(p),
    ensures
        join_segments(path_segments(p)) == if p.len() > 0 && p.last() == '/' {
            p.drop_last()
        } else {
            p
        },
    decreases p.len(),
{
    if p.len() > 0 {
        let q = p.drop_last();
        assert(tidy(q)) by {
            assert forall|i: int| 0 <= i < q.len() - 1 implies !(q[i] == '/' && #[trigger] q[i + 1] == '/') by {
                assert(q[i] == p[i] && q[i + 1] == p[i + 1]);
            }
        }
        lemma_join_segments_tidy(q);
        lemma_path_segments(q);
        let c = p.last();
        let init = path_segments(q);
        if c == '/' {
            if q.len() > 0 {
                assert(q.last() == p[p.len() - 2]);
                let j = p.len() - 2;
                assert(!(p[j] == '/' && p[j + 1] == '/'));
            }
        } else if p.len() > 1 && p[p.len() - 2] != '/' {
            assert(q.last() == p[p.len() - 2]);
            lemma_join_extend_last(init, c);
            assert(q.push(c) =~= p);
        } else if p.len() == 1 {
            assert(q.len() == 0);
            assert(init =~= Seq::<Seq<char>>::empty());
            assert(init.push(seq![c]).len() == 1);
            assert(p =~= seq![c]);
        } else {
            let r = q.drop_last();
            assert(q.last() == '/');
            assert(r.len() > 0);
            assert(r.last() == p[p.len() - 3]);
            let j = p.len() - 3;
            assert(!(p[j] == '/' && p[j + 1] == '/'));
            assert(tidy(r)) by {
                assert forall|i: int| 0 <= i < r.len() - 1 implies !(r[i] == '/' && #[trigger] r[i + 1] == '/') by {
                    assert(r[i] == p[i] && r[i + 1] == p[i + 1]);
                }
            }
            lemma_path_segments(r);
            assert(path_segments(q) == path_segments(r));
            let s2 = init.push(seq![c]);
            assert(s2.drop_last() =~= init);
            assert(r.push('/').push(c) =~= p);
        }
    }
}

/// The last crumb of a clean path opens that path itself.
pub proof fn law_last_crumb_is_current(current: Seq<char>)
    requires
        clean_path(current),
    ensures
        crumbs_of(current).len() > 0,
        crumbs_of(current).last().1 == current,
{
    lemma_path_segments(current);
    lemma_join_segments_tidy(current);
    let segs = path_segments(current);
    assert(segs.take(segs.len() as int) =~= segs);
}

} // verus!

verus! {

/// The sum of a sequence is at least each of its values.
proof fn lemma_total_at_least(s: Seq<u64>, i: int)
    requires
        0 <= i < s.len(),
    ensures
        s[i] <= total(s),
    decreases s.len(),
{
    if i < s.len() - 1 {
        lemma_total_at_least(s.drop_last(), i);
    }
}

/// A saturating total is at least each of the values it adds up: no entry
/// of an archive is larger than the archive's total size.
pub proof fn law_total_bounds_each(s: Seq<u64>)
    ensures
        forall|i: int| 0 <= i < s.len() ==> #[trigger] s[i] <= saturating_total(s),
{
    assert forall|i: int| 0 <= i < s.len() implies #[trigger] s[i] <= saturating_total(s) by {
        lemma_total_at_least(s, i);
    }
}

/// Format detection ignores ASCII case: two paths whose file names differ
/// only in ASCII case name the same format.
pub proof fn law_format_ignores_ascii_case(p: Seq<char>, q: Seq<char>)
    requires
        lowered_file_name(p) == lowered_file_name(q),
    ensures
        format_of_path(p) == format_of_path(q),
{
}

/// The paths of `other_paths` are taken from the list and `path` equals
/// none of them.
proof fn lemma_other_paths(recent: Seq<Seq<char>>, path: Seq<char>)
    ensures
        other_paths(recent, path).len() <= recent.len(),
        forall|i: int|
            0 <= i < other_paths(recent, path).len() ==> !crate::paths::same_path(
                path,
                #[trigger] other_paths(recent, path)[i],
            ) && recent.contains(other_paths(recent, path)[i]),
    decreases recent.len(),
{
    if recent.len() > 0 {
        lemma_other_paths(recent.drop_last(), path);
        let init = other_paths(recent.drop_last(), path);
        assert forall|i: int| 0 <= i < other_paths(recent, path).len() implies recent.contains(
            #[trigger] other_paths(recent, path)[i],
        ) by {
            if i < init.len() {
                let j = choose|j: int| 0 <= j < recent.drop_last().len() && recent.drop_last()[j] == init[i];
                assert(recent[j] == init[i]);
            } else {
                assert(recent[recent.len() - 1] == recent.last());
            }
        }
    }
}

/// After an archive is opened, it heads the recent list; the list holds at
/// most `RECENT_LIMIT` paths; every other path in it was in the list before
/// and is a path the opened one does not equal.
pub proof fn law_recent_after_open(recent: Seq<Seq<char>>, path: Seq<char>)
    ensures
        recent_after(recent, path).len() > 0,
        recent_after(recent, path)[0] == path,
        recent_after(recent, path).len() <= RECENT_LIMIT,
        forall|i: int|
            0 < i < recent_after(recent, path).len() ==> !crate::paths::same_path(
                path,
                #[trigger] recent_after(recent, path)[i],
            ) && recent.contains(recent_after(recent, path)[i]),
{
    lemma_other_paths(recent, path);
    let kept = seq![path] + other_paths(recent, path);
    assert forall|i: int| 0 < i < recent_after(recent, path).len() implies !crate::paths::same_path(
        path,
        #[trigger] recent_after(recent, path)[i],
    ) && recent.contains(recent_after(recent, path)[i]) by {
        assert(recent_after(recent, path)[i] == kept[i]);
        assert(kept[i] == other_paths(recent, path)[i - 1]);
    }
}

} // verus!

verus! {

/// The sizes of a list of entries.
pub open spec fn entry_sizes(entries: Seq<EntryView>) -> Seq<u64> {
    entries.map_values(|e: EntryView| e.size)
}

/// The packed sizes of a list of entries (zero where unknown).
pub open spec fn entry_packed_sizes(entries: Seq<EntryView>) -> Seq<u64> {
    entries.map_values(
        |e: EntryView|
            match e.compressed_size {
                Some(p) => p,
                None => 0u64,
            },
    )
}

/// The summary of an opened ZIP archive agrees with its entries: it counts
/// them, and its sizes are the saturating sums of the entries' sizes and
/// packed sizes; every entry knows its packed size.
pub proof fn law_summary_matches_entries(path: Seq<char>, members: Seq<ZipMember>)
    requires
        members.len() <= usize::MAX,
    ensures
        ({
            let d = zip_document(path, members);
            &&& d.summary.entries == d.entries.len()
            &&& d.summary.original_size == saturating_total(entry_sizes(d.entries))
            &&& d.summary.compressed_size == saturating_total(entry_packed_sizes(d.entries))
            &&& forall|i: int| 0 <= i < d.entries.len() ==> (#[trigger] d.entries[i]).compressed_size is Some
            &&& d.summary.path == path
        }),
{
    let d = zip_document(path, members);
    assert(entry_sizes(d.entries) =~= member_sizes(members));
    assert(entry_packed_sizes(d.entries) =~= member_packed_sizes(members));
}

/// The search keeps only rows it was given, each matching the query.
pub proof fn law_search_keeps_matching(rows: Seq<RowView>, query: Seq<char>)
    ensures
        matching_rows(rows, query).len() <= rows.len(),
        forall|i: int|
            0 <= i < matching_rows(rows, query).len() ==> rows.contains(
                #[trigger] matching_rows(rows, query)[i],
            ) && row_matches(matching_rows(rows, query)[i], query),
    decreases rows.len(),
{
    if rows.len() > 0 {
        law_search_keeps_matching(rows.drop_last(), query);
        let init = matching_rows(rows.drop_last(), query);
        assert forall|i: int| 0 <= i < matching_rows(rows, query).len() implies rows.contains(
            #[trigger] matching_rows(rows, query)[i],
        ) && row_matches(matching_rows(rows, query)[i], query) by {
            if i < init.len() {
                assert(matching_rows(rows, query)[i] == init[i]);
                let j = choose|j: int| 0 <= j < rows.drop_last().len() && rows.drop_last()[j] == init[i];
                assert(rows[j] == init[i]);
            } else {
                assert(rows[rows.len() - 1] == rows.last());
            }
        }
    }
}

} // verus!

verus! {

/// No path of the list equals a later one.
pub open spec fn distinct_paths(list: Seq<Seq<char>>) -> bool {
    forall|i: int, j: int|
        0 <= i < j < list.len() ==> !crate::paths::same_path(#[trigger] list[i], #[trigger] list[j])
}

/// `pos` gives, in increasing order, the positions in `list` from which the
/// paths of `kept` are taken.
pub open spec fn taken_from(list: Seq<Seq<char>>, kept: Seq<Seq<char>>, pos: Seq<int>) -> bool {
    &&& pos.len() == kept.len()
    &&& forall|i: int| 0 <= i < pos.len() ==> 0 <= #[trigger] pos[i] < list.len() && list[pos[i]] == kept[i]
    &&& forall|i: int, j: int| 0 <= i < j < pos.len() ==> #[trigger] pos[i] < #[trigger] pos[j]
}

/// `other_paths` keeps the order of the list.
proof fn lemma_other_paths_order(recent: Seq<Seq<char>>, path: Seq<char>)
    ensures
        exists|pos: Seq<int>| #[trigger] taken_from(recent, other_paths(recent, path), pos),
    decreases recent.len(),
{
    if recent.len() == 0 {
        assert(taken_from(recent, other_paths(recent, path), Seq::<int>::empty()));
    } else {
        lemma_other_paths_order(recent.drop_last(), path);
        let init = other_paths(recent.drop_last(), path);
        let pos = choose|pos: Seq<int>| #[trigger] taken_from(recent.drop_last(), init, pos);
        if crate::paths::same_path(path, recent.last()) {
            assert forall|i: int| 0 <= i < pos.len() implies 0 <= #[trigger] pos[i] < recent.len()
                && recent[pos[i]] == init[i] by {
                assert(recent[pos[i]] == recent.drop_last()[pos[i]]);
            }
            assert(taken_from(recent, other_paths(recent, path), pos));
        } else {
            let pos2 = pos.push(recent.len() - 1);
            let kept = other_paths(recent, path);
            assert forall|i: int| 0 <= i < pos2.len() implies 0 <= #[trigger] pos2[i] < recent.len()
                && recent[pos2[i]] == kept[i] by {
                if i < pos.len() {
                    assert(pos2[i] == pos[i]);
                    assert(recent[pos[i]] == recent.drop_last()[pos[i]]);
                }
            }
            assert forall|i: int, j: int| 0 <= i < j < pos2.len() implies #[trigger] pos2[i] < #[trigger] pos2[j] by {
                if j < pos.len() {
                    assert(pos2[i] == pos[i] && pos2[j] == pos[j]);
                } else {
                    assert(pos2[i] == pos[i]);
                }
            }
            assert(taken_from(recent, kept, pos2));
        }
    }
}

/// The recent list stays free of repeats: if no path in it equals a later
/// one and it holds at most `RECENT_LIMIT` paths, the same holds after an
/// archive is opened. (A failed open leaves the list as it was.)
pub proof fn law_recent_stays_distinct(recent: Seq<Seq<char>>, path: Seq<char>)
    requires
        distinct_paths(recent),
    ensures
        distinct_paths(recent_after(recent, path)),
        recent_after(recent, path).len() <= RECENT_LIMIT,
{
    lemma_other_paths(recent, path);
    lemma_other_paths_order(recent, path);
    let others = other_paths(recent, path);
    let pos = choose|pos: Seq<int>| #[trigger] taken_from(recent, others, pos);
    let kept = seq![path] + others;
    let after = recent_after(recent, path);
    assert forall|i: int, j: int| 0 <= i < j < after.len() implies !crate::paths::same_path(
        #[trigger] after[i],
        #[trigger] after[j],
    ) by {
        assert(after[i] == kept[i] && after[j] == kept[j]);
        if i == 0 {
            assert(kept[j] == others[j - 1]);
        } else {
            assert(kept[i] == others[i - 1] && kept[j] == others[j - 1]);
            assert(pos[i - 1] < pos[j - 1]);
            assert(recent[pos[i - 1]] == others[i - 1]);
            assert(recent[pos[j - 1]] == others[j - 1]);
        }
    }
}

} // verus!

verus! {

/// What `trim_start` leaves is a tail of its input that does not start with `c`.
proof fn lemma_trim_start(s: Seq<char>, c: char)
    ensures
        trim_start(s, c).len() <= s.len(),
        trim_start(s, c) == s.subrange(s.len() - trim_start(s, c).len(), s.len() as int),
        trim_start(s, c).len() > 0 ==> trim_start(s, c)[0] != c,
    decreases s.len(),
{
    if s.len() > 0 && s[0] == c {
        lemma_trim_start(s.drop_first(), c);
        assert(s.drop_first().subrange(
            s.drop_first().len() - trim_start(s, c).len(),
            s.drop_first().len() as int,
        ) =~= s.subrange(s.len() - trim_start(s, c).len(), s.len() as int));
    } else {
        assert(s.subrange(0, s.len() as int) =~= s);
    }
}

/// What `trim_end` leaves is a head of its input that does not end with `c`.
proof fn lemma_trim_end(s: Seq<char>, c: char)
    ensures
        trim_end(s, c).len() <= s.len(),
        trim_end(s, c) == s.subrange(0, trim_end(s, c).len() as int),
        trim_end(s, c).len() > 0 ==> trim_end(s, c).last() != c,
    decreases s.len(),
{
    if s.len() > 0 && s.last() == c {
        lemma_trim_end(s.drop_last(), c);
        assert(s.drop_last().subrange(0, trim_end(s, c).len() as int) =~= s.subrange(
            0,
            trim_end(s, c).len() as int,
        ));
    } else {
        assert(s.subrange(0, s.len() as int) =~= s);
    }
}

/// A normalized path holds no backslash and neither starts nor ends with
/// `/`; normalizing it again changes nothing.
pub proof fn law_normalized_is_normal(path: Seq<char>)
    ensures
        forall|i: int| 0 <= i < normalized(path).len() ==> #[trigger] normalized(path)[i] != '\\',
        normalized(path).len() > 0 ==> normalized(path)[0] != '/' && normalized(path).last() != '/',
        normalized(normalized(path)) == normalized(path),
{
    let m = path.map_values(|c: char| slash_char(c));
    let t = trim_start(m, '/');
    let n = normalized(path);
    lemma_trim_start(m, '/');
    lemma_trim_end(t, '/');
    assert(n == trim_end(t, '/'));
    assert forall|i: int| 0 <= i < n.len() implies #[trigger] n[i] != '\\' by {
        assert(n[i] == t[i]);
        assert(t[i] == m[m.len() - t.len() + i]);
    }
    if n.len() > 0 {
        assert(n[0] == t[0]);
    }
    let m2 = n.map_values(|c: char| slash_char(c));
    assert(m2 =~= n);
    if n.len() > 0 {
        assert(trim_start(n, '/') == n);
        assert(trim_end(n, '/') == n);
    } else {
        assert(trim_start(n, '/') == n);
        assert(trim_end(n, '/') == n);
    }
}

} // verus!

verus! {

/// Each entry of an opened ZIP archive is its member as the reader gives it:
/// the member's name as path, its uncompressed size (`size`) as size, its
/// packed size (`compressed_size`) as packed size, its directory flag; the
/// summary counts the members and totals, with saturation, their
/// uncompressed and packed sizes.
pub proof fn law_zip_entries_are_members(path: Seq<char>, members: Seq<ZipMember>)
    requires
        members.len() <= usize::MAX,
    ensures
        ({
            let d = zip_document(path, members);
            &&& d.entries.len() == members.len()
            &&& forall|i: int|
                0 <= i < members.len() ==> {
                    &&& (#[trigger] d.entries[i]).path == members[i]->Ok_0.0
                    &&& d.entries[i].size == members[i]->Ok_0.1
                    &&& d.entries[i].compressed_size == Some(members[i]->Ok_0.2)
                    &&& d.entries[i].is_directory == members[i]->Ok_0.3
                }
            &&& d.summary.original_size == saturating_total(
                members.map_values(|m: ZipMember| m->Ok_0.1),
            )
            &&& d.summary.compressed_size == saturating_total(
                members.map_values(|m: ZipMember| m->Ok_0.2),
            )
            &&& d.summary.entries == members.len()
            &&& d.summary.path == path
        }),
{
    assert(members.map_values(|m: ZipMember| m->Ok_0.1) =~= member_sizes(members));
    assert(members.map_values(|m: ZipMember| m->Ok_0.2) =~= member_packed_sizes(members));
}

/// Rows of the same kind are in order of lower-cased name, and rows whose
/// lower-cased names are equal are in order of name.
pub proof fn law_rows_in_name_order(rows: Seq<RowView>, m: Map<Seq<char>, RowView>)
    requires
        lists_rows(rows, m),
    ensures
        forall|i: int, j: int|
            0 <= i < j < rows.len() && (#[trigger] rows[i]).is_directory == (#[trigger] rows[j]).is_directory
                ==> !seq_lt(unicode_lower(rows[j].name), unicode_lower(rows[i].name)) && (
            unicode_lower(rows[i].name) == unicode_lower(rows[j].name) ==> seq_lt(
                rows[i].name,
                rows[j].name,
            )),
{
    assert forall|i: int, j: int|
        0 <= i < j < rows.len() && (#[trigger] rows[i]).is_directory == (#[trigger] rows[j]).is_directory
        implies !seq_lt(unicode_lower(rows[j].name), unicode_lower(rows[i].name)) && (
    unicode_lower(rows[i].name) == unicode_lower(rows[j].name) ==> seq_lt(
        rows[i].name,
        rows[j].name,
    )) by {
        assert(crate::browser::row_before(rows[i], rows[j]));
        let (li, lj) = (unicode_lower(rows[i].name), unicode_lower(rows[j].name));
        if seq_lt(li, lj) {
            lemma_seq_lt_asymmetric(li, lj);
        } else {
            lemma_seq_lt_irreflexive(li);
        }
    }
}

/// The search finds every row whose lower-cased name contains the
/// lower-cased query, and only rows it was given whose lower-cased names
/// contain it, in their order.
pub proof fn law_search_finds_exactly_containing(rows: Seq<RowView>, query: Seq<char>)
    ensures
        forall|i: int|
            0 <= i < rows.len() && contains_seq(unicode_lower(#[trigger] rows[i].name), unicode_lower(query))
                ==> matching_rows(rows, query).contains(rows[i]),
        forall|j: int|
            0 <= j < matching_rows(rows, query).len() ==> rows.contains(
                #[trigger] matching_rows(rows, query)[j],
            ) && contains_seq(
                unicode_lower(matching_rows(rows, query)[j].name),
                unicode_lower(query),
            ),
    decreases rows.len(),
{
    if rows.len() > 0 {
        law_search_finds_exactly_containing(rows.drop_last(), query);
        let init = matching_rows(rows.drop_last(), query);
        let all = matching_rows(rows, query);
        assert forall|i: int|
            0 <= i < rows.len() && contains_seq(unicode_lower(#[trigger] rows[i].name), unicode_lower(query))
            implies all.contains(rows[i]) by {
            if i < rows.len() - 1 {
                assert(rows.drop_last()[i] == rows[i]);
                let k = choose|k: int| 0 <= k < init.len() && init[k] == rows[i];
                assert(all[k] == init[k]);
            } else {
                assert(all[all.len() - 1] == rows.last());
            }
        }
        assert forall|j: int| 0 <= j < all.len() implies rows.contains(#[trigger] all[j])
            && contains_seq(unicode_lower(all[j].name), unicode_lower(query)) by {
            if j < init.len() {
                assert(all[j] == init[j]);
                let k = choose|k: int| 0 <= k < rows.drop_last().len() && rows.drop_last()[k] == init[j];
                assert(rows[k] == init[j]);
            } else {
                assert(rows[rows.len() - 1] == rows.last());
            }
        }
    }
}

} // verus!

verus! {

/// A run of `a` slashes.
pub open spec fn slashes(a: nat) -> Seq<char> {
    Seq::new(a, |_i: int| '/')
}

/// `full` passes through child `name` of folder `current`: it is `current`
/// without its trailing slashes (nothing at the root), a `/`, a run of `a`
/// more slashes, `name`, and then either its end or a `/`.
pub open spec fn child_at(full: Seq<char>, current: Seq<char>, name: Seq<char>, a: nat) -> bool {
    let q = (if current.len() == 0 {
        Seq::empty()
    } else {
        trim_end(current, '/').push('/')
    }) + slashes(a) + name;
    starts_with(full, q) && (full.len() == q.len() || full[q.len() as int] == '/')
}

/// `full` is child `name` of folder `current` itself: `current` without its
/// trailing slashes (nothing at the root), a `/`, a run of `a` more slashes,
/// then `name`.
pub open spec fn file_at(full: Seq<char>, current: Seq<char>, name: Seq<char>, a: nat) -> bool {
    full == (if current.len() == 0 {
        Seq::empty()
    } else {
        trim_end(current, '/').push('/')
    }) + slashes(a) + name
}

/// The characters that `trim_start` drops are all `c`.
proof fn lemma_trim_start_run(s: Seq<char>, c: char)
    ensures
        forall|i: int| 0 <= i < s.len() - trim_start(s, c).len() ==> s[i] == c,
    decreases s.len(),
{
    lemma_trim_start(s, c);
    if s.len() > 0 && s[0] == c {
        lemma_trim_start_run(s.drop_first(), c);
        assert forall|i: int| 0 <= i < s.len() - trim_start(s, c).len() implies s[i] == c by {
            if i > 0 {
                assert(s[i] == s.drop_first()[i - 1]);
            }
        }
    }
}

/// Leading slashes make no difference to what `trim_start` leaves.
proof fn lemma_trim_start_slashes(a: nat, t: Seq<char>)
    ensures
        trim_start(slashes(a) + t, '/') == trim_start(t, '/'),
    decreases a,
{
    if a == 0 {
        assert(slashes(a) + t =~= t);
    } else {
        let s = slashes(a) + t;
        assert(s[0] == '/');
        assert(s.drop_first() =~= slashes((a - 1) as nat) + t);
        lemma_trim_start_slashes((a - 1) as nat, t);
    }
}

/// A slash-free head followed by nothing or by a `/` is where the first
/// segment ends.
proof fn lemma_segment_end_of(x: Seq<char>, rest: Seq<char>)
    requires
        forall|i: int| 0 <= i < x.len() ==> x[i] != '/',
        rest.len() == 0 || rest[0] == '/',
    ensures
        segment_end(x + rest) == x.len(),
    decreases x.len(),
{
    if x.len() == 0 {
        assert(x + rest =~= rest);
    } else {
        assert((x + rest)[0] == x[0]);
        assert((x + rest).drop_first() =~= x.drop_first() + rest);
        lemma_segment_end_of(x.drop_first(), rest);
    }
}

/// An entry whose path passes through child `name` of a folder shows up in
/// that folder under `name`; as a file exactly when its path ends there and
/// it is no directory.
#[verifier::spinoff_prover]
#[verifier::rlimit(40)]
proof fn lemma_slot_of_child(e: EntryView, current: Seq<char>, name: Seq<char>, a: nat)
    requires
        name.len() > 0,
        forall|i: int| 0 <= i < name.len() ==> name[i] != '/',
        child_at(normalized(e.path), current, name, a),
    ensures
        entry_slot(e, current) is Some,
        entry_slot(e, current)->Some_0.0 == name,
        file_at(normalized(e.path), current, name, a) ==> entry_slot(e, current) == Some(
            (name, e.is_directory),
        ),
{
    let full = normalized(e.path);
    let h = folder_prefix(current);
    let q = h + slashes(a) + name;
    let tail = full.subrange(q.len() as int, full.len() as int);
    assert(full.subrange(0, q.len() as int) == q);
    assert(full =~= q + tail);
    assert(full.subrange(0, h.len() as int) =~= h);
    assert(starts_with(full, h));
    let rest = full.subrange(h.len() as int, full.len() as int);
    assert(rest =~= slashes(a) + (name + tail));
    lemma_trim_start_slashes(a, name + tail);
    assert((name + tail)[0] == name[0]);
    assert(trim_start(name + tail, '/') == name + tail);
    if tail.len() > 0 {
        assert(tail[0] == full[q.len() as int]);
    }
    lemma_segment_end_of(name, tail);
    assert(first_segment(rest) =~= name);
    assert(after_first_segment(rest) =~= tail);
    if file_at(full, current, name, a) {
        assert(tail.len() == 0);
        assert(trim_start(tail, '/').len() == 0);
    }
}

/// An entry that shows up in a folder passes through the child it shows up
/// under; when it shows up as a file, its path is that child itself and it
/// is no directory.
#[verifier::spinoff_prover]
#[verifier::rlimit(40)]
proof fn lemma_child_of_slot(e: EntryView, current: Seq<char>)
    requires
        entry_slot(e, current) is Some,
    ensures
        exists|a: nat| #[trigger] child_at(normalized(e.path), current, entry_slot(e, current)->Some_0.0, a),
        !entry_slot(e, current)->Some_0.1 ==> !e.is_directory && exists|a: nat|
            #[trigger] file_at(normalized(e.path), current, entry_slot(e, current)->Some_0.0, a),
{
    let full = normalized(e.path);
    let h = folder_prefix(current);
    let rest = full.subrange(h.len() as int, full.len() as int);
    let t = trim_start(rest, '/');
    lemma_trim_start(rest, '/');
    lemma_trim_start_run(rest, '/');
    let a = (rest.len() - t.len()) as nat;
    assert(rest =~= slashes(a) + t);
    let n = segment_end(t);
    lemma_segment_end(t);
    let name = t.subrange(0, n);
    let tail = t.subrange(n, t.len() as int);
    assert(name == entry_slot(e, current)->Some_0.0);
    assert(t =~= name + tail);
    assert(full =~= h + rest);
    let q = h + slashes(a) + name;
    assert(full =~= q + tail);
    assert(full.subrange(0, q.len() as int) =~= q);
    if tail.len() > 0 {
        assert(full[q.len() as int] == tail[0]);
    }
    assert(child_at(full, current, name, a));
    if !entry_slot(e, current)->Some_0.1 {
        assert(tail == after_first_segment(rest));
        if tail.len() > 0 {
            lemma_trim_start_run(tail, '/');
            law_normalized_is_normal(e.path);
            assert(full.last() == tail.last());
        }
        assert(full =~= q);
        assert(file_at(full, current, name, a));
    }
}

} // verus!

verus! {

/// Each row of a folder was added by an entry that shows up under its name.
proof fn lemma_rows_come_from_entries(entries: Seq<EntryView>, current: Seq<char>)
    ensures
        forall|key: Seq<char>| #[trigger]
            folder_rows(entries, current).contains_key(key) ==> exists|k: int|
                0 <= k < entries.len() && #[trigger] entry_slot(entries[k], current) is Some
                    && entry_slot(entries[k], current)->Some_0.0 == key,
    decreases entries.len(),
{
    if entries.len() > 0 {
        let init = entries.drop_last();
        lemma_rows_come_from_entries(init, current);
        assert forall|key: Seq<char>| #[trigger]
            folder_rows(entries, current).contains_key(key) implies exists|k: int|
                0 <= k < entries.len() && #[trigger] entry_slot(entries[k], current) is Some
                    && entry_slot(entries[k], current)->Some_0.0 == key by {
            if folder_rows(init, current).contains_key(key) {
                let k = choose|k: int|
                    0 <= k < init.len() && #[trigger] entry_slot(init[k], current) is Some
                        && entry_slot(init[k], current)->Some_0.0 == key;
                assert(init[k] == entries[k]);
            } else {
                assert(entries[entries.len() - 1] == entries.last());
            }
        }
    }
}

/// Every entry that shows up in a folder has a row under its name.
proof fn lemma_entries_have_rows(entries: Seq<EntryView>, current: Seq<char>)
    ensures
        forall|k: int|
            0 <= k < entries.len() && (#[trigger] entry_slot(entries[k], current)) is Some
                ==> folder_rows(entries, current).contains_key(entry_slot(entries[k], current)->Some_0.0),
    decreases entries.len(),
{
    if entries.len() > 0 {
        let init = entries.drop_last();
        lemma_entries_have_rows(init, current);
        assert forall|k: int|
            0 <= k < entries.len() && (#[trigger] entry_slot(entries[k], current)) is Some
            implies folder_rows(entries, current).contains_key(entry_slot(entries[k], current)->Some_0.0) by {
            if k < entries.len() - 1 {
                assert(init[k] == entries[k]);
                assert(folder_rows(init, current).contains_key(entry_slot(entries[k], current)->Some_0.0));
            }
        }
    }
}

/// A file row carries the sizes of the last entry that shows up as a file
/// under its name.
proof fn lemma_file_rows_from_last_entry(entries: Seq<EntryView>, current: Seq<char>)
    ensures
        forall|key: Seq<char>| #[trigger]
            folder_rows(entries, current).contains_key(key) && !folder_rows(entries, current)[key].is_directory
                ==> exists|k: int|
                0 <= k < entries.len() && #[trigger] entry_slot(entries[k], current) == Some((key, false))
                    && folder_rows(entries, current)[key].size == entries[k].size
                    && folder_rows(entries, current)[key].compressed_size == entries[k].compressed_size
                    && forall|k2: int|
                    k < k2 < entries.len() ==> #[trigger] entry_slot(entries[k2], current) != Some(
                        (key, false),
                    ),
    decreases entries.len(),
{
    if entries.len() > 0 {
        let init = entries.drop_last();
        let e = entries.last();
        let last = entries.len() - 1;
        lemma_file_rows_from_last_entry(init, current);
        let m0 = folder_rows(init, current);
        let m = folder_rows(entries, current);
        assert(entries[last] == e);
        assert forall|key: Seq<char>| #[trigger]
            m.contains_key(key) && !m[key].is_directory implies exists|k: int|
                0 <= k < entries.len() && #[trigger] entry_slot(entries[k], current) == Some((key, false))
                    && m[key].size == entries[k].size && m[key].compressed_size == entries[k].compressed_size
                    && forall|k2: int|
                    k < k2 < entries.len() ==> #[trigger] entry_slot(entries[k2], current) != Some(
                        (key, false),
                    ) by {
            if entry_slot(e, current) == Some((key, false)) {
                assert(entry_slot(entries[last], current) == Some((key, false)));
            } else {
                assert(m0.contains_key(key) && m[key] == m0[key]);
                let k = choose|k: int|
                    0 <= k < init.len() && #[trigger] entry_slot(init[k], current) == Some((key, false))
                        && m0[key].size == init[k].size && m0[key].compressed_size == init[k].compressed_size
                        && forall|k2: int|
                        k < k2 < init.len() ==> #[trigger] entry_slot(init[k2], current) != Some(
                            (key, false),
                        );
                assert(init[k] == entries[k]);
                assert forall|k2: int| k < k2 < entries.len() implies #[trigger] entry_slot(
                    entries[k2],
                    current,
                ) != Some((key, false)) by {
                    if k2 < last {
                        assert(init[k2] == entries[k2]);
                    }
                }
            }
        }
    }
}

} // verus!

verus! {

/// Every row of a folder comes from an entry inside it: the normalized path
/// of some entry runs through the folder (`current` without its trailing
/// slashes, then `/`) to the row's name as a whole path component.
pub proof fn law_rows_lie_inside_folder(entries: Seq<EntryView>, current: Seq<char>, rows: Seq<RowView>)
    requires
        lists_rows(rows, folder_rows(entries, current)),
    ensures
        forall|i: int|
            #![trigger rows[i]]
            0 <= i < rows.len() ==> exists|k: int, a: nat|
                0 <= k < entries.len() && #[trigger] child_at(
                    normalized(entries[k].path),
                    current,
                    rows[i].name,
                    a,
                ),
{
    lemma_rows_come_from_entries(entries, current);
    assert forall|i: int| #![trigger rows[i]] 0 <= i < rows.len() implies exists|k: int, a: nat|
        0 <= k < entries.len() && #[trigger] child_at(normalized(entries[k].path), current, rows[i].name, a) by {
        let key = rows[i].name;
        assert(folder_rows(entries, current).contains_key(key));
        let k = choose|k: int|
            0 <= k < entries.len() && #[trigger] entry_slot(entries[k], current) is Some
                && entry_slot(entries[k], current)->Some_0.0 == key;
        lemma_child_of_slot(entries[k], current);
        let a = choose|a: nat| #[trigger] child_at(normalized(entries[k].path), current, key, a);
        assert(child_at(normalized(entries[k].path), current, rows[i].name, a));
    }
}

/// Every child of a folder is listed: when the normalized path of an entry
/// runs through the folder to a non-empty component `name`, a row named
/// `name` is listed.
pub proof fn law_every_child_is_listed(entries: Seq<EntryView>, current: Seq<char>, rows: Seq<RowView>)
    requires
        lists_rows(rows, folder_rows(entries, current)),
    ensures
        forall|k: int, name: Seq<char>, a: nat|
            0 <= k < entries.len() && name.len() > 0 && (forall|j: int|
                0 <= j < name.len() ==> name[j] != '/') && #[trigger] child_at(
                normalized(entries[k].path),
                current,
                name,
                a,
            ) ==> exists|i: int| 0 <= i < rows.len() && #[trigger] rows[i].name == name,
{
    lemma_entries_have_rows(entries, current);
    assert forall|k: int, name: Seq<char>, a: nat|
        0 <= k < entries.len() && name.len() > 0 && (forall|j: int| 0 <= j < name.len() ==> name[j] != '/')
            && #[trigger] child_at(normalized(entries[k].path), current, name, a) implies exists|i: int|
        0 <= i < rows.len() && #[trigger] rows[i].name == name by {
        lemma_slot_of_child(entries[k], current, name, a);
        assert(folder_rows(entries, current).contains_key(name));
    }
}

/// A file row carries the size and packed size of the entry it names,
/// whatever the depth of the folder: of the last entry that is no directory
/// and whose normalized path is the folder (without its trailing slashes),
/// `/`, and the row's name.
pub proof fn law_file_rows_carry_entry_sizes(
    entries: Seq<EntryView>,
    current: Seq<char>,
    rows: Seq<RowView>,
)
    requires
        lists_rows(rows, folder_rows(entries, current)),
    ensures
        forall|i: int|
            #![trigger rows[i]]
            0 <= i < rows.len() && !rows[i].is_directory ==> exists|k: int, a: nat|
                0 <= k < entries.len() && !entries[k].is_directory && #[trigger] file_at(
                    normalized(entries[k].path),
                    current,
                    rows[i].name,
                    a,
                ) && rows[i].size == entries[k].size && rows[i].compressed_size
                    == entries[k].compressed_size && forall|k2: int, b: nat|
                    k < k2 < entries.len() && !entries[k2].is_directory ==> !#[trigger] file_at(
                        normalized(entries[k2].path),
                        current,
                        rows[i].name,
                        b,
                    ),
{
    lemma_file_rows_from_last_entry(entries, current);
    lemma_folder_rows_paths(entries, current);
    let m = folder_rows(entries, current);
    assert forall|i: int| #![trigger rows[i]] 0 <= i < rows.len() && !rows[i].is_directory implies exists|
        k: int,
        a: nat,
    |
        0 <= k < entries.len() && !entries[k].is_directory && #[trigger] file_at(
            normalized(entries[k].path),
            current,
            rows[i].name,
            a,
        ) && rows[i].size == entries[k].size && rows[i].compressed_size == entries[k].compressed_size
            && forall|k2: int, b: nat|
            k < k2 < entries.len() && !entries[k2].is_directory ==> !#[trigger] file_at(
                normalized(entries[k2].path),
                current,
                rows[i].name,
                b,
            ) by {
        let key = rows[i].name;
        assert(m.contains_key(key) && m[key] == rows[i]);
        let k = choose|k: int|
            0 <= k < entries.len() && #[trigger] entry_slot(entries[k], current) == Some((key, false))
                && m[key].size == entries[k].size && m[key].compressed_size == entries[k].compressed_size
                && forall|k2: int|
                k < k2 < entries.len() ==> #[trigger] entry_slot(entries[k2], current) != Some(
                    (key, false),
                );
        lemma_child_of_slot(entries[k], current);
        let a = choose|a: nat| #[trigger] file_at(normalized(entries[k].path), current, key, a);
        assert forall|k2: int, b: nat|
            k < k2 < entries.len() && !entries[k2].is_directory implies !#[trigger] file_at(
                normalized(entries[k2].path),
                current,
                key,
                b,
            ) by {
            if file_at(normalized(entries[k2].path), current, key, b) {
                let q = normalized(entries[k2].path);
                assert(q.subrange(0, q.len() as int) =~= q);
                assert(child_at(q, current, key, b));
                lemma_slot_of_child(entries[k2], current, key, b);
                assert(entry_slot(entries[k2], current) != Some((key, false)));
            }
        }
        assert(file_at(normalized(entries[k].path), current, rows[i].name, a));
    }
}

} // verus!

verus! {

/// Whether a row of a folder is a folder is settled by the first entry that
/// shows up under its name.
proof fn lemma_row_kind_from_first_entry(entries: Seq<EntryView>, current: Seq<char>)
    ensures
        forall|key: Seq<char>| #[trigger]
            folder_rows(entries, current).contains_key(key) ==> exists|k: int|
                0 <= k < entries.len() && #[trigger] entry_slot(entries[k], current) is Some
                    && entry_slot(entries[k], current)->Some_0.0 == key
                    && folder_rows(entries, current)[key].is_directory == entry_slot(
                    entries[k],
                    current,
                )->Some_0.1 && forall|k2: int|
                    0 <= k2 < k ==> !(#[trigger] entry_slot(entries[k2], current) is Some
                        && entry_slot(entries[k2], current)->Some_0.0 == key),
    decreases entries.len(),
{
    if entries.len() > 0 {
        let init = entries.drop_last();
        let last = entries.len() - 1;
        lemma_row_kind_from_first_entry(init, current);
        lemma_entries_have_rows(init, current);
        let m0 = folder_rows(init, current);
        let m = folder_rows(entries, current);
        assert(entries[last] == entries.last());
        assert forall|key: Seq<char>| #[trigger] m.contains_key(key) implies exists|k: int|
            0 <= k < entries.len() && #[trigger] entry_slot(entries[k], current) is Some
                && entry_slot(entries[k], current)->Some_0.0 == key && m[key].is_directory == entry_slot(
                entries[k],
                current,
            )->Some_0.1 && forall|k2: int|
                0 <= k2 < k ==> !(#[trigger] entry_slot(entries[k2], current) is Some
                    && entry_slot(entries[k2], current)->Some_0.0 == key) by {
            if m0.contains_key(key) {
                let k = choose|k: int|
                    0 <= k < init.len() && #[trigger] entry_slot(init[k], current) is Some
                        && entry_slot(init[k], current)->Some_0.0 == key && m0[key].is_directory
                        == entry_slot(init[k], current)->Some_0.1 && forall|k2: int|
                        0 <= k2 < k ==> !(#[trigger] entry_slot(init[k2], current) is Some
                            && entry_slot(init[k2], current)->Some_0.0 == key);
                assert(init[k] == entries[k]);
                assert(m[key].is_directory == m0[key].is_directory);
                assert forall|k2: int| 0 <= k2 < k implies !(#[trigger] entry_slot(entries[k2], current) is Some
                    && entry_slot(entries[k2], current)->Some_0.0 == key) by {
                    assert(init[k2] == entries[k2]);
                }
            } else {
                assert forall|k2: int| 0 <= k2 < last implies !(#[trigger] entry_slot(entries[k2], current) is Some
                    && entry_slot(entries[k2], current)->Some_0.0 == key) by {
                    assert(init[k2] == entries[k2]);
                    if entry_slot(init[k2], current) is Some {
                        assert(m0.contains_key(entry_slot(init[k2], current)->Some_0.0));
                    }
                }
            }
        }
    }
}

/// The sizes of any row of a folder: those of the last entry that shows up
/// as a file under its name, or none at all when no entry does.
proof fn lemma_row_sizes(entries: Seq<EntryView>, current: Seq<char>)
    ensures
        forall|key: Seq<char>| #[trigger]
            folder_rows(entries, current).contains_key(key) ==> {
                &&& (exists|k: int|
                    0 <= k < entries.len() && #[trigger] entry_slot(entries[k], current) == Some(
                        (key, false),
                    )) ==> exists|k: int|
                    0 <= k < entries.len() && #[trigger] entry_slot(entries[k], current) == Some(
                        (key, false),
                    ) && folder_rows(entries, current)[key].size == entries[k].size && folder_rows(
                        entries,
                        current,
                    )[key].compressed_size == entries[k].compressed_size && forall|k2: int|
                        k < k2 < entries.len() ==> #[trigger] entry_slot(entries[k2], current) != Some(
                            (key, false),
                        )
                &&& (forall|k: int|
                    0 <= k < entries.len() ==> #[trigger] entry_slot(entries[k], current) != Some(
                        (key, false),
                    )) ==> folder_rows(entries, current)[key].size == 0 && folder_rows(
                    entries,
                    current,
                )[key].compressed_size is None
            },
    decreases entries.len(),
{
    if entries.len() > 0 {
        let init = entries.drop_last();
        let e = entries.last();
        let last = entries.len() - 1;
        lemma_row_sizes(init, current);
        lemma_entries_have_rows(init, current);
        let m0 = folder_rows(init, current);
        let m = folder_rows(entries, current);
        assert(entries[last] == e);
        assert forall|key: Seq<char>| #[trigger] m.contains_key(key) implies {
            &&& (exists|k: int|
                0 <= k < entries.len() && #[trigger] entry_slot(entries[k], current) == Some((key, false)))
                ==> exists|k: int|
                0 <= k < entries.len() && #[trigger] entry_slot(entries[k], current) == Some((key, false))
                    && m[key].size == entries[k].size && m[key].compressed_size == entries[k].compressed_size
                    && forall|k2: int|
                    k < k2 < entries.len() ==> #[trigger] entry_slot(entries[k2], current) != Some(
                        (key, false),
                    )
            &&& (forall|k: int|
                0 <= k < entries.len() ==> #[trigger] entry_slot(entries[k], current) != Some((key, false)))
                ==> m[key].size == 0 && m[key].compressed_size is None
        } by {
            if entry_slot(e, current) == Some((key, false)) {
                assert(entry_slot(entries[last], current) == Some((key, false)));
            } else if m0.contains_key(key) {
                assert(m[key].size == m0[key].size && m[key].compressed_size == m0[key].compressed_size);
                if exists|k: int|
                    0 <= k < entries.len() && #[trigger] entry_slot(entries[k], current) == Some((key, false)) {
                    let k0 = choose|k: int|
                        0 <= k < entries.len() && #[trigger] entry_slot(entries[k], current) == Some(
                            (key, false),
                        );
                    assert(init[k0] == entries[k0]);
                    assert(entry_slot(init[k0], current) == Some((key, false)));
                    let k = choose|k: int|
                        0 <= k < init.len() && #[trigger] entry_slot(init[k], current) == Some((key, false))
                            && m0[key].size == init[k].size && m0[key].compressed_size
                            == init[k].compressed_size && forall|k2: int|
                            k < k2 < init.len() ==> #[trigger] entry_slot(init[k2], current) != Some(
                                (key, false),
                            );
                    assert(init[k] == entries[k]);
                    assert forall|k2: int| k < k2 < entries.len() implies #[trigger] entry_slot(
                        entries[k2],
                        current,
                    ) != Some((key, false)) by {
                        if k2 < last {
                            assert(init[k2] == entries[k2]);
                        }
                    }
                }
                if forall|k: int|
                    0 <= k < entries.len() ==> #[trigger] entry_slot(entries[k], current) != Some((key, false)) {
                    assert forall|k: int| 0 <= k < init.len() implies #[trigger] entry_slot(init[k], current)
                        != Some((key, false)) by {
                        assert(init[k] == entries[k]);
                    }
                }
            } else {
                assert forall|k: int| 0 <= k < entries.len() implies #[trigger] entry_slot(entries[k], current)
                    != Some((key, false)) by {
                    if k < last {
                        assert(init[k] == entries[k]);
                        if entry_slot(init[k], current) == Some((key, false)) {
                            assert(m0.contains_key(key));
                        }
                    }
                }
            }
        }
    }
}

} // verus!

verus! {

/// An entry whose path is child `name` of a folder itself shows up there
/// under `name`, as a file exactly when it is no directory.
proof fn lemma_slot_of_file(e: EntryView, current: Seq<char>, name: Seq<char>, a: nat)
    requires
        name.len() > 0,
        forall|i: int| 0 <= i < name.len() ==> name[i] != '/',
        file_at(normalized(e.path), current, name, a),
    ensures
        entry_slot(e, current) == Some((name, e.is_directory)),
{
    let q = normalized(e.path);
    assert(q.subrange(0, q.len() as int) =~= q);
    assert(child_at(q, current, name, a));
    lemma_slot_of_child(e, current, name, a);
}

/// What kind of row a child of a folder is, and what sizes it shows. The
/// first entry whose path runs through the child settles the kind: a file
/// when that entry is no directory and its path ends at the child, else a
/// folder. When some entry that is no directory has the child as its whole
/// path, the row shows the size and packed size of the last such entry;
/// when none does, the row is a folder with size 0 and no packed size.
#[verifier::rlimit(40)]
pub proof fn law_row_kind_and_sizes(entries: Seq<EntryView>, current: Seq<char>, rows: Seq<RowView>)
    requires
        lists_rows(rows, folder_rows(entries, current)),
    ensures
        forall|i: int|
            #![trigger rows[i]]
            0 <= i < rows.len() ==> {
                &&& exists|k: int, a: nat|
                    0 <= k < entries.len() && #[trigger] child_at(
                        normalized(entries[k].path),
                        current,
                        rows[i].name,
                        a,
                    ) && (forall|k2: int, b: nat|
                        0 <= k2 < k ==> !#[trigger] child_at(
                            normalized(entries[k2].path),
                            current,
                            rows[i].name,
                            b,
                        )) && (rows[i].is_directory <==> (entries[k].is_directory || forall|b: nat|
                        !#[trigger] file_at(normalized(entries[k].path), current, rows[i].name, b)))
                &&& (exists|k: int, a: nat|
                    0 <= k < entries.len() && !entries[k].is_directory && #[trigger] file_at(
                        normalized(entries[k].path),
                        current,
                        rows[i].name,
                        a,
                    )) ==> exists|k: int, a: nat|
                    0 <= k < entries.len() && !entries[k].is_directory && #[trigger] file_at(
                        normalized(entries[k].path),
                        current,
                        rows[i].name,
                        a,
                    ) && rows[i].size == entries[k].size && rows[i].compressed_size
                        == entries[k].compressed_size && forall|k2: int, b: nat|
                        k < k2 < entries.len() && !entries[k2].is_directory ==> !#[trigger] file_at(
                            normalized(entries[k2].path),
                            current,
                            rows[i].name,
                            b,
                        )
                &&& (forall|k: int, a: nat|
                    0 <= k < entries.len() && !entries[k].is_directory ==> !#[trigger] file_at(
                        normalized(entries[k].path),
                        current,
                        rows[i].name,
                        a,
                    )) ==> rows[i].is_directory && rows[i].size == 0 && rows[i].compressed_size is None
            },
{
    lemma_row_kind_from_first_entry(entries, current);
    lemma_row_sizes(entries, current);
    lemma_folder_rows_paths(entries, current);
    let m = folder_rows(entries, current);
    assert forall|i: int| #![trigger rows[i]] 0 <= i < rows.len() implies {
        &&& exists|k: int, a: nat|
            0 <= k < entries.len() && #[trigger] child_at(normalized(entries[k].path), current, rows[i].name, a)
                && (forall|k2: int, b: nat|
                0 <= k2 < k ==> !#[trigger] child_at(normalized(entries[k2].path), current, rows[i].name, b))
                && (rows[i].is_directory <==> (entries[k].is_directory || forall|b: nat|
                !#[trigger] file_at(normalized(entries[k].path), current, rows[i].name, b)))
        &&& (exists|k: int, a: nat|
            0 <= k < entries.len() && !entries[k].is_directory && #[trigger] file_at(
                normalized(entries[k].path),
                current,
                rows[i].name,
                a,
            )) ==> exists|k: int, a: nat|
            0 <= k < entries.len() && !entries[k].is_directory && #[trigger] file_at(
                normalized(entries[k].path),
                current,
                rows[i].name,
                a,
            ) && rows[i].size == entries[k].size && rows[i].compressed_size == entries[k].compressed_size
                && forall|k2: int, b: nat|
                k < k2 < entries.len() && !entries[k2].is_directory ==> !#[trigger] file_at(
                    normalized(entries[k2].path),
                    current,
                    rows[i].name,
                    b,
                )
        &&& (forall|k: int, a: nat|
            0 <= k < entries.len() && !entries[k].is_directory ==> !#[trigger] file_at(
                normalized(entries[k].path),
                current,
                rows[i].name,
                a,
            )) ==> rows[i].is_directory && rows[i].size == 0 && rows[i].compressed_size is None
    } by {
        let key = rows[i].name;
        assert(m.contains_key(key) && m[key] == rows[i]);
        // the first entry under the child settles the kind
        let k = choose|k: int|
            0 <= k < entries.len() && #[trigger] entry_slot(entries[k], current) is Some
                && entry_slot(entries[k], current)->Some_0.0 == key && m[key].is_directory == entry_slot(
                entries[k],
                current,
            )->Some_0.1 && forall|k2: int|
                0 <= k2 < k ==> !(#[trigger] entry_slot(entries[k2], current) is Some
                    && entry_slot(entries[k2], current)->Some_0.0 == key);
        lemma_child_of_slot(entries[k], current);
        let a = choose|a: nat| #[trigger] child_at(normalized(entries[k].path), current, key, a);
        assert forall|k2: int, b: nat| 0 <= k2 < k implies !#[trigger] child_at(
            normalized(entries[k2].path),
            current,
            key,
            b,
        ) by {
            if child_at(normalized(entries[k2].path), current, key, b) {
                lemma_slot_of_child(entries[k2], current, key, b);
            }
        }
        if !entry_slot(entries[k], current)->Some_0.1 {
            let b = choose|b: nat| #[trigger] file_at(normalized(entries[k].path), current, key, b);
            assert(file_at(normalized(entries[k].path), current, rows[i].name, b));
        } else {
            assert forall|b: nat| !entries[k].is_directory implies !#[trigger] file_at(
                normalized(entries[k].path),
                current,
                key,
                b,
            ) by {
                if file_at(normalized(entries[k].path), current, key, b) {
                    lemma_slot_of_file(entries[k], current, key, b);
                }
            }
        }
        assert(child_at(normalized(entries[k].path), current, rows[i].name, a));
        // the sizes come from the last entry that is the child as a file
        if exists|k1: int, a1: nat|
            0 <= k1 < entries.len() && !entries[k1].is_directory && #[trigger] file_at(
                normalized(entries[k1].path),
                current,
                key,
                a1,
            ) {
            let (k1, a1) = choose|k1: int, a1: nat|
                0 <= k1 < entries.len() && !entries[k1].is_directory && #[trigger] file_at(
                    normalized(entries[k1].path),
                    current,
                    key,
                    a1,
                );
            lemma_slot_of_file(entries[k1], current, key, a1);
            assert(entry_slot(entries[k1], current) == Some((key, false)));
            let kl = choose|kl: int|
                0 <= kl < entries.len() && #[trigger] entry_slot(entries[kl], current) == Some((key, false))
                    && m[key].size == entries[kl].size && m[key].compressed_size == entries[kl].compressed_size
                    && forall|k2: int|
                    kl < k2 < entries.len() ==> #[trigger] entry_slot(entries[k2], current) != Some(
                        (key, false),
                    );
            lemma_child_of_slot(entries[kl], current);
            let al = choose|al: nat| #[trigger] file_at(normalized(entries[kl].path), current, key, al);
            assert forall|k2: int, b: nat|
                kl < k2 < entries.len() && !entries[k2].is_directory implies !#[trigger] file_at(
                    normalized(entries[k2].path),
                    current,
                    key,
                    b,
                ) by {
                if file_at(normalized(entries[k2].path), current, key, b) {
                    lemma_slot_of_file(entries[k2], current, key, b);
                    assert(entry_slot(entries[k2], current) != Some((key, false)));
                }
            }
            assert(file_at(normalized(entries[kl].path), current, rows[i].name, al));
        } else {
            assert forall|k1: int| 0 <= k1 < entries.len() implies #[trigger] entry_slot(entries[k1], current)
                != Some((key, false)) by {
                if entry_slot(entries[k1], current) == Some((key, false)) {
                    lemma_child_of_slot(entries[k1], current);
                    let b = choose|b: nat| #[trigger] file_at(normalized(entries[k1].path), current, key, b);
                    assert(file_at(normalized(entries[k1].path), current, key, b));
                }
            }
        }
    }
}

} // verus!

verus! {

/// The search keeps rows in the order it was given them: its result is the
/// rows at strictly increasing positions `idx`, which are exactly the
/// positions of the rows whose lower-cased name contains the lower-cased
/// query.
pub proof fn law_search_keeps_order(rows: Seq<RowView>, query: Seq<char>) -> (idx: Seq<int>)
    ensures
        idx.len() == matching_rows(rows, query).len(),
        forall|j: int|
            0 <= j < idx.len() ==> 0 <= #[trigger] idx[j] < rows.len() && matching_rows(rows, query)[j]
                == rows[idx[j]] && contains_seq(unicode_lower(rows[idx[j]].name), unicode_lower(query)),
        forall|j1: int, j2: int| 0 <= j1 < j2 < idx.len() ==> #[trigger] idx[j1] < #[trigger] idx[j2],
        forall|i: int|
            0 <= i < rows.len() && contains_seq(unicode_lower(#[trigger] rows[i].name), unicode_lower(query))
                ==> exists|j: int| 0 <= j < idx.len() && #[trigger] idx[j] == i,
    decreases rows.len(),
{
    if rows.len() == 0 {
        Seq::empty()
    } else {
        let init = rows.drop_last();
        let last = rows.len() - 1;
        let idx0 = law_search_keeps_order(init, query);
        assert(rows[last] == rows.last());
        assert forall|i: int| 0 <= i < last implies init[i] == rows[i] by {}
        let idx = if row_matches(rows.last(), query) {
            idx0.push(last)
        } else {
            idx0
        };
        assert forall|i: int|
            0 <= i < rows.len() && contains_seq(unicode_lower(#[trigger] rows[i].name), unicode_lower(query))
            implies exists|j: int| 0 <= j < idx.len() && #[trigger] idx[j] == i by {
            if i < last {
                assert(init[i] == rows[i]);
                let j = choose|j: int| 0 <= j < idx0.len() && #[trigger] idx0[j] == i;
                assert(idx[j] == idx0[j]);
            } else {
                assert(idx[idx.len() - 1] == last);
            }
        }
        idx
    }
}

} // verus!

verus! {

/// The path of each row of a folder is the row's name at the root, and
/// elsewhere the folder's path as given, a `/`, and the row's name.
pub proof fn law_row_paths(entries: Seq<EntryView>, current: Seq<char>, rows: Seq<RowView>)
    requires
        lists_rows(rows, folder_rows(entries, current)),
    ensures
        forall|i: int|
            0 <= i < rows.len() ==> (#[trigger] rows[i]).path == if current.len() == 0 {
                rows[i].name
            } else {
                current + seq!['/'] + rows[i].name
            },
{
    lemma_folder_rows_paths(entries, current);
    assert forall|i: int| 0 <= i < rows.len() implies (#[trigger] rows[i]).path == if current.len() == 0 {
        rows[i].name
    } else {
        current + seq!['/'] + rows[i].name
    } by {
        assert(folder_rows(entries, current).contains_key(rows[i].name));
        assert(current.push('/') =~= current + seq!['/']);
    }
}

} // verus!

verus! {

/// The positions of the paths that `other_paths` keeps: increasing, and
/// every path of the list that `path` does not equal is among them.
proof fn lemma_other_paths_positions(recent: Seq<Seq<char>>, path: Seq<char>) -> (pos: Seq<int>)
    ensures
        taken_from(recent, other_paths(recent, path), pos),
        forall|i: int|
            0 <= i < recent.len() && !crate::paths::same_path(path, #[trigger] recent[i]) ==> exists|j: int|
                0 <= j < pos.len() && #[trigger] pos[j] == i,
    decreases recent.len(),
{
    if recent.len() == 0 {
        Seq::empty()
    } else {
        let init = recent.drop_last();
        let last = recent.len() - 1;
        let pos0 = lemma_other_paths_positions(init, path);
        let kept = other_paths(recent, path);
        assert(recent[last] == recent.last());
        let pos = if crate::paths::same_path(path, recent.last()) {
            pos0
        } else {
            pos0.push(last)
        };
        assert forall|i: int| 0 <= i < pos.len() implies 0 <= #[trigger] pos[i] < recent.len()
            && recent[pos[i]] == kept[i] by {
            if i < pos0.len() {
                assert(pos[i] == pos0[i]);
                assert(recent[pos0[i]] == init[pos0[i]]);
            }
        }
        assert forall|i: int, j: int| 0 <= i < j < pos.len() implies #[trigger] pos[i] < #[trigger] pos[j] by {
            if j < pos0.len() {
                assert(pos[i] == pos0[i] && pos[j] == pos0[j]);
            } else {
                assert(pos[i] == pos0[i]);
            }
        }
        assert forall|i: int|
            0 <= i < recent.len() && !crate::paths::same_path(path, #[trigger] recent[i]) implies exists|j: int|
            0 <= j < pos.len() && #[trigger] pos[j] == i by {
            if i < last {
                assert(init[i] == recent[i]);
                let j = choose|j: int| 0 <= j < pos0.len() && #[trigger] pos0[j] == i;
                assert(pos[j] == pos0[j]);
            } else {
                assert(pos[pos.len() - 1] == last);
            }
        }
        pos
    }
}

/// Opening an archive keeps the other recent paths: after the opened path
/// come the paths of the list that it does not equal, in their order, taken
/// at increasing positions `pos`; one of them is left out only when the
/// list is full and it comes after every path that is kept.
pub proof fn law_recent_keeps_others(recent: Seq<Seq<char>>, path: Seq<char>) -> (pos: Seq<int>)
    ensures
        pos.len() + 1 == recent_after(recent, path).len(),
        forall|j: int|
            0 <= j < pos.len() ==> 0 <= #[trigger] pos[j] < recent.len() && recent_after(recent, path)[j + 1]
                == recent[pos[j]] && !crate::paths::same_path(path, recent[pos[j]]),
        forall|j1: int, j2: int| 0 <= j1 < j2 < pos.len() ==> #[trigger] pos[j1] < #[trigger] pos[j2],
        forall|i: int|
            0 <= i < recent.len() && !crate::paths::same_path(path, #[trigger] recent[i]) ==> (exists|j: int|
                0 <= j < pos.len() && #[trigger] pos[j] == i) || (recent_after(recent, path).len()
                == RECENT_LIMIT && forall|j: int| 0 <= j < pos.len() ==> #[trigger] pos[j] < i),
{
    let others = other_paths(recent, path);
    let all = lemma_other_paths_positions(recent, path);
    lemma_other_paths(recent, path);
    let kept = seq![path] + others;
    let after = recent_after(recent, path);
    let pos = if kept.len() > RECENT_LIMIT {
        all.take(RECENT_LIMIT - 1)
    } else {
        all
    };
    assert forall|j: int| 0 <= j < pos.len() implies 0 <= #[trigger] pos[j] < recent.len() && after[j + 1]
        == recent[pos[j]] && !crate::paths::same_path(path, recent[pos[j]]) by {
        assert(pos[j] == all[j]);
        assert(after[j + 1] == kept[j + 1]);
        assert(kept[j + 1] == others[j]);
    }
    assert forall|j1: int, j2: int| 0 <= j1 < j2 < pos.len() implies #[trigger] pos[j1] < #[trigger] pos[j2] by {
        assert(pos[j1] == all[j1] && pos[j2] == all[j2]);
    }
    assert forall|i: int|
        0 <= i < recent.len() && !crate::paths::same_path(path, #[trigger] recent[i]) implies (exists|j: int|
            0 <= j < pos.len() && #[trigger] pos[j] == i) || (after.len() == RECENT_LIMIT && forall|j: int|
            0 <= j < pos.len() ==> #[trigger] pos[j] < i) by {
        let j0 = choose|j: int| 0 <= j < all.len() && #[trigger] all[j] == i;
        if j0 < pos.len() {
            assert(pos[j0] == all[j0]);
        } else {
            assert forall|j: int| 0 <= j < pos.len() implies #[trigger] pos[j] < i by {
                assert(pos[j] == all[j]);
                assert(all[j] < all[j0]);
            }
        }
    }
    pos
}

} // verus!

verus! {

/// The characters that `trim_end` drops are all `c`.
proof fn lemma_trim_end_run(s: Seq<char>, c: char)
    ensures
        forall|i: int| trim_end(s, c).len() <= i < s.len() ==> s[i] == c,
    decreases s.len(),
{
    lemma_trim_end(s, c);
    if s.len() > 0 && s.last() == c {
        lemma_trim_end_run(s.drop_last(), c);
        assert forall|i: int| trim_end(s, c).len() <= i < s.len() implies s[i] == c by {
            if i < s.len() - 1 {
                assert(s[i] == s.drop_last()[i]);
            }
        }
    }
}

/// Normalizing a path only cuts off its outer slashes and backslashes: the
/// result is the stretch of `path` from `cut.0` to `cut.1`, with each
/// backslash turned into a slash, and every character outside that stretch
/// is a slash or a backslash.
pub proof fn law_normalize_cuts_outer_slashes(path: Seq<char>) -> (cut: (int, int))
    ensures
        0 <= cut.0 <= cut.1 <= path.len(),
        normalized(path).len() == cut.1 - cut.0,
        forall|i: int|
            cut.0 <= i < cut.1 ==> normalized(path)[i - cut.0] == if #[trigger] path[i] == '\\' {
                '/'
            } else {
                path[i]
            },
        forall|i: int|
            0 <= i < cut.0 || cut.1 <= i < path.len() ==> #[trigger] path[i] == '/' || path[i] == '\\',
{
    let m = path.map_values(|c: char| slash_char(c));
    let t = trim_start(m, '/');
    let n = trim_end(t, '/');
    lemma_trim_start(m, '/');
    lemma_trim_start_run(m, '/');
    lemma_trim_end(t, '/');
    lemma_trim_end_run(t, '/');
    let a = m.len() - t.len();
    let b = a + n.len();
    assert(normalized(path) == n);
    assert forall|i: int| a <= i < b implies normalized(path)[i - a] == if #[trigger] path[i] == '\\' {
        '/'
    } else {
        path[i]
    } by {
        assert(n[i - a] == t[i - a]);
        assert(t[i - a] == m[i]);
    }
    assert forall|i: int| 0 <= i < a || b <= i < path.len() implies #[trigger] path[i] == '/' || path[i]
        == '\\' by {
        if i < a {
            assert(m[i] == '/');
        } else {
            assert(t[i - a] == '/');
            assert(t[i - a] == m[i]);
        }
    }
    (a, b)
}

} // verus!

verus! {

/// Each crumb is labelled with a non-empty folder name that holds no `/`,
/// and its target is that name at the first crumb, and elsewhere the
/// previous crumb's target, a `/`, and the name.
pub proof fn law_crumb_labels_build_targets(current: Seq<char>)
    ensures
        forall|i: int|
            0 <= i < crumbs_of(current).len() ==> (#[trigger] crumbs_of(current)[i]).0.len() > 0 && (forall|
                k: int,
            |
                0 <= k < crumbs_of(current)[i].0.len() ==> crumbs_of(current)[i].0[k] != '/')
                && crumbs_of(current)[i].1 == if i == 0 {
                crumbs_of(current)[i].0
            } else {
                crumbs_of(current)[i - 1].1 + seq!['/'] + crumbs_of(current)[i].0
            },
{
    let segs = path_segments(current);
    let c = crumbs_of(current);
    lemma_path_segments(current);
    assert forall|i: int| 0 <= i < c.len() implies (#[trigger] c[i]).0.len() > 0 && (forall|k: int|
        0 <= k < c[i].0.len() ==> c[i].0[k] != '/') && c[i].1 == if i == 0 {
        c[i].0
    } else {
        c[i - 1].1 + seq!['/'] + c[i].0
    } by {
        assert(c[i].0 == segs[i]);
        assert forall|k: int| 0 <= k < c[i].0.len() implies c[i].0[k] != '/' by {
            assert(segs[i][k] != '/');
        }
        if i == 0 {
            assert(segs.take(1)[0] == segs[0]);
        } else {
            assert(segs.take(i + 1).drop_last() =~= segs.take(i));
            assert(segs.take(i + 1).last() == segs[i]);
            assert(join_segments(segs.take(i)).push('/') =~= join_segments(segs.take(i)) + seq!['/']);
        }
    }
}

} // verus!

verus! {

/// Totals add up with saturation: nothing totals to 0, and adding one more
/// value to a list adds it to the total, stopping at `u64::MAX`.
pub proof fn law_saturating_total_steps(s: Seq<u64>, x: u64)
    ensures
        saturating_total(Seq::<u64>::empty()) == 0,
        saturating_total(s.push(x)) == if saturating_total(s) + x > u64::MAX {
            u64::MAX
        } else {
            (saturating_total(s) + x) as u64
        },
{
    assert(s.push(x).drop_last() =~= s);
}

} // verus!
