//! What the Kist window holds between frames, and how opening an archive
//! changes it.
use vstd::prelude::*;
use crate::archive::{describes, ArchiveDocument, ArchiveError};
use crate::paths::{paths_equal, same_path};

verus! {

/// How many recently opened archives are remembered.
pub const RECENT_LIMIT: usize = 6;

/// The state of the Kist window: the open archive, the folder shown, the
/// message on screen, the search text and the recently opened archives
/// (most recent first).
pub struct KistApp {
    pub document: Option<ArchiveDocument>,
    pub current_path: String,
    pub error: Option<String>,
    pub search_query: String,
    pub recent_archives: Vec<String>,
}

/// The paths of `recent` that `path` does not equal, in order.
pub open spec fn other_paths(recent: Seq<Seq<char>>, path: Seq<char>) -> Seq<Seq<char>>
    decreases recent.len(),
{
    if recent.len() == 0 {
        Seq::empty()
    } else {
        let init = other_paths(recent.drop_last(), path);
        if same_path(path, recent.last()) {
            init
        } else {
            init.push(recent.last())
        }
    }
}

/// The recent list after `path` was opened: `path` first, then the others
/// in their order, at most `RECENT_LIMIT` in all.
pub open spec fn recent_after(recent: Seq<Seq<char>>, path: Seq<char>) -> Seq<Seq<char>> {
    let kept = seq![path] + other_paths(recent, path);
    if kept.len() > RECENT_LIMIT {
        kept.take(RECENT_LIMIT as int)
    } else {
        kept
    }
}

/// The views of a list of strings.
pub open spec fn string_views(v: Seq<String>) -> Seq<Seq<char>> {
    v.map_values(|s: String| s@)
}

impl Default for KistApp {
    fn default() -> (r: Self)
        ensures
            r.document is None,
            r.current_path@ == Seq::<char>::empty(),
            r.error is None,
            r.search_query@ == Seq::<char>::empty(),
            r.recent_archives@ == Seq::<String>::empty(),
    {
        KistApp {
            document: None,
            current_path: String::new(),
            error: None,
            search_query: String::new(),
            recent_archives: Vec::new(),
        }
    }
}

impl KistApp {
    /// Shows the outcome of opening the archive at `path`. An opened archive
    /// becomes the document, at its root folder, with the search cleared and
    /// no message, and `path` moves to the front of the recent list. A
    /// failure shows the error's message and changes nothing else.
    pub fn open_path(&mut self, path: String, opened: Result<ArchiveDocument, ArchiveError>)
        ensures
            match opened {
                Ok(document) => {
                    &&& final(self).document == Some(document)
                    &&& final(self).current_path@ == Seq::<char>::empty()
                    &&& final(self).search_query@ == Seq::<char>::empty()
                    &&& final(self).error is None
                    &&& string_views(final(self).recent_archives@) == recent_after(
                        string_views(old(self).recent_archives@),
                        path@,
                    )
                },
                Err(error) => {
                    &&& final(self).error matches Some(message) && describes(&error, message@)
                    &&& final(self).document == old(self).document
                    &&& final(self).current_path == old(self).current_path
                    &&& final(self).search_query == old(self).search_query
                    &&& final(self).recent_archives == old(self).recent_archives
                },
            },
    {
        match opened {
            Ok(document) => {
                let ghost before = string_views(self.recent_archives@);
                let mut kept: Vec<String> = Vec::new();
                kept.push(path.clone());
                let n = self.recent_archives.len();
                assert(before.take(0) =~= Seq::<Seq<char>>::empty());
                for i in 0..n
                    invariant
                        n == self.recent_archives.len(),
                        before == string_views(self.recent_archives@),
                        string_views(kept@) == seq![path@] + other_paths(before.take(i as int), path@),
                {
                    proof {
                        assert(before.take(i + 1).drop_last() =~= before.take(i as int));
                    }
                    let recent = &self.recent_archives[i];
                    assert(before.take(i + 1).last() == recent@);
                    if !paths_equal(recent.as_str(), path.as_str()) {
                        let ghost old_kept = string_views(kept@);
                        kept.push(recent.clone());
                        assert(string_views(kept@) =~= old_kept.push(recent@));
                        assert(old_kept.push(recent@) =~= seq![path@] + other_paths(before.take(i as int), path@).push(recent@));
                    } else {
                        assert(string_views(kept@) =~= seq![path@] + other_paths(before.take(i + 1), path@));
                    }
                }
                assert(before.take(n as int) =~= before);
                kept.truncate(RECENT_LIMIT);
                assert(string_views(kept@) =~= recent_after(before, path@));
                self.recent_archives = kept;
                self.document = Some(document);
                self.current_path = String::new();
                self.search_query = String::new();
                self.error = None;
            },
            Err(error) => {
                self.error = Some(error.message());
            },
        }
    }
}

} // verus!
