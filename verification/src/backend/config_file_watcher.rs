//! The filesystem source adapter's verified core: glob filtering of raw
//! notification paths and the classification of debounced notification kinds
//! into document-diff operations, including three-way rename semantics.

use crate::backend::doc_event_views;
use crate::backend::removal_event;
use crate::backend::DocEventSpec;
use crate::backend::DocumentEvent;
use crate::backend::DocumentHashTable;
use crate::text::strip_path_prefix;
use crate::text::strip_prefix_spec;
use crate::watcher::hash_of;
use vstd::prelude::*;

verus! {

/// What `glob_match` answers for a pattern and a path: a pure function of
/// the two strings (`None` stands for an invalid pattern).
pub uninterp spec fn glob_match_of(pattern: Seq<char>, path: Seq<char>) -> Option<bool>;

/// Relies on the glob crate: `Pattern::new` compiles a shell-style pattern,
/// rejecting an invalid one, and `Pattern::matches` tests a path against the
/// compiled pattern with default options.  Both are pure functions of the
/// two strings alone.
#[verifier::external_body]
fn glob_match(pattern: &str, path: &str) -> (r: Option<bool>)
    ensures
        r == glob_match_of(pattern@, path@),
{
    match glob::Pattern::new(pattern) {
        Ok(p) => Some(p.matches(path)),
        Err(_) => None,
    }
}

/// A path takes part in the watch when it can be relativized to the root and
/// the relative path matches the pattern.  A path outside the root, or an
/// invalid pattern, never matches.
pub open spec fn rel_match_spec(root: Seq<char>, pattern: Seq<char>, path: Seq<char>) -> bool {
    match strip_prefix_spec(root, path) {
        Some(rel) => glob_match_of(pattern, rel) == Some(true),
        None => false,
    }
}

/// The classified kind of one debounced filesystem notification.
#[derive(Debug, Clone, Copy, PartialEq, Eq, Structural)]
pub enum FsEventKind {
    /// A file was created.
    CreateFile,
    /// A file's data was modified.
    DataModify,
    /// A file open for writing was closed.
    CloseWrite,
    /// A file was removed.
    RemoveFile,
    /// A rename whose destination is known.
    RenameTo,
    /// A rename whose source is known.
    RenameFrom,
    /// A rename whose source and destination are both known atomically.
    RenameBoth,
    /// Any other notification kind.
    Other,
}

/// One debounced filesystem notification: a kind and the paths it names.
#[derive(Debug)]
pub struct FsEvent {
    pub kind: FsEventKind,
    pub paths: Vec<String>,
}

/// Whether any of the event's paths, relativized to the watch root, matches
/// the file pattern; an event naming no matching path is discarded.
pub fn match_path(watch_path: &String, pattern: &String, event: &FsEvent) -> (r: bool)
    ensures
        r == exists|i: int|
            0 <= i < event.paths@.len() && rel_match_spec(
                watch_path@,
                pattern@,
                event.paths@[i]@,
            ),
{
    let mut i: usize = 0;
    while i < event.paths.len()
        invariant
            0 <= i <= event.paths@.len(),
            forall|j: int|
                0 <= j < i ==> !rel_match_spec(watch_path@, pattern@, event.paths@[j]@),
        decreases event.paths@.len() - i,
    {
        match strip_path_prefix(watch_path.as_str(), event.paths[i].as_str()) {
            Some(rel) => {
                match glob_match(pattern.as_str(), rel.as_str()) {
                    Some(true) => {
                        proof {
                            assert(rel_match_spec(watch_path@, pattern@, event.paths@[i as int]@));
                        }
                        return true;
                    },
                    _ => {
                    },
                }
            },
            None => {
            },
        }
        i = i + 1;
    }
    false
}

/// The document-diff operation that one notification calls for.
#[derive(Debug)]
pub enum FsAction {
    /// Read the file and record a content observation for its id.
    Upsert(String),
    /// Record the removal of the id.
    Remove(String),
    /// Drop the source id, then read the destination and record it anew.
    Replace(String, String),
    /// Nothing to do.
    Ignore,
}

/// The mathematical value of an [`FsAction`].
pub enum FsActionSpec {
    Upsert(Seq<char>),
    Remove(Seq<char>),
    Replace(Seq<char>, Seq<char>),
    Ignore,
}

impl View for FsAction {
    type V = FsActionSpec;

    open spec fn view(&self) -> FsActionSpec {
        match self {
            FsAction::Upsert(p) => FsActionSpec::Upsert(p@),
            FsAction::Remove(p) => FsActionSpec::Remove(p@),
            FsAction::Replace(from, to) => FsActionSpec::Replace(from@, to@),
            FsAction::Ignore => FsActionSpec::Ignore,
        }
    }
}

/// How each notification kind is treated: creations, data modifications,
/// close-after-write and the destination half of a rename re-read the file;
/// removals and the source half of a rename drop the id; an atomic rename
/// does both; everything else is ignored, as is an event naming too few
/// paths.
pub open spec fn classify_spec(kind: FsEventKind, paths: Seq<Seq<char>>) -> FsActionSpec {
    match kind {
        FsEventKind::CreateFile | FsEventKind::DataModify | FsEventKind::CloseWrite
            | FsEventKind::RenameTo => if paths.len() >= 1 {
            FsActionSpec::Upsert(paths[0])
        } else {
            FsActionSpec::Ignore
        },
        FsEventKind::RemoveFile | FsEventKind::RenameFrom => if paths.len() >= 1 {
            FsActionSpec::Remove(paths[0])
        } else {
            FsActionSpec::Ignore
        },
        FsEventKind::RenameBoth => if paths.len() >= 2 {
            FsActionSpec::Replace(paths[0], paths[1])
        } else {
            FsActionSpec::Ignore
        },
        FsEventKind::Other => FsActionSpec::Ignore,
    }
}

/// Classifies one debounced notification into the document-diff operation it
/// calls for.
pub fn classify_fs_event(event: &FsEvent) -> (r: FsAction)
    ensures
        r@ == classify_spec(event.kind, event.paths.deep_view()),
{
    match event.kind {
        FsEventKind::CreateFile | FsEventKind::DataModify | FsEventKind::CloseWrite
            | FsEventKind::RenameTo => {
            if event.paths.len() >= 1 {
                FsAction::Upsert(event.paths[0].clone())
            } else {
                FsAction::Ignore
            }
        },
        FsEventKind::RemoveFile | FsEventKind::RenameFrom => {
            if event.paths.len() >= 1 {
                FsAction::Remove(event.paths[0].clone())
            } else {
                FsAction::Ignore
            }
        },
        FsEventKind::RenameBoth => {
            if event.paths.len() >= 2 {
                FsAction::Replace(event.paths[0].clone(), event.paths[1].clone())
            } else {
                FsAction::Ignore
            }
        },
        FsEventKind::Other => FsAction::Ignore,
    }
}

/// The announcements of a combined rename: the source's removal when it was
/// tracked, then always a new document at the destination carrying the
/// content re-read there.
pub open spec fn rename_events(
    m: Map<Seq<char>, u64>,
    from: Seq<char>,
    to: Seq<char>,
    content: Seq<char>,
) -> Seq<DocEventSpec> {
    (match removal_event(m, from) {
        Some(e) => seq![e],
        None => Seq::<DocEventSpec>::empty(),
    }) + seq![DocEventSpec::NewDocument(to, content)]
}

/// The table after a combined rename: the source dropped, the destination
/// keyed by the hash of the re-read content, independently of whatever hash
/// the source had.
pub open spec fn rename_table(
    m: Map<Seq<char>, u64>,
    from: Seq<char>,
    to: Seq<char>,
    content: Seq<char>,
) -> Map<Seq<char>, u64> {
    m.remove(from).insert(to, hash_of(content))
}

/// Applies a combined rename (source and destination known atomically) whose
/// destination content has been re-read from disk.
pub fn handle_rename_both(
    file_hashes: &mut DocumentHashTable,
    from: &String,
    to: &String,
    content: &String,
) -> (events: Vec<DocumentEvent>)
    requires
        old(file_hashes).wf(),
    ensures
        final(file_hashes).wf(),
        final(file_hashes).as_map() == rename_table(old(file_hashes).as_map(), from@, to@, content@),
        doc_event_views(events@) == rename_events(old(file_hashes).as_map(), from@, to@, content@),
{
    let mut events: Vec<DocumentEvent> = Vec::new();
    let ghost m0 = file_hashes.as_map();
    match file_hashes.observe_removal(from) {
        Some(e) => {
            events.push(e);
        },
        None => {
        },
    }
    let ghost m1 = file_hashes.as_map();
    let ghost pre = events@;
    let _ = file_hashes.observe_removal(to);
    let ghost m2 = file_hashes.as_map();
    proof {
        assert(events@ == pre);
        assert(m2 =~= m1.remove(to@));
        assert(!m2.contains_key(to@));
    }
    let r = file_hashes.observe_content(to, content);
    proof {
        assert(file_hashes.as_map() =~= rename_table(m0, from@, to@, content@));
    }
    match r {
        Some(e) => {
            events.push(e);
            proof {
                assert(e@ == DocEventSpec::NewDocument(to@, content@));
                assert(doc_event_views(events@) =~= doc_event_views(pre).push(e@));
                assert(doc_event_views(pre) + seq![DocEventSpec::NewDocument(to@, content@)]
                    =~= doc_event_views(events@));
                assert(doc_event_views(events@) =~= rename_events(m0, from@, to@, content@));
            }
        },
        None => {
            proof {
                assert(false);
            }
        },
    }
    events
}

/// A combined rename of a tracked file with any content yields exactly one
/// removal announcement for the old id followed by exactly one new-document
/// announcement for the new id, carrying the content read at the
/// destination; the destination is never assumed to keep the source's hash.
pub proof fn lemma_rename_atomic_save(
    m: Map<Seq<char>, u64>,
    from: Seq<char>,
    to: Seq<char>,
    content: Seq<char>,
)
    requires
        m.contains_key(from),
    ensures
        rename_events(m, from, to, content) == seq![
            DocEventSpec::DocumentRemoved(from),
            DocEventSpec::NewDocument(to, content),
        ],
        rename_table(m, from, to, content)[to] == hash_of(content),
{
    assert(rename_events(m, from, to, content) =~= seq![
        DocEventSpec::DocumentRemoved(from),
        DocEventSpec::NewDocument(to, content),
    ]);
}

} // verus!
