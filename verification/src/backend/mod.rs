//! The contract between source adapters and the item watcher: normalized
//! document events, the control-command alphabet with its lifecycle state
//! machine, and the per-adapter table of last-seen content hashes together
//! with the three-way diff decision shared by every adapter.

pub mod config_file_watcher;
pub mod config_map_watcher;
pub mod config_mqtt_watcher;

use crate::watcher::hash_of;
use crate::watcher::hash_str;
use vstd::prelude::*;

verus! {

/// A normalized change notification for a whole configuration document,
/// identified by an adapter-defined string id.
#[derive(Debug, PartialEq, Eq)]
pub enum DocumentEvent {
    /// New document (id, content) added with content.
    NewDocument(String, String),
    /// Content of an existing document changed (id, content).
    ContentChanged(String, String),
    /// Document removed (id).
    DocumentRemoved(String),
}

/// The mathematical value of a [`DocumentEvent`].
pub enum DocEventSpec {
    NewDocument(Seq<char>, Seq<char>),
    ContentChanged(Seq<char>, Seq<char>),
    DocumentRemoved(Seq<char>),
}

impl View for DocumentEvent {
    type V = DocEventSpec;

    open spec fn view(&self) -> DocEventSpec {
        match self {
            DocumentEvent::NewDocument(id, content) => DocEventSpec::NewDocument(id@, content@),
            DocumentEvent::ContentChanged(id, content) => DocEventSpec::ContentChanged(
                id@,
                content@,
            ),
            DocumentEvent::DocumentRemoved(id) => DocEventSpec::DocumentRemoved(id@),
        }
    }
}

/// The views of a sequence of document events.
pub open spec fn doc_event_views(events: Seq<DocumentEvent>) -> Seq<DocEventSpec> {
    events.map_values(|e: DocumentEvent| e@)
}

/// The view of an optional document event.
pub open spec fn doc_event_view_opt(r: Option<DocumentEvent>) -> Option<DocEventSpec> {
    match r {
        Some(e) => Some(e@),
        None => None,
    }
}

/// A command accepted on an adapter's or the item watcher's control channel.
#[derive(Debug, Clone, Copy, PartialEq, Eq, Structural)]
pub enum WatcherCommand {
    Start,
    Stop,
}

/// The lifecycle of one background task.  A task is `Created` right after
/// construction and blocks until it observes a command; `Running` is entered
/// only on a start command; `Stopped` is terminal.
#[derive(Debug, Clone, Copy, PartialEq, Eq, Structural)]
pub enum WatcherState {
    Created,
    Running,
    Stopped,
}

/// The lifecycle transition: starting an already-running task is a no-op, a
/// stop command is accepted in every state, and `Stopped` is terminal.
pub open spec fn spec_lifecycle_step(state: WatcherState, command: WatcherCommand) -> WatcherState {
    match state {
        WatcherState::Created => match command {
            WatcherCommand::Start => WatcherState::Running,
            WatcherCommand::Stop => WatcherState::Stopped,
        },
        WatcherState::Running => match command {
            WatcherCommand::Start => WatcherState::Running,
            WatcherCommand::Stop => WatcherState::Stopped,
        },
        WatcherState::Stopped => WatcherState::Stopped,
    }
}

/// Applies one control command to a task's lifecycle state.
pub fn lifecycle_step(state: WatcherState, command: WatcherCommand) -> (r: WatcherState)
    ensures
        r == spec_lifecycle_step(state, command),
{
    match state {
        WatcherState::Created => match command {
            WatcherCommand::Start => WatcherState::Running,
            WatcherCommand::Stop => WatcherState::Stopped,
        },
        WatcherState::Running => match command {
            WatcherCommand::Start => WatcherState::Running,
            WatcherCommand::Stop => WatcherState::Stopped,
        },
        WatcherState::Stopped => WatcherState::Stopped,
    }
}

/// A stop command received before any start terminates the task at once: it
/// never reaches `Running`, so it can never have produced an event, and the
/// resulting state is terminal under every further command.
pub proof fn lemma_stop_before_start_terminates()
    ensures
        spec_lifecycle_step(WatcherState::Created, WatcherCommand::Stop) == WatcherState::Stopped,
        forall|c: WatcherCommand|
            spec_lifecycle_step(WatcherState::Stopped, c) == WatcherState::Stopped,
{
}

struct DocEntry {
    id: String,
    hash: u64,
}

/// The mapping from document id to last-seen content hash that each source
/// adapter owns.  Ids are kept in first-seen order, each id at most once.
pub struct DocumentHashTable {
    entries: Vec<DocEntry>,
}

impl DocumentHashTable {
    /// The tracked ids, in first-seen order.
    pub closed spec fn entry_ids(self) -> Seq<Seq<char>> {
        Seq::new(self.entries@.len(), |i: int| self.entries@[i].id@)
    }

    /// The hash recorded for the id at each position.
    pub closed spec fn entry_hashes(self) -> Seq<u64> {
        Seq::new(self.entries@.len(), |i: int| self.entries@[i].hash)
    }

    /// Each id is tracked at most once.
    pub open spec fn wf(self) -> bool {
        forall|i: int, j: int|
            0 <= i < j < self.entry_ids().len() ==> self.entry_ids()[i] != self.entry_ids()[j]
    }

    pub open spec fn contains_id(self, id: Seq<char>) -> bool {
        self.entry_ids().contains(id)
    }

    pub open spec fn id_index(self, id: Seq<char>) -> int {
        choose|i: int| 0 <= i < self.entry_ids().len() && self.entry_ids()[i] == id
    }

    pub open spec fn hash_for(self, id: Seq<char>) -> u64 {
        self.entry_hashes()[self.id_index(id)]
    }

    /// The table as a mapping from id to last-seen content hash.
    pub open spec fn as_map(self) -> Map<Seq<char>, u64> {
        Map::new(|k: Seq<char>| self.contains_id(k), |k: Seq<char>| self.hash_for(k))
    }

    proof fn lemma_index_is(self, id: Seq<char>, i: int)
        requires
            self.wf(),
            0 <= i < self.entry_ids().len(),
            self.entry_ids()[i] == id,
        ensures
            self.id_index(id) == i,
            self.contains_id(id),
            self.hash_for(id) == self.entry_hashes()[i],
    {
        assert(self.entry_ids()[i] == id);
    }

    /// An empty table, used when an adapter (re)starts.
    pub fn new() -> (r: DocumentHashTable)
        ensures
            r.wf(),
            r.entry_ids() == Seq::<Seq<char>>::empty(),
            r.as_map() == Map::<Seq<char>, u64>::empty(),
    {
        let r = DocumentHashTable { entries: Vec::new() };
        proof {
            assert(r.entry_ids() =~= Seq::<Seq<char>>::empty());
            assert(r.as_map() =~= Map::<Seq<char>, u64>::empty());
        }
        r
    }

    /// The number of tracked documents.
    pub fn len(&self) -> (r: usize)
        ensures
            r == self.entry_ids().len(),
    {
        self.entries.len()
    }

    /// The id tracked at position `i`.
    pub fn id_at(&self, i: usize) -> (r: &String)
        requires
            i < self.entry_ids().len(),
        ensures
            r@ == self.entry_ids()[i as int],
    {
        &self.entries[i].id
    }

    fn find_index(&self, id: &String) -> (r: Option<usize>)
        ensures
            (match r {
                Some(i) => 0 <= i < self.entry_ids().len() && self.entry_ids()[i as int] == id@,
                None => !self.contains_id(id@),
            }),
    {
        let mut i: usize = 0;
        while i < self.entries.len()
            invariant
                0 <= i <= self.entries.len(),
                forall|j: int| 0 <= j < i ==> self.entry_ids()[j] != id@,
            decreases self.entries.len() - i,
        {
            if self.entries[i].id == *id {
                return Some(i);
            }
            i = i + 1;
        }
        proof {
            assert(forall|j: int|
                0 <= j < self.entry_ids().len() ==> self.entry_ids()[j] != id@);
        }
        None
    }

    /// The hash recorded for an id, if the id is tracked.
    pub fn get(&self, id: &String) -> (r: Option<u64>)
        requires
            self.wf(),
        ensures
            (match r {
                Some(h) => self.contains_id(id@) && h == self.as_map()[id@],
                None => !self.contains_id(id@),
            }),
    {
        match self.find_index(id) {
            Some(i) => {
                proof {
                    self.lemma_index_is(id@, i as int);
                }
                Some(self.entries[i].hash)
            },
            None => None,
        }
    }
}

/// The three-way document-diff decision shared by every source adapter: an
/// unseen id is a new document, a changed hash is changed content, an
/// unchanged hash is silent.
pub open spec fn observe_event(m: Map<Seq<char>, u64>, id: Seq<char>, content: Seq<char>) -> Option<
    DocEventSpec,
> {
    if !m.contains_key(id) {
        Some(DocEventSpec::NewDocument(id, content))
    } else if m[id] != hash_of(content) {
        Some(DocEventSpec::ContentChanged(id, content))
    } else {
        None
    }
}

/// The table state after a content observation.
pub open spec fn observe_table(m: Map<Seq<char>, u64>, id: Seq<char>, content: Seq<char>) -> Map<
    Seq<char>,
    u64,
> {
    m.insert(id, hash_of(content))
}

/// The removal decision shared by every source adapter: a tracked id is
/// dropped and announced, an untracked id is silently ignored.
pub open spec fn removal_event(m: Map<Seq<char>, u64>, id: Seq<char>) -> Option<DocEventSpec> {
    if m.contains_key(id) {
        Some(DocEventSpec::DocumentRemoved(id))
    } else {
        None
    }
}

pub open spec fn removal_table(m: Map<Seq<char>, u64>, id: Seq<char>) -> Map<Seq<char>, u64> {
    m.remove(id)
}

/// Re-writing a document with byte-identical content is silent: after any
/// content observation, observing the same id and content again produces no
/// event.
pub proof fn lemma_rewrite_identical_content_silent(
    m: Map<Seq<char>, u64>,
    id: Seq<char>,
    content: Seq<char>,
)
    ensures
        observe_event(observe_table(m, id, content), id, content) is None,
{
}

impl DocumentHashTable {
    /// Records a content observation for a document id and returns the event
    /// it warrants, if any: the document-level diff applied by every adapter.
    pub fn observe_content(&mut self, id: &String, content: &String) -> (r: Option<DocumentEvent>)
        requires
            old(self).wf(),
        ensures
            final(self).wf(),
            final(self).as_map() == observe_table(old(self).as_map(), id@, content@),
            final(self).entry_ids() == if old(self).contains_id(id@) {
                old(self).entry_ids()
            } else {
                old(self).entry_ids().push(id@)
            },
            doc_event_view_opt(r) == observe_event(old(self).as_map(), id@, content@),
    {
        let h = hash_str(content.as_str());
        match self.find_index(id) {
            Some(i) => {
                proof {
                    self.lemma_index_is(id@, i as int);
                }
                if self.entries[i].hash == h {
                    proof {
                        assert(self.as_map() =~= observe_table(
                            old(self).as_map(),
                            id@,
                            content@,
                        ));
                    }
                    None
                } else {
                    self.entries.remove(i);
                    self.entries.insert(i, DocEntry { id: id.clone(), hash: h });
                    proof {
                        assert(self.entry_ids() =~= old(self).entry_ids());
                        assert forall|k: Seq<char>| self.contains_id(k) implies old(self).contains_id(k) by {
                            let j = choose|j: int|
                                0 <= j < self.entry_ids().len() && self.entry_ids()[j] == k;
                            assert(old(self).entry_ids()[j] == k);
                        }
                        assert forall|k: Seq<char>|
                            self.contains_id(k) && k != id@ implies self.hash_for(k)
                            == old(self).hash_for(k) by {
                            let j = self.id_index(k);
                            self.lemma_index_is(k, j);
                            assert(old(self).entry_ids()[j] == k);
                            old(self).lemma_index_is(k, j);
                        }
                        self.lemma_index_is(id@, i as int);
                        assert(self.as_map() =~= observe_table(
                            old(self).as_map(),
                            id@,
                            content@,
                        ));
                    }
                    Some(DocumentEvent::ContentChanged(id.clone(), content.clone()))
                }
            },
            None => {
                self.entries.push(DocEntry { id: id.clone(), hash: h });
                proof {
                    assert(self.entry_ids() =~= old(self).entry_ids().push(id@));
                    assert forall|k: Seq<char>|
                        old(self).contains_id(k) implies self.contains_id(k) by {
                        let j = choose|j: int|
                            0 <= j < old(self).entry_ids().len() && old(self).entry_ids()[j] == k;
                        assert(self.entry_ids()[j] == k);
                    }
                    assert forall|k: Seq<char>| self.contains_id(k) implies (old(self).contains_id(k) || k == id@) by {
                        let j = choose|j: int|
                            0 <= j < self.entry_ids().len() && self.entry_ids()[j]
                                == k;
                        if j < old(self).entry_ids().len() {
                            assert(old(self).entry_ids()[j] == k);
                        }
                    }
                    assert(self.wf());
                    assert forall|k: Seq<char>|
                        old(self).contains_id(k) && k != id@ implies self.hash_for(k) == old(self).hash_for(k) by {
                        let j = old(self).id_index(k);
                        old(self).lemma_index_is(k, j);
                        assert(self.entry_ids()[j] == k);
                        self.lemma_index_is(k, j);
                    }
                    self.lemma_index_is(id@, old(self).entry_ids().len() as int);
                    assert(self.as_map() =~= observe_table(
                        old(self).as_map(),
                        id@,
                        content@,
                    ));
                }
                Some(DocumentEvent::NewDocument(id.clone(), content.clone()))
            },
        }
    }

    /// Records the removal of a document id and returns the event it
    /// warrants, if any.
    pub fn observe_removal(&mut self, id: &String) -> (r: Option<DocumentEvent>)
        requires
            old(self).wf(),
        ensures
            final(self).wf(),
            final(self).as_map() == removal_table(old(self).as_map(), id@),
            final(self).entry_ids() == if old(self).contains_id(id@) {
                old(self).entry_ids().remove(old(self).id_index(id@))
            } else {
                old(self).entry_ids()
            },
            doc_event_view_opt(r) == removal_event(old(self).as_map(), id@),
    {
        match self.find_index(id) {
            Some(i) => {
                proof {
                    self.lemma_index_is(id@, i as int);
                }
                self.entries.remove(i);
                proof {
                    assert(self.entry_ids() =~= old(self).entry_ids().remove(i as int));
                    assert forall|k: Seq<char>| self.contains_id(k) implies (old(self).contains_id(k) && k != id@) by {
                        let j = choose|j: int|
                            0 <= j < self.entry_ids().len() && self.entry_ids()[j]
                                == k;
                        if j < i {
                            assert(old(self).entry_ids()[j] == k);
                        } else {
                            assert(old(self).entry_ids()[j + 1] == k);
                        }
                    }
                    assert forall|k: Seq<char>|
                        old(self).contains_id(k) && k != id@ implies self.contains_id(k) by {
                        let j = old(self).id_index(k);
                        old(self).lemma_index_is(k, j);
                        if j < i {
                            assert(self.entry_ids()[j] == k);
                        } else {
                            assert(j > i);
                            assert(self.entry_ids()[j - 1] == k);
                        }
                    }
                    assert(self.wf());
                    assert forall|k: Seq<char>|
                        self.contains_id(k) implies self.hash_for(k) == old(self).hash_for(k) by {
                        let j = self.id_index(k);
                        self.lemma_index_is(k, j);
                        if j < i {
                            assert(old(self).entry_ids()[j] == k);
                            old(self).lemma_index_is(k, j);
                        } else {
                            assert(old(self).entry_ids()[j + 1] == k);
                            old(self).lemma_index_is(k, j + 1);
                        }
                    }
                    assert(self.as_map() =~= removal_table(old(self).as_map(), id@));
                }
                Some(DocumentEvent::DocumentRemoved(id.clone()))
            },
            None => {
                proof {
                    assert(self.as_map() =~= removal_table(old(self).as_map(), id@));
                }
                None
            },
        }
    }

    /// Drops every tracked document, announcing each removal in table order:
    /// the reaction to the disappearance of a whole source.
    pub fn remove_all(&mut self) -> (events: Vec<DocumentEvent>)
        requires
            old(self).wf(),
        ensures
            final(self).wf(),
            final(self).entry_ids() == Seq::<Seq<char>>::empty(),
            final(self).as_map() == Map::<Seq<char>, u64>::empty(),
            doc_event_views(events@) == removed_events_of(old(self).entry_ids()),
    {
        let mut events: Vec<DocumentEvent> = Vec::new();
        let mut i: usize = 0;
        while i < self.entries.len()
            invariant
                0 <= i <= self.entries.len(),
                self == old(self),
                doc_event_views(events@) =~= removed_events_of(old(self).entry_ids()).take(
                    i as int,
                ),
            decreases self.entries.len() - i,
        {
            let id = self.entries[i].id.clone();
            let ghost id_view = id@;
            let ghost pre = events@;
            events.push(DocumentEvent::DocumentRemoved(id));
            proof {
                let all = removed_events_of(old(self).entry_ids());
                assert(id_view == old(self).entry_ids()[i as int]);
                assert(all[i as int] == DocEventSpec::DocumentRemoved(id_view));
                assert(events@[pre.len() as int]@ == DocEventSpec::DocumentRemoved(id_view));
                assert(doc_event_views(events@) =~= doc_event_views(pre).push(
                    all[i as int],
                ));
                assert(doc_event_views(pre).push(all[i as int]) =~= all.take(i + 1));
                assert(doc_event_views(events@) =~= all.take(i + 1));
            }
            i = i + 1;
        }
        self.entries.clear();
        proof {
            assert(self.entry_ids() =~= Seq::<Seq<char>>::empty());
            assert(self.as_map() =~= Map::<Seq<char>, u64>::empty());
            assert(removed_events_of(old(self).entry_ids()).take(
                old(self).entry_ids().len() as int,
            ) =~= removed_events_of(old(self).entry_ids()));
        }
        events
    }
}

/// One removal announcement per id, in order.
pub open spec fn removed_events_of(ids: Seq<Seq<char>>) -> Seq<DocEventSpec> {
    ids.map_values(|id: Seq<char>| DocEventSpec::DocumentRemoved(id))
}

} // verus!
