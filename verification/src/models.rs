//! Core data model: work-item status, epics, stories, the snapshot of the
//! whole store, and the errors the store can report.

use crate::id_map::IdMap;
use vstd::prelude::*;

verus! {

/// A user-driven command, produced by the input-handling layer and consumed
/// by the page/navigation loop.
pub enum Action {
    NavigateToEpicDetail { epic_id: u32 },
    NavigateToStoryDetail { epic_id: u32, story_id: u32 },
    NavigateToPreviousPage,
    CreateEpic,
    UpdateEpicStatus { epic_id: u32 },
    DeleteEpic { epic_id: u32 },
    CreateStory { epic_id: u32 },
    UpdateStoryStatus { story_id: u32 },
    DeleteStory { epic_id: u32, story_id: u32 },
    Exit,
}

/// Lifecycle state of an epic or story. The variants are totally ordered in
/// declaration order; no transition between them is restricted.
#[derive(Clone, Copy, Debug, PartialEq, Eq, PartialOrd, Ord, Structural)]
pub enum Status {
    Open,
    InProgress,
    Resolved,
    Closed,
}

/// The fixed display text of each status.
pub open spec fn status_text(s: Status) -> Seq<char> {
    match s {
        Status::Open => "OPEN"@,
        Status::InProgress => "IN PROGRESS"@,
        Status::Resolved => "RESOLVED"@,
        Status::Closed => "CLOSED"@,
    }
}

impl Status {
    /// The uppercase display string of this status.
    pub fn to_string(&self) -> (r: String)
        ensures
            r@ == status_text(*self),
    {
        match self {
            Status::Open => String::from_str("OPEN"),
            Status::InProgress => String::from_str("IN PROGRESS"),
            Status::Resolved => String::from_str("RESOLVED"),
            Status::Closed => String::from_str("CLOSED"),
        }
    }
}

impl Default for Status {
    /// A fresh work item starts out open.
    fn default() -> (r: Self)
        ensures
            r == Status::Open,
    {
        Status::Open
    }
}

/// The abstract value of an [`Epic`].
#[verifier::ext_equal]
pub struct EpicView {
    pub name: Seq<char>,
    pub description: Seq<char>,
    pub status: Status,
    pub stories: Seq<u32>,
}

/// A top-level work item that owns zero or more stories, listed by id in
/// `stories` in insertion order.
#[derive(Debug, PartialEq, Eq)]
pub struct Epic {
    pub name: String,
    pub description: String,
    pub status: Status,
    pub stories: Vec<u32>,
}

impl View for Epic {
    type V = EpicView;

    open spec fn view(&self) -> EpicView {
        EpicView {
            name: self.name@,
            description: self.description@,
            status: self.status,
            stories: self.stories@,
        }
    }
}

impl Epic {
    /// A fresh epic: open, with no stories attached yet.
    pub fn new(name: String, description: String) -> (r: Self)
        ensures
            r@ == (EpicView {
                name: name@,
                description: description@,
                status: Status::Open,
                stories: Seq::<u32>::empty(),
            }),
    {
        let r = Epic { name, description, status: Status::default(), stories: Vec::new() };
        proof {
            assert(r@.stories =~= Seq::<u32>::empty());
        }
        r
    }
}

impl Clone for Epic {
    /// A copy with the same abstract value.
    fn clone(&self) -> (r: Self)
        ensures
            r@ == self@,
    {
        Epic {
            name: self.name.clone(),
            description: self.description.clone(),
            status: self.status,
            stories: clone_id_vec(&self.stories),
        }
    }
}

/// The abstract value of a [`Story`].
#[verifier::ext_equal]
pub struct StoryView {
    pub name: Seq<char>,
    pub description: Seq<char>,
    pub status: Status,
}

/// A child work item; its owner is the epic whose `stories` list carries its
/// id.
#[derive(Debug, PartialEq, Eq)]
pub struct Story {
    pub name: String,
    pub description: String,
    pub status: Status,
}

impl View for Story {
    type V = StoryView;

    open spec fn view(&self) -> StoryView {
        StoryView { name: self.name@, description: self.description@, status: self.status }
    }
}

impl Story {
    /// A fresh story: open.
    pub fn new(name: String, description: String) -> (r: Self)
        ensures
            r@ == (StoryView { name: name@, description: description@, status: Status::Open }),
    {
        Story { name, description, status: Status::default() }
    }
}

impl Clone for Story {
    /// A copy with the same abstract value.
    fn clone(&self) -> (r: Self)
        ensures
            r@ == self@,
    {
        Story {
            name: self.name.clone(),
            description: self.description.clone(),
            status: self.status,
        }
    }
}

/// An element-wise copy of a vector of ids.
fn clone_id_vec(v: &Vec<u32>) -> (r: Vec<u32>)
    ensures
        r@ == v@,
{
    let mut r: Vec<u32> = Vec::new();
    let mut i: usize = 0;
    while i < v.len()
        invariant
            i <= v.len(),
            r@ == v@.take(i as int),
        decreases v.len() - i,
    {
        r.push(v[i]);
        proof {
            assert(v@.take(i + 1) =~= v@.take(i as int).push(v@[i as int]));
        }
        i = i + 1;
    }
    proof {
        assert(v@.take(v@.len() as int) =~= v@);
    }
    r
}

/// The abstract value of a [`DBState`]: the id counter and the two maps from
/// id to work item.
#[verifier::ext_equal]
pub struct DbModel {
    pub last_item_id: u32,
    pub epics: Map<u32, EpicView>,
    pub stories: Map<u32, StoryView>,
}

/// The complete snapshot of the store: the highest id issued so far and the
/// two id-keyed maps. Epics and stories draw their ids from the single shared
/// counter `last_item_id`.
#[derive(Debug, PartialEq, Eq)]
pub struct DBState {
    pub last_item_id: u32,
    pub epics: IdMap<Epic>,
    pub stories: IdMap<Story>,
}

impl View for DBState {
    type V = DbModel;

    open spec fn view(&self) -> DbModel {
        DbModel { last_item_id: self.last_item_id, epics: self.epics@, stories: self.stories@ }
    }
}

impl DBState {
    /// Both maps keep their entries sorted by id.
    pub open spec fn wf(&self) -> bool {
        self.epics.wf() && self.stories.wf()
    }

    /// The empty store: no items, no id issued yet.
    pub fn empty() -> (r: Self)
        ensures
            r.wf(),
            r@ == (DbModel {
                last_item_id: 0,
                epics: Map::<u32, EpicView>::empty(),
                stories: Map::<u32, StoryView>::empty(),
            }),
    {
        DBState { last_item_id: 0, epics: IdMap::new(), stories: IdMap::new() }
    }

    /// A copy of the snapshot with the same abstract value.
    pub fn duplicate(&self) -> (r: Self)
        requires
            self.wf(),
        ensures
            r.wf(),
            r@ == self@,
    {
        DBState {
            last_item_id: self.last_item_id,
            epics: clone_entries(&self.epics),
            stories: clone_entries(&self.stories),
        }
    }
}

/// A copy of an ordered map, cloning each value; same keys, same abstract
/// value.
fn clone_entries<V: View + Clone>(m: &IdMap<V>) -> (r: IdMap<V>)
    requires
        m.wf(),
        forall|v: V, c: V| call_ensures(V::clone, (&v,), c) ==> c@ == v@,
    ensures
        r.wf(),
        r@ == m@,
{
    let mut r: IdMap<V> = IdMap::new();
    let n = m.entries.len();
    let mut i: usize = 0;
    while i < n
        invariant
            n == m.entries@.len(),
            m.wf(),
            forall|v: V, c: V| call_ensures(V::clone, (&v,), c) ==> c@ == v@,
            i <= n,
            r.wf(),
            r.entries@.len() == i,
            forall|j: int| 0 <= j < i ==> r.entries@[j].0 == m.entries@[j].0,
            r@ == crate::id_map::map_of(m.entries@.take(i as int)),
        decreases n - i,
    {
        let ghost prefix = m.entries@.take(i as int);
        let k = m.entries[i].0;
        let v = m.entries[i].1.clone();
        r.push_max(k, v);
        proof {
            assert(m.entries@.take(i + 1).drop_last() =~= prefix);
            assert(m.entries@.take(i + 1).last() == m.entries@[i as int]);
        }
        i = i + 1;
    }
    proof {
        assert(m.entries@.take(n as int) =~= m.entries@);
    }
    r
}

/// What the store can fail with: a snapshot that cannot be decoded, an
/// unreadable or unwritable medium, or a reference to an id that does not
/// exist.
#[derive(Clone, Copy, Debug, PartialEq, Eq, Structural)]
pub enum DbError {
    /// The persisted content is not a well-formed snapshot.
    Decode,
    /// The storage medium could not be read or written.
    Io,
    /// A referenced epic or story id is absent.
    NotFound,
}

} // verus!
