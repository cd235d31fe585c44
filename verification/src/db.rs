//! The storage contract and the repository.
//!
//! A [`Database`] holds one snapshot and can read or replace it as a whole.
//! [`JiraDatabase`] applies one CRUD operation per call: it reads the full
//! snapshot, mutates an in-memory copy, and writes it back; a failed write
//! leaves the previously stored snapshot authoritative. [`MockDB`] is the
//! in-memory backend used to exercise the repository without a filesystem.
//!
//! The meaning of each operation is given by the `spec_*` transition
//! functions over [`DbModel`]; the `lemma_*` proof functions state the laws
//! the operations obey (fresh ids, counter monotonicity, referential
//! consistency).

use crate::models::{DBState, DbError, DbModel, Epic, EpicView, Status, Story, StoryView};
use vstd::prelude::*;

verus! {

/// How many times `x` occurs in `s`.
pub open spec fn count_of(s: Seq<u32>, x: u32) -> nat
    decreases s.len(),
{
    if s.len() == 0 {
        0
    } else {
        count_of(s.drop_last(), x) + if s.last() == x {
            1nat
        } else {
            0nat
        }
    }
}

/// `s` with every occurrence of `x` removed, order otherwise kept.
pub open spec fn remove_id(s: Seq<u32>, x: u32) -> Seq<u32>
    decreases s.len(),
{
    if s.len() == 0 {
        Seq::empty()
    } else if s.last() == x {
        remove_id(s.drop_last(), x)
    } else {
        remove_id(s.drop_last(), x).push(s.last())
    }
}

/// An element occurs exactly as often as zero when absent.
pub proof fn lemma_count_of_absent(s: Seq<u32>, x: u32)
    ensures
        count_of(s, x) == 0 <==> !s.contains(x),
    decreases s.len(),
{
    if s.len() > 0 {
        lemma_count_of_absent(s.drop_last(), x);
        if s.contains(x) {
            let i = choose|i: int| 0 <= i < s.len() && s[i] == x;
            if i < s.len() - 1 {
                assert(s.drop_last()[i] == x);
            }
        } else {
            assert(forall|i: int| 0 <= i < s.len() - 1 ==> s.drop_last()[i] == s[i]);
        }
    }
}

/// What `remove_id` keeps: every occurrence of other values, nothing of `x`.
pub proof fn lemma_remove_id_contains(s: Seq<u32>, x: u32, y: u32)
    ensures
        remove_id(s, x).contains(y) <==> s.contains(y) && y != x,
    decreases s.len(),
{
    if s.len() > 0 {
        let d = s.drop_last();
        let t = remove_id(d, x);
        lemma_remove_id_contains(d, x, y);
        if d.contains(y) {
            let i = choose|i: int| 0 <= i < d.len() && d[i] == y;
            assert(s[i] == y);
        }
        if s.last() == x {
            if s.contains(y) && y != x {
                let i = choose|i: int| 0 <= i < s.len() && s[i] == y;
                assert(d[i] == y);
            }
        } else {
            if t.contains(y) {
                let i = choose|i: int| 0 <= i < t.len() && t[i] == y;
                assert(t.push(s.last())[i] == y);
            }
            if s.last() == y {
                assert(t.push(s.last())[t.len() as int] == y);
            }
            if remove_id(s, x).contains(y) {
                let i = choose|i: int| 0 <= i < t.push(s.last()).len() && t.push(s.last())[i] == y;
                if i < t.len() {
                    assert(t[i] == y);
                } else {
                    assert(s.last() == y);
                    assert(s[s.len() - 1] == y);
                }
            }
            if s.contains(y) && y != x && !d.contains(y) {
                let i = choose|i: int| 0 <= i < s.len() && s[i] == y;
                if i < s.len() - 1 {
                    assert(d[i] == y);
                }
            }
        }
    }
}

/// No value occurs twice in `s`.
pub open spec fn seq_no_dup(s: Seq<u32>) -> bool {
    forall|i: int, j: int| 0 <= i < j < s.len() ==> s[i] != s[j]
}

/// Every id in either map is positive and no larger than the counter.
pub open spec fn ids_in_range(m: DbModel) -> bool {
    &&& forall|k: u32| #[trigger] m.epics.dom().contains(k) ==> 1 <= k <= m.last_item_id
    &&& forall|k: u32| #[trigger] m.stories.dom().contains(k) ==> 1 <= k <= m.last_item_id
}

/// Every id an epic lists resolves in the story map.
pub open spec fn refs_valid(m: DbModel) -> bool {
    forall|k: u32, y: u32|
        #![trigger m.epics[k].stories.contains(y)]
        m.epics.dom().contains(k) && m.epics[k].stories.contains(y) ==> m.stories.dom().contains(y)
}

/// No epic lists the same story twice.
pub open spec fn lists_no_dup(m: DbModel) -> bool {
    forall|k: u32| #[trigger] m.epics.dom().contains(k) ==> seq_no_dup(m.epics[k].stories)
}

/// No two epics list the same story.
pub open spec fn owners_unique(m: DbModel) -> bool {
    forall|k1: u32, k2: u32, y: u32|
        #![trigger m.epics[k1].stories.contains(y), m.epics[k2].stories.contains(y)]
        m.epics.dom().contains(k1) && m.epics.dom().contains(k2) && k1 != k2 && m.epics[k1].stories.contains(
            y,
        ) ==> !m.epics[k2].stories.contains(y)
}

/// The invariant the repository maintains over the stored snapshot.
pub open spec fn store_inv(m: DbModel) -> bool {
    ids_in_range(m) && refs_valid(m) && lists_no_dup(m) && owners_unique(m)
}

/// The effect of creating an epic: the next id is issued, the epic is filed
/// under it, and the counter moves to it.
pub open spec fn spec_create_epic(m: DbModel, e: EpicView) -> (DbModel, u32)
    recommends
        m.last_item_id < u32::MAX,
{
    let id = (m.last_item_id + 1) as u32;
    (DbModel { last_item_id: id, epics: m.epics.insert(id, e), stories: m.stories }, id)
}

/// The effect of creating a story under `epic_id`: absent owner is rejected;
/// otherwise the next id is issued, the story is filed under it, and the
/// owner's list gains the id at its end.
pub open spec fn spec_create_story(m: DbModel, s: StoryView, epic_id: u32) -> Result<
    (DbModel, u32),
    DbError,
>
    recommends
        m.last_item_id < u32::MAX,
{
    if !m.epics.dom().contains(epic_id) {
        Err(DbError::NotFound)
    } else {
        let id = (m.last_item_id + 1) as u32;
        let e = m.epics[epic_id];
        Ok(
            (
                DbModel {
                    last_item_id: id,
                    epics: m.epics.insert(
                        epic_id,
                        EpicView { stories: e.stories.push(id), ..e },
                    ),
                    stories: m.stories.insert(id, s),
                },
                id,
            ),
        )
    }
}

/// The effect of deleting an epic: absent ids are rejected; otherwise the
/// epic leaves the map and is returned. Its child stories stay in the story
/// map: they become unreferenced rather than being cascade-deleted, so a
/// deletion never touches items the caller did not name.
pub open spec fn spec_delete_epic(m: DbModel, id: u32) -> Result<(DbModel, EpicView), DbError> {
    if !m.epics.dom().contains(id) {
        Err(DbError::NotFound)
    } else {
        Ok(
            (
                DbModel { last_item_id: m.last_item_id, epics: m.epics.remove(id), stories: m.stories },
                m.epics[id],
            ),
        )
    }
}

/// The effect of deleting a story: the owner must exist, the story must
/// exist, and the owner's list must carry it (anything else is rejected);
/// then the story leaves the story map and the owner's list in one step, so
/// no dangling id is left behind.
pub open spec fn spec_delete_story(m: DbModel, epic_id: u32, story_id: u32) -> Result<
    (DbModel, StoryView),
    DbError,
> {
    if !m.epics.dom().contains(epic_id) || !m.stories.dom().contains(story_id)
        || !m.epics[epic_id].stories.contains(story_id) {
        Err(DbError::NotFound)
    } else {
        let e = m.epics[epic_id];
        Ok(
            (
                DbModel {
                    last_item_id: m.last_item_id,
                    epics: m.epics.insert(
                        epic_id,
                        EpicView { stories: remove_id(e.stories, story_id), ..e },
                    ),
                    stories: m.stories.remove(story_id),
                },
                m.stories[story_id],
            ),
        )
    }
}

/// The effect of setting an epic's status: absent ids are rejected; any
/// status may be set to any other — no transition is restricted.
pub open spec fn spec_update_epic_status(m: DbModel, epic_id: u32, status: Status) -> Result<
    DbModel,
    DbError,
> {
    if !m.epics.dom().contains(epic_id) {
        Err(DbError::NotFound)
    } else {
        Ok(
            DbModel {
                last_item_id: m.last_item_id,
                epics: m.epics.insert(epic_id, EpicView { status, ..m.epics[epic_id] }),
                stories: m.stories,
            },
        )
    }
}

/// The effect of setting a story's status: absent ids are rejected; any
/// status may be set to any other — no transition is restricted.
pub open spec fn spec_update_story_status(m: DbModel, story_id: u32, status: Status) -> Result<
    DbModel,
    DbError,
> {
    if !m.stories.dom().contains(story_id) {
        Err(DbError::NotFound)
    } else {
        Ok(
            DbModel {
                last_item_id: m.last_item_id,
                epics: m.epics,
                stories: m.stories.insert(story_id, StoryView { status, ..m.stories[story_id] }),
            },
        )
    }
}

/// The contract a storage backend offers: it holds one snapshot (`db`),
/// reads return exactly that snapshot, and writes either replace it or leave
/// it untouched.
pub trait Database: Sized {
    /// The backend's own well-formedness.
    spec fn inv(&self) -> bool;

    /// The snapshot the backend currently holds.
    spec fn db(&self) -> DbModel;

    /// Reads the whole current snapshot, or fails when the medium is
    /// unreadable (`Io`) or its content is not a snapshot (`Decode`).
    fn read_db(&self) -> (r: Result<DBState, DbError>)
        requires
            self.inv(),
        ensures
            match r {
                Ok(s) => s.wf() && s@ == self.db(),
                Err(e) => e == DbError::Io || e == DbError::Decode,
            },
    ;

    /// Replaces the stored snapshot with `state` as one unit; when the write
    /// fails (`Io`), the previously stored snapshot remains authoritative.
    fn write_db(&mut self, state: &DBState) -> (r: Result<(), DbError>)
        requires
            old(self).inv(),
            state.wf(),
        ensures
            final(self).inv(),
            match r {
                Ok(()) => final(self).db() == state@,
                Err(e) => final(self).db() == old(self).db() && e == DbError::Io,
            },
    ;
}

/// The repository: applies one operation per whole-snapshot round trip
/// through its backend.
pub struct JiraDatabase<D: Database> {
    pub database: D,
}

impl<D: Database> JiraDatabase<D> {
    /// The backend's well-formedness, lifted.
    pub open spec fn inv(&self) -> bool {
        self.database.inv()
    }

    /// The snapshot currently stored behind this repository.
    pub open spec fn state(&self) -> DbModel {
        self.database.db()
    }

    /// A repository over the given backend.
    pub fn new(database: D) -> (r: Self)
        ensures
            r.database == database,
    {
        JiraDatabase { database }
    }

    /// The full current snapshot, straight from the backend.
    pub fn read_db(&self) -> (r: Result<DBState, DbError>)
        requires
            self.inv(),
        ensures
            match r {
                Ok(s) => s.wf() && s@ == self.state(),
                Err(e) => e == DbError::Io || e == DbError::Decode,
            },
    {
        self.database.read_db()
    }

    /// The epic stored under `id`.
    pub fn read(&self, id: u32) -> (r: Result<Epic, DbError>)
        requires
            self.inv(),
        ensures
            match r {
                Ok(ep) => self.state().epics.dom().contains(id) && ep@ == self.state().epics[id],
                Err(e) => e == DbError::NotFound ==> !self.state().epics.dom().contains(id),
            },
    {
        let state = match self.database.read_db() {
            Ok(s) => s,
            Err(e) => return Err(e),
        };
        match state.epics.get(id) {
            Some(ep) => Ok(ep.clone()),
            None => Err(DbError::NotFound),
        }
    }

    /// Files `epic` under the next id and returns that id. Only the backend
    /// can make this fail; a failure leaves the stored snapshot as it was.
    pub fn create_epic(&mut self, epic: Epic) -> (r: Result<u32, DbError>)
        requires
            old(self).inv(),
            old(self).state().last_item_id < u32::MAX,
        ensures
            final(self).inv(),
            match r {
                Ok(id) => ({
                    let (m2, id2) = spec_create_epic(old(self).state(), epic@);
                    final(self).state() == m2 && id == id2
                }),
                Err(e) => final(self).state() == old(self).state() && e != DbError::NotFound,
            },
    {
        let mut current_state = match self.database.read_db() {
            Ok(s) => s,
            Err(e) => return Err(e),
        };
        let id = current_state.last_item_id + 1;
        current_state.epics.insert(id, epic);
        current_state.last_item_id = id;
        let ghost m2 = spec_create_epic(old(self).state(), epic@).0;
        proof {
            assert(current_state@ =~= m2);
        }
        match self.database.write_db(&current_state) {
            Ok(_) => Ok(id),
            Err(e) => Err(e),
        }
    }

    /// Files `story` under the next id, appends that id to the owning
    /// epic's list, and returns the id; `NotFound` when `epic_id` is absent.
    pub fn create_story(&mut self, story: Story, epic_id: u32) -> (r: Result<u32, DbError>)
        requires
            old(self).inv(),
            old(self).state().last_item_id < u32::MAX,
        ensures
            final(self).inv(),
            match r {
                Ok(id) => ({
                    let res = spec_create_story(old(self).state(), story@, epic_id);
                    res is Ok && final(self).state() == res->Ok_0.0 && id == res->Ok_0.1
                }),
                Err(e) => final(self).state() == old(self).state() && (e == DbError::NotFound
                    ==> !old(self).state().epics.dom().contains(epic_id)),
            },
    {
        let mut current_state = match self.database.read_db() {
            Ok(s) => s,
            Err(e) => return Err(e),
        };
        let mut epic = match current_state.epics.remove(epic_id) {
            Some(ep) => ep,
            None => return Err(DbError::NotFound),
        };
        let new_story_id = current_state.last_item_id + 1;
        epic.stories.push(new_story_id);
        current_state.epics.insert(epic_id, epic);
        current_state.stories.insert(new_story_id, story);
        current_state.last_item_id = new_story_id;
        let ghost res = spec_create_story(old(self).state(), story@, epic_id);
        proof {
            assert(old(self).state().epics.remove(epic_id).insert(epic_id, epic@)
                =~= old(self).state().epics.insert(epic_id, epic@));
            assert(current_state@ =~= res->Ok_0.0);
        }
        match self.database.write_db(&current_state) {
            Ok(_) => Ok(new_story_id),
            Err(e) => Err(e),
        }
    }

    /// Removes and returns the epic under `id`; `NotFound` when it is
    /// absent. Its child stories are kept in the story map (they become
    /// unreferenced; see [`spec_delete_epic`]).
    pub fn delete_epic(&mut self, id: u32) -> (r: Result<Epic, DbError>)
        requires
            old(self).inv(),
        ensures
            final(self).inv(),
            match r {
                Ok(ep) => ({
                    let res = spec_delete_epic(old(self).state(), id);
                    res is Ok && final(self).state() == res->Ok_0.0 && ep@ == res->Ok_0.1
                }),
                Err(e) => final(self).state() == old(self).state() && (e == DbError::NotFound
                    ==> !old(self).state().epics.dom().contains(id)),
            },
    {
        let mut current_state = match self.database.read_db() {
            Ok(s) => s,
            Err(e) => return Err(e),
        };
        let epic = match current_state.epics.remove(id) {
            Some(ep) => ep,
            None => return Err(DbError::NotFound),
        };
        proof {
            assert(current_state@ =~= spec_delete_epic(old(self).state(), id)->Ok_0.0);
        }
        match self.database.write_db(&current_state) {
            Ok(_) => Ok(epic),
            Err(e) => Err(e),
        }
    }

    /// Removes the story under `story_id` from both the story map and the
    /// list of its owning epic `epic_id`, and returns it; `NotFound` when the
    /// epic is absent, the story is absent, or the epic does not list the
    /// story.
    pub fn delete_story(&mut self, epic_id: u32, story_id: u32) -> (r: Result<Story, DbError>)
        requires
            old(self).inv(),
        ensures
            final(self).inv(),
            match r {
                Ok(st) => ({
                    let res = spec_delete_story(old(self).state(), epic_id, story_id);
                    res is Ok && final(self).state() == res->Ok_0.0 && st@ == res->Ok_0.1
                }),
                Err(e) => final(self).state() == old(self).state() && (e == DbError::NotFound
                    ==> spec_delete_story(old(self).state(), epic_id, story_id) == Err::<
                        (DbModel, StoryView),
                        DbError,
                    >(DbError::NotFound)),
            },
    {
        let mut db_state = match self.database.read_db() {
            Ok(s) => s,
            Err(e) => return Err(e),
        };
        let mut epic = match db_state.epics.remove(epic_id) {
            Some(ep) => ep,
            None => return Err(DbError::NotFound),
        };
        if !contains_id(&epic.stories, story_id) {
            return Err(DbError::NotFound);
        }
        let story = match db_state.stories.remove(story_id) {
            Some(st) => st,
            None => return Err(DbError::NotFound),
        };
        epic.stories = remove_id_vec(&epic.stories, story_id);
        db_state.epics.insert(epic_id, epic);
        let ghost res = spec_delete_story(old(self).state(), epic_id, story_id);
        proof {
            assert(old(self).state().epics.remove(epic_id).insert(epic_id, epic@)
                =~= old(self).state().epics.insert(epic_id, epic@));
            assert(db_state@ =~= res->Ok_0.0);
        }
        match self.database.write_db(&db_state) {
            Ok(_) => Ok(story),
            Err(e) => Err(e),
        }
    }

    /// Sets the status of the epic under `epic_id`; `NotFound` when it is
    /// absent. Any status may be set to any other.
    pub fn update_epic_status(&mut self, epic_id: u32, status: Status) -> (r: Result<(), DbError>)
        requires
            old(self).inv(),
        ensures
            final(self).inv(),
            match r {
                Ok(()) => spec_update_epic_status(old(self).state(), epic_id, status) == Ok::<
                    DbModel,
                    DbError,
                >(final(self).state()),
                Err(e) => final(self).state() == old(self).state() && (e == DbError::NotFound
                    ==> !old(self).state().epics.dom().contains(epic_id)),
            },
    {
        let mut current_state = match self.database.read_db() {
            Ok(s) => s,
            Err(e) => return Err(e),
        };
        let mut epic = match current_state.epics.remove(epic_id) {
            Some(ep) => ep,
            None => return Err(DbError::NotFound),
        };
        epic.status = status;
        current_state.epics.insert(epic_id, epic);
        proof {
            assert(old(self).state().epics.remove(epic_id).insert(epic_id, epic@)
                =~= old(self).state().epics.insert(epic_id, epic@));
            assert(current_state@ =~= spec_update_epic_status(
                old(self).state(),
                epic_id,
                status,
            )->Ok_0);
        }
        match self.database.write_db(&current_state) {
            Ok(_) => Ok(()),
            Err(e) => Err(e),
        }
    }

    /// Sets the status of the story under `story_id`; `NotFound` when it is
    /// absent. Any status may be set to any other.
    pub fn update_story_status(&mut self, story_id: u32, status: Status) -> (r: Result<(), DbError>)
        requires
            old(self).inv(),
        ensures
            final(self).inv(),
            match r {
                Ok(()) => spec_update_story_status(old(self).state(), story_id, status) == Ok::<
                    DbModel,
                    DbError,
                >(final(self).state()),
                Err(e) => final(self).state() == old(self).state() && (e == DbError::NotFound
                    ==> !old(self).state().stories.dom().contains(story_id)),
            },
    {
        let mut current_state = match self.database.read_db() {
            Ok(s) => s,
            Err(e) => return Err(e),
        };
        let mut story = match current_state.stories.remove(story_id) {
            Some(st) => st,
            None => return Err(DbError::NotFound),
        };
        story.status = status;
        current_state.stories.insert(story_id, story);
        proof {
            assert(old(self).state().stories.remove(story_id).insert(story_id, story@)
                =~= old(self).state().stories.insert(story_id, story@));
            assert(current_state@ =~= spec_update_story_status(
                old(self).state(),
                story_id,
                status,
            )->Ok_0);
        }
        match self.database.write_db(&current_state) {
            Ok(_) => Ok(()),
            Err(e) => Err(e),
        }
    }
}

/// Whether `x` occurs in `v`.
fn contains_id(v: &Vec<u32>, x: u32) -> (r: bool)
    ensures
        r == v@.contains(x),
{
    let mut i: usize = 0;
    while i < v.len()
        invariant
            i <= v.len(),
            forall|j: int| 0 <= j < i ==> v@[j] != x,
        decreases v.len() - i,
    {
        if v[i] == x {
            return true;
        }
        i = i + 1;
    }
    false
}

/// `v` with every occurrence of `x` dropped.
fn remove_id_vec(v: &Vec<u32>, x: u32) -> (r: Vec<u32>)
    ensures
        r@ == remove_id(v@, x),
{
    let mut r: Vec<u32> = Vec::new();
    let mut i: usize = 0;
    while i < v.len()
        invariant
            i <= v.len(),
            r@ == remove_id(v@.take(i as int), x),
        decreases v.len() - i,
    {
        proof {
            assert(v@.take(i + 1).drop_last() =~= v@.take(i as int));
            assert(v@.take(i + 1).last() == v@[i as int]);
        }
        if v[i] != x {
            r.push(v[i]);
        }
        i = i + 1;
    }
    proof {
        assert(v@.take(v@.len() as int) =~= v@);
    }
    r
}

/// The in-memory backend: holds the last written snapshot directly, with no
/// encoding step; reads and writes never fail.
pub struct MockDB {
    last_written_state: DBState,
}

impl MockDB {
    /// A mock backend holding the empty snapshot.
    pub fn new() -> (r: Self)
        ensures
            r.inv(),
            r.db() == (DbModel {
                last_item_id: 0,
                epics: Map::<u32, EpicView>::empty(),
                stories: Map::<u32, StoryView>::empty(),
            }),
    {
        MockDB { last_written_state: DBState::empty() }
    }
}

impl Database for MockDB {
    closed spec fn inv(&self) -> bool {
        self.last_written_state.wf()
    }

    closed spec fn db(&self) -> DbModel {
        self.last_written_state@
    }

    fn read_db(&self) -> (r: Result<DBState, DbError>)
        ensures
            r is Ok,
    {
        Ok(self.last_written_state.duplicate())
    }

    fn write_db(&mut self, state: &DBState) -> (r: Result<(), DbError>)
        ensures
            r is Ok,
    {
        self.last_written_state = state.duplicate();
        Ok(())
    }
}

/// Removing a value keeps a duplicate-free list duplicate-free.
pub proof fn lemma_remove_id_no_dup(s: Seq<u32>, x: u32)
    requires
        seq_no_dup(s),
    ensures
        seq_no_dup(remove_id(s, x)),
    decreases s.len(),
{
    if s.len() > 0 {
        let d = s.drop_last();
        lemma_remove_id_no_dup(d, x);
        if s.last() != x {
            let t = remove_id(d, x);
            lemma_remove_id_contains(d, x, s.last());
            if d.contains(s.last()) {
                let i = choose|i: int| 0 <= i < d.len() && d[i] == s.last();
                assert(s[i] == s[s.len() - 1]);
                assert(false);
            }
            assert forall|i: int, j: int| 0 <= i < j < t.push(s.last()).len() implies t.push(
                s.last(),
            )[i] != t.push(s.last())[j] by {
                if j < t.len() {
                } else {
                    assert(t.push(s.last())[i] == t[i]);
                    assert(t.contains(t[i]));
                }
            }
        }
    }
}

/// One create operation, as the repository applies it.
pub enum CreateOp {
    Epic(EpicView),
    Story(StoryView, u32),
}

/// One create operation applied to a snapshot: the new snapshot, and the
/// issued id when one was issued (a story create whose owner is absent is
/// rejected and issues none).
pub open spec fn apply_create(m: DbModel, op: CreateOp) -> (DbModel, Option<u32>) {
    match op {
        CreateOp::Epic(e) => {
            let (m2, id) = spec_create_epic(m, e);
            (m2, Some(id))
        },
        CreateOp::Story(s, epic_id) => match spec_create_story(m, s, epic_id) {
            Ok((m2, id)) => (m2, Some(id)),
            Err(_) => (m, None),
        },
    }
}

/// The snapshot after a whole sequence of create operations.
pub open spec fn apply_creates(m: DbModel, ops: Seq<CreateOp>) -> DbModel
    decreases ops.len(),
{
    if ops.len() == 0 {
        m
    } else {
        apply_creates(apply_create(m, ops[0]).0, ops.subrange(1, ops.len() as int))
    }
}

/// The ids issued along a sequence of create operations, in order.
pub open spec fn issued_ids(m: DbModel, ops: Seq<CreateOp>) -> Seq<u32>
    decreases ops.len(),
{
    if ops.len() == 0 {
        Seq::empty()
    } else {
        let (m2, r) = apply_create(m, ops[0]);
        let rest = issued_ids(m2, ops.subrange(1, ops.len() as int));
        match r {
            Some(id) => seq![id] + rest,
            None => rest,
        }
    }
}

/// Law: across any sequence of create operations, the issued ids are
/// strictly increasing — so all of them are distinct, across epics and
/// stories combined — each exceeds the starting counter, and afterwards the
/// counter equals the last (largest) issued id; every id in the resulting
/// maps stays within range of the counter, so an issued id also collides
/// with nothing already stored.
pub proof fn lemma_creates_issue_distinct_ids(m: DbModel, ops: Seq<CreateOp>)
    requires
        ids_in_range(m),
        m.last_item_id + ops.len() <= u32::MAX,
    ensures
        ({
            let mf = apply_creates(m, ops);
            let ids = issued_ids(m, ops);
            &&& ids_in_range(mf)
            &&& m.last_item_id <= mf.last_item_id <= m.last_item_id + ops.len()
            &&& forall|a: int, b: int|
                #![trigger ids[a], ids[b]]
                0 <= a < b < ids.len() ==> ids[a] < ids[b]
            &&& forall|a: int| 0 <= a < ids.len() ==> m.last_item_id < #[trigger] ids[a] <= mf.last_item_id
            &&& ids.len() > 0 ==> mf.last_item_id == ids[ids.len() - 1]
            &&& ids.len() == 0 ==> mf.last_item_id == m.last_item_id
        }),
    decreases ops.len(),
{
    if ops.len() > 0 {
        let (m1, r) = apply_create(m, ops[0]);
        let rest = ops.subrange(1, ops.len() as int);
        let mf = apply_creates(m, ops);
        let ids = issued_ids(m, ops);
        let ids_rest = issued_ids(m1, rest);
        match ops[0] {
            CreateOp::Epic(e) => {
                let id = (m.last_item_id + 1) as u32;
                assert(ids_in_range(m1)) by {
                    lemma_create_epic_law(m, e);
                }
                lemma_creates_issue_distinct_ids(m1, rest);
                assert(ids == seq![id] + ids_rest);
                assert(ids[0] == id);
                assert(forall|a: int| 0 <= a < ids_rest.len() ==> ids[1 + a] == ids_rest[a]);
                if ids_rest.len() == 0 {
                    assert(mf.last_item_id == id);
                }
            },
            CreateOp::Story(s, epic_id) => {
                if spec_create_story(m, s, epic_id) is Ok {
                    let id = (m.last_item_id + 1) as u32;
                    assert(ids_in_range(m1)) by {
                        assert forall|k: u32| #[trigger] m1.epics.dom().contains(k) implies 1 <= k
                            <= m1.last_item_id by {
                            assert(m.epics.dom().contains(k));
                        }
                        assert forall|k: u32| #[trigger] m1.stories.dom().contains(k) implies 1
                            <= k <= m1.last_item_id by {
                            if k != id {
                                assert(m.stories.dom().contains(k));
                            }
                        }
                    }
                    lemma_creates_issue_distinct_ids(m1, rest);
                    assert(ids == seq![id] + ids_rest);
                    assert(ids[0] == id);
                    assert(forall|a: int| 0 <= a < ids_rest.len() ==> ids[1 + a] == ids_rest[a]);
                    if ids_rest.len() == 0 {
                        assert(mf.last_item_id == id);
                    }
                } else {
                    assert(m1 == m);
                    lemma_creates_issue_distinct_ids(m1, rest);
                    assert(ids == ids_rest);
                }
            },
        }
    }
}

/// Law: setting an epic's status is rejected with `NotFound` exactly when
/// the id is absent; on success only that epic's status changes — ids, story
/// lists, the story map and the counter are untouched — and the snapshot
/// invariant is preserved.
pub proof fn lemma_update_epic_status_law(m: DbModel, epic_id: u32, status: Status)
    requires
        store_inv(m),
    ensures
        spec_update_epic_status(m, epic_id, status) is Err <==> !m.epics.dom().contains(epic_id),
        spec_update_epic_status(m, epic_id, status) is Err ==> spec_update_epic_status(
            m,
            epic_id,
            status,
        ) == Err::<DbModel, DbError>(DbError::NotFound),
        spec_update_epic_status(m, epic_id, status) is Ok ==> ({
            let m2 = spec_update_epic_status(m, epic_id, status)->Ok_0;
            &&& m2.last_item_id == m.last_item_id
            &&& m2.epics.dom() == m.epics.dom()
            &&& m2.epics[epic_id].status == status
            &&& m2.epics[epic_id].stories == m.epics[epic_id].stories
            &&& m2.stories == m.stories
            &&& store_inv(m2)
        }),
{
    if m.epics.dom().contains(epic_id) {
        let m2 = spec_update_epic_status(m, epic_id, status)->Ok_0;
        assert(m2.epics.dom() =~= m.epics.dom());
        assert forall|k: u32, y: u32|
            m2.epics.dom().contains(k) && #[trigger] m2.epics[k].stories.contains(y) implies m2.stories.dom().contains(
            y,
        ) by {
            assert(m.epics[k].stories.contains(y));
        }
        assert forall|k: u32| #[trigger] m2.epics.dom().contains(k) implies seq_no_dup(
            m2.epics[k].stories,
        ) by {
            assert(m.epics.dom().contains(k));
        }
        assert forall|k1: u32, k2: u32, y: u32|
            m2.epics.dom().contains(k1) && m2.epics.dom().contains(k2) && k1 != k2
                && #[trigger] m2.epics[k1].stories.contains(y) implies !#[trigger] m2.epics[k2].stories.contains(
            y,
        ) by {
            assert(m.epics[k1].stories.contains(y));
        }
    }
}

/// Law: setting a story's status is rejected with `NotFound` exactly when
/// the id is absent; on success only that story's status changes — the epic
/// map and the counter are untouched — and the snapshot invariant is
/// preserved.
pub proof fn lemma_update_story_status_law(m: DbModel, story_id: u32, status: Status)
    requires
        store_inv(m),
    ensures
        spec_update_story_status(m, story_id, status) is Err <==> !m.stories.dom().contains(
            story_id,
        ),
        spec_update_story_status(m, story_id, status) is Err ==> spec_update_story_status(
            m,
            story_id,
            status,
        ) == Err::<DbModel, DbError>(DbError::NotFound),
        spec_update_story_status(m, story_id, status) is Ok ==> ({
            let m2 = spec_update_story_status(m, story_id, status)->Ok_0;
            &&& m2.last_item_id == m.last_item_id
            &&& m2.epics == m.epics
            &&& m2.stories.dom() == m.stories.dom()
            &&& m2.stories[story_id].status == status
            &&& store_inv(m2)
        }),
{
    if m.stories.dom().contains(story_id) {
        let m2 = spec_update_story_status(m, story_id, status)->Ok_0;
        assert(m2.stories.dom() =~= m.stories.dom());
        assert forall|k: u32, y: u32|
            m2.epics.dom().contains(k) && #[trigger] m2.epics[k].stories.contains(y) implies m2.stories.dom().contains(
            y,
        ) by {
            assert(m.epics[k].stories.contains(y));
        }
    }
}

/// Law: creating an epic issues the id after the counter — an id present in
/// neither map beforehand — and moves the counter to it. Since every id in a
/// valid snapshot is at most the counter and the counter only grows, every
/// id issued across any sequence of create operations is distinct and the
/// counter always equals the newest (largest) issued id.
pub proof fn lemma_create_epic_law(m: DbModel, e: EpicView)
    requires
        ids_in_range(m),
        m.last_item_id < u32::MAX,
    ensures
        ({
            let (m2, id) = spec_create_epic(m, e);
            &&& id == m.last_item_id + 1
            &&& !m.epics.dom().contains(id)
            &&& !m.stories.dom().contains(id)
            &&& m2.last_item_id == id
            &&& m2.epics =~= m.epics.insert(id, e)
            &&& m2.stories == m.stories
            &&& ids_in_range(m2)
            &&& store_inv(m) && e.stories.len() == 0 ==> store_inv(m2)
        }),
{
    let (m2, id) = spec_create_epic(m, e);
    if store_inv(m) && e.stories.len() == 0 {
        assert forall|k: u32, y: u32|
            m2.epics.dom().contains(k) && #[trigger] m2.epics[k].stories.contains(y) implies m2.stories.dom().contains(
            y,
        ) by {
            if k == id {
                assert(false);
            } else {
                assert(m.epics[k].stories.contains(y));
            }
        }
        assert forall|k: u32| #[trigger] m2.epics.dom().contains(k) implies seq_no_dup(
            m2.epics[k].stories,
        ) by {
            if k != id {
                assert(m.epics.dom().contains(k));
            }
        }
        assert forall|k1: u32, k2: u32, y: u32|
            m2.epics.dom().contains(k1) && m2.epics.dom().contains(k2) && k1 != k2
                && #[trigger] m2.epics[k1].stories.contains(y) implies !#[trigger] m2.epics[k2].stories.contains(
            y,
        ) by {
            if k1 != id && k2 != id {
                assert(m.epics[k1].stories.contains(y));
            }
        }
    }
}

/// Law: creating a story is rejected with `NotFound` exactly when the owning
/// epic is absent. On success the issued id is the one after the counter and
/// fresh in both maps, the story is filed under it, the owner's list gains it
/// at the end and carries it exactly once, and the snapshot invariant is
/// preserved.
pub proof fn lemma_create_story_law(m: DbModel, s: StoryView, epic_id: u32)
    requires
        store_inv(m),
        m.last_item_id < u32::MAX,
    ensures
        spec_create_story(m, s, epic_id) is Err <==> !m.epics.dom().contains(epic_id),
        spec_create_story(m, s, epic_id) is Err ==> spec_create_story(m, s, epic_id) == Err::<
            (DbModel, u32),
            DbError,
        >(DbError::NotFound),
        spec_create_story(m, s, epic_id) is Ok ==> ({
            let (m2, id) = spec_create_story(m, s, epic_id)->Ok_0;
            &&& id == m.last_item_id + 1
            &&& !m.epics.dom().contains(id) && !m.stories.dom().contains(id)
            &&& m2.last_item_id == id
            &&& m2.stories.dom().contains(id) && m2.stories[id] == s
            &&& m2.epics[epic_id].stories == m.epics[epic_id].stories.push(id)
            &&& count_of(m2.epics[epic_id].stories, id) == 1
            &&& store_inv(m2)
        }),
{
    if m.epics.dom().contains(epic_id) {
        let (m2, id) = spec_create_story(m, s, epic_id)->Ok_0;
        let old_list = m.epics[epic_id].stories;
        let new_list = old_list.push(id);
        assert(!old_list.contains(id));
        lemma_count_of_absent(old_list, id);
        assert(new_list.drop_last() =~= old_list);
        assert(count_of(new_list, id) == 1);
        assert forall|y: u32| #[trigger] new_list.contains(y) implies y == id || old_list.contains(
            y,
        ) by {
            let i = choose|i: int| 0 <= i < new_list.len() && new_list[i] == y;
            if i < old_list.len() {
                assert(old_list[i] == y);
            }
        }
        assert forall|y: u32| #[trigger] old_list.contains(y) implies new_list.contains(y) by {
            let i = choose|i: int| 0 <= i < old_list.len() && old_list[i] == y;
            assert(new_list[i] == y);
        }
        assert(new_list.contains(id)) by {
            assert(new_list[old_list.len() as int] == id);
        }
        assert(refs_valid(m2)) by {
            assert forall|k: u32, y: u32|
                m2.epics.dom().contains(k) && #[trigger] m2.epics[k].stories.contains(y) implies m2.stories.dom().contains(
                y,
            ) by {
                if k == epic_id {
                    if y != id {
                        assert(old_list.contains(y));
                    }
                } else {
                    assert(m.epics[k].stories.contains(y));
                }
            }
        }
        assert(lists_no_dup(m2)) by {
            assert forall|k: u32| #[trigger] m2.epics.dom().contains(k) implies seq_no_dup(
                m2.epics[k].stories,
            ) by {
                if k == epic_id {
                    assert forall|i: int, j: int| 0 <= i < j < new_list.len() implies new_list[i]
                        != new_list[j] by {
                        if j == new_list.len() - 1 {
                            assert(old_list.contains(new_list[i]));
                        } else {
                            assert(seq_no_dup(old_list));
                        }
                    }
                } else {
                    assert(m.epics.dom().contains(k));
                }
            }
        }
        assert(owners_unique(m2)) by {
            assert forall|k1: u32, k2: u32, y: u32|
                m2.epics.dom().contains(k1) && m2.epics.dom().contains(k2) && k1 != k2
                    && #[trigger] m2.epics[k1].stories.contains(y) implies !#[trigger] m2.epics[k2].stories.contains(
                y,
            ) by {
                if m2.epics[k2].stories.contains(y) {
                    if k1 == epic_id {
                        assert(m.epics[k2].stories.contains(y));
                        assert(m.stories.dom().contains(y));
                        assert(y != id);
                        assert(old_list.contains(y));
                        assert(false);
                    } else if k2 == epic_id {
                        assert(m.epics[k1].stories.contains(y));
                        assert(m.stories.dom().contains(y));
                        assert(y != id);
                        assert(old_list.contains(y));
                        assert(false);
                    } else {
                        assert(m.epics[k1].stories.contains(y));
                        assert(m.epics[k2].stories.contains(y));
                        assert(false);
                    }
                }
            }
        }
    }
}

/// Law: deleting an epic is rejected with `NotFound` exactly when the id is
/// absent. On success that id alone leaves the epic map, the story map and
/// the counter are untouched, the removed epic is returned, and the snapshot
/// invariant is preserved.
pub proof fn lemma_delete_epic_law(m: DbModel, id: u32)
    requires
        store_inv(m),
    ensures
        spec_delete_epic(m, id) is Err <==> !m.epics.dom().contains(id),
        spec_delete_epic(m, id) is Err ==> spec_delete_epic(m, id) == Err::<
            (DbModel, EpicView),
            DbError,
        >(DbError::NotFound),
        spec_delete_epic(m, id) is Ok ==> ({
            let (m2, ep) = spec_delete_epic(m, id)->Ok_0;
            &&& !m2.epics.dom().contains(id)
            &&& m2.epics == m.epics.remove(id)
            &&& m2.stories == m.stories
            &&& m2.last_item_id == m.last_item_id
            &&& ep == m.epics[id]
            &&& store_inv(m2)
        }),
{
    if m.epics.dom().contains(id) {
        let (m2, ep) = spec_delete_epic(m, id)->Ok_0;
        assert forall|k: u32, y: u32|
            m2.epics.dom().contains(k) && #[trigger] m2.epics[k].stories.contains(y) implies m2.stories.dom().contains(
            y,
        ) by {
            assert(m.epics[k].stories.contains(y));
        }
        assert forall|k: u32| #[trigger] m2.epics.dom().contains(k) implies seq_no_dup(
            m2.epics[k].stories,
        ) by {
            assert(m.epics.dom().contains(k));
        }
        assert forall|k1: u32, k2: u32, y: u32|
            m2.epics.dom().contains(k1) && m2.epics.dom().contains(k2) && k1 != k2
                && #[trigger] m2.epics[k1].stories.contains(y) implies !#[trigger] m2.epics[k2].stories.contains(
            y,
        ) by {
            assert(m.epics[k1].stories.contains(y));
        }
    }
}

/// Law: deleting a story is rejected with `NotFound` exactly when the owning
/// epic is absent, the story is absent, or the epic does not list it. On
/// success the story is returned and its id is gone from both the story map
/// and the owner's list — no dangling reference is left — and the snapshot
/// invariant is preserved.
pub proof fn lemma_delete_story_law(m: DbModel, epic_id: u32, story_id: u32)
    requires
        store_inv(m),
    ensures
        spec_delete_story(m, epic_id, story_id) is Err <==> (!m.epics.dom().contains(epic_id)
            || !m.stories.dom().contains(story_id) || !m.epics[epic_id].stories.contains(story_id)),
        spec_delete_story(m, epic_id, story_id) is Err ==> spec_delete_story(m, epic_id, story_id)
            == Err::<(DbModel, StoryView), DbError>(DbError::NotFound),
        spec_delete_story(m, epic_id, story_id) is Ok ==> ({
            let (m2, st) = spec_delete_story(m, epic_id, story_id)->Ok_0;
            &&& st == m.stories[story_id]
            &&& !m2.stories.dom().contains(story_id)
            &&& m2.epics.dom() == m.epics.dom()
            &&& !m2.epics[epic_id].stories.contains(story_id)
            &&& m2.last_item_id == m.last_item_id
            &&& store_inv(m2)
        }),
{
    if spec_delete_story(m, epic_id, story_id) is Ok {
        let (m2, st) = spec_delete_story(m, epic_id, story_id)->Ok_0;
        let old_list = m.epics[epic_id].stories;
        let new_list = remove_id(old_list, story_id);
        lemma_remove_id_contains(old_list, story_id, story_id);
        assert(m2.epics.dom() =~= m.epics.dom());
        assert(refs_valid(m2)) by {
            assert forall|k: u32, y: u32|
                m2.epics.dom().contains(k) && #[trigger] m2.epics[k].stories.contains(y) implies m2.stories.dom().contains(
                y,
            ) by {
                if k == epic_id {
                    lemma_remove_id_contains(old_list, story_id, y);
                } else {
                    assert(m.epics[k].stories.contains(y));
                    assert(m.epics[epic_id].stories.contains(story_id));
                    assert(y != story_id);
                }
            }
        }
        assert(lists_no_dup(m2)) by {
            assert forall|k: u32| #[trigger] m2.epics.dom().contains(k) implies seq_no_dup(
                m2.epics[k].stories,
            ) by {
                assert(m.epics.dom().contains(k));
                if k == epic_id {
                    lemma_remove_id_no_dup(old_list, story_id);
                }
            }
        }
        assert(owners_unique(m2)) by {
            assert forall|k1: u32, k2: u32, y: u32|
                m2.epics.dom().contains(k1) && m2.epics.dom().contains(k2) && k1 != k2
                    && #[trigger] m2.epics[k1].stories.contains(y) implies !#[trigger] m2.epics[k2].stories.contains(
                y,
            ) by {
                if m2.epics[k2].stories.contains(y) {
                    if k1 == epic_id || k2 == epic_id {
                        lemma_remove_id_contains(old_list, story_id, y);
                    }
                    assert(m.epics[k1].stories.contains(y));
                    assert(m.epics[k2].stories.contains(y));
                    assert(false);
                }
            }
        }
    }
}

} // verus!
