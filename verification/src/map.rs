//! The table of all tasks in the system, looked up by their IDs, and the
//! generator of fresh IDs.
use vstd::prelude::*;
use std::collections::BTreeMap;
use vstd::std_specs::btree::{spec_keys_iter, increasing_seq};
use vstd::std_specs::iter::IteratorSpec;
use vstd::std_specs::cmp::OrdSpec;
use crate::id::{TaskID, IdGenerator, id_step};
use crate::state::Task;

verus! {

broadcast use {vstd::laws_cmp::group_laws_cmp, vstd::std_specs::btree::group_btree_axioms};

/// Stores every task in the system, under the number of its ID
pub struct TaskMap {
    tasks: BTreeMap<u32, Task>,
    next_id: IdGenerator,
}

impl View for TaskMap {
    type V = Map<TaskID, Task>;

    /// Each task, under its ID
    closed spec fn view(&self) -> Map<TaskID, Task> {
        Map::new(|id: TaskID| self.tasks@.contains_key(id.0), |id: TaskID| self.tasks@[id.0])
    }
}

impl TaskMap {
    pub closed spec fn wf(&self) -> bool {
        forall|k: u32| #[trigger] self.tasks@.contains_key(k) ==> self.tasks@[k].id.0 == k
    }

    /// The ID that the next call of `get_next_task_id` hands out
    pub closed spec fn next_id(&self) -> u32 {
        self.next_id.peek()
    }

    /// Every task is stored under its own ID
    pub proof fn lemma_keys_are_ids(&self)
        requires
            self.wf(),
        ensures
            forall|id: TaskID| #[trigger] self@.contains_key(id) ==> self@[id].id == id,
    {
        assert forall|id: TaskID| #[trigger] self@.contains_key(id) implies self@[id].id == id by {
            assert(self.tasks@.contains_key(id.0));
        }
    }

    pub fn new() -> (r: Self)
        ensures
            r.wf(),
            r@ == Map::<TaskID, Task>::empty(),
            r.next_id() == 1,
    {
        let r = TaskMap { tasks: BTreeMap::new(), next_id: IdGenerator::new() };
        assert(r@ =~= Map::<TaskID, Task>::empty());
        r
    }

    /// Fetch a task by its ID
    pub fn get_task(&self, id: TaskID) -> (r: Option<&Task>)
        requires
            self.wf(),
        ensures
            match r {
                Some(t) => self@.contains_key(id) && self@[id] == *t,
                None => !self@.contains_key(id),
            },
    {
        self.tasks.get(&id.0)
    }

    /// Remove the task from the map, returning it so that it can be
    /// modified or its resources cleaned up
    pub fn take_task(&mut self, id: TaskID) -> (r: Option<Task>)
        requires
            old(self).wf(),
        ensures
            final(self).wf(),
            final(self).next_id() == old(self).next_id(),
            match r {
                Some(t) => old(self)@.contains_key(id) && old(self)@[id] == t && final(self)@ == old(self)@.remove(id),
                None => !old(self)@.contains_key(id) && final(self)@ == old(self)@,
            },
    {
        let r = self.tasks.remove(&id.0);
        proof {
            assert(self@ =~= old(self)@.remove(id)) by {
                assert forall|k: TaskID| self@.contains_key(k) <==> old(self)@.remove(id).contains_key(k) by {
                    if k != id {
                        assert(k.0 != id.0);
                    }
                }
            }
            if r is None {
                assert(self@ =~= old(self)@);
            }
        }
        r
    }

    /// Insert a task under its own ID, replacing any task stored there
    pub fn insert_task(&mut self, task: Task)
        requires
            old(self).wf(),
        ensures
            final(self).wf(),
            final(self).next_id() == old(self).next_id(),
            final(self)@ == old(self)@.insert(task.id, task),
    {
        let id = task.id;
        self.tasks.insert(id.0, task);
        proof {
            assert forall|k: TaskID| self@.contains_key(k) <==> old(self)@.insert(id, task).contains_key(k) by {
                if k != id {
                    assert(k.0 != id.0);
                }
            }
            assert(self@ =~= old(self)@.insert(id, task));
        }
    }

    /// Generate a TaskID for a new Task
    pub fn get_next_task_id(&mut self) -> (r: TaskID)
        requires
            old(self).wf(),
        ensures
            final(self).wf(),
            final(self)@ == old(self)@,
            r.0 == old(self).next_id(),
            final(self).next_id() == id_step(old(self).next_id()),
    {
        self.next_id.next()
    }

    /// The ID of every task in the system, each once, in ascending order
    pub fn task_ids(&self) -> (r: Vec<TaskID>)
        requires
            self.wf(),
        ensures
            forall|i: int, j: int| 0 <= i < j < r@.len() ==> (#[trigger] r@[i]).0 < (#[trigger] r@[j]).0,
            forall|i: int, j: int| 0 <= i < j < r@.len() ==> r@[i] != r@[j],
            forall|id: TaskID| self@.contains_key(id) <==> r@.contains(id),
    {
        let mut ids: Vec<TaskID> = Vec::new();
        let ghost keys = spec_keys_iter(&self.tasks).remaining();
        for k in it: self.tasks.keys()
            invariant
                it.seq() == keys,
                keys.unref().to_set() == self.tasks@.dom(),
                increasing_seq(keys),
                ids@.len() == it.index(),
                forall|a: int| 0 <= a < it.index() ==> (#[trigger] ids@[a]).0 == *keys[a],
        {
            ids.push(TaskID(*k));
        }
        proof {
            assert(ids@.len() == keys.len());
            assert(vstd::laws_cmp::obeys_cmp::<u32>());
            assert(vstd::laws_cmp::obeys_cmp::<&u32>());
            assert forall|a: int, b: int| 0 <= a < b < ids@.len() implies (#[trigger] ids@[a]).0 < (#[trigger] ids@[b]).0 by {
                assert(OrdSpec::cmp_spec(&keys[a], &keys[b]) is Less);
                assert(*keys[a] < *keys[b]);
            }
            assert forall|id: TaskID| self@.contains_key(id) <==> ids@.contains(id) by {
                if self@.contains_key(id) {
                    assert(keys.unref().to_set().contains(id.0));
                    let a = choose|a: int| 0 <= a < keys.unref().len() && keys.unref()[a] == id.0;
                    assert(ids@[a].0 == id.0);
                    assert(ids@[a] == id);
                }
                if ids@.contains(id) {
                    let a = choose|a: int| 0 <= a < ids@.len() && ids@[a] == id;
                    assert(keys.unref()[a] == id.0);
                    assert(keys.unref().to_set().contains(id.0));
                }
            }
        }
        ids
    }

    /// The ID of every task in the system, each once, in ascending order
    pub fn for_each_task_id(&self) -> (r: Vec<TaskID>)
        requires
            self.wf(),
        ensures
            forall|i: int, j: int| 0 <= i < j < r@.len() ==> (#[trigger] r@[i]).0 < (#[trigger] r@[j]).0,
            forall|id: TaskID| self@.contains_key(id) <==> r@.contains(id),
    {
        self.task_ids()
    }
}

} // verus!
