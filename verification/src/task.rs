use vstd::prelude::*;

use crate::name_map::NameMap;

verus! {

/// The set of statuses that a configuration holds (or that a task needs).
#[derive(Debug, Clone)]
pub struct Configuration {
    pub statuses: Vec<String>,
}

impl Configuration {
    /// The statuses as mathematical strings.
    pub open spec fn status_seq(&self) -> Seq<Seq<char>> {
        self.statuses@.map_values(|s: String| s@)
    }
}

/// A unit of work to be placed on the calendars.
#[derive(Debug, Clone)]
pub struct Task {
    pub task_id: String,
    pub priority: u32,
    pub earliest_start_interval: u32,
    pub predecessors: Option<Vec<String>>,
    pub resource_needs: Option<NameMap<u16>>,
    pub configuration: Option<Configuration>,
    pub du: u32,
    pub scheduled: bool,
    pub start_interval: Option<u32>,
    pub complete_interval: Option<u32>,
}

impl Task {
    /// The resource needs, if present, are a well-formed map.
    pub open spec fn wf(&self) -> bool {
        self.resource_needs matches Some(needs) ==> needs.wf()
    }

    /// The first interval at which a search that starts at `starting_interval`
    /// may place the task.
    pub open spec fn search_start(&self, starting_interval: u32) -> u32 {
        if starting_interval > self.earliest_start_interval {
            starting_interval
        } else {
            self.earliest_start_interval
        }
    }
}

#[verifier::external_type_specification]
#[verifier::external_body]
#[verifier::reject_recursive_types(T)]
pub struct ExIterMut<'a, T: 'a>(std::slice::IterMut<'a, T>);

/// The tasks that a mutable task iterator lends, in order, as they stood
/// when the iterator was made.
pub uninterp spec fn lent_tasks(it: std::slice::IterMut<'_, Task>) -> Seq<Task>;

/// Calls `<[T]>::iter_mut` of std on the tasks. Its documentation says that
/// the iterator lends a mutable reference to each element of the slice, from
/// first to last; the contract states that the iterator lends the tasks as
/// they are at the call, in order, and that the vector keeps its length (an
/// `IterMut` lends elements, it cannot add or remove any). What the caller
/// writes through the references is not stated.
#[verifier::external_body]
fn lend_tasks(tasks: &mut Vec<Task>) -> (it: std::slice::IterMut<'_, Task>)
    ensures
        lent_tasks(it) == old(tasks)@,
        final(tasks)@.len() == old(tasks)@.len(),
{
    tasks.iter_mut()
}

/// The tasks in the order in which they were added, with an index from task
/// id to position.
pub struct TaskList {
    pub sequential_tasks: Vec<Task>,
    pub task_map: NameMap<usize>,
}

impl TaskList {
    /// The index finds every task by its id: each id maps to a position that
    /// holds a task with that id, and every task's id is mapped.
    pub open spec fn index_consistent(&self) -> bool {
        &&& self.task_map.wf()
        &&& forall|k: Seq<char>|
            #[trigger] self.task_map@.contains_key(k) ==> {
                &&& self.task_map@[k] < self.sequential_tasks@.len()
                &&& self.sequential_tasks@[self.task_map@[k] as int].task_id@ == k
            }
        &&& forall|i: int|
            0 <= i < self.sequential_tasks@.len() ==> self.task_map@.contains_key(
                #[trigger] self.sequential_tasks@[i].task_id@,
            )
    }

    /// An iterator over the tasks, in the order in which they were added.
    pub fn iter(&self) -> (it: std::slice::Iter<'_, Task>)
        ensures
            vstd::std_specs::slice::into_iter_elts(it) == self.sequential_tasks@,
    {
        let it = self.sequential_tasks.as_slice().iter();
        proof {
            assert(self.sequential_tasks@.as_ref().unref() =~= self.sequential_tasks@);
        }
        it
    }

    /// An iterator that lends each task mutably, in the order in which they
    /// were added.
    pub fn iter_mut(&mut self) -> (it: std::slice::IterMut<'_, Task>)
        ensures
            lent_tasks(it) == old(self).sequential_tasks@,
            final(self).sequential_tasks@.len() == old(self).sequential_tasks@.len(),
            final(self).task_map == old(self).task_map,
    {
        lend_tasks(&mut self.sequential_tasks)
    }

    /// Appends `task` and indexes it by its id; a later task with the same id
    /// takes over the id.
    pub fn add_task(&mut self, task: Task)
        requires
            old(self).task_map.wf(),
        ensures
            final(self).task_map.wf(),
            final(self).sequential_tasks@ == old(self).sequential_tasks@.push(task),
            final(self).task_map@ == old(self).task_map@.insert(
                task.task_id@,
                old(self).sequential_tasks@.len() as usize,
            ),
            old(self).index_consistent() ==> final(self).index_consistent(),
    {
        self.task_map.insert(task.task_id.clone(), self.sequential_tasks.len());
        self.sequential_tasks.push(task);
    }
}

} // verus!
