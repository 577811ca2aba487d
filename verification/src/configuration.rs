use vstd::prelude::*;

use crate::constraint::ConstraintManager;
use crate::status::{statuses_compatible, StatusRelationChart};
use crate::task::{Configuration, Task};

verus! {

/// The configuration calendar: the statuses held in each interval, and the
/// chart that says which statuses may hold together.
pub struct ConfigurationManager {
    pub config_intervals: Vec<Configuration>,
    pub status_relations: StatusRelationChart,
}

/// `current` after each status of `added`, in order, is appended unless it
/// is already there.
pub open spec fn with_statuses(current: Seq<Seq<char>>, added: Seq<Seq<char>>) -> Seq<Seq<char>>
    decreases added.len(),
{
    if added.len() == 0 {
        current
    } else {
        let before = with_statuses(current, added.drop_last());
        if before.contains(added.last()) {
            before
        } else {
            before.push(added.last())
        }
    }
}

/// Scheduling keeps what an interval held, in place, and afterwards the
/// interval holds every status of the task.
pub proof fn law_schedule_keeps_and_adds(current: Seq<Seq<char>>, added: Seq<Seq<char>>)
    ensures
        with_statuses(current, added).len() >= current.len(),
        with_statuses(current, added).take(current.len() as int) == current,
        forall|i: int| 0 <= i < added.len() ==> with_statuses(current, added).contains(#[trigger] added[i]),
    decreases added.len(),
{
    if added.len() > 0 {
        let rest = added.drop_last();
        law_schedule_keeps_and_adds(current, rest);
        let before = with_statuses(current, rest);
        let after = with_statuses(current, added);
        if !before.contains(added.last()) {
            assert(after.take(current.len() as int) =~= before.take(current.len() as int));
            assert(after[before.len() as int] == added.last());
        }
        assert forall|i: int| 0 <= i < added.len() implies after.contains(#[trigger] added[i]) by {
            if i < added.len() - 1 {
                assert(added[i] == rest[i]);
                let k = choose|k: int| 0 <= k < before.len() && before[k] == rest[i];
                assert(after[k] == added[i]);
            }
        }
    }
}

/// Adding statuses that are all present already changes nothing.
proof fn lemma_with_statuses_present(current: Seq<Seq<char>>, added: Seq<Seq<char>>)
    requires
        forall|i: int| 0 <= i < added.len() ==> current.contains(#[trigger] added[i]),
    ensures
        with_statuses(current, added) == current,
    decreases added.len(),
{
    if added.len() > 0 {
        let rest = added.drop_last();
        assert forall|i: int| 0 <= i < rest.len() implies current.contains(#[trigger] rest[i]) by {
            assert(rest[i] == added[i]);
        }
        lemma_with_statuses_present(current, rest);
        assert(current.contains(added[added.len() - 1]));
    }
}

/// Scheduling a task's statuses a second time on the same intervals changes
/// nothing.
pub proof fn law_schedule_idempotent(current: Seq<Seq<char>>, added: Seq<Seq<char>>)
    ensures
        with_statuses(with_statuses(current, added), added) == with_statuses(current, added),
{
    law_schedule_keeps_and_adds(current, added);
    lemma_with_statuses_present(with_statuses(current, added), added);
}

/// Scheduling never puts a status twice into an interval that held none twice.
pub proof fn law_schedule_no_duplicates(current: Seq<Seq<char>>, added: Seq<Seq<char>>)
    requires
        current.no_duplicates(),
    ensures
        with_statuses(current, added).no_duplicates(),
    decreases added.len(),
{
    if added.len() > 0 {
        law_schedule_no_duplicates(current, added.drop_last());
        let before = with_statuses(current, added.drop_last());
        if !before.contains(added.last()) {
            let after = before.push(added.last());
            assert forall|i: int, j: int| 0 <= i < after.len() && 0 <= j < after.len() && i != j implies after[i]
                != after[j] by {
                if i == before.len() && j < before.len() {
                    assert(before[j] != added.last());
                } else if j == before.len() && i < before.len() {
                    assert(before[i] != added.last());
                }
            }
        }
    }
}

/// Whether `status` is one of `statuses`.
fn contains_status(statuses: &Vec<String>, status: &String) -> (r: bool)
    ensures
        r == statuses@.map_values(|s: String| s@).contains(status@),
{
    let ghost seen = statuses@.map_values(|s: String| s@);
    let mut i: usize = 0;
    while i < statuses.len()
        invariant
            seen == statuses@.map_values(|s: String| s@),
            i <= statuses@.len(),
            forall|j: int| 0 <= j < i ==> seen[j] != status@,
        decreases statuses@.len() - i,
    {
        if statuses[i] == *status {
            assert(seen[i as int] == status@);
            return true;
        }
        i += 1;
    }
    false
}

impl ConfigurationManager {
    /// The intervals `j .. j + du` all exist and each holds statuses that are
    /// compatible with `wanted`.
    pub open spec fn window_compatible(&self, wanted: Configuration, j: int, du: int) -> bool {
        &&& du > 0
        &&& 0 <= j
        &&& j + du <= self.config_intervals@.len()
        &&& forall|k: int|
            j <= k < j + du ==> statuses_compatible(
                self.status_relations@,
                #[trigger] self.config_intervals@[k].status_seq(),
                wanted.status_seq(),
            )
    }
}

impl ConstraintManager for ConfigurationManager {
    /// `r` is what a search for `task` from `starting_interval` finds: with no
    /// configuration, where the search begins; otherwise the first interval
    /// from there that starts a compatible window of the task's duration, or
    /// `None` if there is none.
    open spec fn is_first_fit(&self, task: Task, starting_interval: u32, r: Option<u32>) -> bool {
        let i0 = task.search_start(starting_interval);
        match task.configuration {
            None => r == Some(i0),
            Some(wanted) => match r {
                Some(j) => {
                    &&& i0 <= j
                    &&& self.window_compatible(wanted, j as int, task.du as int)
                    &&& forall|k: int| i0 <= k < j ==> !self.window_compatible(wanted, k, task.du as int)
                },
                None => forall|k: int| i0 <= k ==> !self.window_compatible(wanted, k, task.du as int),
            },
        }
    }

    /// A task with a configuration is searched for on a well-formed chart,
    /// in a calendar whose positions fit in an `i32`, from a start the
    /// calendar reaches; a task without one can be searched for anywhere.
    open spec fn can_search(&self, task: Task, starting_interval: u32) -> bool {
        task.configuration is Some ==> {
            &&& self.status_relations.wf()
            &&& self.config_intervals@.len() <= i32::MAX
            &&& task.search_start(starting_interval) <= self.config_intervals@.len()
        }
    }

    /// Whether the statuses of `task` can be added to the intervals
    /// `interval .. interval + du`: they exist and are numbered within `u32`.
    open spec fn can_schedule(&self, task: Task, interval: u32) -> bool {
        task.configuration matches Some(wanted) && wanted.statuses@.len() > 0 && task.du > 0 ==> {
            &&& interval + task.du <= self.config_intervals@.len()
            &&& interval + task.du <= u32::MAX + 1
        }
    }

    /// The chart is untouched, the calendar keeps its length, and each
    /// interval of the task holds the task's statuses after its own.
    open spec fn is_scheduled_from(&self, before: Self, task: Task, interval: u32) -> bool {
        &&& self.status_relations == before.status_relations
        &&& self.config_intervals@.len() == before.config_intervals@.len()
        &&& forall|k: int|
            0 <= k < before.config_intervals@.len() ==> #[trigger] self.config_intervals@[k].status_seq()
                == if task.configuration is Some && interval <= k < interval + task.du {
                with_statuses(
                    before.config_intervals@[k].status_seq(),
                    task.configuration->0.status_seq(),
                )
            } else {
                before.config_intervals@[k].status_seq()
            }
    }

    /// Adds the task's statuses to each of the intervals
    /// `interval .. interval + du`; a status an interval already holds is not
    /// added again.
    fn schedule(&mut self, task: &Task, interval: u32) {
        let task_config = match &task.configuration {
            Some(task_config) => task_config,
            None => {
                return;
            },
        };
        let ghost wanted = task_config.status_seq();
        let ghost before = self.config_intervals@;
        let mut i: u32 = 0;
        while i < task.du
            invariant
                old(self).can_schedule(*task, interval),
                task.configuration == Some(*task_config),
                wanted == task_config.status_seq(),
                before == old(self).config_intervals@,
                self.status_relations == old(self).status_relations,
                self.config_intervals@.len() == before.len(),
                i <= task.du,
                forall|k: int|
                    0 <= k < before.len() ==> #[trigger] self.config_intervals@[k].status_seq()
                        == if interval <= k < interval + i {
                        with_statuses(before[k].status_seq(), wanted)
                    } else {
                        before[k].status_seq()
                    },
            decreases task.du - i,
        {
            let mut j: usize = 0;
            while j < task_config.statuses.len()
                invariant
                    old(self).can_schedule(*task, interval),
                    task.configuration == Some(*task_config),
                    wanted == task_config.status_seq(),
                    before == old(self).config_intervals@,
                    self.status_relations == old(self).status_relations,
                    self.config_intervals@.len() == before.len(),
                    i < task.du,
                    j <= wanted.len(),
                    j > 0 ==> interval + i < before.len(),
                    forall|k: int|
                        0 <= k < before.len() && k != interval + i ==> #[trigger] self.config_intervals@[k].status_seq()
                            == if interval <= k < interval + i {
                            with_statuses(before[k].status_seq(), wanted)
                        } else {
                            before[k].status_seq()
                        },
                    interval + i < before.len() ==> self.config_intervals@[interval + i].status_seq()
                        == with_statuses(before[interval + i].status_seq(), wanted.take(j as int)),
                decreases wanted.len() - j,
            {
                let status = &task_config.statuses[j];
                let idx = (interval + i) as usize;
                let ghost current = self.config_intervals@[idx as int].status_seq();
                proof {
                    assert(wanted.take(j + 1).drop_last() =~= wanted.take(j as int));
                    assert(wanted.take(j + 1).last() == status@);
                }
                if !contains_status(&self.config_intervals[idx].statuses, status) {
                    self.config_intervals[idx].statuses.push(status.clone());
                    proof {
                        assert(self.config_intervals@[idx as int].status_seq() =~= current.push(status@));
                    }
                }
                j += 1;
            }
            proof {
                assert(wanted.take(wanted.len() as int) =~= wanted);
                if wanted.len() == 0 {
                    assert forall|k: int| 0 <= k < before.len() implies #[trigger] self.config_intervals@[k].status_seq()
                        == if interval <= k < interval + i + 1 {
                        with_statuses(before[k].status_seq(), wanted)
                    } else {
                        before[k].status_seq()
                    } by {}
                }
            }
            i += 1;
        }
    }

    /// The first interval, no earlier than `starting_interval` and the task's
    /// earliest start, from which the task's duration is spent in intervals
    /// whose statuses are all compatible with the task's configuration.
    fn get_first_fit(&self, task: &Task, starting_interval: u32) -> (r: Option<u32>) {
        let search_start: u32 = if starting_interval > task.earliest_start_interval {
            starting_interval
        } else {
            task.earliest_start_interval
        };
        let task_config = match &task.configuration {
            Some(task_config) => task_config,
            None => {
                return Some(search_start);
            },
        };
        let start = search_start as usize;
        let n: usize = self.config_intervals.len() - start;
        let du = task.du;

        let mut last_incompat: i32 = -1;
        let mut last_compat: i32 = -1;
        let mut i: usize = 0;
        while i < n
            invariant
                self.status_relations.wf(),
                task.configuration == Some(*task_config),
                du == task.du,
                start == search_start,
                search_start == task.search_start(starting_interval),
                n + start == self.config_intervals@.len(),
                self.config_intervals@.len() <= i32::MAX,
                i <= n,
                -1 <= last_incompat < i,
                last_compat < i,
                last_incompat >= 0 ==> !statuses_compatible(
                    self.status_relations@,
                    self.config_intervals@[start + last_incompat].status_seq(),
                    task_config.status_seq(),
                ),
                forall|k: int|
                    start + last_incompat < k < start + i ==> statuses_compatible(
                        self.status_relations@,
                        #[trigger] self.config_intervals@[k].status_seq(),
                        task_config.status_seq(),
                    ),
                du > 0 ==> i - 1 - last_incompat < du,
                forall|j: int|
                    start <= j && j + du <= start + i ==> !self.window_compatible(*task_config, j, du as int),
            decreases n - i,
        {
            let interval = &self.config_intervals[start + i];
            if !self.status_relations.get_config_compatibility(interval, task_config) {
                last_incompat = i as i32;
                proof {
                    assert forall|j: int|
                        start <= j && j + du <= start + i + 1 implies !self.window_compatible(
                            *task_config,
                            j,
                            du as int,
                        ) by {
                        if j + du == start + i + 1 && du > 0 {
                            let k = start + i;
                            assert(!statuses_compatible(
                                self.status_relations@,
                                self.config_intervals@[k].status_seq(),
                                task_config.status_seq(),
                            ));
                        }
                    }
                }
                i += 1;
                continue;
            }
            last_compat = i as i32;
            if last_incompat < last_compat && (last_compat - last_incompat) as u32 == du {
                let found = (search_start as i32 + last_incompat + 1) as u32;
                proof {
                    assert(self.window_compatible(*task_config, found as int, du as int));
                }
                return Some(found);
            }
            proof {
                assert forall|j: int|
                    start <= j && j + du <= start + i + 1 implies !self.window_compatible(
                        *task_config,
                        j,
                        du as int,
                    ) by {
                    if j + du == start + i + 1 && du > 0 {
                        let k = start + last_incompat;
                        assert(j <= k);
                        assert(!statuses_compatible(
                            self.status_relations@,
                            self.config_intervals@[k].status_seq(),
                            task_config.status_seq(),
                        ));
                    }
                }
            }
            i += 1;
        }
        None
    }
}

/// Once a task is booked on the configuration calendar, a task with a status
/// that the chart records as incompatible with one of the booked task's
/// statuses is never placed on an interval the booked task occupies.
pub proof fn law_incompatible_kept_out(
    before: ConfigurationManager,
    after: ConfigurationManager,
    booked: Task,
    slot: u32,
    other: Task,
    starting_interval: u32,
    found: u32,
    booked_status: Seq<char>,
    other_status: Seq<char>,
)
    requires
        after.is_scheduled_from(before, booked, slot),
        booked.configuration is Some,
        booked.du >= 1,
        slot + booked.du <= before.config_intervals@.len(),
        other.configuration is Some,
        booked.configuration->0.status_seq().contains(booked_status),
        other.configuration->0.status_seq().contains(other_status),
        after.status_relations@.get((booked_status, other_status)) == Some(false),
        after.is_first_fit(other, starting_interval, Some(found)),
    ensures
        found + other.du <= slot || slot + booked.du <= found,
{
    if !(found + other.du <= slot || slot + booked.du <= found) {
        let k = if found >= slot { found as int } else { slot as int };
        let ca = booked.configuration->0.status_seq();
        let cb = other.configuration->0.status_seq();
        let held = after.config_intervals@[k].status_seq();
        assert(slot <= k < slot + booked.du);
        assert(0 <= k < before.config_intervals@.len());
        assert(held == with_statuses(before.config_intervals@[k].status_seq(), ca));
        law_schedule_keeps_and_adds(before.config_intervals@[k].status_seq(), ca);
        let i = choose|i: int| 0 <= i < ca.len() && ca[i] == booked_status;
        assert(with_statuses(before.config_intervals@[k].status_seq(), ca).contains(ca[i]));
        assert(held.contains(ca[i]));
        let hi = choose|hi: int| 0 <= hi < held.len() && held[hi] == booked_status;
        let j = choose|j: int| 0 <= j < cb.len() && cb[j] == other_status;
        assert(statuses_compatible(after.status_relations@, held, cb));
        assert(after.status_relations@.get((held[hi], cb[j])) != Some(false));
    }
}

/// Booking the same task twice on the same intervals leaves every interval
/// holding what it held after the first booking.
pub proof fn law_schedule_twice_same(
    before: ConfigurationManager,
    once: ConfigurationManager,
    twice: ConfigurationManager,
    task: Task,
    interval: u32,
)
    requires
        once.is_scheduled_from(before, task, interval),
        twice.is_scheduled_from(once, task, interval),
    ensures
        twice.status_relations == once.status_relations,
        twice.config_intervals@.len() == once.config_intervals@.len(),
        forall|k: int|
            0 <= k < once.config_intervals@.len() ==> #[trigger] twice.config_intervals@[k].status_seq()
                == once.config_intervals@[k].status_seq(),
{
    assert forall|k: int| 0 <= k < once.config_intervals@.len() implies #[trigger] twice.config_intervals@[
        k
    ].status_seq() == once.config_intervals@[k].status_seq() by {
        if task.configuration is Some && interval <= k < interval + task.du {
            law_schedule_idempotent(
                before.config_intervals@[k].status_seq(),
                task.configuration->0.status_seq(),
            );
        }
    }
}

/// Booking never puts a status twice into an interval: a calendar whose
/// intervals hold no status twice keeps that property.
pub proof fn law_schedule_keeps_statuses_distinct(
    before: ConfigurationManager,
    after: ConfigurationManager,
    task: Task,
    interval: u32,
)
    requires
        forall|k: int|
            0 <= k < before.config_intervals@.len() ==> (#[trigger] before.config_intervals@[k]).status_seq().no_duplicates(),
        after.is_scheduled_from(before, task, interval),
    ensures
        forall|k: int|
            0 <= k < after.config_intervals@.len() ==> (#[trigger] after.config_intervals@[k]).status_seq().no_duplicates(),
{
    assert forall|k: int| 0 <= k < after.config_intervals@.len() implies (#[trigger] after.config_intervals@[
        k
    ]).status_seq().no_duplicates() by {
        assert(before.config_intervals@[k].status_seq().no_duplicates());
        if task.configuration is Some && interval <= k < interval + task.du {
            law_schedule_no_duplicates(
                before.config_intervals@[k].status_seq(),
                task.configuration->0.status_seq(),
            );
        }
    }
}

/// A slot that the search finds can be scheduled.
pub proof fn law_found_slot_schedulable(
    m: ConfigurationManager,
    task: Task,
    starting_interval: u32,
    slot: u32,
)
    requires
        m.can_search(task, starting_interval),
        m.is_first_fit(task, starting_interval, Some(slot)),
    ensures
        m.can_schedule(task, slot),
{
}

/// A slot that the search finds is found again by a search that starts at it.
pub proof fn law_first_fit_stable(m: ConfigurationManager, task: Task, starting_interval: u32, slot: u32)
    requires
        m.is_first_fit(task, starting_interval, Some(slot)),
    ensures
        m.is_first_fit(task, slot, Some(slot)),
{
}

/// Starting the search later never finds an earlier slot, and never finds a
/// slot where the earlier search found none.
pub proof fn law_first_fit_monotone(
    m: ConfigurationManager,
    task: Task,
    s1: u32,
    s2: u32,
    r1: Option<u32>,
    r2: Option<u32>,
)
    requires
        s1 <= s2,
        m.is_first_fit(task, s1, r1),
        m.is_first_fit(task, s2, r2),
    ensures
        r1 is None ==> r2 is None,
        r1 is Some && r2 is Some ==> r1->0 <= r2->0,
{
}

} // verus!
