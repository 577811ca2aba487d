use vstd::prelude::*;

use crate::name_map::{lemma_keys_distinct, lemma_view_update, NameMap};
use crate::constraint::ConstraintManager;
use crate::task::Task;

verus! {

/// The availability of one resource: how many units are free in each
/// interval, and the first interval at which it may be used at all.
#[derive(Debug, Clone)]
pub struct ResourceIntervals {
    pub first_available_interval: u32,
    pub intervals: Vec<u16>,
}

/// `du` consecutive intervals starting at `j` all offer at least `quantity`.
pub open spec fn window_fits(iv: Seq<u16>, quantity: u16, j: int, du: int) -> bool {
    &&& du > 0
    &&& 0 <= j
    &&& j + du <= iv.len()
    &&& forall|k: int| j <= k < j + du ==> iv[k] >= quantity
}

/// Availability after `quantity` units are taken from each of the intervals
/// `interval .. interval + du` that exist.
pub open spec fn deducted(iv: Seq<u16>, interval: int, du: int, quantity: u16) -> Seq<u16> {
    Seq::new(
        iv.len(),
        |k: int|
            if interval <= k < interval + du {
                (iv[k] - quantity) as u16
            } else {
                iv[k]
            },
    )
}

/// Taking `quantity` units from the intervals `interval .. interval + du`
/// stays within the `u32` interval numbers and leaves no count below zero.
pub open spec fn can_deduct(iv: Seq<u16>, interval: int, du: int, quantity: u16) -> bool {
    &&& interval + du <= u32::MAX
    &&& forall|k: int| interval <= k < interval + du && k < iv.len() ==> iv[k] >= quantity
}

impl ResourceIntervals {
    /// Where a search from `starting_interval` begins: never before the
    /// first available interval.
    pub open spec fn search_from(&self, starting_interval: u32) -> int {
        if starting_interval > self.first_available_interval {
            starting_interval as int
        } else {
            self.first_available_interval as int
        }
    }

    /// `r` is the first interval, from where the search begins, at which `du`
    /// consecutive intervals each offer at least `quantity` units, or `None`
    /// when there is none.
    pub open spec fn is_first_window(&self, quantity: u16, starting_interval: u32, du: u32, r: Option<u32>) -> bool {
        match r {
            Some(j) => {
                &&& self.search_from(starting_interval) <= j
                &&& window_fits(self.intervals@, quantity, j as int, du as int)
                &&& forall|k: int|
                    self.search_from(starting_interval) <= k < j ==> !window_fits(
                        self.intervals@,
                        quantity,
                        k,
                        du as int,
                    )
            },
            None => forall|k: int|
                self.search_from(starting_interval) <= k ==> !window_fits(
                    self.intervals@,
                    quantity,
                    k,
                    du as int,
                ),
        }
    }

    /// The first interval, from where the search begins, at which `du`
    /// consecutive intervals each offer at least `quantity` units; `None` when
    /// there is none (always when `du` is zero).
    pub fn get_first_interval(&self, quantity: u16, starting_interval: u32, du: u32) -> (r: Option<u32>)
        requires
            self.search_from(starting_interval) <= self.intervals@.len(),
            self.intervals@.len() <= i32::MAX,
        ensures
            self.is_first_window(quantity, starting_interval, du, r),
    {
        let start: usize = if starting_interval > self.first_available_interval {
            starting_interval as usize
        } else {
            self.first_available_interval as usize
        };
        let n: usize = self.intervals.len() - start;
        let ghost iv = self.intervals@;

        let mut last_incompat: i32 = -1;
        let mut last_compat: i32 = -1;
        let mut i: usize = 0;
        while i < n
            invariant
                start == self.search_from(starting_interval),
                iv == self.intervals@,
                n + start == iv.len(),
                iv.len() <= i32::MAX,
                i <= n,
                -1 <= last_incompat < i,
                last_incompat >= 0 ==> iv[start + last_incompat] < quantity,
                last_compat < i,
                forall|k: int| start + last_incompat < k < start + i ==> iv[k] >= quantity,
                du > 0 ==> i - 1 - last_incompat < du,
                forall|j: int|
                    start <= j && j + du <= start + i ==> !window_fits(iv, quantity, j, du as int),
            decreases n - i,
        {
            let available = self.intervals[start + i];
            if available < quantity {
                last_incompat = i as i32;
                proof {
                    assert forall|j: int|
                        start <= j && j + du <= start + i + 1 implies !window_fits(
                            iv,
                            quantity,
                            j,
                            du as int,
                        ) by {
                        if j + du == start + i + 1 && du > 0 {
                            assert(iv[start + i] < quantity);
                        }
                    }
                }
                i += 1;
                continue;
            }
            last_compat = i as i32;
            if last_incompat < last_compat && (last_compat - last_incompat) as u32 == du {
                let found = (last_incompat + start as i32 + 1) as u32;
                proof {
                    assert(window_fits(iv, quantity, found as int, du as int));
                }
                return Some(found);
            }
            proof {
                assert forall|j: int|
                    start <= j && j + du <= start + i + 1 implies !window_fits(
                        iv,
                        quantity,
                        j,
                        du as int,
                    ) by {
                    if j + du == start + i + 1 && du > 0 {
                        assert(j <= start + last_incompat);
                        assert(iv[start + last_incompat] < quantity);
                    }
                }
            }
            i += 1;
        }
        None
    }

    /// Takes `quantity` units from each of the intervals
    /// `interval .. interval + du` that exist.
    pub fn deduct(&mut self, interval: u32, du: u32, quantity: u16)
        requires
            can_deduct(old(self).intervals@, interval as int, du as int, quantity),
        ensures
            final(self).first_available_interval == old(self).first_available_interval,
            final(self).intervals@ == deducted(old(self).intervals@, interval as int, du as int, quantity),
    {
        let ghost iv = self.intervals@;
        let end: u32 = interval + du;
        let mut i: u32 = interval;
        while i < end
            invariant
                interval <= i <= end,
                end == interval + du,
                self.first_available_interval == old(self).first_available_interval,
                iv == old(self).intervals@,
                can_deduct(iv, interval as int, du as int, quantity),
                self.intervals@.len() == iv.len(),
                forall|k: int|
                    0 <= k < iv.len() ==> #[trigger] self.intervals@[k] == if interval <= k < i {
                        (iv[k] - quantity) as u16
                    } else {
                        iv[k]
                    },
            decreases end - i,
        {
            if i as usize >= self.intervals.len() {
                assert(self.intervals@ =~= deducted(iv, interval as int, du as int, quantity));
                return;
            }
            let interval_quantity = self.intervals[i as usize];
            self.intervals[i as usize] = interval_quantity - quantity;
            i += 1;
        }
        assert(self.intervals@ =~= deducted(iv, interval as int, du as int, quantity));
    }
}

/// Asking for fewer units never finds a later window: where the search for
/// `more` units finds a window, the search for `fewer` finds one no later.
pub proof fn law_first_window_quantity_monotone(
    r: ResourceIntervals,
    fewer: u16,
    more: u16,
    starting_interval: u32,
    du: u32,
    found_fewer: Option<u32>,
    found_more: Option<u32>,
)
    requires
        fewer <= more,
        r.is_first_window(fewer, starting_interval, du, found_fewer),
        r.is_first_window(more, starting_interval, du, found_more),
    ensures
        found_more is Some ==> found_fewer is Some && found_fewer->0 <= found_more->0,
{
    if let Some(t) = found_more {
        assert(window_fits(r.intervals@, fewer, t as int, du as int));
    }
}

/// Taking the quantity from a window that the search found never runs a
/// count below zero, and changes exactly the intervals of that window, each
/// by the quantity.
pub proof fn law_deduct_found_window(
    r: ResourceIntervals,
    quantity: u16,
    starting_interval: u32,
    du: u32,
    slot: u32,
)
    requires
        r.intervals@.len() <= i32::MAX,
        r.is_first_window(quantity, starting_interval, du, Some(slot)),
    ensures
        can_deduct(r.intervals@, slot as int, du as int, quantity),
        deducted(r.intervals@, slot as int, du as int, quantity).len() == r.intervals@.len(),
        forall|k: int|
            slot <= k < slot + du ==> #[trigger] deducted(r.intervals@, slot as int, du as int, quantity)[k]
                == r.intervals@[k] - quantity,
        forall|k: int|
            0 <= k < r.intervals@.len() && !(slot <= k < slot + du) ==> #[trigger] deducted(
                r.intervals@,
                slot as int,
                du as int,
                quantity,
            )[k] == r.intervals@[k],
{
}

/// The resource calendars: one availability record per resource, each
/// covering the intervals `0 ..= max_interval`.
#[derive(Debug)]
pub struct ResourceManager {
    pub calendar: NameMap<ResourceIntervals>,
    pub max_interval: u32,
}

/// The number of leading names of `keys` that `dom` holds.
pub open spec fn leading_present(keys: Seq<Seq<char>>, dom: Set<Seq<char>>) -> nat
    decreases keys.len(),
{
    if keys.len() == 0 {
        0
    } else if dom.contains(keys[0]) {
        1 + leading_present(keys.drop_first(), dom)
    } else {
        0
    }
}

/// `leading_present` counts the names before the first one that is missing.
pub proof fn lemma_leading_present(keys: Seq<Seq<char>>, dom: Set<Seq<char>>)
    ensures
        leading_present(keys, dom) <= keys.len(),
        forall|j: int| 0 <= j < leading_present(keys, dom) ==> dom.contains(#[trigger] keys[j]),
        leading_present(keys, dom) < keys.len() ==> !dom.contains(keys[leading_present(keys, dom) as int]),
    decreases keys.len(),
{
    if keys.len() > 0 && dom.contains(keys[0]) {
        lemma_leading_present(keys.drop_first(), dom);
        assert forall|j: int| 0 <= j < leading_present(keys, dom) implies dom.contains(#[trigger] keys[j]) by {
            if j > 0 {
                assert(keys[j] == keys.drop_first()[j - 1]);
            }
        }
    }
}

/// The resources booked for a task are exactly its first `n` needs, when `n`
/// counts the needs before the first one that the calendar lacks.
pub proof fn lemma_booked_prefix(m: ResourceManager, task: Task, needs: NameMap<u16>, n: int)
    requires
        task.resource_needs == Some(needs),
        n == leading_present(needs.key_seq(), m.calendar@.dom()),
    ensures
        forall|r: Seq<char>|
            #[trigger] m.booked(task, r) == exists|jj: int| 0 <= jj < n && needs.key_seq()[jj] == r,
{
}

impl ResourceManager {
    /// Every resource has one availability figure per interval
    /// `0 ..= max_interval` and becomes available within that range.
    pub open spec fn wf(&self) -> bool {
        &&& self.calendar.wf()
        &&& self.max_interval < i32::MAX
        &&& forall|r: Seq<char>|
            #[trigger] self.calendar@.contains_key(r) ==> {
                &&& self.calendar@[r].intervals@.len() == self.max_interval + 1
                &&& self.calendar@[r].first_available_interval <= self.max_interval + 1
            }
    }

    /// Every needed resource is in the calendar, available from `i` on, and
    /// offers its quantity in each of the `du` intervals starting at `i`.
    pub open spec fn ready_at(&self, needs: Map<Seq<char>, u16>, i: int, du: u32) -> bool {
        forall|r: Seq<char>|
            #[trigger] needs.contains_key(r) ==> {
                &&& self.calendar@.contains_key(r)
                &&& i >= self.calendar@[r].first_available_interval
                &&& window_fits(self.calendar@[r].intervals@, needs[r], i, du as int)
            }
    }

    /// The task can start at `i`: its needs are met and it ends by `max_interval`.
    pub open spec fn slot_ok(&self, needs: Map<Seq<char>, u16>, i: int, du: u32) -> bool {
        &&& self.ready_at(needs, i, du)
        &&& i + du - 1 <= self.max_interval
    }

    /// The start, the duration and the calendar fit in `u32` arithmetic: the
    /// last interval of a task that starts where the search begins is a `u32`.
    pub open spec fn fit_in_range(&self, task: Task, starting_interval: u32) -> bool {
        task.resource_needs is Some ==> 1 <= task.search_start(starting_interval) + task.du <= u32::MAX
    }

    /// The resources that scheduling `task` books: its needs, walked in the
    /// order in which they were first inserted, up to the first one that the
    /// calendar lacks.
    pub open spec fn booked(&self, task: Task, r: Seq<char>) -> bool {
        match task.resource_needs {
            None => false,
            Some(needs) => {
                let n = leading_present(needs.key_seq(), self.calendar@.dom());
                exists|j: int| 0 <= j < n && needs.key_seq()[j] == r
            },
        }
    }

    /// Each booked resource can give up its quantity over the task's intervals.
    pub open spec fn can_book(&self, task: Task, interval: u32) -> bool {
        task.resource_needs matches Some(needs) ==> forall|r: Seq<char>|
            #[trigger] self.booked(task, r) ==> can_deduct(
                self.calendar@[r].intervals@,
                interval as int,
                task.du as int,
                needs@[r],
            )
    }
}

impl ConstraintManager for ResourceManager {
    /// The calendar is well formed, the task's needs are a well-formed map,
    /// and the search start plus the duration fits in a `u32`.
    open spec fn can_search(&self, task: Task, starting_interval: u32) -> bool {
        &&& self.wf()
        &&& task.wf()
        &&& self.fit_in_range(task, starting_interval)
    }

    /// `r` is what a search for `task` from `starting_interval` finds: with no
    /// resource needs, where the search begins; otherwise the first interval
    /// from there at which the task can start, or `None` if there is none.
    open spec fn is_first_fit(&self, task: Task, starting_interval: u32, r: Option<u32>) -> bool {
        let i0 = task.search_start(starting_interval);
        match task.resource_needs {
            None => r == Some(i0),
            Some(needs) => match r {
                Some(j) => {
                    &&& i0 <= j
                    &&& self.slot_ok(needs@, j as int, task.du)
                    &&& forall|k: int| i0 <= k < j ==> !self.slot_ok(needs@, k, task.du)
                },
                None => forall|k: int| i0 <= k ==> !self.slot_ok(needs@, k, task.du),
            },
        }
    }

    /// The calendar is well formed, the task's needs are a well-formed map,
    /// and each booked resource can give up its quantity.
    open spec fn can_schedule(&self, task: Task, interval: u32) -> bool {
        &&& self.wf()
        &&& task.wf()
        &&& self.can_book(task, interval)
    }

    /// The calendar after booking: the same resources and horizon, and each
    /// booked resource lost the task's quantity over the task's intervals.
    open spec fn is_scheduled_from(&self, before: Self, task: Task, interval: u32) -> bool {
        &&& self.wf()
        &&& self.max_interval == before.max_interval
        &&& self.calendar.key_seq() == before.calendar.key_seq()
        &&& self.calendar@.dom() == before.calendar@.dom()
        &&& forall|r: Seq<char>|
            #[trigger] self.calendar@.contains_key(r) ==> {
                &&& self.calendar@[r].first_available_interval
                    == before.calendar@[r].first_available_interval
                &&& self.calendar@[r].intervals@ == if before.booked(task, r) {
                    deducted(
                        before.calendar@[r].intervals@,
                        interval as int,
                        task.du as int,
                        task.resource_needs->0@[r],
                    )
                } else {
                    before.calendar@[r].intervals@
                }
            }
    }

    /// Books the task's resources for the intervals
    /// `interval .. interval + du`: each booked resource loses the task's
    /// quantity in each of those intervals. A task without resource needs
    /// changes nothing.
    fn schedule(&mut self, task: &Task, interval: u32) {
        let resources = match &task.resource_needs {
            Some(resources) => resources,
            None => {
                return;
            },
        };
        let ghost keys = resources.key_seq();
        let ghost needs = resources@;
        let ghost dom = old(self).calendar@.dom();
        let ghost cal0 = old(self).calendar@;
        let ghost n = leading_present(keys, dom);
        proof {
            lemma_leading_present(keys, dom);
        }

        let mut j: usize = 0;
        while j < resources.len()
            invariant
                self.wf(),
                resources.wf(),
                task.resource_needs == Some(*resources),
                keys == resources.key_seq(),
                needs == resources@,
                dom == cal0.dom(),
                cal0 == old(self).calendar@,
                n == leading_present(keys, dom),
                n <= keys.len(),
                forall|jj: int| 0 <= jj < n ==> dom.contains(#[trigger] keys[jj]),
                n < keys.len() ==> !dom.contains(keys[n as int]),
                old(self).can_book(*task, interval),
                j <= n,
                self.max_interval == old(self).max_interval,
                self.calendar.key_seq() == old(self).calendar.key_seq(),
                self.calendar@.dom() == dom,
                forall|r: Seq<char>|
                    #[trigger] self.calendar@.contains_key(r) ==> {
                        &&& self.calendar@[r].first_available_interval == cal0[r].first_available_interval
                        &&& self.calendar@[r].intervals@ == if exists|jj: int| 0 <= jj < j && keys[jj] == r {
                            deducted(cal0[r].intervals@, interval as int, task.du as int, needs[r])
                        } else {
                            cal0[r].intervals@
                        }
                    },
            decreases keys.len() - j,
        {
            let resource = resources.key_at(j);
            let quantity = *resources.value_at(j);
            let ghost rk = resource@;
            let idx = match self.calendar.position(resource) {
                Some(idx) => idx,
                None => {
                    proof {
                        assert(j == n);
                        lemma_booked_prefix(*old(self), *task, *resources, j as int);
                    }
                    return;
                },
            };
            proof {
                assert(j < n);
                assert(needs.contains_key(rk));
                assert(needs[rk] == quantity);
                assert(task.resource_needs->0.key_seq()[j as int] == rk);
                assert(old(self).booked(*task, rk));
                lemma_keys_distinct(*resources);
                assert(!exists|jj: int| 0 <= jj < j && keys[jj] == rk) by {
                    if exists|jj: int| 0 <= jj < j && keys[jj] == rk {
                        let jj = choose|jj: int| 0 <= jj < j && keys[jj] == rk;
                        assert(keys[jj] == keys[j as int]);
                    }
                }
            }
            let ghost before = self.calendar;
            self.calendar.value_at_mut(idx).deduct(interval, task.du, quantity);
            proof {
                lemma_keys_distinct(before);
                assert(self.calendar.key_seq() == before.key_seq());
                assert(self.calendar.val_seq() == before.val_seq().update(idx as int, self.calendar.val_seq()[idx as int]));
                lemma_view_update(before, self.calendar, idx as int);
                assert forall|r: Seq<char>| #[trigger] self.calendar@.contains_key(r) implies {
                    &&& self.calendar@[r].first_available_interval == cal0[r].first_available_interval
                    &&& self.calendar@[r].intervals@ == if exists|jj: int| 0 <= jj < j + 1 && keys[jj] == r {
                        deducted(cal0[r].intervals@, interval as int, task.du as int, needs[r])
                    } else {
                        cal0[r].intervals@
                    }
                } by {
                    if r == rk {
                        assert(keys[j as int] == r);
                    } else {
                        if exists|jj: int| 0 <= jj < j + 1 && keys[jj] == r {
                            let jj = choose|jj: int| 0 <= jj < j + 1 && keys[jj] == r;
                            assert(jj < j);
                        }
                    }
                }
            }
            j += 1;
        }
        proof {
            assert(j == n);
            lemma_booked_prefix(*old(self), *task, *resources, j as int);
        }
    }

    /// The first interval, no earlier than `starting_interval` and the task's
    /// earliest start, at which every resource the task needs is available
    /// for the task's whole duration, the task ending by `max_interval`.
    fn get_first_fit(&self, task: &Task, starting_interval: u32) -> (r: Option<u32>) {
        let mut i: u32 = if starting_interval > task.earliest_start_interval {
            starting_interval
        } else {
            task.earliest_start_interval
        };
        let ghost i0 = i as int;

        let resources = match &task.resource_needs {
            Some(resources) => resources,
            None => {
                return Some(i);
            },
        };
        let ghost needs = resources@;
        let du = task.du;

        while i + du - 1 <= self.max_interval
            invariant
                self.wf(),
                resources.wf(),
                needs == resources@,
                task.resource_needs == Some(*resources),
                du == task.du,
                i0 == task.search_start(starting_interval),
                i0 <= i,
                1 <= i + du <= u32::MAX,
                forall|k: int| i0 <= k < i ==> !self.ready_at(needs, k, du),
            decreases u32::MAX - i,
        {
            let mut iteration_start: u32 = i;
            let mut j: usize = 0;
            while j < resources.len()
                invariant
                    self.wf(),
                    resources.wf(),
                    needs == resources@,
                    du == task.du,
                    task.resource_needs == Some(*resources),
                    i0 == task.search_start(starting_interval),
                    i0 <= i <= iteration_start,
                    i + du - 1 <= self.max_interval,
                    iteration_start <= self.max_interval + 1,
                    iteration_start > i ==> iteration_start + du <= self.max_interval + 1,
                    j <= resources.key_seq().len(),
                    forall|k: int| i0 <= k < iteration_start ==> !self.ready_at(needs, k, du),
                    iteration_start == i ==> forall|jj: int|
                        0 <= jj < j ==> {
                            let r = #[trigger] resources.key_seq()[jj];
                            &&& self.calendar@.contains_key(r)
                            &&& i >= self.calendar@[r].first_available_interval
                            &&& window_fits(self.calendar@[r].intervals@, needs[r], i as int, du as int)
                        },
                decreases resources.key_seq().len() - j,
            {
                let resource = resources.key_at(j);
                let quantity = *resources.value_at(j);
                let ghost rk = resource@;
                proof {
                    assert(needs.contains_key(rk));
                    assert(needs[rk] == quantity);
                }
                let idx = match self.calendar.position(resource) {
                    Some(idx) => idx,
                    None => {
                        proof {
                            assert(!self.calendar@.contains_key(rk));
                            assert forall|k: int| i0 <= k implies !self.slot_ok(needs, k, du) by {
                                if k >= iteration_start {
                                    assert(needs.contains_key(rk));
                                }
                            }
                        }
                        return None;
                    },
                };
                let resource_intervals = self.calendar.value_at(idx);
                proof {
                    assert(self.calendar@.contains_key(rk));
                    assert(*resource_intervals == self.calendar@[rk]);
                }
                let resource_start = match resource_intervals.get_first_interval(
                    quantity,
                    iteration_start,
                    du,
                ) {
                    Some(resource_start) => resource_start,
                    None => {
                        proof {
                            assert forall|k: int| i0 <= k implies !self.slot_ok(needs, k, du) by {
                                if k >= iteration_start {
                                    assert(needs.contains_key(rk));
                                }
                            }
                        }
                        return None;
                    },
                };
                proof {
                    assert forall|k: int| i0 <= k < resource_start implies !self.ready_at(needs, k, du) by {
                        if k >= iteration_start {
                            assert(needs.contains_key(rk));
                        }
                    }
                }
                iteration_start = if iteration_start > resource_start {
                    iteration_start
                } else {
                    resource_start
                };
                j += 1;
            }
            if i == iteration_start {
                proof {
                    assert forall|r: Seq<char>| #[trigger] needs.contains_key(r) implies {
                        &&& self.calendar@.contains_key(r)
                        &&& i >= self.calendar@[r].first_available_interval
                        &&& window_fits(self.calendar@[r].intervals@, needs[r], i as int, du as int)
                    } by {
                        let jj = choose|jj: int| 0 <= jj < resources.key_seq().len() && resources.key_seq()[jj] == r;
                    }
                }
                return Some(i);
            }
            i = iteration_start;
        }
        None
    }
}

/// A slot that the search finds can be booked: every need is booked, and
/// each has its quantity in every interval of the task.
pub proof fn law_found_slot_bookable(m: ResourceManager, task: Task, starting_interval: u32, slot: u32)
    requires
        m.wf(),
        task.wf(),
        m.is_first_fit(task, starting_interval, Some(slot)),
    ensures
        m.can_book(task, slot),
        task.resource_needs matches Some(needs) ==> forall|r: Seq<char>|
            #[trigger] m.booked(task, r) == needs@.contains_key(r),
{
    if let Some(needs) = task.resource_needs {
        let keys = needs.key_seq();
        let dom = m.calendar@.dom();
        let n = leading_present(keys, dom);
        lemma_leading_present(keys, dom);
        if n < keys.len() {
            assert(needs@.contains_key(keys[n as int]));
        }
        assert forall|r: Seq<char>| #[trigger] m.booked(task, r) == needs@.contains_key(r) by {
            if needs@.contains_key(r) {
                let j = choose|j: int| 0 <= j < keys.len() && keys[j] == r;
                assert(needs.key_seq()[j] == r);
            }
        }
    }
}

/// Booking a task at the slot that the search found takes each of its needs,
/// in full, from every interval of the task, and leaves everything else.
pub proof fn law_booking_found_slot(
    before: ResourceManager,
    after: ResourceManager,
    task: Task,
    starting_interval: u32,
    slot: u32,
)
    requires
        before.wf(),
        task.wf(),
        before.is_first_fit(task, starting_interval, Some(slot)),
        after.is_scheduled_from(before, task, slot),
    ensures
        before.can_schedule(task, slot),
        task.resource_needs matches Some(needs) ==> forall|r: Seq<char>, k: int|
            #[trigger] needs@.contains_key(r) && slot <= k < slot + task.du ==> {
                &&& after.calendar@.contains_key(r)
                &&& #[trigger] after.calendar@[r].intervals@[k] == before.calendar@[r].intervals@[k] - needs@[r]
            },
        forall|r: Seq<char>, k: int|
            #[trigger] after.calendar@.contains_key(r) && 0 <= k < after.calendar@[r].intervals@.len() && (
            !(task.resource_needs matches Some(needs) && needs@.contains_key(r)) || !(slot <= k < slot
                + task.du)) ==> #[trigger] after.calendar@[r].intervals@[k] == before.calendar@[r].intervals@[k],
{
    law_found_slot_bookable(before, task, starting_interval, slot);
    if let Some(needs) = task.resource_needs {
        assert forall|r: Seq<char>, k: int|
            #[trigger] needs@.contains_key(r) && slot <= k < slot + task.du implies {
                &&& after.calendar@.contains_key(r)
                &&& #[trigger] after.calendar@[r].intervals@[k] == before.calendar@[r].intervals@[k] - needs@[r]
            } by {
            assert(before.booked(task, r));
            assert(window_fits(before.calendar@[r].intervals@, needs@[r], slot as int, task.du as int));
        }
    }
}

/// The search looks at the needed resources only: two calendars with the
/// same horizon that agree on every resource the task needs (whether it is
/// there, and its availability) find the same slot for the task, whatever
/// other resources they hold and however those are booked.
pub proof fn law_only_needed_resources_matter(
    m1: ResourceManager,
    m2: ResourceManager,
    task: Task,
    starting_interval: u32,
    r1: Option<u32>,
    r2: Option<u32>,
)
    requires
        m1.max_interval == m2.max_interval,
        task.resource_needs matches Some(needs) ==> forall|r: Seq<char>|
            #[trigger] needs@.contains_key(r) ==> {
                &&& m1.calendar@.contains_key(r) == m2.calendar@.contains_key(r)
                &&& m1.calendar@.contains_key(r) ==> m1.calendar@[r] == m2.calendar@[r]
            },
        m1.is_first_fit(task, starting_interval, r1),
        m2.is_first_fit(task, starting_interval, r2),
    ensures
        r1 == r2,
{
    if let Some(needs) = task.resource_needs {
        assert forall|k: int| m1.slot_ok(needs@, k, task.du) == m2.slot_ok(needs@, k, task.du) by {
            if m1.ready_at(needs@, k, task.du) {
                assert forall|r: Seq<char>| #[trigger] needs@.contains_key(r) implies {
                    &&& m2.calendar@.contains_key(r)
                    &&& k >= m2.calendar@[r].first_available_interval
                    &&& window_fits(m2.calendar@[r].intervals@, needs@[r], k, task.du as int)
                } by {}
            }
            if m2.ready_at(needs@, k, task.du) {
                assert forall|r: Seq<char>| #[trigger] needs@.contains_key(r) implies {
                    &&& m1.calendar@.contains_key(r)
                    &&& k >= m1.calendar@[r].first_available_interval
                    &&& window_fits(m1.calendar@[r].intervals@, needs@[r], k, task.du as int)
                } by {}
            }
        }
        let i0 = task.search_start(starting_interval) as int;
        match (r1, r2) {
            (Some(j1), Some(j2)) => {
                if j1 < j2 {
                    assert(m2.slot_ok(needs@, j1 as int, task.du));
                } else if j2 < j1 {
                    assert(m1.slot_ok(needs@, j2 as int, task.du));
                }
            },
            (Some(j1), None) => {
                assert(m2.slot_ok(needs@, j1 as int, task.du));
            },
            (None, Some(j2)) => {
                assert(m1.slot_ok(needs@, j2 as int, task.du));
            },
            (None, None) => {},
        }
    }
}

/// Adding a resource that the task does not need to the calendar never
/// changes what the search finds for the task.
pub proof fn law_unneeded_resource_never_delays(
    m1: ResourceManager,
    m2: ResourceManager,
    task: Task,
    starting_interval: u32,
    extra: Seq<char>,
    availability: ResourceIntervals,
    r1: Option<u32>,
    r2: Option<u32>,
)
    requires
        m2.max_interval == m1.max_interval,
        m2.calendar@ == m1.calendar@.insert(extra, availability),
        task.resource_needs matches Some(needs) ==> !needs@.contains_key(extra),
        m1.is_first_fit(task, starting_interval, r1),
        m2.is_first_fit(task, starting_interval, r2),
    ensures
        r1 == r2,
{
    law_only_needed_resources_matter(m1, m2, task, starting_interval, r1, r2);
}

/// A slot that the search finds is found again by a search that starts at it.
pub proof fn law_first_fit_stable(m: ResourceManager, task: Task, starting_interval: u32, slot: u32)
    requires
        m.is_first_fit(task, starting_interval, Some(slot)),
    ensures
        m.is_first_fit(task, slot, Some(slot)),
{
}

/// Starting the search later never finds an earlier slot, and never finds a
/// slot where the earlier search found none.
pub proof fn law_first_fit_monotone(
    m: ResourceManager,
    task: Task,
    s1: u32,
    s2: u32,
    r1: Option<u32>,
    r2: Option<u32>,
)
    requires
        s1 <= s2,
        m.is_first_fit(task, s1, r1),
        m.is_first_fit(task, s2, r2),
    ensures
        r1 is None ==> r2 is None,
        r1 is Some && r2 is Some ==> r1->0 <= r2->0,
{
}

} // verus!
