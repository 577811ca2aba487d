use vstd::prelude::*;

use crate::name_map::lemma_index_of_distinct;
use crate::task::Configuration;

verus! {

broadcast use vstd::string::to_string_from_display_ensures_for_str;

/// Which statuses may hold together: `Some(true)` for compatible pairs,
/// `Some(false)` for incompatible ones, nothing for pairs never related.
#[derive(Debug)]
pub struct StatusRelationChart {
    status_relations: Vec<(String, String, bool)>,
}

/// Two status lists are compatible when no status of the first is recorded
/// as incompatible with a status of the second.
pub open spec fn statuses_compatible(
    relations: Map<(Seq<char>, Seq<char>), bool>,
    one: Seq<Seq<char>>,
    two: Seq<Seq<char>>,
) -> bool {
    forall|i: int, j: int|
        0 <= i < one.len() && 0 <= j < two.len() ==> relations.get((one[i], two[j])) != Some(false)
}

/// Every relation is recorded in both directions with the same value.
pub open spec fn is_symmetric(relations: Map<(Seq<char>, Seq<char>), bool>) -> bool {
    forall|a: Seq<char>, b: Seq<char>| #[trigger] relations.get((a, b)) == relations.get((b, a))
}

/// After `insert_relation(a, b, r)` the chart answers `Some(r)` for the pair
/// in either order, and keeps its answer for every other pair.
pub proof fn law_relation_read_after_write(
    before: Map<(Seq<char>, Seq<char>), bool>,
    after: Map<(Seq<char>, Seq<char>), bool>,
    a: Seq<char>,
    b: Seq<char>,
    r: bool,
)
    requires
        after == before.insert((a, b), r).insert((b, a), r),
    ensures
        after.get((a, b)) == Some(r),
        after.get((b, a)) == Some(r),
        forall|p: (Seq<char>, Seq<char>)| p != (a, b) && p != (b, a) ==> #[trigger] after.get(p) == before.get(p),
{
}

/// Two status lists are compatible exactly when the chart records no
/// incompatibility (`Some(false)`) from a status of the first to a status of
/// the second: pairs the chart never related, and pairs recorded as
/// compatible, never keep the lists apart.
pub proof fn law_compatible_iff_no_recorded_incompatibility(
    relations: Map<(Seq<char>, Seq<char>), bool>,
    one: Seq<Seq<char>>,
    two: Seq<Seq<char>>,
)
    ensures
        statuses_compatible(relations, one, two) <==> !exists|i: int, j: int|
            0 <= i < one.len() && 0 <= j < two.len() && relations.contains_key((one[i], two[j]))
                && relations[(one[i], two[j])] == false,
{
    if !statuses_compatible(relations, one, two) {
        let (i, j) = choose|i: int, j: int|
            0 <= i < one.len() && 0 <= j < two.len() && !(relations.get((one[i], two[j])) != Some(false));
        assert(relations.contains_key((one[i], two[j])) && relations[(one[i], two[j])] == false);
    }
    if exists|i: int, j: int|
        0 <= i < one.len() && 0 <= j < two.len() && relations.contains_key((one[i], two[j]))
            && relations[(one[i], two[j])] == false {
        let (i, j) = choose|i: int, j: int|
            0 <= i < one.len() && 0 <= j < two.len() && relations.contains_key((one[i], two[j]))
                && relations[(one[i], two[j])] == false;
        assert(relations.get((one[i], two[j])) == Some(false));
    }
}

/// On a chart that relates no statuses, any two status lists are compatible.
pub proof fn law_unrelated_statuses_compatible(one: Seq<Seq<char>>, two: Seq<Seq<char>>)
    ensures
        statuses_compatible(Map::<(Seq<char>, Seq<char>), bool>::empty(), one, two),
{
}

/// Recording two statuses as compatible never makes two lists incompatible.
pub proof fn law_compatible_relation_never_excludes(
    relations: Map<(Seq<char>, Seq<char>), bool>,
    a: Seq<char>,
    b: Seq<char>,
    one: Seq<Seq<char>>,
    two: Seq<Seq<char>>,
)
    requires
        statuses_compatible(relations, one, two),
    ensures
        statuses_compatible(relations.insert((a, b), true), one, two),
{
    assert forall|i: int, j: int| 0 <= i < one.len() && 0 <= j < two.len() implies relations.insert(
        (a, b),
        true,
    ).get((one[i], two[j])) != Some(false) by {
        assert(relations.get((one[i], two[j])) != Some(false));
    }
}

/// On a symmetric chart, compatibility of two status lists does not depend
/// on which list comes first.
pub proof fn law_compatibility_symmetric(
    relations: Map<(Seq<char>, Seq<char>), bool>,
    one: Seq<Seq<char>>,
    two: Seq<Seq<char>>,
)
    requires
        is_symmetric(relations),
    ensures
        statuses_compatible(relations, one, two) == statuses_compatible(relations, two, one),
{
    if statuses_compatible(relations, one, two) {
        assert forall|i: int, j: int| 0 <= i < two.len() && 0 <= j < one.len() implies relations.get(
            (two[i], one[j]),
        ) != Some(false) by {
            assert(relations.get((one[j], two[i])) == relations.get((two[i], one[j])));
        }
    }
    if statuses_compatible(relations, two, one) {
        assert forall|i: int, j: int| 0 <= i < one.len() && 0 <= j < two.len() implies relations.get(
            (one[i], two[j]),
        ) != Some(false) by {
            assert(relations.get((two[j], one[i])) == relations.get((one[i], two[j])));
        }
    }
}

impl StatusRelationChart {
    /// The related pairs, in the order in which they were first recorded.
    pub closed spec fn pair_seq(&self) -> Seq<(Seq<char>, Seq<char>)> {
        self.status_relations@.map_values(|e: (String, String, bool)| (e.0@, e.1@))
    }

    /// Each pair is recorded once.
    pub closed spec fn wf(&self) -> bool {
        self.pair_seq().no_duplicates()
    }

    /// The recorded relation of each pair.
    pub closed spec fn view(&self) -> Map<(Seq<char>, Seq<char>), bool> {
        Map::new(
            |p: (Seq<char>, Seq<char>)| self.pair_seq().contains(p),
            |p: (Seq<char>, Seq<char>)| self.status_relations@[self.pair_seq().index_of(p)].2,
        )
    }

    /// A chart that relates no statuses.
    pub fn new() -> (chart: StatusRelationChart)
        ensures
            chart.wf(),
            chart@ == Map::<(Seq<char>, Seq<char>), bool>::empty(),
            is_symmetric(chart@),
    {
        let chart = StatusRelationChart { status_relations: Vec::new() };
        assert(chart@ =~= Map::<(Seq<char>, Seq<char>), bool>::empty());
        chart
    }

    fn position(&self, one: &String, two: &String) -> (r: Option<usize>)
        requires
            self.wf(),
        ensures
            match r {
                Some(i) => i < self.pair_seq().len() && self.pair_seq()[i as int] == (one@, two@),
                None => !self.pair_seq().contains((one@, two@)),
            },
    {
        let mut i: usize = 0;
        while i < self.status_relations.len()
            invariant
                i <= self.status_relations@.len(),
                forall|j: int| 0 <= j < i ==> self.pair_seq()[j] != (one@, two@),
            decreases self.status_relations@.len() - i,
        {
            let entry = &self.status_relations[i];
            if entry.0 == *one && entry.1 == *two {
                return Some(i);
            }
            i += 1;
        }
        None
    }

    fn insert_pair(&mut self, one: String, two: String, relation: bool)
        requires
            old(self).wf(),
        ensures
            final(self).wf(),
            final(self)@ == old(self)@.insert((one@, two@), relation),
    {
        let ghost key = (one@, two@);
        let ghost old_pairs = self.pair_seq();
        match self.position(&one, &two) {
            Some(i) => {
                self.status_relations.set(i, (one, two, relation));
                proof {
                    assert(self.pair_seq() =~= old_pairs);
                    assert forall|p: (Seq<char>, Seq<char>)| #[trigger] self.pair_seq().contains(p) implies
                        self.status_relations@[self.pair_seq().index_of(p)].2 == old(self)@.insert(key, relation)[p] by {
                        let j = choose|j: int| 0 <= j < old_pairs.len() && old_pairs[j] == p;
                        lemma_index_of_distinct(old_pairs, j);
                    }
                    assert(self@ =~= old(self)@.insert(key, relation));
                }
            },
            None => {
                self.status_relations.push((one, two, relation));
                proof {
                    assert(self.pair_seq() =~= old_pairs.push(key));
                    let ps = self.pair_seq();
                    assert forall|p: (Seq<char>, Seq<char>)| #[trigger] ps.contains(p) implies
                        self.status_relations@[ps.index_of(p)].2 == old(self)@.insert(key, relation)[p] by {
                        let j = choose|j: int| 0 <= j < ps.len() && ps[j] == p;
                        lemma_index_of_distinct(ps, j);
                        if j < old_pairs.len() {
                            lemma_index_of_distinct(old_pairs, j);
                        }
                    }
                    assert forall|p: (Seq<char>, Seq<char>)| #[trigger] ps.contains(p) <==>
                        old(self)@.insert(key, relation).contains_key(p) by {
                        if p != key && ps.contains(p) {
                            let j = choose|j: int| 0 <= j < ps.len() && ps[j] == p;
                            assert(old_pairs[j] == p);
                        }
                        if old_pairs.contains(p) {
                            let j = choose|j: int| 0 <= j < old_pairs.len() && old_pairs[j] == p;
                            assert(ps[j] == p);
                        }
                        if p == key {
                            assert(ps[old_pairs.len() as int] == p);
                        }
                    }
                    assert(self@ =~= old(self)@.insert(key, relation));
                }
            },
        }
    }

    /// Records `relation` between the two statuses, in both directions.
    pub fn insert_relation(&mut self, status_one: &str, status_two: &str, relation: bool)
        requires
            old(self).wf(),
        ensures
            final(self).wf(),
            final(self)@ == old(self)@.insert((status_one@, status_two@), relation).insert(
                (status_two@, status_one@),
                relation,
            ),
            is_symmetric(old(self)@) ==> is_symmetric(final(self)@),
    {
        self.insert_pair(status_one.to_string(), status_two.to_string(), relation);
        self.insert_pair(status_two.to_string(), status_one.to_string(), relation);
        proof {
            if is_symmetric(old(self)@) {
                assert forall|a: Seq<char>, b: Seq<char>| #[trigger] self@.get((a, b)) == self@.get((b, a)) by {
                    assert(old(self)@.get((a, b)) == old(self)@.get((b, a)));
                }
            }
        }
    }

    /// The relation recorded from `status_one` to `status_two`, if any.
    pub fn get_relation(&self, status_one: &str, status_two: &str) -> (r: Option<bool>)
        requires
            self.wf(),
        ensures
            r == self@.get((status_one@, status_two@)),
    {
        let one = status_one.to_string();
        let two = status_two.to_string();
        match self.position(&one, &two) {
            Some(i) => {
                proof {
                    lemma_index_of_distinct(self.pair_seq(), i as int);
                }
                Some(self.status_relations[i].2)
            },
            None => None,
        }
    }

    /// Whether the two status lists may hold together: `false` exactly when
    /// some status of the first is recorded as incompatible with some status
    /// of the second.
    pub fn get_config_compatibility(&self, list_one: &Configuration, list_two: &Configuration) -> (r: bool)
        requires
            self.wf(),
        ensures
            r == statuses_compatible(self@, list_one.status_seq(), list_two.status_seq()),
    {
        let ghost one = list_one.status_seq();
        let ghost two = list_two.status_seq();
        let mut i: usize = 0;
        while i < list_one.statuses.len()
            invariant
                self.wf(),
                one == list_one.status_seq(),
                two == list_two.status_seq(),
                i <= one.len(),
                forall|a: int, b: int|
                    0 <= a < i && 0 <= b < two.len() ==> self@.get((one[a], two[b])) != Some(false),
            decreases one.len() - i,
        {
            let status_one = &list_one.statuses[i];
            let mut j: usize = 0;
            while j < list_two.statuses.len()
                invariant
                    self.wf(),
                    one == list_one.status_seq(),
                    two == list_two.status_seq(),
                    i < one.len(),
                    *status_one == list_one.statuses@[i as int],
                    j <= two.len(),
                    forall|a: int, b: int|
                        0 <= a < i && 0 <= b < two.len() ==> self@.get((one[a], two[b])) != Some(false),
                    forall|b: int| 0 <= b < j ==> self@.get((one[i as int], two[b])) != Some(false),
                decreases two.len() - j,
            {
                let status_two = &list_two.statuses[j];
                if let Some(false) = self.get_relation(status_one, status_two) {
                    proof {
                        assert(one[i as int] == status_one@);
                        assert(two[j as int] == status_two@);
                        assert(!statuses_compatible(self@, one, two));
                    }
                    return false;
                }
                j += 1;
            }
            i += 1;
        }
        true
    }
}

} // verus!
