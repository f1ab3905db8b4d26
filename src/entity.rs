//! Composition of entity rules into joint rules.
//!
//! Each entity rule sets one entity's data. For each subset of the entity
//! rules, a joint rule fires exactly the members of the subset: its condition
//! is the conjunction of theirs, its action sets the members' entities, and its
//! weight is the product of the members' weights and of one minus the
//! weights of the rules left out. This module picks the subsets and names the
//! joint rules; conditions, actions and weights are the caller's.
use vstd::prelude::*;
use itertools::Itertools;
use crate::rules::{descriptions_at, join_at, joined};

verus! {

/// `s` lists distinct indices below `n` in increasing order.
pub open spec fn is_index_subset(s: Seq<usize>, n: usize) -> bool {
    &&& forall|a: int| 0 <= a < s.len() ==> #[trigger] s[a] < n
    &&& forall|a: int, b: int| 0 <= a < b < s.len() ==> s[a] < s[b]
}

/// Relies on itertools' `Itertools::powerset` over `0..n`: every subset once,
/// each as its members in the order of the source, which is increasing.
#[verifier::external_body]
fn index_subsets(n: usize) -> (r: Vec<Vec<usize>>)
    requires
        n < 32,
    ensures
        forall|i: int| 0 <= i < r@.len() ==> is_index_subset(#[trigger] r@[i]@, n),
        forall|i: int, j: int| 0 <= i < j < r@.len() ==> r@[i]@ != r@[j]@,
        forall|s: Seq<usize>|
            is_index_subset(s, n) ==> exists|i: int| 0 <= i < r@.len() && #[trigger] r@[i]@ == s,
{
    (0..n).powerset().collect()
}

/// A joint rule: the entity rules it fires, its name and its description.
#[derive(Clone, Debug)]
pub struct Combination {
    /// The positions of the member rules, in increasing order.
    pub members: Vec<usize>,
    /// The members' names joined by `", "`.
    pub name: String,
    /// The members' descriptions joined by `",\n\n"`.
    pub description: String,
}

/// Every member of `s` is marked in `positive`.
pub open spec fn all_positive(s: Seq<usize>, positive: Seq<bool>) -> bool {
    forall|a: int| 0 <= a < s.len() ==> positive[#[trigger] s[a] as int]
}

/// The joint rules of a set of entity rules, given each rule's name, its
/// description and whether its weight is positive: one for each subset of the
/// rules whose members all have positive weight, the empty subset included.
pub fn combine_entity_rules(
    names: &Vec<String>,
    descriptions: &Vec<String>,
    positive: &Vec<bool>,
) -> (r: Vec<Combination>)
    requires
        names@.len() == descriptions@.len(),
        names@.len() == positive@.len(),
        names@.len() < 32,
    ensures
        forall|i: int|
            0 <= i < r@.len() ==> {
                let c = #[trigger] r@[i];
                &&& is_index_subset(c.members@, names@.len() as usize)
                &&& all_positive(c.members@, positive@)
                &&& c.name@ == joined(descriptions_at(names@, c.members@), ", "@)
                &&& c.description@ == joined(descriptions_at(descriptions@, c.members@), ",\n\n"@)
            },
        forall|i: int, j: int| 0 <= i < j < r@.len() ==> r@[i].members@ != r@[j].members@,
        forall|s: Seq<usize>|
            is_index_subset(s, names@.len() as usize) && all_positive(s, positive@) ==> exists|i: int|
                0 <= i < r@.len() && #[trigger] r@[i].members@ == s,
{
    let n = names.len();
    let subsets = index_subsets(n);
    let mut out: Vec<Combination> = Vec::new();
    let mut k: usize = 0;
    while k < subsets.len()
        invariant
            names@.len() == descriptions@.len(),
            names@.len() == positive@.len(),
            n == names@.len(),
            0 <= k <= subsets@.len(),
            forall|i: int| 0 <= i < subsets@.len() ==> is_index_subset(#[trigger] subsets@[i]@, n),
            forall|i: int, j: int| 0 <= i < j < subsets@.len() ==> subsets@[i]@ != subsets@[j]@,
            forall|i: int|
                0 <= i < out@.len() ==> {
                    let c = #[trigger] out@[i];
                    &&& is_index_subset(c.members@, n)
                    &&& all_positive(c.members@, positive@)
                    &&& c.name@ == joined(descriptions_at(names@, c.members@), ", "@)
                    &&& c.description@ == joined(
                        descriptions_at(descriptions@, c.members@),
                        ",\n\n"@,
                    )
                },
            forall|i: int|
                0 <= i < out@.len() ==> exists|q: int|
                    0 <= q < k && #[trigger] subsets@[q]@ == (#[trigger] out@[i]).members@,
            forall|i: int, j: int| 0 <= i < j < out@.len() ==> out@[i].members@ != out@[j].members@,
            forall|q: int|
                0 <= q < k && all_positive(#[trigger] subsets@[q]@, positive@) ==> exists|i: int|
                    0 <= i < out@.len() && out@[i].members@ == subsets@[q]@,
        decreases subsets@.len() - k,
    {
        let members = subsets[k].clone();
        proof {
            assert(is_index_subset(subsets@[k as int]@, n));
        }
        let mut ok = true;
        let mut a: usize = 0;
        while a < members.len()
            invariant
                members@ == subsets@[k as int]@,
                is_index_subset(members@, n),
                n == positive@.len(),
                0 <= a <= members@.len(),
                ok == forall|b: int| 0 <= b < a ==> positive@[#[trigger] members@[b] as int],
            decreases members@.len() - a,
        {
            if !positive[members[a]] {
                ok = false;
            }
            a = a + 1;
        }
        if ok {
            let name = join_at(names, &members, ", ");
            let description = join_at(descriptions, &members, ",\n\n");
            let ghost prev = out@;
            out.push(Combination { members, name, description });
            proof {
                assert forall|i: int| 0 <= i < out@.len() implies exists|q: int|
                    0 <= q < k + 1 && #[trigger] subsets@[q]@ == (#[trigger] out@[i]).members@ by {
                    if i < prev.len() {
                        assert(out@[i] == prev[i]);
                    } else {
                        assert(subsets@[k as int]@ == out@[i].members@);
                    }
                }
                assert forall|i: int, j: int| 0 <= i < j < out@.len() implies out@[i].members@
                    != out@[j].members@ by {
                    if j == prev.len() {
                        let q = choose|q: int| 0 <= q < k && #[trigger] subsets@[q]@ == prev[i].members@;
                        assert(subsets@[q]@ != subsets@[k as int]@);
                    } else {
                        assert(out@[i] == prev[i] && out@[j] == prev[j]);
                    }
                }
                assert forall|q: int|
                    0 <= q < k + 1 && all_positive(#[trigger] subsets@[q]@, positive@) implies exists|i: int|
                        0 <= i < out@.len() && out@[i].members@ == subsets@[q]@ by {
                    if q < k {
                        let i = choose|i: int| 0 <= i < prev.len() && prev[i].members@ == subsets@[q]@;
                        assert(out@[i] == prev[i]);
                    } else {
                        assert(out@[prev.len() as int].members@ == subsets@[q]@);
                    }
                }
            }
        } else {
            proof {
                assert(!all_positive(subsets@[k as int]@, positive@));
            }
        }
        k = k + 1;
    }
    proof {
        assert forall|s: Seq<usize>|
            is_index_subset(s, names@.len() as usize) && all_positive(s, positive@) implies exists|i: int|
                0 <= i < out@.len() && #[trigger] out@[i].members@ == s by {
            let q = choose|q: int| 0 <= q < subsets@.len() && #[trigger] subsets@[q]@ == s;
            assert(all_positive(subsets@[q]@, positive@));
        }
    }
    out
}

} // verus!
