//! Dense renumbering of signatures, in first-seen order.

use vstd::prelude::*;
use std::collections::HashMap;
use crate::model::{canon_dedup, leq64};
use crate::canon::{lemma_dedup_adj_sorted, lemma_multiset_eq_to_set_eq, lemma_canon_dedup_len};
use crate::sort::{sort_u64, lemma_leq64_total_ordering};

verus! {

broadcast use vstd::std_specs::hash::group_hash_axioms;

/// The dense id of `s[i]`: ids are handed out in first-seen order, starting
/// at 0, one per distinct value.
pub open spec fn renumber_map(s: Seq<u64>, i: int) -> Map<u64, u32>
    decreases i,
{
    if i <= 0 {
        Map::empty()
    } else {
        let m = renumber_map(s, i - 1);
        if m.contains_key(s[i - 1]) {
            m
        } else {
            m.insert(s[i - 1], m.len() as u32)
        }
    }
}

pub open spec fn renumber_spec(s: Seq<u64>) -> Seq<u32> {
    Seq::new(s.len(), |i: int| renumber_map(s, i + 1)[s[i]])
}

/// Once a value has an id, later maps keep it unchanged.
pub proof fn lemma_renumber_preserve(s: Seq<u64>, i: int, j: int)
    requires
        0 <= i <= j <= s.len(),
    ensures
        forall|v: u64|
            renumber_map(s, i).contains_key(v) ==> (#[trigger] renumber_map(s, j).contains_key(
                v,
            )) && renumber_map(s, j)[v] == renumber_map(s, i)[v],
    decreases j - i,
{
    broadcast use vstd::set::group_set_axioms;
    broadcast use vstd::map::group_map_axioms;

    if i < j {
        lemma_renumber_preserve(s, i, j - 1);
        let m = renumber_map(s, j - 1);
        assert forall|v: u64|
            renumber_map(s, i).contains_key(v) implies (#[trigger] renumber_map(
            s,
            j,
        ).contains_key(v)) && renumber_map(s, j)[v] == renumber_map(s, i)[v] by {
            assert(m.contains_key(v));
        }
    }
}

/// The map after `i` values is finite, assigns ids `0..len`, and knows
/// exactly the values seen so far.
pub proof fn lemma_renumber_map(s: Seq<u64>, i: int)
    requires
        0 <= i <= s.len(),
        s.len() <= u32::MAX,
    ensures
        renumber_map(s, i).dom().finite(),
        renumber_map(s, i).len() <= i,
        forall|v: u64|
            renumber_map(s, i).contains_key(v) <==> (exists|j: int| 0 <= j < i && s[j] == v),
        forall|v: u64|
            renumber_map(s, i).contains_key(v) ==> (#[trigger] renumber_map(s, i)[v])
                < renumber_map(s, i).len(),
        forall|v1: u64, v2: u64|
            renumber_map(s, i).contains_key(v1) && renumber_map(s, i).contains_key(v2) && v1 != v2
                ==> (#[trigger] renumber_map(s, i)[v1]) != (#[trigger] renumber_map(s, i)[v2]),
{
    lemma_renumber_map_fwd(s, i);
}

/// One step of the map construction.
proof fn lemma_renumber_map_fwd(s: Seq<u64>, i: int)
    requires
        0 <= i <= s.len(),
        s.len() <= u32::MAX,
    ensures
        renumber_map(s, i).dom().finite(),
        renumber_map(s, i).len() <= i,
        forall|v: u64|
            renumber_map(s, i).contains_key(v) <==> (exists|j: int| 0 <= j < i && s[j] == v),
        forall|v: u64|
            renumber_map(s, i).contains_key(v) ==> (#[trigger] renumber_map(s, i)[v])
                < renumber_map(s, i).len(),
        forall|v1: u64, v2: u64|
            renumber_map(s, i).contains_key(v1) && renumber_map(s, i).contains_key(v2) && v1 != v2
                ==> (#[trigger] renumber_map(s, i)[v1]) != (#[trigger] renumber_map(s, i)[v2]),
    decreases i,
{
    broadcast use vstd::set::group_set_axioms;
    broadcast use vstd::map::group_map_axioms;

    if i > 0 {
        lemma_renumber_map_fwd(s, i - 1);
        let m = renumber_map(s, i - 1);
        let v0 = s[i - 1];
        if !m.contains_key(v0) {
            assert(m.insert(v0, m.len() as u32).dom() =~= m.dom().insert(v0));
            assert(renumber_map(s, i).len() == m.len() + 1);
            assert forall|v1: u64, v2: u64|
                renumber_map(s, i).contains_key(v1) && renumber_map(s, i).contains_key(v2) && v1
                    != v2 implies (#[trigger] renumber_map(s, i)[v1]) != (#[trigger] renumber_map(
                s,
                i,
            )[v2]) by {
                if v1 == v0 {
                    assert(m.contains_key(v2) && m[v2] < m.len());
                    assert(renumber_map(s, i)[v1] == m.len() as u32);
                    assert(renumber_map(s, i)[v2] == m[v2]);
                } else if v2 == v0 {
                    assert(m.contains_key(v1) && m[v1] < m.len());
                    assert(renumber_map(s, i)[v2] == m.len() as u32);
                    assert(renumber_map(s, i)[v1] == m[v1]);
                } else {
                    assert(m.contains_key(v1) && m.contains_key(v2));
                    assert(renumber_map(s, i)[v1] == m[v1]);
                    assert(renumber_map(s, i)[v2] == m[v2]);
                }
            }
            assert forall|v: u64|
                renumber_map(s, i).contains_key(v) <==> (exists|j: int|
                0 <= j < i && s[j] == v) by {
                if renumber_map(s, i).contains_key(v) {
                    if v == v0 {
                        assert(s[i - 1] == v);
                    }
                }
                if exists|j: int| 0 <= j < i && s[j] == v {
                    let j = choose|j: int| 0 <= j < i && s[j] == v;
                    if j < i - 1 {
                        assert(m.contains_key(v));
                    }
                }
            }
        } else {
            assert forall|v: u64|
                renumber_map(s, i).contains_key(v) <==> (exists|j: int|
                0 <= j < i && s[j] == v) by {
                if exists|j: int| 0 <= j < i && s[j] == v {
                    let j = choose|j: int| 0 <= j < i && s[j] == v;
                    if j < i - 1 {
                        assert(m.contains_key(v));
                    } else {
                        assert(m.contains_key(v0));
                    }
                }
            }
        }
    } else {
        assert(renumber_map(s, 0).dom() =~= Set::<u64>::empty());
    }
}

/// Renumber the signatures to dense ids in first-seen order: equal inputs
/// get equal ids, distinct inputs distinct ids, the first entry gets 0, and
/// the ids stay below the number of entries.  Every id below an occurring id
/// also occurs.
#[verifier::loop_isolation(false)]
pub fn renumber(ids: &Vec<u64>) -> (r: Vec<u32>)
    requires
        ids@.len() <= u32::MAX,
    ensures
        r@ == renumber_spec(ids@),
        r@.len() == ids@.len(),
        forall|i: int, j: int|
            0 <= i < ids@.len() && 0 <= j < ids@.len() ==> ((ids@[i] == ids@[j]) <==> (r@[i]
                == r@[j])),
        forall|i: int| 0 <= i < r@.len() ==> (#[trigger] r@[i]) < ids@.len(),
        r@.len() > 0 ==> r@[0] == 0,
        crate::refpart::downward_closed(r@),
    {
    broadcast use vstd::set::group_set_axioms;
    broadcast use vstd::map::group_map_axioms;
    broadcast use vstd::seq_lib::group_to_multiset_ensures;

    let mut canon: HashMap<u64, u32> = HashMap::new();
    let mut out: Vec<u32> = Vec::new();
    let mut last_id: u32 = 0;
    let mut i: usize = 0;
    while i < ids.len()
        invariant
            i <= ids@.len(),
            canon@ == renumber_map(ids@, i as int),
            last_id == renumber_map(ids@, i as int).len(),
            out@.len() == i,
            forall|k: int| 0 <= k < i ==> out@[k] == renumber_spec(ids@)[k],
        decreases ids@.len() - i,
    {
        proof {
            lemma_renumber_map(ids@, i as int);
            lemma_renumber_map(ids@, i + 1);
        }
        let v = ids[i];
        match canon.get(&v) {
            Some(x) => {
                out.push(*x);
            },
            None => {
                canon.insert(v, last_id);
                proof {
                    assert(canon@ =~= renumber_map(ids@, i + 1));
                    assert(canon@.dom() =~= renumber_map(ids@, i as int).dom().insert(v));
                }
                out.push(last_id);
                last_id = last_id + 1;
            },
        }
        i = i + 1;
    }
    proof {
        assert(out@ =~= renumber_spec(ids@));
        lemma_renumber_map(ids@, ids@.len() as int);
        assert forall|i0: int, j: int|
            0 <= i0 < ids@.len() && 0 <= j < ids@.len() implies ((ids@[i0] == ids@[j]) <==> (
        renumber_spec(ids@)[i0] == renumber_spec(ids@)[j])) by {
            lemma_renumber_stable(ids@, i0);
            lemma_renumber_stable(ids@, j);
            if ids@[i0] != ids@[j] {
                assert(renumber_map(ids@, ids@.len() as int).contains_key(ids@[i0]));
                assert(renumber_map(ids@, ids@.len() as int).contains_key(ids@[j]));
            }
        }
        assert forall|i0: int| 0 <= i0 < ids@.len() implies (#[trigger] renumber_spec(ids@)[i0])
            < ids@.len() by {
            lemma_renumber_stable(ids@, i0);
            lemma_renumber_map(ids@, i0 + 1);
        }
        if ids@.len() > 0 {
            lemma_renumber_map(ids@, 1);
            assert(renumber_map(ids@, 1).contains_key(ids@[0]));
            assert(renumber_map(ids@, 0).len() == 0);
            assert(renumber_spec(ids@)[0] == 0);
        }
        assert forall|i0: int|
            0 <= i0 < out@.len() && out@[i0] > 0 implies out@.to_multiset().count(
            (out@[i0] - 1) as u32,
        ) > 0 by {
            lemma_renumber_downward(ids@, i0);
            let j = choose|j: int|
                0 <= j < ids@.len() && renumber_spec(ids@)[j] == out@[i0] - 1;
            assert(out@[j] == out@[i0] - 1);
            assert(out@.contains((out@[i0] - 1) as u32));
        }
    }
    out
}

/// The id of entry `i` is already fixed when it first appears.
proof fn lemma_renumber_stable(s: Seq<u64>, i: int)
    requires
        0 <= i < s.len(),
        s.len() <= u32::MAX,
    ensures
        renumber_map(s, s.len() as int).contains_key(s[i]),
        renumber_spec(s)[i] == renumber_map(s, s.len() as int)[s[i]],
{
    lemma_renumber_map(s, i + 1);
    assert(renumber_map(s, i + 1).contains_key(s[i]));
    lemma_renumber_preserve(s, i + 1, s.len() as int);
    assert(renumber_map(s, s.len() as int).contains_key(s[i]) && renumber_map(
        s,
        s.len() as int,
    )[s[i]] == renumber_map(s, i + 1)[s[i]]);
}

/// Every positive id is preceded by its predecessor at some entry.
proof fn lemma_renumber_downward(s: Seq<u64>, i: int)
    requires
        0 <= i < s.len(),
        s.len() <= u32::MAX,
        renumber_spec(s)[i] > 0,
    ensures
        exists|j: int| 0 <= j < s.len() && renumber_spec(s)[j] == renumber_spec(s)[i] - 1,
    decreases i,
{
    broadcast use vstd::set::group_set_axioms;
    broadcast use vstd::map::group_map_axioms;

    lemma_renumber_map(s, i as int);
    lemma_renumber_map(s, i + 1);
    let m = renumber_map(s, i as int);
    let m2 = renumber_map(s, i + 1);
    if m.contains_key(s[i]) {
        // the id was assigned at the first occurrence of this value
        let j0 = choose|j: int| 0 <= j < i && s[j] == s[i];
        lemma_renumber_stable(s, j0);
        lemma_renumber_stable(s, i);
        lemma_renumber_downward(s, j0);
    } else {
        // fresh id m.len(): some value holds id m.len() - 1 already
        assert(renumber_spec(s)[i] == m.len() as u32);
        lemma_renumber_has_all_ids(s, i as int, (m.len() - 1) as u32);
        let v = choose|v: u64| m.contains_key(v) && m[v] == (m.len() - 1) as u32;
        let j = choose|j: int| 0 <= j < i && s[j] == v;
        lemma_renumber_stable(s, j);
        lemma_renumber_map(s, s.len() as int);
        lemma_renumber_preserve(s, i as int, s.len() as int);
        assert(renumber_map(s, s.len() as int)[v] == m[v]);
        assert(renumber_spec(s)[j] == renumber_map(s, s.len() as int)[v]);
    }
}

/// The ids in the map after `i` values are exactly `0 .. len`.
proof fn lemma_renumber_has_all_ids(s: Seq<u64>, i: int, id: u32)
    requires
        0 <= i <= s.len(),
        s.len() <= u32::MAX,
        (id as int) < renumber_map(s, i).len(),
    ensures
        exists|v: u64| renumber_map(s, i).contains_key(v) && renumber_map(s, i)[v] == id,
    decreases i,
{
    broadcast use vstd::set::group_set_axioms;
    broadcast use vstd::map::group_map_axioms;

    lemma_renumber_map_fwd(s, i);
    if i > 0 {
        let m = renumber_map(s, i - 1);
        let m2 = renumber_map(s, i);
        lemma_renumber_map_fwd(s, i - 1);
        if m.contains_key(s[i - 1]) {
            lemma_renumber_has_all_ids(s, i - 1, id);
            let v = choose|v: u64| m.contains_key(v) && m[v] == id;
            assert(m2.contains_key(v) && m2[v] == id);
        } else {
            assert(m2 == m.insert(s[i - 1], m.len() as u32));
            assert(m2.dom() =~= m.dom().insert(s[i - 1]));
            assert(m2.len() == m.len() + 1);
            if (id as int) < m.len() {
                lemma_renumber_has_all_ids(s, i - 1, id);
                let v = choose|v: u64| m.contains_key(v) && m[v] == id;
                assert(m2.contains_key(v) && m2[v] == id);
            } else {
                assert(m2.contains_key(s[i - 1]) && m2[s[i - 1]] == id);
            }
        }
    }
}


/// The position of a value in a sorted duplicate-free sequence.
pub open spec fn rank_in(dd: Seq<u64>, v: u64) -> int {
    choose|t: int| 0 <= t < dd.len() && dd[t] == v
}

/// The rank a signature receives before the first-entry swap: its position
/// among the distinct values in ascending order.
pub open spec fn sorted_rank(sigs: Seq<u64>, i: int) -> int {
    rank_in(canon_dedup(sigs), sigs[i])
}

/// Renumber the signatures by ascending value rank, except that rank 0 and
/// the first entry's rank trade places, so the first entry gets 0.  Equal
/// inputs get equal ids, distinct inputs distinct ids, and ids stay below
/// the number of distinct values.
#[verifier::loop_isolation(false)]
pub fn renumber_sort(sigs: &Vec<u64>) -> (r: Vec<u32>)
    requires
        sigs@.len() >= 1,
        sigs@.len() <= u32::MAX,
    ensures
        r@.len() == sigs@.len(),
        r@[0] == 0,
        forall|i: int|
            0 <= i < sigs@.len() ==> (#[trigger] r@[i] as int) == ({
                let t = sorted_rank(sigs@, i);
                let t0 = sorted_rank(sigs@, 0);
                if t == t0 {
                    0int
                } else if t == 0 {
                    t0
                } else {
                    t
                }
            }),
        forall|i: int|
            0 <= i < sigs@.len() ==> (#[trigger] r@[i] as int) < sigs@.to_set().len(),
        forall|i: int, j: int|
            0 <= i < sigs@.len() && 0 <= j < sigs@.len() ==> ((sigs@[i] == sigs@[j]) <==> (r@[i]
                == r@[j])),
{
    broadcast use vstd::seq_lib::group_to_multiset_ensures;
    broadcast use vstd::set::group_set_axioms;

    let ghost sq = sigs@;
    let mut tmp: Vec<u64> = Vec::new();
    let mut i: usize = 0;
    while i < sigs.len()
        invariant
            i <= sq.len(),
            tmp@ == sq.take(i as int),
        decreases sq.len() - i,
    {
        proof {
            assert(sq.take(i + 1) =~= sq.take(i as int).push(sq[i as int]));
        }
        let x = sigs[i];
        tmp.push(x);
        i = i + 1;
    }
    proof {
        assert(sq.take(sq.len() as int) =~= sq);
    }
    sort_u64(&mut tmp);
    let dd = crate::canon::dedup_u64(tmp);
    let ghost ddq = canon_dedup(sq);
    proof {
        assert(dd@ == ddq);
        lemma_leq64_total_ordering();
        sq.lemma_sort_by_ensures(leq64());
        lemma_multiset_eq_to_set_eq(sq.sort_by(leq64()), sq);
        lemma_dedup_adj_sorted(sq.sort_by(leq64()));
        lemma_canon_dedup_len(sq);
        sq.lemma_cardinality_of_set();
        assert(ddq.len() <= sq.len());
        assert(ddq.to_set() == sq.to_set());
        assert forall|q: int| 0 <= q < sq.len() implies ddq.contains(#[trigger] sq[q]) by {
            assert(sq.to_set().contains(sq[q]));
            assert(ddq.to_set().contains(sq[q]));
        }
        // ranks are unique: the sequence has no duplicates
        assert forall|q: int|
            0 <= q < sq.len() implies 0 <= sorted_rank(sq, q) < ddq.len() && ddq[sorted_rank(
            sq,
            q,
        )] == sq[q] by {
            let w = choose|t: int| 0 <= t < ddq.len() && ddq[t] == sq[q];
        }
    }
    let r0 = rank_of(&dd, sigs[0]);
    let mut out: Vec<u32> = Vec::new();
    let mut i: usize = 0;
    while i < sigs.len()
        invariant
            i <= sq.len(),
            dd@ == ddq,
            out@.len() == i,
            r0 as int == sorted_rank(sq, 0),
            r0 < dd@.len(),
            dd@.len() <= sq.len(),
            forall|q: int|
                0 <= q < sq.len() ==> 0 <= sorted_rank(sq, q) < ddq.len() && ddq[sorted_rank(
                    sq,
                    q,
                )] == sq[q],
            forall|q: int|
                0 <= q < i ==> (#[trigger] out@[q] as int) == ({
                    let t = sorted_rank(sq, q);
                    let t0 = sorted_rank(sq, 0);
                    if t == t0 {
                        0int
                    } else if t == 0 {
                        t0
                    } else {
                        t
                    }
                }),
        decreases sq.len() - i,
    {
        let t = rank_of(&dd, sigs[i]);
        let v: u32 = if t == r0 {
            0
        } else if t == 0 {
            r0 as u32
        } else {
            t as u32
        };
        out.push(v);
        i = i + 1;
    }
    proof {
        lemma_canon_dedup_len(sq);
        assert(ddq.len() == sq.to_set().len());
        assert forall|i0: int, j: int|
            0 <= i0 < sq.len() && 0 <= j < sq.len() implies ((sq[i0] == sq[j]) <==> (out@[i0]
            == out@[j])) by {
            let ti = sorted_rank(sq, i0);
            let tj = sorted_rank(sq, j);
            if sq[i0] == sq[j] {
                assert(ti == tj) by {
                    assert(ddq[ti] == sq[i0] && ddq[tj] == sq[j]);
                }
            }
            if out@[i0] == out@[j] {
                assert(ti == tj);
                assert(ddq[ti] == sq[i0] && ddq[tj] == sq[j]);
            }
        }
    }
    out
}

/// Find a value's position in a sorted duplicate-free vector.
#[verifier::loop_isolation(false)]
fn rank_of(dd: &Vec<u64>, v: u64) -> (t: usize)
    requires
        dd@.no_duplicates(),
        dd@.contains(v),
    ensures
        t < dd@.len(),
        dd@[t as int] == v,
        t as int == rank_in(dd@, v),
{
    let mut i: usize = 0;
    while i < dd.len()
        invariant
            i <= dd@.len(),
            forall|q: int| 0 <= q < i ==> dd@[q] != v,
        decreases dd@.len() - i,
    {
        if dd[i] == v {
            proof {
                let w = rank_in(dd@, v);
                assert(0 <= w < dd@.len() && dd@[w] == v);
                if w != i as int {
                    assert(dd@[w] == dd@[i as int]);
                }
            }
            return i;
        }
        i = i + 1;
    }
    proof {
        let w = choose|q: int| 0 <= q < dd@.len() && dd@[q] == v;
        assert(false);
    }
    0
}

} // verus!
