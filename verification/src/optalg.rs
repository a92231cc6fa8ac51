//! The worklist driver: refine dirty blocks until none is left, marking the
//! predecessors of every freshly split-off block dirty.

use vstd::prelude::*;
use crate::PartError;
use crate::codec::CReader;
use crate::coalg::Coalg;
use crate::model::{
    NodeV,
    parse_states,
    states_of,
    states_refs_below,
    lemma_parse_states_refs_bound,
    node_refs,
    sig_of,
    ids_agree_on,
    lemma_sig_of_agree,
};
use crate::canon::repartition;
use crate::refpart::{RefinablePartition, new_block_id, lemma_new_block_id_inj, lemma_nblocks_le_n};
use crate::renumber::{renumber, renumber_spec};

verus! {

broadcast use vstd::seq_lib::group_to_multiset_ensures;

/// Block ids widened for the signature function.
pub open spec fn widen_ids(s: Seq<u32>) -> Seq<u64> {
    s.map_values(|b: u32| b as u64)
}

/// The clean states of each block share one signature under the current
/// assignment.
pub open spec fn clean_stable(p: RefinablePartition, ts: Seq<NodeV>) -> bool {
    forall|s1: int, s2: int|
        #![trigger sig_of(ts[s1], widen_ids(p.state2block@)), sig_of(ts[s2], widen_ids(p.state2block@))]
        0 <= s1 < p.n() && 0 <= s2 < p.n() && p.state2block@[s1] == p.state2block@[s2]
            && p.is_clean(s1) && p.is_clean(s2) ==> sig_of(ts[s1], widen_ids(p.state2block@))
            == sig_of(ts[s2], widen_ids(p.state2block@))
}

/// What the driver returns on success: `out` renumbers `blocks` densely in
/// state order, keeps exactly its equalities, and `blocks` is a fixed point
/// of refinement — states of one block share a signature under it, so one
/// more round splits nothing.
pub open spec fn refined_outcome(ts: Seq<NodeV>, blocks: Seq<u32>, out: Seq<u32>) -> bool {
    &&& blocks.len() == ts.len()
    &&& out == renumber_spec(widen_ids(blocks))
    &&& forall|i: int, j: int|
        #![trigger out[i], out[j]]
        0 <= i < out.len() && 0 <= j < out.len() ==> ((out[i] == out[j]) <==> (blocks[i]
            == blocks[j]))
    &&& forall|s1: int, s2: int|
        #![trigger sig_of(ts[s1], widen_ids(blocks)), sig_of(ts[s2], widen_ids(blocks))]
        0 <= s1 < ts.len() && 0 <= s2 < ts.len() && blocks[s1] == blocks[s2] ==> sig_of(
            ts[s1],
            widen_ids(blocks),
        ) == sig_of(ts[s2], widen_ids(blocks))
}

/// A member of the split block is grouped by its signature under the
/// pre-split assignment: it carries the raw signature of some refiner `j`
/// and lands in the block of that refiner's dense signature.
proof fn lemma_member_code(
    prer: RefinablePartition,
    postr: RefinablePartition,
    ts: Seq<NodeV>,
    sigsq: Seq<u32>,
    sig64q: Seq<u64>,
    bid: int,
    nb0: int,
    lg: int,
    x: int,
) -> (j: int)
    requires
        prer.wf_core(),
        0 <= bid < nb0,
        nb0 == prer.nblocks(),
        ts.len() == prer.n(),
        0 <= x < prer.n(),
        prer.state2block@[x] == bid,
        sigsq.len() == prer.refiners_len(bid),
        sig64q.len() == sigsq.len(),
        forall|i: int|
            0 <= i < sigsq.len() ==> (#[trigger] sig64q[i]) == sig_of(
                ts[prer.buffer@[prer.refiners_start(bid) + i] as int],
                widen_ids(prer.state2block@),
            ),
        prer.partition@[bid].0 < prer.partition@[bid].1 ==> sigsq[0] == 0,
        clean_stable(prer, ts),
        forall|i: int|
            0 <= i < sigsq.len() ==> (#[trigger] postr.state2block@[prer.buffer@[prer.refiners_start(
                bid,
            ) + i] as int]) == new_block_id(sigsq[i] as int, lg, bid, nb0),
        forall|k: int|
            prer.partition@[bid].0 <= k < prer.partition@[bid].1 ==> (
            #[trigger] postr.state2block@[prer.buffer@[k] as int]) == new_block_id(
                0,
                lg,
                bid,
                nb0,
            ),
    ensures
        0 <= j < sigsq.len(),
        sig_of(ts[x], widen_ids(prer.state2block@)) == sig64q[j],
        postr.state2block@[x] == new_block_id(sigsq[j] as int, lg, bid, nb0),
{
    let s0 = prer.refiners_start(bid);
    let start = prer.partition@[bid].0 as int;
    let mid = prer.partition@[bid].1 as int;
    let end = prer.partition@[bid].2 as int;
    let kx = prer.position@[x] as int;
    assert(start <= kx < end);
    assert(prer.buffer@[kx] == x);
    assert(sigsq.len() == end - s0);
    if kx >= s0 {
        let j = kx - s0;
        assert(prer.buffer@[s0 + j] == x);
        assert(sig64q[j] == sig_of(ts[x], widen_ids(prer.state2block@)));
        assert(postr.state2block@[x] == new_block_id(sigsq[j] as int, lg, bid, nb0));
        j
    } else {
        assert(start < mid) by {
            if start == mid {
                assert(s0 == start);
            }
        }
        assert(s0 == mid - 1);
        let w = prer.buffer@[s0] as int;
        assert(prer.state2block@[w] == bid) by {
            assert(start <= s0 < end);
        }
        assert(0 <= w < prer.n());
        assert(prer.position@[w] == s0);
        assert(prer.is_clean(x)) by {
            assert(kx < mid);
        }
        assert(prer.is_clean(w)) by {
            assert(s0 < mid);
        }
        assert(sig_of(ts[x], widen_ids(prer.state2block@)) == sig_of(
            ts[w],
            widen_ids(prer.state2block@),
        ));
        assert(prer.buffer@[s0 + 0] == prer.buffer@[s0]);
        assert(sig64q[0] == sig_of(ts[w], widen_ids(prer.state2block@)));
        assert(start <= kx < mid);
        assert(postr.state2block@[x] == new_block_id(0, lg, bid, nb0));
        assert(sigsq[0] == 0);
        0
    }
}

/// Refine the partition to the fixed point and return each state's block,
/// renumbered densely in state order.  Fails exactly when the coalgebra
/// cannot be indexed: a stream that does not parse, a reference outside the
/// state range, or a buffer over the index width.  Every intermediate
/// partition satisfies the well-formedness invariant, the loop terminates
/// because each round either splits a block or shortens the worklist, and
/// the returned assignment is a fixed point of refinement.
#[verifier::loop_isolation(false)]
#[verifier::rlimit(100)]
pub fn partref_nlogn(data: Vec<u8>, r: CReader) -> (res: Result<Vec<u32>, PartError>)
    requires
        r.wf(),
    ensures
        ({
            let ts = states_of(parse_states(data@, r.headers@, r.values@, 0)->Some_0);
            match res {
                Ok(out) => {
                    &&& data@.len() <= u32::MAX
                    &&& parse_states(data@, r.headers@, r.values@, 0) is Some
                    &&& states_refs_below(ts, ts.len() as nat)
                    &&& out@.len() == ts.len()
                    &&& forall|i: int| 0 <= i < out@.len() ==> (#[trigger] out@[i]) < ts.len()
                    &&& out@.len() > 0 ==> out@[0] == 0
                    &&& exists|blocks: Seq<u32>| #[trigger] refined_outcome(ts, blocks, out@)
                },
                Err(_) => data@.len() > u32::MAX || parse_states(
                    data@,
                    r.headers@,
                    r.values@,
                    0,
                ) is None || !states_refs_below(ts, ts.len() as nat),
            }
        }),
{
    let coa = match Coalg::new(data, r) {
        Ok(c) => c,
        Err(e) => {
            return Err(e);
        },
    };
    proof {
        lemma_parse_states_refs_bound(coa.data@, coa.reader.headers@, coa.reader.values@, 0);
    }
    let n = coa.num_states();
    let ghost ts = coa.trees();
    if n == 0 {
        proof {
            let eb = Seq::<u32>::empty();
            assert(widen_ids(eb).len() == 0);
            assert(Seq::<u32>::empty() =~= renumber_spec(widen_ids(eb)));
            assert(refined_outcome(ts, eb, Seq::<u32>::empty()));
        }
        return Ok(Vec::new());
    }
    let mut partition = RefinablePartition::new(n);
    let mut done: bool = false;
    while !done
        invariant
            partition.wf(),
            partition.n() == n,
            partition.nblocks() <= n,
            coa.wf(),
            coa.n() == n,
            n as int == ts.len(),
            ts == coa.trees(),
            clean_stable(partition, ts),
            done ==> partition.worklist@.len() == 0,
        decreases n as int - partition.nblocks(), partition.worklist@.len(), (if done {
            0int
        } else {
            1int
        }),
    {
        let ghost prewl = partition;
        let popped = partition.worklist.pop_back();
        if popped.is_none() {
            proof {
                assert(partition.worklist@ == prewl.worklist@);
                assert(partition.partition@ == prewl.partition@);
                assert(partition.buffer@ == prewl.buffer@);
                assert(partition.position@ == prewl.position@);
                assert(partition.state2block@ == prewl.state2block@);
                assert forall|b: int|
                    0 <= b < partition.nblocks() implies ((exists|q: int|
                    0 <= q < partition.worklist@.len() && partition.worklist@[q] == b)
                    <==> partition.has_dirty(b)) by {
                    assert(partition.has_dirty(b) == prewl.has_dirty(b));
                    if prewl.has_dirty(b) {
                        let q = choose|q: int|
                            0 <= q < prewl.worklist@.len() && prewl.worklist@[q] == b;
                        assert(partition.worklist@[q] == b);
                    }
                    if exists|q: int|
                        0 <= q < partition.worklist@.len() && partition.worklist@[q] == b {
                        let q = choose|q: int|
                            0 <= q < partition.worklist@.len() && partition.worklist@[q] == b;
                        assert(prewl.worklist@[q] == b);
                    }
                }
                assert(clean_stable(partition, ts)) by {
                    assert forall|s1: int, s2: int|
                        #![trigger sig_of(ts[s1], widen_ids(partition.state2block@)), sig_of(ts[s2], widen_ids(partition.state2block@))]
                        0 <= s1 < partition.n() && 0 <= s2 < partition.n()
                            && partition.state2block@[s1] == partition.state2block@[s2]
                            && partition.is_clean(s1) && partition.is_clean(s2) implies sig_of(
                        ts[s1],
                        widen_ids(partition.state2block@),
                    ) == sig_of(ts[s2], widen_ids(partition.state2block@)) by {
                        assert(sig_of(ts[s1], widen_ids(prewl.state2block@)) == sig_of(
                            ts[s2],
                            widen_ids(prewl.state2block@),
                        ));
                    }
                }
            }
            done = true;
            continue ;
        }
        let block_id = match popped {
            Some(b) => b,
            None => {
                proof {
                    assert(false);
                }
                return Err(PartError::ResourceExhaustion);
            },
        };
        proof {
            let owl = prewl.worklist@;
            assert(prewl.wf());
            assert(partition.worklist@ == owl.drop_last());
            assert(owl[owl.len() - 1] == block_id);
            assert(partition.partition@ == prewl.partition@);
            assert(partition.buffer@ == prewl.buffer@);
            assert((block_id as int) < partition.nblocks());
            assert forall|b: int|
                0 <= b < partition.nblocks() && b != block_id as int implies ((exists|q: int|
                0 <= q < partition.worklist@.len() && partition.worklist@[q] == b)
                <==> partition.has_dirty(b)) by {
                assert(partition.has_dirty(b) == prewl.has_dirty(b));
                if partition.has_dirty(b) {
                    assert(exists|q: int| 0 <= q < owl.len() && owl[q] == b);
                    let q = choose|q: int| 0 <= q < owl.len() && owl[q] == b;
                    assert(q != owl.len() - 1);
                    assert(partition.worklist@.len() == owl.len() - 1);
                    assert(partition.worklist@[q] == b);
                }
                if exists|q: int|
                    0 <= q < partition.worklist@.len() && partition.worklist@[q] == b {
                    let q = choose|q: int|
                        0 <= q < partition.worklist@.len() && partition.worklist@[q] == b;
                    assert(owl[q] == b);
                }
            }
            assert(!(exists|q: int|
                0 <= q < partition.worklist@.len() && partition.worklist@[q] == block_id)) by {
                if exists|q: int|
                    0 <= q < partition.worklist@.len() && partition.worklist@[q] == block_id {
                    let q = choose|q: int|
                        0 <= q < partition.worklist@.len() && partition.worklist@[q] == block_id;
                    assert(owl[q] == block_id);
                    assert(owl[owl.len() - 1] == block_id);
                }
            }
            assert(partition.worklist_ok_except(Some(block_id as int)));
        }
        let ghost prer = partition;
        proof {
            assert(clean_stable(prer, ts)) by {
                assert forall|s1: int, s2: int|
                    #![trigger sig_of(ts[s1], widen_ids(prer.state2block@)), sig_of(ts[s2], widen_ids(prer.state2block@))]
                    0 <= s1 < prer.n() && 0 <= s2 < prer.n() && prer.state2block@[s1]
                        == prer.state2block@[s2] && prer.is_clean(s1) && prer.is_clean(
                        s2,
                    ) implies sig_of(ts[s1], widen_ids(prer.state2block@)) == sig_of(
                    ts[s2],
                    widen_ids(prer.state2block@),
                ) by {
                    assert(prer.state2block@ == prewl.state2block@);
                    assert(sig_of(ts[s1], widen_ids(prewl.state2block@)) == sig_of(
                        ts[s2],
                        widen_ids(prewl.state2block@),
                    ));
                }
            }
        }
        let states = partition.refiners(block_id);
        let sig64 = repartition(&coa, states, &partition.state2block);
        let signatures = renumber(&sig64);
        let ghost sigsq = signatures@;
        let ghost sig64q = sig64@;
        let ghost bid = block_id as int;
        let ghost nb0 = prer.nblocks();
        let new_blocks = partition.refine(block_id, &signatures);
        let ghost postr = partition;
        let ghost nfresh = new_blocks@.len() as int;
        let ghost nbfix = partition.nblocks();
        let ghost mut lg: int = 0;
        proof {
            assert(crate::refpart::split_outcome(prer, postr, sigsq, bid, nfresh));
            lg = crate::refpart::lemma_split_outcome_elim(prer, postr, sigsq, bid, nfresh);
        }
        let mut t: usize = 0;
        while t < new_blocks.len()
            invariant
                partition.wf(),
                partition.n() == n,
                partition.nblocks() == nbfix,
                t <= new_blocks@.len(),
                partition.state2block@ == postr.state2block@,
                forall|b: int|
                    0 <= b < nbfix ==> (#[trigger] partition.partition@[b]).0
                        == postr.partition@[b].0 && partition.partition@[b].2
                        == postr.partition@[b].2,
                forall|x: int| 0 <= x < n && partition.is_clean(x) ==> postr.is_clean(x),
                forall|sp: u32, x: u32|
                    sp < n && x < n && nb0 <= postr.state2block@[sp as int] < nb0 + t && (
                    #[trigger] coa.refcount(sp, x)) > 0 ==> partition.dirty_or_alone(x as int),
                new_blocks@.len() == 0 ==> partition.worklist@ == postr.worklist@,
            decreases new_blocks@.len() - t,
        {
            let b2 = new_blocks[t];
            proof {
                assert(b2 as int == nb0 + t);
                assert((b2 as int) < nbfix);
            }
            let (s2, _mid2, e2) = partition.partition[b2 as usize];
            let ghost pt = partition;
            let mut stv: Vec<u32> = Vec::new();
            let mut k: usize = s2 as usize;
            while k < e2 as usize
                invariant
                    s2 as int <= k as int <= e2 as int,
                    e2 as int <= n as int,
                    stv@ == pt.buffer@.subrange(s2 as int, k as int),
                decreases e2 as int - k,
            {
                proof {
                    assert(pt.buffer@.subrange(s2 as int, k + 1) =~= pt.buffer@.subrange(
                        s2 as int,
                        k as int,
                    ).push(pt.buffer@[k as int]));
                }
                let st = partition.buffer[k];
                stv.push(st);
                k = k + 1;
            }
            proof {
                assert(stv@ == pt.buffer@.subrange(s2 as int, e2 as int));
                assert forall|q: int| 0 <= q < stv@.len() implies (#[trigger] stv@[q]) < n by {
                    assert(stv@[q] == pt.buffer@[s2 + q]);
                }
            }
            let mut u: usize = 0;
            while u < stv.len()
                invariant
                    partition.wf(),
                    partition.n() == n,
                    partition.nblocks() == nbfix,
                    u <= stv@.len(),
                    partition.state2block@ == postr.state2block@,
                    forall|b: int|
                        0 <= b < nbfix ==> (#[trigger] partition.partition@[b]).0
                            == postr.partition@[b].0 && partition.partition@[b].2
                            == postr.partition@[b].2,
                    forall|x: int| 0 <= x < n && partition.is_clean(x) ==> postr.is_clean(x),
                    forall|sp: u32, x: u32|
                        sp < n && x < n && nb0 <= postr.state2block@[sp as int] < nb0 + t && (
                        #[trigger] coa.refcount(sp, x)) > 0 ==> partition.dirty_or_alone(x as int),
                    forall|q: int, x: u32|
                        0 <= q < u && x < n && (#[trigger] coa.refcount(stv@[q], x)) > 0
                            ==> partition.dirty_or_alone(x as int),
                decreases stv@.len() - u,
            {
                let st = stv[u];
                let preds = coa.state_backrefs(st);
                proof {
                    assert forall|q: int| 0 <= q < preds@.len() implies (#[trigger] preds@[q])
                        < n by {
                        assert(preds@.contains(preds@[q]));
                        assert(preds@.to_multiset().count(preds@[q]) > 0);
                        assert(coa.refcount(st, preds@[q]) > 0);
                    }
                }
                let mut v: usize = 0;
                while v < preds.len()
                    invariant
                        partition.wf(),
                        partition.n() == n,
                        partition.nblocks() == nbfix,
                        v <= preds@.len(),
                        partition.state2block@ == postr.state2block@,
                        forall|b: int|
                            0 <= b < nbfix ==> (#[trigger] partition.partition@[b]).0
                                == postr.partition@[b].0 && partition.partition@[b].2
                                == postr.partition@[b].2,
                        forall|x: int| 0 <= x < n && partition.is_clean(x) ==> postr.is_clean(x),
                        forall|sp: u32, x: u32|
                            sp < n && x < n && nb0 <= postr.state2block@[sp as int] < nb0 + t && (
                            #[trigger] coa.refcount(sp, x)) > 0 ==> partition.dirty_or_alone(
                                x as int,
                            ),
                        forall|q: int, x: u32|
                            0 <= q < u && x < n && (#[trigger] coa.refcount(stv@[q], x)) > 0
                                ==> partition.dirty_or_alone(x as int),
                        forall|w: int|
                            0 <= w < v ==> partition.dirty_or_alone(#[trigger] preds@[w] as int),
                    decreases preds@.len() - v,
                {
                    let s3 = preds[v];
                    partition.mark_dirty(s3);
                    v = v + 1;
                }
                proof {
                    assert forall|x: u32|
                        x < n && (#[trigger] coa.refcount(stv@[u as int], x))
                            > 0 implies partition.dirty_or_alone(x as int) by {
                        assert(preds@.to_multiset().count(x) == coa.refcount(stv@[u as int], x));
                        assert(preds@.contains(x));
                        let w = choose|w: int| 0 <= w < preds@.len() && preds@[w] == x;
                        assert(partition.dirty_or_alone(preds@[w] as int));
                    }
                }
                u = u + 1;
            }
            proof {
                assert forall|sp: u32, x: u32|
                    sp < n && x < n && postr.state2block@[sp as int] == b2 && (
                    #[trigger] coa.refcount(sp, x)) > 0 implies partition.dirty_or_alone(
                    x as int,
                ) by {
                    let kp = pt.position@[sp as int] as int;
                    assert(pt.buffer@[kp] == sp);
                    assert(pt.state2block@[sp as int] == b2);
                    assert(pt.partition@[b2 as int].0 == s2 && pt.partition@[b2 as int].2 == e2);
                    assert(s2 as int <= kp < e2 as int);
                    assert(stv@[kp - s2] == sp);
                    assert(coa.refcount(stv@[kp - s2], x) > 0);
                }
            }
            t = t + 1;
        }
        proof {
            lemma_nblocks_le_n(partition);
            // the refinement restores the clean-signature invariant: a state
            // still clean afterwards kept its signature, and its block mates
            // carried the same signature before the split
            assert forall|s1: int, s2: int|
                #![trigger sig_of(ts[s1], widen_ids(partition.state2block@)), sig_of(ts[s2], widen_ids(partition.state2block@))]
                0 <= s1 < partition.n() && 0 <= s2 < partition.n() && partition.state2block@[s1]
                    == partition.state2block@[s2] && partition.is_clean(s1) && partition.is_clean(
                s2,
            ) implies sig_of(ts[s1], widen_ids(partition.state2block@)) == sig_of(
                ts[s2],
                widen_ids(partition.state2block@),
            ) by {
                let b = partition.state2block@[s1] as int;
                assert(partition.state2block@ == postr.state2block@);
                assert(widen_ids(partition.state2block@) == widen_ids(postr.state2block@));
                if partition.partition@[b].2 - partition.partition@[b].0 <= 1 {
                    assert(partition.buffer@[partition.position@[s1] as int] == s1);
                    assert(partition.buffer@[partition.position@[s2] as int] == s2);
                    assert(partition.position@[s1] as int == partition.position@[s2] as int);
                    assert(s1 == s2);
                } else {
                    assert(!partition.dirty_or_alone(s1));
                    assert(!partition.dirty_or_alone(s2));
                    assert(ids_agree_on(
                        node_refs(ts[s1]),
                        widen_ids(prer.state2block@),
                        widen_ids(postr.state2block@),
                    )) by {
                        assert forall|i: int|
                            0 <= i < node_refs(ts[s1]).len() implies widen_ids(prer.state2block@)[(
                        #[trigger] node_refs(ts[s1])[i]) as int] == widen_ids(postr.state2block@)[
                        node_refs(ts[s1])[i] as int] by {
                            let rr = node_refs(ts[s1])[i];
                            assert(crate::model::refs_below(node_refs(ts[s1]), n as nat));
                            assert((rr as int) < n);
                            if postr.state2block@[rr as int] != prer.state2block@[rr as int] {
                                assert(prer.state2block@[rr as int] == bid);
                                assert(nb0 <= postr.state2block@[rr as int] < nb0 + nfresh);
                                assert(coa.refcount(rr, s1 as u32) > 0) by {
                                    assert(node_refs(ts[s1]).contains(rr));
                                    assert(node_refs(ts[s1]).to_multiset().count(rr) > 0);
                                }
                                assert(partition.dirty_or_alone(s1));
                                assert(false);
                            }
                            assert(widen_ids(prer.state2block@)[rr as int]
                                == prer.state2block@[rr as int] as u64);
                            assert(widen_ids(postr.state2block@)[rr as int]
                                == postr.state2block@[rr as int] as u64);
                        }
                    }
                    lemma_sig_of_agree(
                        ts[s1],
                        widen_ids(prer.state2block@),
                        widen_ids(postr.state2block@),
                    );
                    assert(ids_agree_on(
                        node_refs(ts[s2]),
                        widen_ids(prer.state2block@),
                        widen_ids(postr.state2block@),
                    )) by {
                        assert forall|i: int|
                            0 <= i < node_refs(ts[s2]).len() implies widen_ids(prer.state2block@)[(
                        #[trigger] node_refs(ts[s2])[i]) as int] == widen_ids(postr.state2block@)[
                        node_refs(ts[s2])[i] as int] by {
                            let rr = node_refs(ts[s2])[i];
                            assert(crate::model::refs_below(node_refs(ts[s2]), n as nat));
                            assert((rr as int) < n);
                            if postr.state2block@[rr as int] != prer.state2block@[rr as int] {
                                assert(prer.state2block@[rr as int] == bid);
                                assert(nb0 <= postr.state2block@[rr as int] < nb0 + nfresh);
                                assert(coa.refcount(rr, s2 as u32) > 0) by {
                                    assert(node_refs(ts[s2]).contains(rr));
                                    assert(node_refs(ts[s2]).to_multiset().count(rr) > 0);
                                }
                                assert(partition.dirty_or_alone(s2));
                                assert(false);
                            }
                            assert(widen_ids(prer.state2block@)[rr as int]
                                == prer.state2block@[rr as int] as u64);
                            assert(widen_ids(postr.state2block@)[rr as int]
                                == postr.state2block@[rr as int] as u64);
                        }
                    }
                    lemma_sig_of_agree(
                        ts[s2],
                        widen_ids(prer.state2block@),
                        widen_ids(postr.state2block@),
                    );
                    if prer.state2block@[s1] == bid && prer.state2block@[s2] == bid {
                        let j1 = lemma_member_code(
                            prer,
                            postr,
                            ts,
                            sigsq,
                            sig64q,
                            bid,
                            nb0,
                            lg,
                            s1,
                        );
                        let j2 = lemma_member_code(
                            prer,
                            postr,
                            ts,
                            sigsq,
                            sig64q,
                            bid,
                            nb0,
                            lg,
                            s2,
                        );
                        if sigsq[j1] != sigsq[j2] {
                            lemma_new_block_id_inj(sigsq[j1] as int, sigsq[j2] as int, lg, bid, nb0);
                            assert(false);
                        }
                        assert(sig64q[j1] == sig64q[j2]);
                        assert(sig_of(ts[s1], widen_ids(prer.state2block@)) == sig_of(
                            ts[s2],
                            widen_ids(prer.state2block@),
                        ));
                    } else if prer.state2block@[s1] != bid && prer.state2block@[s2] != bid {
                        assert(postr.state2block@[s1] == prer.state2block@[s1]);
                        assert(postr.state2block@[s2] == prer.state2block@[s2]);
                        assert(prer.state2block@[s1] == prer.state2block@[s2]);
                        assert(postr.is_clean(s1) && postr.is_clean(s2));
                        let b1 = prer.state2block@[s1] as int;
                        assert(b1 != bid);
                        assert(postr.partition@[b1] == prer.partition@[b1]);
                        assert(postr.position@[s1] == prer.position@[s1]);
                        assert(postr.position@[s2] == prer.position@[s2]);
                        assert(prer.is_clean(s1) && prer.is_clean(s2));
                        assert(sig_of(ts[s1], widen_ids(prer.state2block@)) == sig_of(
                            ts[s2],
                            widen_ids(prer.state2block@),
                        ));
                    } else {
                        assert(postr.state2block@[s1] != postr.state2block@[s2]);
                        assert(false);
                    }
                }
            }
            assert(clean_stable(partition, ts));
        }
    }
    let mut wide: Vec<u64> = Vec::new();
    let mut t: usize = 0;
    proof {
        assert forall|s: int| 0 <= s < n implies partition.is_clean(s) by {
            let b = partition.state2block@[s] as int;
            assert(!partition.has_dirty(b)) by {
                if partition.has_dirty(b) {
                    assert(exists|q: int|
                        0 <= q < partition.worklist@.len() && partition.worklist@[q] == b);
                    let q = choose|q: int|
                        0 <= q < partition.worklist@.len() && partition.worklist@[q] == b;
                    assert(false);
                }
            }
            assert(partition.position@[s] < partition.partition@[b].2);
        }
    }
    while t < partition.state2block.len()
        invariant
            partition.wf(),
            partition.n() == n,
            t <= partition.state2block@.len(),
            wide@.len() == t,
            forall|q: int|
                0 <= q < t ==> (#[trigger] wide@[q]) == partition.state2block@[q] as u64,
        decreases partition.state2block@.len() - t,
    {
        let x = partition.state2block[t];
        wide.push(x as u64);
        t = t + 1;
    }
    let out = renumber(&wide);
    proof {
        let blocks = partition.state2block@;
        assert(wide@ =~= widen_ids(blocks));
        assert(out@ == renumber_spec(widen_ids(blocks)));
        assert forall|i: int, j: int|
            #![trigger out@[i], out@[j]]
            0 <= i < out@.len() && 0 <= j < out@.len() implies ((out@[i] == out@[j]) <==> (
        blocks[i] == blocks[j])) by {
            assert((wide@[i] == wide@[j]) <==> (out@[i] == out@[j]));
            assert(wide@[i] == blocks[i] as u64 && wide@[j] == blocks[j] as u64);
        }
        assert forall|s1: int, s2: int|
            #![trigger sig_of(ts[s1], widen_ids(blocks)), sig_of(ts[s2], widen_ids(blocks))]
            0 <= s1 < ts.len() && 0 <= s2 < ts.len() && blocks[s1] == blocks[s2] implies sig_of(
            ts[s1],
            widen_ids(blocks),
        ) == sig_of(ts[s2], widen_ids(blocks)) by {
            assert(partition.is_clean(s1) && partition.is_clean(s2));
            assert(sig_of(ts[s1], widen_ids(partition.state2block@)) == sig_of(
                ts[s2],
                widen_ids(partition.state2block@),
            ));
        }
        assert(refined_outcome(ts, blocks, out@));
    }
    Ok(out)
}

} // verus!
