//! The naive driver: canonicalize every state each round until the number
//! of distinct signatures stops growing or every state stands alone.

use vstd::prelude::*;
use crate::PartError;
use crate::codec::CReader;
use crate::model::{NodeV, parse_states, states_of, states_refs_below, child_sigs};
use crate::canon::{repartition_all, count_states, count_parts};

verus! {

/// The iteration safeguard.
pub const NAIVE_ITER_CAP: u64 = 100000000;

/// The rounds of the naive driver, from a current assignment and its
/// distinct count: recanonicalize; stop when every state stands alone or
/// the count repeats; `None` when the safeguard runs out.
pub open spec fn naive_rounds(ts: Seq<NodeV>, ids: Seq<u64>, count: int, fuel: nat) -> Option<
    Seq<u64>,
>
    decreases fuel,
{
    if fuel == 0 {
        None
    } else {
        let nids = child_sigs(ts, ids);
        let nc = nids.to_set().len() as int;
        if nc == ts.len() || nc == count {
            Some(nids)
        } else {
            naive_rounds(ts, nids, nc, (fuel - 1) as nat)
        }
    }
}

/// The zero assignment every run starts from.
pub open spec fn zero_ids(n: int) -> Seq<u64> {
    Seq::new(n as nat, |i: int| 0u64)
}

/// Run refinement rounds to the fixed point and return the final signatures
/// truncated to 32 bits, exactly as the rounds model prescribes.  Fails
/// exactly when the stream does not parse, a reference escapes the state
/// range, or the round safeguard runs out.
#[verifier::loop_isolation(false)]
pub fn partref_naive(data: &[u8], r: &CReader) -> (res: Result<Vec<u32>, PartError>)
    requires
        r.wf(),
    ensures
        ({
            let ts = states_of(parse_states(data@, r.headers@, r.values@, 0)->Some_0);
            match res {
                Ok(out) => {
                    &&& parse_states(data@, r.headers@, r.values@, 0) is Some
                    &&& states_refs_below(ts, ts.len() as nat)
                    &&& ({
                        let first = child_sigs(ts, zero_ids(ts.len() as int));
                        let rounds = naive_rounds(
                            ts,
                            first,
                            first.to_set().len() as int,
                            NAIVE_ITER_CAP as nat,
                        );
                        &&& rounds is Some
                        &&& out@.len() == ts.len()
                        &&& forall|i: int|
                            0 <= i < out@.len() ==> (#[trigger] out@[i]) == (rounds->Some_0[i]
                                as u32)
                    })
                },
                Err(_) => parse_states(data@, r.headers@, r.values@, 0) is None
                    || !states_refs_below(ts, ts.len() as nat) || naive_rounds(
                    ts,
                    child_sigs(ts, zero_ids(ts.len() as int)),
                    child_sigs(ts, zero_ids(ts.len() as int)).to_set().len() as int,
                    NAIVE_ITER_CAP as nat,
                ) is None,
            }
        }),
{
    let ghost d = data@;
    let ghost hd = r.headers@;
    let ghost vd = r.values@;
    let n = count_states(data, r)?;
    let ghost ts = states_of(parse_states(d, hd, vd, 0)->Some_0);
    let mut zeros: Vec<u64> = Vec::new();
    let mut t: usize = 0;
    while t < n
        invariant
            t <= n,
            zeros@.len() == t,
            forall|q: int| 0 <= q < t ==> (#[trigger] zeros@[q]) == 0u64,
        decreases n - t,
    {
        zeros.push(0);
        t = t + 1;
    }
    proof {
        assert(zeros@ =~= zero_ids(ts.len() as int));
    }
    let mut ids = match repartition_all(data, r, zeros.as_slice()) {
        Ok(v) => v,
        Err(e) => {
            return Err(e);
        },
    };
    let mut part_count = count_parts(&ids);
    let ghost first = child_sigs(ts, zero_ids(ts.len() as int));
    let ghost c0 = first.to_set().len() as int;
    let mut iter: u64 = 0;
    while iter < NAIVE_ITER_CAP
        invariant
            iter <= NAIVE_ITER_CAP,
            ids@.len() == ts.len(),
            part_count == ids@.to_set().len(),
            naive_rounds(ts, first, c0, NAIVE_ITER_CAP as nat) == naive_rounds(
                ts,
                ids@,
                part_count as int,
                (NAIVE_ITER_CAP - iter) as nat,
            ),
        decreases NAIVE_ITER_CAP - iter,
    {
        let new_ids = match repartition_all(data, r, ids.as_slice()) {
            Ok(v) => v,
            Err(e) => {
                proof {
                    assert(false);
                }
                return Err(e);
            },
        };
        let new_count = count_parts(&new_ids);
        if new_count == new_ids.len() || new_count == part_count {
            let mut out: Vec<u32> = Vec::new();
            let mut q: usize = 0;
            while q < new_ids.len()
                invariant
                    q <= new_ids@.len(),
                    out@.len() == q,
                    forall|x: int|
                        0 <= x < q ==> (#[trigger] out@[x]) == (new_ids@[x] as u32),
                decreases new_ids@.len() - q,
            {
                let v = new_ids[q];
                out.push(#[verifier::truncate] (v as u32));
                q = q + 1;
            }
            return Ok(out);
        }
        ids = new_ids;
        part_count = new_count;
        iter = iter + 1;
    }
    Err(PartError::ResourceExhaustion)
}

} // verus!
