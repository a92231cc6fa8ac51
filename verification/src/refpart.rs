//! The refinable partition: a three-way clean/dirty block structure over a
//! permutation buffer, with swap-based dirty marking and block splitting.

use vstd::prelude::*;
use std::collections::VecDeque;
use crate::PartError;

verus! {

/// The sum of a count vector.
pub open spec fn seq_sum(s: Seq<u32>) -> int
    decreases s.len(),
{
    if s.len() == 0 {
        0
    } else {
        seq_sum(s.drop_last()) + s.last()
    }
}

pub proof fn lemma_seq_sum_take(s: Seq<u32>, i: int)
    requires
        0 <= i < s.len(),
    ensures
        seq_sum(s.take(i + 1)) == seq_sum(s.take(i)) + s[i],
{
    assert(s.take(i + 1).drop_last() =~= s.take(i));
    assert(s.take(i + 1).last() == s[i]);
}

pub proof fn lemma_seq_sum_nonneg(s: Seq<u32>)
    ensures
        seq_sum(s) >= 0,
    decreases s.len(),
{
    if s.len() > 0 {
        lemma_seq_sum_nonneg(s.drop_last());
    }
}

pub proof fn lemma_seq_sum_take_mono(s: Seq<u32>, a: int, b: int)
    requires
        0 <= a <= b <= s.len(),
    ensures
        seq_sum(s.take(a)) <= seq_sum(s.take(b)),
    decreases b - a,
{
    if a < b {
        lemma_seq_sum_take(s, a);
        lemma_seq_sum_take_mono(s, a + 1, b);
    }
}





/// Prefix-sum in place: each cell becomes the sum of the original cells up
/// to and including itself.
#[verifier::loop_isolation(false)]
pub fn cumsum_mut(xs: &mut Vec<u32>)
    requires
        seq_sum(old(xs)@) <= u32::MAX,
    ensures
        final(xs)@.len() == old(xs)@.len(),
        forall|i: int|
            0 <= i < old(xs)@.len() ==> final(xs)@[i] == seq_sum(old(xs)@.take(i + 1)),
{
    let n = xs.len();
    let mut sum: u32 = 0;
    let mut i: usize = 0;
    while i < n
        invariant
            i <= n,
            n == xs@.len(),
            sum == seq_sum(old(xs)@.take(i as int)),
            forall|k: int| 0 <= k < i ==> xs@[k] == seq_sum(old(xs)@.take(k + 1)),
            forall|k: int| i <= k < n ==> xs@[k] == old(xs)@[k],
        decreases n - i,
    {
        proof {
            lemma_seq_sum_take(old(xs)@, i as int);
            lemma_seq_sum_nonneg(old(xs)@.take(i as int));
            lemma_seq_sum_take_mono(old(xs)@, i + 1, n as int);
            assert(old(xs)@.take(n as int) =~= old(xs)@);
        }
        let x = xs[i];
        sum = sum + x;
        xs.set(i, sum);
        i = i + 1;
    }
}

/// Prefix-sum into a fresh vector.
pub fn cumsum(xs: &Vec<u32>) -> (r: Vec<u32>)
    requires
        seq_sum(xs@) <= u32::MAX,
    ensures
        r@.len() == xs@.len(),
        forall|i: int| 0 <= i < xs@.len() ==> r@[i] == seq_sum(xs@.take(i + 1)),
{
    let mut ys: Vec<u32> = Vec::new();
    let mut i: usize = 0;
    while i < xs.len()
        invariant
            i <= xs@.len(),
            ys@ == xs@.take(i as int),
        decreases xs@.len() - i,
    {
        proof {
            assert(xs@.take(i + 1) =~= xs@.take(i as int).push(xs@[i as int]));
        }
        let x = xs[i];
        ys.push(x);
        i = i + 1;
    }
    proof {
        assert(xs@.take(xs@.len() as int) =~= xs@);
    }
    cumsum_mut(&mut ys);
    ys
}

/// Occurrence counts: cell `v` holds how often `v` occurs; the vector ends
/// at the largest occurring value.
#[verifier::loop_isolation(false)]
pub fn counts_vec(xs: &Vec<u32>) -> (r: Vec<u32>)
    requires
        xs@.len() <= u32::MAX,
    ensures
        forall|v: int|
            0 <= v < r@.len() ==> (#[trigger] r@[v]) == xs@.to_multiset().count(v as u32),
        forall|i: int| 0 <= i < xs@.len() ==> (#[trigger] xs@[i]) < r@.len(),
        r@.len() <= u32::MAX + 1,
        r@.len() == 0 ==> xs@.len() == 0,
        r@.len() > 0 ==> xs@.to_multiset().count((r@.len() - 1) as u32) > 0,
    decreases xs@.len(),
{
    broadcast use vstd::seq_lib::group_to_multiset_ensures;
    broadcast use vstd::multiset::group_multiset_axioms;

    let mut counts: Vec<u32> = Vec::new();
    let mut i: usize = 0;
    while i < xs.len()
        invariant
            i <= xs@.len(),
            counts@.len() <= u32::MAX + 1,
            forall|v: int|
                0 <= v < counts@.len() ==> (#[trigger] counts@[v]) == xs@.take(
                    i as int,
                ).to_multiset().count(v as u32),
            forall|k: int| 0 <= k < i ==> (#[trigger] xs@[k]) < counts@.len(),
            counts@.len() == 0 ==> i == 0,
            counts@.len() > 0 ==> xs@.take(i as int).to_multiset().count(
                (counts@.len() - 1) as u32,
            ) > 0,
        decreases xs@.len() - i,
    {
        let x = xs[i];
        proof {
            assert(xs@.take(i + 1) =~= xs@.take(i as int).push(xs@[i as int]));
        }
        let ghost elen = counts@.len() as int;
        while counts.len() <= x as usize
            invariant
                counts@.len() >= elen,
                counts@.len() <= u32::MAX + 1,
                counts@.len() <= x as usize + 1 || counts@.len() == elen,
                forall|v: int|
                    0 <= v < counts@.len() ==> (#[trigger] counts@[v]) == xs@.take(
                        i as int,
                    ).to_multiset().count(v as u32),
            decreases x as usize + 1 - counts@.len(),
        {
            let ghost olen = counts@.len() as int;
            counts.push(0);
            proof {
                if xs@.take(i as int).to_multiset().count(olen as u32) > 0 {
                    assert(xs@.take(i as int).contains(olen as u32));
                    let w = choose|w: int|
                        0 <= w < xs@.take(i as int).len() && xs@.take(i as int)[w] == olen as u32;
                    assert(xs@.take(i as int)[w] == xs@[w]);
                    assert(xs@[w] < elen);
                    assert(false);
                }
            }
        }
        let c = counts[x as usize];
        proof {
            assert(xs@.take(i as int).to_multiset().count(x) <= xs@.take(
                i as int,
            ).to_multiset().len());
        }
        counts.set(x as usize, c + 1);
        proof {
            assert(xs@.take(i + 1).to_multiset() == xs@.take(i as int).to_multiset().insert(x));
            assert forall|v: int|
                0 <= v < counts@.len() implies (#[trigger] counts@[v]) == xs@.take(
                i + 1,
            ).to_multiset().count(v as u32) by {
                if v == x as int {
                } else {
                    assert(v as u32 != x);
                }
            }
            assert(counts@.len() > 0);
            let last = (counts@.len() - 1) as u32;
            assert(xs@.take(i + 1).to_multiset().count(last) >= xs@.take(
                i as int,
            ).to_multiset().count(last));
            if counts@.len() == x as usize + 1 {
                assert(last == x);
                assert(xs@.take(i + 1).to_multiset().count(x) > 0);
            } else {
                assert(counts@.len() == elen);
            }
        }
        i = i + 1;
    }
    proof {
        assert(xs@.take(xs@.len() as int) =~= xs@);
    }
    counts
}

/// The index of the largest count; ties go to the highest index.
#[verifier::loop_isolation(false)]
pub fn index_of_max(counts: &Vec<u32>) -> (r: usize)
    requires
        counts@.len() > 0,
    ensures
        r < counts@.len(),
        forall|i: int| 0 <= i < counts@.len() ==> (#[trigger] counts@[i]) <= counts@[r as int],
        forall|i: int| r < i < counts@.len() ==> (#[trigger] counts@[i]) < counts@[r as int],
{
    let mut i_max: usize = 0;
    let mut v_max: u32 = counts[0];
    let mut i: usize = 1;
    while i < counts.len()
        invariant
            1 <= i <= counts@.len(),
            i_max < i,
            v_max == counts@[i_max as int],
            forall|k: int| 0 <= k < i ==> (#[trigger] counts@[k]) <= v_max,
            forall|k: int| i_max < k < i ==> (#[trigger] counts@[k]) < v_max,
        decreases counts@.len() - i,
    {
        if counts[i] >= v_max {
            i_max = i;
            v_max = counts[i];
        }
        i = i + 1;
    }
    i_max
}


/// The sum of all block widths.
pub open spec fn spans(parts: Seq<(u32, u32, u32)>) -> int
    decreases parts.len(),
{
    if parts.len() == 0 {
        0
    } else {
        spans(parts.drop_last()) + (parts.last().2 - parts.last().0)
    }
}

pub proof fn lemma_spans_update(parts: Seq<(u32, u32, u32)>, i: int, v: (u32, u32, u32))
    requires
        0 <= i < parts.len(),
    ensures
        spans(parts.update(i, v)) == spans(parts) - (parts[i].2 - parts[i].0) + (v.2 - v.0),
    decreases parts.len(),
{
    if i == parts.len() - 1 {
        assert(parts.update(i, v).drop_last() =~= parts.drop_last());
        assert(parts.update(i, v).last() == v);
    } else {
        assert(parts.update(i, v).drop_last() =~= parts.drop_last().update(i, v));
        assert(parts.update(i, v).last() == parts.last());
        lemma_spans_update(parts.drop_last(), i, v);
    }
}



/// The refinable partition.  `buffer` is a permutation of the states,
/// `position` its inverse, `state2block` the current block of each state,
/// and each block `(start, mid, end)` owns `buffer[start..end)`, with
/// `buffer[start..mid)` clean and `buffer[mid..end)` dirty.  The worklist
/// holds exactly the blocks with a dirty state.
pub struct RefinablePartition {
    pub buffer: Vec<u32>,
    pub position: Vec<u32>,
    pub state2block: Vec<u32>,
    pub partition: Vec<(u32, u32, u32)>,
    pub worklist: VecDeque<u32>,
}

impl RefinablePartition {
    pub open spec fn n(&self) -> int {
        self.buffer@.len() as int
    }

    pub open spec fn nblocks(&self) -> int {
        self.partition@.len() as int
    }

    /// Structural soundness, without the worklist: the buffer and position
    /// arrays are inverse permutations, every block is a nonempty interval,
    /// the blocks cover everything, and block membership agrees with
    /// `state2block`.
    pub open spec fn wf_core(&self) -> bool {
        &&& self.position@.len() == self.n()
        &&& self.state2block@.len() == self.n()
        &&& self.n() <= u32::MAX
        &&& spans(self.partition@) == self.n()
        &&& forall|b: int|
            0 <= b < self.nblocks() ==> (#[trigger] self.partition@[b]).0
                <= self.partition@[b].1 <= self.partition@[b].2 <= self.n()
        &&& forall|b: int|
            0 <= b < self.nblocks() ==> (#[trigger] self.partition@[b]).0
                < self.partition@[b].2
        &&& forall|s: int|
            0 <= s < self.n() ==> (#[trigger] self.position@[s]) < self.n()
        &&& forall|s: int|
            0 <= s < self.n() ==> (#[trigger] self.buffer@[self.position@[s] as int]) == s
        &&& forall|k: int|
            0 <= k < self.n() ==> (#[trigger] self.buffer@[k]) < self.n()
        &&& forall|k: int|
            0 <= k < self.n() ==> (#[trigger] self.position@[self.buffer@[k] as int]) == k
        &&& forall|s: int|
            0 <= s < self.n() ==> (#[trigger] self.state2block@[s]) < self.nblocks()
        &&& forall|s: int|
            0 <= s < self.n() ==> (#[trigger] self.partition@[self.state2block@[s] as int]).0
                <= self.position@[s] < self.partition@[self.state2block@[s] as int].2
        &&& forall|b: int, k: int|
            0 <= b < self.nblocks() && (#[trigger] self.partition@[b]).0 <= k
                < self.partition@[b].2 ==> (#[trigger] self.state2block@[self.buffer@[k] as int])
                == b
    }

    /// A state is dirty when it sits at or past its block's `mid`.
    pub open spec fn has_dirty(&self, b: int) -> bool {
        self.partition@[b].1 < self.partition@[b].2
    }

    /// The state sits in its block's clean region.
    pub open spec fn is_clean(&self, x: int) -> bool {
        self.position@[x] < self.partition@[self.state2block@[x] as int].1
    }

    /// The state is dirty, or alone in its block.
    pub open spec fn dirty_or_alone(&self, x: int) -> bool {
        let b = self.state2block@[x] as int;
        self.partition@[b].2 - self.partition@[b].0 <= 1 || self.position@[x]
            >= self.partition@[b].1
    }

    /// Where the refiners of a block begin: its dirty region, preceded by
    /// one clean witness if any clean state exists.
    pub open spec fn refiners_start(&self, b: int) -> int {
        if self.partition@[b].0 == self.partition@[b].1 {
            self.partition@[b].0 as int
        } else {
            self.partition@[b].1 - 1
        }
    }

    /// How many states the next refinement round of the block must
    /// canonicalize.
    pub open spec fn refiners_len(&self, b: int) -> int {
        self.partition@[b].2 - self.refiners_start(b)
    }

    /// The worklist holds exactly the blocks with a dirty state, each once,
    /// except possibly a popped block under refinement.
    pub open spec fn worklist_ok_except(&self, popped: Option<int>) -> bool {
        &&& forall|q: int|
            0 <= q < self.worklist@.len() ==> (#[trigger] self.worklist@[q]) < self.nblocks()
        &&& forall|q1: int, q2: int|
            0 <= q1 < q2 < self.worklist@.len() ==> self.worklist@[q1] != self.worklist@[q2]
        &&& forall|b: int|
            0 <= b < self.nblocks() && Some(b) != popped ==> ((exists|q: int|
                0 <= q < self.worklist@.len() && self.worklist@[q] == b) <==> self.has_dirty(b))
        &&& match popped {
            Some(b) => !(exists|q: int|
                0 <= q < self.worklist@.len() && self.worklist@[q] == b),
            None => true,
        }
    }

    pub open spec fn wf(&self) -> bool {
        self.wf_core() && self.worklist_ok_except(None)
    }

    /// One block holding every state, all dirty, on the worklist.
    pub fn new(num_states: u32) -> (r: RefinablePartition)
        requires
            num_states >= 1,
        ensures
            r.wf(),
            r.n() == num_states,
            r.nblocks() == 1,
            r.partition@[0] == (0u32, 0u32, num_states),
            forall|s: int| 0 <= s < num_states ==> (#[trigger] r.state2block@[s]) == 0,
            forall|k: int| 0 <= k < num_states ==> (#[trigger] r.buffer@[k]) == k,
            r.worklist@ =~= seq![0u32],
    {
        let mut buffer: Vec<u32> = Vec::new();
        let mut position: Vec<u32> = Vec::new();
        let mut state2block: Vec<u32> = Vec::new();
        let mut i: u32 = 0;
        while i < num_states
            invariant
                i <= num_states,
                buffer@.len() == i,
                position@.len() == i,
                state2block@.len() == i,
                forall|k: int| 0 <= k < i ==> (#[trigger] buffer@[k]) == k,
                forall|k: int| 0 <= k < i ==> (#[trigger] position@[k]) == k,
                forall|k: int| 0 <= k < i ==> (#[trigger] state2block@[k]) == 0,
            decreases num_states - i,
        {
            buffer.push(i);
            position.push(i);
            state2block.push(0);
            i = i + 1;
        }
        let mut partition: Vec<(u32, u32, u32)> = Vec::new();
        partition.push((0, 0, num_states));
        let mut worklist: VecDeque<u32> = VecDeque::new();
        worklist.push_back(0);
        proof {
            assert(spans(partition@.drop_last()) == 0) by {
                assert(partition@.drop_last() =~= Seq::<(u32, u32, u32)>::empty());
            }
            assert(worklist@ =~= seq![0u32]);
            assert(worklist@[0] == 0u32);
            let r = RefinablePartition { buffer, position, state2block, partition, worklist };
            assert(r.position@.len() == r.n() && r.state2block@.len() == r.n());
            assert(spans(r.partition@) == r.n());
            assert forall|b: int, k: int|
                0 <= b < r.nblocks() && (#[trigger] r.partition@[b]).0 <= k
                    < r.partition@[b].2 implies (#[trigger] r.state2block@[r.buffer@[k] as int])
                == b by {
                assert(b == 0);
                assert(r.buffer@[k] == k);
            }
            assert forall|b: int|
                0 <= b < r.nblocks() implies ((exists|q: int|
                0 <= q < r.worklist@.len() && r.worklist@[q] == b) <==> r.has_dirty(b)) by {
                assert(r.worklist@[0] == 0u32);
                assert(r.has_dirty(0));
            }
        }
        RefinablePartition { buffer, position, state2block, partition, worklist }
    }

    /// Move the state into its block's dirty region, enqueueing the block
    /// when it was all clean.  Nothing changes for a singleton block or an
    /// already dirty state; block membership never changes.
    #[verifier::loop_isolation(false)]
    #[verifier::rlimit(100)]
    pub fn mark_dirty(&mut self, state: u32)
        requires
            old(self).wf(),
            (state as int) < old(self).n(),
        ensures
            final(self).wf(),
            final(self).n() == old(self).n(),
            final(self).nblocks() == old(self).nblocks(),
            final(self).state2block@ == old(self).state2block@,
            forall|b: int|
                0 <= b < old(self).nblocks() ==> (#[trigger] final(self).partition@[b]).0
                    == old(self).partition@[b].0 && final(self).partition@[b].2 == old(self).partition@[b].2,
            final(self).buffer@.to_multiset() == old(self).buffer@.to_multiset(),
            final(self).dirty_or_alone(state as int),
            forall|x: int|
                0 <= x < old(self).n() && old(self).dirty_or_alone(x)
                    ==> final(self).dirty_or_alone(x),
            forall|x: int|
                0 <= x < old(self).n() && final(self).is_clean(x) ==> old(self).is_clean(x),
            // a singleton block or an already dirty state: a complete no-op;
            // otherwise the state swaps to the post-decrement clean bound
            ({
                let b = old(self).state2block@[state as int] as int;
                let start = old(self).partition@[b].0;
                let mid = old(self).partition@[b].1;
                let end = old(self).partition@[b].2;
                let pos = old(self).position@[state as int];
                if end - start <= 1 || mid <= pos {
                    &&& final(self).buffer@ == old(self).buffer@
                    &&& final(self).position@ == old(self).position@
                    &&& final(self).partition@ == old(self).partition@
                    &&& final(self).worklist@ == old(self).worklist@
                } else {
                    &&& final(self).partition@ == old(self).partition@.update(
                        b,
                        (start, (mid - 1) as u32, end),
                    )
                    &&& final(self).position@[state as int] == mid - 1
                    &&& final(self).buffer@[mid - 1] == state
                    &&& final(self).buffer@[pos as int] == old(self).buffer@[mid - 1]
                    &&& final(self).position@[old(self).buffer@[mid - 1] as int] == pos
                    &&& (forall|s2: int|
                        0 <= s2 < old(self).n() && s2 != state as int && s2 != old(self).buffer@[
                            mid - 1
                        ] as int ==> (#[trigger] final(self).position@[s2]) == old(self).position@[
                            s2
                        ])
                    &&& (forall|k: int|
                        0 <= k < old(self).n() && k != pos as int && k != mid - 1 ==> (
                        #[trigger] final(self).buffer@[k]) == old(self).buffer@[k])
                    &&& final(self).worklist@ == (if mid == end {
                        old(self).worklist@.push(old(self).state2block@[state as int])
                    } else {
                        old(self).worklist@
                    })
                }
            }),
    {
        broadcast use vstd::seq_lib::group_to_multiset_ensures;

        let id = self.state2block[state as usize];
        let pos = self.position[state as usize];
        let (start, mid, end) = self.partition[id as usize];
        if end - start <= 1 {
            return ;
        }
        if mid <= pos {
            return ;
        }
        if mid == end {
            self.worklist.push_back(id);
            proof {
                assert forall|b: int|
                    0 <= b < self.nblocks() implies ((exists|q: int|
                    0 <= q < self.worklist@.len() && self.worklist@[q] == b) <==> (
                b == id as int || old(self).has_dirty(b))) by {
                    if exists|q: int|
                        0 <= q < old(self).worklist@.len() && old(self).worklist@[q] == b {
                        let q = choose|q: int|
                            0 <= q < old(self).worklist@.len() && old(self).worklist@[q] == b;
                        assert(self.worklist@[q] == b);
                    }
                    if b == id as int {
                        assert(self.worklist@[self.worklist@.len() - 1] == id);
                    } else if old(self).has_dirty(b) {
                    }
                }
            }
        }
        let other_state = self.buffer[(mid - 1) as usize];
        self.position.set(other_state as usize, pos);
        self.position.set(state as usize, mid - 1);
        self.buffer.set(pos as usize, other_state);
        self.buffer.set((mid - 1) as usize, state);
        let ghost oldparts = self.partition@;
        let part_ref = &mut self.partition[id as usize];
        *part_ref = (start, mid - 1, end);
        proof {
            assert(self.partition@ =~= oldparts.update(id as int, (start, (mid - 1) as u32, end)));
            lemma_spans_update(oldparts, id as int, (start, (mid - 1) as u32, end));
            assert(self.buffer@ =~= old(self).buffer@.update(pos as int, other_state).update(
                mid - 1,
                state,
            ));
            if pos as int != mid - 1 {
                assert(old(self).buffer@.update(pos as int, other_state).update(mid - 1, state)
                    .to_multiset() =~= old(self).buffer@.to_multiset()) by {
                    let s0 = old(self).buffer@;
                    assert(s0[pos as int] == state && s0[mid - 1] == other_state);
                    assert(s0.update(pos as int, other_state)[mid - 1] == other_state);
                    broadcast use vstd::multiset::group_multiset_axioms;

                    assert(s0.to_multiset().contains(state));
                    assert(s0.update(pos as int, other_state).to_multiset() =~= s0.to_multiset()
                        .remove(state).insert(other_state));
                    assert(s0.update(pos as int, other_state).update(mid - 1, state).to_multiset()
                        =~= s0.update(pos as int, other_state).to_multiset().remove(
                        other_state,
                    ).insert(state));
                }
            } else {
                assert(pos == mid - 1);
                assert(other_state == state);
                assert(self.buffer@ =~= old(self).buffer@);
            }
            let np = self.position@;
            let nb = self.buffer@;
            let n = self.n();
            assert(old(self).state2block@[other_state as int] == id) by {
                assert(old(self).partition@[id as int].0 <= mid - 1 < old(self).partition@[id as int].2);
            }
            assert forall|s: int| 0 <= s < n implies (#[trigger] np[s]) < n && nb[np[s] as int]
                == s by {
                if s == state as int {
                } else if s == other_state as int {
                } else {
                    assert(old(self).position@[s] != pos) by {
                        if old(self).position@[s] == pos {
                            assert(old(self).buffer@[pos as int] == s);
                        }
                    }
                    assert(old(self).position@[s] != mid - 1) by {
                        if old(self).position@[s] == mid - 1 {
                            assert(old(self).buffer@[mid - 1] == s);
                        }
                    }
                }
            }
            assert forall|k: int| 0 <= k < n implies (#[trigger] nb[k]) < n && np[nb[k] as int]
                == k by {
                if k == pos as int {
                } else if k == mid - 1 {
                } else {
                    assert(nb[k] == old(self).buffer@[k]);
                    assert(old(self).position@[old(self).buffer@[k] as int] == k);
                }
            }
            assert forall|s: int|
                0 <= s < n implies (#[trigger] self.partition@[self.state2block@[s] as int]).0
                <= np[s] < self.partition@[self.state2block@[s] as int].2 by {
                assert(self.state2block@[s] == old(self).state2block@[s]);
                let bs = self.state2block@[s] as int;
                assert(self.partition@[bs].0 == old(self).partition@[bs].0);
                assert(self.partition@[bs].2 == old(self).partition@[bs].2);
                if s == state as int {
                    assert(bs == id as int);
                } else if s == other_state as int {
                    assert(bs == id as int);
                } else {
                    assert(np[s] == old(self).position@[s]);
                }
            }
            assert forall|b: int, k: int|
                0 <= b < self.nblocks() && (#[trigger] self.partition@[b]).0 <= k
                    < self.partition@[b].2 implies (#[trigger] self.state2block@[self.buffer@[k]
                as int]) == b by {
                assert(self.partition@[b].0 == old(self).partition@[b].0);
                assert(self.partition@[b].2 == old(self).partition@[b].2);
                if k == pos as int {
                    assert(old(self).state2block@[other_state as int] == id);
                } else if k == mid - 1 {
                } else {
                    assert(self.buffer@[k] == old(self).buffer@[k]);
                }
            }
            assert forall|b: int|
                0 <= b < self.nblocks() implies ((exists|q: int|
                0 <= q < self.worklist@.len() && self.worklist@[q] == b) <==> self.has_dirty(
                b,
            )) by {
                if b == id as int {
                    if mid == end {
                        assert(self.worklist@[self.worklist@.len() - 1] == id);
                    } else {
                        assert(old(self).has_dirty(b));
                        let q = choose|q: int|
                            0 <= q < old(self).worklist@.len() && old(self).worklist@[q] == b;
                        assert(self.worklist@[q] == b);
                    }
                    assert(self.has_dirty(b));
                } else {
                    assert(self.partition@[b] == old(self).partition@[b]);
                    if old(self).has_dirty(b) {
                        let q = choose|q: int|
                            0 <= q < old(self).worklist@.len() && old(self).worklist@[q] == b;
                        assert(self.worklist@[q] == b);
                    }
                    if exists|q: int|
                        0 <= q < self.worklist@.len() && self.worklist@[q] == b {
                        let q = choose|q: int|
                            0 <= q < self.worklist@.len() && self.worklist@[q] == b;
                        assert(q < old(self).worklist@.len());
                        assert(old(self).worklist@[q] == b);
                    }
                }
            }
            assert(self.position@.len() == self.n());
            assert(spans(self.partition@) == self.n());
            assert(forall|b: int|
                0 <= b < self.nblocks() ==> (#[trigger] self.partition@[b]).0
                    <= self.partition@[b].1 <= self.partition@[b].2 <= self.n());
            assert(forall|b: int|
                0 <= b < self.nblocks() ==> (#[trigger] self.partition@[b]).0
                    < self.partition@[b].2);
            assert(forall|q: int|
                0 <= q < self.worklist@.len() ==> (#[trigger] self.worklist@[q])
                    < self.nblocks());
            assert forall|q1: int, q2: int|
                0 <= q1 < q2 < self.worklist@.len() implies self.worklist@[q1]
                    != self.worklist@[q2] by {
                if mid == end {
                    assert(self.worklist@ == old(self).worklist@.push(id));
                    if q2 == self.worklist@.len() - 1 {
                        assert(self.worklist@[q2] == id);
                        assert(self.worklist@[q1] == old(self).worklist@[q1]);
                        if old(self).worklist@[q1] == id {
                            assert(old(self).has_dirty(id as int));
                        }
                    } else {
                        assert(self.worklist@[q1] == old(self).worklist@[q1]);
                        assert(self.worklist@[q2] == old(self).worklist@[q2]);
                    }
                }
            }
            assert(self.worklist_ok_except(None));
            assert(self.wf_core());
            assert(self.dirty_or_alone(state as int)) by {
                assert(self.state2block@[state as int] == id);
                assert(self.partition@[id as int].1 == mid - 1);
                assert(np[state as int] == mid - 1);
            }
            assert forall|x: int|
                0 <= x < n && old(self).dirty_or_alone(x) implies self.dirty_or_alone(x) by {
                let bx = old(self).state2block@[x] as int;
                assert(self.state2block@[x] == old(self).state2block@[x]);
                assert(x != state as int);
                assert(x != other_state as int) by {
                    if x == other_state as int {
                        assert(old(self).position@[x] == mid - 1);
                    }
                }
                assert(np[x] == old(self).position@[x]);
                if bx != id as int {
                    assert(self.partition@[bx] == old(self).partition@[bx]);
                } else {
                    assert(old(self).position@[x] >= mid);
                }
            }
            assert forall|x: int| 0 <= x < n && self.is_clean(x) implies old(self).is_clean(
                x,
            ) by {
                let bx = old(self).state2block@[x] as int;
                assert(self.state2block@[x] == old(self).state2block@[x]);
                if bx != id as int {
                    assert(self.partition@[bx] == old(self).partition@[bx]);
                    assert(np[x] == old(self).position@[x]) by {
                        assert(x != state as int && x != other_state as int);
                    }
                } else {
                    if x == state as int {
                        assert(np[x] == mid - 1);
                    } else if x == other_state as int {
                        assert(old(self).position@[x] == mid - 1);
                    } else {
                        assert(np[x] == old(self).position@[x]);
                    }
                }
            }
        }
    }

    /// The slice of states whose signatures the next refinement round must
    /// compute: the dirty states, preceded by one clean witness if any
    /// clean state exists.
    pub fn refiners(&self, id: u32) -> (r: &[u32])
        requires
            self.wf_core(),
            (id as int) < self.nblocks(),
        ensures
            r@ == self.buffer@.subrange(
                self.refiners_start(id as int),
                self.partition@[id as int].2 as int,
            ),
            r@.len() == self.refiners_len(id as int),
            r@.len() >= 1,
    {
        let (start, mid, end) = self.partition[id as usize];
        if start == mid {
            vstd::slice::slice_subrange(self.buffer.as_slice(), start as usize, end as usize)
        } else {
            vstd::slice::slice_subrange(self.buffer.as_slice(), (mid - 1) as usize, end as usize)
        }
    }
}








/// How many values below `k` occur in `s`, with multiplicity.
pub open spec fn sum_counts(s: Seq<u32>, k: int) -> int
    decreases k,
{
    if k <= 0 {
        0
    } else {
        sum_counts(s, k - 1) + s.to_multiset().count((k - 1) as u32)
    }
}

proof fn lemma_sum_counts_push(s: Seq<u32>, x: u32, k: int)
    requires
        k <= u32::MAX + 1,
    ensures
        sum_counts(s.push(x), k) == sum_counts(s, k) + (if (x as int) < k {
            1int
        } else {
            0int
        }),
    decreases k,
{
    broadcast use vstd::seq_lib::group_to_multiset_ensures;
    broadcast use vstd::multiset::group_multiset_axioms;

    if k > 0 {
        lemma_sum_counts_push(s, x, k - 1);
        assert(s.push(x).to_multiset() == s.to_multiset().insert(x));
        assert(s.push(x).to_multiset().count((k - 1) as u32) == s.to_multiset().count(
            (k - 1) as u32,
        ) + (if x == (k - 1) as u32 {
            1int
        } else {
            0int
        }));
    }
}

proof fn lemma_sum_counts_zero(s: Seq<u32>, k: int)
    requires
        s.len() == 0,
    ensures
        sum_counts(s, k) == 0,
    decreases k,
{
    broadcast use vstd::seq_lib::group_to_multiset_ensures;

    if k > 0 {
        lemma_sum_counts_zero(s, k - 1);
        assert(s.to_multiset().len() == 0);
    }
}

/// Every element below the bound counted once: the counts add up to the
/// length.
proof fn lemma_sum_counts_all(s: Seq<u32>, k: int)
    requires
        k <= u32::MAX + 1,
        forall|i: int| 0 <= i < s.len() ==> (#[trigger] s[i]) < k,
    ensures
        sum_counts(s, k) == s.len(),
    decreases s.len(),
{
    if s.len() == 0 {
        broadcast use vstd::seq_lib::group_to_multiset_ensures;

        assert forall|kk: int| kk >= 0 implies sum_counts(s, kk) == 0 by {
            lemma_sum_counts_zero(s, kk);
        }
        lemma_sum_counts_zero(s, k);
    } else {
        let sd = s.drop_last();
        assert(s =~= sd.push(s.last()));
        assert forall|i: int| 0 <= i < sd.len() implies (#[trigger] sd[i]) < k by {
            assert(sd[i] == s[i]);
        }
        lemma_sum_counts_all(sd, k);
        lemma_sum_counts_push(sd, s.last(), k);
    }
}

proof fn lemma_sum_counts_nonneg(s: Seq<u32>, k: int)
    ensures
        sum_counts(s, k) >= 0,
    decreases k,
{
    if k > 0 {
        lemma_sum_counts_nonneg(s, k - 1);
    }
}

proof fn lemma_sum_counts_mono(s: Seq<u32>, a: int, b: int)
    requires
        a <= b,
    ensures
        sum_counts(s, a) <= sum_counts(s, b),
    decreases b - a,
{
    if a < b {
        lemma_sum_counts_mono(s, a, b - 1);
    }
}

/// With every bin below `k` occupied, the counts sum to at least `k`.
proof fn lemma_sum_counts_min(s: Seq<u32>, k: int)
    requires
        forall|c: u32| 0 <= c < k ==> s.to_multiset().count(c) > 0,
    ensures
        sum_counts(s, k) >= k,
    decreases k,
{
    if k > 0 {
        lemma_sum_counts_min(s, k - 1);
    }
}

/// A prefix holds no more copies than the whole.
proof fn lemma_take_count_le(s: Seq<u32>, i: int, c: u32)
    requires
        0 <= i <= s.len(),
    ensures
        s.take(i).to_multiset().count(c) <= s.to_multiset().count(c),
        s.take(i).to_multiset().count(c) + s.skip(i).to_multiset().count(c)
            == s.to_multiset().count(c),
{
    broadcast use vstd::multiset::group_multiset_axioms;

    assert(s =~= s.take(i) + s.skip(i));
    vstd::seq_lib::lemma_multiset_commutative(s.take(i), s.skip(i));
}

/// Every nonempty block contributes at least one to the span sum.
proof fn lemma_spans_count(parts: Seq<(u32, u32, u32)>)
    requires
        forall|b: int| 0 <= b < parts.len() ==> (#[trigger] parts[b]).0 < parts[b].2,
    ensures
        spans(parts) >= parts.len(),
    decreases parts.len(),
{
    if parts.len() > 0 {
        assert forall|b: int|
            0 <= b < parts.drop_last().len() implies (#[trigger] parts.drop_last()[b]).0
            < parts.drop_last()[b].2 by {
            assert(parts.drop_last()[b] == parts[b]);
        }
        lemma_spans_count(parts.drop_last());
        assert(parts.last() == parts[parts.len() - 1]);
    }
}

/// A well-formed partition has at most one block per state.
pub proof fn lemma_nblocks_le_n(p: RefinablePartition)
    requires
        p.wf_core(),
    ensures
        p.nblocks() <= p.n(),
{
    lemma_spans_count(p.partition@);
}

proof fn lemma_spans_push(parts: Seq<(u32, u32, u32)>, v: (u32, u32, u32))
    ensures
        spans(parts.push(v)) == spans(parts) + (v.2 - v.0),
{
    assert(parts.push(v).drop_last() =~= parts);
}

/// With one nonempty block singled out, the others still contribute one
/// each to the span sum.
proof fn lemma_spans_ge_with(parts: Seq<(u32, u32, u32)>, b: int)
    requires
        forall|q: int| 0 <= q < parts.len() ==> (#[trigger] parts[q]).0 < parts[q].2,
        0 <= b < parts.len(),
    ensures
        spans(parts) >= parts.len() - 1 + (parts[b].2 - parts[b].0),
    decreases parts.len(),
{
    assert forall|q: int|
        0 <= q < parts.drop_last().len() implies (#[trigger] parts.drop_last()[q]).0
        < parts.drop_last()[q].2 by {
        assert(parts.drop_last()[q] == parts[q]);
    }
    if b == parts.len() - 1 {
        lemma_spans_count(parts.drop_last());
        assert(parts.last() == parts[b]);
    } else {
        lemma_spans_ge_with(parts.drop_last(), b);
        assert(parts.drop_last()[b] == parts[b]);
        assert(parts.last() == parts[parts.len() - 1]);
    }
}

proof fn lemma_downward_dense(s: Seq<u32>, c: u32)
    requires
        downward_closed(s),
        s.to_multiset().count(c) > 0,
    ensures
        forall|c2: u32| c2 <= c ==> s.to_multiset().count(c2) > 0,
    decreases c,
{
    broadcast use vstd::seq_lib::group_to_multiset_ensures;

    if c > 0 {
        assert(s.contains(c));
        let i = choose|i: int| 0 <= i < s.len() && s[i] == c;
        assert(s.to_multiset().count((c - 1) as u32) > 0);
        lemma_downward_dense(s, (c - 1) as u32);
    }
}

/// The block id a signature group receives: the group with the most states
/// keeps the split block's id, the others take fresh ids in ascending order.
pub open spec fn new_block_id(c: int, largest: int, bid: int, nb0: int) -> int {
    if c == largest {
        bid
    } else if c < largest {
        nb0 + c
    } else {
        nb0 + c - 1
    }
}

/// A group's share of the block: its signature count, plus the clean states
/// the witness stands for when the group is 0.
pub open spec fn adj_count(s: Seq<u32>, extra: int, c: int) -> int {
    s.to_multiset().count(c as u32) + (if c == 0 {
        extra
    } else {
        0int
    })
}

/// Distinct groups receive distinct block ids.
pub proof fn lemma_new_block_id_inj(c1: int, c2: int, largest: int, bid: int, nb0: int)
    requires
        0 <= c1,
        0 <= c2,
        c1 != c2,
        bid < nb0,
    ensures
        new_block_id(c1, largest, bid, nb0) != new_block_id(c2, largest, bid, nb0),
{
}

/// One placement step of the split: writing the `i`-th refiner (whose
/// signature is `c`) at slot `w` keeps the slot facts.
#[verifier::rlimit(60)]
proof fn lemma_place_slots(
    pb: Seq<u32>,
    pp: Seq<u32>,
    nb: Seq<u32>,
    np: Seq<u32>,
    ob: Seq<u32>,
    osq: Seq<u32>,
    sigsq: Seq<u32>,
    n: int,
    s0: int,
    w: int,
    i: int,
    c: u32,
)
    requires
        pb.len() == n,
        pp.len() == n,
        nb.len() == n,
        np.len() == n,
        ob.len() == n,
        osq.len() == sigsq.len(),
        0 <= i < sigsq.len(),
        sigsq[i] == c,
        forall|i1: int, i2: int| 0 <= i1 < i2 < sigsq.len() ==> osq[i1] != osq[i2],
        forall|ii: int| 0 <= ii < sigsq.len() ==> (#[trigger] osq[ii]) < n,
        n <= u32::MAX,
        0 <= s0 <= w < n,
        forall|k: int| 0 <= k < n && !(s0 <= k < w) ==> (#[trigger] pb[k]) == ob[k],
        forall|k: int|
            s0 <= k < w ==> (#[trigger] pb[k]) < n && pp[pb[k] as int] == k && (exists|ii: int|
                0 <= ii < sigsq.len() && osq[ii] == pb[k] && ((sigsq[ii] as int) < c as int || (
                sigsq[ii] == c && ii < i))),
        nb == pb.update(w, osq[i]),
        np == pp.update(osq[i] as int, w as u32),
    ensures
        forall|k: int| 0 <= k < n && !(s0 <= k < w + 1) ==> (#[trigger] nb[k]) == ob[k],
        forall|k: int|
            s0 <= k < w + 1 ==> (#[trigger] nb[k]) < n && np[nb[k] as int] == k && (exists|ii: int|
                0 <= ii < sigsq.len() && osq[ii] == nb[k] && ((sigsq[ii] as int) < c as int || (
                sigsq[ii] == c && ii < i + 1))),
{
    let st = osq[i];
    assert(forall|ii: int| 0 <= ii < sigsq.len() && ii != i ==> osq[ii] != st);
    assert forall|k: int|
        0 <= k < n && !(s0 <= k < w + 1) implies (#[trigger] nb[k]) == ob[k] by {
        assert(k != w);
        assert(nb[k] == pb[k]);
    }
    assert forall|k: int|
        s0 <= k < w + 1 implies (#[trigger] nb[k]) < n && np[nb[k] as int] == k && (exists|ii: int|
        0 <= ii < sigsq.len() && osq[ii] == nb[k] && ((sigsq[ii] as int) < c as int || (sigsq[ii]
            == c && ii < i + 1))) by {
        if k == w {
            assert(nb[k] == st);
            assert(np[st as int] == w as u32);
            assert(osq[i] == nb[k] && sigsq[i] == c && i < i + 1);
        } else {
            assert(nb[k] == pb[k]);
            let ii = choose|ii: int|
                0 <= ii < sigsq.len() && osq[ii] == pb[k] && ((sigsq[ii] as int) < c as int || (
                sigsq[ii] == c && ii < i));
            assert(osq[ii] != st);
            assert(np[nb[k] as int] == pp[pb[k] as int]);
            assert(osq[ii] == nb[k] && ((sigsq[ii] as int) < c as int || (sigsq[ii] == c && ii < i
                + 1)));
        }
    }
}

/// The same step keeps every per-refiner fact: already placed refiners stay
/// placed, the new one lands at `w`, the rest keep their stale slot.
#[verifier::rlimit(60)]
proof fn lemma_place_refiners(
    pb: Seq<u32>,
    pp: Seq<u32>,
    ps2: Seq<u32>,
    nb: Seq<u32>,
    np: Seq<u32>,
    ns: Seq<u32>,
    osq: Seq<u32>,
    sigsq: Seq<u32>,
    n: int,
    s0: int,
    gs: int,
    w: int,
    i: int,
    c: u32,
    bid: int,
    nb0: int,
    largest: u32,
)
    requires
        pb.len() == n,
        pp.len() == n,
        ps2.len() == n,
        nb.len() == n,
        np.len() == n,
        ns.len() == n,
        osq.len() == sigsq.len(),
        0 <= i < sigsq.len(),
        sigsq[i] == c,
        forall|i1: int, i2: int| 0 <= i1 < i2 < sigsq.len() ==> osq[i1] != osq[i2],
        forall|ii: int| 0 <= ii < sigsq.len() ==> (#[trigger] osq[ii]) < n,
        n <= u32::MAX,
        0 <= s0 <= gs <= w < n,
        gs == s0 + sum_counts(sigsq, c as int),
        w == gs + sigsq.take(i).to_multiset().count(c),
        forall|ii: int|
            0 <= ii < sigsq.len() && (sigsq[ii] as int) < c as int ==> pb[(
            #[trigger] pp[osq[ii] as int]) as int] == osq[ii],
        forall|ii: int|
            0 <= ii < sigsq.len() && (sigsq[ii] as int) < c as int ==> s0 + sum_counts(
                sigsq,
                sigsq[ii] as int,
            ) <= (#[trigger] pp[osq[ii] as int]) < s0 + sum_counts(sigsq, sigsq[ii] as int + 1),
        forall|ii: int|
            0 <= ii < sigsq.len() && (sigsq[ii] as int) < c as int ==> (
            #[trigger] ps2[osq[ii] as int]) == new_block_id(
                sigsq[ii] as int,
                largest as int,
                bid,
                nb0,
            ),
        forall|ii: int|
            0 <= ii < i && sigsq[ii] == c ==> pb[(#[trigger] pp[osq[ii] as int]) as int]
                == osq[ii] && gs <= pp[osq[ii] as int] < w && ps2[osq[ii] as int] == new_block_id(
                c as int,
                largest as int,
                bid,
                nb0,
            ),
        forall|ii: int|
            0 <= ii < sigsq.len() && ((sigsq[ii] as int) > c as int || (sigsq[ii] == c && ii >= i))
                ==> (#[trigger] pp[osq[ii] as int]) == s0 + ii && ps2[osq[ii] as int] == bid,
        nb == pb.update(w, osq[i]),
        np == pp.update(osq[i] as int, w as u32),
        c != largest ==> ns == ps2.update(
            osq[i] as int,
            new_block_id(c as int, largest as int, bid, nb0) as u32,
        ),
        c == largest ==> ns == ps2,
        0 <= new_block_id(c as int, largest as int, bid, nb0) <= u32::MAX,
        c == largest ==> bid == new_block_id(c as int, largest as int, bid, nb0),
    ensures
        forall|ii: int|
            0 <= ii < sigsq.len() && (sigsq[ii] as int) < c as int ==> nb[(
            #[trigger] np[osq[ii] as int]) as int] == osq[ii],
        forall|ii: int|
            0 <= ii < sigsq.len() && (sigsq[ii] as int) < c as int ==> s0 + sum_counts(
                sigsq,
                sigsq[ii] as int,
            ) <= (#[trigger] np[osq[ii] as int]) < s0 + sum_counts(sigsq, sigsq[ii] as int + 1),
        forall|ii: int|
            0 <= ii < sigsq.len() && (sigsq[ii] as int) < c as int ==> (
            #[trigger] ns[osq[ii] as int]) == new_block_id(
                sigsq[ii] as int,
                largest as int,
                bid,
                nb0,
            ),
        forall|ii: int|
            0 <= ii < i + 1 && sigsq[ii] == c ==> nb[(#[trigger] np[osq[ii] as int]) as int]
                == osq[ii] && gs <= np[osq[ii] as int] < w + 1,
        forall|ii: int|
            0 <= ii < i + 1 && sigsq[ii] == c ==> (#[trigger] ns[osq[ii] as int])
                == new_block_id(c as int, largest as int, bid, nb0),
        forall|ii: int|
            0 <= ii < sigsq.len() && ((sigsq[ii] as int) > c as int || (sigsq[ii] == c && ii >= i
                + 1)) ==> (#[trigger] np[osq[ii] as int]) == s0 + ii,
        forall|ii: int|
            0 <= ii < sigsq.len() && ((sigsq[ii] as int) > c as int || (sigsq[ii] == c && ii >= i
                + 1)) ==> (#[trigger] ns[osq[ii] as int]) == bid,
{
    let st = osq[i];
    assert(forall|ii: int| 0 <= ii < sigsq.len() && ii != i ==> osq[ii] != st);
    assert forall|ii: int|
        0 <= ii < sigsq.len() && (sigsq[ii] as int) < c as int implies nb[(
    #[trigger] np[osq[ii] as int]) as int] == osq[ii] && s0 + sum_counts(sigsq, sigsq[ii] as int)
        <= np[osq[ii] as int] < s0 + sum_counts(sigsq, sigsq[ii] as int + 1) by {
        assert(osq[ii] != st);
        assert(pb[(pp[osq[ii] as int]) as int] == osq[ii]);
        assert(np[osq[ii] as int] == pp[osq[ii] as int]);
        lemma_sum_counts_mono(sigsq, sigsq[ii] as int + 1, c as int);
        assert(pp[osq[ii] as int] < w);
        assert(nb[np[osq[ii] as int] as int] == pb[pp[osq[ii] as int] as int]);
    }
    assert forall|ii: int|
        0 <= ii < sigsq.len() && (sigsq[ii] as int) < c as int implies (
    #[trigger] ns[osq[ii] as int]) == new_block_id(sigsq[ii] as int, largest as int, bid, nb0) by {
        assert(osq[ii] != st);
        assert(ps2[osq[ii] as int] == new_block_id(sigsq[ii] as int, largest as int, bid, nb0));
        assert(ns[osq[ii] as int] == ps2[osq[ii] as int]);
    }
    assert forall|ii: int|
        0 <= ii < i + 1 && sigsq[ii] == c implies nb[(#[trigger] np[osq[ii] as int]) as int]
        == osq[ii] && gs <= np[osq[ii] as int] < w + 1 by {
        if ii == i {
            assert(np[st as int] == w as u32);
            assert(nb[w] == st);
        } else {
            assert(osq[ii] != st);
            assert(np[osq[ii] as int] == pp[osq[ii] as int]);
            assert(pb[(pp[osq[ii] as int]) as int] == osq[ii]);
            assert(pp[osq[ii] as int] < w);
            assert(nb[np[osq[ii] as int] as int] == pb[pp[osq[ii] as int] as int]);
        }
    }
    assert forall|ii: int|
        0 <= ii < i + 1 && sigsq[ii] == c implies (#[trigger] ns[osq[ii] as int]) == new_block_id(
        c as int,
        largest as int,
        bid,
        nb0,
    ) by {
        if ii == i {
            assert(pp[st as int] == s0 + i);
            if c == largest {
                assert(ns[st as int] == ps2[st as int]);
                assert(ps2[st as int] == bid);
            } else {
                assert(ns[st as int] == new_block_id(c as int, largest as int, bid, nb0) as u32);
            }
        } else {
            assert(osq[ii] != st);
            assert(pb[(pp[osq[ii] as int]) as int] == osq[ii]);
            assert(ns[osq[ii] as int] == ps2[osq[ii] as int]);
        }
    }
    assert forall|ii: int|
        0 <= ii < sigsq.len() && ((sigsq[ii] as int) > c as int || (sigsq[ii] == c && ii >= i + 1))
        implies (#[trigger] np[osq[ii] as int]) == s0 + ii by {
        assert(ii != i);
        assert(osq[ii] != st);
        assert(np[osq[ii] as int] == pp[osq[ii] as int]);
        assert(pp[osq[ii] as int] == s0 + ii);
    }
    assert forall|ii: int|
        0 <= ii < sigsq.len() && ((sigsq[ii] as int) > c as int || (sigsq[ii] == c && ii >= i + 1))
        implies (#[trigger] ns[osq[ii] as int]) == bid by {
        assert(ii != i);
        assert(osq[ii] != st);
        assert(pp[osq[ii] as int] == s0 + ii);
        assert(ns[osq[ii] as int] == ps2[osq[ii] as int]);
    }
}

/// Writing one refiner's position and block leaves every state outside the
/// refiner list untouched.
proof fn lemma_place_frame(
    pp: Seq<u32>,
    ps2: Seq<u32>,
    np: Seq<u32>,
    ns: Seq<u32>,
    op: Seq<u32>,
    os2: Seq<u32>,
    osq: Seq<u32>,
    st: u32,
    w: u32,
    nid: u32,
    setblk: bool,
    n: int,
)
    requires
        pp.len() == n,
        np.len() == n,
        ps2.len() == n,
        ns.len() == n,
        n <= u32::MAX,
        (st as int) < n,
        osq.contains(st),
        forall|s: int|
            0 <= s < n && !osq.contains(s as u32) ==> (#[trigger] pp[s]) == op[s] && ps2[s]
                == os2[s],
        np == pp.update(st as int, w),
        setblk ==> ns == ps2.update(st as int, nid),
        !setblk ==> ns == ps2,
    ensures
        forall|s: int|
            0 <= s < n && !osq.contains(s as u32) ==> (#[trigger] np[s]) == op[s],
        forall|s: int|
            0 <= s < n && !osq.contains(s as u32) ==> (#[trigger] ns[s]) == os2[s],
{
    assert forall|s: int|
        0 <= s < n && !osq.contains(s as u32) implies (#[trigger] np[s]) == op[s] by {
        if s == st as int {
            assert(s as u32 == st);
            assert(false);
        }
        assert(np[s] == pp[s]);
        assert(pp[s] == op[s]);
    }
    assert forall|s: int|
        0 <= s < n && !osq.contains(s as u32) implies (#[trigger] ns[s]) == os2[s] by {
        if s == st as int {
            assert(s as u32 == st);
            assert(false);
        }
        assert(pp[s] == op[s]);
        assert(ns[s] == ps2[s]);
    }
}

/// Downward closure: every positive value that occurs is preceded by its
/// predecessor somewhere.
pub open spec fn downward_closed(s: Seq<u32>) -> bool {
    forall|i: int|
        0 <= i < s.len() && s[i] > 0 ==> s.to_multiset().count((s[i] - 1) as u32) > 0
}


/// The pinned outcome of a split: some winning signature `lg` — carrying
/// the largest adjusted share, ties toward the highest signature — keeps
/// the block id, every refiner takes the block of its signature, and the
/// clean states follow the witness.
pub open spec fn split_outcome(
    oldp: RefinablePartition,
    cur: RefinablePartition,
    sigsq: Seq<u32>,
    bid: int,
    nfresh: int,
) -> bool {
    exists|lg: int| #[trigger] split_outcome_with(oldp, cur, sigsq, bid, nfresh, lg)
}

/// The split outcome with its winning signature named.
pub open spec fn split_outcome_with(
    oldp: RefinablePartition,
    cur: RefinablePartition,
    sigsq: Seq<u32>,
    bid: int,
    nfresh: int,
    lg: int,
) -> bool {
    let nb0 = oldp.nblocks();
    let s0 = oldp.refiners_start(bid);
    let start = oldp.partition@[bid].0 as int;
    let mid = oldp.partition@[bid].1 as int;
    let extra = s0 - start;
    {
            &&& adj_count(sigsq, extra, lg) == adj_count(sigsq, extra, lg)
            &&& 0 <= lg < nfresh + 1
            &&& (forall|c: int|
                0 <= c < nfresh + 1 ==> #[trigger] adj_count(sigsq, extra, c) <= adj_count(
                    sigsq,
                    extra,
                    lg,
                ))
            &&& (forall|c: int|
                lg < c < nfresh + 1 ==> #[trigger] adj_count(sigsq, extra, c) < adj_count(
                    sigsq,
                    extra,
                    lg,
                ))
            &&& (forall|i: int|
                0 <= i < sigsq.len() ==> (#[trigger] cur.state2block@[oldp.buffer@[s0 + i]
                    as int]) == new_block_id(sigsq[i] as int, lg, bid, nb0))
            &&& (forall|k: int|
                start <= k < mid ==> (#[trigger] cur.state2block@[oldp.buffer@[k] as int])
                    == new_block_id(0, lg, bid, nb0))
    }
}

/// The winning signature a split chose, with the placement it pinned.
pub proof fn lemma_split_outcome_elim(
    oldp: RefinablePartition,
    cur: RefinablePartition,
    sigsq: Seq<u32>,
    bid: int,
    nfresh: int,
) -> (lg: int)
    requires
        split_outcome(oldp, cur, sigsq, bid, nfresh),
    ensures
        0 <= lg < nfresh + 1,
        forall|i: int|
            0 <= i < sigsq.len() ==> (#[trigger] cur.state2block@[oldp.buffer@[oldp.refiners_start(
                bid,
            ) + i] as int]) == new_block_id(sigsq[i] as int, lg, bid, oldp.nblocks()),
        forall|k: int|
            oldp.partition@[bid].0 <= k < oldp.partition@[bid].1 ==> (
            #[trigger] cur.state2block@[oldp.buffer@[k] as int]) == new_block_id(
                0,
                lg,
                bid,
                oldp.nblocks(),
            ),
{
    let lg = choose|lg: int| #[trigger] split_outcome_with(oldp, cur, sigsq, bid, nfresh, lg);
    lg
}

/// The written start of a signature group's slots.
pub open spec fn group_start(sigsq: Seq<u32>, s0: int, c: int) -> int {
    s0 + sum_counts(sigsq, c)
}

/// The block interval a signature group receives (group 0 also covers the
/// clean slots in front of the witness).
pub open spec fn block_start(sigsq: Seq<u32>, start: int, s0: int, c: int) -> int {
    if c == 0 {
        start
    } else {
        group_start(sigsq, s0, c)
    }
}

/// Putting the scattered groups, the relabelled clean states and the frozen
/// rest together restores every invariant and pins the outcome of a split.
#[verifier::rlimit(100)]
#[verifier::spinoff_prover]
proof fn lemma_refine_geometry(
    oldp: RefinablePartition,
    cur: RefinablePartition,
    os: Seq<u32>,
    sigsq: Seq<u32>,
    newparts: Seq<u32>,
    n: int,
    bid: int,
    nb0: int,
    start: int,
    mid: int,
    end: int,
    s0: int,
    extra: int,
    kk: int,
    largest: int,
    mids2b: Seq<u32>,
)
    requires
        // shapes and the old invariant
        oldp.wf_core(),
        oldp.worklist_ok_except(Some(bid)),
        n == oldp.n(),
        cur.buffer@.len() == n,
        cur.position@.len() == n,
        cur.state2block@.len() == n,
        n <= u32::MAX,
        0 <= bid < nb0,
        nb0 == oldp.nblocks(),
        0 <= start <= mid <= end <= n,
        start < end,
        oldp.partition@[bid] == ((start as u32, mid as u32, end as u32)),
        s0 == (if start == mid {
            start
        } else {
            mid - 1
        }),
        start <= s0 <= end,
        extra == s0 - start,
        os == oldp.buffer@.subrange(s0, end),
        sigsq.len() == end - s0,
        forall|i: int| 0 <= i < sigsq.len() ==> (#[trigger] sigsq[i] as int) < kk,
        forall|c: int| 0 <= c < kk ==> (#[trigger] sigsq.to_multiset().count(c as u32)) > 0,
        1 <= kk <= sigsq.len(),
        sum_counts(sigsq, kk) == sigsq.len(),
        0 <= largest < kk,
        nb0 + kk - 1 <= n,
        start < mid ==> sigsq[0] == 0,
        // the partition entries written by the split
        cur.partition@.len() == nb0 + kk - 1,
        spans(cur.partition@) == n,
        forall|bb: int|
            0 <= bb < nb0 && bb != bid ==> (#[trigger] cur.partition@[bb]) == oldp.partition@[bb],
        forall|c2: int|
            0 <= c2 < kk ==> (#[trigger] cur.partition@[new_block_id(c2, largest, bid, nb0)]) == ((
            block_start(sigsq, start, s0, c2) as u32,
            group_start(sigsq, s0, c2 + 1) as u32,
            group_start(sigsq, s0, c2 + 1) as u32,
            )),
        newparts.len() == kk - 1,
        forall|t: int| 0 <= t < newparts.len() ==> (#[trigger] newparts[t]) == nb0 + t,
        // the buffer: frozen outside the written range, scattered inside
        forall|k: int|
            0 <= k < n && !(s0 <= k < end) ==> (#[trigger] cur.buffer@[k]) == oldp.buffer@[k],
        forall|k: int|
            s0 <= k < end ==> (#[trigger] cur.buffer@[k]) < n && cur.position@[cur.buffer@[k]
                as int] == k,
        forall|k: int| s0 <= k < end ==> os.contains(#[trigger] cur.buffer@[k]),
        // every refiner placed in its group, labelled by its signature
        forall|ii: int|
            0 <= ii < sigsq.len() ==> cur.buffer@[(#[trigger] cur.position@[os[ii] as int])
                as int] == os[ii],
        forall|ii: int|
            0 <= ii < sigsq.len() ==> group_start(sigsq, s0, sigsq[ii] as int) <= (
            #[trigger] cur.position@[os[ii] as int]) < group_start(
                sigsq,
                s0,
                sigsq[ii] as int + 1,
            ),
        forall|ii: int|
            0 <= ii < sigsq.len() ==> (#[trigger] cur.state2block@[os[ii] as int])
                == new_block_id(sigsq[ii] as int, largest, bid, nb0),
        // clean slots untouched, their states relabelled to group 0
        forall|k: int|
            start <= k < s0 ==> (#[trigger] cur.buffer@[k]) == oldp.buffer@[k],
        forall|k: int| start <= k < s0 ==> !os.contains(#[trigger] oldp.buffer@[k]),
        forall|k: int|
            start <= k < s0 ==> (#[trigger] cur.position@[oldp.buffer@[k] as int]) == k,
        forall|k: int|
            start <= k < s0 ==> (#[trigger] cur.state2block@[oldp.buffer@[k] as int])
                == new_block_id(0, largest, bid, nb0),
        // everything outside the block frozen
        forall|s: int|
            0 <= s < n && oldp.state2block@[s] != bid ==> (#[trigger] cur.position@[s])
                == oldp.position@[s],
        forall|s: int|
            0 <= s < n && oldp.state2block@[s] != bid ==> (#[trigger] cur.state2block@[s])
                == oldp.state2block@[s],
        forall|s: int|
            0 <= s < n && (#[trigger] oldp.state2block@[s]) != bid ==> !(start
                <= oldp.position@[s] < end),
        // the permutation is whole again
        forall|s: int|
            0 <= s < n ==> (#[trigger] cur.position@[s]) < n && cur.buffer@[cur.position@[s]
                as int] == s,
        cur.worklist@ == oldp.worklist@,
    ensures
        forall|b: int, k: int|
            0 <= b < cur.nblocks() && (#[trigger] cur.partition@[b]).0 <= k < cur.partition@[b].2
                ==> (#[trigger] cur.state2block@[cur.buffer@[k] as int]) == b,
        forall|s: int|
            0 <= s < n ==> (#[trigger] cur.partition@[cur.state2block@[s] as int]).0
                <= cur.position@[s] < cur.partition@[cur.state2block@[s] as int].2,
        forall|b: int|
            0 <= b < cur.nblocks() ==> (#[trigger] cur.partition@[b]).0 <= cur.partition@[b].1
                <= cur.partition@[b].2 <= cur.n() && cur.partition@[b].0 < cur.partition@[b].2,
        forall|s: int| 0 <= s < n ==> (#[trigger] cur.state2block@[s]) < cur.nblocks(),
        forall|k: int|
            0 <= k < n ==> (#[trigger] cur.buffer@[k]) < n && cur.position@[cur.buffer@[k] as int]
                == k,
{
    broadcast use vstd::seq_lib::group_to_multiset_ensures;

    assert(oldp.partition@[bid].0 as int == start);
    assert(oldp.partition@[bid].1 as int == mid);
    assert(oldp.partition@[bid].2 as int == end);
    assert(os.len() == end - s0);
    assert forall|ii: int|
        0 <= ii < sigsq.len() implies (#[trigger] os[ii]) == oldp.buffer@[s0 + ii] by {
        assert(os[ii] == oldp.buffer@.subrange(s0, end)[ii]);
    }
    // group bounds are monotone and each group is nonempty
    assert forall|c: int| 0 <= c < kk implies (#[trigger] group_start(sigsq, s0, c))
        < group_start(sigsq, s0, c + 1) by {
        assert(sigsq.to_multiset().count(c as u32) > 0);
    }
    assert forall|c1: int, c2: int|
        0 <= c1 <= c2 <= kk implies (#[trigger] group_start(sigsq, s0, c1)) <= (
    #[trigger] group_start(sigsq, s0, c2)) by {
        lemma_sum_counts_mono(sigsq, c1, c2);
    }
    assert(group_start(sigsq, s0, 0) == s0);
    assert(group_start(sigsq, s0, kk) == end);
    // the refiner sitting at a written slot carries that slot's group
    assert forall|c2: int, k: int|
        #![trigger cur.state2block@[cur.buffer@[k] as int], group_start(sigsq, s0, c2)]
        0 <= c2 < kk && group_start(sigsq, s0, c2) <= k < group_start(sigsq, s0, c2 + 1) implies
        cur.state2block@[cur.buffer@[k] as int] == new_block_id(c2, largest, bid, nb0) by {
        assert(s0 <= k < end) by {
            lemma_sum_counts_nonneg(sigsq, c2);
            lemma_sum_counts_mono(sigsq, c2 + 1, kk);
        }
        assert(os.contains(cur.buffer@[k]));
        let ii = choose|ii: int| 0 <= ii < sigsq.len() && os[ii] == cur.buffer@[k];
        assert(cur.position@[os[ii] as int] == k);
        assert(group_start(sigsq, s0, sigsq[ii] as int) <= k < group_start(
            sigsq,
            s0,
            sigsq[ii] as int + 1,
        ));
        assert(sigsq[ii] as int == c2) by {
            if (sigsq[ii] as int) < c2 {
                lemma_sum_counts_mono(sigsq, sigsq[ii] as int + 1, c2);
            } else if (sigsq[ii] as int) > c2 {
                lemma_sum_counts_mono(sigsq, c2 + 1, sigsq[ii] as int);
            }
        }
    }
    // slot ownership for every block
    assert forall|b: int, k: int|
        0 <= b < cur.nblocks() && (#[trigger] cur.partition@[b]).0 <= k < cur.partition@[b].2
        implies (#[trigger] cur.state2block@[cur.buffer@[k] as int]) == b by {
        if b < nb0 && b != bid {
            assert(cur.partition@[b] == oldp.partition@[b]);
            assert(oldp.state2block@[oldp.buffer@[k] as int] == b);
            if start <= k < end {
                assert(oldp.state2block@[oldp.buffer@[k] as int] == bid);
            }
            assert(!(start <= k < end));
            assert(cur.buffer@[k] == oldp.buffer@[k]);
            let s = oldp.buffer@[k] as int;
            assert(oldp.state2block@[s] != bid);
            assert(cur.state2block@[s] == oldp.state2block@[s]);
        } else {
            let c2 = if b == bid {
                largest
            } else if b - nb0 < largest {
                b - nb0
            } else {
                b - nb0 + 1
            };
            assert(0 <= c2 < kk && new_block_id(c2, largest, bid, nb0) == b);
            assert(cur.partition@[b] == ((block_start(sigsq, start, s0, c2) as u32,
            group_start(sigsq, s0, c2 + 1) as u32, group_start(sigsq, s0, c2 + 1) as u32)));
            if c2 == 0 && k < s0 {
                assert(start <= k < s0);
                assert(cur.state2block@[oldp.buffer@[k] as int] == new_block_id(
                    0,
                    largest,
                    bid,
                    nb0,
                ));
                assert(cur.buffer@[k] == oldp.buffer@[k]);
            } else {
                assert(group_start(sigsq, s0, c2) <= k < group_start(sigsq, s0, c2 + 1)) by {
                    if c2 == 0 {
                        assert(k >= s0);
                    }
                }
            }
        }
    }
    // every state's position lies in its own block
    assert forall|s: int|
        0 <= s < n implies (#[trigger] cur.partition@[cur.state2block@[s] as int]).0
        <= cur.position@[s] < cur.partition@[cur.state2block@[s] as int].2 by {
        if oldp.state2block@[s] != bid {
            let b = oldp.state2block@[s] as int;
            assert(cur.state2block@[s] == oldp.state2block@[s]);
            assert(cur.position@[s] == oldp.position@[s]);
            assert(cur.partition@[b] == oldp.partition@[b]);
            assert(oldp.partition@[b].0 <= oldp.position@[s] < oldp.partition@[b].2);
        } else if os.contains(s as u32) {
            let ii = choose|ii: int| 0 <= ii < sigsq.len() && os[ii] == s as u32;
            let c2 = sigsq[ii] as int;
            assert(cur.state2block@[s] == new_block_id(c2, largest, bid, nb0));
            assert(cur.partition@[new_block_id(c2, largest, bid, nb0)] == ((block_start(
                sigsq,
                start,
                s0,
                c2,
            ) as u32, group_start(sigsq, s0, c2 + 1) as u32, group_start(
                sigsq,
                s0,
                c2 + 1,
            ) as u32)));
            assert(group_start(sigsq, s0, c2) <= cur.position@[os[ii] as int] < group_start(
                sigsq,
                s0,
                c2 + 1,
            ));
            assert(block_start(sigsq, start, s0, c2) <= group_start(sigsq, s0, c2)) by {
                lemma_sum_counts_nonneg(sigsq, c2);
            }
        } else {
            // a clean state: its old slot is before the witness
            assert(start <= oldp.position@[s] < end) by {
                assert(oldp.partition@[bid].0 <= oldp.position@[s] < oldp.partition@[bid].2);
            }
            assert(oldp.position@[s] < s0) by {
                if s0 <= oldp.position@[s] < end {
                    assert(os[oldp.position@[s] - s0] == oldp.buffer@[oldp.position@[s] as int]);
                    assert(os.contains(s as u32));
                }
            }
            let k = oldp.position@[s] as int;
            assert(cur.position@[oldp.buffer@[k] as int] == k);
            assert(oldp.buffer@[k] == s);
            assert(cur.state2block@[oldp.buffer@[k] as int] == new_block_id(
                0,
                largest,
                bid,
                nb0,
            ));
            assert(cur.state2block@[s] == new_block_id(0, largest, bid, nb0));
            assert(cur.partition@[new_block_id(0, largest, bid, nb0)] == ((start as u32,
            group_start(sigsq, s0, 1) as u32, group_start(sigsq, s0, 1) as u32)));
            assert(k < s0 <= group_start(sigsq, s0, 1)) by {
                assert(sigsq.to_multiset().count(0u32) > 0);
            }
        }
    }
    // block intervals are sane and nonempty
    assert forall|b: int|
        0 <= b < cur.nblocks() implies (#[trigger] cur.partition@[b]).0 <= cur.partition@[b].1
        <= cur.partition@[b].2 <= cur.n() && cur.partition@[b].0 < cur.partition@[b].2 by {
        if b < nb0 && b != bid {
            assert(cur.partition@[b] == oldp.partition@[b]);
        } else {
            let c2 = if b == bid {
                largest
            } else if b - nb0 < largest {
                b - nb0
            } else {
                b - nb0 + 1
            };
            assert(0 <= c2 < kk && new_block_id(c2, largest, bid, nb0) == b);
            assert(cur.partition@[b] == ((block_start(sigsq, start, s0, c2) as u32,
            group_start(sigsq, s0, c2 + 1) as u32, group_start(sigsq, s0, c2 + 1) as u32)));
            assert(group_start(sigsq, s0, c2) < group_start(sigsq, s0, c2 + 1));
            assert(block_start(sigsq, start, s0, c2) <= group_start(sigsq, s0, c2)) by {
                lemma_sum_counts_nonneg(sigsq, c2);
            }
            assert(group_start(sigsq, s0, c2 + 1) <= end <= n) by {
                lemma_sum_counts_mono(sigsq, c2 + 1, kk);
            }
        }
    }
    // state labels stay in range
    assert forall|s: int|
        0 <= s < n implies (#[trigger] cur.state2block@[s]) < cur.nblocks() by {
        if oldp.state2block@[s] != bid {
            assert(cur.state2block@[s] == oldp.state2block@[s]);
        } else if os.contains(s as u32) {
            let ii = choose|ii: int| 0 <= ii < sigsq.len() && os[ii] == s as u32;
            assert(cur.state2block@[s] == new_block_id(sigsq[ii] as int, largest, bid, nb0));
        } else {
            assert(start <= oldp.position@[s] < end) by {
                assert(oldp.partition@[oldp.state2block@[s] as int].0 <= oldp.position@[s]
                    < oldp.partition@[oldp.state2block@[s] as int].2);
            }
            assert(oldp.position@[s] < s0) by {
                if s0 <= oldp.position@[s] < end {
                    assert(os[oldp.position@[s] - s0] == oldp.buffer@[oldp.position@[s] as int]);
                    assert(oldp.buffer@[oldp.position@[s] as int] == s);
                    assert(os.contains(s as u32));
                }
            }
            let k = oldp.position@[s] as int;
            assert(oldp.buffer@[k] == s);
            assert(cur.state2block@[oldp.buffer@[k] as int] == new_block_id(
                0,
                largest,
                bid,
                nb0,
            ));
            assert(cur.state2block@[s] == new_block_id(0, largest, bid, nb0));
        }
    }
    // the buffer side of the permutation
    assert forall|k: int|
        0 <= k < n implies (#[trigger] cur.buffer@[k]) < n && cur.position@[cur.buffer@[k] as int]
        == k by {
        if s0 <= k < end {
        } else {
            assert(cur.buffer@[k] == oldp.buffer@[k]);
            let s = oldp.buffer@[k] as int;
            assert(oldp.position@[s] == k);
            if start <= k < s0 {
                assert(cur.position@[oldp.buffer@[k] as int] == k);
            } else {
                assert(oldp.state2block@[s] != bid) by {
                    if oldp.state2block@[s] == bid {
                        assert(oldp.partition@[bid].0 <= oldp.position@[s]
                            < oldp.partition@[bid].2);
                    }
                }
                assert(cur.position@[s] == oldp.position@[s]);
            }
        }
    }
}

#[verifier::rlimit(100)]
#[verifier::spinoff_prover]
proof fn lemma_refine_wf(
    oldp: RefinablePartition,
    cur: RefinablePartition,
    os: Seq<u32>,
    sigsq: Seq<u32>,
    newparts: Seq<u32>,
    n: int,
    bid: int,
    nb0: int,
    start: int,
    mid: int,
    end: int,
    s0: int,
    extra: int,
    kk: int,
    largest: int,
    mids2b: Seq<u32>,
)
    requires
        // shapes and the old invariant
        oldp.wf_core(),
        oldp.worklist_ok_except(Some(bid)),
        n == oldp.n(),
        cur.buffer@.len() == n,
        cur.position@.len() == n,
        cur.state2block@.len() == n,
        n <= u32::MAX,
        0 <= bid < nb0,
        nb0 == oldp.nblocks(),
        0 <= start <= mid <= end <= n,
        start < end,
        oldp.partition@[bid] == ((start as u32, mid as u32, end as u32)),
        s0 == (if start == mid {
            start
        } else {
            mid - 1
        }),
        start <= s0 <= end,
        extra == s0 - start,
        os == oldp.buffer@.subrange(s0, end),
        sigsq.len() == end - s0,
        forall|i: int| 0 <= i < sigsq.len() ==> (#[trigger] sigsq[i] as int) < kk,
        forall|c: int| 0 <= c < kk ==> (#[trigger] sigsq.to_multiset().count(c as u32)) > 0,
        1 <= kk <= sigsq.len(),
        sum_counts(sigsq, kk) == sigsq.len(),
        0 <= largest < kk,
        nb0 + kk - 1 <= n,
        start < mid ==> sigsq[0] == 0,
        // the partition entries written by the split
        cur.partition@.len() == nb0 + kk - 1,
        spans(cur.partition@) == n,
        forall|bb: int|
            0 <= bb < nb0 && bb != bid ==> (#[trigger] cur.partition@[bb]) == oldp.partition@[bb],
        forall|c2: int|
            0 <= c2 < kk ==> (#[trigger] cur.partition@[new_block_id(c2, largest, bid, nb0)]) == ((
            block_start(sigsq, start, s0, c2) as u32,
            group_start(sigsq, s0, c2 + 1) as u32,
            group_start(sigsq, s0, c2 + 1) as u32,
            )),
        newparts.len() == kk - 1,
        forall|t: int| 0 <= t < newparts.len() ==> (#[trigger] newparts[t]) == nb0 + t,
        // the buffer: frozen outside the written range, scattered inside
        forall|k: int|
            0 <= k < n && !(s0 <= k < end) ==> (#[trigger] cur.buffer@[k]) == oldp.buffer@[k],
        forall|k: int|
            s0 <= k < end ==> (#[trigger] cur.buffer@[k]) < n && cur.position@[cur.buffer@[k]
                as int] == k,
        forall|k: int| s0 <= k < end ==> os.contains(#[trigger] cur.buffer@[k]),
        // every refiner placed in its group, labelled by its signature
        forall|ii: int|
            0 <= ii < sigsq.len() ==> cur.buffer@[(#[trigger] cur.position@[os[ii] as int])
                as int] == os[ii],
        forall|ii: int|
            0 <= ii < sigsq.len() ==> group_start(sigsq, s0, sigsq[ii] as int) <= (
            #[trigger] cur.position@[os[ii] as int]) < group_start(
                sigsq,
                s0,
                sigsq[ii] as int + 1,
            ),
        forall|ii: int|
            0 <= ii < sigsq.len() ==> (#[trigger] cur.state2block@[os[ii] as int])
                == new_block_id(sigsq[ii] as int, largest, bid, nb0),
        // clean slots untouched, their states relabelled to group 0
        forall|k: int|
            start <= k < s0 ==> (#[trigger] cur.buffer@[k]) == oldp.buffer@[k],
        forall|k: int| start <= k < s0 ==> !os.contains(#[trigger] oldp.buffer@[k]),
        forall|k: int|
            start <= k < s0 ==> (#[trigger] cur.position@[oldp.buffer@[k] as int]) == k,
        forall|k: int|
            start <= k < s0 ==> (#[trigger] cur.state2block@[oldp.buffer@[k] as int])
                == new_block_id(0, largest, bid, nb0),
        // everything outside the block frozen
        forall|s: int|
            0 <= s < n && oldp.state2block@[s] != bid ==> (#[trigger] cur.position@[s])
                == oldp.position@[s],
        forall|s: int|
            0 <= s < n && oldp.state2block@[s] != bid ==> (#[trigger] cur.state2block@[s])
                == oldp.state2block@[s],
        forall|s: int|
            0 <= s < n && (#[trigger] oldp.state2block@[s]) != bid ==> !(start
                <= oldp.position@[s] < end),
        // the permutation is whole again
        forall|s: int|
            0 <= s < n ==> (#[trigger] cur.position@[s]) < n && cur.buffer@[cur.position@[s]
                as int] == s,
        cur.worklist@ == oldp.worklist@,
        forall|c: int|
            0 <= c < kk ==> #[trigger] adj_count(sigsq, extra, c) <= adj_count(
                sigsq,
                extra,
                largest,
            ),
        forall|c: int|
            largest < c < kk ==> #[trigger] adj_count(sigsq, extra, c) < adj_count(
                sigsq,
                extra,
                largest,
            ),
    ensures
        cur.wf(),
        forall|t: int|
            0 <= t < newparts.len() ==> (#[trigger] cur.partition@[newparts[t] as int]).1
                == cur.partition@[newparts[t] as int].2,
        cur.partition@[bid].1 == cur.partition@[bid].2,
        forall|s: int|
            0 <= s < n && oldp.state2block@[s] == bid ==> (#[trigger] cur.state2block@[s]) == bid
                || nb0 <= cur.state2block@[s] < nb0 + kk - 1,
        forall|s1: int, s2: int|
            0 <= s1 < n && 0 <= s2 < n && oldp.state2block@[s1] != oldp.state2block@[s2]
                ==> cur.state2block@[s1] != cur.state2block@[s2],
        forall|i1: int, i2: int|
            0 <= i1 < sigsq.len() && 0 <= i2 < sigsq.len() ==> ((cur.state2block@[oldp.buffer@[s0
                + i1] as int] == cur.state2block@[oldp.buffer@[s0 + i2] as int]) <==> (sigsq[i1]
                == sigsq[i2])),
        forall|k: int|
            start <= k < mid ==> (#[trigger] cur.state2block@[oldp.buffer@[k] as int])
                == new_block_id(0, largest, bid, nb0),
        split_outcome(oldp, cur, sigsq, bid, newparts.len() as int),
{
    broadcast use vstd::seq_lib::group_to_multiset_ensures;

    assert(oldp.partition@[bid].0 as int == start);
    assert(oldp.partition@[bid].1 as int == mid);
    assert(oldp.partition@[bid].2 as int == end);
    assert(os.len() == end - s0);
    assert forall|ii: int|
        0 <= ii < sigsq.len() implies (#[trigger] os[ii]) == oldp.buffer@[s0 + ii] by {
        assert(os[ii] == oldp.buffer@.subrange(s0, end)[ii]);
    }
    lemma_refine_geometry(
        oldp, cur, os, sigsq, newparts, n, bid, nb0, start, mid, end, s0, extra, kk, largest,
        mids2b,
    );
    // the worklist still matches: nothing new is dirty, nothing fresh is
    // listed
    assert forall|b: int|
        0 <= b < cur.nblocks() implies ((exists|q: int|
        0 <= q < cur.worklist@.len() && cur.worklist@[q] == b) <==> cur.has_dirty(b)) by {
        if b < nb0 && b != bid {
            assert(cur.partition@[b] == oldp.partition@[b]);
            assert(cur.has_dirty(b) == oldp.has_dirty(b));
        } else {
            let c2 = if b == bid {
                largest
            } else if b - nb0 < largest {
                b - nb0
            } else {
                b - nb0 + 1
            };
            assert(0 <= c2 < kk && new_block_id(c2, largest, bid, nb0) == b);
            assert(cur.partition@[b].1 == cur.partition@[b].2);
            assert(!cur.has_dirty(b));
            if exists|q: int| 0 <= q < cur.worklist@.len() && cur.worklist@[q] == b {
                let q = choose|q: int| 0 <= q < cur.worklist@.len() && cur.worklist@[q] == b;
                assert(oldp.worklist@[q] == b);
                if b == bid {
                } else {
                    assert(oldp.worklist@[q] < nb0);
                }
            }
        }
    }
    // previously separated states stay separated
    assert forall|s1: int, s2: int|
        0 <= s1 < n && 0 <= s2 < n && oldp.state2block@[s1] != oldp.state2block@[s2] implies
        cur.state2block@[s1] != cur.state2block@[s2] by {
        if oldp.state2block@[s1] != bid && oldp.state2block@[s2] != bid {
        } else if oldp.state2block@[s1] == bid {
            assert(cur.state2block@[s2] == oldp.state2block@[s2]);
            assert(cur.state2block@[s1] == bid || nb0 <= cur.state2block@[s1] < nb0 + kk - 1)
                by {
                lemma_refine_label_range(
                    oldp, cur, os, sigsq, n, bid, nb0, start, mid, end, s0, kk, largest, s1,
                );
            }
            assert(oldp.state2block@[s2] < nb0);
        } else {
            assert(cur.state2block@[s1] == oldp.state2block@[s1]);
            assert(cur.state2block@[s1] < nb0);
            assert(cur.state2block@[s2] == bid || nb0 <= cur.state2block@[s2] < nb0 + kk - 1)
                by {
                lemma_refine_label_range(
                    oldp, cur, os, sigsq, n, bid, nb0, start, mid, end, s0, kk, largest, s2,
                );
            }
        }
    }
    assert forall|s: int|
        0 <= s < n && oldp.state2block@[s] == bid implies (#[trigger] cur.state2block@[s]) == bid
        || nb0 <= cur.state2block@[s] < nb0 + kk - 1 by {
        lemma_refine_label_range(
            oldp, cur, os, sigsq, n, bid, nb0, start, mid, end, s0, kk, largest, s,
        );
    }
    // equal signatures, equal blocks; distinct signatures, distinct blocks
    assert forall|i1: int, i2: int|
        0 <= i1 < sigsq.len() && 0 <= i2 < sigsq.len() implies ((cur.state2block@[oldp.buffer@[s0
        + i1] as int] == cur.state2block@[oldp.buffer@[s0 + i2] as int]) <==> (sigsq[i1]
        == sigsq[i2])) by {
        assert(os[i1] == oldp.buffer@[s0 + i1]);
        assert(os[i2] == oldp.buffer@[s0 + i2]);
        assert(cur.state2block@[os[i1] as int] == new_block_id(
            sigsq[i1] as int,
            largest,
            bid,
            nb0,
        ));
        assert(cur.state2block@[os[i2] as int] == new_block_id(
            sigsq[i2] as int,
            largest,
            bid,
            nb0,
        ));
        if sigsq[i1] != sigsq[i2] {
            lemma_new_block_id_inj(sigsq[i1] as int, sigsq[i2] as int, largest, bid, nb0);
        }
    }
    // clean states (and the witness) follow signature 0
    assert forall|k: int|
        start <= k < mid implies (#[trigger] cur.state2block@[oldp.buffer@[k] as int])
        == new_block_id(0, largest, bid, nb0) by {
        if k < s0 {
        } else {
            assert(k == s0 && start < mid);
            assert(os[0] == oldp.buffer@[s0]);
            assert(sigsq[0] == 0);
            assert(cur.state2block@[os[0] as int] == new_block_id(0, largest, bid, nb0));
        }
    }
    // the split blocks are written all clean
    assert forall|t: int|
        0 <= t < newparts.len() implies (#[trigger] cur.partition@[newparts[t] as int]).1
        == cur.partition@[newparts[t] as int].2 by {
        let b = newparts[t] as int;
        let c2 = if b - nb0 < largest {
            b - nb0
        } else {
            b - nb0 + 1
        };
        assert(0 <= c2 < kk && new_block_id(c2, largest, bid, nb0) == b);
        assert(cur.partition@[new_block_id(c2, largest, bid, nb0)] == ((block_start(
            sigsq,
            start,
            s0,
            c2,
        ) as u32, group_start(sigsq, s0, c2 + 1) as u32, group_start(
            sigsq,
            s0,
            c2 + 1,
        ) as u32)));
    }
    assert(cur.partition@[new_block_id(largest, largest, bid, nb0)] == ((block_start(
        sigsq,
        start,
        s0,
        largest,
    ) as u32, group_start(sigsq, s0, largest + 1) as u32, group_start(
        sigsq,
        s0,
        largest + 1,
    ) as u32)));
    assert(cur.partition@[bid].1 == cur.partition@[bid].2);
    // package the assignment with its winning signature
    assert(kk == newparts.len() + 1);
    assert forall|i: int|
        0 <= i < sigsq.len() implies (#[trigger] cur.state2block@[oldp.buffer@[s0 + i] as int])
        == new_block_id(sigsq[i] as int, largest, bid, nb0) by {
        assert(os[i] == oldp.buffer@[s0 + i]);
        assert(cur.state2block@[os[i] as int] == new_block_id(
            sigsq[i] as int,
            largest,
            bid,
            nb0,
        ));
    }
    assert(adj_count(sigsq, extra, largest) == adj_count(sigsq, extra, largest));
    assert(oldp.refiners_start(bid) == s0);
    assert(oldp.partition@[bid].0 as int == start);
    assert(oldp.partition@[bid].1 as int == mid);
    assert(newparts.len() + 1 == kk);
    assert(oldp.refiners_start(bid) - oldp.partition@[bid].0 as int == extra);
    assert(adj_count(
        sigsq,
        oldp.refiners_start(bid) - (oldp.partition@[bid].0 as int),
        largest,
    ) == adj_count(sigsq, extra, largest));
    assert(split_outcome_with(oldp, cur, sigsq, bid, newparts.len() as int, largest as int));
    assert(split_outcome(oldp, cur, sigsq, bid, newparts.len() as int));
}


/// A state of the split block ends up keeping the id or taking a fresh one.
proof fn lemma_refine_label_range(
    oldp: RefinablePartition,
    cur: RefinablePartition,
    os: Seq<u32>,
    sigsq: Seq<u32>,
    n: int,
    bid: int,
    nb0: int,
    start: int,
    mid: int,
    end: int,
    s0: int,
    kk: int,
    largest: int,
    s: int,
)
    requires
        oldp.wf_core(),
        n == oldp.n(),
        cur.state2block@.len() == n,
        0 <= bid < nb0,
        nb0 == oldp.nblocks(),
        0 <= start <= mid <= end <= n,
        start < end,
        oldp.partition@[bid] == ((start as u32, mid as u32, end as u32)),
        s0 == (if start == mid {
            start
        } else {
            mid - 1
        }),
        start <= s0 <= end,
        os == oldp.buffer@.subrange(s0, end),
        sigsq.len() == end - s0,
        forall|i: int| 0 <= i < sigsq.len() ==> (#[trigger] sigsq[i] as int) < kk,
        1 <= kk,
        0 <= largest < kk,
        forall|ii: int|
            0 <= ii < sigsq.len() ==> (#[trigger] cur.state2block@[os[ii] as int])
                == new_block_id(sigsq[ii] as int, largest, bid, nb0),
        forall|k: int|
            start <= k < s0 ==> (#[trigger] cur.state2block@[oldp.buffer@[k] as int])
                == new_block_id(0, largest, bid, nb0),
        0 <= s < n,
        oldp.state2block@[s] == bid,
    ensures
        cur.state2block@[s] == bid || nb0 <= cur.state2block@[s] < nb0 + kk - 1,
{
    assert(oldp.partition@[bid].0 as int == start);
    assert(oldp.partition@[bid].2 as int == end);
    if os.contains(s as u32) {
        let ii = choose|ii: int| 0 <= ii < sigsq.len() && os[ii] == s as u32;
        assert(cur.state2block@[s] == new_block_id(sigsq[ii] as int, largest, bid, nb0));
    } else {
        assert(start <= oldp.position@[s] < end) by {
            assert(oldp.partition@[oldp.state2block@[s] as int].0 <= oldp.position@[s]
                < oldp.partition@[oldp.state2block@[s] as int].2);
        }
        assert(oldp.position@[s] < s0) by {
            if s0 <= oldp.position@[s] < end {
                assert(os[oldp.position@[s] - s0] == oldp.buffer@.subrange(s0, end)[
                    oldp.position@[s] - s0
                ]);
                assert(os[oldp.position@[s] - s0] == oldp.buffer@[oldp.position@[s] as int]);
                assert(oldp.buffer@[oldp.position@[s] as int] == s);
                assert(os.contains(s as u32));
            }
        }
        assert(oldp.buffer@[oldp.position@[s] as int] == s);
        assert(cur.state2block@[s] == new_block_id(0, largest, bid, nb0));
    }
}


/// What the copied refiner list and the signature counts establish before
/// the scatter: the refiners are distinct members of the block, every
/// signature below the count bound occurs, and the fresh ids will fit.
#[verifier::rlimit(60)]
proof fn lemma_split_prep(
    oldself: RefinablePartition,
    os: Seq<u32>,
    sigsq: Seq<u32>,
    cnt: Seq<u32>,
    n: int,
    bid: int,
    nb0: int,
    start: int,
    mid: int,
    end: int,
    s0: int,
    kk: int,
)
    requires
        oldself.wf_core(),
        n == oldself.n(),
        n <= u32::MAX,
        0 <= bid < nb0,
        nb0 == oldself.nblocks(),
        0 <= start <= mid <= end <= n,
        start < end,
        oldself.partition@[bid] == ((start as u32, mid as u32, end as u32)),
        s0 == (if start == mid {
            start
        } else {
            mid - 1
        }),
        start <= s0 <= end,
        os == oldself.buffer@.subrange(s0, end),
        sigsq.len() == end - s0,
        downward_closed(sigsq),
        kk == cnt.len(),
        kk <= u32::MAX + 1,
        forall|v: int| 0 <= v < kk ==> (#[trigger] cnt[v]) == sigsq.to_multiset().count(v as u32),
        forall|i: int| 0 <= i < sigsq.len() ==> (#[trigger] sigsq[i] as int) < kk,
        kk == 0 ==> sigsq.len() == 0,
        kk > 0 ==> sigsq.to_multiset().count((kk - 1) as u32) > 0,
    ensures
        forall|i1: int, i2: int| 0 <= i1 < i2 < sigsq.len() ==> os[i1] != os[i2],
        forall|i: int|
            0 <= i < sigsq.len() ==> (#[trigger] os[i]) < n && oldself.state2block@[os[i] as int]
                == bid && oldself.position@[os[i] as int] == s0 + i,
        1 <= kk <= sigsq.len(),
        forall|c: int| 0 <= c < kk ==> (#[trigger] sigsq.to_multiset().count(c as u32)) > 0,
        sum_counts(sigsq, kk) == sigsq.len(),
        nb0 + kk - 1 <= n,
{
    broadcast use vstd::seq_lib::group_to_multiset_ensures;

    let rr = sigsq.len() as int;
    assert(os.len() == rr);
    assert forall|i: int|
        0 <= i < rr implies (#[trigger] os[i]) < n && oldself.state2block@[os[i] as int] == bid
        && oldself.position@[os[i] as int] == s0 + i by {
        assert(os[i] == oldself.buffer@[s0 + i]);
        assert(oldself.state2block@[oldself.buffer@[s0 + i] as int] == bid);
    }
    assert forall|i1: int, i2: int| 0 <= i1 < i2 < rr implies os[i1] != os[i2] by {
        assert(os[i1] == oldself.buffer@[s0 + i1]);
        assert(os[i2] == oldself.buffer@[s0 + i2]);
        assert(oldself.position@[oldself.buffer@[s0 + i1] as int] == s0 + i1);
        assert(oldself.position@[oldself.buffer@[s0 + i2] as int] == s0 + i2);
    }
    if kk > 0 {
        lemma_downward_dense(sigsq, (kk - 1) as u32);
        assert forall|cc: int|
            0 <= cc < kk implies (#[trigger] sigsq.to_multiset().count(cc as u32)) > 0 by {
            assert(cc as u32 <= (kk - 1) as u32);
            assert(sigsq.to_multiset().count((cc as u32)) > 0);
        }
    }
    assert(rr >= 1);
    assert((sigsq[0] as int) < kk);
    assert(kk >= 1);
    lemma_sum_counts_all(sigsq, kk);
    lemma_sum_counts_min(sigsq, kk);
    lemma_spans_count(oldself.partition@);
    lemma_spans_ge_with(oldself.partition@, bid);
}

/// After the clean relabel, every state's label is what the split
/// prescribes: refiners follow their signatures, the clean states follow
/// the witness, the rest is untouched.
#[verifier::rlimit(100)]
#[verifier::spinoff_prover]
proof fn lemma_relabel_summary(
    oldself: RefinablePartition,
    cur: RefinablePartition,
    os: Seq<u32>,
    sigsq: Seq<u32>,
    mids2b: Seq<u32>,
    n: int,
    bid: int,
    nb0: int,
    start: int,
    mid: int,
    end: int,
    s0: int,
    kk: int,
    largest: int,
    next_avail: u32,
    partition_id: u32,
)
    requires
        oldself.wf_core(),
        n == oldself.n(),
        cur.position@.len() == n,
        cur.state2block@.len() == n,
        mids2b.len() == n,
        n <= u32::MAX,
        bid == partition_id as int,
        0 <= bid < nb0,
        nb0 == oldself.nblocks(),
        nb0 == next_avail as int,
        0 <= start <= mid <= end <= n,
        start < end,
        oldself.partition@[bid] == ((start as u32, mid as u32, end as u32)),
        s0 == (if start == mid {
            start
        } else {
            mid - 1
        }),
        start <= s0 <= end,
        os == oldself.buffer@.subrange(s0, end),
        sigsq.len() == end - s0,
        forall|i: int| 0 <= i < sigsq.len() ==> (#[trigger] sigsq[i] as int) < kk,
        forall|c: int| 0 <= c < kk ==> (#[trigger] sigsq.to_multiset().count(c as u32)) > 0,
        1 <= kk,
        0 <= largest < kk,
        // refiner positions and labels before the relabel
        forall|ii: int|
            0 <= ii < sigsq.len() ==> s0 + sum_counts(sigsq, sigsq[ii] as int) <= (
            #[trigger] cur.position@[os[ii] as int]) < s0 + sum_counts(
                sigsq,
                sigsq[ii] as int + 1,
            ),
        forall|ii: int|
            0 <= ii < sigsq.len() ==> (#[trigger] mids2b[os[ii] as int]) == new_block_id(
                sigsq[ii] as int,
                largest,
                bid,
                nb0,
            ),
        // clean slots before the relabel
        forall|k: int|
            start <= k < s0 ==> !os.contains(#[trigger] oldself.buffer@[k]) && cur.position@[
            oldself.buffer@[k] as int] == k && mids2b[oldself.buffer@[k] as int] == partition_id,
        // the rest before the relabel
        forall|s: int|
            0 <= s < n && oldself.state2block@[s] != partition_id ==> (
            #[trigger] cur.position@[s]) == oldself.position@[s] && mids2b[s]
                == oldself.state2block@[s] && !(start <= oldself.position@[s] < end),
        // what the relabel pass did
        largest == 0 ==> cur.state2block@ == mids2b,
        largest != 0 ==> (forall|s: int|
            0 <= s < n && !(start <= cur.position@[s] < mid) ==> (
            #[trigger] cur.state2block@[s]) == mids2b[s]),
        largest != 0 ==> (forall|s: int|
            0 <= s < n && start <= cur.position@[s] < mid ==> (
            #[trigger] cur.state2block@[s]) == next_avail),
    ensures
        forall|ii: int|
            0 <= ii < sigsq.len() ==> (#[trigger] cur.state2block@[os[ii] as int])
                == new_block_id(sigsq[ii] as int, largest, bid, nb0),
        forall|k: int|
            start <= k < s0 ==> (#[trigger] cur.state2block@[oldself.buffer@[k] as int])
                == new_block_id(0, largest, bid, nb0),
        forall|s: int|
            0 <= s < n && oldself.state2block@[s] != partition_id ==> (
            #[trigger] cur.state2block@[s]) == oldself.state2block@[s],
{
    let rr = sigsq.len() as int;
    assert forall|ii: int|
        0 <= ii < rr implies (#[trigger] cur.state2block@[os[ii] as int]) == new_block_id(
        sigsq[ii] as int,
        largest,
        bid,
        nb0,
    ) by {
        assert(mids2b[os[ii] as int] == new_block_id(sigsq[ii] as int, largest, bid, nb0));
        lemma_sum_counts_nonneg(sigsq, sigsq[ii] as int);
        if largest != 0 && start <= cur.position@[os[ii] as int] < mid {
            assert(cur.position@[os[ii] as int] == s0);
            if (sigsq[ii] as int) > 0 {
                assert(sum_counts(sigsq, 0) == 0);
                assert(sum_counts(sigsq, 1) == sigsq.to_multiset().count(0u32));
                assert(sigsq.to_multiset().count(0u32) > 0);
                lemma_sum_counts_mono(sigsq, 1, sigsq[ii] as int);
                assert(false);
            }
            assert(cur.state2block@[os[ii] as int] == next_avail);
        } else if largest != 0 {
            assert(cur.state2block@[os[ii] as int] == mids2b[os[ii] as int]);
        }
    }
    assert forall|k: int|
        start <= k < s0 implies (#[trigger] cur.state2block@[oldself.buffer@[k] as int])
        == new_block_id(0, largest, bid, nb0) by {
        assert(cur.position@[oldself.buffer@[k] as int] == k);
        assert(mids2b[oldself.buffer@[k] as int] == partition_id);
        if largest != 0 {
            assert(k < mid);
            assert(cur.state2block@[oldself.buffer@[k] as int] == next_avail);
        }
    }
    assert forall|s: int|
        0 <= s < n && oldself.state2block@[s] != partition_id implies (
    #[trigger] cur.state2block@[s]) == oldself.state2block@[s] by {
        assert(cur.position@[s] == oldself.position@[s]);
        assert(!(start <= oldself.position@[s] < end));
        if largest != 0 {
            assert(cur.state2block@[s] == mids2b[s]);
        }
        assert(mids2b[s] == oldself.state2block@[s]);
    }
}

/// What the finished scatter guarantees, before the clean relabel: every
/// refiner sits in its signature group, the clean slots and the rest of the
/// machine are untouched, and the permutation is whole.
#[verifier::rlimit(100)]
#[verifier::spinoff_prover]
proof fn lemma_scatter_summary(
    oldself: RefinablePartition,
    cur: RefinablePartition,
    os: Seq<u32>,
    sigsq: Seq<u32>,
    n: int,
    bid: int,
    nb0: int,
    start: int,
    mid: int,
    end: int,
    s0: int,
    kk: int,
    largest: int,
    partition_id: u32,
)
    requires
        oldself.wf_core(),
        n == oldself.n(),
        cur.buffer@.len() == n,
        cur.position@.len() == n,
        cur.state2block@.len() == n,
        n <= u32::MAX,
        bid == partition_id as int,
        0 <= bid < nb0,
        nb0 == oldself.nblocks(),
        0 <= start <= mid <= end <= n,
        start < end,
        oldself.partition@[bid] == ((start as u32, mid as u32, end as u32)),
        s0 == (if start == mid {
            start
        } else {
            mid - 1
        }),
        start <= s0 <= end,
        os == oldself.buffer@.subrange(s0, end),
        sigsq.len() == end - s0,
        forall|i: int| 0 <= i < sigsq.len() ==> (#[trigger] sigsq[i] as int) < kk,
        forall|c: int| 0 <= c < kk ==> (#[trigger] sigsq.to_multiset().count(c as u32)) > 0,
        1 <= kk <= sigsq.len(),
        sum_counts(sigsq, kk) == sigsq.len(),
        0 <= largest < kk,
        forall|i1: int, i2: int| 0 <= i1 < i2 < sigsq.len() ==> os[i1] != os[i2],
        forall|ii: int| 0 <= ii < sigsq.len() ==> (#[trigger] os[ii]) < n,
        forall|k: int|
            0 <= k < n && !(s0 <= k < end) ==> (#[trigger] cur.buffer@[k]) == oldself.buffer@[k],
        forall|k: int|
            s0 <= k < end ==> (#[trigger] cur.buffer@[k]) < n && cur.position@[cur.buffer@[k]
                as int] == k,
        forall|ii: int|
            0 <= ii < sigsq.len() ==> cur.buffer@[(#[trigger] cur.position@[os[ii] as int])
                as int] == os[ii],
        forall|ii: int|
            0 <= ii < sigsq.len() ==> s0 + sum_counts(sigsq, sigsq[ii] as int) <= (
            #[trigger] cur.position@[os[ii] as int]) < s0 + sum_counts(
                sigsq,
                sigsq[ii] as int + 1,
            ),
        forall|s: int|
            0 <= s < n && !os.contains(s as u32) ==> (#[trigger] cur.position@[s])
                == oldself.position@[s],
        forall|s: int|
            0 <= s < n && !os.contains(s as u32) ==> (#[trigger] cur.state2block@[s])
                == oldself.state2block@[s],
    ensures
        forall|i: int|
            0 <= i < sigsq.len() ==> (#[trigger] os[i]) < n && oldself.state2block@[os[i] as int]
                == partition_id && oldself.position@[os[i] as int] == s0 + i,
        forall|k: int|
            start <= k < s0 ==> (#[trigger] cur.buffer@[k]) == oldself.buffer@[k] && !os.contains(
                oldself.buffer@[k],
            ) && cur.position@[oldself.buffer@[k] as int] == k && cur.state2block@[oldself.buffer@[
            k] as int] == partition_id,
        forall|s: int|
            0 <= s < n && oldself.state2block@[s] != partition_id ==> (
            #[trigger] cur.position@[s]) == oldself.position@[s] && cur.state2block@[s]
                == oldself.state2block@[s] && !(start <= oldself.position@[s] < end),
        forall|s: int|
            0 <= s < n ==> (#[trigger] cur.position@[s]) < n && cur.buffer@[cur.position@[s]
                as int] == s,
{
    let w = end as usize;
    assert forall|i: int|
                0 <= i < (sigsq.len() as int) implies (#[trigger] os[i]) < n && oldself.state2block@[os[i] as int]
                == partition_id && oldself.position@[os[i] as int] == s0 + i by {
                assert(os[i] == oldself.buffer@[s0 + i]);
                assert(oldself.state2block@[oldself.buffer@[s0 + i] as int] == bid);
            }
            // clean slots are untouched and their states unmoved
            assert forall|k: int|
                start <= k < s0 implies (#[trigger] cur.buffer@[k]) == oldself.buffer@[k]
                && !os.contains(oldself.buffer@[k]) && cur.position@[oldself.buffer@[k] as int]
                == k && cur.state2block@[oldself.buffer@[k] as int] == partition_id by {
                let st = oldself.buffer@[k];
                assert(oldself.position@[st as int] == k);
                if os.contains(st) {
                    let ii = choose|ii: int| 0 <= ii < (sigsq.len() as int) && os[ii] == st;
                    assert(oldself.position@[os[ii] as int] == s0 + ii);
                }
                assert(oldself.state2block@[st as int] == bid);
            }
            // states of other blocks sit outside the refined range
            assert forall|s: int|
                0 <= s < n && oldself.state2block@[s] != partition_id implies (
            #[trigger] cur.position@[s]) == oldself.position@[s] && cur.state2block@[s]
                == oldself.state2block@[s] && !(start <= oldself.position@[s] < end)
                && cur.buffer@[oldself.position@[s] as int] == oldself.buffer@[oldself.position@[s] as int] by {
                if os.contains(s as u32) {
                    let ii = choose|ii: int| 0 <= ii < (sigsq.len() as int) && os[ii] == s as u32;
                    assert(oldself.state2block@[os[ii] as int] == partition_id);
                }
                if start <= oldself.position@[s] < end {
                    assert(oldself.state2block@[oldself.buffer@[oldself.position@[s] as int]
                        as int] == bid);
                    assert(oldself.buffer@[oldself.position@[s] as int] == s);
                }
            }
            // the permutation is restored
            assert forall|s: int|
                0 <= s < n implies (#[trigger] cur.position@[s]) < n
                && cur.buffer@[cur.position@[s] as int] == s by {
                if oldself.state2block@[s] != bid {
                } else if os.contains(s as u32) {
                    let ii = choose|ii: int| 0 <= ii < (sigsq.len() as int) && os[ii] == s as u32;
                    assert((sigsq[ii] as int) < kk as int);
                    lemma_sum_counts_mono(sigsq, sigsq[ii] as int + 1, kk as int);
                    assert(s0 + sum_counts(sigsq, sigsq[ii] as int) <= cur.position@[os[ii]
                        as int] < s0 + sum_counts(sigsq, sigsq[ii] as int + 1));
                    assert(cur.position@[os[ii] as int] < end as int);
                    assert(cur.buffer@[cur.position@[os[ii] as int] as int] == os[ii]);
                } else {
                    assert(start <= oldself.position@[s] < end) by {
                        assert(oldself.partition@[bid].0 <= oldself.position@[s]
                            < oldself.partition@[bid].2);
                    }
                    assert(oldself.position@[s] < s0) by {
                        if s0 <= oldself.position@[s] < end {
                            assert(os[oldself.position@[s] - s0] == oldself.buffer@[oldself.position@[s] as int]);
                            assert(os.contains(s as u32));
                        }
                    }
                    assert(cur.buffer@[oldself.position@[s] as int] == oldself.buffer@[oldself.position@[s] as int]);
                }
            }
}

impl RefinablePartition {

    /// Close the split: summarize the scatter, relabel the clean states to
    /// the witness's block, and restore every invariant.
    #[verifier::loop_isolation(false)]
    #[verifier::rlimit(100)]
    #[verifier::spinoff_prover]
    fn finish_refine(
        &mut self,
        partition_id: u32,
        signatures: &Vec<u32>,
        start: u32,
        mid: u32,
        end: u32,
        s0: u32,
        kk: usize,
        largest: u32,
        next_avail: u32,
        new_partitions: Vec<u32>,
        Ghost(oldself): Ghost<RefinablePartition>,
        Ghost(os): Ghost<Seq<u32>>,
        Ghost(cnts): Ghost<Seq<u32>>,
    ) -> (r: Vec<u32>)
        requires
            ({
                let cur = *old(self);
                let sigsq = signatures@;
                let n = oldself.n();
                let bid = partition_id as int;
                let nb0 = oldself.nblocks();
                let rr = sigsq.len() as int;
                let extra = s0 as int - start as int;
                &&& oldself.wf_core()
                &&& oldself.worklist_ok_except(Some(bid))
                &&& cur.buffer@.len() == n
                &&& cur.position@.len() == n
                &&& cur.state2block@.len() == n
                &&& n <= u32::MAX
                &&& 0 <= bid < nb0
                &&& nb0 == next_avail as int
                &&& nb0 + kk - 1 <= n
                &&& oldself.partition@[bid] == ((start, mid, end))
                &&& 0 <= start as int <= mid as int <= end as int <= n
                &&& (start as int) < end as int
                &&& s0 == (if start == mid {
                    start
                } else {
                    (mid - 1) as u32
                })
                &&& start <= s0 <= end
                &&& os == oldself.buffer@.subrange(s0 as int, end as int)
                &&& rr == end as int - s0 as int
                &&& rr <= u32::MAX
                &&& (forall|i: int| 0 <= i < rr ==> (#[trigger] sigsq[i] as int) < kk as int)
                &&& (forall|c3: int|
                    0 <= c3 < kk as int ==> (#[trigger] sigsq.to_multiset().count(c3 as u32))
                        > 0)
                &&& 1 <= kk <= rr
                &&& sum_counts(sigsq, kk as int) == rr
                &&& (largest as int) < kk as int
                &&& (start < mid ==> sigsq[0] == 0)
                &&& (forall|i1: int, i2: int| 0 <= i1 < i2 < rr ==> os[i1] != os[i2])
                &&& (forall|ii: int| 0 <= ii < rr ==> (#[trigger] os[ii]) < n)
                &&& cnts.len() == kk
                &&& (forall|c3: int|
                    0 <= c3 < kk as int ==> (#[trigger] cnts[c3]) == adj_count(
                        sigsq,
                        extra,
                        c3,
                    ))
                &&& (forall|c3: int|
                    0 <= c3 < kk as int ==> (#[trigger] cnts[c3]) <= cnts[largest as int])
                &&& (forall|c3: int|
                    (largest as int) < c3 < kk as int ==> (#[trigger] cnts[c3])
                        < cnts[largest as int])
                &&& cur.worklist@ == oldself.worklist@
                &&& cur.partition@.len() == nb0 + kk - 1
                &&& (forall|bb: int|
                    0 <= bb < nb0 && bb != bid ==> (#[trigger] cur.partition@[bb])
                        == oldself.partition@[bb])
                &&& cur.partition@[bid] == (((
                if largest == 0 {
                    start
                } else {
                    (s0 + sum_counts(sigsq, largest as int)) as u32
                }), (s0 + sum_counts(sigsq, largest as int + 1)) as u32, (s0 + sum_counts(
                    sigsq,
                    largest as int + 1,
                )) as u32))
                &&& (forall|c2: int|
                    0 <= c2 < kk as int && c2 != largest as int ==> (
                    #[trigger] cur.partition@[new_block_id(c2, largest as int, bid, nb0)]) == (((
                    if c2 == 0 {
                        start
                    } else {
                        (s0 + sum_counts(sigsq, c2)) as u32
                    }), (s0 + sum_counts(sigsq, c2 + 1)) as u32, (s0 + sum_counts(
                        sigsq,
                        c2 + 1,
                    )) as u32)))
                &&& spans(cur.partition@) == n
                &&& (forall|k: int|
                    0 <= k < n && !(s0 as int <= k < end as int) ==> (#[trigger] cur.buffer@[k])
                        == oldself.buffer@[k])
                &&& (forall|k: int|
                    s0 as int <= k < end as int ==> (#[trigger] cur.buffer@[k]) < n
                        && cur.position@[cur.buffer@[k] as int] == k && (exists|ii: int|
                        0 <= ii < rr && os[ii] == cur.buffer@[k] && (sigsq[ii] as int)
                            < kk as int))
                &&& (forall|ii: int|
                    0 <= ii < rr ==> cur.buffer@[(#[trigger] cur.position@[os[ii] as int])
                        as int] == os[ii])
                &&& (forall|ii: int|
                    0 <= ii < rr ==> s0 as int + sum_counts(sigsq, sigsq[ii] as int) <= (
                    #[trigger] cur.position@[os[ii] as int]) < s0 as int + sum_counts(
                        sigsq,
                        sigsq[ii] as int + 1,
                    ))
                &&& (forall|ii: int|
                    0 <= ii < rr ==> (#[trigger] cur.state2block@[os[ii] as int])
                        == new_block_id(sigsq[ii] as int, largest as int, bid, nb0))
                &&& (forall|s2: int|
                    0 <= s2 < n && !os.contains(s2 as u32) ==> (#[trigger] cur.position@[s2])
                        == oldself.position@[s2])
                &&& (forall|s2: int|
                    0 <= s2 < n && !os.contains(s2 as u32) ==> (
                    #[trigger] cur.state2block@[s2]) == oldself.state2block@[s2])
                &&& new_partitions@.len() == kk - 1
                &&& (forall|t: int|
                    0 <= t < new_partitions@.len() ==> (#[trigger] new_partitions@[t]) == nb0
                        + t)
            }),
        ensures
            final(self).wf(),
            final(self).n() == oldself.n(),
            final(self).worklist@ == oldself.worklist@,
            final(self).nblocks() == oldself.nblocks() + r@.len(),
            r@.len() < final(self).nblocks(),
            r@ == new_partitions@,
            forall|t: int| 0 <= t < r@.len() ==> (#[trigger] r@[t]) == oldself.nblocks() + t,
            forall|bb: int|
                0 <= bb < oldself.nblocks() && bb != partition_id ==> (#[trigger] final(self).partition@[bb]) == oldself.partition@[bb],
            forall|t: int|
                0 <= t < r@.len() ==> (#[trigger] final(self).partition@[r@[t] as int]).1
                    == final(self).partition@[r@[t] as int].2,
            final(self).partition@[partition_id as int].1 == final(self).partition@[partition_id as int].2,
            forall|s: int|
                0 <= s < oldself.n() && oldself.state2block@[s] != partition_id ==> (
                #[trigger] final(self).state2block@[s]) == oldself.state2block@[s],
            forall|s: int|
                0 <= s < oldself.n() && oldself.state2block@[s] != partition_id ==> (
                #[trigger] final(self).position@[s]) == oldself.position@[s],
            forall|s: int|
                0 <= s < oldself.n() && oldself.state2block@[s] == partition_id ==> (
                #[trigger] final(self).state2block@[s]) == partition_id || oldself.nblocks()
                    <= final(self).state2block@[s] < oldself.nblocks() + r@.len(),
            forall|s1: int, s2: int|
                0 <= s1 < oldself.n() && 0 <= s2 < oldself.n() && oldself.state2block@[s1]
                    != oldself.state2block@[s2] ==> final(self).state2block@[s1] != final(self).state2block@[s2],
            forall|i1: int, i2: int|
                0 <= i1 < signatures@.len() && 0 <= i2 < signatures@.len() ==> ((final(self).state2block@[oldself.buffer@[oldself.refiners_start(partition_id as int) + i1] as int]
                    == final(self).state2block@[oldself.buffer@[oldself.refiners_start(
                    partition_id as int,
                ) + i2] as int]) <==> (signatures@[i1] == signatures@[i2])),
            split_outcome(
                oldself,
                *final(self),
                signatures@,
                partition_id as int,
                r@.len() as int,
            ),
    {
        let ghost n = oldself.n();
        let ghost bid = partition_id as int;
        let ghost nb0 = oldself.nblocks();
        let ghost sigsq = signatures@;
        let ghost rr = sigsq.len() as int;
        let ghost extra = s0 as int - start as int;
        proof {
            assert forall|c2: int|
                0 <= c2 < kk as int implies #[trigger] adj_count(sigsq, extra, c2) <= adj_count(
                sigsq,
                extra,
                largest as int,
            ) by {
                assert(cnts[c2] == adj_count(sigsq, extra, c2));
                assert(cnts[largest as int] == adj_count(sigsq, extra, largest as int));
            }
            assert forall|c2: int|
                (largest as int) < c2 < kk as int implies #[trigger] adj_count(
                sigsq,
                extra,
                c2,
            ) < adj_count(sigsq, extra, largest as int) by {
                assert(cnts[c2] == adj_count(sigsq, extra, c2));
                assert(cnts[largest as int] == adj_count(sigsq, extra, largest as int));
            }
        }
        proof {
            lemma_scatter_summary(
                oldself,
                *self,
                os,
                sigsq,
                n,
                bid,
                nb0,
                start as int,
                mid as int,
                end as int,
                s0 as int,
                kk as int,
                largest as int,
                partition_id,
            );
            assert(spans(self.partition@) == n);
        }
        let ghost mids2b = self.state2block@;
        let ghost prebuf = self.buffer@;
        let ghost prepos = self.position@;
        let ghost preparts = self.partition@;
        if largest != 0 {
            let mut k: usize = start as usize;
            while k < mid as usize
                invariant
                    start as usize <= k,
                    start < mid ==> k <= mid as usize,
                    start == mid ==> k == start as usize,
                    self.buffer@.len() == n,
                    self.position@.len() == n,
                    self.state2block@.len() == n,
                    self.buffer@ == prebuf,
                    self.position@ == prepos,
                    self.partition@ == preparts,
                    self.worklist@ == oldself.worklist@,
                    forall|s: int|
                        0 <= s < n && !(start <= self.position@[s] < k) ==> (
                        #[trigger] self.state2block@[s]) == mids2b[s],
                    forall|s: int|
                        0 <= s < n && start <= self.position@[s] < k ==> (
                        #[trigger] self.state2block@[s]) == next_avail,
                decreases mid as int - k,
            {
                let st = self.buffer[k];
                proof {
                    if (k as int) < s0 as int {
                        assert(self.buffer@[k as int] == oldself.buffer@[k as int]);
                        assert(self.position@[st as int] == k as int);
                    } else {
                        assert(s0 as int <= k as int && (k as int) < end as int);
                        assert(self.position@[self.buffer@[k as int] as int] == k as int);
                    }
                    assert(st < n);
                }
                self.state2block.set(st as usize, next_avail);
                proof {
                    assert forall|s: int|
                        0 <= s < n && start <= self.position@[s] < k + 1 implies (
                    #[trigger] self.state2block@[s]) == next_avail by {
                        if self.position@[s] == k as int {
                            assert(self.buffer@[self.position@[s] as int] == s);
                            assert(s == st as int);
                        }
                    }
                }
                k = k + 1;
            }
        }
        proof {
            assert(self.buffer@ == prebuf);
            assert(self.position@ == prepos);
            assert(self.partition@ == preparts);
            if largest == 0 {
                assert(self.state2block@ == mids2b);
            }
            assert forall|s2: int|
                0 <= s2 < n && oldself.state2block@[s2] != partition_id implies (
            #[trigger] self.position@[s2]) == oldself.position@[s2] && mids2b[s2]
                == oldself.state2block@[s2] && !(start as int <= oldself.position@[s2]
                < end as int) by {
                if os.contains(s2 as u32) {
                    let ii = choose|ii: int| 0 <= ii < rr && os[ii] == s2 as u32;
                    assert(oldself.state2block@[os[ii] as int] == partition_id);
                }
            }
            lemma_relabel_summary(
                oldself,
                *self,
                os,
                sigsq,
                mids2b,
                n,
                bid,
                nb0,
                start as int,
                mid as int,
                end as int,
                s0 as int,
                kk as int,
                largest as int,
                next_avail,
                partition_id,
            );
            assert forall|k: int|
                s0 as int <= k < end as int implies os.contains(
                #[trigger] self.buffer@[k]) by {
                let wit = choose|ii: int|
                    0 <= ii < rr && os[ii] == self.buffer@[k] && (sigsq[ii] as int)
                        < kk as int;
                assert(os[wit] == self.buffer@[k]);
            }
            assert forall|c2: int|
                0 <= c2 < kk as int implies (#[trigger] sigsq.to_multiset().count(
                c2 as u32,
            )) > 0 by {
                assert(sigsq.to_multiset().count((c2 as u32)) > 0);
            }
            assert forall|s2: int|
                0 <= s2 < n && (#[trigger] oldself.state2block@[s2]) != partition_id implies !(
            start <= oldself.position@[s2] < end) by {
                if start <= oldself.position@[s2] < end {
                    assert(oldself.state2block@[oldself.buffer@[oldself.position@[s2] as int]
                        as int] == bid);
                    assert(oldself.buffer@[oldself.position@[s2] as int] == s2);
                }
            }

            lemma_refine_wf(
                oldself,
                *self,
                os,
                sigsq,
                new_partitions@,
                n,
                bid,
                nb0,
                start as int,
                mid as int,
                end as int,
                s0 as int,
                extra,
                kk as int,
                largest as int,
                mids2b,
            );
            assert(oldself.refiners_start(bid) == s0 as int);
            assert(oldself.partition@[bid].0 as int == start as int);
            assert(extra == s0 as int - oldself.partition@[bid].0);
        }
        new_partitions
    }

    /// Split the block along the given signatures.  `signatures[k]` belongs
    /// to the `k`-th refiner; they are renumbered densely from 0, with the
    /// clean witness (if the block has clean states) carrying 0.  The
    /// sub-block with the most states — counting the clean states toward
    /// the witness's signature 0, ties broken toward the highest signature
    /// — keeps the block id; the others get fresh ids in ascending
    /// signature order, returned in order.  Each state's new block is a
    /// function of its old block and its signature alone, so states of
    /// different blocks never merge.
    #[verifier::loop_isolation(false)]
    #[verifier::rlimit(100)]
    pub fn refine(&mut self, partition_id: u32, signatures: &Vec<u32>) -> (r: Vec<u32>)
        requires
            old(self).wf_core(),
            old(self).worklist_ok_except(Some(partition_id as int)),
            (partition_id as int) < old(self).nblocks(),
            signatures@.len() == old(self).refiners_len(partition_id as int),
            forall|i: int|
                0 <= i < signatures@.len() ==> (#[trigger] signatures@[i]) < signatures@.len(),
            downward_closed(signatures@),
            old(self).partition@[partition_id as int].0 < old(self).partition@[partition_id as int].1
                ==> signatures@[0] == 0,
        ensures
            final(self).wf(),
            final(self).n() == old(self).n(),
            final(self).worklist@ == old(self).worklist@,
            final(self).nblocks() == old(self).nblocks() + r@.len(),
            r@.len() < final(self).nblocks(),
            forall|t: int| 0 <= t < r@.len() ==> (#[trigger] r@[t]) == old(self).nblocks() + t,
            forall|bb: int|
                0 <= bb < old(self).nblocks() && bb != partition_id ==> (#[trigger] final(self).partition@[bb]) == old(self).partition@[bb],
            forall|t: int|
                0 <= t < r@.len() ==> (#[trigger] final(self).partition@[r@[t] as int]).1
                    == final(self).partition@[r@[t] as int].2,
            final(self).partition@[partition_id as int].1 == final(self).partition@[partition_id as int].2,
            forall|s: int|
                0 <= s < old(self).n() && old(self).state2block@[s] != partition_id ==> (
                #[trigger] final(self).state2block@[s]) == old(self).state2block@[s],
            forall|s: int|
                0 <= s < old(self).n() && old(self).state2block@[s] != partition_id ==> (
                #[trigger] final(self).position@[s]) == old(self).position@[s],
            forall|s: int|
                0 <= s < old(self).n() && old(self).state2block@[s] == partition_id ==> (
                #[trigger] final(self).state2block@[s]) == partition_id || old(self).nblocks()
                    <= final(self).state2block@[s] < old(self).nblocks() + r@.len(),
            forall|s1: int, s2: int|
                0 <= s1 < old(self).n() && 0 <= s2 < old(self).n() && old(self).state2block@[s1]
                    != old(self).state2block@[s2] ==> final(self).state2block@[s1] != final(self).state2block@[s2],
            // two refiners end in one block exactly when their signatures
            // are equal
            forall|i1: int, i2: int|
                0 <= i1 < signatures@.len() && 0 <= i2 < signatures@.len() ==> ((final(self).state2block@[old(self).buffer@[old(self).refiners_start(partition_id as int) + i1] as int]
                    == final(self).state2block@[old(self).buffer@[old(self).refiners_start(
                    partition_id as int,
                ) + i2] as int]) <==> (signatures@[i1] == signatures@[i2])),
            // the exact assignment, clean states following the witness
            split_outcome(
                *old(self),
                *final(self),
                signatures@,
                partition_id as int,
                r@.len() as int,
            ),
    {
        broadcast use vstd::seq_lib::group_to_multiset_ensures;
        broadcast use vstd::multiset::group_multiset_axioms;

        let ghost n = self.n();
        let ghost bid = partition_id as int;
        let (start, mid, end) = self.partition[partition_id as usize];
        let s0: u32 = if start == mid {
            start
        } else {
            mid - 1
        };
        let ghost extra = s0 as int - start as int;
        let ghost sigsq = signatures@;
        let ghost rr = sigsq.len() as int;
        // copy the refiners out of the buffer
        let mut original_states: Vec<u32> = Vec::new();
        let mut ci: usize = s0 as usize;
        while ci < end as usize
            invariant
                s0 <= ci <= end,
                original_states@ == self.buffer@.subrange(s0 as int, ci as int),
            decreases end as int - ci,
        {
            proof {
                assert(self.buffer@.subrange(s0 as int, ci + 1) =~= self.buffer@.subrange(
                    s0 as int,
                    ci as int,
                ).push(self.buffer@[ci as int]));
            }
            let st = self.buffer[ci];
            original_states.push(st);
            ci = ci + 1;
        }
        let ghost os = original_states@;
        let ghost oldself = *self;
        let ghost nb0 = self.nblocks();
        let mut counts = counts_vec(signatures);
        let kk = counts.len();
        proof {
            lemma_split_prep(
                oldself,
                os,
                sigsq,
                counts@,
                n,
                bid,
                nb0,
                start as int,
                mid as int,
                end as int,
                s0 as int,
                kk as int,
            );
            broadcast use vstd::seq_lib::group_to_multiset_ensures;

            assert(sigsq.to_multiset().count(0u32) <= sigsq.to_multiset().len());
        }
        // fold the clean states the witness stands for into its group
        if start < mid {
            let c0 = counts[0];
            counts.set(0, c0 + (mid - 1 - start));
        }
        proof {
            assert forall|c: int| 0 <= c < kk implies (#[trigger] counts@[c]) == adj_count(
                sigsq,
                extra,
                c,
            ) by {
            }
        }
        let largest: u32 = index_of_max(&counts) as u32;
        let next_avail = self.partition.len() as u32;
        let mut new_partitions: Vec<u32> = Vec::new();
        let mut w: usize = s0 as usize;
        let mut c: u32 = 0;
        #[verifier::loop_isolation(true)]
        while (c as usize) < kk
            invariant
                oldself.wf_core(),
                oldself.worklist_ok_except(Some(bid)),
                oldself.buffer@.len() == n,
                oldself.position@.len() == n,
                oldself.state2block@.len() == n,
                n <= u32::MAX,
                bid == partition_id as int,
                0 <= bid < nb0,
                nb0 == oldself.nblocks(),
                nb0 == next_avail as int,
                nb0 + kk - 1 <= n,
                oldself.partition@[bid] == ((start, mid, end)),
                0 <= start as int && start <= mid <= end,
                end as int <= n,
                (start as int) < end as int,
                s0 == (if start == mid {
                    start
                } else {
                    (mid - 1) as u32
                }),
                start <= s0 <= end,
                extra == s0 as int - start as int,
                sigsq == signatures@,
                os == original_states@,
                os == oldself.buffer@.subrange(s0 as int, end as int),
                rr == sigsq.len(),
                os.len() == rr,
                rr <= u32::MAX,
                forall|i1: int, i2: int| 0 <= i1 < i2 < rr ==> os[i1] != os[i2],
                forall|ii: int| 0 <= ii < rr ==> (#[trigger] os[ii]) < n,
                forall|i: int| 0 <= i < rr ==> (#[trigger] sigsq[i] as int) < kk as int,
                forall|c3: int|
                    0 <= c3 < kk as int ==> (#[trigger] sigsq.to_multiset().count(c3 as u32))
                        > 0,
                counts@.len() == kk,
                forall|c3: int|
                    0 <= c3 < kk as int ==> (#[trigger] counts@[c3]) == adj_count(
                        sigsq,
                        extra,
                        c3,
                    ),
                sum_counts(sigsq, kk as int) == rr,
                s0 as int + rr == end as int,
                (largest as int) < kk as int,
                forall|c3: int|
                    0 <= c3 < kk as int ==> (#[trigger] counts@[c3]) <= counts@[largest as int],
                forall|c3: int|
                    (largest as int) < c3 < kk as int ==> (#[trigger] counts@[c3])
                        < counts@[largest as int],
                start < mid ==> sigsq[0] == 0,
                c as usize <= kk,
                1 <= kk <= rr,
                w as int == s0 + sum_counts(sigsq, c as int),
                w <= end,
                self.buffer@.len() == n,
                self.position@.len() == n,
                self.state2block@.len() == n,
                self.worklist@ == oldself.worklist@,
                self.partition@.len() == nb0 + (if (largest as int) < c as int {
                    c as int - 1
                } else {
                    c as int
                }),
                new_partitions@.len() == self.partition@.len() - nb0,
                forall|t: int|
                    0 <= t < new_partitions@.len() ==> (#[trigger] new_partitions@[t]) == nb0 + t,
                forall|bb: int|
                    0 <= bb < nb0 && bb != bid ==> (#[trigger] self.partition@[bb])
                        == oldself.partition@[bb],
                (largest as int) < c as int ==> self.partition@[bid] == ((
                if largest == 0 {
                    start
                } else {
                    (s0 + sum_counts(sigsq, largest as int)) as u32
                }), (s0 + sum_counts(sigsq, largest as int + 1)) as u32, (s0 + sum_counts(
                    sigsq,
                    largest as int + 1,
                )) as u32),
                (largest as int) >= c as int ==> self.partition@[bid]
                    == oldself.partition@[bid],
                forall|c2: int|
                    0 <= c2 < c as int && c2 != largest as int ==> (
                    #[trigger] self.partition@[new_block_id(c2, largest as int, bid, nb0)]) == (((
                    if c2 == 0 {
                        start
                    } else {
                        (s0 + sum_counts(sigsq, c2)) as u32
                    }), (s0 + sum_counts(sigsq, c2 + 1)) as u32, (s0 + sum_counts(
                        sigsq,
                        c2 + 1,
                    )) as u32)),
                spans(self.partition@) == n - (if (largest as int) < c as int {
                    end as int - start as int
                } else {
                    0int
                }) + (if c as int > 0 {
                    w as int - start as int
                } else {
                    0int
                }),
                forall|k: int|
                    0 <= k < n && !(s0 <= k < w) ==> (#[trigger] self.buffer@[k])
                        == oldself.buffer@[k],
                forall|k: int|
                    s0 <= k < w ==> (#[trigger] self.buffer@[k]) < n
                        && self.position@[self.buffer@[k] as int] == k && (exists|ii: int|
                        0 <= ii < rr && os[ii] == self.buffer@[k] && (sigsq[ii] as int)
                            < c as int),
                forall|ii: int|
                    0 <= ii < rr && (sigsq[ii] as int) < c as int ==> self.buffer@[(
                    #[trigger] self.position@[os[ii] as int]) as int] == os[ii],
                forall|ii: int|
                    0 <= ii < rr && (sigsq[ii] as int) < c as int ==> s0 + sum_counts(
                        sigsq,
                        sigsq[ii] as int,
                    ) <= (#[trigger] self.position@[os[ii] as int]) < s0 + sum_counts(
                        sigsq,
                        sigsq[ii] as int + 1,
                    ),
                forall|ii: int|
                    0 <= ii < rr && (sigsq[ii] as int) < c as int ==> (
                    #[trigger] self.state2block@[os[ii] as int]) == new_block_id(
                        sigsq[ii] as int,
                        largest as int,
                        bid,
                        nb0,
                    ),
                forall|ii: int|
                    0 <= ii < rr && (sigsq[ii] as int) >= c as int ==> (
                    #[trigger] self.position@[os[ii] as int]) == s0 + ii,
                forall|ii: int|
                    0 <= ii < rr && (sigsq[ii] as int) >= c as int ==> (
                    #[trigger] self.state2block@[os[ii] as int]) == partition_id,
                forall|s: int|
                    0 <= s < n && !os.contains(s as u32) ==> (#[trigger] self.position@[s])
                        == oldself.position@[s],
                forall|s: int|
                    0 <= s < n && !os.contains(s as u32) ==> (#[trigger] self.state2block@[s])
                        == oldself.state2block@[s],
            decreases kk - c as int,
        {
            let gs_exec: usize = w;
            let ghost gparts = self.partition@;
            let ghost gnewparts = new_partitions@;
            proof {
                broadcast use vstd::seq_lib::group_to_multiset_ensures;
                broadcast use vstd::multiset::group_multiset_axioms;

                lemma_sum_counts_nonneg(sigsq, c as int);
                assert(sigsq.take(0) =~= Seq::<u32>::empty());
                assert(sigsq.take(0).to_multiset().len() == 0);
                assert(sigsq.take(0).to_multiset().count(c) == 0);
            }
            let mut i: usize = 0;
            #[verifier::loop_isolation(true)]
            while i < signatures.len()
                invariant
                    oldself.buffer@.len() == n,
                    oldself.position@.len() == n,
                    oldself.state2block@.len() == n,
                    sigsq == signatures@,
                    os == original_states@,
                    rr == sigsq.len(),
                    os.len() == rr,
                    rr <= u32::MAX,
                    forall|i1: int, i2: int| 0 <= i1 < i2 < rr ==> os[i1] != os[i2],
                    forall|ii: int| 0 <= ii < rr ==> (#[trigger] os[ii]) < n,
                    bid == partition_id as int,
                    n <= u32::MAX,
                    0 <= start as int <= s0 as int <= end as int <= n,
                    (largest as int) < kk as int,
                    kk <= rr,
                    nb0 + kk - 1 <= n,
                    nb0 == next_avail as int,
                    bid < nb0,
                    sum_counts(sigsq, kk as int) == rr,
                    s0 as int + rr == end as int,
                    end as int <= n,
                    s0 as int <= gs_exec as int <= w as int,
                    i <= rr,
                    (c as usize) < kk,
                    w as int == s0 + sum_counts(sigsq, c as int) + sigsq.take(
                        i as int,
                    ).to_multiset().count(c),
                    gs_exec as int == s0 + sum_counts(sigsq, c as int),
                    w <= end,
                    self.buffer@.len() == n,
                    self.position@.len() == n,
                    self.state2block@.len() == n,
                    self.worklist@ == oldself.worklist@,
                    self.partition@ == gparts,
                    new_partitions@ == gnewparts,
                    forall|k: int|
                        0 <= k < n && !(s0 <= k < w) ==> (#[trigger] self.buffer@[k])
                            == oldself.buffer@[k],
                    forall|k: int|
                        s0 <= k < w ==> (#[trigger] self.buffer@[k]) < n
                            && self.position@[self.buffer@[k] as int] == k && (exists|ii: int|
                            0 <= ii < rr && os[ii] == self.buffer@[k] && ((sigsq[ii] as int)
                                < c as int || (sigsq[ii] == c && ii < i))),
                    forall|ii: int|
                        0 <= ii < rr && (sigsq[ii] as int) < c as int ==> self.buffer@[(
                        #[trigger] self.position@[os[ii] as int]) as int] == os[ii],
                    forall|ii: int|
                        0 <= ii < rr && (sigsq[ii] as int) < c as int ==> s0 + sum_counts(
                            sigsq,
                            sigsq[ii] as int,
                        ) <= (#[trigger] self.position@[os[ii] as int]) < s0 + sum_counts(
                            sigsq,
                            sigsq[ii] as int + 1,
                        ),
                    forall|ii: int|
                        0 <= ii < rr && (sigsq[ii] as int) < c as int ==> (
                        #[trigger] self.state2block@[os[ii] as int]) == new_block_id(
                            sigsq[ii] as int,
                            largest as int,
                            bid,
                            nb0,
                        ),
                    forall|ii: int|
                        0 <= ii < i && sigsq[ii] == c ==> self.buffer@[(
                        #[trigger] self.position@[os[ii] as int]) as int] == os[ii] && gs_exec
                            <= self.position@[os[ii] as int] < w,
                    forall|ii: int|
                        0 <= ii < i && sigsq[ii] == c ==> (
                        #[trigger] self.state2block@[os[ii] as int]) == new_block_id(
                            c as int,
                            largest as int,
                            bid,
                            nb0,
                        ),
                    forall|ii: int|
                        0 <= ii < rr && ((sigsq[ii] as int) > c as int || (sigsq[ii] == c && ii
                            >= i)) ==> (#[trigger] self.position@[os[ii] as int]) == s0 + ii,
                    forall|ii: int|
                        0 <= ii < rr && ((sigsq[ii] as int) > c as int || (sigsq[ii] == c && ii
                            >= i)) ==> (#[trigger] self.state2block@[os[ii] as int])
                            == partition_id,
                    forall|s: int|
                        0 <= s < n && !os.contains(s as u32) ==> (#[trigger] self.position@[s])
                            == oldself.position@[s],
                    forall|s: int|
                        0 <= s < n && !os.contains(s as u32) ==> (
                        #[trigger] self.state2block@[s]) == oldself.state2block@[s],
                decreases rr - i,
            {
                proof {
                    broadcast use vstd::seq_lib::group_to_multiset_ensures;
                    broadcast use vstd::multiset::group_multiset_axioms;

                    assert(sigsq.take(i + 1) =~= sigsq.take(i as int).push(sigsq[i as int]));
                }
                let ghost prevbuf = self.buffer@;
                let ghost prevpos = self.position@;
                let ghost prevs2b = self.state2block@;
                if signatures[i] == c {
                    let st = original_states[i];
                    proof {
                        assert(os.contains(os[i as int]));
                        lemma_take_count_le(sigsq, i + 1, c);
                        lemma_sum_counts_mono(sigsq, c as int + 1, kk as int);
                        assert(w < end);
                    }
                    self.buffer.set(w, st);
                    self.position.set(st as usize, w as u32);
                    if c != largest {
                        let nid = next_avail + (if c < largest {
                            c
                        } else {
                            c - 1
                        });
                        proof {
                            assert(nb0 + kk - 1 <= n);
                        }
                        self.state2block.set(st as usize, nid);
                    }
                    proof {
                        lemma_place_slots(
                            prevbuf,
                            prevpos,
                            self.buffer@,
                            self.position@,
                            oldself.buffer@,
                            os,
                            sigsq,
                            n,
                            s0 as int,
                            w as int,
                            i as int,
                            c,
                        );
                        lemma_place_refiners(
                            prevbuf,
                            prevpos,
                            prevs2b,
                            self.buffer@,
                            self.position@,
                            self.state2block@,
                            os,
                            sigsq,
                            n,
                            s0 as int,
                            gs_exec as int,
                            w as int,
                            i as int,
                            c,
                            bid,
                            nb0,
                            largest,
                        );
                        lemma_place_frame(
                            prevpos,
                            prevs2b,
                            self.position@,
                            self.state2block@,
                            oldself.position@,
                            oldself.state2block@,
                            os,
                            st,
                            w as u32,
                            (if c < largest {
                                (next_avail + c) as u32
                            } else if c > largest {
                                (next_avail + c - 1) as u32
                            } else {
                                0u32
                            }),
                            c != largest,
                            n,
                        );
                    }
                    w = w + 1;
                }
                i = i + 1;
            }
            proof {
                assert(sigsq.take(rr) =~= sigsq);
                assert forall|k: int|
                    s0 <= k < w implies (#[trigger] self.buffer@[k]) < n
                    && self.position@[self.buffer@[k] as int] == k && (exists|ii: int|
                    0 <= ii < rr && os[ii] == self.buffer@[k] && (sigsq[ii] as int)
                        < c as int + 1) by {
                    let ii = choose|ii: int|
                        0 <= ii < rr && os[ii] == self.buffer@[k] && ((sigsq[ii] as int)
                            < c as int || (sigsq[ii] == c && ii < rr));
                    assert(os[ii] == self.buffer@[k] && (sigsq[ii] as int) < c as int + 1);
                }
                assert forall|ii: int|
                    0 <= ii < rr && (sigsq[ii] as int) < c as int + 1 implies s0 + sum_counts(
                    sigsq,
                    sigsq[ii] as int,
                ) <= (#[trigger] self.position@[os[ii] as int]) < s0 + sum_counts(
                    sigsq,
                    sigsq[ii] as int + 1,
                ) by {
                    if sigsq[ii] == c {
                        assert(self.buffer@[(self.position@[os[ii] as int]) as int] == os[ii]);
                        assert(gs_exec <= self.position@[os[ii] as int] < w);
                    }
                }
                assert forall|ii: int|
                    0 <= ii < rr && (sigsq[ii] as int) < c as int + 1 implies self.buffer@[(
                #[trigger] self.position@[os[ii] as int]) as int] == os[ii] by {
                }
                assert forall|ii: int|
                    0 <= ii < rr && (sigsq[ii] as int) < c as int + 1 implies (
                #[trigger] self.state2block@[os[ii] as int]) == new_block_id(
                    sigsq[ii] as int,
                    largest as int,
                    bid,
                    nb0,
                ) by {
                }
            }
            let ns: u32 = if c == 0 {
                start
            } else {
                gs_exec as u32
            };
            let ne: u32 = w as u32;
            proof {
                lemma_sum_counts_nonneg(sigsq, c as int);
                assert(ne as int - ns as int == adj_count(sigsq, extra, c as int));
                assert(sigsq.to_multiset().count(c) > 0);
                assert(ns < ne);
            }
            if c == largest {
                let ghost oldparts = self.partition@;
                let part_ref = &mut self.partition[partition_id as usize];
                *part_ref = (ns, ne, ne);
                proof {
                    assert(self.partition@ =~= oldparts.update(bid, (ns, ne, ne)));
                    lemma_spans_update(oldparts, bid, (ns, ne, ne));
                    assert(self.partition@[bid] == ((ns, ne, ne)));
                    assert(ns == (if largest == 0 {
                        start
                    } else {
                        (s0 + sum_counts(sigsq, largest as int)) as u32
                    }));
                    assert(ne as int == s0 + sum_counts(sigsq, largest as int + 1));
                }
            } else {
                new_partitions.push(next_avail + (if c < largest {
                    c
                } else {
                    c - 1
                }));
                proof {
                    lemma_spans_push(self.partition@, (ns, ne, ne));
                }
                self.partition.push((ns, ne, ne));
                proof {
                    assert(self.partition@[new_block_id(c as int, largest as int, bid, nb0)]
                        == ((ns, ne, ne)));
                    assert(ns == (if c == 0 {
                        start
                    } else {
                        (s0 + sum_counts(sigsq, c as int)) as u32
                    }));
                    assert(ne as int == s0 + sum_counts(sigsq, c as int + 1));
                }
            }
            c = c + 1;
        }
        let r = self.finish_refine(
            partition_id,
            signatures,
            start,
            mid,
            end,
            s0,
            kk,
            largest,
            next_avail,
            new_partitions,
            Ghost(oldself),
            Ghost(os),
            Ghost(counts@),
        );
        r
    }
}

} // verus!
