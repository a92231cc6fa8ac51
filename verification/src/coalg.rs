//! The coalgebra index: the byte buffer, per-state start offsets, and the
//! block-predecessor (backref) index in compressed sparse row form.

use vstd::prelude::*;
use crate::PartError;
use crate::codec::CReader;
use crate::node::{Node, node_view, nodes_view, pairs_view, lemma_nodes_view, lemma_pairs_view};
use crate::model::{NodeV, parse_states, parse_node, parsed_node, parsed_end, states_of,
    states_refs_below, prepend_states, node_refs, children_refs, entries_refs, refs_below,
    lemma_children_refs_snoc, lemma_entries_refs_snoc, lemma_parse_states_refs_bound};

verus! {

/// Append every state reference of the tree, in order of appearance.
#[verifier::loop_isolation(false)]
fn push_refs(n: &Node, out: &mut Vec<u32>)
    ensures
        final(out)@ == old(out)@ + node_refs(node_view(*n)),
    decreases *n,
{
    match n {
        Node::State(s) => {
            out.push(*s);
            proof {
                assert(old(out)@ + node_refs(node_view(*n)) =~= old(out)@.push(*s));
            }
        },
        Node::Coll(t, g, ch) => {
            proof {
                lemma_nodes_view(ch@);
            }
            let mut i: usize = 0;
            while i < ch.len()
                invariant
                    i <= ch@.len(),
                    out@ == old(out)@ + children_refs(nodes_view(ch@).take(i as int)),
                decreases ch@.len() - i,
            {
                proof {
                    assert(decreases_to!(*n => *ch));
                    assert(decreases_to!(*ch => ch@));
                    assert(decreases_to!(ch@ => ch@[i as int]));
                    assert(decreases_to!(*n => ch@[i as int]));
                }
                push_refs(&ch[i], out);
                proof {
                    assert(nodes_view(ch@).take(i + 1) =~= nodes_view(ch@).take(i as int).push(
                        node_view(ch@[i as int]),
                    ));
                    lemma_children_refs_snoc(
                        nodes_view(ch@).take(i as int),
                        node_view(ch@[i as int]),
                    );
                    assert((old(out)@ + children_refs(nodes_view(ch@).take(i as int)))
                        + node_refs(node_view(ch@[i as int])) =~= old(out)@ + children_refs(
                        nodes_view(ch@).take(i + 1),
                    ));
                }
                i = i + 1;
            }
            proof {
                assert(nodes_view(ch@).take(ch@.len() as int) =~= nodes_view(ch@));
            }
        },
        Node::Mon(t, g, es) => {
            proof {
                lemma_pairs_view(es@);
            }
            let mut i: usize = 0;
            while i < es.len()
                invariant
                    i <= es@.len(),
                    out@ == old(out)@ + entries_refs(pairs_view(es@).take(i as int)),
                decreases es@.len() - i,
            {
                proof {
                    assert(decreases_to!(*n => *es));
                    assert(decreases_to!(*es => es@));
                    assert(decreases_to!(es@ => es@[i as int]));
                    assert(decreases_to!(*n => es@[i as int].0));
                }
                push_refs(&es[i].0, out);
                proof {
                    assert(pairs_view(es@).take(i + 1) =~= pairs_view(es@).take(i as int).push(
                        (node_view(es@[i as int].0), es@[i as int].1),
                    ));
                    lemma_entries_refs_snoc(
                        pairs_view(es@).take(i as int),
                        (node_view(es@[i as int].0), es@[i as int].1),
                    );
                    assert((old(out)@ + entries_refs(pairs_view(es@).take(i as int)))
                        + node_refs(node_view(es@[i as int].0)) =~= old(out)@ + entries_refs(
                        pairs_view(es@).take(i + 1),
                    ));
                }
                i = i + 1;
            }
            proof {
                assert(pairs_view(es@).take(es@.len() as int) =~= pairs_view(es@));
            }
        },
    }
}

/// The total length of a sequence of reference vectors.
pub open spec fn sum_lens(bs: Seq<Vec<u32>>) -> int
    decreases bs.len(),
{
    if bs.len() == 0 {
        0
    } else {
        sum_lens(bs.drop_last()) + bs.last()@.len()
    }
}

pub proof fn lemma_sum_lens_nonneg(bs: Seq<Vec<u32>>)
    ensures
        sum_lens(bs) >= 0,
    decreases bs.len(),
{
    if bs.len() > 0 {
        lemma_sum_lens_nonneg(bs.drop_last());
    }
}

pub proof fn lemma_sum_lens_take(bs: Seq<Vec<u32>>, i: int)
    requires
        0 <= i < bs.len(),
    ensures
        sum_lens(bs.take(i + 1)) == sum_lens(bs.take(i)) + bs[i]@.len(),
{
    assert(bs.take(i + 1).drop_last() =~= bs.take(i));
    assert(bs.take(i + 1).last() == bs[i]);
}

pub proof fn lemma_sum_lens_take_le(bs: Seq<Vec<u32>>, i: int)
    requires
        0 <= i <= bs.len(),
    ensures
        sum_lens(bs.take(i)) <= sum_lens(bs),
    decreases bs.len() - i,
{
    if i == bs.len() {
        assert(bs.take(i) =~= bs);
    } else {
        lemma_sum_lens_take(bs, i);
        lemma_sum_lens_take_le(bs, i + 1);
    }
}

pub proof fn lemma_sum_lens_take_mono(bs: Seq<Vec<u32>>, a: int, b: int)
    requires
        0 <= a <= b <= bs.len(),
    ensures
        sum_lens(bs.take(a)) <= sum_lens(bs.take(b)),
    decreases b - a,
{
    if a < b {
        lemma_sum_lens_take(bs, a);
        lemma_sum_lens_take_mono(bs, a + 1, b);
    }
}

pub proof fn lemma_sum_lens_update(bs: Seq<Vec<u32>>, i: int, v: Vec<u32>)
    requires
        0 <= i < bs.len(),
    ensures
        sum_lens(bs.update(i, v)) == sum_lens(bs) - bs[i]@.len() + v@.len(),
    decreases bs.len(),
{
    if i == bs.len() - 1 {
        assert(bs.update(i, v).drop_last() =~= bs.drop_last());
        assert(bs.update(i, v).last() == v);
    } else {
        assert(bs.update(i, v).drop_last() =~= bs.drop_last().update(i, v));
        assert(bs.update(i, v).last() == bs.last());
        lemma_sum_lens_update(bs.drop_last(), i, v);
    }
}

/// The states of `ts[j..]` that refer to state `i`, highest state first,
/// once per occurrence: the gather pass fills each row last state first.
pub open spec fn backref_row_from(ts: Seq<NodeV>, i: int, j: int) -> Seq<u32>
    decreases ts.len() - j,
{
    if j < 0 || j >= ts.len() {
        Seq::empty()
    } else {
        backref_row_from(ts, i, j + 1) + Seq::new(
            node_refs(ts[j]).to_multiset().count(i as u32),
            |q: int| j as u32,
        )
    }
}

/// The full backref row of state `i`: its referrers, highest first.
pub open spec fn backref_row(ts: Seq<NodeV>, i: int) -> Seq<u32> {
    backref_row_from(ts, i, 0)
}

/// The coalgebra, indexed: `locs[k]` is the byte offset of state `k`, and
/// `backrefs[backrefs_locs[i] .. backrefs_locs[i + 1]]` lists each state
/// that refers to state `i`, once per occurrence.
pub struct Coalg {
    pub data: Vec<u8>,
    pub reader: CReader,
    pub locs: Vec<u32>,
    pub backrefs: Vec<u32>,
    pub backrefs_locs: Vec<u32>,
}

impl Coalg {
    /// The parsed state table this index was built from.
    pub open spec fn sts(&self) -> Seq<(int, NodeV)> {
        parse_states(self.data@, self.reader.headers@, self.reader.values@, 0)->Some_0
    }

    /// The successor trees, one per state.
    pub open spec fn trees(&self) -> Seq<NodeV> {
        states_of(self.sts())
    }

    pub open spec fn n(&self) -> int {
        self.locs@.len() as int
    }

    /// How often state `j` refers to state `i`.
    pub open spec fn refcount(&self, i: u32, j: u32) -> nat {
        if j < self.trees().len() {
            node_refs(self.trees()[j as int]).to_multiset().count(i)
        } else {
            0
        }
    }

    /// The index is sound: the stream parses, every reference hits an
    /// existing state, `locs` lists the parse offsets, and the backref rows
    /// hold exactly the referring states, with multiplicity.
    pub open spec fn wf(&self) -> bool {
        &&& self.reader.wf()
        &&& self.data@.len() <= u32::MAX
        &&& parse_states(self.data@, self.reader.headers@, self.reader.values@, 0) is Some
        &&& self.locs@.len() == self.sts().len()
        &&& forall|k: int| 0 <= k < self.n() ==> self.locs@[k] == self.sts()[k].0
        &&& states_refs_below(self.trees(), self.n() as nat)
        &&& self.backrefs_locs@.len() == self.n() + 1
        &&& self.backrefs_locs@[0] == 0
        &&& forall|i: int|
            0 <= i < self.n() ==> #[trigger] self.backrefs_locs@[i] <= self.backrefs_locs@[i + 1]
        &&& forall|i: int|
            0 <= i <= self.n() ==> #[trigger] self.backrefs_locs@[i] <= self.backrefs@.len()
        &&& self.backrefs_locs@[self.n() as int] == self.backrefs@.len()
        &&& forall|i: int, s: u32|
            0 <= i < self.n() ==> #[trigger] self.backrefs@.subrange(
                self.backrefs_locs@[i] as int,
                self.backrefs_locs@[i + 1] as int,
            ).to_multiset().count(s) == self.refcount(i as u32, s)
        &&& forall|i: int|
            0 <= i < self.n() ==> #[trigger] self.backrefs@.subrange(
                self.backrefs_locs@[i] as int,
                self.backrefs_locs@[i + 1] as int,
            ) == backref_row(self.trees(), i)
    }

    /// Build the index: record each state's start offset, then gather, for
    /// every state, the states that refer to it.  Succeeds exactly when the
    /// buffer fits the index width, the stream parses, and every reference
    /// hits an existing state.
    #[verifier::loop_isolation(false)]
    #[verifier::rlimit(100)]
    pub fn new(data: Vec<u8>, r: CReader) -> (res: Result<Coalg, PartError>)
        requires
            r.wf(),
        ensures
            match res {
                Ok(coa) => coa.wf() && coa.data@ == data@ && coa.reader.headers@ == r.headers@
                    && coa.reader.values@ == r.values@,
                Err(_) => data@.len() > u32::MAX || parse_states(
                    data@,
                    r.headers@,
                    r.values@,
                    0,
                ) is None || !states_refs_below(
                    states_of(parse_states(data@, r.headers@, r.values@, 0)->Some_0),
                    parse_states(data@, r.headers@, r.values@, 0)->Some_0.len() as nat,
                ),
            },
    {
        let ghost d = data@;
        let ghost hd = r.headers@;
        let ghost vd = r.values@;
        if data.len() > u32::MAX as usize {
            return Err(PartError::ResourceExhaustion);
        }
        // First pass: parse each state, record its offset and references.
        let mut locs: Vec<u32> = Vec::new();
        let mut refs_per: Vec<Vec<u32>> = Vec::new();
        let mut cur: usize = 0;
        let ghost mut gproc: Seq<(int, NodeV)> = Seq::empty();
        while cur < data.len()
            invariant
                cur <= d.len(),
                parse_states(d, hd, vd, 0) == prepend_states(
                    gproc,
                    parse_states(d, hd, vd, cur as int),
                ),
                locs@.len() == gproc.len(),
                refs_per@.len() == gproc.len(),
                forall|k: int| 0 <= k < gproc.len() ==> locs@[k] == gproc[k].0,
                forall|k: int|
                    0 <= k < gproc.len() ==> (#[trigger] refs_per@[k])@ == node_refs(gproc[k].1),
                gproc.len() <= cur,
            decreases d.len() - cur,
        {
            match Node::read(&r, data.as_slice(), cur) {
                Ok((node, end)) => {
                    let mut tmp: Vec<u32> = Vec::new();
                    push_refs(&node, &mut tmp);
                    proof {
                        assert(Seq::<u32>::empty() + node_refs(node_view(node)) =~= node_refs(
                            node_view(node),
                        ));
                        let nv = node_view(node);
                        let gproc2 = gproc.push((cur as int, nv));
                        if parse_states(d, hd, vd, end as int) is Some {
                            assert(gproc + (seq![(cur as int, nv)] + parse_states(
                                d,
                                hd,
                                vd,
                                end as int,
                            )->Some_0) =~= gproc2 + parse_states(d, hd, vd, end as int)->Some_0);
                        }
                        gproc = gproc2;
                    }
                    locs.push(cur as u32);
                    refs_per.push(tmp);
                    cur = end;
                },
                Err(e) => {
                    return Err(e);
                },
            }
        }
        proof {
            assert(gproc + Seq::<(int, NodeV)>::empty() =~= gproc);
        }
        let n = locs.len();
        let ghost ts = states_of(gproc);
        proof {
            lemma_parse_states_refs_bound(d, hd, vd, 0);
            assert(ts.len() == gproc.len());
        }
        // One empty bucket per state.
        let mut buckets: Vec<Vec<u32>> = Vec::new();
        let mut i: usize = 0;
        while i < n
            invariant
                buckets@.len() == i,
                i <= n,
                sum_lens(buckets@) == 0,
                forall|k: int| 0 <= k < i ==> (#[trigger] buckets@[k])@.len() == 0,
            decreases n - i,
        {
            let fresh: Vec<u32> = Vec::new();
            proof {
                assert(buckets@.push(fresh).drop_last() =~= buckets@);
            }
            buckets.push(fresh);
            i = i + 1;
        }
        proof {
            broadcast use vstd::seq_lib::group_to_multiset_ensures;
            broadcast use vstd::multiset::group_multiset_axioms;

            assert(ts.take(n as int) =~= ts);
            assert forall|i0: int, s: u32| 0 <= i0 < n implies #[trigger] buckets@[i0]@.to_multiset().count(s)
                == 0nat by {
                assert(buckets@[i0]@ =~= Seq::<u32>::empty());
                assert(buckets@[i0]@.to_multiset().len() == 0);
            }
            assert forall|i0: int| 0 <= i0 < n implies (#[trigger] buckets@[i0]@)
                == backref_row_from(ts, i0, n as int) by {
                assert(buckets@[i0]@ =~= Seq::<u32>::empty());
            }
        }
        // Second pass, last state first: drop each reference into the
        // bucket of the state it points at.
        let mut j: usize = n;
        while j > 0
            invariant
                j <= n,
                buckets@.len() == n,
                n == ts.len(),
                n == refs_per@.len(),
                forall|k: int|
                    0 <= k < gproc.len() ==> (#[trigger] refs_per@[k])@ == node_refs(gproc[k].1),
                sum_lens(buckets@) == children_refs(ts).len() - children_refs(
                    ts.take(j as int),
                ).len(),
                forall|s: int| j <= s < n ==> refs_below(#[trigger] node_refs(ts[s]), n as nat),
                forall|i0: int, s: u32|
                    0 <= i0 < n ==> #[trigger] buckets@[i0]@.to_multiset().count(s) == (if j <= s
                        && (s as int) < n {
                        node_refs(ts[s as int]).to_multiset().count(i0 as u32)
                    } else {
                        0
                    }),
                forall|i0: int|
                    0 <= i0 < n ==> (#[trigger] buckets@[i0]@) == backref_row_from(
                        ts,
                        i0,
                        j as int,
                    ),
            decreases j,
        {
            j = j - 1;
            let ghost base = |i0: int, s: u32|
                if j + 1 <= s && (s as int) < n {
                    node_refs(ts[s as int]).to_multiset().count(i0 as u32)
                } else {
                    0nat
                };
            let m = refs_per[j].len();
            proof {
                assert(refs_per@[j as int]@ == node_refs(gproc[j as int].1));
                assert(ts[j as int] == gproc[j as int].1);
                broadcast use vstd::seq_lib::group_to_multiset_ensures;

                assert forall|i0: int| 0 <= i0 < n implies (#[trigger] buckets@[i0]@)
                    == backref_row_from(ts, i0, j as int + 1) + Seq::new(
                    refs_per@[j as int]@.take(0).to_multiset().count(i0 as u32),
                    |q: int| j as u32,
                ) by {
                    assert(refs_per@[j as int]@.take(0) =~= Seq::<u32>::empty());
                    assert(Seq::<u32>::empty().to_multiset().count(i0 as u32) == 0) by {
                        assert(Seq::<u32>::empty().to_multiset().len() == 0);
                    }
                    assert(buckets@[i0]@ =~= backref_row_from(ts, i0, j as int + 1) + Seq::new(
                        refs_per@[j as int]@.take(0).to_multiset().count(i0 as u32),
                        |q: int| j as u32,
                    ));
                }
            }
            let mut t: usize = 0;
            while t < m
                invariant
                    t <= m,
                    j < n,
                    m == refs_per@[j as int]@.len(),
                    buckets@.len() == n,
                    refs_per@[j as int]@ == node_refs(ts[j as int]),
                    forall|s: int| j + 1 <= s < n ==> refs_below(#[trigger] node_refs(ts[s]), n as nat),
                    forall|q: int| 0 <= q < t ==> (#[trigger] refs_per@[j as int]@[q]) < n,
                    sum_lens(buckets@) == children_refs(ts).len() - children_refs(
                        ts.take(j + 1),
                    ).len() + t,
                    forall|i0: int, s: u32|
                        0 <= i0 < n ==> #[trigger] buckets@[i0]@.to_multiset().count(s) == (if s
                            == j as u32 {
                            base(i0, s) + refs_per@[j as int]@.take(t as int).to_multiset().count(
                                i0 as u32,
                            )
                        } else {
                            base(i0, s)
                        }),
                    forall|i0: int|
                        0 <= i0 < n ==> (#[trigger] buckets@[i0]@) == backref_row_from(
                            ts,
                            i0,
                            j as int + 1,
                        ) + Seq::new(
                            refs_per@[j as int]@.take(t as int).to_multiset().count(i0 as u32),
                            |q: int| j as u32,
                        ),
                decreases m - t,
            {
                let rf = refs_per[j][t];
                if rf as usize >= n {
                    proof {
                        assert(node_refs(ts[j as int])[t as int] == rf);
                        assert(!refs_below(node_refs(ts[j as int]), n as nat));
                    }
                    return Err(PartError::MalformedInput);
                }
                let ghost oldbuckets = buckets@;
                let bucket = &mut buckets[rf as usize];
                bucket.push(j as u32);
                proof {
                    broadcast use vstd::seq_lib::group_to_multiset_ensures;
                    broadcast use vstd::multiset::group_multiset_axioms;

                    assert(buckets@ =~= oldbuckets.update(
                        rf as int,
                        buckets@[rf as int],
                    ));
                    assert(buckets@[rf as int]@ == oldbuckets[rf as int]@.push(j as u32));
                    lemma_sum_lens_update(oldbuckets, rf as int, buckets@[rf as int]);
                    assert(refs_per@[j as int]@.take(t + 1) =~= refs_per@[j as int]@.take(
                        t as int,
                    ).push(rf));
                    assert forall|i0: int, s: u32| 0 <= i0 < n implies #[trigger] buckets@[i0]@.to_multiset().count(
                        s,
                    ) == (if s == j as u32 {
                        base(i0, s) + refs_per@[j as int]@.take(t + 1).to_multiset().count(
                            i0 as u32,
                        )
                    } else {
                        base(i0, s)
                    }) by {
                        if i0 == rf as int {
                            assert(buckets@[i0]@.to_multiset() =~= oldbuckets[i0]@.to_multiset().insert(
                                j as u32,
                            ));
                        } else {
                            assert(buckets@[i0]@ == oldbuckets[i0]@);
                        }
                    }
                    assert forall|i0: int| 0 <= i0 < n implies (#[trigger] buckets@[i0]@)
                        == backref_row_from(ts, i0, j as int + 1) + Seq::new(
                        refs_per@[j as int]@.take(t + 1).to_multiset().count(i0 as u32),
                        |q: int| j as u32,
                    ) by {
                        assert(refs_per@[j as int]@.take(t + 1).to_multiset()
                            =~= refs_per@[j as int]@.take(t as int).to_multiset().insert(rf));
                        if i0 == rf as int {
                            assert(refs_per@[j as int]@.take(t + 1).to_multiset().count(i0 as u32)
                                == refs_per@[j as int]@.take(t as int).to_multiset().count(
                                i0 as u32,
                            ) + 1);
                            assert(buckets@[i0]@ == oldbuckets[i0]@.push(j as u32));
                            assert(buckets@[i0]@ =~= backref_row_from(ts, i0, j as int + 1)
                                + Seq::new(
                                refs_per@[j as int]@.take(t + 1).to_multiset().count(i0 as u32),
                                |q: int| j as u32,
                            ));
                        } else {
                            assert(refs_per@[j as int]@.take(t + 1).to_multiset().count(i0 as u32)
                                == refs_per@[j as int]@.take(t as int).to_multiset().count(
                                i0 as u32,
                            ));
                            assert(buckets@[i0]@ == oldbuckets[i0]@);
                            assert(buckets@[i0]@ =~= backref_row_from(ts, i0, j as int + 1)
                                + Seq::new(
                                refs_per@[j as int]@.take(t + 1).to_multiset().count(i0 as u32),
                                |q: int| j as u32,
                            ));
                        }
                    }
                }
                t = t + 1;
            }
            proof {
                broadcast use vstd::seq_lib::group_to_multiset_ensures;

                assert(refs_per@[j as int]@.take(m as int) =~= node_refs(ts[j as int]));
                assert(refs_below(node_refs(ts[j as int]), n as nat));
                assert(ts.take(j + 1) =~= ts.take(j as int).push(ts[j as int]));
                lemma_children_refs_snoc(ts.take(j as int), ts[j as int]);
                assert forall|i0: int| 0 <= i0 < n implies (#[trigger] buckets@[i0]@)
                    == backref_row_from(ts, i0, j as int) by {
                    assert(refs_per@[j as int]@.take(m as int).to_multiset().count(i0 as u32)
                        == node_refs(ts[j as int]).to_multiset().count(i0 as u32));
                    assert(buckets@[i0]@ =~= backref_row_from(ts, i0, j as int));
                }
            }
        }
        proof {
            assert(ts.take(0) =~= Seq::<NodeV>::empty());
            assert(sum_lens(buckets@) == children_refs(ts).len());
            assert(states_refs_below(ts, n as nat));
        }
        // Assemble the rows and their offsets.
        let mut backrefs: Vec<u32> = Vec::new();
        let mut bl: Vec<u32> = Vec::new();
        bl.push(0);
        let mut i: usize = 0;
        while i < n
            invariant
                i <= n,
                buckets@.len() == n,
                n == ts.len(),
                sum_lens(buckets@) == children_refs(ts).len(),
                children_refs(ts).len() <= d.len() <= u32::MAX,
                forall|i0: int, s: u32|
                    0 <= i0 < n ==> #[trigger] buckets@[i0]@.to_multiset().count(s) == (if (
                    s as int) < n {
                        node_refs(ts[s as int]).to_multiset().count(i0 as u32)
                    } else {
                        0
                    }),
                bl@.len() == i + 1,
                backrefs@.len() == sum_lens(buckets@.take(i as int)),
                forall|k: int| 0 <= k <= i ==> #[trigger] bl@[k] == sum_lens(buckets@.take(k)),
                forall|k: int|
                    0 <= k < i ==> #[trigger] backrefs@.subrange(
                        bl@[k] as int,
                        bl@[k + 1] as int,
                    ) == buckets@[k]@,
            decreases n - i,
        {
            let ghost base = backrefs@;
            let m = buckets[i].len();
            let mut t: usize = 0;
            while t < m
                invariant
                    t <= m,
                    i < n,
                    buckets@.len() == n,
                    m == buckets@[i as int]@.len(),
                    backrefs@ == base + buckets@[i as int]@.take(t as int),
                decreases m - t,
            {
                let x = buckets[i][t];
                proof {
                    assert((base + buckets@[i as int]@.take(t as int)).push(x) =~= base
                        + buckets@[i as int]@.take(t + 1));
                }
                backrefs.push(x);
                t = t + 1;
            }
            proof {
                assert(buckets@[i as int]@.take(m as int) =~= buckets@[i as int]@);
                lemma_sum_lens_take(buckets@, i as int);
                lemma_sum_lens_take_le(buckets@, i + 1);
                lemma_sum_lens_nonneg(buckets@.take(i as int));
            }
            bl.push(backrefs.len() as u32);
            proof {
                assert forall|k: int|
                    0 <= k < i + 1 implies #[trigger] backrefs@.subrange(
                    bl@[k] as int,
                    bl@[k + 1] as int,
                ) == buckets@[k]@ by {
                    lemma_sum_lens_nonneg(buckets@.take(k));
                    lemma_sum_lens_take(buckets@, k);
                    lemma_sum_lens_nonneg(buckets@.take(k + 1));
                    if k < i {
                        lemma_sum_lens_take_mono(buckets@, k + 1, i as int);
                        assert(bl@[k + 1] as int <= base.len());
                        assert(backrefs@.subrange(bl@[k] as int, bl@[k + 1] as int) =~= base
                            .subrange(bl@[k] as int, bl@[k + 1] as int));
                    } else {
                        assert(backrefs@.subrange(bl@[k] as int, bl@[k + 1] as int) =~= buckets@[k]@);
                    }
                }
            }
            i = i + 1;
        }
        proof {
            assert(buckets@.take(n as int) =~= buckets@);
        }
        let coa = Coalg { data, reader: r, locs, backrefs, backrefs_locs: bl };
        proof {
            assert(coa.sts() == gproc);
            assert(coa.trees() == ts);
            assert forall|i0: int, s: u32|
                0 <= i0 < coa.n() implies #[trigger] coa.backrefs@.subrange(
                coa.backrefs_locs@[i0] as int,
                coa.backrefs_locs@[i0 + 1] as int,
            ).to_multiset().count(s) == coa.refcount(i0 as u32, s) by {
                assert(coa.backrefs@.subrange(
                    coa.backrefs_locs@[i0] as int,
                    coa.backrefs_locs@[i0 + 1] as int,
                ) == buckets@[i0]@);
            }
            assert forall|i0: int| 0 <= i0 < coa.n() implies #[trigger] coa.backrefs@.subrange(
                coa.backrefs_locs@[i0] as int,
                coa.backrefs_locs@[i0 + 1] as int,
            ) == backref_row(coa.trees(), i0) by {
                assert(coa.backrefs@.subrange(
                    coa.backrefs_locs@[i0] as int,
                    coa.backrefs_locs@[i0 + 1] as int,
                ) == buckets@[i0]@);
                assert(buckets@[i0]@ == backref_row_from(ts, i0, 0));
            }
            assert forall|k: int| 0 <= k < coa.n() implies #[trigger] coa.backrefs_locs@[k]
                <= coa.backrefs_locs@[k + 1] by {
                lemma_sum_lens_take(buckets@, k);
            }
            assert forall|k: int| 0 <= k <= coa.n() implies #[trigger] coa.backrefs_locs@[k]
                <= coa.backrefs@.len() by {
                lemma_sum_lens_take_le(buckets@, k);
            }
        }
        Ok(coa)
    }

    /// The states that refer to `state`, highest first, once per occurrence.
    pub fn state_backrefs(&self, state: u32) -> (r: &[u32])
        requires
            self.wf(),
            (state as int) < self.n(),
        ensures
            r@ == self.backrefs@.subrange(
                self.backrefs_locs@[state as int] as int,
                self.backrefs_locs@[state as int + 1] as int,
            ),
            r@ == backref_row(self.trees(), state as int),
            forall|s: u32| #[trigger] r@.to_multiset().count(s) == self.refcount(state, s),
    {
        let nlocs = self.backrefs_locs.len();
        proof {
            assert(state as int + 1 < nlocs as int + 1);
        }
        let start = self.backrefs_locs[state as usize];
        let end = self.backrefs_locs[state as usize + 1];
        vstd::slice::slice_subrange(self.backrefs.as_slice(), start as usize, end as usize)
    }

    pub fn num_states(&self) -> (r: u32)
        requires
            self.wf(),
            self.n() <= u32::MAX,
        ensures
            r == self.n(),
    {
        self.locs.len() as u32
    }
}

} // verus!
