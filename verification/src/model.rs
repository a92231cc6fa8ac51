//! The mathematical model of the encoded coalgebra.
//!
//! A coalgebra is a sequence of trees; the byte stream concatenates their
//! encodings.  This module gives the tree datatype, the byte-level parsing
//! functions that every executable contract is stated against, and the
//! signature a tree canonicalizes to under a block assignment.

use vstd::prelude::*;
use crate::bits::{LIST_TYP, SET_TYP, ADD_TYP, MAX_TYP, OR_TYP, TAG_TYP, spec_typ, spec_tag, spec_hlen};
use crate::sighash::fx_digest;

verus! {

/// One successor tree.  `Coll` nodes are the ordered (`LIST`) and unordered
/// (`SET`) collections; `Mon` nodes carry a `u64` value per child (`ADD`,
/// `MAX`, `OR`, `TAG`).
pub enum NodeV {
    State { id: u32 },
    Coll { typ: u8, tag: u8, children: Seq<NodeV> },
    Mon { typ: u8, tag: u8, entries: Seq<(NodeV, u64)> },
}

/// Every state reference in the tree, in order of appearance.
pub open spec fn node_refs(n: NodeV) -> Seq<u32>
    decreases n,
{
    match n {
        NodeV::State { id } => seq![id],
        NodeV::Coll { children, .. } => children_refs(children),
        NodeV::Mon { entries, .. } => entries_refs(entries),
    }
}

pub open spec fn children_refs(ch: Seq<NodeV>) -> Seq<u32>
    decreases ch,
{
    if ch.len() == 0 {
        Seq::empty()
    } else {
        node_refs(ch[0]) + children_refs(ch.drop_first())
    }
}

pub open spec fn entries_refs(es: Seq<(NodeV, u64)>) -> Seq<u32>
    decreases es,
{
    if es.len() == 0 {
        Seq::empty()
    } else {
        node_refs(es[0].0) + entries_refs(es.drop_first())
    }
}

/// Every reference in the sequence lies below `bound`.
pub open spec fn refs_below(rs: Seq<u32>, bound: nat) -> bool {
    forall|i: int| 0 <= i < rs.len() ==> (#[trigger] rs[i]) < bound
}

/// Every state reference in the tree lies below `bound`.
pub open spec fn node_refs_below(n: NodeV, bound: nat) -> bool {
    refs_below(node_refs(n), bound)
}

pub proof fn lemma_refs_below_concat(x: Seq<u32>, y: Seq<u32>, bound: nat)
    ensures
        refs_below(x + y, bound) <==> (refs_below(x, bound) && refs_below(y, bound)),
{
    if refs_below(x + y, bound) {
        assert forall|i: int| 0 <= i < x.len() implies (#[trigger] x[i]) < bound by {
            assert((x + y)[i] == x[i]);
        }
        assert forall|i: int| 0 <= i < y.len() implies (#[trigger] y[i]) < bound by {
            assert((x + y)[x.len() + i] == y[i]);
        }
    }
    if refs_below(x, bound) && refs_below(y, bound) {
        assert forall|i: int| 0 <= i < (x + y).len() implies (#[trigger] (x + y)[i]) < bound by {
            if i < x.len() {
                assert((x + y)[i] == x[i]);
            } else {
                assert((x + y)[i] == y[i - x.len()]);
            }
        }
    }
}

/// If every child keeps its references below the bound, so does the list.
pub proof fn lemma_children_refs_below_intro(ch: Seq<NodeV>, bound: nat)
    requires
        forall|i: int| 0 <= i < ch.len() ==> refs_below(#[trigger] node_refs(ch[i]), bound),
    ensures
        refs_below(children_refs(ch), bound),
    decreases ch,
{
    if ch.len() > 0 {
        assert forall|i: int|
            0 <= i < ch.drop_first().len() implies refs_below(
            #[trigger] node_refs(ch.drop_first()[i]),
            bound,
        ) by {
            assert(ch.drop_first()[i] == ch[i + 1]);
        }
        lemma_children_refs_below_intro(ch.drop_first(), bound);
        lemma_refs_below_concat(node_refs(ch[0]), children_refs(ch.drop_first()), bound);
    }
}

/// A bounded child list bounds each child.
pub proof fn lemma_children_refs_below_elim(ch: Seq<NodeV>, bound: nat, i: int)
    requires
        refs_below(children_refs(ch), bound),
        0 <= i < ch.len(),
    ensures
        refs_below(node_refs(ch[i]), bound),
    decreases ch,
{
    lemma_refs_below_concat(node_refs(ch[0]), children_refs(ch.drop_first()), bound);
    if i > 0 {
        lemma_children_refs_below_elim(ch.drop_first(), bound, i - 1);
        assert(ch.drop_first()[i - 1] == ch[i]);
    }
}

/// If every entry child keeps its references below the bound, so does the
/// entry list.
pub proof fn lemma_entries_refs_below_intro(es: Seq<(NodeV, u64)>, bound: nat)
    requires
        forall|i: int| 0 <= i < es.len() ==> refs_below(#[trigger] node_refs(es[i].0), bound),
    ensures
        refs_below(entries_refs(es), bound),
    decreases es,
{
    if es.len() > 0 {
        assert forall|i: int|
            0 <= i < es.drop_first().len() implies refs_below(
            #[trigger] node_refs(es.drop_first()[i].0),
            bound,
        ) by {
            assert(es.drop_first()[i] == es[i + 1]);
        }
        lemma_entries_refs_below_intro(es.drop_first(), bound);
        lemma_refs_below_concat(node_refs(es[0].0), entries_refs(es.drop_first()), bound);
    }
}

/// A bounded entry list bounds each entry's child.
pub proof fn lemma_entries_refs_below_elim(es: Seq<(NodeV, u64)>, bound: nat, i: int)
    requires
        refs_below(entries_refs(es), bound),
        0 <= i < es.len(),
    ensures
        refs_below(node_refs(es[i].0), bound),
    decreases es,
{
    lemma_refs_below_concat(node_refs(es[0].0), entries_refs(es.drop_first()), bound);
    if i > 0 {
        lemma_entries_refs_below_elim(es.drop_first(), bound, i - 1);
        assert(es.drop_first()[i - 1] == es[i]);
    }
}

/// Two block assignments agree on every state the reference list names.
pub open spec fn ids_agree_on(rs: Seq<u32>, ids1: Seq<u64>, ids2: Seq<u64>) -> bool {
    forall|i: int| 0 <= i < rs.len() ==> ids1[(#[trigger] rs[i]) as int] == ids2[rs[i] as int]
}

pub proof fn lemma_ids_agree_concat(x: Seq<u32>, y: Seq<u32>, ids1: Seq<u64>, ids2: Seq<u64>)
    requires
        ids_agree_on(x + y, ids1, ids2),
    ensures
        ids_agree_on(x, ids1, ids2),
        ids_agree_on(y, ids1, ids2),
{
    assert forall|i: int|
        0 <= i < x.len() implies ids1[(#[trigger] x[i]) as int] == ids2[x[i] as int] by {
        assert((x + y)[i] == x[i]);
    }
    assert forall|i: int|
        0 <= i < y.len() implies ids1[(#[trigger] y[i]) as int] == ids2[y[i] as int] by {
        assert((x + y)[x.len() + i] == y[i]);
    }
}

/// A signature reads the assignment only at the tree's references: two
/// assignments that agree there give the tree one signature.
pub proof fn lemma_sig_of_agree(n: NodeV, ids1: Seq<u64>, ids2: Seq<u64>)
    requires
        ids_agree_on(node_refs(n), ids1, ids2),
    ensures
        sig_of(n, ids1) == sig_of(n, ids2),
    decreases n,
{
    match n {
        NodeV::State { id } => {
            assert(node_refs(n)[0] == id);
        },
        NodeV::Coll { typ, tag, children } => {
            lemma_child_sigs_agree(children, ids1, ids2);
        },
        NodeV::Mon { typ, tag, entries } => {
            lemma_entry_sigs_agree(entries, ids1, ids2);
        },
    }
}

pub proof fn lemma_child_sigs_agree(ch: Seq<NodeV>, ids1: Seq<u64>, ids2: Seq<u64>)
    requires
        ids_agree_on(children_refs(ch), ids1, ids2),
    ensures
        child_sigs(ch, ids1) == child_sigs(ch, ids2),
    decreases ch,
{
    if ch.len() > 0 {
        lemma_ids_agree_concat(node_refs(ch[0]), children_refs(ch.drop_first()), ids1, ids2);
        lemma_sig_of_agree(ch[0], ids1, ids2);
        lemma_child_sigs_agree(ch.drop_first(), ids1, ids2);
    }
}

pub proof fn lemma_entry_sigs_agree(es: Seq<(NodeV, u64)>, ids1: Seq<u64>, ids2: Seq<u64>)
    requires
        ids_agree_on(entries_refs(es), ids1, ids2),
    ensures
        entry_sigs(es, ids1) == entry_sigs(es, ids2),
    decreases es,
{
    if es.len() > 0 {
        lemma_ids_agree_concat(node_refs(es[0].0), entries_refs(es.drop_first()), ids1, ids2);
        lemma_sig_of_agree(es[0].0, ids1, ids2);
        lemma_entry_sigs_agree(es.drop_first(), ids1, ids2);
    }
}

/// A parsed child list has exactly `count` members.
pub proof fn lemma_parse_children_len(d: Seq<u8>, hd: Seq<u32>, vd: Seq<u64>, off: int, count: nat)
    requires
        parse_children(d, hd, vd, off, count) is Some,
    ensures
        parse_children(d, hd, vd, off, count)->Some_0.0.len() == count,
    decreases count,
{
    if count > 0 {
        let (n0, end0) = parse_node(d, hd, vd, off)->Some_0;
        lemma_parse_children_len(d, hd, vd, end0, (count - 1) as nat);
    }
}

/// A parsed entry list has exactly `count` members.
pub proof fn lemma_parse_entries_len(d: Seq<u8>, hd: Seq<u32>, vd: Seq<u64>, off: int, count: nat)
    requires
        parse_entries(d, hd, vd, off, count) is Some,
    ensures
        parse_entries(d, hd, vd, off, count)->Some_0.0.len() == count,
    decreases count,
{
    if count > 0 {
        let (n0, end0) = parse_node(d, hd, vd, off)->Some_0;
        let (v0, end1) = parse_value(d, vd, end0)->Some_0;
        lemma_parse_entries_len(d, hd, vd, end1, (count - 1) as nat);
    }
}

/// Appending one child appends its references.
pub proof fn lemma_children_refs_snoc(ch: Seq<NodeV>, n: NodeV)
    ensures
        children_refs(ch.push(n)) == children_refs(ch) + node_refs(n),
    decreases ch,
{
    if ch.len() == 0 {
        assert(ch.push(n).len() == 1);
        assert(ch.push(n)[0] == n);
        assert(ch.push(n).drop_first() =~= Seq::<NodeV>::empty());
        assert(children_refs(ch.push(n)) == node_refs(ch.push(n)[0]) + children_refs(
            ch.push(n).drop_first(),
        ));
        assert(children_refs(ch.push(n).drop_first()) == Seq::<u32>::empty());
        assert(node_refs(n) + Seq::<u32>::empty() =~= node_refs(n));
        assert(Seq::<u32>::empty() + node_refs(n) =~= node_refs(n));
    } else {
        assert(ch.push(n).drop_first() =~= ch.drop_first().push(n));
        lemma_children_refs_snoc(ch.drop_first(), n);
        assert(ch.push(n)[0] == ch[0]);
        assert(node_refs(ch[0]) + (children_refs(ch.drop_first()) + node_refs(n)) =~= (node_refs(
            ch[0],
        ) + children_refs(ch.drop_first())) + node_refs(n));
    }
    assert(children_refs(ch.push(n)) =~= children_refs(ch) + node_refs(n));
}

/// Appending one entry appends its child's references.
pub proof fn lemma_entries_refs_snoc(es: Seq<(NodeV, u64)>, e: (NodeV, u64))
    ensures
        entries_refs(es.push(e)) == entries_refs(es) + node_refs(e.0),
    decreases es,
{
    if es.len() == 0 {
        assert(es.push(e).len() == 1);
        assert(es.push(e)[0] == e);
        assert(es.push(e).drop_first() =~= Seq::<(NodeV, u64)>::empty());
        assert(entries_refs(es.push(e)) == node_refs(es.push(e)[0].0) + entries_refs(
            es.push(e).drop_first(),
        ));
        assert(entries_refs(es.push(e).drop_first()) == Seq::<u32>::empty());
        assert(node_refs(e.0) + Seq::<u32>::empty() =~= node_refs(e.0));
        assert(Seq::<u32>::empty() + node_refs(e.0) =~= node_refs(e.0));
    } else {
        assert(es.push(e).drop_first() =~= es.drop_first().push(e));
        lemma_entries_refs_snoc(es.drop_first(), e);
        assert(es.push(e)[0] == es[0]);
        assert(node_refs(es[0].0) + (entries_refs(es.drop_first()) + node_refs(e.0)) =~= (
        node_refs(es[0].0) + entries_refs(es.drop_first())) + node_refs(e.0));
    }
    assert(entries_refs(es.push(e)) =~= entries_refs(es) + node_refs(e.0));
}

/// A whole child list fixes its parsed prefixes: after `k` children the next
/// node is the list's `k`-th child.
pub proof fn lemma_parse_children_prefix(
    d: Seq<u8>,
    hd: Seq<u32>,
    vd: Seq<u64>,
    off: int,
    k: nat,
    count: nat,
)
    requires
        k < count,
        parse_children(d, hd, vd, off, count) is Some,
        parse_children(d, hd, vd, off, k) is Some,
    ensures
        parse_node(d, hd, vd, parse_children(d, hd, vd, off, k)->Some_0.1) is Some,
        parse_node(d, hd, vd, parse_children(d, hd, vd, off, k)->Some_0.1)->Some_0.0
            == parse_children(d, hd, vd, off, count)->Some_0.0[k as int],
    decreases k,
{
    let (n0, end0) = parse_node(d, hd, vd, off)->Some_0;
    let rest = parse_children(d, hd, vd, end0, (count - 1) as nat)->Some_0.0;
    lemma_parse_children_len(d, hd, vd, end0, (count - 1) as nat);
    if k == 0 {
        assert((seq![n0] + rest)[0] == n0);
    } else {
        lemma_parse_children_prefix(d, hd, vd, end0, (k - 1) as nat, (count - 1) as nat);
        assert((seq![n0] + rest)[k as int] == rest[k - 1]);
    }
}

/// A whole entry list fixes its parsed prefixes likewise.
pub proof fn lemma_parse_entries_prefix(
    d: Seq<u8>,
    hd: Seq<u32>,
    vd: Seq<u64>,
    off: int,
    k: nat,
    count: nat,
)
    requires
        k < count,
        parse_entries(d, hd, vd, off, count) is Some,
        parse_entries(d, hd, vd, off, k) is Some,
    ensures
        parse_node(d, hd, vd, parse_entries(d, hd, vd, off, k)->Some_0.1) is Some,
        parse_node(d, hd, vd, parse_entries(d, hd, vd, off, k)->Some_0.1)->Some_0.0
            == parse_entries(d, hd, vd, off, count)->Some_0.0[k as int].0,
    decreases k,
{
    let (n0, end0) = parse_node(d, hd, vd, off)->Some_0;
    let (v0, end1) = parse_value(d, vd, end0)->Some_0;
    let rest = parse_entries(d, hd, vd, end1, (count - 1) as nat)->Some_0.0;
    lemma_parse_entries_len(d, hd, vd, end1, (count - 1) as nat);
    if k == 0 {
        assert((seq![(n0, v0)] + rest)[0] == (n0, v0));
    } else {
        lemma_parse_entries_prefix(d, hd, vd, end1, (k - 1) as nat, (count - 1) as nat);
        assert((seq![(n0, v0)] + rest)[k as int] == rest[k - 1]);
    }
}

/// Little-endian 32-bit word at `off`.
pub open spec fn le32_at(d: Seq<u8>, off: int) -> u32 {
    (d[off] as u32) | ((d[off + 1] as u32) << 8) | ((d[off + 2] as u32) << 16) | ((d[off + 3]
        as u32) << 24)
}

/// Little-endian 64-bit word at `off`.
pub open spec fn le64_at(d: Seq<u8>, off: int) -> u64 {
    (d[off] as u64) | ((d[off + 1] as u64) << 8) | ((d[off + 2] as u64) << 16) | ((d[off + 3]
        as u64) << 24) | ((d[off + 4] as u64) << 32) | ((d[off + 5] as u64) << 40) | ((d[off + 6]
        as u64) << 48) | ((d[off + 7] as u64) << 56)
}

/// One node word at `off`: either a 1-byte dictionary token (low bit 0) or a
/// 4-byte inline word whose payload is the word shifted right by one.
/// Returns the payload and the next offset.
pub open spec fn parse_word(d: Seq<u8>, hd: Seq<u32>, off: int) -> Option<(u32, int)> {
    if 0 <= off < d.len() {
        let b = d[off];
        if b & 1 == 0 {
            Some((hd[(b >> 1) as int], off + 1))
        } else if off + 4 <= d.len() {
            Some((le32_at(d, off) >> 1, off + 4))
        } else {
            None
        }
    } else {
        None
    }
}

/// One value word at `off`: either a 1-byte dictionary token (low bit 0) or
/// an 8-byte inline word carrying a 63-bit literal.
pub open spec fn parse_value(d: Seq<u8>, vd: Seq<u64>, off: int) -> Option<(u64, int)> {
    if 0 <= off < d.len() {
        let b = d[off];
        if b & 1 == 0 {
            Some((vd[(b >> 1) as int], off + 1))
        } else if off + 8 <= d.len() {
            Some((le64_at(d, off) >> 1, off + 8))
        } else {
            None
        }
    } else {
        None
    }
}

pub open spec fn is_coll_typ(typ: u8) -> bool {
    typ == LIST_TYP || typ == SET_TYP
}

pub open spec fn is_mon_typ(typ: u8) -> bool {
    typ == ADD_TYP || typ == MAX_TYP || typ == OR_TYP || typ == TAG_TYP
}

/// One whole node starting at `off`: the parsed tree and the offset just
/// past it.  `None` on any malformed input: a cursor past the tail or an
/// unknown `typ` byte.
pub open spec fn parse_node(d: Seq<u8>, hd: Seq<u32>, vd: Seq<u64>, off: int) -> Option<
    (NodeV, int),
>
    decreases d.len() - off, 0int,
{
    match parse_word(d, hd, off) {
        None => None,
        Some((w, off1)) => {
            if w & 1 == 0 {
                Some((NodeV::State { id: w >> 1 }, off1))
            } else {
                let h = w >> 1;
                let typ = spec_typ(h);
                let tag = spec_tag(h);
                let len = spec_hlen(h);
                if is_coll_typ(typ) {
                    match parse_children(d, hd, vd, off1, len as nat) {
                        Some((ch, end)) => Some((NodeV::Coll { typ, tag, children: ch }, end)),
                        None => None,
                    }
                } else if is_mon_typ(typ) {
                    match parse_entries(d, hd, vd, off1, len as nat) {
                        Some((es, end)) => Some((NodeV::Mon { typ, tag, entries: es }, end)),
                        None => None,
                    }
                } else {
                    None
                }
            }
        },
    }
}

/// `count` consecutive nodes starting at `off`.
pub open spec fn parse_children(d: Seq<u8>, hd: Seq<u32>, vd: Seq<u64>, off: int, count: nat)
    -> Option<(Seq<NodeV>, int)>
    decreases d.len() - off, count,
{
    if count == 0 {
        Some((Seq::empty(), off))
    } else {
        match parse_node(d, hd, vd, off) {
            None => None,
            Some((n, end)) => {
                if off < end <= d.len() {
                    match parse_children(d, hd, vd, end, (count - 1) as nat) {
                        Some((rest, end2)) => Some((seq![n] + rest, end2)),
                        None => None,
                    }
                } else {
                    None
                }
            },
        }
    }
}

/// `count` consecutive (node, value) pairs starting at `off`.
pub open spec fn parse_entries(d: Seq<u8>, hd: Seq<u32>, vd: Seq<u64>, off: int, count: nat)
    -> Option<(Seq<(NodeV, u64)>, int)>
    decreases d.len() - off, count,
{
    if count == 0 {
        Some((Seq::empty(), off))
    } else {
        match parse_node(d, hd, vd, off) {
            None => None,
            Some((n, end)) => {
                match parse_value(d, vd, end) {
                    None => None,
                    Some((v, end2)) => {
                        if off < end2 <= d.len() {
                            match parse_entries(d, hd, vd, end2, (count - 1) as nat) {
                                Some((rest, end3)) => Some((seq![(n, v)] + rest, end3)),
                                None => None,
                            }
                        } else {
                            None
                        }
                    },
                }
            },
        }
    }
}

/// The ordering signatures are normalized by.
pub open spec fn leq64() -> spec_fn(u64, u64) -> bool {
    |x: u64, y: u64| x <= y
}

/// Drop consecutive duplicates.
pub open spec fn dedup_adj(s: Seq<u64>) -> Seq<u64>
    decreases s.len(),
{
    if s.len() <= 1 {
        s
    } else if s[0] == s[1] {
        dedup_adj(s.drop_first())
    } else {
        seq![s[0]] + dedup_adj(s.drop_first())
    }
}

/// Sort ascending and drop duplicates: the canonical form of a signature
/// multiset.
pub open spec fn canon_dedup(s: Seq<u64>) -> Seq<u64> {
    dedup_adj(s.sort_by(leq64()))
}

/// The semigroup a monoid node combines duplicate keys with: wrapping
/// addition for `ADD`, bitwise or for `OR`, maximum for `MAX`.
pub open spec fn combine(typ: u8, a: u64, b: u64) -> u64 {
    if typ == ADD_TYP {
        if a + b > u64::MAX {
            (a + b - 0x1_0000_0000_0000_0000) as u64
        } else {
            (a + b) as u64
        }
    } else if typ == OR_TYP {
        a | b
    } else {
        if a >= b {
            a
        } else {
            b
        }
    }
}

/// The keys of a pair sequence.
pub open spec fn mon_keys(ps: Seq<(u64, u64)>) -> Seq<u64> {
    ps.map_values(|p: (u64, u64)| p.0)
}

/// All values carried under key `k`, in order.
pub open spec fn vals_for(ps: Seq<(u64, u64)>, k: u64) -> Seq<u64> {
    ps.filter(|p: (u64, u64)| p.0 == k).map_values(|p: (u64, u64)| p.1)
}

/// The combining step as a function value.
pub open spec fn combine_fn(typ: u8) -> spec_fn(u64, u64) -> u64 {
    |a: u64, v: u64| combine(typ, a, v)
}

/// Every value under key `k` combined into one.  All three semigroups have 0
/// as identity.
pub open spec fn combined_val(typ: u8, ps: Seq<(u64, u64)>, k: u64) -> u64 {
    vals_for(ps, k).fold_left(0u64, combine_fn(typ))
}

/// The canonical word sequence of an `ADD`/`MAX`/`OR` node's entries: each
/// distinct key in ascending order, followed by its combined value.
pub open spec fn canon_pairs(typ: u8, ps: Seq<(u64, u64)>) -> Seq<u64> {
    let ks = canon_dedup(mon_keys(ps));
    Seq::new(
        (2 * ks.len()) as nat,
        |i: int| if i % 2 == 0 {
            ks[i / 2]
        } else {
            combined_val(typ, ps, ks[i / 2])
        },
    )
}

/// The digest a `TAG` entry contributes: its child signature and value mixed
/// into one word.
pub open spec fn pair_digest(c: u64, v: u64) -> u64 {
    fx_digest(seq![c, v])
}

/// The two words every node's digest starts with.
pub open spec fn sig_prefix(typ: u8, tag: u8) -> Seq<u64> {
    seq![typ as u64, tag as u64]
}

/// The signature of one tree under the block assignment `ids`: a `State`
/// leaf is the block representative of the referenced state; a `LIST` hashes
/// its children's signatures in order; a `SET` hashes them sorted with
/// duplicates dropped; `ADD`/`MAX`/`OR` hash each distinct child signature
/// with its values combined; `TAG` hashes the per-entry digests sorted with
/// duplicates dropped.
pub open spec fn sig_of(n: NodeV, ids: Seq<u64>) -> u64
    decreases n,
{
    match n {
        NodeV::State { id } => ids[id as int],
        NodeV::Coll { typ, tag, children } => {
            let cs = child_sigs(children, ids);
            if typ == LIST_TYP {
                fx_digest(sig_prefix(typ, tag) + cs)
            } else {
                fx_digest(sig_prefix(typ, tag) + canon_dedup(cs))
            }
        },
        NodeV::Mon { typ, tag, entries } => {
            let ps = entry_sigs(entries, ids);
            if typ == TAG_TYP {
                fx_digest(
                    sig_prefix(typ, tag) + canon_dedup(
                        ps.map_values(|p: (u64, u64)| pair_digest(p.0, p.1)),
                    ),
                )
            } else {
                fx_digest(sig_prefix(typ, tag) + canon_pairs(typ, ps))
            }
        },
    }
}

/// The signatures of a node sequence, in order.
pub open spec fn child_sigs(ch: Seq<NodeV>, ids: Seq<u64>) -> Seq<u64>
    decreases ch,
{
    if ch.len() == 0 {
        Seq::empty()
    } else {
        seq![sig_of(ch[0], ids)] + child_sigs(ch.drop_first(), ids)
    }
}

/// The (child signature, value) pairs of a monoid node's entries, in order.
pub open spec fn entry_sigs(es: Seq<(NodeV, u64)>, ids: Seq<u64>) -> Seq<(u64, u64)>
    decreases es,
{
    if es.len() == 0 {
        Seq::empty()
    } else {
        seq![(sig_of(es[0].0, ids), es[0].1)] + entry_sigs(es.drop_first(), ids)
    }
}

/// The tree a successful parse at `off` yields.
pub open spec fn parsed_node(d: Seq<u8>, hd: Seq<u32>, vd: Seq<u64>, off: int) -> NodeV {
    parse_node(d, hd, vd, off)->Some_0.0
}

/// The offset just past a successful parse at `off`.
pub open spec fn parsed_end(d: Seq<u8>, hd: Seq<u32>, vd: Seq<u64>, off: int) -> int {
    parse_node(d, hd, vd, off)->Some_0.1
}

/// The whole stream from `off` to the end, as one tree per state.
pub open spec fn parse_states(d: Seq<u8>, hd: Seq<u32>, vd: Seq<u64>, off: int) -> Option<
    Seq<(int, NodeV)>,
>
    decreases d.len() - off,
{
    if off == d.len() {
        Some(Seq::empty())
    } else {
        match parse_node(d, hd, vd, off) {
            None => None,
            Some((n, end)) => {
                if off < end <= d.len() {
                    match parse_states(d, hd, vd, end) {
                        Some(rest) => Some(seq![(off, n)] + rest),
                        None => None,
                    }
                } else {
                    None
                }
            },
        }
    }
}

/// A tree the writer can encode: known operators, lengths that fit the
/// 16-bit header field, state ids below 2^30 and values below 2^63.
pub open spec fn encodable(n: NodeV) -> bool
    decreases n,
{
    match n {
        NodeV::State { id } => id < 0x4000_0000,
        NodeV::Coll { typ, tag, children } => is_coll_typ(typ) && children.len() <= 0xFFFF
            && encodable_nodes(children),
        NodeV::Mon { typ, tag, entries } => is_mon_typ(typ) && entries.len() <= 0xFFFF
            && encodable_pairs(entries),
    }
}

pub open spec fn encodable_nodes(ch: Seq<NodeV>) -> bool
    decreases ch,
{
    ch.len() == 0 || (encodable(ch[0]) && encodable_nodes(ch.drop_first()))
}

pub open spec fn encodable_pairs(es: Seq<(NodeV, u64)>) -> bool
    decreases es,
{
    es.len() == 0 || (encodable(es[0].0) && es[0].1 < 0x8000_0000_0000_0000 && encodable_pairs(
        es.drop_first(),
    ))
}

pub proof fn lemma_encodable_nodes_index(ch: Seq<NodeV>, i: int)
    requires
        encodable_nodes(ch),
        0 <= i < ch.len(),
    ensures
        encodable(ch[i]),
    decreases ch,
{
    if i > 0 {
        lemma_encodable_nodes_index(ch.drop_first(), i - 1);
    }
}

pub proof fn lemma_encodable_pairs_index(es: Seq<(NodeV, u64)>, i: int)
    requires
        encodable_pairs(es),
        0 <= i < es.len(),
    ensures
        encodable(es[i].0),
        es[i].1 < 0x8000_0000_0000_0000,
    decreases es,
{
    if i > 0 {
        lemma_encodable_pairs_index(es.drop_first(), i - 1);
    }
}

/// If a node fails to parse after `k` children parsed, the whole child list
/// fails.
pub proof fn lemma_parse_children_fail(
    d: Seq<u8>,
    hd: Seq<u32>,
    vd: Seq<u64>,
    off: int,
    k: nat,
    count: nat,
)
    requires
        k < count,
        parse_children(d, hd, vd, off, k) is Some,
        parse_node(d, hd, vd, parse_children(d, hd, vd, off, k)->Some_0.1) is None,
    ensures
        parse_children(d, hd, vd, off, count) is None,
    decreases k,
{
    if k == 0 {
    } else {
        let (n0, end0) = parse_node(d, hd, vd, off)->Some_0;
        lemma_parse_children_fail(d, hd, vd, end0, (k - 1) as nat, (count - 1) as nat);
    }
}

/// If a node fails to parse after `k` entries parsed, the entry list fails.
pub proof fn lemma_parse_entries_fail_node(
    d: Seq<u8>,
    hd: Seq<u32>,
    vd: Seq<u64>,
    off: int,
    k: nat,
    count: nat,
)
    requires
        k < count,
        parse_entries(d, hd, vd, off, k) is Some,
        parse_node(d, hd, vd, parse_entries(d, hd, vd, off, k)->Some_0.1) is None,
    ensures
        parse_entries(d, hd, vd, off, count) is None,
    decreases k,
{
    if k == 0 {
    } else {
        let (n0, end0) = parse_node(d, hd, vd, off)->Some_0;
        let (v0, end1) = parse_value(d, vd, end0)->Some_0;
        lemma_parse_entries_fail_node(d, hd, vd, end1, (k - 1) as nat, (count - 1) as nat);
    }
}

/// If a value fails to parse after `k` entries and one more node parsed, the
/// entry list fails.
pub proof fn lemma_parse_entries_fail_value(
    d: Seq<u8>,
    hd: Seq<u32>,
    vd: Seq<u64>,
    off: int,
    k: nat,
    count: nat,
)
    requires
        k < count,
        parse_entries(d, hd, vd, off, k) is Some,
        parse_node(d, hd, vd, parse_entries(d, hd, vd, off, k)->Some_0.1) is Some,
        parse_value(
            d,
            vd,
            parse_node(d, hd, vd, parse_entries(d, hd, vd, off, k)->Some_0.1)->Some_0.1,
        ) is None,
    ensures
        parse_entries(d, hd, vd, off, count) is None,
    decreases k,
{
    if k == 0 {
    } else {
        let (n0, end0) = parse_node(d, hd, vd, off)->Some_0;
        let (v0, end1) = parse_value(d, vd, end0)->Some_0;
        lemma_parse_entries_fail_value(d, hd, vd, end1, (k - 1) as nat, (count - 1) as nat);
    }
}

/// Parsing one more node after `count` parsed ones appends it to the result.
pub proof fn lemma_parse_children_snoc(
    d: Seq<u8>,
    hd: Seq<u32>,
    vd: Seq<u64>,
    off: int,
    count: nat,
    n: NodeV,
    e2: int,
)
    requires
        parse_children(d, hd, vd, off, count) is Some,
        parse_node(d, hd, vd, parse_children(d, hd, vd, off, count)->Some_0.1) == Some((n, e2)),
        parse_children(d, hd, vd, off, count)->Some_0.1 < e2 <= d.len(),
    ensures
        parse_children(d, hd, vd, off, (count + 1) as nat) == Some(
            (parse_children(d, hd, vd, off, count)->Some_0.0.push(n), e2),
        ),
    decreases count,
{
    let (ns, e) = parse_children(d, hd, vd, off, count)->Some_0;
    if count == 0 {
        assert(e == off);
        assert(parse_children(d, hd, vd, e2, 0) == Some((Seq::<NodeV>::empty(), e2)));
        assert(seq![n] + Seq::<NodeV>::empty() =~= ns.push(n));
    } else {
        let (n0, end0) = parse_node(d, hd, vd, off)->Some_0;
        let (ns1, _e1) = parse_children(d, hd, vd, end0, (count - 1) as nat)->Some_0;
        lemma_parse_children_snoc(d, hd, vd, end0, (count - 1) as nat, n, e2);
        assert(seq![n0] + ns1.push(n) =~= (seq![n0] + ns1).push(n));
    }
}

/// Parsing one more (node, value) pair after `count` parsed ones appends it.
pub proof fn lemma_parse_entries_snoc(
    d: Seq<u8>,
    hd: Seq<u32>,
    vd: Seq<u64>,
    off: int,
    count: nat,
    n: NodeV,
    v: u64,
    e3: int,
)
    requires
        parse_entries(d, hd, vd, off, count) is Some,
        parse_node(d, hd, vd, parse_entries(d, hd, vd, off, count)->Some_0.1) is Some,
        parse_node(d, hd, vd, parse_entries(d, hd, vd, off, count)->Some_0.1)->Some_0.0 == n,
        parse_value(
            d,
            vd,
            parse_node(d, hd, vd, parse_entries(d, hd, vd, off, count)->Some_0.1)->Some_0.1,
        ) == Some((v, e3)),
        parse_entries(d, hd, vd, off, count)->Some_0.1 < e3 <= d.len(),
    ensures
        parse_entries(d, hd, vd, off, (count + 1) as nat) == Some(
            (parse_entries(d, hd, vd, off, count)->Some_0.0.push((n, v)), e3),
        ),
    decreases count,
{
    let (es, e) = parse_entries(d, hd, vd, off, count)->Some_0;
    if count == 0 {
        assert(e == off);
        assert(parse_entries(d, hd, vd, e3, 0) == Some((Seq::<(NodeV, u64)>::empty(), e3)));
        assert(seq![(n, v)] + Seq::<(NodeV, u64)>::empty() =~= es.push((n, v)));
    } else {
        let (n0, end0) = parse_node(d, hd, vd, off)->Some_0;
        let (v0, end1) = parse_value(d, vd, end0)->Some_0;
        let (es1, _e1) = parse_entries(d, hd, vd, end1, (count - 1) as nat)->Some_0;
        lemma_parse_entries_snoc(d, hd, vd, end1, (count - 1) as nat, n, v, e3);
        assert(seq![(n0, v0)] + es1.push((n, v)) =~= (seq![(n0, v0)] + es1).push((n, v)));
    }
}

/// The trees of a parsed state table.
pub open spec fn states_of(ss: Seq<(int, NodeV)>) -> Seq<NodeV> {
    ss.map_values(|p: (int, NodeV)| p.1)
}

/// Every state's references lie below `bound`.
pub open spec fn states_refs_below(ts: Seq<NodeV>, bound: nat) -> bool {
    forall|i: int| 0 <= i < ts.len() ==> refs_below(#[trigger] node_refs(ts[i]), bound)
}

/// Prefix a parsed state table onto the rest of a parse.
pub open spec fn prepend_states(ps: Seq<(int, NodeV)>, rest: Option<Seq<(int, NodeV)>>) -> Option<
    Seq<(int, NodeV)>,
> {
    match rest {
        Some(r) => Some(ps + r),
        None => None,
    }
}

/// A node's reference count is bounded by the bytes it occupies.
pub proof fn lemma_parse_node_refs_bound(d: Seq<u8>, hd: Seq<u32>, vd: Seq<u64>, off: int)
    requires
        parse_node(d, hd, vd, off) is Some,
    ensures
        node_refs(parse_node(d, hd, vd, off)->Some_0.0).len() <= parse_node(
            d,
            hd,
            vd,
            off,
        )->Some_0.1 - off,
        parse_node(d, hd, vd, off)->Some_0.1 > off,
    decreases d.len() - off, 0int,
{
    let (w, off1) = parse_word(d, hd, off)->Some_0;
    if w & 1 == 0 {
    } else {
        let typ = spec_typ(w >> 1);
        let len = spec_hlen(w >> 1);
        if is_coll_typ(typ) {
            lemma_parse_children_refs_bound(d, hd, vd, off1, len as nat);
        } else {
            lemma_parse_entries_refs_bound(d, hd, vd, off1, len as nat);
        }
    }
}

pub proof fn lemma_parse_children_refs_bound(
    d: Seq<u8>,
    hd: Seq<u32>,
    vd: Seq<u64>,
    off: int,
    count: nat,
)
    requires
        parse_children(d, hd, vd, off, count) is Some,
    ensures
        children_refs(parse_children(d, hd, vd, off, count)->Some_0.0).len() <= parse_children(
            d,
            hd,
            vd,
            off,
            count,
        )->Some_0.1 - off,
        parse_children(d, hd, vd, off, count)->Some_0.1 >= off,
    decreases d.len() - off, count,
{
    if count > 0 {
        let (n0, end0) = parse_node(d, hd, vd, off)->Some_0;
        let (rest, end2) = parse_children(d, hd, vd, end0, (count - 1) as nat)->Some_0;
        lemma_parse_node_refs_bound(d, hd, vd, off);
        lemma_parse_children_refs_bound(d, hd, vd, end0, (count - 1) as nat);
        assert((seq![n0] + rest).drop_first() =~= rest);
        assert((seq![n0] + rest)[0] == n0);
        assert(children_refs(seq![n0] + rest) == node_refs(n0) + children_refs(rest));
    }
}

pub proof fn lemma_parse_entries_refs_bound(
    d: Seq<u8>,
    hd: Seq<u32>,
    vd: Seq<u64>,
    off: int,
    count: nat,
)
    requires
        parse_entries(d, hd, vd, off, count) is Some,
    ensures
        entries_refs(parse_entries(d, hd, vd, off, count)->Some_0.0).len() <= parse_entries(
            d,
            hd,
            vd,
            off,
            count,
        )->Some_0.1 - off,
        parse_entries(d, hd, vd, off, count)->Some_0.1 >= off,
    decreases d.len() - off, count,
{
    if count > 0 {
        let (n0, end0) = parse_node(d, hd, vd, off)->Some_0;
        let (v0, end1) = parse_value(d, vd, end0)->Some_0;
        let (rest, end3) = parse_entries(d, hd, vd, end1, (count - 1) as nat)->Some_0;
        lemma_parse_node_refs_bound(d, hd, vd, off);
        lemma_parse_entries_refs_bound(d, hd, vd, end1, (count - 1) as nat);
        assert((seq![(n0, v0)] + rest).drop_first() =~= rest);
        assert((seq![(n0, v0)] + rest)[0] == (n0, v0));
        assert(entries_refs(seq![(n0, v0)] + rest) == node_refs(n0) + entries_refs(rest));
    }
}

/// The whole coalgebra's reference count and state count are bounded by its
/// size in bytes.
pub proof fn lemma_parse_states_refs_bound(d: Seq<u8>, hd: Seq<u32>, vd: Seq<u64>, off: int)
    requires
        parse_states(d, hd, vd, off) is Some,
    ensures
        children_refs(states_of(parse_states(d, hd, vd, off)->Some_0)).len() <= d.len() - off,
        parse_states(d, hd, vd, off)->Some_0.len() <= d.len() - off,
    decreases d.len() - off,
{
    let ss = parse_states(d, hd, vd, off)->Some_0;
    if off == d.len() {
        assert(states_of(ss) =~= Seq::<NodeV>::empty());
    } else {
        let (n, end) = parse_node(d, hd, vd, off)->Some_0;
        let rest = parse_states(d, hd, vd, end)->Some_0;
        lemma_parse_node_refs_bound(d, hd, vd, off);
        lemma_parse_states_refs_bound(d, hd, vd, end);
        assert(states_of(ss) =~= seq![n] + states_of(rest));
        assert((seq![n] + states_of(rest)).drop_first() =~= states_of(rest));
        assert((seq![n] + states_of(rest))[0] == n);
        assert(children_refs(seq![n] + states_of(rest)) == node_refs(n) + children_refs(
            states_of(rest),
        ));
    }
}

/// Each entry of a parsed state table parses on its own at its recorded
/// offset.
pub proof fn lemma_parse_states_index(d: Seq<u8>, hd: Seq<u32>, vd: Seq<u64>, off: int, k: int)
    requires
        parse_states(d, hd, vd, off) is Some,
        0 <= k < parse_states(d, hd, vd, off)->Some_0.len(),
    ensures
        parse_node(d, hd, vd, parse_states(d, hd, vd, off)->Some_0[k].0) == Some(
            (
                parse_states(d, hd, vd, off)->Some_0[k].1,
                if k + 1 < parse_states(d, hd, vd, off)->Some_0.len() {
                    parse_states(d, hd, vd, off)->Some_0[k + 1].0
                } else {
                    d.len() as int
                },
            ),
        ),
    decreases d.len() - off,
{
    let ss = parse_states(d, hd, vd, off)->Some_0;
    let (n, end) = parse_node(d, hd, vd, off)->Some_0;
    let rest = parse_states(d, hd, vd, end)->Some_0;
    assert(ss == seq![(off, n)] + rest);
    if k == 0 {
        assert(ss[0] == (off, n));
        if ss.len() > 1 {
            assert(ss[1] == rest[0]);
            lemma_parse_states_index(d, hd, vd, end, 0);
        }
    } else {
        lemma_parse_states_index(d, hd, vd, end, k - 1);
        assert(ss[k] == rest[k - 1]);
        if k + 1 < ss.len() {
            assert(ss[k + 1] == rest[k]);
        }
    }
}

} // verus!
