//! Laws of the canonicalizer: the signature respects each operator's
//! semantics.

use vstd::prelude::*;
use vstd::multiset::Multiset;
use vstd::seq_lib::{lemma_multiset_commutative, lemma_fold_left_permutation, commutative_foldl};
use crate::bits::{SET_TYP, ADD_TYP, TAG_TYP};
use crate::model::{NodeV, sig_of, child_sigs, entry_sigs, canon_dedup, canon_pairs, mon_keys,
    vals_for, combine, combine_fn, combined_val, pair_digest, is_mon_typ, sig_prefix};
use crate::canon::{lemma_child_sigs_index, lemma_entry_sigs_index, lemma_canon_dedup_by_set,
    lemma_multiset_eq_to_set_eq};

verus! {

/// Mapping two multiset-equal sequences gives multiset-equal images.
pub proof fn lemma_map_values_multiset<A, B>(s1: Seq<A>, s2: Seq<A>, f: spec_fn(A) -> B)
    requires
        s1.to_multiset() == s2.to_multiset(),
    ensures
        s1.map_values(f).to_multiset() == s2.map_values(f).to_multiset(),
    decreases s1.len(),
{
    broadcast use vstd::seq_lib::group_to_multiset_ensures;
    broadcast use vstd::multiset::group_multiset_axioms;

    if s1.len() == 0 {
        assert(s1.to_multiset().len() == s1.len());
        assert(s2.to_multiset().len() == s2.len());
        assert(s1.map_values(f) =~= s2.map_values(f));
    } else {
        let x = s1.last();
        let s1d = s1.drop_last();
        assert(s1 =~= s1d.push(x));
        assert(s1.to_multiset().contains(x));
        assert(s2.contains(x));
        let i = choose|i: int| 0 <= i < s2.len() && s2[i] == x;
        assert(s1d.to_multiset() =~= s1.to_multiset().remove(x));
        assert(s2.remove(i).to_multiset() =~= s2.to_multiset().remove(x));
        lemma_map_values_multiset(s1d, s2.remove(i), f);
        assert(s1.map_values(f) =~= s1d.map_values(f).push(f(x)));
        assert(s2.remove(i).map_values(f) =~= s2.map_values(f).remove(i));
        assert(s2.map_values(f)[i] == f(x));
        assert(s2.map_values(f).remove(i).to_multiset() =~= s2.map_values(f).to_multiset().remove(
            f(x),
        ));
        assert(s2.map_values(f).to_multiset().contains(f(x)));
        assert(s1.map_values(f).to_multiset() =~= s1d.map_values(f).to_multiset().insert(f(x)));
        assert(s2.map_values(f).to_multiset().remove(f(x)).insert(f(x)) =~= s2.map_values(
            f,
        ).to_multiset());
    }
}

/// Filtering two multiset-equal sequences gives multiset-equal results.
pub proof fn lemma_filter_multiset<A>(s1: Seq<A>, s2: Seq<A>, p: spec_fn(A) -> bool)
    requires
        s1.to_multiset() == s2.to_multiset(),
    ensures
        s1.filter(p).to_multiset() == s2.filter(p).to_multiset(),
    decreases s1.len(),
{
    broadcast use vstd::seq_lib::group_to_multiset_ensures;
    broadcast use vstd::multiset::group_multiset_axioms;
    broadcast use vstd::prelude::Seq::lemma_filter_push;
    broadcast use vstd::prelude::Seq::filter_distributes_over_add;

    if s1.len() == 0 {
        assert(s1.to_multiset().len() == s1.len());
        assert(s2.to_multiset().len() == s2.len());
        assert(s1.filter(p) =~= s2.filter(p));
    } else {
        let x = s1.last();
        let s1d = s1.drop_last();
        assert(s1 =~= s1d.push(x));
        assert(s1.to_multiset().contains(x));
        assert(s2.contains(x));
        let i = choose|i: int| 0 <= i < s2.len() && s2[i] == x;
        assert(s1d.to_multiset() =~= s1.to_multiset().remove(x));
        assert(s2.remove(i).to_multiset() =~= s2.to_multiset().remove(x));
        lemma_filter_multiset(s1d, s2.remove(i), p);
        // split s2 around position i
        let pre = s2.subrange(0, i);
        let mid = seq![x];
        let post = s2.subrange(i + 1, s2.len() as int);
        assert(s2 =~= (pre + mid) + post);
        assert(s2.remove(i) =~= pre + post);
        assert(s2.filter(p) == ((pre + mid) + post).filter(p));
        assert(((pre + mid) + post).filter(p) == (pre + mid).filter(p) + post.filter(p));
        assert((pre + mid).filter(p) == pre.filter(p) + mid.filter(p));
        assert(s2.remove(i).filter(p) == pre.filter(p) + post.filter(p));
        assert(mid =~= Seq::<A>::empty().push(x));
        assert(Seq::<A>::empty().push(x).filter(p) == if p(x) {
            Seq::<A>::empty().filter(p).push(x)
        } else {
            Seq::<A>::empty().filter(p)
        });
        lemma_multiset_commutative(pre.filter(p) + mid.filter(p), post.filter(p));
        lemma_multiset_commutative(pre.filter(p), mid.filter(p));
        lemma_multiset_commutative(pre.filter(p), post.filter(p));
        assert(s1.filter(p) == if p(x) {
            s1d.filter(p).push(x)
        } else {
            s1d.filter(p)
        });
        if p(x) {
            assert(mid.filter(p) =~= seq![x]);
            assert(s1.filter(p).to_multiset() =~= s1d.filter(p).to_multiset().insert(x));
            assert(seq![x].to_multiset() =~= Multiset::<A>::empty().insert(x));
            assert(s2.filter(p).to_multiset() =~= s2.remove(i).filter(p).to_multiset().insert(x));
        } else {
            assert(mid.filter(p) =~= Seq::<A>::empty());
            assert(s2.filter(p).to_multiset() =~= s2.remove(i).filter(p).to_multiset());
        }
    }
}

/// Mapping two sequences with the same members gives images with the same
/// value set.
pub proof fn lemma_map_values_set<A, B>(s1: Seq<A>, s2: Seq<A>, f: spec_fn(A) -> B)
    requires
        forall|x: A| s1.contains(x) <==> s2.contains(x),
    ensures
        s1.map_values(f).to_set() == s2.map_values(f).to_set(),
{
    broadcast use vstd::set::group_set_axioms;

    assert forall|y: B|
        s1.map_values(f).to_set().contains(y) <==> s2.map_values(f).to_set().contains(y) by {
        if s1.map_values(f).to_set().contains(y) {
            let i = choose|i: int| 0 <= i < s1.len() && s1.map_values(f)[i] == y;
            assert(s1.contains(s1[i]));
            assert(s2.contains(s1[i]));
            let j = choose|j: int| 0 <= j < s2.len() && s2[j] == s1[i];
            assert(s2.map_values(f)[j] == y);
        }
        if s2.map_values(f).to_set().contains(y) {
            let i = choose|i: int| 0 <= i < s2.len() && s2.map_values(f)[i] == y;
            assert(s2.contains(s2[i]));
            assert(s1.contains(s2[i]));
            let j = choose|j: int| 0 <= j < s1.len() && s1[j] == s2[i];
            assert(s1.map_values(f)[j] == y);
        }
    }
    assert(s1.map_values(f).to_set() =~= s2.map_values(f).to_set());
}

/// The child signature list is the signature map over the children.
pub proof fn lemma_child_sigs_as_map(ch: Seq<NodeV>, ids: Seq<u64>)
    ensures
        child_sigs(ch, ids) == ch.map_values(|c: NodeV| sig_of(c, ids)),
{
    lemma_child_sigs_index(ch, ids);
    assert(child_sigs(ch, ids) =~= ch.map_values(|c: NodeV| sig_of(c, ids)));
}

/// The entry signature list is the pair map over the entries.
pub proof fn lemma_entry_sigs_as_map(es: Seq<(NodeV, u64)>, ids: Seq<u64>)
    ensures
        entry_sigs(es, ids) == es.map_values(|e: (NodeV, u64)| (sig_of(e.0, ids), e.1)),
{
    lemma_entry_sigs_index(es, ids);
    assert(entry_sigs(es, ids) =~= es.map_values(|e: (NodeV, u64)| (sig_of(e.0, ids), e.1)));
}

/// The combining step of every monoid operator is commutative in the sense
/// fold_left needs.
pub proof fn lemma_combine_commutative(typ: u8)
    ensures
        commutative_foldl(combine_fn(typ)),
{
    assert forall|x: u64, y: u64, v: u64|
        #[trigger] combine_fn(typ)(combine_fn(typ)(v, x), y) == combine_fn(typ)(
        combine_fn(typ)(v, y),
        x,
    ) by {
        if typ == crate::bits::OR_TYP {
            assert((v | x) | y == (v | y) | x) by (bit_vector);
        }
    }
}

/// Permuting the children of a `SET` node does not change its signature.
pub proof fn lemma_set_sig_permutation(
    tag: u8,
    ch1: Seq<NodeV>,
    ch2: Seq<NodeV>,
    ids: Seq<u64>,
)
    requires
        ch1.to_multiset() == ch2.to_multiset(),
    ensures
        sig_of(NodeV::Coll { typ: SET_TYP, tag, children: ch1 }, ids) == sig_of(
            NodeV::Coll { typ: SET_TYP, tag, children: ch2 },
            ids,
        ),
{
    broadcast use vstd::seq_lib::group_to_multiset_ensures;

    let f = |c: NodeV| sig_of(c, ids);
    lemma_child_sigs_as_map(ch1, ids);
    lemma_child_sigs_as_map(ch2, ids);
    assert forall|x: NodeV| ch1.contains(x) <==> ch2.contains(x) by {
        assert(ch1.contains(x) <==> ch1.to_multiset().count(x) > 0);
        assert(ch2.contains(x) <==> ch2.to_multiset().count(x) > 0);
    }
    lemma_map_values_set(ch1, ch2, f);
    lemma_canon_dedup_by_set(child_sigs(ch1, ids), child_sigs(ch2, ids));
}

/// Duplicating one child of a `SET` node does not change its signature.
pub proof fn lemma_set_sig_duplicate(tag: u8, ch: Seq<NodeV>, i: int, ids: Seq<u64>)
    requires
        0 <= i < ch.len(),
    ensures
        sig_of(NodeV::Coll { typ: SET_TYP, tag, children: ch.push(ch[i]) }, ids) == sig_of(
            NodeV::Coll { typ: SET_TYP, tag, children: ch },
            ids,
        ),
{
    broadcast use vstd::set::group_set_axioms;

    let f = |c: NodeV| sig_of(c, ids);
    lemma_child_sigs_as_map(ch, ids);
    lemma_child_sigs_as_map(ch.push(ch[i]), ids);
    let m1 = ch.push(ch[i]).map_values(f);
    let m2 = ch.map_values(f);
    assert forall|y: u64| m1.to_set().contains(y) <==> m2.to_set().contains(y) by {
        if m1.to_set().contains(y) {
            let j = choose|j: int| 0 <= j < m1.len() && m1[j] == y;
            if j < ch.len() {
                assert(m2[j] == y);
            } else {
                assert(m1[j] == f(ch[i]));
                assert(m2[i] == y);
            }
        }
        if m2.to_set().contains(y) {
            let j = choose|j: int| 0 <= j < m2.len() && m2[j] == y;
            assert(m1[j] == y);
        }
    }
    assert(m1.to_set() =~= m2.to_set());
    lemma_canon_dedup_by_set(child_sigs(ch.push(ch[i]), ids), child_sigs(ch, ids));
}

/// Permuting the entries of a monoid node (`ADD`, `MAX`, `OR` or `TAG`)
/// does not change its signature.
pub proof fn lemma_mon_sig_permutation(
    typ: u8,
    tag: u8,
    es1: Seq<(NodeV, u64)>,
    es2: Seq<(NodeV, u64)>,
    ids: Seq<u64>,
)
    requires
        is_mon_typ(typ),
        es1.to_multiset() == es2.to_multiset(),
    ensures
        sig_of(NodeV::Mon { typ, tag, entries: es1 }, ids) == sig_of(
            NodeV::Mon { typ, tag, entries: es2 },
            ids,
        ),
{
    broadcast use vstd::seq_lib::group_to_multiset_ensures;

    let g = |e: (NodeV, u64)| (sig_of(e.0, ids), e.1);
    lemma_entry_sigs_as_map(es1, ids);
    lemma_entry_sigs_as_map(es2, ids);
    lemma_map_values_multiset(es1, es2, g);
    let ps1 = entry_sigs(es1, ids);
    let ps2 = entry_sigs(es2, ids);
    if typ == TAG_TYP {
        let pd = |p: (u64, u64)| pair_digest(p.0, p.1);
        assert forall|x: (u64, u64)| ps1.contains(x) <==> ps2.contains(x) by {
            assert(ps1.contains(x) <==> ps1.to_multiset().count(x) > 0);
            assert(ps2.contains(x) <==> ps2.to_multiset().count(x) > 0);
        }
        lemma_map_values_set(ps1, ps2, pd);
        lemma_canon_dedup_by_set(ps1.map_values(pd), ps2.map_values(pd));
    } else {
        let kf = |p: (u64, u64)| p.0;
        assert forall|x: (u64, u64)| ps1.contains(x) <==> ps2.contains(x) by {
            assert(ps1.contains(x) <==> ps1.to_multiset().count(x) > 0);
            assert(ps2.contains(x) <==> ps2.to_multiset().count(x) > 0);
        }
        lemma_map_values_set(ps1, ps2, kf);
        lemma_canon_dedup_by_set(mon_keys(ps1), mon_keys(ps2));
        assert forall|k: u64| #[trigger] combined_val(typ, ps1, k) == combined_val(
            typ,
            ps2,
            k,
        ) by {
            let pred = |p: (u64, u64)| p.0 == k;
            let fsel = |p: (u64, u64)| p.1;
            lemma_filter_multiset(ps1, ps2, pred);
            lemma_map_values_multiset(ps1.filter(pred), ps2.filter(pred), fsel);
            lemma_combine_commutative(typ);
            lemma_fold_left_permutation(
                vals_for(ps1, k),
                vals_for(ps2, k),
                combine_fn(typ),
                0u64,
            );
        }
        assert(canon_pairs(typ, ps1) =~= canon_pairs(typ, ps2));
    }
}

/// In an `ADD` node, one entry carrying the wrapping sum of two values
/// stands for the same signature as the two entries separately; in
/// particular a duplicated entry equals one entry with the doubled value.
pub proof fn lemma_add_sig_duplicate(
    tag: u8,
    es: Seq<(NodeV, u64)>,
    n: NodeV,
    v1: u64,
    v2: u64,
    ids: Seq<u64>,
)
    ensures
        sig_of(
            NodeV::Mon { typ: ADD_TYP, tag, entries: es.push((n, v1)).push((n, v2)) },
            ids,
        ) == sig_of(
            NodeV::Mon {
                typ: ADD_TYP,
                tag,
                entries: es.push((n, combine(ADD_TYP, v1, v2))),
            },
            ids,
        ),
{
    broadcast use vstd::prelude::Seq::lemma_filter_push;
    broadcast use vstd::set::group_set_axioms;

    let s = sig_of(n, ids);
    let vv = combine(ADD_TYP, v1, v2);
    let es1 = es.push((n, v1)).push((n, v2));
    let es2 = es.push((n, vv));
    let ps = entry_sigs(es, ids);
    let ps1 = entry_sigs(es1, ids);
    let ps2 = entry_sigs(es2, ids);
    lemma_entry_sigs_as_map(es, ids);
    lemma_entry_sigs_as_map(es1, ids);
    lemma_entry_sigs_as_map(es2, ids);
    assert(ps1 =~= ps.push((s, v1)).push((s, v2)));
    assert(ps2 =~= ps.push((s, vv)));
    let kf = |p: (u64, u64)| p.0;
    assert(mon_keys(ps1) =~= mon_keys(ps).push(s).push(s));
    assert(mon_keys(ps2) =~= mon_keys(ps).push(s));
    assert forall|y: u64|
        mon_keys(ps1).to_set().contains(y) <==> mon_keys(ps2).to_set().contains(y) by {
        if mon_keys(ps1).to_set().contains(y) {
            let j = choose|j: int| 0 <= j < mon_keys(ps1).len() && mon_keys(ps1)[j] == y;
            if j < mon_keys(ps).len() {
                assert(mon_keys(ps2)[j] == y);
            } else {
                assert(y == s);
                assert(mon_keys(ps2)[mon_keys(ps).len() as int] == s);
            }
        }
        if mon_keys(ps2).to_set().contains(y) {
            let j = choose|j: int| 0 <= j < mon_keys(ps2).len() && mon_keys(ps2)[j] == y;
            assert(mon_keys(ps1)[j] == y);
        }
    }
    assert(mon_keys(ps1).to_set() =~= mon_keys(ps2).to_set());
    lemma_canon_dedup_by_set(mon_keys(ps1), mon_keys(ps2));
    assert forall|k: u64| #[trigger] combined_val(ADD_TYP, ps1, k) == combined_val(
        ADD_TYP,
        ps2,
        k,
    ) by {
        let pred = |p: (u64, u64)| p.0 == k;
        let fsel = |p: (u64, u64)| p.1;
        assert(ps1.filter(pred) == if pred((s, v2)) {
            ps.push((s, v1)).filter(pred).push((s, v2))
        } else {
            ps.push((s, v1)).filter(pred)
        });
        assert(ps.push((s, v1)).filter(pred) == if pred((s, v1)) {
            ps.filter(pred).push((s, v1))
        } else {
            ps.filter(pred)
        });
        assert(ps2.filter(pred) == if pred((s, vv)) {
            ps.filter(pred).push((s, vv))
        } else {
            ps.filter(pred)
        });
        if k == s {
            let base = ps.filter(pred).map_values(fsel);
            assert(vals_for(ps1, k) =~= base.push(v1).push(v2));
            assert(vals_for(ps2, k) =~= base.push(vv));
            let f = combine_fn(ADD_TYP);
            assert(base.push(v1).push(v2).drop_last() =~= base.push(v1));
            assert(base.push(v1).drop_last() =~= base);
            assert(base.push(vv).drop_last() =~= base);
            let b = base.fold_left(0u64, f);
            assert(vals_for(ps1, k).fold_left(0u64, f) == f(f(b, v1), v2));
            assert(vals_for(ps2, k).fold_left(0u64, f) == f(b, vv));
            assert(f(f(b, v1), v2) == f(b, vv));
        } else {
            assert(vals_for(ps1, k) =~= vals_for(ps2, k));
        }
    }
    assert(canon_pairs(ADD_TYP, ps1) =~= canon_pairs(ADD_TYP, ps2));
}

} // verus!
