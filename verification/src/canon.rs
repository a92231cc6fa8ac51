//! The canonicalizer: fold one state's tree into a 64-bit signature under a
//! current block assignment.

use vstd::prelude::*;
use itertools::Itertools;
use crate::PartError;
use crate::bits::{is_state, get_state, get_header, decode_header, LIST_TYP, SET_TYP, ADD_TYP,
    MAX_TYP, OR_TYP, TAG_TYP};
use crate::codec::CReader;
use crate::coalg::Coalg;
use crate::model::{NodeV, parse_node, parse_children, parse_entries, parse_word, parse_value,
    parse_states, states_of, states_refs_below, prepend_states,
    parsed_node, parsed_end, is_coll_typ, is_mon_typ, node_refs, node_refs_below, refs_below,
    child_sigs, entry_sigs, sig_of, sig_prefix, canon_dedup, dedup_adj, mon_keys, vals_for,
    combine, combine_fn, combined_val, canon_pairs, pair_digest, leq64,
    lemma_parse_children_snoc, lemma_parse_entries_snoc, lemma_parse_children_fail,
    lemma_parse_entries_fail_node, lemma_parse_entries_fail_value, lemma_parse_children_prefix,
    lemma_parse_entries_prefix, lemma_parse_children_len, lemma_parse_entries_len,
    lemma_children_refs_below_intro, lemma_children_refs_below_elim,
    lemma_entries_refs_below_intro, lemma_entries_refs_below_elim};
use crate::sighash::{digest_words, fx_digest};
use crate::sort::sort_u64;

verus! {

/// Relies on `itertools::Itertools::dedup`: it drops consecutive equal
/// values and keeps everything else in order.
#[verifier::external_body]
pub(crate) fn dedup_u64(v: Vec<u64>) -> (r: Vec<u64>)
    ensures
        r@ == dedup_adj(v@),
{
    v.into_iter().dedup().collect()
}

pub proof fn lemma_child_sigs_index(ch: Seq<NodeV>, ids: Seq<u64>)
    ensures
        child_sigs(ch, ids).len() == ch.len(),
        forall|i: int| 0 <= i < ch.len() ==> child_sigs(ch, ids)[i] == sig_of(ch[i], ids),
    decreases ch,
{
    if ch.len() > 0 {
        lemma_child_sigs_index(ch.drop_first(), ids);
    }
}

pub proof fn lemma_entry_sigs_index(es: Seq<(NodeV, u64)>, ids: Seq<u64>)
    ensures
        entry_sigs(es, ids).len() == es.len(),
        forall|i: int|
            0 <= i < es.len() ==> entry_sigs(es, ids)[i] == (sig_of(es[i].0, ids), es[i].1),
    decreases es,
{
    if es.len() > 0 {
        lemma_entry_sigs_index(es.drop_first(), ids);
    }
}

/// The semigroup step of a monoid node.
fn combine_op(typ: u8, a: u64, b: u64) -> (r: u64)
    ensures
        r == combine(typ, a, b),
{
    if typ == ADD_TYP {
        a.wrapping_add(b)
    } else if typ == OR_TYP {
        a | b
    } else {
        if a >= b {
            a
        } else {
            b
        }
    }
}

/// Folding one more element from the left.
proof fn lemma_fold_push(vs: Seq<u64>, x: u64, f: spec_fn(u64, u64) -> u64)
    ensures
        vs.push(x).fold_left(0u64, f) == f(vs.fold_left(0u64, f), x),
{
    assert(vs.push(x).drop_last() =~= vs);
}

/// Combine every value the pairs carry under key `k`, in order.
#[verifier::loop_isolation(false)]
fn combined_for_key(typ: u8, pairs: &Vec<(u64, u64)>, k: u64) -> (r: u64)
    ensures
        r == combined_val(typ, pairs@, k),
{
    broadcast use vstd::prelude::Seq::lemma_filter_push;

    let mut acc: u64 = 0;
    let mut j: usize = 0;
    while j < pairs.len()
        invariant
            j <= pairs@.len(),
            acc == vals_for(pairs@.take(j as int), k).fold_left(0u64, combine_fn(typ)),
        decreases pairs@.len() - j,
    {
        let ghost pred = |p: (u64, u64)| p.0 == k;
        let ghost fsel = |p: (u64, u64)| p.1;
        let ghost prev_pairs = pairs@.take(j as int);
        let ghost cur = pairs@[j as int];
        proof {
            assert(pairs@.take(j + 1) =~= prev_pairs.push(cur));
            assert(prev_pairs.push(cur).filter(pred) == (if pred(cur) {
                prev_pairs.filter(pred).push(cur)
            } else {
                prev_pairs.filter(pred)
            }));
            if cur.0 == k {
                assert(prev_pairs.filter(pred).push(cur).map_values(fsel) =~= prev_pairs.filter(
                    pred,
                ).map_values(fsel).push(cur.1));
                assert(vals_for(pairs@.take(j + 1), k) == vals_for(prev_pairs, k).push(cur.1));
                lemma_fold_push(vals_for(prev_pairs, k), cur.1, combine_fn(typ));
                assert(combine_fn(typ)(acc, cur.1) == combine(typ, acc, cur.1));
            } else {
                assert(vals_for(pairs@.take(j + 1), k) == vals_for(prev_pairs, k));
            }
        }
        if pairs[j].0 == k {
            acc = combine_op(typ, acc, pairs[j].1);
        }
        j = j + 1;
    }
    proof {
        assert(pairs@.take(pairs@.len() as int) =~= pairs@);
    }
    acc
}

/// Fold the node at `off` into its signature under `ids`.  Succeeds exactly
/// when the node parses and every state reference lies below `ids.len()`;
/// the signature is then the specification-level one.
#[verifier::loop_isolation(false)]
#[verifier::rlimit(100)]
pub fn canonicalize(data: &[u8], r: &CReader, ids: &[u64], off: usize) -> (res: Result<
    (u64, usize),
    PartError,
>)
    requires
        r.wf(),
    ensures
        match res {
            Ok((sig, end)) => {
                &&& parse_node(data@, r.headers@, r.values@, off as int) is Some
                &&& end as int == parsed_end(data@, r.headers@, r.values@, off as int)
                &&& off < end <= data@.len()
                &&& node_refs_below(
                    parsed_node(data@, r.headers@, r.values@, off as int),
                    ids@.len() as nat,
                )
                &&& sig == sig_of(parsed_node(data@, r.headers@, r.values@, off as int), ids@)
            },
            Err(_) => parse_node(data@, r.headers@, r.values@, off as int) is None
                || !node_refs_below(
                parsed_node(data@, r.headers@, r.values@, off as int),
                ids@.len() as nat,
            ),
        },
    decreases data@.len() - off,
{
    let ghost d = data@;
    let ghost hd = r.headers@;
    let ghost vd = r.values@;
    let ghost bound = ids@.len() as nat;
    let (word, off1) = match r.read_node(data, off) {
        Ok(p) => p,
        Err(e) => {
            return Err(e);
        },
    };
    if is_state(word) {
        let id = get_state(word);
        if (id as usize) < ids.len() {
            Ok((ids[id as usize], off1))
        } else {
            proof {
                assert(node_refs(NodeV::State { id })[0] == id);
            }
            Err(PartError::MalformedInput)
        }
    } else {
        let h = get_header(word);
        let (typ, tag, len) = decode_header(h);
        if typ == LIST_TYP || typ == SET_TYP {
            let mut sigs: Vec<u64> = Vec::new();
            let mut cur = off1;
            let mut k: u16 = 0;
            while k < len
                invariant
                    k <= len,
                    off < cur <= d.len(),
                    parse_children(d, hd, vd, off1 as int, k as nat) is Some,
                    parse_children(d, hd, vd, off1 as int, k as nat)->Some_0.1 == cur as int,
                    sigs@ == child_sigs(
                        parse_children(d, hd, vd, off1 as int, k as nat)->Some_0.0,
                        ids@,
                    ),
                    forall|i: int|
                        0 <= i < parse_children(d, hd, vd, off1 as int, k as nat)->Some_0.0.len()
                            ==> refs_below(
                            #[trigger] node_refs(
                                parse_children(d, hd, vd, off1 as int, k as nat)->Some_0.0[i],
                            ),
                            bound,
                        ),
                decreases len - k,
            {
                let ghost kids = parse_children(d, hd, vd, off1 as int, k as nat)->Some_0.0;
                match canonicalize(data, r, ids, cur) {
                    Ok((csig, cend)) => {
                        proof {
                            lemma_parse_children_len(d, hd, vd, off1 as int, k as nat);
                            lemma_parse_children_snoc(
                                d,
                                hd,
                                vd,
                                off1 as int,
                                k as nat,
                                parsed_node(d, hd, vd, cur as int),
                                cend as int,
                            );
                            lemma_child_sigs_index(kids, ids@);
                            lemma_child_sigs_index(
                                kids.push(parsed_node(d, hd, vd, cur as int)),
                                ids@,
                            );
                            assert(child_sigs(
                                kids.push(parsed_node(d, hd, vd, cur as int)),
                                ids@,
                            ) =~= sigs@.push(csig));
                        }
                        sigs.push(csig);
                        cur = cend;
                    },
                    Err(e) => {
                        proof {
                            if parse_node(d, hd, vd, cur as int) is None {
                                lemma_parse_children_fail(
                                    d,
                                    hd,
                                    vd,
                                    off1 as int,
                                    k as nat,
                                    len as nat,
                                );
                            } else if parse_node(d, hd, vd, off as int) is Some {
                                lemma_parse_children_prefix(
                                    d,
                                    hd,
                                    vd,
                                    off1 as int,
                                    k as nat,
                                    len as nat,
                                );
                                let whole = parsed_node(d, hd, vd, off as int);
                                lemma_parse_children_len(d, hd, vd, off1 as int, len as nat);
                                if node_refs_below(whole, bound) {
                                    lemma_children_refs_below_elim(
                                        whole->Coll_children,
                                        bound,
                                        k as int,
                                    );
                                }
                            }
                        }
                        return Err(e);
                    },
                }
                k = k + 1;
            }
            let ghost kids = parse_children(d, hd, vd, off1 as int, len as nat)->Some_0.0;
            proof {
                lemma_parse_children_len(d, hd, vd, off1 as int, len as nat);
                lemma_children_refs_below_intro(kids, bound);
            }
            let mut words: Vec<u64> = Vec::new();
            words.push(typ as u64);
            words.push(tag as u64);
            if typ == LIST_TYP {
                let mut t: usize = 0;
                while t < sigs.len()
                    invariant
                        t <= sigs@.len(),
                        words@ == sig_prefix(typ, tag) + sigs@.take(t as int),
                    decreases sigs@.len() - t,
                {
                    proof {
                        assert((sig_prefix(typ, tag) + sigs@.take(t as int)).push(
                            sigs@[t as int],
                        ) =~= sig_prefix(typ, tag) + sigs@.take(t + 1));
                    }
                    let x = sigs[t];
                    words.push(x);
                    t = t + 1;
                }
                proof {
                    assert(sigs@.take(sigs@.len() as int) =~= sigs@);
                    assert(words@ == sig_prefix(typ, tag) + child_sigs(kids, ids@));
                }
                let sig = digest_words(words.as_slice());
                Ok((sig, cur))
            } else {
                sort_u64(&mut sigs);
                let mut dd = dedup_u64(sigs);
                proof {
                    assert(dd@ == canon_dedup(child_sigs(kids, ids@)));
                }
                words.append(&mut dd);
                proof {
                    assert(words@ =~= sig_prefix(typ, tag) + canon_dedup(child_sigs(kids, ids@)));
                }
                let sig = digest_words(words.as_slice());
                Ok((sig, cur))
            }
        } else if typ == ADD_TYP || typ == MAX_TYP || typ == OR_TYP || typ == TAG_TYP {
            let mut pairs: Vec<(u64, u64)> = Vec::new();
            let mut cur = off1;
            let mut k: u16 = 0;
            while k < len
                invariant
                    k <= len,
                    off < cur <= d.len(),
                    parse_entries(d, hd, vd, off1 as int, k as nat) is Some,
                    parse_entries(d, hd, vd, off1 as int, k as nat)->Some_0.1 == cur as int,
                    pairs@ == entry_sigs(
                        parse_entries(d, hd, vd, off1 as int, k as nat)->Some_0.0,
                        ids@,
                    ),
                    forall|i: int|
                        0 <= i < parse_entries(d, hd, vd, off1 as int, k as nat)->Some_0.0.len()
                            ==> refs_below(
                            #[trigger] node_refs(
                                parse_entries(d, hd, vd, off1 as int, k as nat)->Some_0.0[i].0,
                            ),
                            bound,
                        ),
                decreases len - k,
            {
                let ghost ents = parse_entries(d, hd, vd, off1 as int, k as nat)->Some_0.0;
                let (csig, mid) = match canonicalize(data, r, ids, cur) {
                    Ok(p) => p,
                    Err(e) => {
                        proof {
                            if parse_node(d, hd, vd, cur as int) is None {
                                lemma_parse_entries_fail_node(
                                    d,
                                    hd,
                                    vd,
                                    off1 as int,
                                    k as nat,
                                    len as nat,
                                );
                            } else if parse_node(d, hd, vd, off as int) is Some {
                                lemma_parse_entries_prefix(
                                    d,
                                    hd,
                                    vd,
                                    off1 as int,
                                    k as nat,
                                    len as nat,
                                );
                                let whole = parsed_node(d, hd, vd, off as int);
                                lemma_parse_entries_len(d, hd, vd, off1 as int, len as nat);
                                if node_refs_below(whole, bound) {
                                    lemma_entries_refs_below_elim(
                                        whole->Mon_entries,
                                        bound,
                                        k as int,
                                    );
                                }
                            }
                        }
                        return Err(e);
                    },
                };
                let (val, vend) = match r.read_value(data, mid) {
                    Ok(p) => p,
                    Err(e) => {
                        proof {
                            lemma_parse_entries_fail_value(
                                d,
                                hd,
                                vd,
                                off1 as int,
                                k as nat,
                                len as nat,
                            );
                        }
                        return Err(e);
                    },
                };
                proof {
                    lemma_parse_entries_len(d, hd, vd, off1 as int, k as nat);
                    lemma_parse_entries_snoc(
                        d,
                        hd,
                        vd,
                        off1 as int,
                        k as nat,
                        parsed_node(d, hd, vd, cur as int),
                        val,
                        vend as int,
                    );
                    lemma_entry_sigs_index(ents, ids@);
                    lemma_entry_sigs_index(
                        ents.push((parsed_node(d, hd, vd, cur as int), val)),
                        ids@,
                    );
                    assert(entry_sigs(
                        ents.push((parsed_node(d, hd, vd, cur as int), val)),
                        ids@,
                    ) =~= pairs@.push((csig, val)));
                }
                pairs.push((csig, val));
                cur = vend;
                k = k + 1;
            }
            let ghost ents = parse_entries(d, hd, vd, off1 as int, len as nat)->Some_0.0;
            let ghost ps = entry_sigs(ents, ids@);
            proof {
                lemma_parse_entries_len(d, hd, vd, off1 as int, len as nat);
                lemma_entries_refs_below_intro(ents, bound);
            }
            let mut words: Vec<u64> = Vec::new();
            words.push(typ as u64);
            words.push(tag as u64);
            if typ == TAG_TYP {
                let ghost pd = |p: (u64, u64)| pair_digest(p.0, p.1);
                let mut phs: Vec<u64> = Vec::new();
                let mut t: usize = 0;
                while t < pairs.len()
                    invariant
                        t <= pairs@.len(),
                        phs@ == pairs@.take(t as int).map_values(pd),
                    decreases pairs@.len() - t,
                {
                    let mut pw: Vec<u64> = Vec::new();
                    pw.push(pairs[t].0);
                    pw.push(pairs[t].1);
                    proof {
                        assert(pw@ =~= seq![pairs@[t as int].0, pairs@[t as int].1]);
                    }
                    let ph = digest_words(pw.as_slice());
                    proof {
                        assert(ph == pd(pairs@[t as int]));
                        assert(pairs@.take(t + 1) =~= pairs@.take(t as int).push(
                            pairs@[t as int],
                        ));
                        assert(pairs@.take(t + 1).map_values(pd) =~= pairs@.take(
                            t as int,
                        ).map_values(pd).push(pd(pairs@[t as int])));
                    }
                    phs.push(ph);
                    t = t + 1;
                }
                proof {
                    assert(pairs@.take(pairs@.len() as int) =~= pairs@);
                    assert(phs@ == ps.map_values(|p: (u64, u64)| pair_digest(p.0, p.1)));
                }
                sort_u64(&mut phs);
                let mut dd = dedup_u64(phs);
                words.append(&mut dd);
                proof {
                    assert(words@ =~= sig_prefix(typ, tag) + canon_dedup(
                        ps.map_values(|p: (u64, u64)| pair_digest(p.0, p.1)),
                    ));
                }
                let sig = digest_words(words.as_slice());
                Ok((sig, cur))
            } else {
                let mut keys: Vec<u64> = Vec::new();
                let mut t: usize = 0;
                while t < pairs.len()
                    invariant
                        t <= pairs@.len(),
                        keys@ == mon_keys(pairs@.take(t as int)),
                    decreases pairs@.len() - t,
                {
                    let ghost kf = |p: (u64, u64)| p.0;
                    proof {
                        assert(pairs@.take(t + 1) =~= pairs@.take(t as int).push(
                            pairs@[t as int],
                        ));
                        assert(pairs@.take(t + 1).map_values(kf) =~= pairs@.take(
                            t as int,
                        ).map_values(kf).push(pairs@[t as int].0));
                    }
                    let x = pairs[t].0;
                    keys.push(x);
                    t = t + 1;
                }
                proof {
                    assert(pairs@.take(pairs@.len() as int) =~= pairs@);
                    assert(keys@ == mon_keys(ps));
                }
                sort_u64(&mut keys);
                let ks = dedup_u64(keys);
                proof {
                    assert(ks@ == canon_dedup(mon_keys(ps)));
                }
                let mut t: usize = 0;
                while t < ks.len()
                    invariant
                        t <= ks@.len(),
                        words@ == sig_prefix(typ, tag) + canon_pairs(typ, ps).take(2 * t),
                    decreases ks@.len() - t,
                {
                    let kk = ks[t];
                    let cv = combined_for_key(typ, &pairs, kk);
                    proof {
                        assert(canon_pairs(typ, ps).len() == 2 * ks@.len());
                        assert(canon_pairs(typ, ps)[2 * t] == ks@[t as int]);
                        assert(canon_pairs(typ, ps)[2 * t + 1] == combined_val(typ, ps, ks@[t as int]));
                        assert((sig_prefix(typ, tag) + canon_pairs(typ, ps).take(2 * t)).push(
                            ks@[t as int],
                        ).push(combined_val(typ, ps, ks@[t as int])) =~= sig_prefix(typ, tag)
                            + canon_pairs(typ, ps).take(2 * (t + 1)));
                    }
                    words.push(kk);
                    words.push(cv);
                    t = t + 1;
                }
                proof {
                    assert(canon_pairs(typ, ps).take(2 * ks@.len() as int) =~= canon_pairs(typ, ps));
                    assert(words@ == sig_prefix(typ, tag) + canon_pairs(typ, ps));
                }
                let sig = digest_words(words.as_slice());
                Ok((sig, cur))
            }
        } else {
            Err(PartError::MalformedInput)
        }
    }
}


/// Deduplicating a sorted sequence keeps it sorted, removes every duplicate
/// and keeps the set of values.
pub proof fn lemma_dedup_adj_sorted(s: Seq<u64>)
    requires
        vstd::relations::sorted_by(s, leq64()),
    ensures
        vstd::relations::sorted_by(dedup_adj(s), leq64()),
        dedup_adj(s).no_duplicates(),
        dedup_adj(s).to_set() == s.to_set(),
    decreases s.len(),
{
    broadcast use vstd::set::group_set_axioms;

    if s.len() <= 1 {
        assert(dedup_adj(s) == s);
    } else {
        let rest = s.drop_first();
        assert forall|i: int, j: int|
            0 <= i <= j < rest.len() implies leq64()(rest[i], rest[j]) by {
            assert(rest[i] == s[i + 1] && rest[j] == s[j + 1]);
        }
        lemma_dedup_adj_sorted(rest);
        assert forall|x: u64| s.to_set().contains(x) <==> (x == s[0] || rest.to_set().contains(
            x,
        )) by {
            if s.to_set().contains(x) {
                let i = choose|i: int| 0 <= i < s.len() && s[i] == x;
                if i > 0 {
                    assert(rest[i - 1] == x);
                }
            }
            if rest.to_set().contains(x) {
                let i = choose|i: int| 0 <= i < rest.len() && rest[i] == x;
                assert(s[i + 1] == x);
            }
        }
        if s[0] == s[1] {
            assert(rest.to_set().contains(s[0])) by {
                assert(rest[0] == s[0]);
            }
            assert(dedup_adj(s) == dedup_adj(rest));
            assert(dedup_adj(s).to_set() =~= s.to_set());
        } else {
            let dd = dedup_adj(rest);
            assert(dedup_adj(s) == seq![s[0]] + dd);
            assert forall|x: u64| dd.to_set().contains(x) implies s[0] < x by {
                assert(rest.to_set().contains(x));
                let i = choose|i: int| 0 <= i < rest.len() && rest[i] == x;
                assert(leq64()(rest[0], rest[i]));
                assert(leq64()(s[0], s[1]));
                assert(s[1] == rest[0]);
            }
            assert forall|i: int, j: int|
                0 <= i <= j < (seq![s[0]] + dd).len() implies leq64()(
                (seq![s[0]] + dd)[i],
                (seq![s[0]] + dd)[j],
            ) by {
                if i == 0 && j > 0 {
                    assert((seq![s[0]] + dd)[j] == dd[j - 1]);
                    assert(dd.to_set().contains(dd[j - 1]));
                } else if i > 0 {
                    assert((seq![s[0]] + dd)[i] == dd[i - 1] && (seq![s[0]] + dd)[j] == dd[j
                        - 1]);
                }
            }
            assert forall|i: int, j: int|
                0 <= i < j < (seq![s[0]] + dd).len() implies (seq![s[0]] + dd)[i] != (seq![s[0]]
                + dd)[j] by {
                if i == 0 {
                    assert((seq![s[0]] + dd)[j] == dd[j - 1]);
                    assert(dd.to_set().contains(dd[j - 1]));
                } else {
                    assert((seq![s[0]] + dd)[i] == dd[i - 1] && (seq![s[0]] + dd)[j] == dd[j
                        - 1]);
                }
            }
            assert forall|x: u64|
                (seq![s[0]] + dd).to_set().contains(x) <==> s.to_set().contains(x) by {
                if (seq![s[0]] + dd).to_set().contains(x) {
                    let i = choose|i: int|
                        0 <= i < (seq![s[0]] + dd).len() && (seq![s[0]] + dd)[i] == x;
                    if i > 0 {
                        assert(dd[i - 1] == x);
                        assert(dd.to_set().contains(x));
                    }
                }
                if s.to_set().contains(x) {
                    if x == s[0] {
                        assert((seq![s[0]] + dd)[0] == x);
                    } else {
                        assert(rest.to_set().contains(x));
                        assert(dd.to_set().contains(x));
                        let i = choose|i: int| 0 <= i < dd.len() && dd[i] == x;
                        assert((seq![s[0]] + dd)[i + 1] == x);
                    }
                }
            }
            assert(dedup_adj(s).to_set() =~= s.to_set());
        }
    }
}

/// Two sorted duplicate-free sequences over the same set are equal.
pub proof fn lemma_sorted_nodup_set_unique(t1: Seq<u64>, t2: Seq<u64>)
    requires
        vstd::relations::sorted_by(t1, leq64()),
        vstd::relations::sorted_by(t2, leq64()),
        t1.no_duplicates(),
        t2.no_duplicates(),
        t1.to_set() == t2.to_set(),
    ensures
        t1 == t2,
{
    broadcast use vstd::seq_lib::group_to_multiset_ensures;
    broadcast use vstd::multiset::group_multiset_axioms;

    t1.lemma_multiset_has_no_duplicates();
    t2.lemma_multiset_has_no_duplicates();
    assert forall|x: u64| #[trigger] t1.to_multiset().count(x) == t2.to_multiset().count(x) by {
        assert(t1.to_multiset().contains(x) <==> t1.contains(x));
        assert(t2.to_multiset().contains(x) <==> t2.contains(x));
        assert(t1.contains(x) <==> t1.to_set().contains(x));
        assert(t2.contains(x) <==> t2.to_set().contains(x));
    }
    assert(t1.to_multiset() =~= t2.to_multiset());
    crate::sort::lemma_leq64_total_ordering();
    vstd::seq_lib::lemma_sorted_unique(t1, t2, leq64());
    assert(t1 =~= t2);
}

/// A multiset-equal pair of sequences has equal value sets.
pub proof fn lemma_multiset_eq_to_set_eq(s1: Seq<u64>, s2: Seq<u64>)
    requires
        s1.to_multiset() == s2.to_multiset(),
    ensures
        s1.to_set() == s2.to_set(),
{
    broadcast use vstd::seq_lib::group_to_multiset_ensures;
    broadcast use vstd::multiset::group_multiset_axioms;
    broadcast use vstd::set::group_set_axioms;

    assert forall|x: u64| s1.to_set().contains(x) <==> s2.to_set().contains(x) by {
        assert(s1.contains(x) <==> s1.to_multiset().contains(x));
        assert(s2.contains(x) <==> s2.to_multiset().contains(x));
    }
    assert(s1.to_set() =~= s2.to_set());
}

/// The canonical sorted duplicate-free form depends only on the value set.
pub proof fn lemma_canon_dedup_by_set(s1: Seq<u64>, s2: Seq<u64>)
    requires
        s1.to_set() == s2.to_set(),
    ensures
        canon_dedup(s1) == canon_dedup(s2),
{
    crate::sort::lemma_leq64_total_ordering();
    s1.lemma_sort_by_ensures(leq64());
    s2.lemma_sort_by_ensures(leq64());
    lemma_multiset_eq_to_set_eq(s1.sort_by(leq64()), s1);
    lemma_multiset_eq_to_set_eq(s2.sort_by(leq64()), s2);
    lemma_dedup_adj_sorted(s1.sort_by(leq64()));
    lemma_dedup_adj_sorted(s2.sort_by(leq64()));
    lemma_sorted_nodup_set_unique(canon_dedup(s1), canon_dedup(s2));
}

/// The canonical form depends only on the multiset.
pub proof fn lemma_canon_dedup_by_multiset(s1: Seq<u64>, s2: Seq<u64>)
    requires
        s1.to_multiset() == s2.to_multiset(),
    ensures
        canon_dedup(s1) == canon_dedup(s2),
{
    lemma_multiset_eq_to_set_eq(s1, s2);
    lemma_canon_dedup_by_set(s1, s2);
}

/// The canonical form enumerates the distinct values.
pub proof fn lemma_canon_dedup_len(s: Seq<u64>)
    ensures
        canon_dedup(s).len() == s.to_set().len(),
{
    crate::sort::lemma_leq64_total_ordering();
    s.lemma_sort_by_ensures(leq64());
    lemma_multiset_eq_to_set_eq(s.sort_by(leq64()), s);
    lemma_dedup_adj_sorted(s.sort_by(leq64()));
    canon_dedup(s).unique_seq_to_set();
}

/// The number of distinct signatures in a vector.
pub fn count_parts(sigs: &Vec<u64>) -> (r: usize)
    ensures
        r == sigs@.to_set().len(),
{
    let mut tmp: Vec<u64> = Vec::new();
    let mut i: usize = 0;
    while i < sigs.len()
        invariant
            i <= sigs@.len(),
            tmp@ == sigs@.take(i as int),
        decreases sigs@.len() - i,
    {
        proof {
            assert(sigs@.take(i + 1) =~= sigs@.take(i as int).push(sigs@[i as int]));
        }
        let x = sigs[i];
        tmp.push(x);
        i = i + 1;
    }
    proof {
        assert(sigs@.take(sigs@.len() as int) =~= sigs@);
    }
    sort_u64(&mut tmp);
    let dd = dedup_u64(tmp);
    proof {
        lemma_canon_dedup_len(sigs@);
    }
    dd.len()
}


/// Canonicalize every state of the stream in order.  Succeeds exactly when
/// the whole stream parses and every reference points at an existing entry
/// of `ids`; the result then lists each state's signature.
#[verifier::loop_isolation(false)]
pub fn repartition_all(data: &[u8], r: &CReader, ids: &[u64]) -> (res: Result<
    Vec<u64>,
    PartError,
>)
    requires
        r.wf(),
    ensures
        match res {
            Ok(sigs) => {
                &&& parse_states(data@, r.headers@, r.values@, 0) is Some
                &&& states_refs_below(
                    states_of(parse_states(data@, r.headers@, r.values@, 0)->Some_0),
                    ids@.len() as nat,
                )
                &&& sigs@ == child_sigs(
                    states_of(parse_states(data@, r.headers@, r.values@, 0)->Some_0),
                    ids@,
                )
                &&& sigs@.len() == parse_states(data@, r.headers@, r.values@, 0)->Some_0.len()
            },
            Err(_) => parse_states(data@, r.headers@, r.values@, 0) is None
                || !states_refs_below(
                states_of(parse_states(data@, r.headers@, r.values@, 0)->Some_0),
                ids@.len() as nat,
            ),
        },
{
    let ghost d = data@;
    let ghost hd = r.headers@;
    let ghost vd = r.values@;
    let ghost bound = ids@.len() as nat;
    let mut sigs: Vec<u64> = Vec::new();
    let mut cur: usize = 0;
    let ghost mut gproc: Seq<(int, NodeV)> = Seq::empty();
    while cur < data.len()
        invariant
            cur <= d.len(),
            parse_states(d, hd, vd, 0) == prepend_states(
                gproc,
                parse_states(d, hd, vd, cur as int),
            ),
            sigs@ == child_sigs(states_of(gproc), ids@),
            sigs@.len() == gproc.len(),
            forall|i: int|
                0 <= i < gproc.len() ==> refs_below(
                    #[trigger] node_refs(states_of(gproc)[i]),
                    bound,
                ),
        decreases d.len() - cur,
    {
        match canonicalize(data, r, ids, cur) {
            Ok((sig, end)) => {
                let ghost n = parsed_node(d, hd, vd, cur as int);
                proof {
                    let gproc2 = gproc.push((cur as int, n));
                    assert(parse_states(d, hd, vd, cur as int) == prepend_states(
                        seq![(cur as int, n)],
                        parse_states(d, hd, vd, end as int),
                    ));
                    if parse_states(d, hd, vd, end as int) is Some {
                        assert(gproc + (seq![(cur as int, n)] + parse_states(
                            d,
                            hd,
                            vd,
                            end as int,
                        )->Some_0) =~= gproc2 + parse_states(d, hd, vd, end as int)->Some_0);
                    }
                    assert(states_of(gproc2) =~= states_of(gproc).push(n));
                    lemma_child_sigs_index(states_of(gproc), ids@);
                    lemma_child_sigs_index(states_of(gproc).push(n), ids@);
                    assert(child_sigs(states_of(gproc).push(n), ids@) =~= sigs@.push(sig));
                    assert forall|i: int|
                        0 <= i < gproc2.len() implies refs_below(
                        #[trigger] node_refs(states_of(gproc2)[i]),
                        bound,
                    ) by {
                        assert(states_of(gproc2) == states_of(gproc).push(n));
                        if i < gproc.len() {
                            assert(states_of(gproc2)[i] == states_of(gproc)[i]);
                        } else {
                            assert(states_of(gproc2)[i] == n);
                        }
                    }
                    gproc = gproc2;
                }
                sigs.push(sig);
                cur = end;
            },
            Err(e) => {
                proof {
                    if parse_node(d, hd, vd, cur as int) is None {
                        assert(parse_states(d, hd, vd, cur as int) is None);
                    } else {
                        let n = parsed_node(d, hd, vd, cur as int);
                        if parse_states(d, hd, vd, 0) is Some {
                            let total = parse_states(d, hd, vd, 0)->Some_0;
                            let restopt = parse_states(
                                d,
                                hd,
                                vd,
                                parsed_end(d, hd, vd, cur as int),
                            );
                            assert(parse_states(d, hd, vd, cur as int) == prepend_states(
                                seq![(cur as int, n)],
                                restopt,
                            ));
                            let rest = restopt->Some_0;
                            assert(total == gproc + (seq![(cur as int, n)] + rest));
                            assert(states_of(total)[gproc.len() as int] == n) by {
                                assert(total[gproc.len() as int] == (cur as int, n));
                            }
                            assert(!refs_below(node_refs(n), bound));
                        }
                    }
                }
                return Err(e);
            },
        }
    }
    proof {
        assert(parse_states(d, hd, vd, cur as int) == Some(Seq::<(int, NodeV)>::empty()));
        assert(gproc + Seq::<(int, NodeV)>::empty() =~= gproc);
    }
    Ok(sigs)
}

/// Count the states of the stream.  Succeeds exactly when the whole stream
/// parses.
#[verifier::loop_isolation(false)]
pub fn count_states(data: &[u8], r: &CReader) -> (res: Result<usize, PartError>)
    requires
        r.wf(),
    ensures
        match res {
            Ok(n) => parse_states(data@, r.headers@, r.values@, 0) is Some && n == parse_states(
                data@,
                r.headers@,
                r.values@,
                0,
            )->Some_0.len(),
            Err(_) => parse_states(data@, r.headers@, r.values@, 0) is None,
        },
{
    let ghost d = data@;
    let ghost hd = r.headers@;
    let ghost vd = r.values@;
    let mut n: usize = 0;
    let mut cur: usize = 0;
    let ghost mut gproc: Seq<(int, NodeV)> = Seq::empty();
    while cur < data.len()
        invariant
            cur <= d.len(),
            parse_states(d, hd, vd, 0) == prepend_states(
                gproc,
                parse_states(d, hd, vd, cur as int),
            ),
            n == gproc.len(),
            n <= cur,
        decreases d.len() - cur,
    {
        match crate::node::Node::read(r, data, cur) {
            Ok((_node, end)) => {
                let ghost nv = parsed_node(d, hd, vd, cur as int);
                proof {
                    let gproc2 = gproc.push((cur as int, nv));
                    if parse_states(d, hd, vd, end as int) is Some {
                        assert(gproc + (seq![(cur as int, nv)] + parse_states(
                            d,
                            hd,
                            vd,
                            end as int,
                        )->Some_0) =~= gproc2 + parse_states(d, hd, vd, end as int)->Some_0);
                    }
                    gproc = gproc2;
                }
                n = n + 1;
                cur = end;
            },
            Err(e) => {
                return Err(e);
            },
        }
    }
    proof {
        assert(gproc + Seq::<(int, NodeV)>::empty() =~= gproc);
    }
    Ok(n)
}

/// Canonicalize the given states of an indexed coalgebra under the current
/// block assignment: the result lists, in order, each state's signature
/// under `ids` widened to 64 bits.
#[verifier::loop_isolation(false)]
pub fn repartition(coa: &Coalg, states: &[u32], ids: &Vec<u32>) -> (res: Vec<u64>)
    requires
        coa.wf(),
        ids@.len() == coa.n(),
        forall|k: int| 0 <= k < states@.len() ==> (#[trigger] states@[k]) < coa.n(),
    ensures
        res@.len() == states@.len(),
        forall|k: int|
            0 <= k < states@.len() ==> (#[trigger] res@[k]) == sig_of(
                coa.trees()[states@[k] as int],
                ids@.map_values(|b: u32| b as u64),
            ),
{
    let ghost d = coa.data@;
    let ghost hd = coa.reader.headers@;
    let ghost vd = coa.reader.values@;
    let ghost ids64 = ids@.map_values(|b: u32| b as u64);
    let mut wide: Vec<u64> = Vec::new();
    let mut t: usize = 0;
    while t < ids.len()
        invariant
            t <= ids@.len(),
            wide@ == ids64.take(t as int),
        decreases ids@.len() - t,
    {
        proof {
            assert(ids64.take(t + 1) =~= ids64.take(t as int).push(ids64[t as int]));
        }
        let x = ids[t];
        wide.push(x as u64);
        t = t + 1;
    }
    proof {
        assert(ids64.take(ids64.len() as int) =~= ids64);
    }
    let mut sigs: Vec<u64> = Vec::new();
    let mut k: usize = 0;
    while k < states.len()
        invariant
            k <= states@.len(),
            wide@ == ids64,
            sigs@.len() == k,
            forall|q: int|
                0 <= q < k ==> (#[trigger] sigs@[q]) == sig_of(
                    coa.trees()[states@[q] as int],
                    ids64,
                ),
        decreases states@.len() - k,
    {
        let st = states[k];
        let off = coa.locs[st as usize];
        proof {
            crate::model::lemma_parse_states_index(d, hd, vd, 0, st as int);
            assert(coa.locs@[st as int] == coa.sts()[st as int].0);
            assert(parsed_node(d, hd, vd, off as int) == coa.trees()[st as int]);
            assert(refs_below(node_refs(coa.trees()[st as int]), coa.n() as nat));
            assert(node_refs_below(parsed_node(d, hd, vd, off as int), ids64.len() as nat));
        }
        match canonicalize(coa.data.as_slice(), &coa.reader, wide.as_slice(), off as usize) {
            Ok((sig, _end)) => {
                sigs.push(sig);
            },
            Err(_) => {
                proof {
                    assert(false);
                }
                return sigs;
            },
        }
        k = k + 1;
    }
    sigs
}

} // verus!
