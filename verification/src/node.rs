//! The in-memory recursive node, used to build and take apart the byte
//! encoding one state at a time.

use vstd::prelude::*;
use crate::PartError;
use crate::bits::{put_state, put_header, encode_header, decode_header, is_state, get_state,
    get_header, LIST_TYP, SET_TYP, ADD_TYP, MAX_TYP, OR_TYP, TAG_TYP};
use crate::codec::{CReader, CWriter, bytes_extend, dict32_extends, dict64_extends,
    lemma_bytes_extend_trans, lemma_dict32_extends_trans, lemma_dict64_extends_trans};
use crate::model::{NodeV, parse_node, parse_children, parse_entries, parse_word, parse_value,
    is_coll_typ, is_mon_typ, encodable, encodable_nodes, encodable_pairs,
    lemma_encodable_nodes_index, lemma_encodable_pairs_index, lemma_parse_children_snoc,
    lemma_parse_entries_snoc, lemma_parse_children_fail, lemma_parse_entries_fail_node,
    lemma_parse_entries_fail_value};

verus! {

/// One successor tree, as ordinary data.
#[derive(PartialEq, Debug)]
pub enum Node {
    State(u32),
    Coll(u8, u8, Vec<Node>),
    Mon(u8, u8, Vec<(Node, u64)>),
}

pub open spec fn node_view(n: Node) -> NodeV
    decreases n,
{
    match n {
        Node::State(s) => NodeV::State { id: s },
        Node::Coll(t, g, ch) => NodeV::Coll { typ: t, tag: g, children: nodes_view(ch@) },
        Node::Mon(t, g, es) => NodeV::Mon { typ: t, tag: g, entries: pairs_view(es@) },
    }
}

pub open spec fn nodes_view(ch: Seq<Node>) -> Seq<NodeV>
    decreases ch,
{
    if ch.len() == 0 {
        Seq::empty()
    } else {
        seq![node_view(ch[0])] + nodes_view(ch.drop_first())
    }
}

pub open spec fn pairs_view(es: Seq<(Node, u64)>) -> Seq<(NodeV, u64)>
    decreases es,
{
    if es.len() == 0 {
        Seq::empty()
    } else {
        seq![(node_view(es[0].0), es[0].1)] + pairs_view(es.drop_first())
    }
}

impl View for Node {
    type V = NodeV;

    open spec fn view(&self) -> NodeV {
        node_view(*self)
    }
}

pub proof fn lemma_nodes_view(ch: Seq<Node>)
    ensures
        nodes_view(ch).len() == ch.len(),
        forall|i: int| 0 <= i < ch.len() ==> nodes_view(ch)[i] == node_view(ch[i]),
    decreases ch,
{
    if ch.len() > 0 {
        lemma_nodes_view(ch.drop_first());
    }
}

pub proof fn lemma_pairs_view(es: Seq<(Node, u64)>)
    ensures
        pairs_view(es).len() == es.len(),
        forall|i: int|
            0 <= i < es.len() ==> pairs_view(es)[i] == (node_view(es[i].0), es[i].1),
    decreases es,
{
    if es.len() > 0 {
        lemma_pairs_view(es.drop_first());
    }
}

impl Node {
    /// Append this node's encoding to the writer.  Any buffer and
    /// dictionaries that extend the writer's final state decode these bytes
    /// back to this very tree.
    #[verifier::loop_isolation(false)]
    pub fn write(&self, w: &mut CWriter)
        requires
            old(w).wf(),
            encodable(node_view(*self)),
        ensures
            final(w).wf(),
            final(w).n_headers >= old(w).n_headers,
            forall|i: int|
                0 <= i < old(w).n_headers ==> final(w).headers@[i] == old(w).headers@[i],
            final(w).n_values >= old(w).n_values,
            forall|i: int|
                0 <= i < old(w).n_values ==> final(w).values@[i] == old(w).values@[i],
            bytes_extend(final(w).data@, old(w).data@),
            final(w).data@.len() > old(w).data@.len(),
            // a state reference is always written inline, never compressed
            node_view(*self) is State ==> final(w).data@.len() == old(w).data@.len() + 4,
            forall|d2: Seq<u8>, hd2: Seq<u32>, vd2: Seq<u64>|
                bytes_extend(d2, final(w).data@) && dict32_extends(
                    hd2,
                    final(w).headers@,
                    final(w).n_headers as int,
                ) && dict64_extends(vd2, final(w).values@, final(w).n_values as int)
                    ==> #[trigger] parse_node(d2, hd2, vd2, old(w).data@.len() as int) == Some(
                    (node_view(*self), final(w).data@.len() as int),
                ),
        decreases *self,
    {
        let ghost off0 = old(w).data@.len() as int;
        match self {
            Node::State(s) => {
                w.write_node_noncompressed(put_state(*s));
                proof {
                    assert forall|d2: Seq<u8>, hd2: Seq<u32>, vd2: Seq<u64>|
                        bytes_extend(d2, w.data@) && dict32_extends(
                            hd2,
                            w.headers@,
                            w.n_headers as int,
                        ) && dict64_extends(vd2, w.values@, w.n_values as int) implies #[trigger]
                        parse_node(d2, hd2, vd2, off0) == Some(
                        (node_view(*self), w.data@.len() as int),
                    ) by {
                        assert(parse_word(d2, hd2, off0) == Some(
                            ((*s) << 1, w.data@.len() as int),
                        ));
                    }
                }
            },
            Node::Coll(t, g, ch) => {
                proof {
                    lemma_nodes_view(ch@);
                }
                let h = encode_header(*t, *g, ch.len() as u16);
                let hw = put_header(h);
                w.write_node(hw);
                let ghost wh = *w;
                let ghost off1 = w.data@.len() as int;
                proof {
                    assert(w.data@.subrange(0, w.data@.len() as int) =~= w.data@);
                }
                let mut i: usize = 0;
                while i < ch.len()
                    invariant
                        i <= ch.len(),
                        w.wf(),
                        w.n_headers >= wh.n_headers,
                        forall|j: int|
                            0 <= j < wh.n_headers ==> w.headers@[j] == wh.headers@[j],
                        w.n_values >= wh.n_values,
                        forall|j: int| 0 <= j < wh.n_values ==> w.values@[j] == wh.values@[j],
                        bytes_extend(w.data@, wh.data@),
                        off1 == wh.data@.len() as int,
                        i > 0 ==> w.data@.len() > off1,
                        forall|d2: Seq<u8>, hd2: Seq<u32>, vd2: Seq<u64>|
                            bytes_extend(d2, w.data@) && dict32_extends(
                                hd2,
                                w.headers@,
                                w.n_headers as int,
                            ) && dict64_extends(vd2, w.values@, w.n_values as int)
                                ==> #[trigger] parse_children(d2, hd2, vd2, off1, i as nat)
                                == Some((nodes_view(ch@.take(i as int)), w.data@.len() as int)),
                    decreases ch.len() - i,
                {
                    let ghost wp = *w;
                    proof {
                        assert(decreases_to!(*self => *ch));
                        assert(decreases_to!(*ch => ch@));
                        assert(decreases_to!(ch@ => ch@[i as int]));
                        assert(decreases_to!(*self => ch@[i as int]));
                        lemma_encodable_nodes_index(nodes_view(ch@), i as int);
                        assert(nodes_view(ch@)[i as int] == node_view(ch@[i as int]));
                    }
                    ch[i].write(w);
                    proof {
                        lemma_bytes_extend_trans(w.data@, wp.data@, wh.data@);
                        lemma_nodes_view(ch@.take(i as int));
                        lemma_nodes_view(ch@.take(i + 1));
                        assert forall|d2: Seq<u8>, hd2: Seq<u32>, vd2: Seq<u64>|
                            bytes_extend(d2, w.data@) && dict32_extends(
                                hd2,
                                w.headers@,
                                w.n_headers as int,
                            ) && dict64_extends(vd2, w.values@, w.n_values as int) implies #[trigger]
                            parse_children(d2, hd2, vd2, off1, (i + 1) as nat) == Some(
                            (nodes_view(ch@.take(i + 1)), w.data@.len() as int),
                        ) by {
                            lemma_bytes_extend_trans(d2, w.data@, wp.data@);
                            lemma_dict32_extends_trans(
                                hd2,
                                w.headers@,
                                wp.headers@,
                                w.n_headers as int,
                                wp.n_headers as int,
                            );
                            lemma_dict64_extends_trans(
                                vd2,
                                w.values@,
                                wp.values@,
                                w.n_values as int,
                                wp.n_values as int,
                            );
                            assert(parse_children(d2, hd2, vd2, off1, i as nat) == Some(
                                (nodes_view(ch@.take(i as int)), wp.data@.len() as int),
                            ));
                            assert(parse_node(d2, hd2, vd2, wp.data@.len() as int) == Some(
                                (node_view(ch@[i as int]), w.data@.len() as int),
                            ));
                            lemma_parse_children_snoc(
                                d2,
                                hd2,
                                vd2,
                                off1,
                                i as nat,
                                node_view(ch@[i as int]),
                                w.data@.len() as int,
                            );
                            assert(nodes_view(ch@.take(i as int)).push(node_view(ch@[i as int]))
                                =~= nodes_view(ch@.take(i + 1)));
                        }
                    }
                    i = i + 1;
                }
                proof {
                    lemma_bytes_extend_trans(w.data@, wh.data@, old(w).data@);
                    assert(ch@.take(ch@.len() as int) =~= ch@);
                    assert forall|d2: Seq<u8>, hd2: Seq<u32>, vd2: Seq<u64>|
                        bytes_extend(d2, w.data@) && dict32_extends(
                            hd2,
                            w.headers@,
                            w.n_headers as int,
                        ) && dict64_extends(vd2, w.values@, w.n_values as int) implies #[trigger]
                        parse_node(d2, hd2, vd2, off0) == Some(
                        (node_view(*self), w.data@.len() as int),
                    ) by {
                        lemma_bytes_extend_trans(d2, w.data@, wh.data@);
                        lemma_dict32_extends_trans(
                            hd2,
                            w.headers@,
                            wh.headers@,
                            w.n_headers as int,
                            wh.n_headers as int,
                        );
                        assert(parse_word(d2, hd2, off0) == Some((hw, off1)));
                        assert(parse_children(d2, hd2, vd2, off1, ch@.len() as nat) == Some(
                            (nodes_view(ch@), w.data@.len() as int),
                        ));
                    }
                }
            },
            Node::Mon(t, g, es) => {
                proof {
                    lemma_pairs_view(es@);
                }
                let h = encode_header(*t, *g, es.len() as u16);
                let hw = put_header(h);
                w.write_node(hw);
                let ghost wh = *w;
                let ghost off1 = w.data@.len() as int;
                proof {
                    assert(w.data@.subrange(0, w.data@.len() as int) =~= w.data@);
                }
                let mut i: usize = 0;
                while i < es.len()
                    invariant
                        i <= es.len(),
                        w.wf(),
                        w.n_headers >= wh.n_headers,
                        forall|j: int|
                            0 <= j < wh.n_headers ==> w.headers@[j] == wh.headers@[j],
                        w.n_values >= wh.n_values,
                        forall|j: int| 0 <= j < wh.n_values ==> w.values@[j] == wh.values@[j],
                        bytes_extend(w.data@, wh.data@),
                        off1 == wh.data@.len() as int,
                        i > 0 ==> w.data@.len() > off1,
                        forall|d2: Seq<u8>, hd2: Seq<u32>, vd2: Seq<u64>|
                            bytes_extend(d2, w.data@) && dict32_extends(
                                hd2,
                                w.headers@,
                                w.n_headers as int,
                            ) && dict64_extends(vd2, w.values@, w.n_values as int)
                                ==> #[trigger] parse_entries(d2, hd2, vd2, off1, i as nat)
                                == Some((pairs_view(es@.take(i as int)), w.data@.len() as int)),
                    decreases es.len() - i,
                {
                    let ghost wp = *w;
                    proof {
                        assert(decreases_to!(*self => *es));
                        assert(decreases_to!(*es => es@));
                        assert(decreases_to!(es@ => es@[i as int]));
                        assert(decreases_to!(*self => es@[i as int].0));
                        lemma_pairs_view(es@);
                        lemma_encodable_pairs_index(pairs_view(es@), i as int);
                        assert(pairs_view(es@)[i as int] == (node_view(es@[i as int].0), es@[i as int].1));
                    }
                    es[i].0.write(w);
                    let ghost wm = *w;
                    w.write_value(es[i].1);
                    proof {
                        lemma_bytes_extend_trans(w.data@, wm.data@, wp.data@);
                        lemma_bytes_extend_trans(w.data@, wp.data@, wh.data@);
                        lemma_pairs_view(es@.take(i as int));
                        lemma_pairs_view(es@.take(i + 1));
                        assert forall|d2: Seq<u8>, hd2: Seq<u32>, vd2: Seq<u64>|
                            bytes_extend(d2, w.data@) && dict32_extends(
                                hd2,
                                w.headers@,
                                w.n_headers as int,
                            ) && dict64_extends(vd2, w.values@, w.n_values as int) implies #[trigger]
                            parse_entries(d2, hd2, vd2, off1, (i + 1) as nat) == Some(
                            (pairs_view(es@.take(i + 1)), w.data@.len() as int),
                        ) by {
                            lemma_bytes_extend_trans(d2, w.data@, wm.data@);
                            lemma_bytes_extend_trans(d2, wm.data@, wp.data@);
                            lemma_dict32_extends_trans(
                                hd2,
                                w.headers@,
                                wm.headers@,
                                w.n_headers as int,
                                wm.n_headers as int,
                            );
                            lemma_dict32_extends_trans(
                                hd2,
                                wm.headers@,
                                wp.headers@,
                                wm.n_headers as int,
                                wp.n_headers as int,
                            );
                            lemma_dict64_extends_trans(
                                vd2,
                                w.values@,
                                wm.values@,
                                w.n_values as int,
                                wm.n_values as int,
                            );
                            lemma_dict64_extends_trans(
                                vd2,
                                wm.values@,
                                wp.values@,
                                wm.n_values as int,
                                wp.n_values as int,
                            );
                            assert(parse_entries(d2, hd2, vd2, off1, i as nat) == Some(
                                (pairs_view(es@.take(i as int)), wp.data@.len() as int),
                            ));
                            assert(parse_node(d2, hd2, vd2, wp.data@.len() as int) == Some(
                                (node_view(es@[i as int].0), wm.data@.len() as int),
                            ));
                            assert(parse_value(d2, vd2, wm.data@.len() as int) == Some(
                                (es@[i as int].1, w.data@.len() as int),
                            ));
                            lemma_parse_entries_snoc(
                                d2,
                                hd2,
                                vd2,
                                off1,
                                i as nat,
                                node_view(es@[i as int].0),
                                es@[i as int].1,
                                w.data@.len() as int,
                            );
                            assert(pairs_view(es@.take(i as int)).push(
                                (node_view(es@[i as int].0), es@[i as int].1),
                            ) =~= pairs_view(es@.take(i + 1)));
                        }
                    }
                    i = i + 1;
                }
                proof {
                    lemma_bytes_extend_trans(w.data@, wh.data@, old(w).data@);
                    assert(es@.take(es@.len() as int) =~= es@);
                    assert forall|d2: Seq<u8>, hd2: Seq<u32>, vd2: Seq<u64>|
                        bytes_extend(d2, w.data@) && dict32_extends(
                            hd2,
                            w.headers@,
                            w.n_headers as int,
                        ) && dict64_extends(vd2, w.values@, w.n_values as int) implies #[trigger]
                        parse_node(d2, hd2, vd2, off0) == Some(
                        (node_view(*self), w.data@.len() as int),
                    ) by {
                        lemma_bytes_extend_trans(d2, w.data@, wh.data@);
                        lemma_dict32_extends_trans(
                            hd2,
                            w.headers@,
                            wh.headers@,
                            w.n_headers as int,
                            wh.n_headers as int,
                        );
                        assert(parse_word(d2, hd2, off0) == Some((hw, off1)));
                        assert(parse_entries(d2, hd2, vd2, off1, es@.len() as nat) == Some(
                            (pairs_view(es@), w.data@.len() as int),
                        ));
                    }
                }
            },
        }
    }

    /// Decode one node starting at `off`.  Succeeds exactly when the bytes
    /// parse, and then returns that tree.
    #[verifier::loop_isolation(false)]
    pub fn read(r: &CReader, data: &[u8], off: usize) -> (res: Result<(Node, usize), PartError>)
        requires
            r.wf(),
        ensures
            match res {
                Ok((n, end)) => parse_node(data@, r.headers@, r.values@, off as int) == Some(
                    (n@, end as int),
                ) && off < end <= data@.len(),
                Err(_) => parse_node(data@, r.headers@, r.values@, off as int) is None,
            },
        decreases data@.len() - off,
    {
        let (word, off1) = match r.read_node(data, off) {
            Ok(p) => p,
            Err(e) => {
                return Err(e);
            },
        };
        if is_state(word) {
            Ok((Node::State(get_state(word)), off1))
        } else {
            let h = get_header(word);
            let (typ, tag, len) = decode_header(h);
            if typ == LIST_TYP || typ == SET_TYP {
                let mut nodes: Vec<Node> = Vec::new();
                let mut cur = off1;
                let mut k: u16 = 0;
                while k < len
                    invariant
                        r.wf(),
                        k <= len,
                        off < cur <= data@.len(),
                        parse_word(data@, r.headers@, off as int) == Some((word, off1 as int)),
                        parse_children(data@, r.headers@, r.values@, off1 as int, k as nat)
                            == Some((nodes_view(nodes@), cur as int)),
                        nodes@.len() == k,
                    decreases len - k,
                {
                    let ghost prev = cur;
                    match Node::read(r, data, cur) {
                        Ok((n, end)) => {
                            proof {
                                lemma_parse_children_snoc(
                                    data@,
                                    r.headers@,
                                    r.values@,
                                    off1 as int,
                                    k as nat,
                                    n@,
                                    end as int,
                                );
                                lemma_nodes_view(nodes@);
                                lemma_nodes_view(nodes@.push(n));
                                assert(nodes_view(nodes@).push(n@) =~= nodes_view(
                                    nodes@.push(n),
                                ));
                            }
                            nodes.push(n);
                            cur = end;
                        },
                        Err(e) => {
                            proof {
                                lemma_parse_children_fail(
                                    data@,
                                    r.headers@,
                                    r.values@,
                                    off1 as int,
                                    k as nat,
                                    len as nat,
                                );
                            }
                            return Err(e);
                        },
                    }
                    k = k + 1;
                }
                Ok((Node::Coll(typ, tag, nodes), cur))
            } else if typ == ADD_TYP || typ == MAX_TYP || typ == OR_TYP || typ == TAG_TYP {
                let mut pairs: Vec<(Node, u64)> = Vec::new();
                let mut cur = off1;
                let mut k: u16 = 0;
                while k < len
                    invariant
                        r.wf(),
                        k <= len,
                        off < cur <= data@.len(),
                        parse_word(data@, r.headers@, off as int) == Some((word, off1 as int)),
                        parse_entries(data@, r.headers@, r.values@, off1 as int, k as nat)
                            == Some((pairs_view(pairs@), cur as int)),
                        pairs@.len() == k,
                    decreases len - k,
                {
                    let (n, mid) = match Node::read(r, data, cur) {
                        Ok(p) => p,
                        Err(e) => {
                            proof {
                                lemma_parse_entries_fail_node(
                                    data@,
                                    r.headers@,
                                    r.values@,
                                    off1 as int,
                                    k as nat,
                                    len as nat,
                                );
                            }
                            return Err(e);
                        },
                    };
                    let (v, end) = match r.read_value(data, mid) {
                        Ok(p) => p,
                        Err(e) => {
                            proof {
                                lemma_parse_entries_fail_value(
                                    data@,
                                    r.headers@,
                                    r.values@,
                                    off1 as int,
                                    k as nat,
                                    len as nat,
                                );
                            }
                            return Err(e);
                        },
                    };
                    proof {
                        lemma_parse_entries_snoc(
                            data@,
                            r.headers@,
                            r.values@,
                            off1 as int,
                            k as nat,
                            n@,
                            v,
                            end as int,
                        );
                        lemma_pairs_view(pairs@);
                        lemma_pairs_view(pairs@.push((n, v)));
                        assert(pairs_view(pairs@).push((n@, v)) =~= pairs_view(
                            pairs@.push((n, v)),
                        ));
                    }
                    pairs.push((n, v));
                    cur = end;
                    k = k + 1;
                }
                Ok((Node::Mon(typ, tag, pairs), cur))
            } else {
                Err(PartError::MalformedInput)
            }
        }
    }
}

} // verus!
