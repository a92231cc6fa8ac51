use boa::bits::{decode_header, encode_header, get_header, put_header, get_noncompressed32,
    put_noncompressed32, LIST_TYP, SET_TYP, ADD_TYP};
use boa::codec::{CReader, CWriter};
use boa::node::Node;
use boa::canon::{canonicalize, count_parts};
use boa::coalg::Coalg;
use boa::naivealg::partref_naive;
use boa::refpart::{cumsum, cumsum_mut, counts_vec, index_of_max};
use boa::renumber::renumber;

#[test]
fn test_binary_representation() {
    assert_eq!(decode_header(encode_header(1, 2, 3)), (1, 2, 3));
    assert_eq!(
        decode_header(encode_header(1, u8::MAX, u16::MAX)),
        (1, u8::MAX, u16::MAX)
    );
    assert_eq!(
        decode_header(get_header(put_header(encode_header(
            127,
            u8::MAX,
            u16::MAX
        )))),
        (127, u8::MAX, u16::MAX)
    );
    assert_eq!(
        decode_header(get_header(get_noncompressed32(put_noncompressed32(
            put_header(encode_header(63, u8::MAX, u16::MAX))
        )))),
        (63, u8::MAX, u16::MAX)
    );
}

#[test]
fn test_cumsum_mut() {
    let mut xs = vec![2, 3, 1, 2, 0, 4];
    cumsum_mut(&mut xs);
    assert_eq!(xs, vec![2, 5, 6, 8, 8, 12]);
}

#[test]
fn test_cumsum() {
    let xs = vec![2, 3, 1, 2, 0, 4];
    assert_eq!(cumsum(&xs), vec![2, 5, 6, 8, 8, 12]);
}

#[test]
fn test_counts_vec() {
    let counts = counts_vec(&vec![0, 0, 1, 1, 3, 4, 5, 5, 5]);
    assert_eq!(counts[0], 2);
    assert_eq!(counts[1], 2);
    assert_eq!(counts[3], 1);
    assert_eq!(counts[4], 1);
    assert_eq!(counts[5], 3);
}

#[test]
fn test_index_of_max() {
    assert_eq!(index_of_max(&vec![0, 3, 1, 2, 3, 4, 3]), 5);
}

fn test1_nodes() -> Vec<Node> {
    vec![
        Node::Coll(LIST_TYP, 0, vec![Node::State(0), Node::State(1)]),
        Node::Coll(LIST_TYP, 0, vec![Node::State(1), Node::State(1)]),
        Node::Coll(LIST_TYP, 1, vec![Node::State(0), Node::State(0)]),
        Node::Coll(LIST_TYP, 1, vec![Node::State(0), Node::State(0)]),
        Node::Coll(LIST_TYP, 1, vec![Node::State(3), Node::State(4)]),
        Node::Mon(ADD_TYP, 0, vec![(Node::State(0), 1), (Node::State(1), 1)]),
        Node::Mon(ADD_TYP, 0, vec![(Node::State(0), 2)]),
        Node::Mon(ADD_TYP, 0, vec![(Node::State(0), 2), (Node::State(1), 1)]),
    ]
}

fn encode_nodes(nodes: &[Node]) -> (Vec<u8>, CReader) {
    let mut w = CWriter::new();
    for n in nodes {
        n.write(&mut w);
    }
    w.finish()
}

#[test]
fn test_partref_naive() {
    let (data, r) = encode_nodes(&test1_nodes());
    let ids = partref_naive(&data, &r).unwrap();
    let wide: Vec<u64> = ids.iter().map(|x| *x as u64).collect();
    assert_eq!(renumber(&wide), vec![0, 0, 1, 1, 2, 3, 3, 4]);
}

#[test]
fn test_new_coalg() {
    let (data, r) = encode_nodes(&test1_nodes());
    let coa = Coalg::new(data, r).unwrap();
    assert_eq!(coa.num_states(), 8);
    assert_eq!(&coa.backrefs, &vec![7, 6, 5, 3, 3, 2, 2, 0, 7, 5, 1, 1, 0, 4, 4]);
    assert_eq!(&coa.backrefs_locs, &vec![0, 8, 13, 13, 14, 15, 15, 15, 15]);
    assert_eq!(&coa.state_backrefs(0), &vec![7, 6, 5, 3, 3, 2, 2, 0]);
}

#[test]
fn test_node_read_write() {
    // Max[123]{@12:1,Set[123]{@12,@13,@14}:2,Max[123]{@12:3,@13:4,@14:5}:6,Set[12]{}:7}
    let node = Node::Mon(
        boa::bits::MAX_TYP,
        123,
        vec![
            (Node::State(12), 1),
            (
                Node::Coll(SET_TYP, 123, vec![Node::State(12), Node::State(13), Node::State(14)]),
                2,
            ),
            (
                Node::Mon(
                    boa::bits::MAX_TYP,
                    123,
                    vec![(Node::State(12), 3), (Node::State(13), 4), (Node::State(14), 5)],
                ),
                6,
            ),
            (Node::Coll(SET_TYP, 12, vec![]), 7),
        ],
    );
    let mut w = CWriter::new();
    node.write(&mut w);
    let (data, r) = w.finish();
    let (node2, end) = Node::read(&r, &data, 0).unwrap();
    assert_eq!(node, node2);
    assert_eq!(end, data.len());
}

#[test]
fn test_set_signature_ignores_order_and_duplicates() {
    let a = Node::Coll(SET_TYP, 0, vec![Node::State(0), Node::State(0), Node::State(1)]);
    let b = Node::Coll(SET_TYP, 0, vec![Node::State(1), Node::State(0)]);
    let mut w = CWriter::new();
    a.write(&mut w);
    let boundary = w.data.len();
    b.write(&mut w);
    let (data, r) = w.finish();
    let ids: Vec<u64> = vec![5, 9];
    let (sig_a, _) = canonicalize(&data, &r, &ids, 0).unwrap();
    let (sig_b, _) = canonicalize(&data, &r, &ids, boundary).unwrap();
    assert_eq!(sig_a, sig_b);
}

#[test]
fn test_add_signature_combines_values() {
    let a = Node::Mon(ADD_TYP, 0, vec![(Node::State(0), 2), (Node::State(0), 3)]);
    let b = Node::Mon(ADD_TYP, 0, vec![(Node::State(0), 5)]);
    let mut w = CWriter::new();
    a.write(&mut w);
    let boundary = w.data.len();
    b.write(&mut w);
    let (data, r) = w.finish();
    let ids: Vec<u64> = vec![7];
    let (sig_a, _) = canonicalize(&data, &r, &ids, 0).unwrap();
    let (sig_b, _) = canonicalize(&data, &r, &ids, boundary).unwrap();
    assert_eq!(sig_a, sig_b);
}

#[test]
fn test_list_signature_keeps_order() {
    let a = Node::Coll(LIST_TYP, 0, vec![Node::State(0), Node::State(1)]);
    let b = Node::Coll(LIST_TYP, 0, vec![Node::State(1), Node::State(0)]);
    let mut w = CWriter::new();
    a.write(&mut w);
    let boundary = w.data.len();
    b.write(&mut w);
    let (data, r) = w.finish();
    let ids: Vec<u64> = vec![5, 9];
    let (sig_a, _) = canonicalize(&data, &r, &ids, 0).unwrap();
    let (sig_b, _) = canonicalize(&data, &r, &ids, boundary).unwrap();
    assert_ne!(sig_a, sig_b);
}

#[test]
fn test_count_parts() {
    assert_eq!(count_parts(&vec![3, 1, 3, 1, 5]), 3);
    assert_eq!(count_parts(&vec![]), 0);
}

#[test]
fn test_renumber_first_seen() {
    assert_eq!(renumber(&vec![9, 4, 9, 7]), vec![0, 1, 0, 2]);
    let empty: Vec<u64> = Vec::new();
    assert_eq!(renumber(&empty), Vec::<u32>::new());
}

#[test]
fn test_creader_cwriter() {
    let mut w = CWriter::new();
    for _ in 0..10 {
        for i in 0..1000u32 {
            w.write_node(i);
        }
        for i in 0..1000u64 {
            w.write_value(i);
        }
    }
    let (data, r) = w.finish();
    assert_eq!(
        data.len(),
        10 * (128 + (1000 - 128) * 4 + 128 + (1000 - 128) * 8)
    );
    let mut off = 0usize;
    for _ in 0..10 {
        for i in 0..1000u32 {
            let (x, next) = r.read_node(&data, off).unwrap();
            assert_eq!(x, i);
            off = next;
        }
        for i in 0..1000u64 {
            let (x, next) = r.read_value(&data, off).unwrap();
            assert_eq!(x, i);
            off = next;
        }
    }
    assert!(CReader::is_at_end(&data, off));
}

#[test]
fn test_naive_fixed_point() {
    // one more full round after the driver stops changes no block
    let (data, r) = encode_nodes(&test1_nodes());
    let ids = partref_naive(&data, &r).unwrap();
    let wide: Vec<u64> = ids.iter().map(|x| *x as u64).collect();
    let again = boa::canon::repartition_all(&data, &r, &wide).unwrap();
    assert_eq!(renumber(&wide), renumber(&again));
}

#[test]
fn test_nlogn_fixed_point() {
    // one more full round after the worklist empties changes no block
    let (data, r) = encode_nodes(&test1_nodes());
    let ids = boa::optalg::partref_nlogn(data, r).unwrap();
    let wide: Vec<u64> = ids.iter().map(|x| *x as u64).collect();
    let (data2, r2) = encode_nodes(&test1_nodes());
    let again = boa::canon::repartition_all(&data2, &r2, &wide).unwrap();
    assert_eq!(renumber(&wide), renumber(&again));
}

#[test]
fn test_malformed_input_rejected() {
    // a header with an unknown operator byte
    let mut w = CWriter::new();
    w.write_node_noncompressed(boa::bits::put_header(boa::bits::encode_header(9, 0, 0)));
    let (data, r) = w.finish();
    assert!(Node::read(&r, &data, 0).is_err());
    assert!(partref_naive(&data, &r).is_err());
}

#[test]
fn test_renumber_sort() {
    assert_eq!(
        boa::renumber::renumber_sort(&vec![3, 1, 3, 1, 5, 3, 0, 1]),
        vec![0, 1, 0, 1, 3, 0, 2, 1]
    );
}

#[test]
fn test_partref_nlogn() {
    // the nlogn driver agrees with the naive one, up to block-id renaming
    let (data, r) = encode_nodes(&test1_nodes());
    let ids1 = partref_naive(&data, &r).unwrap();
    let wide1: Vec<u64> = ids1.iter().map(|x| *x as u64).collect();
    let (data2, r2) = encode_nodes(&test1_nodes());
    let ids2 = boa::optalg::partref_nlogn(data2, r2).unwrap();
    assert_eq!(renumber(&wide1), ids2);
    assert_eq!(ids2, vec![0, 0, 1, 1, 2, 3, 3, 4]);

    // six pairwise-inequivalent states stay six blocks
    let six = vec![
        Node::Coll(LIST_TYP, 0, vec![]),
        Node::Coll(SET_TYP, 0, vec![Node::State(0)]),
        Node::Mon(ADD_TYP, 0, vec![(Node::State(0), 1)]),
        Node::Mon(boa::bits::MAX_TYP, 0, vec![(Node::State(0), 1)]),
        Node::Mon(boa::bits::OR_TYP, 0, vec![(Node::State(1), 1)]),
        Node::Coll(LIST_TYP, 1, vec![]),
    ];
    let (data3, r3) = encode_nodes(&six);
    let ids3 = boa::optalg::partref_nlogn(data3, r3).unwrap();
    assert_eq!(ids3, vec![0, 1, 2, 3, 4, 5]);
}
