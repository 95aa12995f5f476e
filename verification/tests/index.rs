use liblzma::api::base::LzmaRet;
use liblzma::api::check::LzmaCheck;
use liblzma::api::index::{
    Block, Internal, InternalArray, LzmaIndexIter, LzmaIndexIterMode, Stream,
};
use liblzma::api::stream_flags::LzmaStreamFlags;
use liblzma::common::index::{
    index_file_size, index_size, lzma_vli_size, vli_ceil4, INDEX_GROUP_SIZE, UNPADDED_SIZE_MAX,
    UNPADDED_SIZE_MIN,
};
use liblzma::common::index_iter::IterPos;
use liblzma::common::index_tree::{
    node_link, IndexGroup, IndexNode, IndexRecord, IndexStream, IndexTree, IndexTreeNode,
    LzmaIndex,
};

fn leaf(base: u64) -> IndexNode {
    IndexNode::Group(IndexGroup {
        node: IndexTreeNode {
            uncompressed_base: base,
            compressed_base: base,
            parent: None,
            left: None,
            right: None,
            height: 0,
        },
        number_base: 0,
        allocated: 1,
        last: 0,
        records: vec![IndexRecord { uncompressed_sum: base + 1, unpadded_sum: base + 5 }],
    })
}

/// Checks the subtree below `r` and returns its height and the range of
/// nodes it holds.
fn check_subtree(tree: &IndexTree, r: Option<usize>, parent: Option<usize>, lo: usize) -> (u32, usize) {
    match r {
        None => (0, lo),
        Some(i) => {
            let l = node_link(&tree.nodes, i);
            assert_eq!(l.parent, parent);
            let (hl, mid) = check_subtree(tree, l.left, Some(i), lo);
            assert_eq!(mid, i, "the left subtree holds exactly the nodes before the root");
            let (hr, hi) = check_subtree(tree, l.right, Some(i), i + 1);
            assert!(hl <= hr + 1 && hr <= hl + 1, "balance at node {}", i);
            let h = 1 + hl.max(hr);
            assert_eq!(l.height, h);
            (h, hi)
        },
    }
}

#[test]
fn tree_stays_balanced_over_many_appends() {
    let mut tree = IndexTree::new();
    assert_eq!(tree.len(), 0);
    assert_eq!(tree.root, None);
    for n in 0..600usize {
        tree.append(leaf(n as u64 * 10));
        assert_eq!(tree.count as usize, n + 1);
        assert_eq!(tree.leftmost, Some(0));
        assert_eq!(tree.rightmost, Some(n));
        let (h, hi) = check_subtree(&tree, tree.root, None, 0);
        assert_eq!(hi, n + 1);
        // An AVL tree of n + 1 nodes is no higher than 1.45 log2(n + 2).
        assert!((1u64 << ((h as u64 * 100 + 144) / 145).min(63)) <= (n as u64 + 2) * 2);
        // The ways down along the left and the right links end at the ends.
        let mut at = tree.root.unwrap();
        while let Some(l) = node_link(&tree.nodes, at).left {
            at = l;
        }
        assert_eq!(at, 0);
        let mut at = tree.root.unwrap();
        while let Some(r) = node_link(&tree.nodes, at).right {
            at = r;
        }
        assert_eq!(at, n);
    }
    let (h, _) = check_subtree(&tree, tree.root, None, 0);
    assert_eq!(h, 10);
}

#[test]
fn tree_of_seven_is_perfect() {
    let mut tree = IndexTree::new();
    for n in 0..7u64 {
        tree.append(leaf(n));
    }
    assert_eq!(tree.root, Some(3));
    assert_eq!(node_link(&tree.nodes, 3).left, Some(1));
    assert_eq!(node_link(&tree.nodes, 3).right, Some(5));
    assert_eq!(node_link(&tree.nodes, 1).left, Some(0));
    assert_eq!(node_link(&tree.nodes, 1).right, Some(2));
    assert_eq!(node_link(&tree.nodes, 5).left, Some(4));
    assert_eq!(node_link(&tree.nodes, 5).right, Some(6));
    assert_eq!(node_link(&tree.nodes, 3).height, 3);
    assert_eq!(node_link(&tree.nodes, 6).parent, Some(5));
}

#[test]
fn tree_locate_finds_the_last_node_before_target() {
    let mut tree = IndexTree::new();
    assert_eq!(tree.locate(5), None);
    for n in 0..20u64 {
        tree.append(leaf(n * 10));
    }
    assert_eq!(tree.locate(0), None);
    assert_eq!(tree.locate(1), Some(0));
    assert_eq!(tree.locate(10), Some(0));
    assert_eq!(tree.locate(11), Some(1));
    assert_eq!(tree.locate(190), Some(18));
    assert_eq!(tree.locate(191), Some(19));
    assert_eq!(tree.locate(u64::MAX), Some(19));
}

fn records_of(s: &IndexStream) -> Vec<(u64, u64)> {
    let mut v = Vec::new();
    for node in s.groups.nodes.iter() {
        match node {
            IndexNode::Group(g) => {
                assert_eq!(g.records.len(), g.last + 1);
                for r in g.records.iter() {
                    v.push((r.unpadded_sum, r.uncompressed_sum));
                }
            },
            IndexNode::Stream(_) => panic!("a stream among the groups"),
        }
    }
    v
}

fn stream_of(index: &LzmaIndex, k: usize) -> &IndexStream {
    match &index.streams.nodes[k] {
        IndexNode::Stream(s) => s,
        IndexNode::Group(_) => panic!("a group among the streams"),
    }
}

#[test]
fn unpadded_sums_round_up_to_four() {
    let mut index = LzmaIndex::new();
    assert_eq!(index.append(39, 1000), LzmaRet::LzmaOk);
    assert_eq!(index.append(57, 2000), LzmaRet::LzmaOk);
    assert_eq!(index.append(81, 3000), LzmaRet::LzmaOk);
    let recs = records_of(stream_of(&index, 0));
    assert_eq!(recs, vec![(39, 1000), (97, 3000), (181, 6000)]);
    assert_eq!(index.total(), 40 + 60 + 84);
    assert_eq!(index.total(), 184);
    assert_eq!(index.uncompressed(), 6000);
    assert_eq!(index.block_count(), 3);
    assert_eq!(index.streams_count(), 1);
    // The three records stand in one group, made for the usual number.
    let s = stream_of(&index, 0);
    assert_eq!(s.groups.nodes.len(), 1);
    let slot = match &s.groups.nodes[0] {
        IndexNode::Group(g) => Internal::Group(Box::new(g.clone())),
        IndexNode::Stream(_) => panic!("a stream among the groups"),
    };
    let group = slot.as_group().unwrap();
    assert_eq!((group.number_base, group.allocated, group.last), (0, INDEX_GROUP_SIZE, 2));
    assert_eq!(group.records.len(), 3);
    assert_eq!(group.records[0].unpadded_sum, 39);
    assert_eq!(group.records[1].unpadded_sum, 97);
    assert_eq!(group.records[2].unpadded_sum, 181);
}

#[test]
fn sums_rise_from_record_to_record() {
    let mut index = LzmaIndex::new();
    index.set_prealloc(3);
    let mut state = 99u32;
    for _ in 0..50 {
        state = state.wrapping_mul(1103515245).wrapping_add(12345);
        let unpadded = 5 + ((state >> 16) % 300) as u64;
        state = state.wrapping_mul(1103515245).wrapping_add(12345);
        let uncompressed = ((state >> 16) % 4) as u64 * 100;
        assert_eq!(index.append(unpadded, uncompressed), LzmaRet::LzmaOk);
    }
    let s = stream_of(&index, 0);
    // Groups of 3 and then of 512.
    assert_eq!(s.groups.nodes.len(), 2);
    let recs = records_of(s);
    assert_eq!(recs.len(), 50);
    for w in recs.windows(2) {
        assert!(w[1].0 > w[0].0);
        assert!(w[1].0 >= (w[0].0 + 3) / 4 * 4 + 5);
        assert!(w[1].1 >= w[0].1);
    }
}

#[test]
fn groups_fill_up_and_follow_each_other() {
    let mut index = LzmaIndex::new();
    index.set_prealloc(2);
    assert_eq!(index.prealloc, 2);
    for _ in 0..2 {
        assert_eq!(index.append(8, 10), LzmaRet::LzmaOk);
    }
    assert_eq!(index.prealloc, INDEX_GROUP_SIZE);
    assert_eq!(index.append(8, 10), LzmaRet::LzmaOk);
    let s = stream_of(&index, 0);
    assert_eq!(s.groups.nodes.len(), 2);
    match (&s.groups.nodes[0], &s.groups.nodes[1]) {
        (IndexNode::Group(a), IndexNode::Group(b)) => {
            assert_eq!((a.number_base, a.allocated, a.last), (0, 2, 1));
            assert_eq!((b.number_base, b.allocated, b.last), (2, 512, 0));
            assert_eq!(a.node.uncompressed_base, 0);
            assert_eq!(b.node.uncompressed_base, 20);
            assert_eq!(b.node.compressed_base, 16);
            assert_eq!(b.records[0].unpadded_sum, 24);
        },
        _ => panic!("not groups"),
    }
    index.set_prealloc(0);
    assert_eq!(index.prealloc, 1);
    index.set_prealloc(u64::MAX);
    assert_eq!(index.prealloc, 0x0FFF_FFFF);
}

#[test]
fn append_rejects_bad_sizes_and_changes_nothing() {
    let mut index = LzmaIndex::new();
    assert_eq!(index.append(4, 0), LzmaRet::ProgError);
    assert_eq!(index.append(UNPADDED_SIZE_MAX + 1, 0), LzmaRet::ProgError);
    assert_eq!(index.append(5, u64::MAX / 2 + 1), LzmaRet::ProgError);
    assert_eq!(index.block_count(), 0);
    assert_eq!(index.append(UNPADDED_SIZE_MIN, 0), LzmaRet::LzmaOk);
    // The file would pass the largest size.
    assert_eq!(index.append(UNPADDED_SIZE_MAX, 1), LzmaRet::DataError);
    // The uncompressed size would pass the largest size.
    assert_eq!(index.append(5, u64::MAX / 2), LzmaRet::LzmaOk);
    assert_eq!(index.append(5, 1), LzmaRet::DataError);
    assert_eq!(index.block_count(), 2);
    assert_eq!(index.uncompressed(), u64::MAX / 2);
    assert_eq!(index.total(), 16);
    assert_eq!(records_of(stream_of(&index, 0)), vec![(5, 0), (13, u64::MAX / 2)]);
}

#[test]
fn sizes_of_the_container() {
    assert_eq!(vli_ceil4(0), 0);
    assert_eq!(vli_ceil4(1), 4);
    assert_eq!(vli_ceil4(4), 4);
    assert_eq!(vli_ceil4(39), 40);
    assert_eq!(vli_ceil4(97), 100);
    assert_eq!(lzma_vli_size(0), 1);
    assert_eq!(lzma_vli_size(127), 1);
    assert_eq!(lzma_vli_size(128), 2);
    assert_eq!(lzma_vli_size(16383), 2);
    assert_eq!(lzma_vli_size(16384), 3);
    assert_eq!(lzma_vli_size(u64::MAX / 2), 9);
    assert_eq!(lzma_vli_size(u64::MAX / 2 + 1), 0);
    assert_eq!(lzma_vli_size(u64::MAX), 0);
    // Indicator, count, list, CRC32: 1 + 1 + 0 + 4 = 6, padded to 8.
    assert_eq!(index_size(0, 0), 8);
    assert_eq!(index_size(3, 6), 12);
    assert_eq!(index_size(200, 3), 12);
    // Header and footer 24, blocks 184, index 12.
    assert_eq!(index_file_size(0, 181, 3, 6, 0), 24 + 184 + 12);
    assert_eq!(index_file_size(1000, 181, 3, 6, 8), 1000 + 24 + 8 + 184 + 12);
    assert_eq!(index_file_size(u64::MAX / 2 - 100, 181, 3, 6, 0), u64::MAX);
}

fn two_streams() -> LzmaIndex {
    let mut index = LzmaIndex::new();
    assert_eq!(index.append(100, 1000), LzmaRet::LzmaOk);
    assert_eq!(index.append(200, 2000), LzmaRet::LzmaOk);
    assert_eq!(index.append(50, 500), LzmaRet::LzmaOk);
    assert_eq!(index.append_stream(), LzmaRet::LzmaOk);
    assert_eq!(index.append(500, 5000), LzmaRet::LzmaOk);
    index
}

#[test]
fn two_streams_are_visited_in_order() {
    let index = two_streams();
    assert_eq!(index.streams_count(), 2);
    assert_eq!(index.block_count(), 4);
    assert_eq!(index.uncompressed(), 8500);
    assert_eq!(index.total(), 100 + 200 + 52 + 500);
    // Stream 1: header 12, blocks 100 + 200 + 52, index 1 + 1 + 10 + 4 = 16, footer 12.
    let first_size = 12 + 352 + 16 + 12;
    assert_eq!(stream_of(&index, 1).node.compressed_base, first_size);
    assert_eq!(stream_of(&index, 1).node.uncompressed_base, 3500);
    assert_eq!(stream_of(&index, 1).block_number_base, 3);
    assert_eq!(stream_of(&index, 1).number, 2);
    assert_eq!(index.file_size(), first_size + 12 + 500 + 12 + 12);

    let mut iter = LzmaIndexIter::new();
    let mut seen = Vec::new();
    while !iter.next(&index, LzmaIndexIterMode::Any) {
        seen.push((
            iter.stream.number,
            iter.block.number_in_stream,
            iter.block.number_in_file,
            iter.block.unpadded_size,
            iter.block.uncompressed_size,
        ));
    }
    assert_eq!(
        seen,
        vec![(1, 1, 1, 100, 1000), (1, 2, 2, 200, 2000), (1, 3, 3, 50, 500), (2, 1, 4, 500, 5000)]
    );
    // At the end the iterator stays where it is.
    assert!(iter.next(&index, LzmaIndexIterMode::Any));
    assert_eq!(iter.block.number_in_file, 4);
}

#[test]
fn iterator_tells_offsets() {
    let index = two_streams();
    let mut iter = LzmaIndexIter::new();
    assert!(!iter.next(&index, LzmaIndexIterMode::Block));
    assert_eq!(
        iter.block,
        Block {
            number_in_file: 1,
            compressed_file_offset: 12,
            uncompressed_file_offset: 0,
            number_in_stream: 1,
            compressed_stream_offset: 12,
            uncompressed_stream_offset: 0,
            uncompressed_size: 1000,
            unpadded_size: 100,
            total_size: 100,
            reserved_vli1: 0,
            reserved_vli2: 0,
            reserved_vli3: 0,
            reserved_vli4: 0,
        }
    );
    assert_eq!(
        iter.stream,
        Stream {
            flags: None,
            number: 1,
            block_count: 3,
            compressed_offset: 0,
            uncompressed_offset: 0,
            compressed_size: 392,
            uncompressed_size: 3500,
            padding: 0,
            reserved_vli1: 0,
            reserved_vli2: 0,
            reserved_vli3: 0,
            reserved_vli4: 0,
        }
    );
    assert!(!iter.next(&index, LzmaIndexIterMode::Block));
    assert!(!iter.next(&index, LzmaIndexIterMode::Block));
    assert_eq!(iter.block.compressed_stream_offset, 12 + 300);
    assert_eq!(iter.block.uncompressed_stream_offset, 3000);
    assert_eq!(iter.block.unpadded_size, 50);
    assert_eq!(iter.block.total_size, 52);
    assert!(!iter.next(&index, LzmaIndexIterMode::Block));
    assert_eq!(iter.stream.number, 2);
    assert_eq!(iter.stream.compressed_offset, 392);
    assert_eq!(iter.stream.uncompressed_offset, 3500);
    assert_eq!(iter.block.compressed_file_offset, 392 + 12);
    assert_eq!(iter.block.uncompressed_file_offset, 3500);
    assert_eq!(iter.block.number_in_stream, 1);
    assert_eq!(iter.block.number_in_file, 4);
    assert!(iter.next(&index, LzmaIndexIterMode::Block));
    let mut iter = LzmaIndexIter::new();
    assert!(!iter.next(&index, LzmaIndexIterMode::Stream));
    assert_eq!(iter.stream.number, 1);
    assert!(!iter.next(&index, LzmaIndexIterMode::Stream));
    assert_eq!(iter.stream.number, 2);
    assert_eq!(iter.block.number_in_file, 4);
    assert!(iter.next(&index, LzmaIndexIterMode::Stream));
}

#[test]
fn locate_finds_the_block_of_an_offset() {
    let index = two_streams();
    let mut iter = LzmaIndexIter::new();
    // An offset inside block 2 of stream 1.
    assert!(!iter.locate(&index, 1500));
    assert_eq!(iter.stream.number, 1);
    assert_eq!(iter.block.number_in_stream, 2);
    assert_eq!(iter.block.number_in_file, 2);
    assert_eq!(iter.block.uncompressed_file_offset, 1000);
    assert_eq!(iter.block.uncompressed_size, 2000);
    assert_eq!(iter.here(), IterPos { stream: Some(0), group: Some(0), record: 1 });
    // The first block that ends at the offset or behind it.
    assert!(!iter.locate(&index, 0));
    assert_eq!(iter.block.number_in_file, 1);
    assert!(!iter.locate(&index, 1000));
    assert_eq!(iter.block.number_in_file, 1);
    assert!(!iter.locate(&index, 1001));
    assert_eq!(iter.block.number_in_file, 2);
    assert!(!iter.locate(&index, 3500));
    assert_eq!(iter.block.number_in_file, 3);
    assert!(!iter.locate(&index, 3501));
    assert_eq!(iter.block.number_in_file, 4);
    assert_eq!(iter.stream.number, 2);
    assert!(!iter.locate(&index, 8500));
    assert_eq!(iter.block.number_in_file, 4);
    // Behind the end of the file there is no block.
    assert!(iter.locate(&index, 8501));
    assert_eq!(iter.block.number_in_file, 4);
    let empty = LzmaIndex::new();
    let mut it = LzmaIndexIter::new();
    assert!(it.locate(&empty, 0));
}

#[test]
fn locate_across_many_groups() {
    let mut index = LzmaIndex::new();
    index.set_prealloc(4);
    let mut ends = Vec::new();
    let mut sum = 0u64;
    for k in 0..1500u64 {
        let size = (k * 7) % 13;
        sum += size;
        ends.push(sum);
        assert_eq!(index.append(5 + k % 9, size), LzmaRet::LzmaOk);
    }
    let mut iter = LzmaIndexIter::new();
    for target in [0u64, 1, 5, 6, 7, 100, 1234, sum / 2, sum - 1, sum] {
        assert!(!iter.locate(&index, target));
        let expect = ends.iter().position(|e| *e >= target).unwrap() as u64 + 1;
        assert_eq!(iter.block.number_in_file, expect, "target {}", target);
    }
    assert!(iter.locate(&index, sum + 1));
}

#[test]
fn modes_pass_over_empty_streams_and_blocks() {
    let mut index = LzmaIndex::new();
    // Stream 1 has no blocks.
    assert_eq!(index.append_stream(), LzmaRet::LzmaOk);
    assert_eq!(index.append(10, 0), LzmaRet::LzmaOk);
    assert_eq!(index.append(10, 7), LzmaRet::LzmaOk);
    assert_eq!(index.append_stream(), LzmaRet::LzmaOk);
    assert_eq!(index.append_stream(), LzmaRet::LzmaOk);
    assert_eq!(index.append(10, 0), LzmaRet::LzmaOk);

    let visit = |mode: LzmaIndexIterMode| {
        let mut iter = LzmaIndexIter::new();
        let mut seen = Vec::new();
        while !iter.next(&index, mode) {
            let p = iter.here();
            seen.push((iter.stream.number, p.group.map(|_| iter.block.number_in_file)));
        }
        seen
    };
    assert_eq!(
        visit(LzmaIndexIterMode::Any),
        vec![(1, None), (2, Some(1)), (2, Some(2)), (3, None), (4, Some(3))]
    );
    assert_eq!(
        visit(LzmaIndexIterMode::Stream),
        vec![(1, None), (2, Some(1)), (3, None), (4, Some(3))]
    );
    assert_eq!(visit(LzmaIndexIterMode::Block), vec![(2, Some(1)), (2, Some(2)), (4, Some(3))]);
    assert_eq!(visit(LzmaIndexIterMode::NonEmptyBlock), vec![(2, Some(2))]);
    // The first block of all is found from offset zero, past the empty stream.
    let mut iter = LzmaIndexIter::new();
    assert!(!iter.locate(&index, 0));
    assert_eq!(iter.stream.number, 2);
    assert_eq!(iter.block.number_in_file, 1);
}

#[test]
fn flags_padding_and_checks() {
    let mut index = LzmaIndex::new();
    assert_eq!(index.all_checks(), 0);
    let mut flags = LzmaStreamFlags::default();
    flags.check = LzmaCheck::Crc64;
    flags.backward_size = u64::MAX;
    assert_eq!(index.set_stream_flags(flags), LzmaRet::LzmaOk);
    assert_eq!(index.checks, 0);
    assert_eq!(index.all_checks(), 1 << 4);
    let mut bad = flags;
    bad.version = 1;
    assert_eq!(index.set_stream_flags(bad), LzmaRet::OptionsError);
    let mut odd = flags;
    odd.backward_size = 6;
    assert_eq!(index.set_stream_flags(odd), LzmaRet::ProgError);
    assert_eq!(index.set_stream_padding(3), LzmaRet::ProgError);
    assert_eq!(index.set_stream_padding(u64::MAX / 2 - 3), LzmaRet::DataError);
    assert_eq!(index.set_stream_padding(8), LzmaRet::LzmaOk);
    assert_eq!(index.file_size(), 12 + 8 + 12 + 8);
    assert_eq!(index.append_stream(), LzmaRet::LzmaOk);
    assert_eq!(index.checks, 1 << 4);
    assert_eq!(stream_of(&index, 1).node.compressed_base, 40);
    let mut sha = LzmaStreamFlags::default();
    sha.check = LzmaCheck::Sha256;
    sha.backward_size = 8;
    assert_eq!(index.set_stream_flags(sha), LzmaRet::LzmaOk);
    assert_eq!(index.all_checks(), (1 << 4) | (1 << 10));
    let mut iter = LzmaIndexIter::new();
    assert!(!iter.next(&index, LzmaIndexIterMode::Stream));
    assert_eq!(iter.stream.flags, Some(flags));
    assert_eq!(iter.stream.padding, 8);
    assert_eq!(LzmaStreamFlags::unknown().version, u32::MAX);
}

#[test]
fn iterator_slots() {
    let mut slots = InternalArray::new();
    for i in 0..6 {
        assert!(matches!(slots.get(i), Some(Internal::Empty)));
    }
    assert!(slots.get(6).is_none());
    assert_eq!(slots.set(2, Internal::Size(7)), Ok(()));
    assert_eq!(slots.set(3, Internal::Vli(9)), Ok(()));
    assert_eq!(slots.set(6, Internal::Size(1)), Err("Index out of bounds"));
    assert_eq!(slots.get(2).unwrap().as_size(), Some(7));
    assert_eq!(slots.get(2).unwrap().as_vli(), None);
    assert_eq!(slots.get(3).unwrap().as_vli(), Some(9));
    assert!(slots.get(3).unwrap().as_index().is_none());
    assert!(slots.get(3).unwrap().as_stream().is_none());
    assert!(slots.get(3).unwrap().as_group().is_none());
    let node = IndexTreeNode {
        uncompressed_base: 11,
        compressed_base: 22,
        parent: None,
        left: Some(1),
        right: None,
        height: 2,
    };
    assert_eq!(slots.set_tree_node(4, node), Ok(()));
    assert_eq!(slots.set_tree_node(9, node), Err("Index out of bounds"));
    let g = slots.get(4).unwrap().as_group().unwrap();
    assert_eq!(g.node, node);
    assert_eq!((g.number_base, g.allocated, g.last, g.records.len()), (0, 0, 0, 0));
    assert_eq!(slots.set(0, Internal::Index(Box::new(LzmaIndex::new()))), Ok(()));
    assert_eq!(slots.get(0).unwrap().as_index().unwrap().record_count, 0);
    assert_eq!(slots.set(1, Internal::Stream(Box::new(IndexStream::new(0, 0, 1, 0)))), Ok(()));
    assert_eq!(slots.get(1).unwrap().as_stream().unwrap().number, 1);
    assert!(matches!(Internal::default(), Internal::Empty));
    let it = LzmaIndexIter::default();
    assert_eq!(it.here(), IterPos { stream: None, group: None, record: 0 });
    assert_eq!(it.stream, Stream::default());
    assert_eq!(it.block, Block::default());
}

#[test]
fn iterator_only_goes_forward() {
    let index = two_streams();
    for mode in [
        LzmaIndexIterMode::Any,
        LzmaIndexIterMode::Stream,
        LzmaIndexIterMode::Block,
        LzmaIndexIterMode::NonEmptyBlock,
    ] {
        let mut iter = LzmaIndexIter::new();
        let mut before = (0u64, 0u64);
        let mut steps = 0;
        while !iter.next(&index, mode) {
            steps += 1;
            let now = (iter.stream.number, iter.block.number_in_file);
            assert!(now > before, "{:?} {:?}", before, now);
            before = now;
        }
        assert!(steps >= 2);
        // At the end the iterator stays where it is.
        assert!(iter.next(&index, mode));
        assert_eq!((iter.stream.number, iter.block.number_in_file), before);
    }
}

#[test]
fn copies_hold_the_same_and_go_their_own_way() {
    let mut index = two_streams();
    let copy = index.clone();
    assert_eq!(copy.streams_count(), 2);
    assert_eq!(copy.block_count(), 4);
    assert_eq!(copy.uncompressed(), 8500);
    assert_eq!(copy.file_size(), index.file_size());
    assert_eq!(records_of(stream_of(&copy, 0)), records_of(stream_of(&index, 0)));
    assert_eq!(records_of(stream_of(&copy, 1)), records_of(stream_of(&index, 1)));
    assert_eq!(copy.streams.root, index.streams.root);
    assert_eq!(copy.streams.rightmost, index.streams.rightmost);
    // The index grows; its copy does not.
    assert_eq!(index.append(60, 600), LzmaRet::LzmaOk);
    assert_eq!(index.block_count(), 5);
    assert_eq!(copy.block_count(), 4);
    assert_eq!(records_of(stream_of(&copy, 1)).len(), 1);

    // An iterator and its copy stand at the same place and move apart.
    let mut iter = LzmaIndexIter::new();
    assert!(!iter.next(&copy, LzmaIndexIterMode::Block));
    assert!(!iter.next(&copy, LzmaIndexIterMode::Block));
    let mut twin = iter.clone();
    assert_eq!(twin.here(), iter.here());
    assert_eq!(twin.block, iter.block);
    assert_eq!(twin.stream, iter.stream);
    assert!(!twin.next(&copy, LzmaIndexIterMode::Block));
    assert_eq!(twin.block.number_in_file, 3);
    assert_eq!(iter.block.number_in_file, 2);

    // Slots are copied with what they hold.
    let mut slots = InternalArray::new();
    assert_eq!(slots.set(0, Internal::Index(Box::new(two_streams()))), Ok(()));
    assert_eq!(slots.set(5, Internal::Vli(77)), Ok(()));
    let again = slots.clone();
    assert_eq!(again.get(0).unwrap().as_index().unwrap().record_count, 4);
    assert_eq!(again.get(5).unwrap().as_vli(), Some(77));
    assert!(matches!(again.get(1), Some(Internal::Empty)));
    let group = match &stream_of(&index, 0).groups.nodes[0] {
        IndexNode::Group(g) => g.clone(),
        IndexNode::Stream(_) => panic!("a stream among the groups"),
    };
    assert_eq!(group.last, 2);
    assert_eq!(group.records[2].unpadded_sum, 100 + 200 + 50);
}

#[test]
fn a_new_iterator_holds_nothing() {
    for iter in [LzmaIndexIter::new(), LzmaIndexIter::default()] {
        for i in 0..6 {
            assert!(matches!(iter.internal.get(i), Some(Internal::Empty)));
        }
        assert!(iter.internal.get(6).is_none());
        assert_eq!(iter.here(), IterPos { stream: None, group: None, record: 0 });
        assert_eq!(iter.stream, Stream::default());
        assert_eq!(iter.block, Block::default());
    }
}
