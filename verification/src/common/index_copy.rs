use vstd::prelude::*;
use crate::common::index::{
    blocks_size_upto, group_linked_at, group_of, groups_linked, list_size_upto,
    record_count_upto, records_upto, stream_linked_at, stream_of, streams_linked,
    uncompressed_size_upto,
};
use crate::common::index_tree::{
    lemma_subtree_frame, link, IndexGroup, IndexNode, IndexRecord, IndexStream, IndexTree,
    LzmaIndex,
};

verus! {

/// Two groups hold the same: the same links and numbers, and the same
/// records in the same order.
pub open spec fn group_alike(a: IndexGroup, b: IndexGroup) -> bool {
    &&& a.node == b.node
    &&& a.number_base == b.number_base
    &&& a.allocated == b.allocated
    &&& a.last == b.last
    &&& a.records@ == b.records@
}

/// Two trees hold the same: the same links, and node by node the same.
pub open spec fn tree_alike(a: IndexTree, b: IndexTree) -> bool
    decreases a,
{
    &&& a.root == b.root
    &&& a.leftmost == b.leftmost
    &&& a.rightmost == b.rightmost
    &&& a.count == b.count
    &&& a.nodes@.len() == b.nodes@.len()
    &&& forall|i: int| 0 <= i < a.nodes@.len() ==> node_alike(a.nodes@[i], #[trigger] b.nodes@[i])
}

/// Two nodes hold the same.
pub open spec fn node_alike(a: IndexNode, b: IndexNode) -> bool
    decreases a,
{
    match (a, b) {
        (IndexNode::Stream(s), IndexNode::Stream(t)) => stream_alike(s, t),
        (IndexNode::Group(g), IndexNode::Group(h)) => group_alike(g, h),
        _ => false,
    }
}

/// Two streams hold the same: the same numbers and flags, and groups
/// that hold the same.
pub open spec fn stream_alike(a: IndexStream, b: IndexStream) -> bool
    decreases a,
{
    &&& a.node == b.node
    &&& a.number == b.number
    &&& a.block_number_base == b.block_number_base
    &&& a.record_count == b.record_count
    &&& a.index_list_size == b.index_list_size
    &&& a.stream_flags == b.stream_flags
    &&& a.stream_padding == b.stream_padding
    &&& tree_alike(a.groups, b.groups)
}

/// Two indexes hold the same: the same totals, and streams that hold
/// the same.
pub open spec fn index_alike(a: LzmaIndex, b: LzmaIndex) -> bool {
    &&& tree_alike(a.streams, b.streams)
    &&& a.uncompressed_size == b.uncompressed_size
    &&& a.total_size == b.total_size
    &&& a.record_count == b.record_count
    &&& a.index_list_size == b.index_list_size
    &&& a.prealloc == b.prealloc
    &&& a.checks == b.checks
}

/// Copies the records one by one.
pub fn copy_records(src: &Vec<IndexRecord>) -> (dst: Vec<IndexRecord>)
    ensures
        dst@ == src@,
{
    let mut dst: Vec<IndexRecord> = Vec::new();
    let mut i: usize = 0;
    while i < src.len()
        invariant
            i <= src@.len(),
            dst@ == src@.take(i as int),
        decreases src@.len() - i,
    {
        dst.push(src[i]);
        i += 1;
        assert(dst@ =~= src@.take(i as int));
    }
    assert(src@.take(src@.len() as int) =~= src@);
    dst
}

/// Copies a group with its records.
pub fn copy_group(g: &IndexGroup) -> (c: IndexGroup)
    ensures
        group_alike(*g, c),
{
    IndexGroup {
        node: g.node,
        number_base: g.number_base,
        allocated: g.allocated,
        last: g.last,
        records: copy_records(&g.records),
    }
}

/// Copies a node with all that it holds.
pub fn copy_node(n: &IndexNode) -> (c: IndexNode)
    ensures
        node_alike(*n, c),
    decreases *n,
{
    match n {
        IndexNode::Stream(s) => IndexNode::Stream(copy_stream(s)),
        IndexNode::Group(g) => IndexNode::Group(copy_group(g)),
    }
}

/// Copies a stream with its groups.
pub fn copy_stream(s: &IndexStream) -> (c: IndexStream)
    ensures
        stream_alike(*s, c),
    decreases *s,
{
    IndexStream {
        node: s.node,
        number: s.number,
        block_number_base: s.block_number_base,
        groups: copy_tree(&s.groups),
        record_count: s.record_count,
        index_list_size: s.index_list_size,
        stream_flags: s.stream_flags,
        stream_padding: s.stream_padding,
    }
}

/// Copies a tree node by node; the links, which are places in the
/// tree's vector, hold in the copy as they stand.
pub fn copy_tree(t: &IndexTree) -> (c: IndexTree)
    ensures
        tree_alike(*t, c),
    decreases *t,
{
    let mut nodes: Vec<IndexNode> = Vec::new();
    let mut i: usize = 0;
    while i < t.nodes.len()
        invariant
            i <= t.nodes@.len(),
            nodes@.len() == i,
            forall|k: int| 0 <= k < i ==> node_alike(t.nodes@[k], #[trigger] nodes@[k]),
        decreases t.nodes@.len() - i,
    {
        let node = copy_node(&t.nodes[i]);
        nodes.push(node);
        i += 1;
    }
    IndexTree { nodes, root: t.root, leftmost: t.leftmost, rightmost: t.rightmost, count: t.count }
}

/// Copies an index with all its streams.
pub fn copy_index(index: &LzmaIndex) -> (c: LzmaIndex)
    ensures
        index_alike(*index, c),
        index.wf() ==> c.wf(),
{
    let c = LzmaIndex {
        streams: copy_tree(&index.streams),
        uncompressed_size: index.uncompressed_size,
        total_size: index.total_size,
        record_count: index.record_count,
        index_list_size: index.index_list_size,
        prealloc: index.prealloc,
        checks: index.checks,
    };
    proof {
        if index.wf() {
            lemma_alike_index(*index, c);
        }
    }
    c
}

/// Node by node the two vectors hold the same.
pub open spec fn nodes_alike(a: Seq<IndexNode>, b: Seq<IndexNode>) -> bool {
    &&& a.len() == b.len()
    &&& forall|i: int| 0 <= i < a.len() ==> node_alike(a[i], #[trigger] b[i])
}

/// A tree that holds the same as a well-formed tree is well-formed.
proof fn lemma_alike_tree(a: IndexTree, b: IndexTree)
    requires
        tree_alike(a, b),
        a.wf(),
    ensures
        b.wf(),
        nodes_alike(a.nodes@, b.nodes@),
{
    assert forall|k: int| 0 <= k < b.nodes@.len() implies link(#[trigger] b.nodes@[k]) == link(
        a.nodes@[k],
    ) by {
        assert(node_alike(a.nodes@[k], b.nodes@[k]));
    }
    lemma_subtree_frame(a.nodes@, b.nodes@, a.root, None, 0, a.nodes@.len() as int);
}

/// A group that holds the same as a well-formed group is well-formed.
proof fn lemma_alike_group(g: IndexGroup, h: IndexGroup)
    requires
        group_alike(g, h),
        g.wf(),
    ensures
        h.wf(),
{
    assert forall|r: int| 0 <= r <= h.last implies #[trigger] h.record_follows(r) by {
        assert(g.record_follows(r));
    }
}

/// Groups that hold the same as groups that follow each other follow
/// each other, and have the same records.
proof fn lemma_alike_groups(a: Seq<IndexNode>, b: Seq<IndexNode>)
    requires
        nodes_alike(a, b),
        groups_linked(a),
    ensures
        groups_linked(b),
        forall|n: nat| n <= a.len() ==> #[trigger] records_upto(b, n) == records_upto(a, n),
{
    assert forall|k: int| 0 <= k < b.len() implies #[trigger] group_linked_at(b, k) by {
        assert(group_linked_at(a, k));
        assert(node_alike(a[k], b[k]));
        lemma_alike_group(group_of(a[k]), group_of(b[k]));
        if k > 0 {
            assert(group_linked_at(a, k - 1));
            assert(node_alike(a[k - 1], b[k - 1]));
        }
    }
    assert forall|n: nat| n <= a.len() implies #[trigger] records_upto(b, n) == records_upto(
        a,
        n,
    ) by {
        lemma_alike_records(a, b, n);
    }
}

/// Groups that hold the same have the same records.
proof fn lemma_alike_records(a: Seq<IndexNode>, b: Seq<IndexNode>, n: nat)
    requires
        nodes_alike(a, b),
        groups_linked(a),
        n <= a.len(),
    ensures
        records_upto(b, n) == records_upto(a, n),
    decreases n,
{
    if n > 0 {
        lemma_alike_records(a, b, (n - 1) as nat);
        assert(group_linked_at(a, n - 1));
        assert(node_alike(a[n - 1], b[n - 1]));
    }
}

/// A copy of a stream serves as the stream does: one that holds the
/// same as a well-formed stream is well-formed, with the same records
/// and the same sizes.
pub proof fn lemma_alike_stream(s: IndexStream, t: IndexStream)
    requires
        stream_alike(s, t),
        s.wf(),
    ensures
        t.wf(),
        t.records() == s.records(),
        t.uncompressed_size() == s.uncompressed_size(),
        t.unpadded_sum() == s.unpadded_sum(),
        t.file_size() == s.file_size(),
{
    lemma_alike_tree(s.groups, t.groups);
    lemma_alike_groups(s.groups.nodes@, t.groups.nodes@);
    let n = s.groups.nodes@.len() as int;
    if n > 0 {
        assert(group_linked_at(s.groups.nodes@, n - 1));
        assert(node_alike(s.groups.nodes@[n - 1], t.groups.nodes@[n - 1]));
    }
    assert(records_upto(t.groups.nodes@, n as nat) == records_upto(s.groups.nodes@, n as nat));
}

/// Streams that hold the same have the same sums.
proof fn lemma_alike_sums(a: Seq<IndexNode>, b: Seq<IndexNode>, n: nat)
    requires
        nodes_alike(a, b),
        streams_linked(a),
        n <= a.len(),
    ensures
        uncompressed_size_upto(b, n) == uncompressed_size_upto(a, n),
        blocks_size_upto(b, n) == blocks_size_upto(a, n),
        record_count_upto(b, n) == record_count_upto(a, n),
        list_size_upto(b, n) == list_size_upto(a, n),
    decreases n,
{
    if n > 0 {
        lemma_alike_sums(a, b, (n - 1) as nat);
        assert(stream_linked_at(a, n - 1));
        assert(node_alike(a[n - 1], b[n - 1]));
        lemma_alike_stream(stream_of(a[n - 1]), stream_of(b[n - 1]));
    }
}

/// A copy of an index serves as the index does: one that holds the same
/// as a well-formed index is well-formed, and has stream by stream the
/// same records.
pub proof fn lemma_alike_index(a: LzmaIndex, b: LzmaIndex)
    requires
        index_alike(a, b),
        a.wf(),
    ensures
        b.wf(),
        b.stream_count() == a.stream_count(),
        forall|k: int|
            0 <= k < a.stream_count() ==> #[trigger] b.stream(k).records() == a.stream(k).records(),
{
    lemma_alike_tree(a.streams, b.streams);
    let x = a.streams.nodes@;
    let y = b.streams.nodes@;
    assert forall|k: int| 0 <= k < y.len() implies #[trigger] stream_linked_at(y, k) by {
        assert(stream_linked_at(x, k));
        assert(node_alike(x[k], y[k]));
        lemma_alike_stream(stream_of(x[k]), stream_of(y[k]));
        if k > 0 {
            assert(stream_linked_at(x, k - 1));
            assert(node_alike(x[k - 1], y[k - 1]));
            lemma_alike_stream(stream_of(x[k - 1]), stream_of(y[k - 1]));
        }
    }
    lemma_alike_sums(x, y, x.len());
    let m = x.len() as int;
    assert(stream_linked_at(x, m - 1));
    assert(node_alike(x[m - 1], y[m - 1]));
    lemma_alike_stream(stream_of(x[m - 1]), stream_of(y[m - 1]));
    assert forall|k: int| 0 <= k < a.stream_count() implies #[trigger] b.stream(k).records()
        == a.stream(k).records() by {
        assert(stream_linked_at(x, k));
        assert(node_alike(x[k], y[k]));
        lemma_alike_stream(stream_of(x[k]), stream_of(y[k]));
    }
}

impl Clone for IndexGroup {
    fn clone(&self) -> (c: IndexGroup)
        ensures
            group_alike(*self, c),
    {
        copy_group(self)
    }
}

impl Clone for IndexStream {
    fn clone(&self) -> (c: IndexStream)
        ensures
            stream_alike(*self, c),
    {
        copy_stream(self)
    }
}

impl Clone for IndexTree {
    fn clone(&self) -> (c: IndexTree)
        ensures
            tree_alike(*self, c),
    {
        copy_tree(self)
    }
}

impl Clone for LzmaIndex {
    fn clone(&self) -> (c: LzmaIndex)
        ensures
            index_alike(*self, c),
            self.wf() ==> c.wf(),
    {
        copy_index(self)
    }
}

} // verus!
