use vstd::prelude::*;
use crate::api::stream_flags::LzmaStreamFlags;
use crate::api::vli::LzmaVli;

verus! {

/// The links of a tree node and the offsets at which its stream or group
/// starts. A tree keeps its nodes in one vector, in the order in which
/// they were appended, and a link is an index into that vector; the
/// link to the parent owns nothing.
#[derive(Clone, Copy, Debug, PartialEq, Eq, Structural)]
pub struct IndexTreeNode {
    /// Uncompressed start offset of this stream (in the file) or of this
    /// group (in its stream).
    pub uncompressed_base: LzmaVli,
    /// Compressed start offset of this stream or group.
    pub compressed_base: LzmaVli,
    pub parent: Option<usize>,
    pub left: Option<usize>,
    pub right: Option<usize>,
    /// Height of the subtree below this node, the node counted.
    pub height: u32,
}

/// The sizes of the blocks up to and with one block, summed from the
/// start of the stream.
#[derive(Clone, Copy, Debug, PartialEq, Eq, Structural)]
pub struct IndexRecord {
    pub uncompressed_sum: LzmaVli,
    /// Before a block's unpadded size is added, the sum so far is
    /// rounded up to a multiple of four.
    pub unpadded_sum: LzmaVli,
}

/// A group of records: a node of a stream's tree of groups.
#[derive(Debug)]
pub struct IndexGroup {
    pub node: IndexTreeNode,
    /// Number of blocks of the stream before this group.
    pub number_base: LzmaVli,
    /// Number of records that the group can hold.
    pub allocated: usize,
    /// Index of the last record in use.
    pub last: usize,
    pub records: Vec<IndexRecord>,
}

/// One stream: a node of the index's tree of streams.
#[derive(Debug)]
pub struct IndexStream {
    pub node: IndexTreeNode,
    /// Number of this stream; the first is 1.
    pub number: u32,
    /// Number of blocks in the streams before this one.
    pub block_number_base: LzmaVli,
    /// The groups of records of this stream.
    pub groups: IndexTree,
    /// Number of records of this stream.
    pub record_count: LzmaVli,
    /// Size of the list of records in the stream's index field.
    pub index_list_size: LzmaVli,
    /// Flags of the stream; the version `u32::MAX` stands for "not
    /// known".
    pub stream_flags: LzmaStreamFlags,
    /// Size of the padding behind the stream.
    pub stream_padding: LzmaVli,
}

/// A node of a tree: a stream in the index's tree, a group in a
/// stream's.
#[derive(Debug)]
pub enum IndexNode {
    Stream(IndexStream),
    Group(IndexGroup),
}

/// AVL tree of streams or of groups, filled by appending only.
#[derive(Debug)]
pub struct IndexTree {
    /// The nodes, in the order in which they were appended.
    pub nodes: Vec<IndexNode>,
    pub root: Option<usize>,
    /// The first node in order.
    pub leftmost: Option<usize>,
    /// The last node in order: new nodes go behind it.
    pub rightmost: Option<usize>,
    /// Number of nodes.
    pub count: u32,
}

/// The index of a file: its streams and the totals over them.
#[derive(Debug)]
pub struct LzmaIndex {
    pub streams: IndexTree,
    /// Uncompressed size of all blocks.
    pub uncompressed_size: LzmaVli,
    /// Total size of all blocks.
    pub total_size: LzmaVli,
    /// Number of records in all streams.
    pub record_count: LzmaVli,
    /// Size of the list of records, were all streams one.
    pub index_list_size: LzmaVli,
    /// Number of records that the next new group is made for.
    pub prealloc: usize,
    /// Bit set of the kinds of check seen, the last stream left out.
    pub checks: u32,
}

/// The links of a node.
pub open spec fn link(n: IndexNode) -> IndexTreeNode {
    match n {
        IndexNode::Stream(s) => s.node,
        IndexNode::Group(g) => g.node,
    }
}

/// The node `n` with the links `l`.
pub open spec fn relinked(n: IndexNode, l: IndexTreeNode) -> IndexNode {
    match n {
        IndexNode::Stream(s) => IndexNode::Stream(IndexStream { node: l, ..s }),
        IndexNode::Group(g) => IndexNode::Group(IndexGroup { node: l, ..g }),
    }
}

/// Two nodes hold the same, whatever their places in the tree: they
/// differ at most in `parent`, `left`, `right` and `height`.
pub open spec fn same_content(a: IndexNode, b: IndexNode) -> bool {
    a == relinked(
        b,
        IndexTreeNode {
            uncompressed_base: link(b).uncompressed_base,
            compressed_base: link(b).compressed_base,
            ..link(a)
        },
    )
}

/// Height of the subtree that the link `r` leads to.
pub open spec fn height_at(nodes: Seq<IndexNode>, r: Option<usize>) -> int {
    match r {
        Some(i) => link(nodes[i as int]).height as int,
        None => 0,
    }
}

/// The link `r` leads to an AVL tree of exactly the nodes `lo` up to
/// `hi`, in that order, below the parent `p`: the root lies in the
/// range, everything before it is its left subtree and everything
/// behind it its right subtree, its height is one more than the higher
/// of the two, and the two heights differ by one at most.
pub open spec fn subtree(nodes: Seq<IndexNode>, r: Option<usize>, p: Option<usize>, lo: int, hi: int) -> bool
    decreases hi - lo,
{
    match r {
        None => lo == hi,
        Some(i) => {
            &&& 0 <= lo <= i < hi <= nodes.len()
            &&& link(nodes[i as int]).parent == p
            &&& subtree(nodes, link(nodes[i as int]).left, Some(i), lo, i as int)
            &&& subtree(nodes, link(nodes[i as int]).right, Some(i), i + 1, hi)
            &&& link(nodes[i as int]).height == 1 + vstd::math::max(
                height_at(nodes, link(nodes[i as int]).left),
                height_at(nodes, link(nodes[i as int]).right),
            )
            &&& height_at(nodes, link(nodes[i as int]).left) - height_at(
                nodes,
                link(nodes[i as int]).right,
            ) <= 1
            &&& height_at(nodes, link(nodes[i as int]).right) - height_at(
                nodes,
                link(nodes[i as int]).left,
            ) <= 1
            &&& link(nodes[i as int]).height <= hi - lo
        },
    }
}

/// The start offsets never fall from one node to the next.
pub open spec fn bases_sorted(nodes: Seq<IndexNode>) -> bool {
    forall|i: int, j: int|
        0 <= i <= j < nodes.len() ==> link(nodes[i]).uncompressed_base <= link(
            nodes[j],
        ).uncompressed_base
}

impl IndexTree {
    /// The tree is an AVL tree of all its nodes in the order of
    /// appending, `leftmost` and `rightmost` are its first and last
    /// node, and `count` is their number.
    pub open spec fn wf(self) -> bool {
        &&& self.count == self.nodes@.len()
        &&& subtree(self.nodes@, self.root, None, 0, self.nodes@.len() as int)
        &&& self.leftmost == (if self.nodes@.len() == 0 {
            None
        } else {
            Some(0usize)
        })
        &&& self.rightmost == (if self.nodes@.len() == 0 {
            None
        } else {
            Some((self.nodes@.len() - 1) as usize)
        })
    }
}

/// A subtree is made of the nodes of its range alone: where two vectors
/// agree on the links of the nodes from `lo` up to `hi`, the same link
/// leads to a subtree in both or in neither.
pub proof fn lemma_subtree_frame(a: Seq<IndexNode>, b: Seq<IndexNode>, r: Option<usize>, p: Option<
    usize,
>, lo: int, hi: int)
    requires
        subtree(a, r, p, lo, hi),
        hi <= b.len(),
        forall|k: int| lo <= k < hi ==> link(#[trigger] b[k]) == link(a[k]),
    ensures
        subtree(b, r, p, lo, hi),
        height_at(b, r) == height_at(a, r),
    decreases hi - lo,
{
    match r {
        None => {},
        Some(i) => {
            let n = link(a[i as int]);
            assert(link(b[i as int]) == n);
            lemma_subtree_frame(a, b, n.left, Some(i), lo, i as int);
            lemma_subtree_frame(a, b, n.right, Some(i), i + 1, hi);
        },
    }
}

/// A subtree that is there has its root in its range; one that is not
/// has an empty range.
pub proof fn lemma_subtree_root(nodes: Seq<IndexNode>, r: Option<usize>, p: Option<usize>, lo: int, hi: int)
    requires
        subtree(nodes, r, p, lo, hi),
    ensures
        r is None <==> lo == hi,
        r is Some ==> lo <= r->0 < hi <= nodes.len() && link(nodes[r->0 as int]).height >= 1,
        0 <= height_at(nodes, r) <= hi - lo,
        lo <= hi,
{
}

/// A subtree stays one below another parent, once its root says so.
pub proof fn lemma_subtree_reparent(a: Seq<IndexNode>, b: Seq<IndexNode>, x: usize, p: Option<usize>, q: Option<
    usize,
>, lo: int, hi: int)
    requires
        subtree(a, Some(x), p, lo, hi),
        hi <= b.len(),
        forall|k: int| lo <= k < hi && k != x ==> link(#[trigger] b[k]) == link(a[k]),
        link(b[x as int]) == (IndexTreeNode { parent: q, ..link(a[x as int]) }),
    ensures
        subtree(b, Some(x), q, lo, hi),
        height_at(b, Some(x)) == height_at(a, Some(x)),
{
    let n = link(a[x as int]);
    lemma_subtree_frame(a, b, n.left, Some(x), lo, x as int);
    lemma_subtree_frame(a, b, n.right, Some(x), x + 1, hi);
}

/// The links of the node `i`.
pub fn node_link(nodes: &Vec<IndexNode>, i: usize) -> (l: IndexTreeNode)
    requires
        i < nodes@.len(),
    ensures
        l == link(nodes@[i as int]),
{
    match &nodes[i] {
        IndexNode::Stream(s) => s.node,
        IndexNode::Group(g) => g.node,
    }
}

/// Gives the node `i` the links `l`.
pub fn set_link(nodes: &mut Vec<IndexNode>, i: usize, l: IndexTreeNode)
    requires
        i < old(nodes)@.len(),
    ensures
        final(nodes)@ == old(nodes)@.update(i as int, relinked(old(nodes)@[i as int], l)),
        link(final(nodes)@[i as int]) == l,
{
    match &mut nodes[i] {
        IndexNode::Stream(s) => {
            s.node = l;
        },
        IndexNode::Group(g) => {
            g.node = l;
        },
    }
    assert(nodes@ =~= old(nodes)@.update(i as int, relinked(old(nodes)@[i as int], l)));
}

/// Height of the subtree that the link `r` leads to.
fn link_height(nodes: &Vec<IndexNode>, r: Option<usize>) -> (h: u32)
    requires
        r is Some ==> r->0 < nodes@.len(),
    ensures
        h == height_at(nodes@, r),
{
    match r {
        Some(i) => node_link(nodes, i).height,
        None => 0,
    }
}

/// Every node holds what it held, whatever became of its links.
pub open spec fn contents_kept(before: Seq<IndexNode>, after: Seq<IndexNode>) -> bool {
    &&& after.len() == before.len()
    &&& forall|k: int| 0 <= k < before.len() ==> same_content(#[trigger] after[k], before[k])
}

/// Hangs the last node of `nodes`, a fresh leaf, to the right of the
/// node `r`, which has no right child.
fn hang_leaf(nodes: &mut Vec<IndexNode>, r: usize, p: Option<usize>, Ghost(lo): Ghost<int>)
    requires
        old(nodes)@.len() >= 1,
        old(nodes)@.len() <= u32::MAX,
        subtree(old(nodes)@, Some(r), p, lo, old(nodes)@.len() - 1),
        link(old(nodes)@[r as int]).right is None,
        link(old(nodes)@.last()).left is None,
        link(old(nodes)@.last()).right is None,
        link(old(nodes)@.last()).height == 1,
    ensures
        subtree(final(nodes)@, Some(r), p, lo, final(nodes)@.len() as int),
        contents_kept(old(nodes)@, final(nodes)@),
        forall|k: int| 0 <= k < lo ==> final(nodes)@[k] == old(nodes)@[k],
        height_at(final(nodes)@, Some(r)) == height_at(old(nodes)@, Some(r)) || (height_at(
            final(nodes)@,
            Some(r),
        ) == height_at(old(nodes)@, Some(r)) + 1 && height_at(
            final(nodes)@,
            link(final(nodes)@[r as int]).right,
        ) == height_at(final(nodes)@, link(final(nodes)@[r as int]).left) + 1),
{
    let ghost before = nodes@;
    let new: usize = nodes.len() - 1;
    let l: IndexTreeNode = node_link(nodes, r);
    proof {
        lemma_subtree_root(before, l.left, Some(r), lo, r as int);
        lemma_subtree_root(before, l.right, Some(r), r + 1, new as int);
    }
    let leaf: IndexTreeNode = node_link(nodes, new);
    set_link(nodes, new, IndexTreeNode { parent: Some(r), ..leaf });
    let hl: u32 = link_height(nodes, l.left);
    let h: u32 = if hl > 1 {
        hl + 1
    } else {
        2
    };
    set_link(nodes, r, IndexTreeNode { right: Some(new), height: h, ..l });
    proof {
        lemma_subtree_frame(before, nodes@, l.left, Some(r), lo, r as int);
        assert(subtree(nodes@, None, Some(new), new as int, new as int));
        assert(subtree(nodes@, None, Some(new), new + 1, new + 1));
        assert(subtree(nodes@, Some(new), Some(r), r + 1, new + 1));
    }
}

/// Hangs the subtree at `c`, which holds everything behind the node
/// `r`, to the right of `r`: the two are in balance.
fn hang_right(nodes: &mut Vec<IndexNode>, r: usize, c: usize, p: Option<usize>, Ghost(lo): Ghost<int>)
    requires
        old(nodes)@.len() <= u32::MAX,
        0 <= lo <= r < c < old(nodes)@.len(),
        link(old(nodes)@[r as int]).parent == p,
        subtree(old(nodes)@, link(old(nodes)@[r as int]).left, Some(r), lo, r as int),
        subtree(old(nodes)@, Some(c), Some(r), r + 1, old(nodes)@.len() as int),
        -1 <= height_at(old(nodes)@, Some(c)) - height_at(
            old(nodes)@,
            link(old(nodes)@[r as int]).left,
        ) <= 1,
    ensures
        subtree(final(nodes)@, Some(r), p, lo, final(nodes)@.len() as int),
        contents_kept(old(nodes)@, final(nodes)@),
        forall|k: int| 0 <= k < lo ==> final(nodes)@[k] == old(nodes)@[k],
        height_at(final(nodes)@, Some(r)) == 1 + vstd::math::max(
            height_at(old(nodes)@, Some(c)),
            height_at(old(nodes)@, link(old(nodes)@[r as int]).left),
        ),
        link(final(nodes)@[r as int]).right == Some(c),
        link(final(nodes)@[r as int]).left == link(old(nodes)@[r as int]).left,
        height_at(final(nodes)@, Some(c)) == height_at(old(nodes)@, Some(c)),
        height_at(final(nodes)@, link(old(nodes)@[r as int]).left) == height_at(
            old(nodes)@,
            link(old(nodes)@[r as int]).left,
        ),
{
    let ghost before = nodes@;
    let l: IndexTreeNode = node_link(nodes, r);
    proof {
        lemma_subtree_root(before, l.left, Some(r), lo, r as int);
        lemma_subtree_root(before, Some(c), Some(r), r + 1, before.len() as int);
    }
    let hl: u32 = link_height(nodes, l.left);
    let hr: u32 = link_height(nodes, Some(c));
    let h: u32 = if hl > hr {
        hl + 1
    } else {
        hr + 1
    };
    set_link(nodes, r, IndexTreeNode { right: Some(c), height: h, ..l });
    proof {
        lemma_subtree_frame(before, nodes@, l.left, Some(r), lo, r as int);
        lemma_subtree_frame(before, nodes@, Some(c), Some(r), r + 1, before.len() as int);
    }
}

/// Rotates to the left at the node `r`, whose right side, the subtree
/// at `c`, is two higher than its left side and leans to the right: `c`
/// becomes the root, `r` its left child, and what was to the left of
/// `c` goes to the right of `r`.
fn rotate_left(nodes: &mut Vec<IndexNode>, r: usize, c: usize, p: Option<usize>, Ghost(lo): Ghost<int>)
    requires
        old(nodes)@.len() <= u32::MAX,
        0 <= lo <= r < c < old(nodes)@.len(),
        subtree(old(nodes)@, link(old(nodes)@[r as int]).left, Some(r), lo, r as int),
        subtree(old(nodes)@, Some(c), Some(r), r + 1, old(nodes)@.len() as int),
        height_at(old(nodes)@, Some(c)) == height_at(old(nodes)@, link(old(nodes)@[r as int]).left)
            + 2,
        height_at(old(nodes)@, link(old(nodes)@[c as int]).right) == height_at(
            old(nodes)@,
            link(old(nodes)@[c as int]).left,
        ) + 1,
    ensures
        subtree(final(nodes)@, Some(c), p, lo, final(nodes)@.len() as int),
        contents_kept(old(nodes)@, final(nodes)@),
        forall|k: int| 0 <= k < lo ==> final(nodes)@[k] == old(nodes)@[k],
        height_at(final(nodes)@, Some(c)) == height_at(old(nodes)@, Some(c)),
{
    let ghost before = nodes@;
    let ghost n = before.len() as int;
    let l: IndexTreeNode = node_link(nodes, r);
    let pivot: IndexTreeNode = node_link(nodes, c);
    proof {
        lemma_subtree_root(before, l.left, Some(r), lo, r as int);
        lemma_subtree_root(before, pivot.left, Some(c), r + 1, c as int);
        lemma_subtree_root(before, pivot.right, Some(c), c + 1, n);
    }
    let hl: u32 = link_height(nodes, l.left);
    let hcl: u32 = link_height(nodes, pivot.left);
    let hcr: u32 = link_height(nodes, pivot.right);
    match pivot.left {
        Some(x) => {
            let xl: IndexTreeNode = node_link(nodes, x);
            set_link(nodes, x, IndexTreeNode { parent: Some(r), ..xl });
            proof {
                lemma_subtree_reparent(before, nodes@, x, Some(c), Some(r), r + 1, c as int);
            }
        },
        None => {},
    }
    let ghost mid = nodes@;
    assert(subtree(mid, pivot.left, Some(r), r + 1, c as int));
    assert(height_at(mid, pivot.left) == hcl);
    let hq: u32 = hcl + 1;
    set_link(nodes, r, IndexTreeNode { parent: Some(c), right: pivot.left, height: hq, ..l });
    let hc: u32 = hq + 1;
    set_link(nodes, c, IndexTreeNode { parent: p, left: Some(r), height: hc, ..pivot });
    proof {
        lemma_subtree_frame(before, nodes@, l.left, Some(r), lo, r as int);
        lemma_subtree_frame(mid, nodes@, pivot.left, Some(r), r + 1, c as int);
        lemma_subtree_frame(before, nodes@, pivot.right, Some(c), c + 1, n);
        assert(subtree(nodes@, Some(r), Some(c), lo, c as int));
    }
}

/// Hangs the last node of `nodes`, a fresh leaf, behind the subtree at
/// `r`, which holds the nodes from `lo` up to it, and restores the
/// balance with a left rotation where the right side has grown too
/// high. Returns the root of the subtree, which now holds the leaf too.
fn append_below(nodes: &mut Vec<IndexNode>, r: usize, p: Option<usize>, Ghost(lo): Ghost<int>) -> (root:
    usize)
    requires
        old(nodes)@.len() >= 1,
        old(nodes)@.len() <= u32::MAX,
        subtree(old(nodes)@, Some(r), p, lo, old(nodes)@.len() - 1),
        link(old(nodes)@.last()).left is None,
        link(old(nodes)@.last()).right is None,
        link(old(nodes)@.last()).height == 1,
    ensures
        subtree(final(nodes)@, Some(root), p, lo, final(nodes)@.len() as int),
        contents_kept(old(nodes)@, final(nodes)@),
        forall|k: int| 0 <= k < lo ==> final(nodes)@[k] == old(nodes)@[k],
        height_at(final(nodes)@, Some(root)) == height_at(old(nodes)@, Some(r)) || (height_at(
            final(nodes)@,
            Some(root),
        ) == height_at(old(nodes)@, Some(r)) + 1 && height_at(
            final(nodes)@,
            link(final(nodes)@[root as int]).right,
        ) == height_at(final(nodes)@, link(final(nodes)@[root as int]).left) + 1),
    decreases old(nodes)@.len() - lo,
{
    let ghost before = nodes@;
    let ghost n = before.len() as int;
    let l: IndexTreeNode = node_link(nodes, r);
    proof {
        lemma_subtree_root(before, l.left, Some(r), lo, r as int);
        lemma_subtree_root(before, l.right, Some(r), r + 1, n - 1);
    }
    match l.right {
        None => {
            hang_leaf(nodes, r, p, Ghost(lo));
            r
        },
        Some(c) => {
            let c2: usize = append_below(nodes, c, Some(r), Ghost(r + 1));
            let ghost mid = nodes@;
            proof {
                lemma_subtree_frame(before, mid, l.left, Some(r), lo, r as int);
                lemma_subtree_root(mid, Some(c2), Some(r), r + 1, n);
                assert(mid[r as int] == before[r as int]);
            }
            let hl: u32 = link_height(nodes, l.left);
            let hr: u32 = link_height(nodes, Some(c2));
            if hr > hl + 1 {
                rotate_left(nodes, r, c2, p, Ghost(lo));
                proof {
                    assert forall|k: int| 0 <= k < before.len() implies same_content(
                        #[trigger] nodes@[k],
                        before[k],
                    ) by {
                        assert(same_content(mid[k], before[k]));
                        assert(same_content(nodes@[k], mid[k]));
                    }
                }
                c2
            } else {
                hang_right(nodes, r, c2, p, Ghost(lo));
                proof {
                    assert forall|k: int| 0 <= k < before.len() implies same_content(
                        #[trigger] nodes@[k],
                        before[k],
                    ) by {
                        assert(same_content(mid[k], before[k]));
                        assert(same_content(nodes@[k], mid[k]));
                    }
                }
                r
            }
        },
    }
}

impl IndexTree {
    /// A tree without nodes.
    pub fn new() -> (tree: IndexTree)
        ensures
            tree.wf(),
            tree.nodes@.len() == 0,
    {
        IndexTree { nodes: Vec::new(), root: None, leftmost: None, rightmost: None, count: 0 }
    }

    /// Appends `node` behind the last node and restores the AVL
    /// balance. The node's links are set here; what it holds, and what
    /// the nodes before it hold, stays.
    pub fn append(&mut self, node: IndexNode)
        requires
            old(self).wf(),
            old(self).count < u32::MAX,
        ensures
            final(self).wf(),
            final(self).nodes@.len() == old(self).nodes@.len() + 1,
            same_content(final(self).nodes@.last(), node),
            contents_kept(old(self).nodes@, final(self).nodes@.drop_last()),
    {
        let ghost before = self.nodes@;
        let fresh: IndexTreeNode = match &node {
            IndexNode::Stream(s) => s.node,
            IndexNode::Group(g) => g.node,
        };
        let new: usize = self.nodes.len();
        self.nodes.push(node);
        set_link(
            &mut self.nodes,
            new,
            IndexTreeNode { parent: self.rightmost, left: None, right: None, height: 1, ..fresh },
        );
        self.count += 1;
        let ghost pushed = self.nodes@;
        match self.root {
            None => {
                self.root = Some(new);
                self.leftmost = Some(new);
                self.rightmost = Some(new);
                proof {
                    assert(subtree(self.nodes@, None, Some(new), 0, 0));
                    assert(subtree(self.nodes@, None, Some(new), 1, 1));
                }
            },
            Some(r) => {
                proof {
                    lemma_subtree_frame(before, pushed, Some(r), None, 0, new as int);
                }
                let root: usize = append_below(&mut self.nodes, r, None, Ghost(0));
                self.root = Some(root);
                self.rightmost = Some(new);
            },
        }
        proof {
            assert forall|k: int| 0 <= k < before.len() implies same_content(
                #[trigger] self.nodes@.drop_last()[k],
                before[k],
            ) by {
                assert(pushed[k] == before[k]);
                assert(same_content(self.nodes@[k], pushed[k]));
            }
        }
    }
}

/// Height of what the link `r` leads to, counted along the links: the
/// longest way down, in nodes. `fuel` bounds the descent; the number of
/// nodes is enough.
pub open spec fn deep_height(nodes: Seq<IndexNode>, r: Option<usize>, fuel: nat) -> int
    decreases fuel,
{
    match r {
        None => 0,
        Some(i) => if fuel == 0 || i >= nodes.len() {
            0
        } else {
            1 + vstd::math::max(
                deep_height(nodes, link(nodes[i as int]).left, (fuel - 1) as nat),
                deep_height(nodes, link(nodes[i as int]).right, (fuel - 1) as nat),
            )
        },
    }
}

/// The node that the way down from `r` along the left links ends at.
pub open spec fn first_below(nodes: Seq<IndexNode>, r: Option<usize>, fuel: nat) -> Option<usize>
    decreases fuel,
{
    match r {
        None => None,
        Some(i) => if fuel == 0 || i >= nodes.len() || link(nodes[i as int]).left is None {
            r
        } else {
            first_below(nodes, link(nodes[i as int]).left, (fuel - 1) as nat)
        },
    }
}

/// The node that the way down from `r` along the right links ends at.
pub open spec fn last_below(nodes: Seq<IndexNode>, r: Option<usize>, fuel: nat) -> Option<usize>
    decreases fuel,
{
    match r {
        None => None,
        Some(i) => if fuel == 0 || i >= nodes.len() || link(nodes[i as int]).right is None {
            r
        } else {
            last_below(nodes, link(nodes[i as int]).right, (fuel - 1) as nat)
        },
    }
}

/// In a subtree the height that a node records is the height counted
/// along the links, and the ways down along the left and the right
/// links end at the first and the last node of the range.
pub proof fn lemma_subtree_shape(nodes: Seq<IndexNode>, r: Option<usize>, p: Option<usize>, lo: int, hi: int, fuel: nat)
    requires
        subtree(nodes, r, p, lo, hi),
        fuel >= hi - lo,
    ensures
        deep_height(nodes, r, fuel) == height_at(nodes, r),
        lo < hi ==> first_below(nodes, r, fuel) == Some(lo as usize),
        lo < hi ==> last_below(nodes, r, fuel) == Some((hi - 1) as usize),
    decreases hi - lo,
{
    match r {
        None => {},
        Some(i) => {
            let n = link(nodes[i as int]);
            lemma_subtree_shape(nodes, n.left, Some(i), lo, i as int, (fuel - 1) as nat);
            lemma_subtree_shape(nodes, n.right, Some(i), i + 1, hi, (fuel - 1) as nat);
            lemma_subtree_root(nodes, n.left, Some(i), lo, i as int);
            lemma_subtree_root(nodes, n.right, Some(i), i + 1, hi);
        },
    }
}

/// Every node of a subtree is the root of a subtree of its own; the
/// lemma returns that subtree's parent and range.
pub proof fn lemma_node_rooted(nodes: Seq<IndexNode>, r: Option<usize>, p: Option<usize>, lo: int, hi: int, i: int) -> (at: (
    Option<usize>,
    int,
    int,
))
    requires
        subtree(nodes, r, p, lo, hi),
        lo <= i < hi,
    ensures
        subtree(nodes, Some(i as usize), at.0, at.1, at.2),
        lo <= at.1 <= i < at.2 <= hi,
    decreases hi - lo,
{
    let x = r->0;
    let n = link(nodes[x as int]);
    if i == x {
        (p, lo, hi)
    } else if i < x {
        lemma_node_rooted(nodes, n.left, Some(x), lo, x as int, i)
    } else {
        lemma_node_rooted(nodes, n.right, Some(x), x + 1, hi, i)
    }
}

/// The AVL balance: at every node of a well-formed tree the heights of
/// the left and the right subtree, counted along the links, differ by
/// one at most.
pub proof fn lemma_tree_balanced(tree: IndexTree, i: int)
    requires
        tree.wf(),
        0 <= i < tree.nodes@.len(),
    ensures
        -1 <= deep_height(tree.nodes@, link(tree.nodes@[i]).left, tree.nodes@.len())
            - deep_height(tree.nodes@, link(tree.nodes@[i]).right, tree.nodes@.len()) <= 1,
{
    let nodes = tree.nodes@;
    let at = lemma_node_rooted(nodes, tree.root, None, 0, nodes.len() as int, i);
    let n = link(nodes[i]);
    lemma_subtree_shape(nodes, n.left, Some(i as usize), at.1, i, nodes.len());
    lemma_subtree_shape(nodes, n.right, Some(i as usize), i + 1, at.2, nodes.len());
}

/// The cached ends are the true ends: the way down from the root along
/// the left links ends at `leftmost`, the way along the right links at
/// `rightmost`, and these are the node appended first and the node
/// appended last.
pub proof fn lemma_tree_extremes(tree: IndexTree)
    requires
        tree.wf(),
    ensures
        first_below(tree.nodes@, tree.root, tree.nodes@.len()) == tree.leftmost,
        last_below(tree.nodes@, tree.root, tree.nodes@.len()) == tree.rightmost,
        tree.nodes@.len() > 0 ==> tree.leftmost == Some(0usize) && tree.rightmost == Some(
            (tree.nodes@.len() - 1) as usize,
        ),
{
    lemma_subtree_shape(tree.nodes@, tree.root, None, 0, tree.nodes@.len() as int, tree.nodes@.len());
    lemma_subtree_root(tree.nodes@, tree.root, None, 0, tree.nodes@.len() as int);
}

/// The height of a well-formed tree is the height its root records, and
/// no more than the number of its nodes.
pub proof fn lemma_tree_height(tree: IndexTree)
    requires
        tree.wf(),
    ensures
        deep_height(tree.nodes@, tree.root, tree.nodes@.len()) == height_at(tree.nodes@, tree.root),
        height_at(tree.nodes@, tree.root) <= tree.nodes@.len(),
{
    lemma_subtree_shape(tree.nodes@, tree.root, None, 0, tree.nodes@.len() as int, tree.nodes@.len());
    lemma_subtree_root(tree.nodes@, tree.root, None, 0, tree.nodes@.len() as int);
}

/// The uncompressed start offset of the node `i`.
pub open spec fn base_at(nodes: Seq<IndexNode>, i: int) -> LzmaVli {
    link(nodes[i]).uncompressed_base
}

impl IndexTree {
    /// Number of nodes.
    pub fn len(&self) -> (n: usize)
        ensures
            n == self.nodes@.len(),
    {
        self.nodes.len()
    }

    /// Finds the last node that starts before `target`, by descending
    /// from the root: to the left where a node starts at `target` or
    /// behind it, else to the right. Returns nothing where no node
    /// starts before `target`.
    pub fn locate(&self, target: LzmaVli) -> (found: Option<usize>)
        requires
            self.wf(),
            bases_sorted(self.nodes@),
        ensures
            match found {
                Some(i) => {
                    &&& i < self.nodes@.len()
                    &&& base_at(self.nodes@, i as int) < target
                    &&& forall|j: int|
                        i < j < self.nodes@.len() ==> base_at(self.nodes@, j) >= target
                },
                None => forall|j: int|
                    0 <= j < self.nodes@.len() ==> base_at(self.nodes@, j) >= target,
            },
    {
        let mut result: Option<usize> = None;
        let mut node: Option<usize> = self.root;
        let ghost mut lo: int = 0;
        let ghost mut hi: int = self.nodes@.len() as int;
        let ghost mut parent: Option<usize> = None;
        while node.is_some()
            invariant
                self.wf(),
                bases_sorted(self.nodes@),
                subtree(self.nodes@, node, parent, lo, hi),
                0 <= lo <= hi <= self.nodes@.len(),
                forall|k: int| 0 <= k < lo ==> base_at(self.nodes@, k) < target,
                forall|k: int| hi <= k < self.nodes@.len() ==> base_at(self.nodes@, k) >= target,
                result == (if lo > 0 {
                    Some((lo - 1) as usize)
                } else {
                    None
                }),
            decreases hi - lo,
        {
            let i: usize = node.unwrap();
            let l: IndexTreeNode = node_link(&self.nodes, i);
            if l.uncompressed_base >= target {
                proof {
                    assert forall|k: int| i <= k < self.nodes@.len() implies base_at(
                        self.nodes@,
                        k,
                    ) >= target by {
                        assert(base_at(self.nodes@, i as int) <= base_at(self.nodes@, k));
                    }
                    hi = i as int;
                    parent = Some(i);
                }
                node = l.left;
            } else {
                proof {
                    assert forall|k: int| 0 <= k < i + 1 implies base_at(self.nodes@, k)
                        < target by {
                        assert(base_at(self.nodes@, k) <= base_at(self.nodes@, i as int));
                    }
                    lo = i + 1;
                    parent = Some(i);
                }
                result = node;
                node = l.right;
            }
        }
        result
    }
}

} // verus!
