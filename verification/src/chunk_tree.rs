//! A persistent rope variant: a ternary tree of leaves, gaps and internal nodes.
//!
//! A tree stands for a sequence of *cells*. A cell is either a stored byte or a
//! gap cell, which has no byte of its own and is filled with a caller-chosen
//! byte when the tree is collected. Every operation returns a new tree and
//! leaves its input untouched; unchanged subtrees are shared by reference.

use crate::chunk_cells::{
    capped, data_cells, fill, gap_cells, lemma_data_cells_split, lemma_fill_concat,
    lemma_removed_capped, lemma_removed_clamped, lemma_removed_data, lemma_removed_gap,
    lemma_removed_length, lemma_removed_three, lemma_spliced_first, lemma_spliced_gap,
    lemma_spliced_seam, lemma_spliced_second, removed, shifted_left, spliced,
};
use crate::chunk_shape::{
    chunks_full, chunks_len, chunks_removed, chunks_spliced, gap_chunks, halved, halving_depth,
    Chunk,
};
use crate::sharing::share;
use std::ops::Range;
use std::sync::Arc;
use vstd::prelude::*;

verus! {

/// A node of the chunk tree.
#[derive(Debug)]
pub enum ChunkTreeNode<'a> {
    Leaf { data: &'a [u8] },
    Gap { size: usize },
    Internal {
        left: Arc<ChunkTreeNode<'a>>,
        mid: Arc<ChunkTreeNode<'a>>,
        right: Arc<ChunkTreeNode<'a>>,
        size: usize,
    },
}

impl<'a> ChunkTreeNode<'a> {
    /// The cells the node stands for, left to right.
    pub open spec fn cells(&self) -> Seq<Option<u8>>
        decreases self,
    {
        match self {
            ChunkTreeNode::Leaf { data } => data_cells(data@),
            ChunkTreeNode::Gap { size } => gap_cells(*size as nat),
            ChunkTreeNode::Internal { left, mid, right, size } => left.cells() + mid.cells()
                + right.cells(),
        }
    }

    /// The node's length as it is cached at its top.
    pub open spec fn spec_len(&self) -> nat {
        match self {
            ChunkTreeNode::Leaf { data } => data@.len(),
            ChunkTreeNode::Gap { size } => *size as nat,
            ChunkTreeNode::Internal { left, mid, right, size } => *size as nat,
        }
    }

    /// The number of levels of the node: one for a leaf or a gap, one more
    /// than the deepest child for an internal node.
    pub open spec fn depth(&self) -> nat
        decreases self,
    {
        match self {
            ChunkTreeNode::Internal { left, mid, right, size } => {
                let below = if left.depth() >= mid.depth() && left.depth() >= right.depth() {
                    left.depth()
                } else if mid.depth() >= right.depth() {
                    mid.depth()
                } else {
                    right.depth()
                };
                1 + below
            },
            _ => 1,
        }
    }

    /// Leaves hold at most `n` bytes and every cached size is the sum of the
    /// children's lengths.
    pub open spec fn wf(&self, n: usize) -> bool
        decreases self,
    {
        match self {
            ChunkTreeNode::Leaf { data } => data@.len() <= n,
            ChunkTreeNode::Gap { size } => true,
            ChunkTreeNode::Internal { left, mid, right, size } => {
                &&& left.wf(n)
                &&& mid.wf(n)
                &&& right.wf(n)
                &&& *size == left.spec_len() + mid.spec_len() + right.spec_len()
            },
        }
    }

    /// In a well-formed node the cached length is the number of cells.
    pub proof fn lemma_len(&self, n: usize)
        requires
            self.wf(n),
        ensures
            self.cells().len() == self.spec_len(),
        decreases self,
    {
        match self {
            ChunkTreeNode::Internal { left, mid, right, size } => {
                left.lemma_len(n);
                mid.lemma_len(n);
                right.lemma_len(n);
            },
            _ => {},
        }
    }

    /// A leaf if `data` fits in one, else the two halves around an empty gap.
    pub fn from_slice(data: &'a [u8], n: usize) -> (node: ChunkTreeNode<'a>)
        requires
            n >= 1,
        ensures
            node.wf(n),
            node.cells() == data_cells(data@),
            node.spec_len() == data@.len(),
            node.chunks() == halved(data@, n as nat),
            node.depth() == halving_depth(data@.len(), n as nat),
        decreases data@.len(),
    {
        if data.len() <= n {
            let node = ChunkTreeNode::Leaf { data };
            proof {
                node.lemma_chunks(n);
            }
            return node;
        }
        let mid_index = data.len() / 2;
        let left = Self::from_slice(vstd::slice::slice_subrange(data, 0, mid_index), n);
        let right = Self::from_slice(vstd::slice::slice_subrange(data, mid_index, data.len()), n);
        let size = data.len();
        let mid = ChunkTreeNode::empty();
        proof {
            assert(mid.wf(n));
            assert(mid.cells() =~= gap_cells(0));
            assert(left.cells() + mid.cells() + right.cells() =~= data_cells(data@));
        }
        let node = ChunkTreeNode::Internal {
            left: Arc::new(left),
            mid: Arc::new(mid),
            right: Arc::new(right),
            size,
        };
        proof {
            node.lemma_chunks(n);
            mid.lemma_chunks(n);
            assert(left.chunks() + mid.chunks() + right.chunks() =~= left.chunks()
                + right.chunks());
            crate::chunk_shape::lemma_halving_depth_grows(
                mid_index as nat,
                (data@.len() - mid_index) as nat,
                n as nat,
            );
            assert(mid.depth() == 1);
        }
        node
    }

    /// The length in cells.
    pub fn len(&self) -> (len: usize)
        ensures
            len == self.spec_len(),
    {
        match self {
            ChunkTreeNode::Leaf { data } => data.len(),
            ChunkTreeNode::Gap { size } => *size,
            ChunkTreeNode::Internal { size, .. } => *size,
        }
    }

    /// Whether the node holds no cell.
    pub fn is_empty(&self) -> (empty: bool)
        ensures
            empty == (self.spec_len() == 0),
    {
        match self {
            ChunkTreeNode::Leaf { data } => data.len() == 0,
            ChunkTreeNode::Gap { size } => *size == 0,
            ChunkTreeNode::Internal { size, .. } => *size == 0,
        }
    }

    /// The empty node: a gap of no cells.
    pub fn empty() -> (node: ChunkTreeNode<'a>)
        ensures
            node == (ChunkTreeNode::Gap { size: 0 }),
    {
        ChunkTreeNode::Gap { size: 0 }
    }

    /// Splices `data` in at `index`, which lies within the node. Only the path
    /// to the insertion point is rebuilt; the other children are shared.
    #[verifier::rlimit(50)]
    pub fn insert(&self, index: usize, data: &'a [u8], n: usize) -> (node: ChunkTreeNode<'a>)
        requires
            n >= 1,
            self.wf(n),
            index <= self.spec_len(),
            self.spec_len() + data@.len() <= usize::MAX,
        ensures
            node.wf(n),
            node.cells() == spliced(self.cells(), index as int, data_cells(data@)),
            node.spec_len() == self.spec_len() + data@.len(),
            node.chunks() == chunks_spliced(self.chunks(), index as int, data@, n as nat),
        decreases self,
    {
        proof {
            self.lemma_chunks(n);
        }
        match self {
            ChunkTreeNode::Leaf { data: leaf_data } => {
                let left = Self::from_slice(vstd::slice::slice_subrange(leaf_data, 0, index), n);
                let mid = Self::from_slice(data, n);
                let right = Self::from_slice(
                    vstd::slice::slice_subrange(leaf_data, index, leaf_data.len()),
                    n,
                );
                proof {
                    lemma_data_cells_split(leaf_data@, index as int);
                    lemma_spliced_seam(left.cells(), right.cells(), mid.cells());
                    crate::chunk_shape::lemma_spliced_leaf(
                        leaf_data@,
                        index as int,
                        data@,
                        n as nat,
                    );
                }
                let node = ChunkTreeNode::Internal {
                    left: Arc::new(left),
                    mid: Arc::new(mid),
                    right: Arc::new(right),
                    size: leaf_data.len() + data.len(),
                };
                proof {
                    node.lemma_chunks(n);
                }
                node
            },
            ChunkTreeNode::Gap { size } => {
                let end_padding = *size - index;
                let left = ChunkTreeNode::Gap { size: index };
                let mid = Self::from_slice(data, n);
                let right = ChunkTreeNode::Gap { size: end_padding };
                proof {
                    assert(left.wf(n) && right.wf(n));
                    assert(left.cells() == gap_cells(index as nat));
                    assert(right.cells() == gap_cells(end_padding as nat));
                    lemma_spliced_gap(*size as nat, index as int, mid.cells());
                    crate::chunk_shape::lemma_spliced_gap_chunks(
                        *size as nat,
                        index as int,
                        data@,
                        n as nat,
                    );
                    left.lemma_chunks(n);
                    right.lemma_chunks(n);
                }
                let node = ChunkTreeNode::Internal {
                    left: Arc::new(left),
                    mid: Arc::new(mid),
                    right: Arc::new(right),
                    size: index + data.len() + end_padding,
                };
                proof {
                    node.lemma_chunks(n);
                }
                node
            },
            ChunkTreeNode::Internal { left, mid, right, size: _ } => {
                proof {
                    left.lemma_len(n);
                    mid.lemma_len(n);
                    right.lemma_len(n);
                }
                let left_size = left.len();
                if index <= left_size {
                    let new_left = left.insert(index, data, n);
                    let new_size = new_left.len() + mid.len() + right.len();
                    proof {
                        Self::lemma_insert_first(left, mid, right, index as int, data@, n);
                    }
                    let node = ChunkTreeNode::Internal {
                        left: Arc::new(new_left),
                        mid: share(mid),
                        right: share(right),
                        size: new_size,
                    };
                    proof {
                        node.lemma_chunks(n);
                    }
                    node
                } else if index <= left_size + mid.len() {
                    let new_mid = mid.insert(index - left_size, data, n);
                    let new_size = left_size + new_mid.len() + right.len();
                    proof {
                        Self::lemma_insert_second(left, mid, right, index as int, data@, n);
                    }
                    let node = ChunkTreeNode::Internal {
                        left: share(left),
                        mid: Arc::new(new_mid),
                        right: share(right),
                        size: new_size,
                    };
                    proof {
                        node.lemma_chunks(n);
                    }
                    node
                } else {
                    let new_right = right.insert(index - left_size - mid.len(), data, n);
                    let new_size = left_size + mid.len() + new_right.len();
                    proof {
                        Self::lemma_insert_third(left, mid, right, index as int, data@, n);
                    }
                    let node = ChunkTreeNode::Internal {
                        left: share(left),
                        mid: share(mid),
                        right: Arc::new(new_right),
                        size: new_size,
                    };
                    proof {
                        node.lemma_chunks(n);
                    }
                    node
                }
            },
        }
    }

    /// Removes the cells `range.start..range.end`. The range is clamped to
    /// the node, and one that ends before it starts removes nothing. Children
    /// that the range does not reach are shared.
    #[verifier::rlimit(50)]
    pub fn remove(&self, range: Range<usize>, n: usize) -> (node: ChunkTreeNode<'a>)
        requires
            n >= 1,
            self.wf(n),
        ensures
            node.wf(n),
            node.cells() == removed(self.cells(), range.start as int, range.end as int),
            node.spec_len() == node.cells().len(),
            node.chunks() == chunks_removed(
                self.chunks(),
                range.start as int,
                range.end as int,
            ),
        decreases self, 1nat,
    {
        proof {
            self.lemma_len(n);
            self.lemma_chunks(n);
            lemma_removed_clamped(self.cells(), range.start as int, range.end as int);
            crate::chunk_shape::lemma_chunks_removed_clamped(
                self.chunks(),
                range.start as int,
                range.end as int,
                self.spec_len() as int,
            );
        }
        let len = self.len();
        let start = if range.start < len {
            range.start
        } else {
            len
        };
        let end = if range.end < start {
            start
        } else if range.end < len {
            range.end
        } else {
            len
        };
        if len == 0 && range.start >= range.end {
            let node = ChunkTreeNode::empty();
            proof {
                assert(node.wf(n));
                lemma_removed_gap(0, 0, 0);
                lemma_removed_capped(self.cells(), 0, 0);
                node.lemma_chunks(n);
                crate::chunk_shape::lemma_chunks_none(self.chunks());
            }
            return node;
        }
        match self {
            ChunkTreeNode::Leaf { data } => {
                let left = Self::from_slice(vstd::slice::slice_subrange(data, 0, start), n);
                let mid = Self::empty();
                let right = Self::from_slice(
                    vstd::slice::slice_subrange(data, end, data.len()),
                    n,
                );
                proof {
                    assert(mid.wf(n));
                    assert(mid.cells() == gap_cells(0));
                    lemma_removed_data(data@, start as int, end as int);
                    crate::chunk_shape::lemma_removed_leaf(
                        data@,
                        start as int,
                        end as int,
                        n as nat,
                    );
                    mid.lemma_chunks(n);
                }
                let node = ChunkTreeNode::Internal {
                    left: Arc::new(left),
                    mid: Arc::new(mid),
                    right: Arc::new(right),
                    size: data.len() - (end - start),
                };
                proof {
                    node.lemma_chunks(n);
                    assert(left.chunks() + mid.chunks() + right.chunks() =~= left.chunks()
                        + right.chunks());
                }
                node
            },
            ChunkTreeNode::Gap { size } => {
                let node = ChunkTreeNode::Gap { size: *size - (end - start) };
                proof {
                    assert(node.wf(n));
                    lemma_removed_gap(*size as nat, start as int, end as int);
                    crate::chunk_shape::lemma_removed_gap_chunks(
                        *size as nat,
                        start as int,
                        end as int,
                    );
                    node.lemma_chunks(n);
                }
                node
            },
            ChunkTreeNode::Internal { .. } => self.remove_within(start..end, n),
        }
    }

    /// Removes a range that lies within an internal node from each child it
    /// reaches, the range shifted into the child's coordinates.
    #[verifier::rlimit(50)]
    fn remove_within(&self, range: Range<usize>, n: usize) -> (node: ChunkTreeNode<'a>)
        requires
            n >= 1,
            self.wf(n),
            self is Internal,
            range.start <= range.end <= self.spec_len(),
        ensures
            node.wf(n),
            node.cells() == removed(self.cells(), range.start as int, range.end as int),
            node.spec_len() == node.cells().len(),
            node.chunks() == chunks_removed(
                self.chunks(),
                range.start as int,
                range.end as int,
            ),
        decreases self, 0nat,
    {
        match self {
            ChunkTreeNode::Internal { left, mid, right, size: _ } => {
                proof {
                    left.lemma_len(n);
                    mid.lemma_len(n);
                    right.lemma_len(n);
                }
                let new_left = if range.start < left.len() {
                    Arc::new(left.remove(Self::range_cap(&range, left.len()), n))
                } else {
                    share(left)
                };
                let mid_range = Self::range_shift_left(&range, left.len());
                let new_mid = if mid_range.start < mid.len() {
                    Arc::new(mid.remove(Self::range_cap(&mid_range, mid.len()), n))
                } else {
                    share(mid)
                };
                let right_range = Self::range_shift_left(&range, left.len() + mid.len());
                let new_right = if right_range.start < right.len() {
                    Arc::new(right.remove(Self::range_cap(&right_range, right.len()), n))
                } else {
                    share(right)
                };
                proof {
                    new_left.lemma_len(n);
                    new_mid.lemma_len(n);
                    new_right.lemma_len(n);
                    self.lemma_chunks(n);
                    Self::lemma_remove_children(
                        left,
                        mid,
                        right,
                        &new_left,
                        &new_mid,
                        &new_right,
                        range.start as int,
                        range.end as int,
                        n,
                    );
                    lemma_removed_length(
                        self.cells(),
                        range.start as int,
                        range.end as int,
                    );
                }
                let new_size = new_left.len() + new_mid.len() + new_right.len();
                let node = ChunkTreeNode::Internal {
                    left: new_left,
                    mid: new_mid,
                    right: new_right,
                    size: new_size,
                };
                proof {
                    node.lemma_chunks(n);
                }
                node
            },
            _ => vstd::pervasive::unreached(),
        }
    }

    /// The range moved `amount` positions to the left, stopping at zero.
    fn range_shift_left(range: &Range<usize>, amount: usize) -> (shifted: Range<usize>)
        ensures
            shifted.start == shifted_left(range.start as int, amount as int),
            shifted.end == shifted_left(range.end as int, amount as int),
    {
        let start = if range.start >= amount {
            range.start - amount
        } else {
            0
        };
        let end = if range.end >= amount {
            range.end - amount
        } else {
            0
        };
        start..end
    }

    /// The range with both ends held to at most `max`.
    fn range_cap(range: &Range<usize>, max: usize) -> (capped_range: Range<usize>)
        ensures
            capped_range.start == capped(range.start as int, max as int),
            capped_range.end == capped(range.end as int, max as int),
    {
        let start = if range.start <= max {
            range.start
        } else {
            max
        };
        let end = if range.end <= max {
            range.end
        } else {
            max
        };
        start..end
    }

    /// Appends the node's bytes to `output`, each gap cell as `gap_value`.
    pub fn collect_bytes_into(&self, gap_value: u8, output: &mut Vec<u8>)
        ensures
            final(output)@ == old(output)@ + fill(self.cells(), gap_value),
        decreases self,
    {
        match self {
            ChunkTreeNode::Leaf { data } => {
                output.extend_from_slice(data);
                proof {
                    assert(fill(self.cells(), gap_value) =~= data@);
                }
            },
            ChunkTreeNode::Gap { size } => {
                let mut i: usize = 0;
                proof {
                    assert(output@ =~= old(output)@ + fill(gap_cells(0), gap_value));
                }
                while i < *size
                    invariant
                        i <= *size,
                        output@ == old(output)@ + fill(gap_cells(i as nat), gap_value),
                    decreases *size - i,
                {
                    output.push(gap_value);
                    i += 1;
                    proof {
                        assert(output@ =~= old(output)@ + fill(gap_cells(i as nat), gap_value));
                    }
                }
            },
            ChunkTreeNode::Internal { left, mid, right, size: _ } => {
                left.collect_bytes_into(gap_value, output);
                mid.collect_bytes_into(gap_value, output);
                right.collect_bytes_into(gap_value, output);
                proof {
                    lemma_fill_concat(left.cells() + mid.cells(), right.cells(), gap_value);
                    lemma_fill_concat(left.cells(), mid.cells(), gap_value);
                    assert(output@ =~= old(output)@ + fill(self.cells(), gap_value));
                }
            },
        }
    }
}

/// One step of an iteration over a tree: a run of stored bytes or a gap.
#[derive(Debug, PartialEq)]
pub enum ChunkPiece<'a> {
    Data { data: &'a [u8] },
    Gap { size: usize },
}

impl<'a> ChunkTreeNode<'a> {
    /// The pieces of the node in depth-first order, left, then middle, then
    /// right. Empty leaves, empty gaps and empty subtrees yield nothing.
    pub open spec fn pieces(&self) -> Seq<ChunkPiece<'a>>
        decreases self,
    {
        if self.spec_len() == 0 {
            Seq::empty()
        } else {
            match self {
                ChunkTreeNode::Leaf { data } => seq![ChunkPiece::Data { data: *data }],
                ChunkTreeNode::Gap { size } => seq![ChunkPiece::Gap { size: *size }],
                ChunkTreeNode::Internal { left, mid, right, size } => left.pieces() + mid.pieces()
                    + right.pieces(),
            }
        }
    }

    /// The pieces that are left of a node whose first `child_idx` children
    /// have been visited.
    pub open spec fn pieces_from(&self, child_idx: usize) -> Seq<ChunkPiece<'a>> {
        if self.spec_len() == 0 {
            Seq::empty()
        } else {
            match self {
                ChunkTreeNode::Internal { left, mid, right, size } => if child_idx == 0 {
                    left.pieces() + mid.pieces() + right.pieces()
                } else if child_idx == 1 {
                    mid.pieces() + right.pieces()
                } else {
                    right.pieces()
                },
                _ => self.pieces(),
            }
        }
    }

    /// A node none of whose children has been visited yields all its pieces.
    pub proof fn lemma_pieces_from_start(&self)
        ensures
            self.pieces_from(0) == self.pieces(),
    {
    }

    /// A bound on the steps an iterator spends on a node whose first
    /// `child_idx` children have been visited.
    pub open spec fn visit_cost(&self, child_idx: usize) -> nat
        decreases self,
    {
        match self {
            ChunkTreeNode::Internal { left, mid, right, size } => if child_idx == 0 {
                3 + left.visit_cost(0) + mid.visit_cost(0) + right.visit_cost(0)
            } else if child_idx == 1 {
                2 + mid.visit_cost(0) + right.visit_cost(0)
            } else {
                1 + right.visit_cost(0)
            },
            _ => 1,
        }
    }

    /// An iterator over the node's pieces.
    pub fn iter(&'a self) -> (iter: ChunkTreeIterator<'a>)
        ensures
            iter.wf(),
            iter.remaining() == self.pieces(),
    {
        let mut iter = ChunkTreeIterator { stack: Vec::new() };
        iter.stack.push((self, 0));
        proof {
            let empty = Seq::<(&'a ChunkTreeNode<'a>, usize)>::empty();
            lemma_pending_push(empty, (self, 0));
            assert(iter.stack@ =~= empty.push((self, 0)));
            assert(pending_pieces(empty) =~= Seq::empty());
        }
        iter
    }
}

/// One piece as a chunk of the tree's shape.
pub open spec fn chunk_of(piece: ChunkPiece) -> Chunk {
    match piece {
        ChunkPiece::Data { data } => Chunk::Data(data@),
        ChunkPiece::Gap { size } => Chunk::Gap(size as nat),
    }
}

/// A run of pieces as chunks.
pub open spec fn pieces_chunks(pieces: Seq<ChunkPiece>) -> Seq<Chunk> {
    Seq::new(pieces.len(), |i: int| chunk_of(pieces[i]))
}

impl<'a> ChunkTreeNode<'a> {
    /// The chunks that a walk over the node yields.
    pub open spec fn chunks(&self) -> Seq<Chunk> {
        pieces_chunks(self.pieces())
    }

    /// The chunks of a well-formed node: none of them is empty, together
    /// they cover the node, a leaf or a gap that is not empty is one
    /// chunk, and an internal node has the chunks of its children in a row.
    pub proof fn lemma_chunks(&self, n: usize)
        requires
            self.wf(n),
        ensures
            chunks_full(self.chunks()),
            chunks_len(self.chunks()) == self.spec_len(),
            match self {
                ChunkTreeNode::Leaf { data } => self.chunks() == halved(data@, n as nat),
                ChunkTreeNode::Gap { size } => self.chunks() == gap_chunks(*size as nat),
                ChunkTreeNode::Internal { left, mid, right, size } => self.chunks()
                    == left.chunks() + mid.chunks() + right.chunks(),
            },
        decreases self,
    {
        match self {
            ChunkTreeNode::Leaf { data } => {
                if data@.len() > 0 {
                    crate::chunk_shape::lemma_chunks_single(Chunk::Data(data@));
                    assert(self.chunks() =~= seq![Chunk::Data(data@)]);
                } else {
                    assert(self.chunks() =~= Seq::<Chunk>::empty());
                }
            },
            ChunkTreeNode::Gap { size } => {
                if *size > 0 {
                    crate::chunk_shape::lemma_chunks_single(Chunk::Gap(*size as nat));
                    assert(self.chunks() =~= seq![Chunk::Gap(*size as nat)]);
                } else {
                    assert(self.chunks() =~= Seq::<Chunk>::empty());
                }
            },
            ChunkTreeNode::Internal { left, mid, right, size } => {
                left.lemma_chunks(n);
                mid.lemma_chunks(n);
                right.lemma_chunks(n);
                crate::chunk_shape::lemma_chunks_concat(left.chunks(), mid.chunks());
                crate::chunk_shape::lemma_chunks_concat(
                    left.chunks() + mid.chunks(),
                    right.chunks(),
                );
                if *size == 0 {
                    crate::chunk_shape::lemma_chunks_none(left.chunks());
                    crate::chunk_shape::lemma_chunks_none(mid.chunks());
                    crate::chunk_shape::lemma_chunks_none(right.chunks());
                    assert(self.chunks() =~= left.chunks() + mid.chunks() + right.chunks());
                } else {
                    assert(self.chunks() =~= left.chunks() + mid.chunks() + right.chunks());
                }
            },
        }
    }
}

impl<'a> ChunkTreeNode<'a> {
    /// Inserting within the first of three nodes in a row changes the
    /// first alone, in cells and in chunks.
    proof fn lemma_insert_first(
        l: &ChunkTreeNode<'a>,
        m: &ChunkTreeNode<'a>,
        r: &ChunkTreeNode<'a>,
        index: int,
        data: Seq<u8>,
        n: usize,
    )
        requires
            n >= 1,
            l.wf(n),
            m.wf(n),
            r.wf(n),
            0 <= index <= l.spec_len(),
        ensures
            spliced(l.cells() + m.cells() + r.cells(), index, data_cells(data)) == spliced(
                l.cells(),
                index,
                data_cells(data),
            ) + m.cells() + r.cells(),
            chunks_spliced(l.chunks() + m.chunks() + r.chunks(), index, data, n as nat)
                == chunks_spliced(l.chunks(), index, data, n as nat) + m.chunks() + r.chunks(),
    {
        l.lemma_len(n);
        l.lemma_chunks(n);
        m.lemma_chunks(n);
        r.lemma_chunks(n);
        lemma_spliced_first(l.cells(), m.cells(), index, data_cells(data));
        lemma_spliced_first(l.cells() + m.cells(), r.cells(), index, data_cells(data));
        crate::chunk_shape::lemma_chunks_concat(m.chunks(), r.chunks());
        crate::chunk_shape::lemma_chunks_spliced_first(
            l.chunks(),
            m.chunks() + r.chunks(),
            index,
            data,
            n as nat,
        );
        assert(l.chunks() + (m.chunks() + r.chunks()) =~= l.chunks() + m.chunks() + r.chunks());
        assert(chunks_spliced(l.chunks(), index, data, n as nat) + (m.chunks() + r.chunks())
            =~= chunks_spliced(l.chunks(), index, data, n as nat) + m.chunks() + r.chunks());
    }

    /// Inserting within the second of three nodes in a row changes the
    /// second alone, in cells and in chunks.
    proof fn lemma_insert_second(
        l: &ChunkTreeNode<'a>,
        m: &ChunkTreeNode<'a>,
        r: &ChunkTreeNode<'a>,
        index: int,
        data: Seq<u8>,
        n: usize,
    )
        requires
            n >= 1,
            l.wf(n),
            m.wf(n),
            r.wf(n),
            l.spec_len() <= index <= l.spec_len() + m.spec_len(),
        ensures
            spliced(l.cells() + m.cells() + r.cells(), index, data_cells(data)) == l.cells()
                + spliced(m.cells(), index - l.spec_len(), data_cells(data)) + r.cells(),
            chunks_spliced(l.chunks() + m.chunks() + r.chunks(), index, data, n as nat)
                == l.chunks() + chunks_spliced(m.chunks(), index - l.spec_len(), data, n as nat)
                + r.chunks(),
    {
        l.lemma_len(n);
        m.lemma_len(n);
        l.lemma_chunks(n);
        m.lemma_chunks(n);
        r.lemma_chunks(n);
        let rel = index - l.spec_len();
        lemma_spliced_second(l.cells(), m.cells(), index, data_cells(data));
        lemma_spliced_first(l.cells() + m.cells(), r.cells(), index, data_cells(data));
        crate::chunk_shape::lemma_chunks_concat(m.chunks(), r.chunks());
        crate::chunk_shape::lemma_chunks_spliced_second(
            l.chunks(),
            m.chunks() + r.chunks(),
            index,
            data,
            n as nat,
        );
        crate::chunk_shape::lemma_chunks_spliced_first(m.chunks(), r.chunks(), rel, data, n as nat);
        assert(l.chunks() + (m.chunks() + r.chunks()) =~= l.chunks() + m.chunks() + r.chunks());
        assert(l.chunks() + (chunks_spliced(m.chunks(), rel, data, n as nat) + r.chunks())
            =~= l.chunks() + chunks_spliced(m.chunks(), rel, data, n as nat) + r.chunks());
    }

    /// Inserting within the third of three nodes in a row changes the
    /// third alone, in cells and in chunks.
    proof fn lemma_insert_third(
        l: &ChunkTreeNode<'a>,
        m: &ChunkTreeNode<'a>,
        r: &ChunkTreeNode<'a>,
        index: int,
        data: Seq<u8>,
        n: usize,
    )
        requires
            n >= 1,
            l.wf(n),
            m.wf(n),
            r.wf(n),
            l.spec_len() + m.spec_len() <= index <= l.spec_len() + m.spec_len() + r.spec_len(),
        ensures
            spliced(l.cells() + m.cells() + r.cells(), index, data_cells(data)) == l.cells()
                + m.cells() + spliced(
                r.cells(),
                index - l.spec_len() - m.spec_len(),
                data_cells(data),
            ),
            chunks_spliced(l.chunks() + m.chunks() + r.chunks(), index, data, n as nat)
                == l.chunks() + m.chunks() + chunks_spliced(
                r.chunks(),
                index - l.spec_len() - m.spec_len(),
                data,
                n as nat,
            ),
    {
        l.lemma_len(n);
        m.lemma_len(n);
        r.lemma_len(n);
        l.lemma_chunks(n);
        m.lemma_chunks(n);
        r.lemma_chunks(n);
        lemma_spliced_second(l.cells() + m.cells(), r.cells(), index, data_cells(data));
        crate::chunk_shape::lemma_chunks_concat(l.chunks(), m.chunks());
        crate::chunk_shape::lemma_chunks_spliced_second(
            l.chunks() + m.chunks(),
            r.chunks(),
            index,
            data,
            n as nat,
        );
    }

    /// Whether `after` is what a removal of `from..to`, given in this
    /// node's positions, makes of the node: the node itself where the range
    /// starts at or past its end, else the node without the range, capped
    /// at the node's length.
    spec fn removed_to(&self, after: &ChunkTreeNode<'a>, from: int, to: int) -> bool {
        let len = self.spec_len() as int;
        if from < len {
            &&& after.cells() == removed(self.cells(), capped(from, len), capped(to, len))
            &&& after.chunks() == chunks_removed(self.chunks(), capped(from, len), capped(to, len))
        } else {
            &&& after.cells() == self.cells()
            &&& after.chunks() == self.chunks()
        }
    }

    /// What a removal does to one of several nodes in a row that starts
    /// `before` positions into the row.
    proof fn lemma_remove_child(
        &self,
        after: &ChunkTreeNode<'a>,
        n: usize,
        start: int,
        end: int,
        before: int,
    )
        requires
            self.wf(n),
            0 <= start <= end,
            0 <= before,
            self.removed_to(after, shifted_left(start, before), shifted_left(end, before)),
        ensures
            after.cells() == removed(
                self.cells(),
                shifted_left(start, before),
                shifted_left(end, before),
            ),
            after.chunks() == chunks_removed(self.chunks(), start - before, end - before),
    {
        self.lemma_len(n);
        self.lemma_chunks(n);
        lemma_removed_capped(
            self.cells(),
            shifted_left(start, before),
            shifted_left(end, before),
        );
        crate::chunk_shape::lemma_chunks_removed_part(
            self.chunks(),
            start - before,
            end - before,
        );
    }

    /// Removing from three nodes in a row removes from each, the range
    /// shifted into the node's positions.
    proof fn lemma_remove_children(
        l: &ChunkTreeNode<'a>,
        m: &ChunkTreeNode<'a>,
        r: &ChunkTreeNode<'a>,
        new_l: &ChunkTreeNode<'a>,
        new_m: &ChunkTreeNode<'a>,
        new_r: &ChunkTreeNode<'a>,
        start: int,
        end: int,
        n: usize,
    )
        requires
            l.wf(n),
            m.wf(n),
            r.wf(n),
            0 <= start <= end,
            l.removed_to(new_l, start, end),
            m.removed_to(
                new_m,
                shifted_left(start, l.spec_len() as int),
                shifted_left(end, l.spec_len() as int),
            ),
            r.removed_to(
                new_r,
                shifted_left(start, (l.spec_len() + m.spec_len()) as int),
                shifted_left(end, (l.spec_len() + m.spec_len()) as int),
            ),
        ensures
            new_l.cells() + new_m.cells() + new_r.cells() == removed(
                l.cells() + m.cells() + r.cells(),
                start,
                end,
            ),
            new_l.chunks() + new_m.chunks() + new_r.chunks() == chunks_removed(
                l.chunks() + m.chunks() + r.chunks(),
                start,
                end,
            ),
    {
        l.lemma_len(n);
        m.lemma_len(n);
        l.lemma_chunks(n);
        m.lemma_chunks(n);
        l.lemma_remove_child(new_l, n, start, end, 0);
        m.lemma_remove_child(new_m, n, start, end, l.spec_len() as int);
        r.lemma_remove_child(new_r, n, start, end, (l.spec_len() + m.spec_len()) as int);
        lemma_removed_three(l.cells(), m.cells(), r.cells(), start, end);
        crate::chunk_shape::lemma_chunks_concat(l.chunks(), m.chunks());
        crate::chunk_shape::lemma_chunks_removed_concat(
            l.chunks() + m.chunks(),
            r.chunks(),
            start,
            end,
        );
        crate::chunk_shape::lemma_chunks_removed_concat(l.chunks(), m.chunks(), start, end);
    }
}

/// The cells of one piece.
pub open spec fn piece_cells(piece: ChunkPiece) -> Seq<Option<u8>> {
    match piece {
        ChunkPiece::Data { data } => data_cells(data@),
        ChunkPiece::Gap { size } => gap_cells(size as nat),
    }
}

/// The cells of a run of pieces.
pub open spec fn pieces_cells(pieces: Seq<ChunkPiece>) -> Seq<Option<u8>>
    decreases pieces.len(),
{
    if pieces.len() == 0 {
        Seq::empty()
    } else {
        pieces_cells(pieces.drop_last()) + piece_cells(pieces.last())
    }
}

/// The cells of two runs of pieces are the cells of each in a row.
pub proof fn lemma_pieces_cells_concat(a: Seq<ChunkPiece>, b: Seq<ChunkPiece>)
    ensures
        pieces_cells(a + b) == pieces_cells(a) + pieces_cells(b),
    decreases b.len(),
{
    if b.len() == 0 {
        assert(a + b =~= a);
        assert(pieces_cells(a) + pieces_cells(b) =~= pieces_cells(a));
    } else {
        assert((a + b).drop_last() =~= a + b.drop_last());
        lemma_pieces_cells_concat(a, b.drop_last());
        assert(pieces_cells(a + b) =~= pieces_cells(a) + pieces_cells(b));
    }
}

impl<'a> ChunkTreeNode<'a> {
    /// An iteration over a well-formed node yields all its cells: the
    /// pieces in a row are the node's content.
    pub proof fn lemma_pieces_cover(&self, n: usize)
        requires
            self.wf(n),
        ensures
            pieces_cells(self.pieces()) == self.cells(),
        decreases self,
    {
        self.lemma_len(n);
        if self.spec_len() == 0 {
            assert(self.cells() =~= Seq::<Option<u8>>::empty());
        } else {
            match self {
                ChunkTreeNode::Internal { left, mid, right, size } => {
                    left.lemma_pieces_cover(n);
                    mid.lemma_pieces_cover(n);
                    right.lemma_pieces_cover(n);
                    lemma_pieces_cells_concat(left.pieces() + mid.pieces(), right.pieces());
                    lemma_pieces_cells_concat(left.pieces(), mid.pieces());
                },
                _ => {
                    let one = self.pieces();
                    assert(one.drop_last() =~= Seq::<ChunkPiece>::empty());
                    assert(pieces_cells(one.drop_last()) =~= Seq::<Option<u8>>::empty());
                    assert(pieces_cells(one) =~= self.cells());
                },
            }
        }
    }
}

/// The pieces that a stack of partly visited nodes still yields, the top of
/// the stack first.
pub open spec fn pending_pieces<'a>(stack: Seq<(&'a ChunkTreeNode<'a>, usize)>) -> Seq<
    ChunkPiece<'a>,
>
    decreases stack.len(),
{
    if stack.len() == 0 {
        Seq::empty()
    } else {
        stack.last().0.pieces_from(stack.last().1) + pending_pieces(stack.drop_last())
    }
}

/// A bound on the steps that a stack of partly visited nodes still takes.
pub open spec fn pending_cost<'a>(stack: Seq<(&'a ChunkTreeNode<'a>, usize)>) -> nat
    decreases stack.len(),
{
    if stack.len() == 0 {
        0
    } else {
        stack.last().0.visit_cost(stack.last().1) + pending_cost(stack.drop_last())
    }
}

/// Pushing an entry puts its pieces in front and adds its cost.
pub proof fn lemma_pending_push<'a>(
    stack: Seq<(&'a ChunkTreeNode<'a>, usize)>,
    entry: (&'a ChunkTreeNode<'a>, usize),
)
    ensures
        pending_pieces(stack.push(entry)) == entry.0.pieces_from(entry.1) + pending_pieces(stack),
        pending_cost(stack.push(entry)) == entry.0.visit_cost(entry.1) + pending_cost(stack),
{
    assert(stack.push(entry).drop_last() =~= stack);
}

/// A depth-first iterator over the pieces of a tree.
pub struct ChunkTreeIterator<'a> {
    stack: Vec<(&'a ChunkTreeNode<'a>, usize)>,
}

impl<'a> ChunkTreeIterator<'a> {
    /// Every entry of the stack names a child position of an internal node.
    pub closed spec fn wf(&self) -> bool {
        forall|i: int| 0 <= i < self.stack@.len() ==> (#[trigger] self.stack@[i]).1 <= 2
    }

    /// The pieces the iterator has yet to yield, in order.
    pub closed spec fn remaining(&self) -> Seq<ChunkPiece<'a>> {
        pending_pieces(self.stack@)
    }

    /// Yields the next piece, or `None` when the tree is exhausted.
    pub fn next(&mut self) -> (piece: Option<ChunkPiece<'a>>)
        requires
            old(self).wf(),
        ensures
            final(self).wf(),
            match piece {
                Some(p) => old(self).remaining().len() > 0 && p == old(self).remaining()[0]
                    && final(self).remaining() == old(self).remaining().drop_first(),
                None => old(self).remaining().len() == 0 && final(self).remaining().len() == 0,
            },
    {
        loop
            invariant
                self.wf(),
                self.remaining() == old(self).remaining(),
            decreases pending_cost(self.stack@),
        {
            let ghost before = self.stack@;
            let (node, child_idx) = match self.stack.pop() {
                Some(entry) => entry,
                None => {
                    return None;
                },
            };
            proof {
                assert(before.drop_last() =~= self.stack@);
            }
            if node.len() == 0 {
                continue ;
            }
            match node {
                ChunkTreeNode::Leaf { data } => {
                    proof {
                        assert(old(self).remaining().drop_first() =~= pending_pieces(self.stack@));
                    }
                    return Some(ChunkPiece::Data { data });
                },
                ChunkTreeNode::Gap { size } => {
                    proof {
                        assert(old(self).remaining().drop_first() =~= pending_pieces(self.stack@));
                    }
                    return Some(ChunkPiece::Gap { size: *size });
                },
                ChunkTreeNode::Internal { left, mid, right, .. } => {
                    let ghost rest = self.stack@;
                    if child_idx == 0 {
                        self.stack.push((node, 1));
                        self.stack.push((&**left, 0));
                        proof {
                            lemma_pending_push(rest, (node, 1));
                            lemma_pending_push(rest.push((node, 1)), (&**left, 0));
                            left.lemma_pieces_from_start();
                            assert(pending_pieces(self.stack@) =~= pending_pieces(before));
                        }
                    } else if child_idx == 1 {
                        self.stack.push((node, 2));
                        self.stack.push((&**mid, 0));
                        proof {
                            lemma_pending_push(rest, (node, 2));
                            lemma_pending_push(rest.push((node, 2)), (&**mid, 0));
                            mid.lemma_pieces_from_start();
                            assert(pending_pieces(self.stack@) =~= pending_pieces(before));
                        }
                    } else {
                        self.stack.push((&**right, 0));
                        proof {
                            lemma_pending_push(rest, (&**right, 0));
                            right.lemma_pieces_from_start();
                            assert(pending_pieces(self.stack@) =~= pending_pieces(before));
                        }
                    }
                },
            }
        }
    }
}

/// A persistent chunk tree: a root node and the leaf bound it was built with.
#[derive(Debug)]
pub struct ChunkTree<'a> {
    root: Arc<ChunkTreeNode<'a>>,
    n: usize,
}

impl<'a> View for ChunkTree<'a> {
    type V = Seq<Option<u8>>;

    /// The tree's cells: `Some(b)` for a stored byte, `None` for a gap cell.
    closed spec fn view(&self) -> Seq<Option<u8>> {
        self.root.cells()
    }
}

impl<'a> ChunkTree<'a> {
    /// The leaf bound is at least one and the root is well formed for it.
    pub closed spec fn wf(&self) -> bool {
        &&& self.n >= 1
        &&& self.root.wf(self.n)
    }

    /// The largest number of bytes a leaf of this tree holds.
    pub closed spec fn leaf_bound(&self) -> usize {
        self.n
    }

    /// The pieces an iteration over the tree yields.
    pub closed spec fn pieces(&self) -> Seq<ChunkPiece<'a>> {
        self.root.pieces()
    }

    /// The shape of the tree: the chunks an iteration over it yields.
    pub closed spec fn chunks(&self) -> Seq<Chunk> {
        self.root.chunks()
    }

    /// The number of levels of the tree.
    pub closed spec fn depth(&self) -> nat {
        self.root.depth()
    }

    /// An empty tree whose leaves will hold at most `n` bytes.
    pub fn new(n: usize) -> (tree: ChunkTree<'a>)
        requires
            n >= 1,
        ensures
            tree.wf(),
            tree.leaf_bound() == n,
            tree@ == Seq::<Option<u8>>::empty(),
            tree.chunks() == Seq::<Chunk>::empty(),
    {
        let root = ChunkTreeNode::Gap { size: 0 };
        proof {
            assert(root.wf(n));
            assert(root.cells() =~= Seq::<Option<u8>>::empty());
            root.lemma_chunks(n);
        }
        ChunkTree { root: Arc::new(root), n }
    }

    /// A tree of the bytes of `data`, which may be empty: one leaf where
    /// the data fit in a leaf, else a tree of the two halves of the data.
    pub fn from_slice(data: &'a [u8], n: usize) -> (tree: ChunkTree<'a>)
        requires
            n >= 1,
        ensures
            tree.wf(),
            tree.leaf_bound() == n,
            tree@ == data_cells(data@),
            tree.chunks() == halved(data@, n as nat),
            tree.depth() == halving_depth(data@.len(), n as nat),
    {
        ChunkTree { root: Arc::new(ChunkTreeNode::from_slice(data, n)), n }
    }

    /// The number of cells, gap cells included.
    pub fn len(&self) -> (len: usize)
        requires
            self.wf(),
        ensures
            len == self@.len(),
    {
        proof {
            self.root.lemma_len(self.n);
        }
        self.root.len()
    }

    /// Whether the tree has no cell.
    pub fn is_empty(&self) -> (empty: bool)
        requires
            self.wf(),
        ensures
            empty == (self@.len() == 0),
    {
        proof {
            self.root.lemma_len(self.n);
        }
        self.root.is_empty()
    }

    /// A tree with `data` spliced in at `index`. An index past the end is a
    /// sparse insert: the distance to it becomes a gap.
    pub fn insert(&self, index: usize, data: &'a [u8]) -> (tree: ChunkTree<'a>)
        requires
            self.wf(),
            self@.len() + data@.len() <= usize::MAX,
            index + data@.len() <= usize::MAX,
        ensures
            tree.wf(),
            tree.leaf_bound() == self.leaf_bound(),
            tree@ == spliced(self@, index as int, data_cells(data@)),
            tree.chunks() == chunks_spliced(
                self.chunks(),
                index as int,
                data@,
                self.leaf_bound() as nat,
            ),
    {
        proof {
            self.root.lemma_len(self.n);
            self.root.lemma_chunks(self.n);
        }
        if index <= self.len() {
            ChunkTree { root: Arc::new(self.root.insert(index, data, self.n)), n: self.n }
        } else {
            let gap = ChunkTreeNode::Gap { size: index - self.len() };
            let tail = ChunkTreeNode::from_slice(data, self.n);
            proof {
                assert(gap.wf(self.n));
                assert(gap.cells() == gap_cells((index - self@.len()) as nat));
                gap.lemma_chunks(self.n);
            }
            let root = ChunkTreeNode::Internal {
                left: share(&self.root),
                mid: Arc::new(gap),
                right: Arc::new(tail),
                size: index + data.len(),
            };
            proof {
                root.lemma_chunks(self.n);
            }
            ChunkTree { root: Arc::new(root), n: self.n }
        }
    }

    /// A tree without the cells `range.start..range.end`. The range is
    /// clamped to the tree; one that starts at or past the end, or ends
    /// before it starts, removes nothing.
    pub fn remove(&self, range: Range<usize>) -> (tree: ChunkTree<'a>)
        requires
            self.wf(),
        ensures
            tree.wf(),
            tree.leaf_bound() == self.leaf_bound(),
            tree@ == removed(self@, range.start as int, range.end as int),
            tree.chunks() == chunks_removed(self.chunks(), range.start as int, range.end as int),
            range.start >= self@.len() ==> tree@ == self@ && tree.chunks() == self.chunks(),
    {
        proof {
            self.root.lemma_len(self.n);
            self.root.lemma_chunks(self.n);
            lemma_removed_capped(self@, range.start as int, range.end as int);
            crate::chunk_shape::lemma_chunks_removed_clamped(
                self.chunks(),
                range.start as int,
                range.end as int,
                self@.len() as int,
            );
            if range.start >= self@.len() {
                crate::chunk_shape::lemma_chunks_removed_nothing(
                    self.chunks(),
                    range.start as int,
                    range.end as int,
                );
            }
        }
        if range.start < self.len() {
            let end = if self.root.len() < range.end {
                self.root.len()
            } else {
                range.end
            };
            proof {
                crate::chunk_shape::lemma_chunks_removed_clamped(
                    self.chunks(),
                    range.start as int,
                    end as int,
                    self@.len() as int,
                );
            }
            ChunkTree { root: Arc::new(self.root.remove(range.start..end, self.n)), n: self.n }
        } else {
            ChunkTree { root: share(&self.root), n: self.n }
        }
    }

    /// The tree's bytes, each gap cell as `gap_value`.
    pub fn collect_bytes(&self, gap_value: u8) -> (bytes: Vec<u8>)
        ensures
            bytes@ == fill(self@, gap_value),
    {
        let mut v = Vec::new();
        self.root.collect_bytes_into(gap_value, &mut v);
        proof {
            assert(v@ =~= fill(self@, gap_value));
        }
        v
    }

    /// Appends the tree's bytes to `output`, each gap cell as `gap_value`.
    pub fn collect_bytes_into(&self, gap_value: u8, output: &mut Vec<u8>)
        ensures
            final(output)@ == old(output)@ + fill(self@, gap_value),
    {
        self.root.collect_bytes_into(gap_value, output);
    }

    /// An iterator over the tree's pieces: its chunks, in order.
    pub fn iter(&'a self) -> (iter: ChunkTreeIterator<'a>)
        ensures
            iter.wf(),
            iter.remaining() == self.pieces(),
            pieces_chunks(iter.remaining()) == self.chunks(),
    {
        self.root.iter()
    }

    /// The pieces of a well-formed tree in a row are the tree's cells.
    pub proof fn lemma_pieces_cover(&self)
        requires
            self.wf(),
        ensures
            pieces_cells(self.pieces()) == self@,
    {
        self.root.lemma_pieces_cover(self.n);
    }
}

/// Inserting bytes within a tree leaves the bytes before and after the
/// insertion point as they were and puts the new bytes between them,
/// whatever byte fills the gaps.
pub proof fn lemma_insert_splices_content(
    cells: Seq<Option<u8>>,
    index: int,
    data: Seq<u8>,
    gap_value: u8,
)
    requires
        0 <= index <= cells.len(),
    ensures
        fill(spliced(cells, index, data_cells(data)), gap_value) == fill(
            cells,
            gap_value,
        ).subrange(0, index) + data + fill(cells, gap_value).subrange(index, cells.len() as int),
{
    assert(fill(spliced(cells, index, data_cells(data)), gap_value) =~= fill(
        cells,
        gap_value,
    ).subrange(0, index) + data + fill(cells, gap_value).subrange(index, cells.len() as int));
}

/// Inserting no bytes within a tree changes nothing.
pub proof fn lemma_insert_nothing(cells: Seq<Option<u8>>, index: int)
    requires
        0 <= index <= cells.len(),
    ensures
        spliced(cells, index, data_cells(Seq::<u8>::empty())) == cells,
{
    assert(spliced(cells, index, data_cells(Seq::<u8>::empty())) =~= cells);
}

/// Removing a range that lies entirely past the end changes nothing.
pub proof fn lemma_remove_past_end(cells: Seq<Option<u8>>, start: int, end: int)
    requires
        cells.len() <= start,
        0 <= end,
    ensures
        removed(cells, start, end) == cells,
{
    lemma_removed_capped(cells, start, end);
}

/// Inserting past the end gives a tree of exactly `index + |data|` cells:
/// the old content, then the gap filled with the gap byte, then the data.
pub proof fn lemma_sparse_insert(cells: Seq<Option<u8>>, index: int, data: Seq<u8>, gap_value: u8)
    requires
        index > cells.len(),
    ensures
        spliced(cells, index, data_cells(data)).len() == index + data.len(),
        fill(spliced(cells, index, data_cells(data)), gap_value) == fill(cells, gap_value)
            + Seq::new((index - cells.len()) as nat, |i: int| gap_value) + data,
{
    assert(fill(spliced(cells, index, data_cells(data)), gap_value) =~= fill(cells, gap_value)
        + Seq::new((index - cells.len()) as nat, |i: int| gap_value) + data);
}

} // verus!
