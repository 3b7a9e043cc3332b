//! The shape of a chunk tree: the chunks that a walk over the tree yields,
//! and what the tree's operations do to them.

use vstd::prelude::*;

verus! {

/// One chunk of a tree: a run of stored bytes or a gap of some size.
pub enum Chunk {
    Data(Seq<u8>),
    Gap(nat),
}

impl Chunk {
    /// The number of positions the chunk covers.
    pub open spec fn len(self) -> nat {
        match self {
            Chunk::Data(bytes) => bytes.len(),
            Chunk::Gap(size) => size,
        }
    }

    /// The first `k` positions of the chunk.
    pub open spec fn head(self, k: int) -> Chunk {
        match self {
            Chunk::Data(bytes) => Chunk::Data(bytes.subrange(0, k)),
            Chunk::Gap(size) => Chunk::Gap(k as nat),
        }
    }

    /// The chunk without its first `k` positions.
    pub open spec fn tail(self, k: int) -> Chunk {
        match self {
            Chunk::Data(bytes) => Chunk::Data(bytes.subrange(k, bytes.len() as int)),
            Chunk::Gap(size) => Chunk::Gap((size - k) as nat),
        }
    }

    /// What is left of the chunk when the positions `start..end` go, the
    /// range held to the chunk: of stored bytes the part before and the part
    /// after, each a chunk of its own; of a gap one smaller gap. Nothing
    /// that is empty is kept.
    pub open spec fn trimmed(self, start: int, end: int) -> Seq<Chunk> {
        let from = if start < 0 {
            0
        } else if start < self.len() {
            start
        } else {
            self.len() as int
        };
        let to = if end < from {
            from
        } else if end < self.len() {
            end
        } else {
            self.len() as int
        };
        match self {
            Chunk::Data(bytes) => {
                let before = if from > 0 {
                    seq![self.head(from)]
                } else {
                    Seq::empty()
                };
                let after = if to < self.len() {
                    seq![self.tail(to)]
                } else {
                    Seq::empty()
                };
                before + after
            },
            Chunk::Gap(size) => if size - (to - from) > 0 {
                seq![Chunk::Gap((size - (to - from)) as nat)]
            } else {
                Seq::empty()
            },
        }
    }
}

/// The number of positions a run of chunks covers.
pub open spec fn chunks_len(chunks: Seq<Chunk>) -> nat
    decreases chunks.len(),
{
    if chunks.len() == 0 {
        0
    } else {
        chunks[0].len() + chunks_len(chunks.drop_first())
    }
}

/// No chunk of the run is empty.
pub open spec fn chunks_full(chunks: Seq<Chunk>) -> bool {
    forall|i: int| 0 <= i < chunks.len() ==> (#[trigger] chunks[i]).len() > 0
}

/// The chunks that a tree built from `data` has: `data` itself where it
/// fits in a leaf of `n` bytes, else the chunks of its two halves.
pub open spec fn halved(data: Seq<u8>, n: nat) -> Seq<Chunk>
    decreases data.len(),
{
    if data.len() == 0 {
        Seq::empty()
    } else if data.len() <= n || data.len() < 2 {
        seq![Chunk::Data(data)]
    } else {
        halved(data.subrange(0, data.len() as int / 2), n) + halved(
            data.subrange(data.len() as int / 2, data.len() as int),
            n,
        )
    }
}

/// The chunks that cover the first `k` positions: the chunks that end at or
/// before `k`, then the head of the chunk that `k` falls inside, if any.
pub open spec fn chunks_take(chunks: Seq<Chunk>, k: int) -> Seq<Chunk>
    decreases chunks.len(),
{
    if chunks.len() == 0 || k <= 0 {
        Seq::empty()
    } else if k >= chunks[0].len() {
        seq![chunks[0]] + chunks_take(chunks.drop_first(), k - chunks[0].len())
    } else {
        seq![chunks[0].head(k)]
    }
}

/// The chunks that cover the positions from `k` on: the tail of the chunk
/// that `k` falls inside, if any, then the chunks that start at or after `k`.
pub open spec fn chunks_skip(chunks: Seq<Chunk>, k: int) -> Seq<Chunk>
    decreases chunks.len(),
{
    if chunks.len() == 0 {
        Seq::empty()
    } else if k <= 0 {
        chunks
    } else if k >= chunks[0].len() {
        chunks_skip(chunks.drop_first(), k - chunks[0].len())
    } else {
        seq![chunks[0].tail(k)] + chunks.drop_first()
    }
}

/// The chunks after `data` is inserted at `index` into a tree with leaves
/// of `n` bytes. Within the tree the chunk that the index falls inside is
/// cut in two and the chunks of the data come between; past the end a gap
/// that reaches up to the index comes first.
pub open spec fn chunks_spliced(chunks: Seq<Chunk>, index: int, data: Seq<u8>, n: nat) -> Seq<
    Chunk,
> {
    if index <= chunks_len(chunks) {
        chunks_take(chunks, index) + halved(data, n) + chunks_skip(chunks, index)
    } else {
        chunks + seq![Chunk::Gap((index - chunks_len(chunks)) as nat)] + halved(data, n)
    }
}

/// The chunks after the positions `start..end` are removed: what is left
/// of each chunk, in order.
pub open spec fn chunks_removed(chunks: Seq<Chunk>, start: int, end: int) -> Seq<Chunk>
    decreases chunks.len(),
{
    if chunks.len() == 0 {
        Seq::empty()
    } else {
        chunks[0].trimmed(start, end) + chunks_removed(
            chunks.drop_first(),
            start - chunks[0].len(),
            end - chunks[0].len(),
        )
    }
}

/// Lengths add up over two runs of chunks, and two full runs are a full run.
pub proof fn lemma_chunks_concat(a: Seq<Chunk>, b: Seq<Chunk>)
    ensures
        chunks_len(a + b) == chunks_len(a) + chunks_len(b),
        chunks_full(a) && chunks_full(b) ==> chunks_full(a + b),
    decreases a.len(),
{
    if a.len() == 0 {
        assert(a + b =~= b);
    } else {
        assert((a + b).drop_first() =~= a.drop_first() + b);
        lemma_chunks_concat(a.drop_first(), b);
    }
}

/// A single chunk covers its own length.
pub proof fn lemma_chunks_single(chunk: Chunk)
    ensures
        chunks_len(seq![chunk]) == chunk.len(),
        chunk.len() > 0 ==> chunks_full(seq![chunk]),
{
    let one = seq![chunk];
    assert(one.drop_first() =~= Seq::<Chunk>::empty());
    assert(chunks_len(one.drop_first()) == 0);
}

/// A full run that covers nothing has no chunk.
pub proof fn lemma_chunks_none(chunks: Seq<Chunk>)
    requires
        chunks_full(chunks),
        chunks_len(chunks) == 0,
    ensures
        chunks == Seq::<Chunk>::empty(),
{
    if chunks.len() > 0 {
        assert(chunks[0].len() > 0);
    }
    assert(chunks =~= Seq::<Chunk>::empty());
}

/// The rest of a full run is full.
pub proof fn lemma_full_rest(chunks: Seq<Chunk>)
    requires
        chunks_full(chunks),
        chunks.len() > 0,
    ensures
        chunks_full(chunks.drop_first()),
        chunks[0].len() > 0,
{
    assert forall|i: int| 0 <= i < chunks.drop_first().len() implies (
    #[trigger] chunks.drop_first()[i]).len() > 0 by {
        assert(chunks.drop_first()[i] == chunks[i + 1]);
    }
}

/// The chunks of data are full, cover the data, and hold at most `n` bytes each.
pub proof fn lemma_halved(data: Seq<u8>, n: nat)
    requires
        n >= 1,
    ensures
        chunks_full(halved(data, n)),
        chunks_len(halved(data, n)) == data.len(),
        0 < data.len() <= n ==> halved(data, n) == seq![Chunk::Data(data)],
        data.len() == 0 ==> halved(data, n) == Seq::<Chunk>::empty(),
    decreases data.len(),
{
    if data.len() == 0 {
    } else if data.len() <= n || data.len() < 2 {
        lemma_chunks_single(Chunk::Data(data));
    } else {
        let mid = data.len() as int / 2;
        let first = data.subrange(0, mid);
        let second = data.subrange(mid, data.len() as int);
        lemma_halved(first, n);
        lemma_halved(second, n);
        lemma_chunks_concat(halved(first, n), halved(second, n));
    }
}

/// Taking from two runs of chunks takes from the first, and from the
/// second only once the first is used up; skipping likewise.
pub proof fn lemma_chunks_take_skip_concat(a: Seq<Chunk>, b: Seq<Chunk>, k: int)
    requires
        chunks_full(a),
    ensures
        chunks_take(a + b, k) == if k <= chunks_len(a) {
            chunks_take(a, k)
        } else {
            a + chunks_take(b, k - chunks_len(a))
        },
        chunks_skip(a + b, k) == if k < chunks_len(a) {
            chunks_skip(a, k) + b
        } else {
            chunks_skip(b, k - chunks_len(a))
        },
    decreases a.len(),
{
    if a.len() == 0 {
        assert(a + b =~= b);
        assert(a + chunks_take(b, k) =~= chunks_take(b, k));
    } else {
        let first = a[0];
        let rest = a.drop_first();
        lemma_full_rest(a);
        assert((a + b).drop_first() =~= rest + b);
        assert((a + b)[0] == first);
        lemma_chunks_take_skip_concat(rest, b, k - first.len());
        if k <= 0 {
            assert(chunks_skip(a, k) + b =~= a + b);
        } else if k >= first.len() {
            if k <= chunks_len(a) {
            } else {
                assert(seq![first] + (rest + chunks_take(b, k - chunks_len(a))) =~= a
                    + chunks_take(b, k - chunks_len(a)));
            }
        } else {
            assert(seq![first.tail(k)] + (rest + b) =~= (seq![first.tail(k)] + rest) + b);
        }
    }
}

/// At the two ends of a full run nothing is cut: taking all of it gives
/// the run and skipping all of it gives nothing, and the other way round
/// at the start.
pub proof fn lemma_chunks_take_skip_ends(chunks: Seq<Chunk>, k: int)
    requires
        chunks_full(chunks),
    ensures
        k >= chunks_len(chunks) ==> chunks_take(chunks, k) == chunks && chunks_skip(chunks, k)
            == Seq::<Chunk>::empty(),
        k <= 0 ==> chunks_take(chunks, k) == Seq::<Chunk>::empty() && chunks_skip(chunks, k)
            == chunks,
    decreases chunks.len(),
{
    if chunks.len() > 0 {
        lemma_full_rest(chunks);
        lemma_chunks_take_skip_ends(chunks.drop_first(), k - chunks[0].len());
        if k >= chunks_len(chunks) {
            assert(seq![chunks[0]] + chunks.drop_first() =~= chunks);
        }
    } else {
        assert(chunks =~= Seq::<Chunk>::empty());
    }
}

/// Removing from two runs of chunks removes from each, the range shifted
/// into the second run's positions.
pub proof fn lemma_chunks_removed_concat(a: Seq<Chunk>, b: Seq<Chunk>, start: int, end: int)
    ensures
        chunks_removed(a + b, start, end) == chunks_removed(a, start, end) + chunks_removed(
            b,
            start - chunks_len(a),
            end - chunks_len(a),
        ),
    decreases a.len(),
{
    if a.len() == 0 {
        assert(a + b =~= b);
        assert(chunks_removed(a, start, end) + chunks_removed(b, start, end) =~= chunks_removed(
            b,
            start,
            end,
        ));
    } else {
        let first = a[0];
        let rest = a.drop_first();
        assert((a + b).drop_first() =~= rest + b);
        assert((a + b)[0] == first);
        lemma_chunks_removed_concat(rest, b, start - first.len(), end - first.len());
        assert(first.trimmed(start, end) + (chunks_removed(
            rest,
            start - first.len(),
            end - first.len(),
        ) + chunks_removed(b, start - chunks_len(a), end - chunks_len(a))) =~= (first.trimmed(
            start,
            end,
        ) + chunks_removed(rest, start - first.len(), end - first.len())) + chunks_removed(
            b,
            start - chunks_len(a),
            end - chunks_len(a),
        ));
    }
}

/// A range that does not reach a full run of chunks, because it lies
/// before it, after it, or is empty at one of its ends, removes nothing.
pub proof fn lemma_chunks_removed_nothing(chunks: Seq<Chunk>, start: int, end: int)
    requires
        chunks_full(chunks),
        start >= chunks_len(chunks) || (start <= 0 && end <= 0),
    ensures
        chunks_removed(chunks, start, end) == chunks,
    decreases chunks.len(),
{
    if chunks.len() == 0 {
        assert(chunks =~= Seq::<Chunk>::empty());
    } else {
        let first = chunks[0];
        lemma_full_rest(chunks);
        lemma_chunks_removed_nothing(chunks.drop_first(), start - first.len(), end - first.len());
        match first {
            Chunk::Data(bytes) => {
                assert(bytes.subrange(0, bytes.len() as int) =~= bytes);
                assert(first.trimmed(start, end) =~= seq![first]);
            },
            Chunk::Gap(size) => {
                assert(first.trimmed(start, end) =~= seq![first]);
            },
        }
        assert(seq![first] + chunks.drop_first() =~= chunks);
    }
}

/// Removing a range is removing the range held to the run of chunks, and
/// to no less than its own start.
pub proof fn lemma_chunks_removed_clamped(chunks: Seq<Chunk>, start: int, end: int, total: int)
    requires
        0 <= start,
        chunks_len(chunks) <= total,
    ensures
        chunks_removed(chunks, start, end) == chunks_removed(
            chunks,
            if start < total {
                start
            } else {
                total
            },
            if end < (if start < total {
                start
            } else {
                total
            }) {
                if start < total {
                    start
                } else {
                    total
                }
            } else if end < total {
                end
            } else {
                total
            },
        ),
    decreases chunks.len(),
{
    if chunks.len() > 0 {
        let first = chunks[0];
        let from = if start < total {
            start
        } else {
            total
        };
        let to = if end < from {
            from
        } else if end < total {
            end
        } else {
            total
        };
        assert(chunks_len(chunks) == first.len() + chunks_len(chunks.drop_first()));
        assert(first.trimmed(start, end) =~= first.trimmed(from, to));
        if start >= first.len() {
            lemma_chunks_removed_clamped(
                chunks.drop_first(),
                start - first.len(),
                end - first.len(),
                total - first.len(),
            );
        } else {
            lemma_chunks_removed_from_start(
                chunks.drop_first(),
                start - first.len(),
                end - first.len(),
                to - first.len(),
            );
            lemma_chunks_removed_from_start(
                chunks.drop_first(),
                from - first.len(),
                to - first.len(),
                to - first.len(),
            );
        }
    }
}

/// Where a range starts at or before a run of chunks, only its end counts,
/// and an end past the run counts as the end of the run.
pub proof fn lemma_chunks_removed_from_start(chunks: Seq<Chunk>, start: int, end: int, to: int)
    requires
        start <= 0,
        to == end || (to >= chunks_len(chunks) && end >= chunks_len(chunks)) || (to <= 0 && end
            <= 0),
    ensures
        chunks_removed(chunks, start, end) == chunks_removed(chunks, 0, to),
    decreases chunks.len(),
{
    if chunks.len() > 0 {
        let first = chunks[0];
        assert(chunks_len(chunks) == first.len() + chunks_len(chunks.drop_first()));
        assert(first.trimmed(start, end) =~= first.trimmed(0, to));
        lemma_chunks_removed_from_start(
            chunks.drop_first(),
            start - first.len(),
            end - first.len(),
            to - first.len(),
        );
        lemma_chunks_removed_from_start(
            chunks.drop_first(),
            0 - first.len(),
            to - first.len(),
            to - first.len(),
        );
    }
}

/// The chunks of a gap: the gap itself, or nothing if it is empty.
pub open spec fn gap_chunks(size: nat) -> Seq<Chunk> {
    if size > 0 {
        seq![Chunk::Gap(size)]
    } else {
        Seq::empty()
    }
}

/// Inserting into the bytes of one leaf cuts the leaf at the index.
pub proof fn lemma_spliced_leaf(bytes: Seq<u8>, index: int, data: Seq<u8>, n: nat)
    requires
        n >= 1,
        bytes.len() <= n,
        0 <= index <= bytes.len(),
    ensures
        chunks_spliced(halved(bytes, n), index, data, n) == halved(bytes.subrange(0, index), n)
            + halved(data, n) + halved(bytes.subrange(index, bytes.len() as int), n),
{
    let before = bytes.subrange(0, index);
    let after = bytes.subrange(index, bytes.len() as int);
    lemma_halved(bytes, n);
    lemma_halved(before, n);
    lemma_halved(after, n);
    let chunks = halved(bytes, n);
    if bytes.len() > 0 {
        let chunk = Chunk::Data(bytes);
        assert(chunks.drop_first() =~= Seq::<Chunk>::empty());
        assert(chunks[0] == chunk);
        if index == 0 {
            assert(after =~= bytes);
        } else if index == bytes.len() {
            assert(before =~= bytes);
            assert(chunks_take(chunks.drop_first(), 0) =~= Seq::<Chunk>::empty());
            assert(chunks_take(chunks, index) =~= chunks);
            assert(chunks_skip(chunks.drop_first(), 0) =~= Seq::<Chunk>::empty());
            assert(chunks_skip(chunks, index) =~= Seq::<Chunk>::empty());
        } else {
            assert(chunks_take(chunks, index) =~= seq![Chunk::Data(before)]);
            assert(chunks_skip(chunks, index) =~= seq![Chunk::Data(after)]);
        }
    }
}

/// Inserting into a gap splits the gap at the index.
pub proof fn lemma_spliced_gap_chunks(size: nat, index: int, data: Seq<u8>, n: nat)
    requires
        0 <= index <= size,
    ensures
        chunks_spliced(gap_chunks(size), index, data, n) == gap_chunks(index as nat) + halved(
            data,
            n,
        ) + gap_chunks((size - index) as nat),
{
    let chunks = gap_chunks(size);
    if size > 0 {
        lemma_chunks_single(Chunk::Gap(size));
        assert(chunks.drop_first() =~= Seq::<Chunk>::empty());
        assert(chunks[0] == Chunk::Gap(size));
        if index == 0 {
        } else if index == size {
            assert(chunks_take(chunks.drop_first(), 0) =~= Seq::<Chunk>::empty());
            assert(chunks_take(chunks, index) =~= chunks);
            assert(chunks_skip(chunks.drop_first(), 0) =~= Seq::<Chunk>::empty());
            assert(chunks_skip(chunks, index) =~= Seq::<Chunk>::empty());
        } else {
            assert(chunks_take(chunks, index) =~= seq![Chunk::Gap(index as nat)]);
            assert(chunks_skip(chunks, index) =~= seq![Chunk::Gap((size - index) as nat)]);
        }
    }
}

/// Inserting within the first of two runs of chunks leaves the second alone.
pub proof fn lemma_chunks_spliced_first(
    a: Seq<Chunk>,
    b: Seq<Chunk>,
    index: int,
    data: Seq<u8>,
    n: nat,
)
    requires
        chunks_full(a),
        chunks_full(b),
        0 <= index <= chunks_len(a),
    ensures
        chunks_spliced(a + b, index, data, n) == chunks_spliced(a, index, data, n) + b,
{
    lemma_chunks_concat(a, b);
    lemma_chunks_take_skip_concat(a, b, index);
    if index == chunks_len(a) {
        lemma_chunks_take_skip_ends(a, index);
        lemma_chunks_take_skip_ends(b, 0);
    }
    assert(chunks_take(a, index) + halved(data, n) + (chunks_skip(a, index) + b) =~= (chunks_take(
        a,
        index,
    ) + halved(data, n) + chunks_skip(a, index)) + b);
}

/// Inserting within the second of two runs of chunks leaves the first alone.
pub proof fn lemma_chunks_spliced_second(
    a: Seq<Chunk>,
    b: Seq<Chunk>,
    index: int,
    data: Seq<u8>,
    n: nat,
)
    requires
        chunks_full(a),
        chunks_full(b),
        chunks_len(a) <= index <= chunks_len(a) + chunks_len(b),
    ensures
        chunks_spliced(a + b, index, data, n) == a + chunks_spliced(
            b,
            index - chunks_len(a),
            data,
            n,
        ),
{
    lemma_chunks_concat(a, b);
    lemma_chunks_take_skip_concat(a, b, index);
    if index == chunks_len(a) {
        lemma_chunks_take_skip_ends(a, index);
        lemma_chunks_take_skip_ends(b, 0);
    }
    let rel = index - chunks_len(a);
    assert((a + chunks_take(b, rel)) + halved(data, n) + chunks_skip(b, rel) =~= a + (chunks_take(
        b,
        rel,
    ) + halved(data, n) + chunks_skip(b, rel)));
}

/// Removing from the bytes of one leaf leaves the part before and the part after.
pub proof fn lemma_removed_leaf(bytes: Seq<u8>, start: int, end: int, n: nat)
    requires
        n >= 1,
        bytes.len() <= n,
        0 <= start <= end <= bytes.len(),
    ensures
        chunks_removed(halved(bytes, n), start, end) == halved(bytes.subrange(0, start), n)
            + halved(bytes.subrange(end, bytes.len() as int), n),
{
    let before = bytes.subrange(0, start);
    let after = bytes.subrange(end, bytes.len() as int);
    lemma_halved(bytes, n);
    lemma_halved(before, n);
    lemma_halved(after, n);
    let chunks = halved(bytes, n);
    if bytes.len() > 0 {
        let chunk = Chunk::Data(bytes);
        assert(chunks.drop_first() =~= Seq::<Chunk>::empty());
        assert(chunks[0] == chunk);
        assert(chunks_removed(chunks.drop_first(), start - bytes.len(), end - bytes.len())
            =~= Seq::<Chunk>::empty());
        assert(chunk.trimmed(start, end) =~= halved(before, n) + halved(after, n));
        assert(chunks_removed(chunks, start, end) =~= chunk.trimmed(start, end));
    } else {
        assert(halved(before, n) + halved(after, n) =~= Seq::<Chunk>::empty());
    }
}

/// Removing from a gap leaves a smaller gap.
pub proof fn lemma_removed_gap_chunks(size: nat, start: int, end: int)
    requires
        0 <= start <= end <= size,
    ensures
        chunks_removed(gap_chunks(size), start, end) == gap_chunks((size - (end - start)) as nat),
{
    let chunks = gap_chunks(size);
    if size > 0 {
        let chunk = Chunk::Gap(size);
        assert(chunks.drop_first() =~= Seq::<Chunk>::empty());
        assert(chunks[0] == chunk);
        assert(chunks_removed(chunks.drop_first(), start - size, end - size) =~= Seq::<
            Chunk,
        >::empty());
        assert(chunks_removed(chunks, start, end) =~= chunk.trimmed(start, end));
    }
}

/// What a removal does to one of several runs of chunks in a row, the
/// range given in that run's own positions: if the range, held to zero,
/// starts within the run, it can be held to the run; else it removes nothing.
pub proof fn lemma_chunks_removed_part(chunks: Seq<Chunk>, start: int, end: int)
    requires
        chunks_full(chunks),
        start <= end,
    ensures
        ({
            let total = chunks_len(chunks) as int;
            let from = if start > 0 {
                start
            } else {
                0
            };
            let to = if end > 0 {
                end
            } else {
                0
            };
            if from < total {
                chunks_removed(chunks, start, end) == chunks_removed(
                    chunks,
                    from,
                    if to < total {
                        to
                    } else {
                        total
                    },
                )
            } else {
                chunks_removed(chunks, start, end) == chunks
            }
        }),
{
    let total = chunks_len(chunks) as int;
    let from = if start > 0 {
        start
    } else {
        0
    };
    let to = if end > 0 {
        end
    } else {
        0
    };
    if from < total {
        if start <= 0 {
            lemma_chunks_removed_from_start(chunks, start, end, to);
        }
        lemma_chunks_removed_clamped(chunks, from, to, total);
    } else {
        if start >= total {
            lemma_chunks_removed_nothing(chunks, start, end);
        } else {
            lemma_chunks_none(chunks);
        }
    }
}

/// The number of levels of a tree built from `len` bytes with leaves of
/// `n` bytes: one where the bytes fit in a leaf, else one more than for the
/// larger half.
pub open spec fn halving_depth(len: nat, n: nat) -> nat
    decreases len,
{
    if len <= n || len < 2 {
        1
    } else {
        1 + halving_depth((len - len / 2) as nat, n)
    }
}

/// More bytes do not make a shallower tree.
pub proof fn lemma_halving_depth_grows(len: nat, more: nat, n: nat)
    requires
        len <= more,
    ensures
        1 <= halving_depth(len, n) <= halving_depth(more, n),
    decreases more,
{
    if more <= n || more < 2 {
    } else if len <= n || len < 2 {
        lemma_halving_depth_grows((more - more / 2) as nat, (more - more / 2) as nat, n);
    } else {
        lemma_halving_depth_grows((len - len / 2) as nat, (more - more / 2) as nat, n);
    }
}

/// The depth grows with the logarithm of the length: bytes that fit in
/// `2^k` leaves make a tree of at most `k + 1` levels.
pub proof fn lemma_halving_depth_bound(len: nat, n: nat, k: nat)
    requires
        n >= 1,
        len <= n * vstd::arithmetic::power2::pow2(k),
    ensures
        halving_depth(len, n) <= k + 1,
    decreases k,
{
    vstd::arithmetic::power2::lemma_pow2_pos(k);
    if len <= n || len < 2 {
    } else {
        if k == 0 {
            vstd::arithmetic::power2::lemma2_to64();
            assert(n * vstd::arithmetic::power2::pow2(0) == n) by (nonlinear_arith)
                requires
                    vstd::arithmetic::power2::pow2(0) == 1,
            ;
        } else {
            let half = vstd::arithmetic::power2::pow2((k - 1) as nat);
            vstd::arithmetic::power2::lemma_pow2_unfold(k);
            assert(n * (2 * half) == 2 * (n * half)) by (nonlinear_arith);
            lemma_halving_depth_bound((len - len / 2) as nat, n, (k - 1) as nat);
        }
    }
}

} // verus!
