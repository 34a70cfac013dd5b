//! Uploads through staging pools: the byte order of uploaded words, how an
//! upload is cut into chunks and which pool carries each chunk, and the free
//! list through which a pool recycles its staging buffers.
use vstd::prelude::*;
use vstd::arithmetic::power2::{pow2, lemma_pow2_unfold};
use crate::memory::Allocation;

verus! {

/// The four bytes of `w`, least significant first.
pub open spec fn le_bytes(w: u32) -> Seq<u8> {
    seq![(w % 256) as u8, ((w / 256) % 256) as u8, ((w / 65536) % 256) as u8, (w / 16777216) as u8]
}

/// The four bytes of `w`, most significant first.
pub open spec fn be_bytes(w: u32) -> Seq<u8> {
    seq![(w / 16777216) as u8, ((w / 65536) % 256) as u8, ((w / 256) % 256) as u8, (w % 256) as u8]
}

/// The bytes of `words`, word after word, each least significant byte first.
pub open spec fn words_le_bytes(words: Seq<u32>) -> Seq<u8>
    decreases words.len(),
{
    if words.len() == 0 {
        Seq::empty()
    } else {
        words_le_bytes(words.drop_last()) + le_bytes(words.last())
    }
}

/// The bytes of `words`, word after word, each most significant byte first.
pub open spec fn words_be_bytes(words: Seq<u32>) -> Seq<u8>
    decreases words.len(),
{
    if words.len() == 0 {
        Seq::empty()
    } else {
        words_be_bytes(words.drop_last()) + be_bytes(words.last())
    }
}

/// The bytes of `words` in one byte order or the other.
pub open spec fn is_word_bytes(bytes: Seq<u8>, words: Seq<u32>) -> bool {
    bytes == words_le_bytes(words) || bytes == words_be_bytes(words)
}

/// Every word takes four bytes.
pub proof fn lemma_words_bytes_len(words: Seq<u32>)
    ensures
        words_le_bytes(words).len() == 4 * words.len(),
        words_be_bytes(words).len() == 4 * words.len(),
    decreases words.len(),
{
    if words.len() > 0 {
        lemma_words_bytes_len(words.drop_last());
    }
}

/// The bytes of two runs of words, one after the other, are the bytes of each run.
pub proof fn lemma_words_bytes_concat(a: Seq<u32>, b: Seq<u32>)
    ensures
        words_le_bytes(a + b) == words_le_bytes(a) + words_le_bytes(b),
        words_be_bytes(a + b) == words_be_bytes(a) + words_be_bytes(b),
    decreases b.len(),
{
    if b.len() == 0 {
        assert(a + b =~= a);
        assert(words_le_bytes(a) + words_le_bytes(b) =~= words_le_bytes(a));
        assert(words_be_bytes(a) + words_be_bytes(b) =~= words_be_bytes(a));
    } else {
        lemma_words_bytes_concat(a, b.drop_last());
        assert((a + b).drop_last() =~= a + b.drop_last());
        assert((a + b).last() == b.last());
        assert(words_le_bytes(a + b) =~= words_le_bytes(a) + words_le_bytes(b));
        assert(words_be_bytes(a + b) =~= words_be_bytes(a) + words_be_bytes(b));
    }
}

/// Word `k`'s four bytes sit at `4k` in the bytes of the words.
pub proof fn lemma_word_bytes_at(words: Seq<u32>, k: int)
    requires
        0 <= k < words.len(),
    ensures
        words_le_bytes(words).subrange(4 * k, 4 * k + 4) == le_bytes(words[k]),
        words_be_bytes(words).subrange(4 * k, 4 * k + 4) == be_bytes(words[k]),
    decreases words.len(),
{
    let rest = words.drop_last();
    lemma_words_bytes_len(rest);
    if k < words.len() - 1 {
        lemma_word_bytes_at(rest, k);
        assert(words_le_bytes(words).subrange(4 * k, 4 * k + 4) =~= words_le_bytes(rest).subrange(
            4 * k,
            4 * k + 4,
        ));
        assert(words_be_bytes(words).subrange(4 * k, 4 * k + 4) =~= words_be_bytes(rest).subrange(
            4 * k,
            4 * k + 4,
        ));
    } else {
        assert(words_le_bytes(words).subrange(4 * k, 4 * k + 4) =~= le_bytes(words.last()));
        assert(words_be_bytes(words).subrange(4 * k, 4 * k + 4) =~= be_bytes(words.last()));
    }
}

/// Calls `bytemuck::cast_slice::<u32, u8>` and copies the result: the bytes of
/// `words` in memory, so each word's four bytes come in the machine's byte
/// order, the same for every word. Which order that is, is not stated.
#[verifier::external_body]
pub(crate) fn words_as_bytes(words: &[u32]) -> (bytes: Vec<u8>)
    ensures
        is_word_bytes(bytes@, words@),
{
    bytemuck::cast_slice::<u32, u8>(words).to_vec()
}

/// Size of the smallest staging block.
pub const SMALLEST_STAGING_BLOCK: usize = 262144;

/// Number of staging pools.
pub const STAGING_POOL_COUNT: usize = 6;

/// Block size of staging pool `i`: 256 KiB, doubled for every pool after the first.
pub open spec fn staging_block_size(i: nat) -> nat {
    SMALLEST_STAGING_BLOCK as nat * pow2(i)
}

/// The block sizes of the staging pools, smallest first.
pub fn staging_block_sizes() -> (sizes: Vec<usize>)
    ensures
        sizes.len() == STAGING_POOL_COUNT,
        forall|i: int| 0 <= i < sizes.len() ==> sizes[i] == staging_block_size(i as nat),
{
    let mut sizes: Vec<usize> = Vec::new();
    let mut size: usize = SMALLEST_STAGING_BLOCK;
    let mut i: usize = 0;
    proof {
        vstd::arithmetic::power2::lemma2_to64();
    }
    while i < STAGING_POOL_COUNT
        invariant
            i <= STAGING_POOL_COUNT,
            sizes.len() == i,
            size == staging_block_size(i as nat),
            forall|k: int| 0 <= k < i ==> sizes[k] == staging_block_size(k as nat),
        decreases STAGING_POOL_COUNT - i,
    {
        sizes.push(size);
        proof {
            lemma_pow2_unfold((i + 1) as nat);
            vstd::arithmetic::power2::lemma2_to64();
            if i < 5 {
                vstd::arithmetic::power2::lemma_pow2_strictly_increases(i as nat, 5);
            }
            assert(size <= 262144 * 32) by (nonlinear_arith)
                requires
                    size == 262144 * pow2(i as nat),
                    pow2(i as nat) <= 32,
            ;
            assert(2 * size == staging_block_size((i + 1) as nat)) by (nonlinear_arith)
                requires
                    size == 262144 * pow2(i as nat),
                    pow2((i + 1) as nat) == 2 * pow2(i as nat),
            ;
        }
        size = size * 2;
        i = i + 1;
    }
    sizes
}

/// One piece of an upload: the bytes that pool `pool` copies to `offset` of
/// the frame buffer.
#[derive(Debug, PartialEq, Eq)]
pub struct UploadChunk {
    pub pool: usize,
    pub offset: u64,
    pub bytes: Vec<u8>,
}

/// `pool` is the first of `block_sizes` whose blocks hold `len` bytes.
pub open spec fn first_fitting_pool(block_sizes: Seq<usize>, pool: int, len: nat) -> bool {
    &&& 0 <= pool < block_sizes.len()
    &&& block_sizes[pool] >= len
    &&& forall|j: int| 0 <= j < pool ==> block_sizes[j] < len
}

/// Start of chunk `i` within the upload, for chunks of `chunk` bytes.
pub open spec fn chunk_start(i: int, chunk: nat) -> int {
    i * chunk
}

/// End of chunk `i` within an upload of `len` bytes.
pub open spec fn chunk_end(i: int, chunk: nat, len: nat) -> int {
    if (i + 1) * chunk < len {
        (i + 1) * chunk
    } else {
        len as int
    }
}

/// `chunks` carry `bytes` to `offset` of the frame buffer: chunks the size of
/// the largest staging block (the last one shorter), in order, each given to
/// the first pool whose blocks hold it.
pub open spec fn is_upload_plan(
    chunks: Seq<UploadChunk>,
    block_sizes: Seq<usize>,
    offset: nat,
    bytes: Seq<u8>,
) -> bool {
    let c = block_sizes.last() as nat;
    &&& chunks.len() == (bytes.len() + c - 1) / c as int
    &&& forall|i: int|
        #![trigger chunks[i]]
        0 <= i < chunks.len() ==> {
            &&& chunks[i].offset == offset + chunk_start(i, c)
            &&& chunks[i].bytes@ == bytes.subrange(
                chunk_start(i, c),
                chunk_end(i, c, bytes.len() as nat),
            )
            &&& first_fitting_pool(block_sizes, chunks[i].pool as int, chunks[i].bytes.len() as nat)
        }
}

/// Cuts `bytes`, bound for `offset` of the frame buffer, into chunks the size
/// of the largest staging block (the last one shorter), and gives each chunk
/// to the first pool whose blocks hold it.
pub fn plan_upload(block_sizes: &Vec<usize>, offset: u64, bytes: &Vec<u8>) -> (chunks: Vec<
    UploadChunk,
>)
    requires
        block_sizes.len() > 0,
        block_sizes@.last() > 0,
        offset + bytes.len() <= u64::MAX,
    ensures
        is_upload_plan(chunks@, block_sizes@, offset as nat, bytes@),
{
    let chunk = block_sizes[block_sizes.len() - 1];
    let len = bytes.len();
    let mut chunks: Vec<UploadChunk> = Vec::new();
    let mut start: usize = 0;
    let ghost c = chunk as nat;
    assert(chunks.len() * c == 0) by (nonlinear_arith)
        requires
            chunks.len() == 0,
    ;
    while start < len
        invariant
            c == chunk,
            chunk > 0,
            chunk == block_sizes@.last(),
            block_sizes.len() > 0,
            len == bytes.len(),
            offset + len <= u64::MAX,
            start == (if chunks.len() * c < len {
                chunks.len() * c
            } else {
                len as int
            }),
            chunks.len() > 0 ==> (chunks.len() - 1) * c < len,
            forall|i: int|
                #![trigger chunks@[i]]
                0 <= i < chunks.len() ==> {
                    &&& chunks@[i].offset == offset + chunk_start(i, c)
                    &&& chunks@[i].bytes@ == bytes@.subrange(
                        chunk_start(i, c),
                        chunk_end(i, c, len as nat),
                    )
                    &&& first_fitting_pool(
                        block_sizes@,
                        chunks@[i].pool as int,
                        chunks@[i].bytes.len() as nat,
                    )
                },
        decreases len - start,
    {
        let ghost n = chunks.len() as int;
        let end = if len - start > chunk {
            start + chunk
        } else {
            len
        };
        proof {
            assert(start == n * c);
            assert((n + 1) * c == n * c + c) by (nonlinear_arith);
            assert(chunk_end(n, c, len as nat) == end);
        }
        let piece = vstd::slice::slice_to_vec(
            vstd::slice::slice_subrange(bytes.as_slice(), start, end),
        );
        // The first pool whose blocks hold the piece; the last pool always does.
        let mut pool: usize = 0;
        while piece.len() > block_sizes[pool]
            invariant
                pool < block_sizes.len(),
                block_sizes.len() > 0,
                block_sizes@.last() >= piece.len(),
                forall|j: int| 0 <= j < pool ==> block_sizes@[j] < piece.len(),
            decreases block_sizes.len() - pool,
        {
            pool = pool + 1;
        }
        chunks.push(UploadChunk { pool, offset: offset + start as u64, bytes: piece });
        start = end;
    }
    proof {
        let n = chunks.len() as int;
        assert(n * c >= len);
        if n > 0 {
            assert((len + c - 1) / c as int == n) by (nonlinear_arith)
                requires
                    (n - 1) * c < len,
                    len <= n * c,
                    c > 0,
            ;
        } else {
            assert((len + c - 1) / c as int == 0) by (nonlinear_arith)
                requires
                    len == 0,
                    c > 0,
            ;
        }
    }
    chunks
}

/// The chunks of an upload plan follow one another without gap or overlap,
/// the last one ends where the upload ends, and no chunk is empty or larger
/// than the largest staging block.
pub proof fn lemma_upload_plan_tiles(
    chunks: Seq<UploadChunk>,
    block_sizes: Seq<usize>,
    offset: nat,
    bytes: Seq<u8>,
)
    requires
        block_sizes.len() > 0,
        block_sizes.last() > 0,
        is_upload_plan(chunks, block_sizes, offset, bytes),
    ensures
        forall|i: int|
            0 <= i < chunks.len() ==> 0 < (#[trigger] chunks[i]).bytes.len() <= block_sizes.last(),
        forall|i: int|
            0 <= i < chunks.len() - 1 ==> #[trigger] chunks[i].offset + chunks[i].bytes.len()
                == chunks[i + 1].offset,
        chunks.len() > 0 ==> chunks.last().offset + chunks.last().bytes.len() == offset
            + bytes.len(),
        chunks.len() == 0 ==> bytes.len() == 0,
{
    let c = block_sizes.last() as nat;
    let len = bytes.len();
    let n = chunks.len() as int;
    assert(n * c < len + c && len <= n * c) by (nonlinear_arith)
        requires
            n == (len + c - 1) / c as int,
            c > 0,
    ;
    assert forall|i: int| 0 <= i < n implies 0 < (#[trigger] chunks[i]).bytes.len() <= c
        && i * c < len by {
        assert(i * c < len && (i + 1) * c == i * c + c) by (nonlinear_arith)
            requires
                0 <= i < n,
                n * c < len + c,
                c > 0,
        ;
    }
    assert forall|i: int| 0 <= i < n - 1 implies #[trigger] chunks[i].offset
        + chunks[i].bytes.len() == chunks[i + 1].offset by {
        assert((i + 1) * c < len) by (nonlinear_arith)
            requires
                0 <= i < n - 1,
                n * c < len + c,
                c > 0,
        ;
        assert((i + 1) * c == i * c + c) by (nonlinear_arith);
    }
    if n > 0 {
        assert((n - 1) * c + c == n * c) by (nonlinear_arith);
        assert(chunks[n - 1].bytes.len() == len - (n - 1) * c);
    } else {
        assert(len == 0) by (nonlinear_arith)
            requires
                len <= n * c,
                n == 0,
        ;
    }
}

/// Cuts the upload of `words` into `allocation` into chunks for the staging
/// pools: the words' bytes in the machine's byte order, placed at the start of
/// the allocation.
pub fn plan_word_upload(block_sizes: &Vec<usize>, allocation: Allocation, words: &[u32]) -> (chunks:
    Vec<UploadChunk>)
    requires
        block_sizes.len() > 0,
        block_sizes@.last() > 0,
        allocation.elem_size % 4 == 0,
        words.len() * 4 == allocation.len * allocation.elem_size,
        allocation.offset + words.len() * 4 <= u64::MAX,
    ensures
        chunks.len() == (4 * words.len() + block_sizes@.last() - 1) / block_sizes@.last() as int,
        is_upload_plan(chunks@, block_sizes@, allocation.offset as nat, words_le_bytes(words@))
            || is_upload_plan(
            chunks@,
            block_sizes@,
            allocation.offset as nat,
            words_be_bytes(words@),
        ),
{
    let bytes = words_as_bytes(words);
    proof {
        lemma_words_bytes_len(words@);
    }
    plan_upload(block_sizes, allocation.offset as u64, &bytes)
}

/// Frames for which a staging buffer that came back is kept for reuse.
pub const STAGING_RETENTION_FRAMES: usize = 32;

/// A buffer that came back in frame `returned_at` is still kept in frame `frame`.
pub open spec fn is_retained(frame: usize, returned_at: usize) -> bool {
    frame.wrapping_sub(returned_at) < STAGING_RETENTION_FRAMES
}

/// The stamps of `entries` never decrease and none is after frame `frame`.
pub open spec fn stamps_in_order<B>(frame: usize, entries: Seq<(usize, B)>) -> bool {
    &&& forall|i: int, j: int|
        0 <= i < j < entries.len() ==> #[trigger] entries[i].0 <= #[trigger] entries[j].0
    &&& forall|i: int| 0 <= i < entries.len() ==> #[trigger] entries[i].0 <= frame
}

/// Filtering keeps every stamp within a bound that all stamps were within.
proof fn lemma_filter_bounded<B>(entries: Seq<(usize, B)>, keep: spec_fn((usize, B)) -> bool, bound: usize)
    requires
        forall|i: int| 0 <= i < entries.len() ==> #[trigger] entries[i].0 <= bound,
    ensures
        forall|i: int|
            0 <= i < entries.filter(keep).len() ==> #[trigger] entries.filter(keep)[i].0 <= bound,
    decreases entries.len(),
{
    reveal(Seq::filter);
    if entries.len() > 0 {
        let rest = entries.drop_last();
        assert forall|i: int| 0 <= i < rest.len() implies #[trigger] rest[i].0 <= bound by {
            assert(rest[i] == entries[i]);
        }
        lemma_filter_bounded(rest, keep, bound);
        let filtered = entries.filter(keep);
        if keep(entries.last()) {
            assert(filtered == rest.filter(keep).push(entries.last()));
        } else {
            assert(filtered == rest.filter(keep));
        }
    }
}

/// Filtering keeps stamps in order.
proof fn lemma_filter_in_order<B>(frame: usize, entries: Seq<(usize, B)>, keep: spec_fn((usize, B)) -> bool)
    requires
        stamps_in_order(frame, entries),
    ensures
        stamps_in_order(frame, entries.filter(keep)),
    decreases entries.len(),
{
    reveal(Seq::filter);
    lemma_filter_bounded(entries, keep, frame);
    if entries.len() > 0 {
        let rest = entries.drop_last();
        let last = entries.last();
        assert(stamps_in_order(frame, rest));
        lemma_filter_in_order(frame, rest, keep);
        assert forall|i: int| 0 <= i < rest.len() implies #[trigger] rest[i].0 <= last.0 by {
            assert(entries[i] == rest[i]);
        }
        lemma_filter_bounded(rest, keep, last.0);
    }
}

/// The buffers that `count` takes hand out from `entries`: the newest first,
/// none once the list is empty.
pub open spec fn handed_out<B>(entries: Seq<(usize, B)>, count: nat) -> Seq<Option<B>> {
    Seq::new(
        count,
        |j: int|
            if j < entries.len() {
                Some(entries[entries.len() - 1 - j].1)
            } else {
                None
            },
    )
}

/// What is left of `entries` after `count` takes.
pub open spec fn left_after<B>(entries: Seq<(usize, B)>, count: nat) -> Seq<(usize, B)> {
    if count >= entries.len() {
        Seq::empty()
    } else {
        entries.take(entries.len() - count)
    }
}

/// How many of `count` takes the buffers that arrived during the frame serve:
/// they go first, while there are any.
pub open spec fn arrived_takes(arrived: nat, count: nat) -> nat {
    if count < arrived {
        count
    } else {
        arrived
    }
}

/// The entries of a free list after a frame: those it had, then the buffers
/// returned before the frame under the new frame, less those handed out for
/// the takes that the buffers arriving during the frame did not serve, less
/// those kept too long.
pub open spec fn after_frame<B>(
    frame: usize,
    entries: Seq<(usize, B)>,
    returned: Seq<B>,
    arrived: Seq<B>,
    count: nat,
) -> Seq<(usize, B)> {
    let filed = entries + returned.map_values(|b: B| ((frame + 1) as usize, b));
    let from_list = (count - arrived_takes(arrived.len(), count)) as nat;
    left_after(filed, from_list).filter(|e: (usize, B)| is_retained((frame + 1) as usize, e.0))
}

/// The buffers that a pool hands out in a frame: first those that arrived
/// during the frame, earliest first, then those of its free list, newest
/// first, then none.
pub open spec fn handed_out_in_frame<B>(
    frame: usize,
    entries: Seq<(usize, B)>,
    returned: Seq<B>,
    arrived: Seq<B>,
    count: nat,
) -> Seq<Option<B>> {
    let k = arrived_takes(arrived.len(), count);
    arrived.take(k as int).map_values(|b: B| Some(b)) + handed_out(
        entries + returned.map_values(|b: B| ((frame + 1) as usize, b)),
        (count - k) as nat,
    )
}

/// The buffers that arrived during the frame and were not handed out: they
/// wait for the next frame, ahead of those that come back later.
pub open spec fn still_pending<B>(arrived: Seq<B>, count: nat) -> Seq<B> {
    arrived.skip(arrived_takes(arrived.len(), count) as int)
}

/// The staging buffers that a pool got back and may hand out again, each with
/// the frame in which it came back.
pub struct StagingFreeList<B> {
    frame_index: usize,
    free: Vec<(usize, B)>,
}

impl<B> StagingFreeList<B> {
    /// The current frame.
    pub closed spec fn frame_index(&self) -> usize {
        self.frame_index
    }

    /// The free buffers, oldest first, each with the frame in which it came back.
    pub closed spec fn entries(&self) -> Seq<(usize, B)> {
        self.free@
    }

    /// The current frame.
    pub fn current_frame(&self) -> (frame: usize)
        ensures
            frame == self.frame_index(),
    {
        self.frame_index
    }

    /// The stamps of the entries never decrease and none is after the current frame.
    pub open spec fn is_ordered(&self) -> bool {
        stamps_in_order(self.frame_index(), self.entries())
    }

    /// An empty free list, at frame 0.
    pub fn new() -> (list: Self)
        ensures
            list.frame_index() == 0,
            list.entries() == Seq::<(usize, B)>::empty(),
            list.is_ordered(),
    {
        StagingFreeList { frame_index: 0, free: Vec::new() }
    }

    /// Starts a frame: counts it, then files the buffers that came back since
    /// the last frame, in the order they came, under the new frame.
    pub fn begin_frame(&mut self, returned: Vec<B>)
        requires
            old(self).frame_index() < usize::MAX,
        ensures
            final(self).frame_index() == old(self).frame_index() + 1,
            final(self).entries() == old(self).entries() + returned@.map_values(
                |b: B| (final(self).frame_index(), b),
            ),
            old(self).is_ordered() ==> final(self).is_ordered(),
    {
        self.frame_index = self.frame_index + 1;
        let ghost frame = self.frame_index;
        let ghost start = self.free@;
        let ghost orig = returned@;
        let mut returned = returned;
        let count = returned.len();
        let mut i: usize = 0;
        while returned.len() > 0
            invariant
                returned@ == orig.skip(i as int),
                i <= orig.len(),
                orig.len() == count,
                self.frame_index == frame,
                self.free@ == start + orig.take(i as int).map_values(
                    |b: B| (self.frame_index, b),
                ),
            decreases returned.len(),
        {
            let buffer = returned.remove(0);
            proof {
                assert(orig.skip(i as int)[0] == orig[i as int]);
            }
            self.free.push((self.frame_index, buffer));
            i = i + 1;
            proof {
                assert(orig.skip((i - 1) as int).remove(0) =~= orig.skip(i as int));
                assert(orig.take(i as int).map_values(|b: B| (self.frame_index, b)) =~= orig.take(
                    (i - 1) as int,
                ).map_values(|b: B| (self.frame_index, b)).push((self.frame_index, orig[i - 1])));
            }
        }
        proof {
            assert(orig.take(i as int) =~= orig);
        }
    }

    /// Ends a frame: drops the buffers that came back `STAGING_RETENTION_FRAMES`
    /// or more frames ago, keeping the others in order.
    pub fn end_frame(&mut self)
        ensures
            final(self).frame_index() == old(self).frame_index(),
            final(self).entries() == old(self).entries().filter(
                |e: (usize, B)| is_retained(old(self).frame_index(), e.0),
            ),
            old(self).is_ordered() ==> final(self).is_ordered(),
    {
        let mut pending: Vec<(usize, B)> = Vec::new();
        std::mem::swap(&mut pending, &mut self.free);
        let ghost orig = pending@;
        let count = pending.len();
        let ghost frame = self.frame_index;
        let ghost keep = |e: (usize, B)| is_retained(self.frame_index, e.0);
        let mut i: usize = 0;
        proof {
            reveal(Seq::filter);
            assert(orig.take(0) =~= Seq::<(usize, B)>::empty());
        }
        while pending.len() > 0
            invariant
                pending@ == orig.skip(i as int),
                i <= orig.len(),
                orig.len() == count,
                self.frame_index == frame,
                keep == (|e: (usize, B)| is_retained(self.frame_index, e.0)),
                self.free@ == orig.take(i as int).filter(keep),
            decreases pending.len(),
        {
            let entry = pending.remove(0);
            proof {
                assert(orig.skip(i as int)[0] == orig[i as int]);
                reveal(Seq::filter);
                assert(orig.take(i + 1).drop_last() =~= orig.take(i as int));
                assert(orig.take(i + 1).last() == orig[i as int]);
                assert(orig.skip(i as int).remove(0) =~= orig.skip(i + 1));
            }
            if self.frame_index.wrapping_sub(entry.0) < STAGING_RETENTION_FRAMES {
                self.free.push(entry);
            }
            i = i + 1;
        }
        proof {
            assert(orig.take(i as int) =~= orig);
            if stamps_in_order(frame, orig) {
                lemma_filter_in_order(frame, orig, keep);
            }
        }
    }

    /// Hands out the buffer that came back last, if any.
    pub fn take(&mut self) -> (buffer: Option<B>)
        ensures
            old(self).entries().len() == 0 ==> buffer is None && final(self).entries() == old(
                self,
            ).entries(),
            old(self).entries().len() > 0 ==> buffer == Some(old(self).entries().last().1)
                && final(self).entries() == old(self).entries().drop_last(),
            final(self).frame_index() == old(self).frame_index(),
            old(self).is_ordered() ==> final(self).is_ordered(),
    {
        match self.free.pop() {
            Some(entry) => Some(entry.1),
            None => None,
        }
    }

    /// Hands out `count` buffers, the one that came back last first; none once
    /// the list is empty.
    pub fn take_many(&mut self, count: usize) -> (buffers: Vec<Option<B>>)
        ensures
            buffers@ == handed_out(old(self).entries(), count as nat),
            final(self).entries() == left_after(old(self).entries(), count as nat),
            final(self).frame_index() == old(self).frame_index(),
            old(self).is_ordered() ==> final(self).is_ordered(),
    {
        let ghost start = self.entries();
        let mut buffers: Vec<Option<B>> = Vec::new();
        let mut j: usize = 0;
        while j < count
            invariant
                j <= count,
                self.frame_index() == old(self).frame_index(),
                start == old(self).entries(),
                buffers@ == handed_out(start, j as nat),
                self.entries() == left_after(start, j as nat),
                old(self).is_ordered() ==> self.is_ordered(),
            decreases count - j,
        {
            let buffer = self.take();
            proof {
                if j < start.len() {
                    assert(left_after(start, j as nat).last() == start[start.len() - 1 - j]);
                    assert(left_after(start, j as nat).drop_last() =~= left_after(start, (j + 1) as nat));
                } else {
                    assert(left_after(start, (j + 1) as nat) =~= left_after(start, j as nat));
                }
            }
            buffers.push(buffer);
            j = j + 1;
            proof {
                assert(buffers@ =~= handed_out(start, j as nat));
            }
        }
        proof {
            if count == 0 {
                assert(start.take(start.len() as int) =~= start);
            }
        }
        buffers
    }

    /// One frame of the pool: starts it with the buffers that came back before
    /// it, hands out `count` buffers (those in `arrived`, which came back
    /// during the frame, first), and ends it. Gives the buffers handed out and
    /// the arrived ones left over.
    pub fn cycle(&mut self, returned: Vec<B>, arrived: Vec<B>, count: usize) -> (result: (
        Vec<Option<B>>,
        Vec<B>,
    ))
        requires
            old(self).frame_index() < usize::MAX,
        ensures
            final(self).frame_index() == old(self).frame_index() + 1,
            result.0@ == handed_out_in_frame(
                old(self).frame_index(),
                old(self).entries(),
                returned@,
                arrived@,
                count as nat,
            ),
            result.1@ == still_pending(arrived@, count as nat),
            final(self).entries() == after_frame(
                old(self).frame_index(),
                old(self).entries(),
                returned@,
                arrived@,
                count as nat,
            ),
            old(self).is_ordered() ==> final(self).is_ordered(),
    {
        self.begin_frame(returned);
        let ghost orig = arrived@;
        let mut arrived = arrived;
        let total = arrived.len();
        let mut buffers: Vec<Option<B>> = Vec::new();
        let mut used: usize = 0;
        while used < count && arrived.len() > 0
            invariant
                used <= count,
                used <= orig.len(),
                total == orig.len(),
                arrived@ == orig.skip(used as int),
                buffers@ == orig.take(used as int).map_values(|b: B| Some(b)),
            decreases count - used,
        {
            let buffer = arrived.remove(0);
            proof {
                assert(orig.skip(used as int)[0] == orig[used as int]);
                assert(orig.skip(used as int).remove(0) =~= orig.skip(used + 1));
            }
            buffers.push(Some(buffer));
            used = used + 1;
            proof {
                assert(buffers@ =~= orig.take(used as int).map_values(|b: B| Some(b)));
            }
        }
        assert(used == arrived_takes(orig.len(), count as nat));
        let mut rest = self.take_many(count - used);
        buffers.append(&mut rest);
        self.end_frame();
        (buffers, arrived)
    }
}

/// How many of `chunks` go through pool `pool`.
pub open spec fn pool_uses(chunks: Seq<UploadChunk>, pool: int) -> nat
    decreases chunks.len(),
{
    if chunks.len() == 0 {
        0
    } else {
        pool_uses(chunks.drop_last(), pool) + if chunks.last().pool == pool {
            1nat
        } else {
            0nat
        }
    }
}

/// Counting the uses of a whole is counting those of its parts.
pub proof fn lemma_pool_uses_add(a: Seq<UploadChunk>, b: Seq<UploadChunk>, pool: int)
    ensures
        pool_uses(a + b, pool) == pool_uses(a, pool) + pool_uses(b, pool),
    decreases b.len(),
{
    if b.len() == 0 {
        assert(a + b =~= a);
    } else {
        lemma_pool_uses_add(a, b.drop_last(), pool);
        assert((a + b).drop_last() =~= a + b.drop_last());
    }
}

/// Adds to `uses[p]` the number of `chunks` that go through pool `p`.
pub fn add_pool_uses(uses: &mut Vec<usize>, chunks: &Vec<UploadChunk>)
    requires
        forall|p: int| 0 <= p < old(uses).len() ==> #[trigger] old(uses)@[p] + chunks.len() <= usize::MAX,
    ensures
        final(uses).len() == old(uses).len(),
        forall|p: int|
            0 <= p < old(uses).len() ==> #[trigger] final(uses)@[p] == old(uses)@[p] + pool_uses(
                chunks@,
                p,
            ),
        forall|p: int| 0 <= p < old(uses).len() ==> #[trigger] pool_uses(chunks@, p) <= chunks.len(),
{
    let ghost start = uses@;
    let mut i: usize = 0;
    while i < chunks.len()
        invariant
            i <= chunks.len(),
            uses.len() == start.len(),
            forall|p: int| 0 <= p < start.len() ==> #[trigger] start[p] + chunks.len() <= usize::MAX,
            forall|p: int|
                0 <= p < start.len() ==> #[trigger] uses@[p] == start[p] + pool_uses(
                    chunks@.take(i as int),
                    p,
                ),
            forall|p: int| 0 <= p < start.len() ==> #[trigger] pool_uses(chunks@.take(i as int), p) <= i,
        decreases chunks.len() - i,
    {
        let pool = chunks[i].pool;
        proof {
            assert(chunks@.take(i + 1).drop_last() =~= chunks@.take(i as int));
            assert(chunks@.take(i + 1).last() == chunks@[i as int]);
            assert forall|p: int| 0 <= p < start.len() implies #[trigger] pool_uses(
                chunks@.take(i + 1),
                p,
            ) == pool_uses(chunks@.take(i as int), p) + if pool == p {
                1nat
            } else {
                0nat
            } by {}
        }
        if pool < uses.len() {
            let count = uses[pool];
            uses.set(pool, count + 1);
        }
        i = i + 1;
    }
    proof {
        assert(chunks@.take(i as int) =~= chunks@);
    }
}

/// The free lists of all staging pools, one per pool, in pool order.
pub struct StagingPools<B> {
    lists: Vec<StagingFreeList<B>>,
}

impl<B> StagingPools<B> {
    /// The free lists, in pool order.
    pub closed spec fn lists(&self) -> Seq<StagingFreeList<B>> {
        self.lists@
    }

    /// The free lists of `STAGING_POOL_COUNT` pools, each empty at frame 0.
    #[verifier::spinoff_prover]
    pub fn new() -> (pools: Self)
        ensures
            pools.lists().len() == STAGING_POOL_COUNT,
            forall|p: int|
                0 <= p < STAGING_POOL_COUNT ==> {
                    &&& #[trigger] pools.lists()[p].frame_index() == 0
                    &&& pools.lists()[p].entries().len() == 0
                    &&& pools.lists()[p].is_ordered()
                },
    {
        let mut lists: Vec<StagingFreeList<B>> = Vec::new();
        while lists.len() < STAGING_POOL_COUNT
            invariant
                lists.len() <= STAGING_POOL_COUNT,
                forall|p: int|
                    0 <= p < lists.len() ==> {
                        &&& #[trigger] lists@[p].frame_index() == 0
                        &&& lists@[p].entries().len() == 0
                        &&& lists@[p].is_ordered()
                    },
            decreases STAGING_POOL_COUNT - lists.len(),
        {
            let ghost before = lists@;
            let list = StagingFreeList::new();
            lists.push(list);
            proof {
                assert forall|p: int| 0 <= p < lists.len() implies {
                    &&& #[trigger] lists@[p].frame_index() == 0
                    &&& lists@[p].entries().len() == 0
                    &&& lists@[p].is_ordered()
                } by {
                    if p < before.len() {
                        assert(before[p].frame_index() == 0);
                        assert(lists@[p] == before[p]);
                    } else {
                        assert(lists@[p] == list);
                    }
                }
            }
        }
        let ghost all = lists@;
        let pools = StagingPools { lists };
        proof {
            assert forall|p: int| 0 <= p < STAGING_POOL_COUNT implies {
                &&& #[trigger] pools.lists()[p].frame_index() == 0
                &&& pools.lists()[p].entries().len() == 0
                &&& pools.lists()[p].is_ordered()
            } by {
                assert(all[p].frame_index() == 0);
                assert(pools.lists()[p] == all[p]);
            }
        }
        pools
    }

    /// Number of pools.
    pub fn count(&self) -> (count: usize)
        ensures
            count == self.lists().len(),
    {
        self.lists.len()
    }

    /// The current frame of pool `pool`.
    pub fn current_frame(&self, pool: usize) -> (frame: usize)
        requires
            pool < self.lists().len(),
        ensures
            frame == self.lists()[pool as int].frame_index(),
    {
        self.lists[pool].current_frame()
    }

    /// One frame of every pool: pool `p` starts it with `returned[p]`, hands
    /// out `uses[p]` buffers (those in `arrived[p]`, which came back during
    /// the frame, first), and ends it. Gives, per pool, the buffers handed out,
    /// in the order of the takes, and the arrived buffers left over.
    pub fn cycle(&mut self, returned: Vec<Vec<B>>, arrived: Vec<Vec<B>>, uses: &Vec<usize>) -> (result: (
        Vec<Vec<Option<B>>>,
        Vec<Vec<B>>,
    ))
        requires
            returned.len() == old(self).lists().len(),
            arrived.len() == old(self).lists().len(),
            uses.len() == old(self).lists().len(),
            forall|p: int|
                0 <= p < old(self).lists().len() ==> #[trigger] old(self).lists()[p].frame_index()
                    < usize::MAX,
        ensures
            final(self).lists().len() == old(self).lists().len(),
            result.0.len() == old(self).lists().len(),
            result.1.len() == old(self).lists().len(),
            forall|p: int|
                0 <= p < old(self).lists().len() ==> {
                    let before = #[trigger] old(self).lists()[p];
                    let after = final(self).lists()[p];
                    &&& after.frame_index() == before.frame_index() + 1
                    &&& result.0@[p]@ == handed_out_in_frame(
                        before.frame_index(),
                        before.entries(),
                        returned@[p]@,
                        arrived@[p]@,
                        uses@[p] as nat,
                    )
                    &&& result.1@[p]@ == still_pending(arrived@[p]@, uses@[p] as nat)
                    &&& after.entries() == after_frame(
                        before.frame_index(),
                        before.entries(),
                        returned@[p]@,
                        arrived@[p]@,
                        uses@[p] as nat,
                    )
                    &&& before.is_ordered() ==> after.is_ordered()
                },
    {
        let ghost old_lists = self.lists@;
        let ghost old_returned = returned@;
        let ghost old_arrived = arrived@;
        let mut pending: Vec<StagingFreeList<B>> = Vec::new();
        std::mem::swap(&mut pending, &mut self.lists);
        let mut returned = returned;
        let mut arrived = arrived;
        let n = pending.len();
        let mut handed: Vec<Vec<Option<B>>> = Vec::new();
        let mut left: Vec<Vec<B>> = Vec::new();
        let mut p: usize = 0;
        while p < n
            invariant
                n == old_lists.len(),
                p <= n,
                pending@ == old_lists.skip(p as int),
                returned@ == old_returned.skip(p as int),
                arrived@ == old_arrived.skip(p as int),
                old_returned.len() == n,
                old_arrived.len() == n,
                uses.len() == n,
                self.lists@.len() == p,
                handed@.len() == p,
                left@.len() == p,
                forall|q: int| 0 <= q < n ==> #[trigger] old_lists[q].frame_index() < usize::MAX,
                forall|q: int|
                    0 <= q < p ==> {
                        let before = #[trigger] old_lists[q];
                        let after = self.lists@[q];
                        &&& after.frame_index() == before.frame_index() + 1
                        &&& handed@[q]@ == handed_out_in_frame(
                            before.frame_index(),
                            before.entries(),
                            old_returned[q]@,
                            old_arrived[q]@,
                            uses@[q] as nat,
                        )
                        &&& left@[q]@ == still_pending(old_arrived[q]@, uses@[q] as nat)
                        &&& after.entries() == after_frame(
                            before.frame_index(),
                            before.entries(),
                            old_returned[q]@,
                            old_arrived[q]@,
                            uses@[q] as nat,
                        )
                        &&& before.is_ordered() ==> after.is_ordered()
                    },
            decreases n - p,
        {
            let mut list = pending.remove(0);
            let back = returned.remove(0);
            let late = arrived.remove(0);
            proof {
                assert(old_lists.skip(p as int)[0] == old_lists[p as int]);
                assert(old_returned.skip(p as int)[0] == old_returned[p as int]);
                assert(old_arrived.skip(p as int)[0] == old_arrived[p as int]);
                assert(old_lists.skip(p as int).remove(0) =~= old_lists.skip(p + 1));
                assert(old_returned.skip(p as int).remove(0) =~= old_returned.skip(p + 1));
                assert(old_arrived.skip(p as int).remove(0) =~= old_arrived.skip(p + 1));
            }
            let (buffers, rest) = list.cycle(back, late, uses[p]);
            self.lists.push(list);
            handed.push(buffers);
            left.push(rest);
            p = p + 1;
        }
        (handed, left)
    }
}

} // verus!
