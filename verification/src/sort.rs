//! The radix sort of the list keys: the table of per-round uniforms, the
//! workgroup counts of its reduction tree, and the commands of its pass.
use vstd::prelude::*;
use crate::memory::{Allocation, BufferRange, round_up, lemma_round_up, next_multiple_of};
use crate::pass::{
    Command, PassPlan, Pipeline, Resource, Stage, div_ceil, div_ceil_u32, pass_view, frame_resource,
    bindable, frame_binding,
};
use crate::staging::{
    le_bytes, be_bytes, words_as_bytes, words_le_bytes, words_be_bytes, lemma_word_bytes_at,
    lemma_words_bytes_len,
};

verus! {

/// Number of sort rounds: one per four-bit digit of a `u32` key.
pub const SORT_ROUNDS: usize = 8;

/// Keys that one workgroup of the sort handles.
pub const SORT_WORKGROUP_SIZE: u32 = 256;

/// Distance between the uniforms of two rounds: four bytes, rounded up to the
/// uniform offset alignment.
pub open spec fn uniform_stride(alignment: u32) -> nat {
    round_up(4, alignment as nat)
}

/// The bytes of round `k`'s uniform in `contents`.
pub open spec fn uniform_word(contents: Seq<u8>, k: int, stride: nat) -> Seq<u8> {
    contents.subrange(k * stride, k * stride + 4)
}

/// The padding after round `k`'s uniform in `contents`.
pub open spec fn uniform_padding(contents: Seq<u8>, k: int, stride: nat) -> Seq<u8> {
    contents.subrange(k * stride + 4, (k + 1) * stride)
}

/// The uniforms of the sort rounds: where each starts, and the bytes of the
/// uniform buffer.
#[derive(Debug, PartialEq, Eq)]
pub struct UniformLayout {
    pub offsets: Vec<u32>,
    pub contents: Vec<u8>,
}

/// `layout` is the sort's uniform buffer for the uniform offset alignment
/// `alignment`: round `k` reads the shift `4k` at offset `k * stride`, all
/// shifts in one byte order, and the bytes between two uniforms are zero.
pub open spec fn is_uniform_layout(layout: UniformLayout, alignment: u32) -> bool {
    let s = uniform_stride(alignment);
    &&& layout.offsets.len() == SORT_ROUNDS
    &&& forall|k: int| 0 <= k < SORT_ROUNDS ==> #[trigger] layout.offsets@[k] == (k * s) as u32
    &&& layout.contents.len() == 7 * s + 4
    &&& (forall|k: int|
        0 <= k < SORT_ROUNDS ==> #[trigger] uniform_word(layout.contents@, k, s) == le_bytes(
            (4 * k) as u32,
        )) || (forall|k: int|
        0 <= k < SORT_ROUNDS ==> #[trigger] uniform_word(layout.contents@, k, s) == be_bytes(
            (4 * k) as u32,
        ))
    &&& forall|k: int|
        0 <= k < SORT_ROUNDS - 1 ==> #[trigger] uniform_padding(layout.contents@, k, s) == Seq::new(
            (s - 4) as nat,
            |i: int| 0u8,
        )
}

/// `round_up` of a multiple of `align` plus `v`.
proof fn lemma_round_up_shift(q: nat, v: nat, align: nat)
    requires
        align > 0,
        q % align == 0,
    ensures
        round_up(q + v, align) == q + round_up(v, align),
{
    vstd::arithmetic::div_mod::lemma_fundamental_div_mod(q as int, align as int);
    vstd::arithmetic::div_mod::lemma_mod_multiples_vanish((q / align) as int, v as int, align as int);
}

/// Round `k`'s uniform starts at `k * stride`: the end of round `k - 1`'s
/// uniform, rounded up to the alignment.
proof fn lemma_uniform_offset(k: nat, s: nat, align: nat)
    requires
        align > 0,
        s == round_up(4, align),
        s % align == 0,
    ensures
        round_up(if k == 0 {
            0
        } else {
            ((k - 1) * s + 4) as nat
        }, align) == k * s,
{
    if k > 0 {
        let a = align as int;
        let si = s as int;
        let km = k as int - 1;
        vstd::arithmetic::div_mod::lemma_fundamental_div_mod(si, a);
        assert(km * si == (km * (si / a)) * a) by (nonlinear_arith)
            requires
                si == a * (si / a) + si % a,
                si % a == 0,
        ;
        vstd::arithmetic::div_mod::lemma_mod_multiples_basic(km * (si / a), a);
        lemma_round_up_shift(((k - 1) * s) as nat, 4, align);
        assert((k - 1) * s + s == k * s) by (nonlinear_arith);
    } else {
        lemma_round_up(0, align);
    }
}

/// Whether the uniform buffer of the sort can be laid out for the uniform
/// offset alignment `alignment`: the alignment is not zero and the buffer fits
/// the address space.
pub fn uniform_layout_fits(alignment: u32) -> (fits: bool)
    ensures
        fits == (alignment > 0 && 7 * uniform_stride(alignment) + 4 <= usize::MAX),
{
    if alignment == 0 {
        return false;
    }
    proof {
        lemma_round_up(4, alignment as nat);
    }
    let a = alignment as usize;
    let r = 4 % a;
    let stride = if r == 0 {
        4
    } else {
        match 4usize.checked_add(a - r) {
            Some(v) => v,
            None => return false,
        }
    };
    match stride.checked_mul(7) {
        Some(v) => v.checked_add(4).is_some(),
        None => false,
    }
}

/// The sort's uniform buffer for the uniform offset alignment `alignment`.
pub fn uniform_layout(alignment: u32) -> (layout: UniformLayout)
    requires
        alignment > 0,
        7 * uniform_stride(alignment) + 4 <= usize::MAX,
    ensures
        is_uniform_layout(layout, alignment),
{
    let ghost s = uniform_stride(alignment);
    proof {
        lemma_round_up(4, alignment as nat);
    }
    // The shifts of all rounds, converted to bytes in one go so that they share
    // one byte order.
    let mut shifts: Vec<u32> = Vec::new();
    let mut shift: u32 = 0;
    while shifts.len() < SORT_ROUNDS
        invariant
            shifts.len() <= SORT_ROUNDS,
            shift == 4 * shifts.len(),
            forall|j: int| 0 <= j < shifts.len() ==> #[trigger] shifts@[j] == 4 * j,
        decreases SORT_ROUNDS - shifts.len(),
    {
        shifts.push(shift);
        shift = shift + 4;
    }
    let bytes = words_as_bytes(shifts.as_slice());
    let ghost little = bytes@ == words_le_bytes(shifts@);
    proof {
        lemma_words_bytes_len(shifts@);
    }
    let mut offsets: Vec<u32> = Vec::new();
    let mut contents: Vec<u8> = Vec::new();
    let mut k: usize = 0;
    while k < SORT_ROUNDS
        invariant
            alignment > 0,
            s == uniform_stride(alignment),
            s % (alignment as nat) == 0,
            4 <= s,
            7 * s + 4 <= usize::MAX,
            k <= SORT_ROUNDS,
            shifts.len() == SORT_ROUNDS,
            forall|j: int| 0 <= j < SORT_ROUNDS ==> #[trigger] shifts@[j] == 4 * j,
            bytes.len() == 4 * SORT_ROUNDS,
            little ==> bytes@ == words_le_bytes(shifts@),
            !little ==> bytes@ == words_be_bytes(shifts@),
            offsets.len() == k,
            contents.len() == (if k == 0 {
                0
            } else {
                (k - 1) * s + 4
            }),
            forall|j: int| 0 <= j < k ==> #[trigger] offsets@[j] == (j * s) as u32,
            forall|j: int|
                0 <= j < k ==> #[trigger] uniform_word(contents@, j, s) == if little {
                    le_bytes((4 * j) as u32)
                } else {
                    be_bytes((4 * j) as u32)
                },
            forall|j: int|
                0 <= j < k - 1 ==> #[trigger] uniform_padding(contents@, j, s) == Seq::new(
                    (s - 4) as nat,
                    |i: int| 0u8,
                ),
        decreases SORT_ROUNDS - k,
    {
        let ghost before = contents@;
        let len = contents.len();
        proof {
            assert(k * s <= 7 * s) by (nonlinear_arith)
                requires
                    k < 8,
            ;
            lemma_uniform_offset(k as nat, s, alignment as nat);
        }
        let offset = next_multiple_of(len, alignment as usize);
        assert(offset == k * s);
        while contents.len() < offset
            invariant
                len <= contents.len() <= offset,
                contents@.subrange(0, len as int) == before,
                forall|i: int| len <= i < contents.len() ==> contents@[i] == 0u8,
            decreases offset - contents.len(),
        {
            contents.push(0u8);
        }
        offsets.push(offset as u32);
        let base = 4 * k;
        contents.push(bytes[base]);
        contents.push(bytes[base + 1]);
        contents.push(bytes[base + 2]);
        contents.push(bytes[base + 3]);
        proof {
            lemma_word_bytes_at(shifts@, k as int);
            assert(contents@.subrange(0, len as int) =~= before);
            assert(uniform_word(contents@, k as int, s) =~= bytes@.subrange(
                4 * k as int,
                4 * k as int + 4,
            ));
            assert forall|j: int| 0 <= j < k implies #[trigger] uniform_word(contents@, j, s)
                == uniform_word(before, j, s) by {
                assert(j * s + 4 <= len) by (nonlinear_arith)
                    requires
                        j < k,
                        len == (k - 1) * s + 4,
                ;
                assert(uniform_word(contents@, j, s) =~= uniform_word(before, j, s));
            }
            assert forall|j: int| 0 <= j < k - 1 implies #[trigger] uniform_padding(contents@, j, s)
                == uniform_padding(before, j, s) by {
                assert((j + 1) * s <= len && j * s + 4 <= (j + 1) * s) by (nonlinear_arith)
                    requires
                        0 <= j < k - 1,
                        len == (k - 1) * s + 4,
                        s >= 4,
                ;
                assert(uniform_padding(contents@, j, s) =~= uniform_padding(before, j, s));
            }
            if k > 0 {
                assert(uniform_padding(contents@, k - 1, s) =~= Seq::new(
                    (s - 4) as nat,
                    |i: int| 0u8,
                )) by {
                    assert(k * s == (k - 1) * s + s) by (nonlinear_arith);
                }
            }
        }
        k = k + 1;
    }
    UniformLayout { offsets, contents }
}

/// The workgroup counts of the reduction tree over `count` keys: the count
/// itself, then each level's count divided by the workgroup size and rounded
/// up, as long as it is above one.
pub open spec fn reduction_chain(count: u32) -> Seq<u32>
    decreases count,
{
    if count <= 1 {
        Seq::empty()
    } else {
        seq![count] + reduction_chain(div_ceil(count as nat, 256) as u32)
    }
}

/// Workgroups of the key counting stage (and of the key scanning stage).
pub open spec fn init_dispatch(count: u32) -> u32 {
    let chain = reduction_chain(count);
    if chain.len() >= 2 {
        chain[1]
    } else {
        1
    }
}

/// Workgroups of each histogram merging dispatch, in order; the scan runs
/// them in reverse.
pub open spec fn merge_dispatches(count: u32) -> Seq<u32> {
    let chain = reduction_chain(count);
    if chain.len() >= 2 {
        chain.skip(2).push(1)
    } else {
        seq![1u32]
    }
}

/// Sum of a sequence of counts.
pub open spec fn total(s: Seq<u32>) -> nat
    decreases s.len(),
{
    if s.len() == 0 {
        0
    } else {
        total(s.drop_last()) + s.last() as nat
    }
}

/// Histograms that the sort of `count` keys needs: one for each workgroup of
/// the counting stage and of every merging dispatch.
pub open spec fn histogram_capacity(count: u32) -> nat {
    init_dispatch(count) as nat + total(merge_dispatches(count))
}

/// The levels of the reduction tree shrink: every level after the first is at
/// most half the one before, and there are at most four of them.
pub proof fn lemma_reduction_chain(count: u32)
    ensures
        reduction_chain(count).len() <= 4,
        count <= 0x100_0000 ==> reduction_chain(count).len() <= 3,
        count <= 0x1_0000 ==> reduction_chain(count).len() <= 2,
        count <= 256 ==> reduction_chain(count).len() <= 1,
        forall|i: int|
            0 <= i < reduction_chain(count).len() ==> 2 <= #[trigger] reduction_chain(count)[i]
                <= count,
        forall|i: int|
            0 < i < reduction_chain(count).len() ==> #[trigger] reduction_chain(count)[i]
                == div_ceil(reduction_chain(count)[i - 1] as nat, 256),
    decreases count,
{
    if count > 1 {
        let next = div_ceil(count as nat, 256) as u32;
        lemma_reduction_chain(next);
        let chain = reduction_chain(count);
        assert(chain == seq![count] + reduction_chain(next));
        assert forall|i: int| 0 < i < chain.len() implies #[trigger] chain[i] == div_ceil(
            chain[i - 1] as nat,
            256,
        ) by {
            if i > 1 {
                assert(chain[i] == reduction_chain(next)[i - 1]);
            }
        }
    }
}

/// Workgroup counts of the sort of some keys.
#[derive(Debug, PartialEq, Eq)]
pub struct SortDispatches {
    /// Workgroups of the counting and the key scanning stages.
    pub init: u32,
    /// Workgroups of each merging dispatch, in order.
    pub merges: Vec<u32>,
}

/// The workgroup counts of the sort of `count` keys.
pub fn sort_dispatches(count: u32) -> (dispatches: SortDispatches)
    ensures
        dispatches.init == init_dispatch(count),
        dispatches.merges@ == merge_dispatches(count),
{
    let mut chain: Vec<u32> = Vec::new();
    let mut level = count;
    proof {
        lemma_reduction_chain(count);
    }
    while level > 1
        invariant
            chain@ + reduction_chain(level) == reduction_chain(count),
        decreases level,
    {
        let next = div_ceil_u32(level, SORT_WORKGROUP_SIZE);
        proof {
            assert(reduction_chain(level) == seq![level] + reduction_chain(next));
            assert(chain@.push(level) + reduction_chain(next) =~= chain@ + reduction_chain(level));
        }
        chain.push(level);
        level = next;
    }
    proof {
        assert(chain@ =~= reduction_chain(count));
    }
    let init = if chain.len() >= 2 {
        chain[1]
    } else {
        1
    };
    let mut merges: Vec<u32> = Vec::new();
    if chain.len() >= 2 {
        let mut i: usize = 2;
        while i < chain.len()
            invariant
                2 <= i <= chain.len(),
                chain@ == reduction_chain(count),
                merges@ == chain@.subrange(2, i as int),
            decreases chain.len() - i,
        {
            merges.push(chain[i]);
            i = i + 1;
            proof {
                assert(merges@ =~= chain@.subrange(2, i as int));
            }
        }
    }
    merges.push(1);
    proof {
        if chain.len() >= 2 {
            assert(merges@ =~= chain@.skip(2).push(1));
        } else {
            assert(merges@ =~= seq![1u32]);
        }
    }
    SortDispatches { init, merges }
}

/// Histograms that the sort of `key_count` keys needs (the count taken as a
/// `u32`): one for each workgroup of the counting stage and of every merging
/// dispatch.
pub fn min_histogram_capacity(key_count: usize) -> (capacity: usize)
    ensures
        capacity == histogram_capacity(key_count as u32),
        capacity <= 0x0103_0000,
{
    let count = key_count as u32;
    let dispatches = sort_dispatches(count);
    let ghost chain = reduction_chain(count);
    proof {
        lemma_reduction_chain(count);
        if chain.len() >= 2 {
            assert(chain[1] <= 0x100_0000);
            if chain.len() >= 3 {
                assert(chain[2] <= 0x1_0000);
            }
            if chain.len() >= 4 {
                assert(chain[2] <= 0x1_0000);
                assert(chain[3] <= 0x100);
            }
        }
        assert(forall|i: int| 0 <= i < dispatches.merges.len() ==> dispatches.merges@[i] <= 0x1_0000);
        assert(dispatches.merges.len() <= 3);
    }
    let mut capacity: usize = dispatches.init as usize;
    let mut i: usize = 0;
    while i < dispatches.merges.len()
        invariant
            dispatches.merges.len() <= 3,
            dispatches.init <= 0x100_0000,
            forall|j: int| 0 <= j < dispatches.merges.len() ==> dispatches.merges@[j] <= 0x1_0000,
            i <= dispatches.merges.len(),
            capacity == dispatches.init + total(dispatches.merges@.take(i as int)),
            capacity <= 0x100_0000 + i * 0x1_0000,
        decreases dispatches.merges.len() - i,
    {
        proof {
            assert(dispatches.merges@.take(i + 1).drop_last() =~= dispatches.merges@.take(i as int));
        }
        capacity = capacity + dispatches.merges[i] as usize;
        i = i + 1;
    }
    proof {
        assert(dispatches.merges@.take(i as int) =~= dispatches.merges@);
    }
    capacity
}

/// The commands of the sort round that reads its uniform at `offset`.
pub open spec fn sort_round(offset: u32, init: u32, merges: Seq<u32>) -> Seq<Command> {
    seq![
        Command::SetBindGroup(Some(offset)),
        Command::SetPipeline(Stage::CountKeys),
        Command::Dispatch(init, 1, 1),
        Command::SetPipeline(Stage::MergeHistograms),
    ] + merges.map_values(|d: u32| Command::Dispatch(d, 1, 1)) + seq![
        Command::SetPipeline(Stage::InitOffsetHistogram),
        Command::Dispatch(1, 1, 1),
        Command::SetPipeline(Stage::ScanHistograms),
    ] + merges.reverse().map_values(|d: u32| Command::Dispatch(d, 1, 1)) + seq![
        Command::SetPipeline(Stage::ScanKeys),
        Command::Dispatch(init, 1, 1),
    ]
}

/// The commands of all sort rounds, one round per uniform offset.
pub open spec fn sort_rounds(offsets: Seq<u32>, init: u32, merges: Seq<u32>) -> Seq<Command>
    decreases offsets.len(),
{
    if offsets.len() == 0 {
        Seq::empty()
    } else {
        sort_rounds(offsets.drop_last(), init, merges) + sort_round(offsets.last(), init, merges)
    }
}

/// Appends one dispatch per count of `counts`, in order or in reverse.
fn push_dispatches(commands: &mut Vec<Command>, counts: &Vec<u32>, reverse: bool)
    ensures
        final(commands)@ == old(commands)@ + (if reverse {
            counts@.reverse()
        } else {
            counts@
        }).map_values(|d: u32| Command::Dispatch(d, 1, 1)),
{
    let ghost start = commands@;
    let ghost order = if reverse {
        counts@.reverse()
    } else {
        counts@
    };
    let n = counts.len();
    let mut i: usize = 0;
    while i < n
        invariant
            n == counts.len(),
            order.len() == n,
            order == (if reverse {
                counts@.reverse()
            } else {
                counts@
            }),
            i <= n,
            commands@ == start + order.take(i as int).map_values(|d: u32| Command::Dispatch(d, 1, 1)),
        decreases n - i,
    {
        let d = if reverse {
            counts[n - 1 - i]
        } else {
            counts[i]
        };
        assert(d == order[i as int]);
        commands.push(Command::Dispatch(d, 1, 1));
        i = i + 1;
        proof {
            assert(order.take(i as int).map_values(|d: u32| Command::Dispatch(d, 1, 1))
                =~= order.take(i - 1).map_values(|d: u32| Command::Dispatch(d, 1, 1)).push(
                Command::Dispatch(d, 1, 1),
            ));
        }
    }
    proof {
        assert(order.take(n as int) =~= order);
    }
}

/// The sort's buffers: the keys, their scratch copy and the histograms.
#[derive(Clone, Copy, Debug, PartialEq, Eq)]
pub struct SortBuffers {
    pub keys: Allocation,
    pub temp_keys: Allocation,
    pub histograms: Allocation,
}

/// The sort pipeline's uniform range: the four bytes of one round's shift.
pub open spec fn sort_uniform_resource() -> Resource {
    Resource::SortUniforms(BufferRange { offset: 0, size: Some(4) })
}

/// The sort's part of the frame: nothing where a buffer is empty, else all its
/// rounds over the keys (their count taken as a `u32`).
pub open spec fn sort_pass_spec(buffers: SortBuffers, uniform_offsets: Seq<u32>) -> Option<
    (Pipeline, Seq<Resource>, Seq<Command>),
> {
    if buffers.keys.len == 0 || buffers.temp_keys.len == 0 || buffers.histograms.len == 0 {
        None
    } else {
        Some(
            (
                Pipeline::Sort,
                seq![
                    frame_resource(buffers.keys),
                    frame_resource(buffers.temp_keys),
                    frame_resource(buffers.histograms),
                    sort_uniform_resource(),
                ],
                sort_rounds(
                    uniform_offsets,
                    init_dispatch(buffers.keys.len as u32),
                    merge_dispatches(buffers.keys.len as u32),
                ),
            ),
        )
    }
}

/// The sort's part of the frame.
pub fn sort_pass(buffers: &SortBuffers, uniform_offsets: &Vec<u32>) -> (plan: Option<PassPlan>)
    requires
        bindable(buffers.keys),
        bindable(buffers.temp_keys),
        bindable(buffers.histograms),
    ensures
        pass_view(plan) == sort_pass_spec(*buffers, uniform_offsets@),
{
    let keys = match frame_binding(&buffers.keys) {
        Some(resource) => resource,
        None => return None,
    };
    let temp_keys = match frame_binding(&buffers.temp_keys) {
        Some(resource) => resource,
        None => return None,
    };
    let histograms = match frame_binding(&buffers.histograms) {
        Some(resource) => resource,
        None => return None,
    };
    let mut resources: Vec<Resource> = Vec::new();
    resources.push(keys);
    resources.push(temp_keys);
    resources.push(histograms);
    resources.push(Resource::SortUniforms(BufferRange { offset: 0, size: Some(4) }));
    let length = buffers.keys.len as u32;
    let dispatches = sort_dispatches(length);
    let mut commands: Vec<Command> = Vec::new();
    let n = uniform_offsets.len();
    let mut i: usize = 0;
    while i < n
        invariant
            n == uniform_offsets.len(),
            i <= n,
            commands@ == sort_rounds(
                uniform_offsets@.take(i as int),
                dispatches.init,
                dispatches.merges@,
            ),
        decreases n - i,
    {
        let offset = uniform_offsets[i];
        let ghost before = commands@;
        commands.push(Command::SetBindGroup(Some(offset)));
        commands.push(Command::SetPipeline(Stage::CountKeys));
        commands.push(Command::Dispatch(dispatches.init, 1, 1));
        commands.push(Command::SetPipeline(Stage::MergeHistograms));
        push_dispatches(&mut commands, &dispatches.merges, false);
        commands.push(Command::SetPipeline(Stage::InitOffsetHistogram));
        commands.push(Command::Dispatch(1, 1, 1));
        commands.push(Command::SetPipeline(Stage::ScanHistograms));
        push_dispatches(&mut commands, &dispatches.merges, true);
        commands.push(Command::SetPipeline(Stage::ScanKeys));
        commands.push(Command::Dispatch(dispatches.init, 1, 1));
        proof {
            assert(commands@ =~= before + sort_round(offset, dispatches.init, dispatches.merges@));
            assert(uniform_offsets@.take(i + 1).drop_last() =~= uniform_offsets@.take(i as int));
        }
        i = i + 1;
    }
    proof {
        assert(uniform_offsets@.take(n as int) =~= uniform_offsets@);
        assert(resources@ =~= seq![
            frame_resource(buffers.keys),
            frame_resource(buffers.temp_keys),
            frame_resource(buffers.histograms),
            sort_uniform_resource(),
        ]);
    }
    Some(PassPlan { pipeline: Pipeline::Sort, resources, commands })
}

} // verus!
