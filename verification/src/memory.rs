//! The frame buffer's layout: regions handed out one after the other, each
//! starting at a multiple of the storage offset alignment, then the size that
//! the whole frame needs and the capacity of the buffer that holds it.
use vstd::prelude::*;
use vstd::arithmetic::power2::{pow2, lemma_pow2_unfold, lemma_pow2_pos};

verus! {

/// Smallest multiple of `align` that is not below `value`.
pub open spec fn round_up(value: nat, align: nat) -> nat
    recommends
        align > 0,
{
    if value % align == 0 {
        value
    } else {
        (value + (align - value % align)) as nat
    }
}

/// `round_up` gives a multiple of `align` within `align` of `value`.
pub proof fn lemma_round_up(value: nat, align: nat)
    requires
        align > 0,
    ensures
        round_up(value, align) % align == 0,
        value <= round_up(value, align) < value + align,
        value % align == 0 ==> round_up(value, align) == value,
{
    if value % align != 0 {
        let r = value % align;
        assert(value == align * (value / align) + r) by (nonlinear_arith)
            requires
                align > 0,
                r == value % align,
        ;
        assert((value + (align - r)) == align * (value / align + 1)) by (nonlinear_arith)
            requires
                value == align * (value / align) + r,
        ;
        assert((align * (value / align + 1)) % align == 0) by (nonlinear_arith)
            requires
                align > 0,
        ;
    }
}

/// `value.next_multiple_of(align)`.
pub fn next_multiple_of(value: usize, align: usize) -> (rounded: usize)
    requires
        align > 0,
        round_up(value as nat, align as nat) <= usize::MAX,
    ensures
        rounded == round_up(value as nat, align as nat),
{
    let r = value % align;
    if r == 0 {
        value
    } else {
        value + (align - r)
    }
}

/// A region of the frame buffer that holds `len` elements of `elem_size` bytes.
#[derive(Clone, Copy, Debug, PartialEq, Eq)]
pub struct Allocation {
    /// Byte offset of the region in the frame buffer.
    pub offset: usize,
    /// Number of elements.
    pub len: usize,
    /// Size of one element in bytes.
    pub elem_size: usize,
}

/// A range of the frame buffer as a binding sees it: an offset and, unless the
/// range runs to the end of the buffer, a size that is not zero.
#[derive(Clone, Copy, Debug, PartialEq, Eq)]
pub struct BufferRange {
    pub offset: u64,
    pub size: Option<u64>,
}

impl Allocation {
    /// Bytes that the region occupies: an empty allocation still takes one element.
    pub open spec fn footprint(self) -> nat {
        if self.len == 0 {
            self.elem_size as nat
        } else {
            (self.elem_size as nat) * (self.len as nat)
        }
    }

    /// First byte after the region.
    pub open spec fn end(self) -> nat {
        self.offset as nat + self.footprint()
    }

    /// Number of elements of the region.
    pub fn len(&self) -> (len: usize)
        ensures
            len == self.len,
    {
        self.len
    }

    /// The binding of the region: none for an empty region, else its offset and
    /// its size in bytes (no size where that is zero).
    pub fn binding(&self) -> (range: Option<BufferRange>)
        requires
            self.len * self.elem_size <= u64::MAX,
        ensures
            self.len == 0 ==> range is None,
            self.len != 0 ==> range == Some(BufferRange {
                offset: self.offset as u64,
                size: if self.len * self.elem_size == 0 {
                    None
                } else {
                    Some((self.len * self.elem_size) as u64)
                },
            }),
    {
        if self.len == 0 {
            return None;
        }
        let bytes = (self.len as u64) * (self.elem_size as u64);
        let size = if bytes == 0 {
            None
        } else {
            Some(bytes)
        };
        Some(BufferRange { offset: self.offset as u64, size })
    }
}

/// Hands out the regions of one frame's buffer.
pub struct Allocator {
    offset: usize,
    alignment: usize,
    regions: Ghost<Seq<Allocation>>,
}

impl Allocator {
    /// The offset at which the next region may start, before alignment.
    pub closed spec fn next_offset(&self) -> nat {
        self.offset as nat
    }

    /// The alignment of every region's start.
    pub closed spec fn alignment(&self) -> nat {
        self.alignment as nat
    }

    /// The regions handed out since the frame began, in order.
    pub closed spec fn regions(&self) -> Seq<Allocation> {
        self.regions@
    }

    /// Every region starts aligned, ends before the next one starts, and the
    /// last ends at or before the next offset.
    pub closed spec fn wf(&self) -> bool {
        &&& self.alignment >= 4
        &&& forall|i: int|
            0 <= i < self.regions@.len() ==> {
                &&& #[trigger] (self.regions@[i].offset as nat) % (self.alignment as nat) == 0
                &&& self.regions@[i].end() <= self.offset
            }
        &&& forall|i: int, j: int|
            0 <= i < j < self.regions@.len() ==> #[trigger] self.regions@[i].end()
                <= #[trigger] self.regions@[j].offset
    }

    /// An allocator for a device whose storage buffers need offsets aligned to
    /// `min_storage_buffer_offset_alignment` (and in any case to 4 bytes).
    pub fn new(min_storage_buffer_offset_alignment: u32) -> (allocator: Allocator)
        ensures
            allocator.wf(),
            allocator.alignment() == (if min_storage_buffer_offset_alignment < 4 {
                4
            } else {
                min_storage_buffer_offset_alignment as nat
            }),
            allocator.next_offset() == 0,
            allocator.regions() == Seq::<Allocation>::empty(),
    {
        let alignment = if min_storage_buffer_offset_alignment < 4 {
            4
        } else {
            min_storage_buffer_offset_alignment
        };
        Allocator { offset: 0, alignment: alignment as usize, regions: Ghost(Seq::empty()) }
    }

    /// The alignment of every region's start.
    pub fn get_alignment(&self) -> (alignment: usize)
        requires
            self.wf(),
        ensures
            alignment == self.alignment(),
            alignment >= 4,
    {
        self.alignment
    }

    /// Hands out the next region: `len` elements of `elem_size` bytes, starting
    /// at the next aligned offset. An empty region still takes one element.
    pub fn allocate(&mut self, elem_size: usize, len: usize) -> (allocation: Allocation)
        requires
            old(self).wf(),
            round_up(old(self).next_offset(), old(self).alignment()) + elem_size * (if len == 0 {
                1nat
            } else {
                len as nat
            }) <= usize::MAX,
        ensures
            final(self).wf(),
            allocation.offset == round_up(old(self).next_offset(), old(self).alignment()),
            allocation.len == len,
            allocation.elem_size == elem_size,
            final(self).next_offset() == allocation.end(),
            final(self).alignment() == old(self).alignment(),
            final(self).regions() == old(self).regions().push(allocation),
    {
        proof {
            lemma_round_up(self.offset as nat, self.alignment as nat);
        }
        let offset = next_multiple_of(self.offset, self.alignment);
        let count = if len == 0 {
            1
        } else {
            len
        };
        proof {
            assert(elem_size * count <= usize::MAX);
            assert(0 <= elem_size * count) by (nonlinear_arith);
        }
        let size = elem_size * count;
        let allocation = Allocation { offset, len, elem_size };
        assert(allocation.footprint() == size);
        self.offset = offset + size;
        proof {
            let old_regions = self.regions@;
            self.regions = Ghost(old_regions.push(allocation));
            assert forall|i: int, j: int|
                0 <= i < j < self.regions@.len() implies #[trigger] self.regions@[i].end()
                <= #[trigger] self.regions@[j].offset by {
                if j < old_regions.len() {
                    assert(old_regions[i].end() <= old_regions[j].offset);
                } else {
                    assert(old_regions[i].end() <= allocation.offset);
                }
            }
        }
        allocation
    }

    /// Hands out one region per request (element size, element count), in order.
    pub fn allocate_all(&mut self, requests: &Vec<(usize, usize)>) -> (allocations: Vec<Allocation>)
        requires
            old(self).wf(),
            layout_end(old(self).next_offset(), old(self).alignment(), requests@) <= usize::MAX,
        ensures
            final(self).wf(),
            final(self).alignment() == old(self).alignment(),
            final(self).regions() == old(self).regions() + allocations@,
            final(self).next_offset() == layout_end(
                old(self).next_offset(),
                old(self).alignment(),
                requests@,
            ),
            allocations.len() == requests.len(),
            allocations.len() > 0 ==> final(self).next_offset() == allocations@.last().end(),
            forall|i: int|
                #![trigger allocations@[i]]
                0 <= i < allocations.len() ==> {
                    &&& allocations@[i].elem_size == requests@[i].0
                    &&& allocations@[i].len == requests@[i].1
                    &&& allocations@[i].offset == round_up(
                        if i == 0 {
                            old(self).next_offset()
                        } else {
                            allocations@[i - 1].end()
                        },
                        old(self).alignment(),
                    )
                },
    {
        let ghost start = self.next_offset();
        let ghost align = self.alignment();
        let ghost regions = self.regions();
        let mut allocations: Vec<Allocation> = Vec::new();
        let mut i: usize = 0;
        while i < requests.len()
            invariant
                self.wf(),
                align > 0,
                self.alignment() == align,
                self.regions() == regions + allocations@,
                i <= requests.len(),
                allocations.len() == i,
                self.next_offset() == layout_end(start, align, requests@.take(i as int)),
                layout_end(start, align, requests@) <= usize::MAX,
                forall|k: int|
                    #![trigger allocations@[k]]
                    0 <= k < allocations.len() ==> {
                        &&& allocations@[k].elem_size == requests@[k].0
                        &&& allocations@[k].len == requests@[k].1
                        &&& allocations@[k].offset == round_up(
                            if k == 0 {
                                start
                            } else {
                                allocations@[k - 1].end()
                            },
                            align,
                        )
                    },
                i > 0 ==> self.next_offset() == allocations@[i - 1].end(),
                i == 0 ==> self.next_offset() == start,
            decreases requests.len() - i,
        {
            let (elem_size, len) = requests[i];
            proof {
                lemma_layout_end_grows(start, align, requests@, i + 1);
                assert(requests@.take(i + 1).drop_last() =~= requests@.take(i as int));
                assert(requests@.take(i + 1).last() == requests@[i as int]);
            }
            let allocation = self.allocate(elem_size, len);
            allocations.push(allocation);
            i = i + 1;
            proof {
                assert(self.regions() =~= regions + allocations@);
            }
        }
        proof {
            assert(requests@.take(i as int) =~= requests@);
        }
        allocations
    }

    /// Ends the frame's layout: returns the bytes that it needs, which every
    /// region handed out lies within, and starts the next frame at offset 0.
    pub fn finalize(&mut self) -> (size: u64)
        requires
            old(self).wf(),
        ensures
            final(self).wf(),
            size == old(self).next_offset(),
            forall|i: int|
                0 <= i < old(self).regions().len() ==> #[trigger] old(self).regions()[i].end()
                    <= size,
            final(self).next_offset() == 0,
            final(self).alignment() == old(self).alignment(),
            final(self).regions() == Seq::<Allocation>::empty(),
    {
        let size = self.offset as u64;
        self.offset = 0;
        self.regions = Ghost(Seq::empty());
        size
    }
}

/// Where a region of `len` elements of `elem_size` bytes ends when it is placed
/// after `offset`.
pub open spec fn region_end(offset: nat, align: nat, elem_size: nat, len: nat) -> nat {
    round_up(offset, align) + elem_size * (if len == 0 {
        1nat
    } else {
        len
    })
}

/// Where the regions of `requests` (element size, element count) end when they
/// are placed one after the other from `start`.
pub open spec fn layout_end(start: nat, align: nat, requests: Seq<(usize, usize)>) -> nat
    decreases requests.len(),
{
    if requests.len() == 0 {
        start
    } else {
        region_end(
            layout_end(start, align, requests.drop_last()),
            align,
            requests.last().0 as nat,
            requests.last().1 as nat,
        )
    }
}

/// Whether the regions of `requests`, placed one after the other from `start`,
/// end within the address space.
pub fn layout_fits(start: usize, align: usize, requests: &Vec<(usize, usize)>) -> (fits: bool)
    requires
        align > 0,
    ensures
        fits == (layout_end(start as nat, align as nat, requests@) <= usize::MAX),
{
    let mut offset: usize = start;
    let mut i: usize = 0;
    while i < requests.len()
        invariant
            align > 0,
            i <= requests.len(),
            offset == layout_end(start as nat, align as nat, requests@.take(i as int)),
        decreases requests.len() - i,
    {
        let (elem_size, len) = requests[i];
        proof {
            assert(requests@.take(i + 1).drop_last() =~= requests@.take(i as int));
            lemma_round_up(offset as nat, align as nat);
            lemma_layout_end_grows(start as nat, align as nat, requests@, i + 1);
        }
        let r = offset % align;
        let rounded = if r == 0 {
            offset
        } else {
            match offset.checked_add(align - r) {
                Some(v) => v,
                None => {
                    proof {
                        assert(round_up(offset as nat, align as nat) > usize::MAX);
                        lemma_layout_end_grows(start as nat, align as nat, requests@, i + 1);
                    }
                    return false;
                },
            }
        };
        let count = if len == 0 {
            1
        } else {
            len
        };
        let size = match elem_size.checked_mul(count) {
            Some(v) => v,
            None => {
                proof {
                    assert(0 <= rounded);
                    assert(layout_end(start as nat, align as nat, requests@.take(i + 1)) > usize::MAX) by {
                        assert(elem_size * count > usize::MAX);
                    }
                    lemma_layout_end_grows(start as nat, align as nat, requests@, i + 1);
                }
                return false;
            },
        };
        offset = match rounded.checked_add(size) {
            Some(v) => v,
            None => {
                proof {
                    lemma_layout_end_grows(start as nat, align as nat, requests@, i + 1);
                }
                return false;
            },
        };
        i = i + 1;
    }
    proof {
        assert(requests@.take(i as int) =~= requests@);
    }
    true
}

/// Placing more regions never ends earlier.
pub proof fn lemma_layout_end_grows(start: nat, align: nat, requests: Seq<(usize, usize)>, i: int)
    requires
        align > 0,
        0 <= i <= requests.len(),
    ensures
        start <= layout_end(start, align, requests.take(i)) <= layout_end(start, align, requests),
    decreases requests.len(),
{
    if requests.len() > 0 {
        let rest = requests.drop_last();
        let prev = layout_end(start, align, rest);
        lemma_round_up(prev, align);
        let last = requests.last();
        assert(0 <= (last.0 as nat) * (if last.1 == 0 {
            1nat
        } else {
            last.1 as nat
        })) by (nonlinear_arith);
        if i == requests.len() {
            assert(requests.take(i) =~= requests);
            lemma_layout_end_grows(start, align, rest, rest.len() as int);
            assert(rest.take(rest.len() as int) =~= rest);
        } else {
            lemma_layout_end_grows(start, align, rest, i);
            assert(rest.take(i) =~= requests.take(i));
        }
    } else {
        assert(requests.take(i) =~= requests);
    }
}

/// The regions of a frame lie inside the frame, start aligned and do not
/// overlap: every pair of them at once.
pub proof fn lemma_regions_disjoint_all(allocator: &Allocator)
    requires
        allocator.wf(),
    ensures
        forall|i: int|
            0 <= i < allocator.regions().len() ==> {
                &&& (#[trigger] allocator.regions()[i].offset as nat) % allocator.alignment() == 0
                &&& allocator.regions()[i].end() <= allocator.next_offset()
            },
        forall|i: int, j: int|
            0 <= i < allocator.regions().len() && 0 <= j < allocator.regions().len() && i != j
                ==> allocator.regions()[i].end() <= #[trigger] allocator.regions()[j].offset
                || allocator.regions()[j].end() <= #[trigger] allocator.regions()[i].offset,
{
    assert forall|i: int, j: int|
        0 <= i < allocator.regions().len() && 0 <= j < allocator.regions().len() && i != j
            implies allocator.regions()[i].end() <= #[trigger] allocator.regions()[j].offset
        || allocator.regions()[j].end() <= #[trigger] allocator.regions()[i].offset by {
        lemma_regions_disjoint(allocator, i, j);
    }
}

/// The regions of a frame lie inside the frame, start aligned and do not overlap.
pub proof fn lemma_regions_disjoint(allocator: &Allocator, i: int, j: int)
    requires
        allocator.wf(),
        0 <= i < allocator.regions().len(),
        0 <= j < allocator.regions().len(),
        i != j,
    ensures
        (allocator.regions()[i].offset as nat) % allocator.alignment() == 0,
        allocator.regions()[i].end() <= allocator.next_offset(),
        allocator.regions()[i].end() <= allocator.regions()[j].offset
            || allocator.regions()[j].end() <= allocator.regions()[i].offset,
{
    if i < j {
        assert(allocator.regions()[i].end() <= allocator.regions()[j].offset);
    } else {
        assert(allocator.regions()[j].end() <= allocator.regions()[i].offset);
    }
}

/// The smallest power of two that is not below `n`.
pub open spec fn next_power_of_two(n: nat) -> nat
    decreases n,
{
    if n <= 1 {
        1
    } else {
        2 * next_power_of_two(((n + 1) / 2) as nat)
    }
}

/// `next_power_of_two(n)` is a power of two, not below `n`, below `2n` for
/// `n >= 1`, and not above any power of two that is not below `n`.
pub proof fn lemma_next_power_of_two(n: nat) -> (e: nat)
    ensures
        pow2(e) == next_power_of_two(n),
        n <= next_power_of_two(n),
        n >= 1 ==> next_power_of_two(n) < 2 * n,
        forall|k: nat| #[trigger] pow2(k) >= n ==> pow2(k) >= next_power_of_two(n),
    decreases n,
{
    if n <= 1 {
        vstd::arithmetic::power2::lemma2_to64();
        assert forall|k: nat| #[trigger] pow2(k) >= n implies pow2(k) >= next_power_of_two(n) by {
            lemma_pow2_pos(k);
        }
        0
    } else {
        let h = ((n + 1) / 2) as nat;
        let e = lemma_next_power_of_two(h);
        lemma_pow2_unfold(e + 1);
        assert forall|k: nat| #[trigger] pow2(k) >= n implies pow2(k) >= next_power_of_two(n) by {
            if k == 0 {
                vstd::arithmetic::power2::lemma2_to64();
            } else {
                lemma_pow2_unfold(k);
                assert(pow2((k - 1) as nat) >= h);
            }
        }
        e + 1
    }
}

/// Capacity of a new frame buffer for `size` bytes: the next power of two
/// (the largest `u64` where that does not fit), and at least 8 bytes.
pub open spec fn buffer_capacity(size: u64) -> u64 {
    if next_power_of_two(size as nat) > u64::MAX {
        u64::MAX
    } else if next_power_of_two(size as nat) < 8 {
        8
    } else {
        next_power_of_two(size as nat) as u64
    }
}

/// A new frame buffer holds the frame and at least 8 bytes, and its capacity
/// is a power of two unless that would not fit a `u64`.
pub proof fn lemma_buffer_capacity(size: u64) -> (e: nat)
    ensures
        buffer_capacity(size) >= 8,
        buffer_capacity(size) >= size,
        buffer_capacity(size) < u64::MAX ==> buffer_capacity(size) == pow2(e),
{
    let e = lemma_next_power_of_two(size as nat);
    vstd::arithmetic::power2::lemma2_to64();
    if next_power_of_two(size as nat) < 8 {
        3
    } else {
        e
    }
}

/// What becomes of the frame buffer for a frame of `size` bytes.
#[derive(Clone, Copy, Debug, PartialEq, Eq)]
pub enum BufferChoice {
    /// The buffer of the last frame is large enough: keep it.
    Keep,
    /// Create a buffer of this many bytes.
    Create(u64),
}

/// Keep the current buffer where it holds `size` bytes, else create one of
/// `buffer_capacity(size)` bytes.
pub open spec fn choose_buffer_spec(current: Option<u64>, size: u64) -> BufferChoice {
    match current {
        Some(existing) => if existing >= size {
            BufferChoice::Keep
        } else {
            BufferChoice::Create(buffer_capacity(size))
        },
        None => BufferChoice::Create(buffer_capacity(size)),
    }
}

/// The buffer that a frame ends up with holds the frame: a kept buffer is
/// large enough, and a new one is at least as large as the frame and 8 bytes.
pub proof fn lemma_chosen_buffer_holds_frame(current: Option<u64>, size: u64)
    ensures
        match choose_buffer_spec(current, size) {
            BufferChoice::Keep => current is Some && current->0 >= size,
            BufferChoice::Create(capacity) => capacity >= size && capacity >= 8,
        },
{
    lemma_buffer_capacity(size);
}

/// Keeps the current buffer where it holds `size` bytes, else asks for a new one
/// of `buffer_capacity(size)` bytes.
pub fn choose_buffer(current: Option<u64>, size: u64) -> (choice: BufferChoice)
    ensures
        choice == choose_buffer_spec(current, size),
{
    match current {
        Some(existing) => {
            if existing >= size {
                return BufferChoice::Keep;
            }
        },
        None => {},
    }
    BufferChoice::Create(new_buffer_capacity(size))
}

/// `size.checked_next_power_of_two().unwrap_or(u64::MAX).max(8)`.
pub fn new_buffer_capacity(size: u64) -> (capacity: u64)
    ensures
        capacity == buffer_capacity(size),
{
    let ghost target = lemma_next_power_of_two(size as nat);
    let mut p: u64 = 1;
    let ghost mut e: nat = 0;
    proof {
        vstd::arithmetic::power2::lemma2_to64();
        lemma_pow2_pos(target);
    }
    while p < size
        invariant
            p == pow2(e),
            p >= 1,
            size <= next_power_of_two(size as nat),
            p <= next_power_of_two(size as nat),
            pow2(target) == next_power_of_two(size as nat),
            forall|k: nat| #[trigger] pow2(k) >= size ==> pow2(k) >= next_power_of_two(size as nat),
        decreases u64::MAX - p,
    {
        // The next power of two is above `p`, so it is at least `2p`.
        proof {
            if target <= e {
                if target < e {
                    vstd::arithmetic::power2::lemma_pow2_strictly_increases(target, e);
                }
            }
            assert(e < target);
            lemma_pow2_unfold(e + 1);
            if e + 1 < target {
                vstd::arithmetic::power2::lemma_pow2_strictly_increases(e + 1, target);
            }
        }
        if p > u64::MAX / 2 {
            proof {
                assert(next_power_of_two(size as nat) >= 2 * p);
            }
            return u64::MAX;
        }
        p = p * 2;
        proof {
            e = e + 1;
        }
    }
    proof {
        assert(pow2(e) >= size);
        assert(p == next_power_of_two(size as nat));
    }
    if p < 8 {
        8
    } else {
        p
    }
}

} // verus!
