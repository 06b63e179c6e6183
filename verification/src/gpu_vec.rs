//! Sizing of a GPU buffer that mirrors a growable vector: the buffer is
//! allocated for the vector's capacity, padded to the copy alignment, written
//! in place while the vector fits, and reallocated once it outgrows it.

use vstd::prelude::*;

verus! {

/// The smallest number of elements a buffer is allocated for.
pub const MIN_GPU_VEC_CAPACITY: usize = 1;

/// Buffer sizes must be a multiple of this many bytes.
pub const COPY_BUFFER_ALIGNMENT: u64 = 4;

/// The number of elements a buffer is allocated for, given the capacity of
/// the vector it mirrors.
pub open spec fn capacity_for(source_capacity: usize) -> int {
    if source_capacity < MIN_GPU_VEC_CAPACITY {
        MIN_GPU_VEC_CAPACITY as int
    } else {
        source_capacity as int
    }
}

/// `size` rounded up to the next multiple of the copy alignment.
pub open spec fn padded_size(size: int) -> int {
    if size % (COPY_BUFFER_ALIGNMENT as int) == 0 {
        size
    } else {
        size + COPY_BUFFER_ALIGNMENT - size % (COPY_BUFFER_ALIGNMENT as int)
    }
}

/// The padded size is the least multiple of the alignment that is not
/// below the size.
pub proof fn lemma_padded_size(size: int)
    requires
        size >= 0,
    ensures
        padded_size(size) >= size,
        padded_size(size) - size < COPY_BUFFER_ALIGNMENT,
        padded_size(size) % (COPY_BUFFER_ALIGNMENT as int) == 0,
{
}

/// The capacity a buffer is allocated for: the vector's capacity, but at
/// least `MIN_GPU_VEC_CAPACITY`.
pub fn buffer_capacity(source_capacity: usize) -> (c: usize)
    ensures
        c == capacity_for(source_capacity),
        c >= MIN_GPU_VEC_CAPACITY,
        c >= source_capacity,
        c == source_capacity || c == MIN_GPU_VEC_CAPACITY,
{
    if source_capacity < MIN_GPU_VEC_CAPACITY {
        MIN_GPU_VEC_CAPACITY
    } else {
        source_capacity
    }
}

/// `size` rounded up to a multiple of `COPY_BUFFER_ALIGNMENT`.
pub fn padded_buffer_size(size: u64) -> (r: u64)
    requires
        size + COPY_BUFFER_ALIGNMENT - 1 <= u64::MAX,
    ensures
        r == padded_size(size as int),
{
    let rem = size % COPY_BUFFER_ALIGNMENT;
    if rem == 0 {
        size
    } else {
        size + (COPY_BUFFER_ALIGNMENT - rem)
    }
}

/// What one allocation of the buffer asks for.
#[derive(Clone, Copy, PartialEq, Eq, Structural, Debug)]
pub struct BufferAllocation {
    /// Elements the buffer holds.
    pub capacity: usize,
    /// Bytes allocated, a multiple of the alignment.
    pub size: u64,
    /// Bytes at the end of the buffer that hold no element.
    pub padding: u64,
    /// Bytes of vector contents written into the new buffer.
    pub write_len: u64,
}

/// Whether the products that size a buffer of `capacity` elements fit the
/// machine's integers and can be padded.
pub open spec fn sizes_fit(element_size: usize, capacity: int) -> bool {
    &&& element_size * capacity <= usize::MAX
    &&& element_size * capacity + COPY_BUFFER_ALIGNMENT - 1 <= u64::MAX
}

/// The allocation for a vector of `source_len` elements and capacity
/// `source_capacity`, with `element_size` bytes per element.
pub open spec fn allocation_for(
    element_size: usize,
    source_capacity: usize,
    source_len: usize,
) -> BufferAllocation {
    let capacity = capacity_for(source_capacity);
    let data = element_size * capacity;
    BufferAllocation {
        capacity: capacity as usize,
        size: padded_size(data) as u64,
        padding: (padded_size(data) - data) as u64,
        write_len: (element_size * source_len) as u64,
    }
}

/// The sizes that a GPU buffer mirroring a vector was allocated with.
pub struct GpuVecSizing {
    pub uploaded_capacity: usize,
    pub aligned_element_size: usize,
    pub padding: u64,
}

proof fn lemma_mul_le(a: usize, b: int, c: int)
    requires
        0 <= b <= c,
    ensures
        a * b <= a * c,
{
    assert(a * b <= a * c) by (nonlinear_arith)
        requires
            0 <= b <= c,
            a >= 0,
    ;
}

impl GpuVecSizing {
    /// The buffer holds at least one element, its sizes fit the machine and
    /// the padding is what rounds the data size up to the alignment.
    pub open spec fn wf(&self) -> bool {
        let data = self.aligned_element_size * self.uploaded_capacity;
        &&& self.uploaded_capacity >= MIN_GPU_VEC_CAPACITY
        &&& sizes_fit(self.aligned_element_size, self.uploaded_capacity as int)
        &&& self.padding == padded_size(data) - data
    }

    fn allocate(element_size: usize, source_capacity: usize, source_len: usize) -> (a: BufferAllocation)
        requires
            source_len <= source_capacity,
            sizes_fit(element_size, capacity_for(source_capacity)),
        ensures
            a == allocation_for(element_size, source_capacity, source_len),
    {
        let capacity = buffer_capacity(source_capacity);
        proof {
            lemma_mul_le(element_size, source_len as int, capacity as int);
            lemma_padded_size(element_size * capacity);
        }
        let data_size = (element_size * capacity) as u64;
        let write_len = (element_size * source_len) as u64;
        let padded = padded_buffer_size(data_size);
        BufferAllocation { capacity, size: padded, padding: padded - data_size, write_len }
    }

    /// Sizes the first buffer for a vector: its capacity (at least the
    /// minimum), padded to the alignment, with the vector's contents written.
    pub fn new(aligned_element_size: usize, source_capacity: usize, source_len: usize) -> (r: (Self, BufferAllocation))
        requires
            source_len <= source_capacity,
            sizes_fit(aligned_element_size, capacity_for(source_capacity)),
        ensures
            r.0.wf(),
            r.1 == allocation_for(aligned_element_size, source_capacity, source_len),
            r.0.uploaded_capacity == r.1.capacity,
            r.0.aligned_element_size == aligned_element_size,
            r.0.padding == r.1.padding,
    {
        let a = Self::allocate(aligned_element_size, source_capacity, source_len);
        (GpuVecSizing { uploaded_capacity: a.capacity, aligned_element_size, padding: a.padding }, a)
    }

    /// The vector has outgrown the buffer.
    pub fn should_reallocate(&self, source_capacity: usize) -> (r: bool)
        ensures
            r == (source_capacity > self.uploaded_capacity),
    {
        source_capacity > self.uploaded_capacity
    }

    /// Bytes to write into the existing buffer for a vector that still fits
    /// it: nothing for an empty vector, else its contents.
    pub fn update_write_size(&self, source_capacity: usize, source_len: usize) -> (r: Option<u64>)
        requires
            self.wf(),
            source_len <= source_capacity,
            capacity_for(source_capacity) <= self.uploaded_capacity,
        ensures
            source_len == 0 ==> r is None,
            source_len > 0 ==> r == Some((self.aligned_element_size * source_len) as u64),
            source_len > 0 ==> self.aligned_element_size * source_len <= self.aligned_element_size
                * self.uploaded_capacity,
    {
        if source_len == 0 {
            return None;
        }
        proof {
            lemma_mul_le(self.aligned_element_size, source_len as int, self.uploaded_capacity as int);
        }
        Some((self.aligned_element_size * source_len) as u64)
    }

    /// Sizes a new, larger buffer for a vector that outgrew the old one.
    pub fn reallocate(&mut self, source_capacity: usize, source_len: usize) -> (a: BufferAllocation)
        requires
            old(self).wf(),
            source_len <= source_capacity,
            capacity_for(source_capacity) > old(self).uploaded_capacity,
            sizes_fit(old(self).aligned_element_size, capacity_for(source_capacity)),
        ensures
            final(self).wf(),
            a == allocation_for(old(self).aligned_element_size, source_capacity, source_len),
            final(self).uploaded_capacity == a.capacity,
            final(self).aligned_element_size == old(self).aligned_element_size,
            final(self).padding == a.padding,
    {
        let a = Self::allocate(self.aligned_element_size, source_capacity, source_len);
        self.uploaded_capacity = a.capacity;
        self.padding = a.padding;
        a
    }

    /// Bytes allocated for the buffer.
    pub fn buffer_size(&self) -> (r: u64)
        requires
            self.wf(),
        ensures
            r == padded_size(self.aligned_element_size * self.uploaded_capacity),
    {
        proof {
            lemma_padded_size(self.aligned_element_size * self.uploaded_capacity);
        }
        (self.aligned_element_size * self.uploaded_capacity) as u64 + self.padding
    }

    /// Bytes of the buffer that are bound for shaders: the buffer without
    /// its padding.
    pub fn binding_size(&self) -> (r: u64)
        requires
            self.wf(),
        ensures
            r == self.aligned_element_size * self.uploaded_capacity,
    {
        let size = self.buffer_size();
        size - self.padding
    }
}

/// What keeping a GPU buffer in step with its vector calls for on one frame.
#[derive(Clone, Copy, PartialEq, Eq, Structural, Debug)]
pub enum BufferSync {
    /// The vector did not change: nothing to do.
    Unchanged,
    /// The vector outgrew the buffer: allocate this one and fill it.
    Reallocate(BufferAllocation),
    /// The vector fits: write this many bytes in place, or nothing when it
    /// is empty.
    Write(Option<u64>),
}

impl GpuVecSizing {
    /// The step taken for a vector each frame: nothing unless it changed;
    /// then a reallocation once it outgrew the buffer, else a write in place.
    pub fn sync(&mut self, changed: bool, source_capacity: usize, source_len: usize) -> (r: BufferSync)
        requires
            old(self).wf(),
            source_len <= source_capacity,
            source_capacity > old(self).uploaded_capacity ==> sizes_fit(
                old(self).aligned_element_size,
                capacity_for(source_capacity),
            ),
        ensures
            final(self).wf(),
            !changed ==> r == BufferSync::Unchanged && *final(self) == *old(self),
            changed && source_capacity > old(self).uploaded_capacity ==> r == BufferSync::Reallocate(
                allocation_for(old(self).aligned_element_size, source_capacity, source_len),
            ) && final(self).uploaded_capacity == capacity_for(source_capacity)
                && final(self).aligned_element_size == old(self).aligned_element_size,
            changed && source_capacity <= old(self).uploaded_capacity ==> *final(self) == *old(self)
                && r == BufferSync::Write(
                if source_len == 0 {
                    None
                } else {
                    Some((old(self).aligned_element_size * source_len) as u64)
                },
            ),
    {
        if !changed {
            return BufferSync::Unchanged;
        }
        if self.should_reallocate(source_capacity) {
            let a = self.reallocate(source_capacity, source_len);
            BufferSync::Reallocate(a)
        } else {
            BufferSync::Write(self.update_write_size(source_capacity, source_len))
        }
    }
}

/// A reallocation always makes room for the vector that asked for it: after
/// `reallocate`, the vector no longer calls for one, and its contents fit
/// the bound part of the buffer.
pub proof fn lemma_reallocation_fits(
    element_size: usize,
    source_capacity: usize,
    source_len: usize,
)
    requires
        source_len <= source_capacity,
        sizes_fit(element_size, capacity_for(source_capacity)),
    ensures
        !(source_capacity > allocation_for(element_size, source_capacity, source_len).capacity),
        allocation_for(element_size, source_capacity, source_len).write_len
            <= element_size * allocation_for(element_size, source_capacity, source_len).capacity,
        allocation_for(element_size, source_capacity, source_len).size as int
            % (COPY_BUFFER_ALIGNMENT as int) == 0,
{
    let capacity = capacity_for(source_capacity);
    lemma_mul_le(element_size, source_len as int, capacity);
    lemma_padded_size(element_size * capacity);
}

} // verus!
