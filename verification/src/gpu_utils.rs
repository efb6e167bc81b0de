//! Integer helpers for sizing GPU dispatches and buffers.

use vstd::prelude::*;

verus! {

/// Errors that can occur during GPU operations.
pub enum GpuError {
    /// Failed to request GPU adapter.
    AdapterRequestFailed,
    /// Failed to request GPU device.
    DeviceRequestFailed(String),
    /// Failed to create shader module.
    ShaderCreationFailed(String),
    /// Failed to create buffer.
    BufferCreationFailed,
    /// GPU operation failed.
    OperationFailed(String),
}

/// Ceiling of `size / divisor`: the least `q` with `q * divisor >= size`.
pub open spec fn ceil_div(size: int, divisor: int) -> int {
    (size + divisor - 1) / divisor
}

/// Calculate the number of workgroups needed for a given size.
pub fn workgroup_count(size: u32, workgroup_size: u32) -> (count: u32)
    requires
        workgroup_size > 0,
        size + workgroup_size - 1 <= u32::MAX,
    ensures
        count == ceil_div(size as int, workgroup_size as int),
        count * workgroup_size >= size,
        count * workgroup_size < size + workgroup_size,
{
    let count = (size + (workgroup_size - 1)) / workgroup_size;
    proof {
        lemma_ceil_div_bounds(size as int, workgroup_size as int);
    }
    count
}

/// Get the size in bytes for a buffer of `count` values of type `T`.
pub fn buffer_size<T>(count: usize) -> (bytes: u64)
    requires
        count * vstd::layout::size_of::<T>() <= usize::MAX,
    ensures
        bytes == count * vstd::layout::size_of::<T>(),
{
    let elem = core::mem::size_of::<T>();
    let total = count * elem;
    total as u64
}

/// Pad `size` up to the next multiple of `alignment`.
pub fn align_to(size: u64, alignment: u64) -> (aligned: u64)
    requires
        alignment > 0,
        size + alignment - 1 <= u64::MAX,
    ensures
        aligned == ceil_div(size as int, alignment as int) * alignment,
        aligned % alignment == 0,
        size <= aligned < size + alignment,
{
    let q = (size + (alignment - 1)) / alignment;
    proof {
        lemma_ceil_div_bounds(size as int, alignment as int);
        lemma_mul_bound(q as int, alignment as int, size as int);
        vstd::arithmetic::div_mod::lemma_mod_multiples_basic(q as int, alignment as int);
    }
    q * alignment
}

/// The ceiling quotient is the least multiple count covering `size`.
pub proof fn lemma_ceil_div_bounds(size: int, divisor: int)
    requires
        size >= 0,
        divisor > 0,
    ensures
        ceil_div(size, divisor) >= 0,
        ceil_div(size, divisor) * divisor >= size,
        ceil_div(size, divisor) * divisor < size + divisor,
{
    let q = ceil_div(size, divisor);
    let n = size + divisor - 1;
    vstd::arithmetic::div_mod::lemma_fundamental_div_mod(n, divisor);
    vstd::arithmetic::div_mod::lemma_mod_bound(n, divisor);
    vstd::arithmetic::div_mod::lemma_div_pos_is_pos(n, divisor);
}

proof fn lemma_mul_bound(q: int, d: int, size: int)
    requires
        d > 0,
        q >= 0,
        q * d < size + d,
    ensures
        q * d <= size + d - 1,
{
}

} // verus!
