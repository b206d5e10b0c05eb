//! Buffers whose reservation may be declined.

use vstd::layout;
use vstd::prelude::*;

use crate::error::Error;

verus! {

/// The number of bytes that `capacity` items take up.
pub open spec fn bytes_of<T>(capacity: usize) -> int {
    capacity * layout::size_of::<T>()
}

/// An empty buffer with room for `capacity` items, or `Error::OutOfMemory`
/// where the allocator declines.
///
/// A request for no items, or for no bytes, is always granted, and one for more bytes than an
/// allocation can hold, `isize::MAX`, is always declined.
pub fn try_with_capacity<T>(capacity: usize) -> (r: Result<Vec<T>, Error>)
    ensures
        match r {
            Ok(buffer) => buffer@ == Seq::<T>::empty(),
            Err(e) => e == Error::OutOfMemory,
        },
        capacity == 0 || bytes_of::<T>(capacity) == 0 ==> r is Ok,
        bytes_of::<T>(capacity) > isize::MAX ==> r is Err,
{
    let mut buffer: Vec<T> = Vec::new();
    assert(0 * layout::size_of::<T>() == 0) by (nonlinear_arith);
    match capacity.checked_mul(core::mem::size_of::<T>()) {
        Some(0) => Ok(buffer),
        Some(bytes) if bytes <= isize::MAX as usize => match buffer.try_reserve(capacity) {
            Ok(_) => Ok(buffer),
            Err(_) => Err(Error::OutOfMemory),
        },
        _ => Err(Error::OutOfMemory),
    }
}

/// Like [`try_with_capacity`], but a declined reservation names the buffer.
pub fn reserve_or_error<T>(capacity: usize, context: &'static str) -> (r: Result<Vec<T>, Error>)
    ensures
        match r {
            Ok(buffer) => buffer@ == Seq::<T>::empty(),
            Err(e) => e == (Error::AllocFailure { context }),
        },
        capacity == 0 || bytes_of::<T>(capacity) == 0 ==> r is Ok,
        bytes_of::<T>(capacity) > isize::MAX ==> r is Err,
{
    match try_with_capacity(capacity) {
        Ok(buffer) => Ok(buffer),
        Err(_) => Err(Error::AllocFailure { context }),
    }
}

/// Appends `count` copies of `value`.
pub fn push_repeated<T: Copy>(buffer: &mut Vec<T>, value: T, count: usize)
    ensures
        final(buffer)@ == old(buffer)@ + Seq::new(count as nat, |i: int| value),
{
    let mut i: usize = 0;
    while i < count
        invariant
            i <= count,
            buffer@ == old(buffer)@ + Seq::new(i as nat, |j: int| value),
        decreases count - i,
    {
        buffer.push(value);
        i += 1;
        assert(buffer@ =~= old(buffer)@ + Seq::new(i as nat, |j: int| value));
    }
    assert(buffer@ =~= old(buffer)@ + Seq::new(count as nat, |i: int| value));
}

/// Appends the items of `source` from `start` up to, and without, `end`.
pub fn push_range<T: Copy>(buffer: &mut Vec<T>, source: &[T], start: usize, end: usize)
    requires
        start <= end <= source@.len(),
    ensures
        final(buffer)@ == old(buffer)@ + source@.subrange(start as int, end as int),
{
    let mut i: usize = start;
    while i < end
        invariant
            start <= i <= end <= source@.len(),
            buffer@ == old(buffer)@ + source@.subrange(start as int, i as int),
        decreases end - i,
    {
        buffer.push(source[i]);
        i += 1;
        assert(buffer@ =~= old(buffer)@ + source@.subrange(start as int, i as int));
    }
}


/// Room for more items is never fewer bytes, and room for none is no bytes.
pub proof fn law_more_items_take_no_fewer_bytes<T>(few: usize, many: usize)
    requires
        few <= many,
    ensures
        0 <= bytes_of::<T>(few) <= bytes_of::<T>(many),
        bytes_of::<T>(0) == 0,
        bytes_of::<T>(many) == many * layout::size_of::<T>(),
{
    let size = layout::size_of::<T>();
    assert(0 <= few * size && few * size <= many * size) by (nonlinear_arith)
        requires
            0 <= few <= many,
            0 <= size,
    ;
}

} // verus!
