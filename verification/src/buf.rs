//! A small buffer that lives on the stack until it outgrows its inline
//! array, used by the stroker to collect the segments of one subpath
//! without touching the allocator.

use vstd::prelude::*;

verus! {

/// Number of elements held inline before the buffer spills to the heap.
const MAX_SMALL_BUF: usize = 128;

/// A growable buffer of copyable elements: an inline array while small, a
/// vector once it has spilled.
pub enum SmallBuf<T> {
    Array([T; MAX_SMALL_BUF], usize),
    Vec(Vec<T>),
}

impl<T: Copy + Default> SmallBuf<T> {
    /// The elements held, in insertion order.
    pub closed spec fn view(&self) -> Seq<T> {
        match self {
            SmallBuf::Array(buf, len) => buf@.subrange(0, *len as int),
            SmallBuf::Vec(v) => v@,
        }
    }

    /// An inline buffer never claims more elements than its array holds.
    pub closed spec fn wf(&self) -> bool {
        match self {
            SmallBuf::Array(_, len) => *len <= MAX_SMALL_BUF,
            SmallBuf::Vec(_) => true,
        }
    }

    /// Creates an empty buffer with its inline storage ready.
    pub fn new() -> (s: Self)
        ensures
            s.wf(),
            s.view() == Seq::<T>::empty(),
    {
        let s = SmallBuf::Array([T::default(); MAX_SMALL_BUF], 0);
        proof {
            assert(s.view() =~= Seq::<T>::empty());
        }
        s
    }

    /// The elements as a slice.
    pub fn data(&self) -> (r: &[T])
        requires
            self.wf(),
        ensures
            r@ == self.view(),
    {
        match self {
            SmallBuf::Array(buf, len) => vstd::slice::slice_subrange(
                vstd::array::array_as_slice(buf),
                0,
                *len,
            ),
            SmallBuf::Vec(v) => v.as_slice(),
        }
    }

    /// Appends an element, spilling the inline array to the heap when it
    /// is full.
    pub fn push(&mut self, value: T)
        requires
            old(self).wf(),
        ensures
            final(self).wf(),
            final(self).view() == old(self).view().push(value),
    {
        match self {
            SmallBuf::Vec(buf) => {
                buf.push(value);
            },
            SmallBuf::Array(buf, len) => {
                if *len == MAX_SMALL_BUF {
                    let mut vec: Vec<T> = Vec::new();
                    let mut i: usize = 0;
                    while i < MAX_SMALL_BUF
                        invariant
                            i <= MAX_SMALL_BUF,
                            vec@ == buf@.subrange(0, i as int),
                        decreases MAX_SMALL_BUF - i,
                    {
                        vec.push(buf[i]);
                        proof {
                            assert(vec@ =~= buf@.subrange(0, i + 1));
                        }
                        i = i + 1;
                    }
                    vec.push(value);
                    proof {
                        assert(buf@.subrange(0, MAX_SMALL_BUF as int) =~= buf@);
                    }
                    *self = SmallBuf::Vec(vec);
                } else {
                    buf[*len] = value;
                    *len = *len + 1;
                }
            },
        }
        proof {
            assert(final(self).view() =~= old(self).view().push(value));
        }
    }

    /// Empties the buffer, keeping whatever storage it holds.
    pub fn clear(&mut self)
        requires
            old(self).wf(),
        ensures
            final(self).wf(),
            final(self).view() == Seq::<T>::empty(),
    {
        match self {
            SmallBuf::Array(_, len) => {
                *len = 0;
            },
            SmallBuf::Vec(buf) => {
                buf.clear();
            },
        }
        proof {
            assert(final(self).view() =~= Seq::<T>::empty());
        }
    }
}

} // verus!
