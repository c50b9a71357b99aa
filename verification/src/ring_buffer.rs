//! A fixed-capacity circular sample window with O(1) insertion: once the
//! window is full, each push evicts the oldest retained value.

use vstd::prelude::*;
use vstd::math::min;
use vstd::string::StringExecFns;

verus! {

use crate::Error;

/// One step of the window semantics: pushing `v` into contents `s` of a
/// window with capacity `c` appends `v`, dropping the oldest value first
/// when the window is already full.
pub open spec fn push_step(s: Seq<u64>, v: u64, c: nat) -> Seq<u64> {
    if s.len() < c {
        s.push(v)
    } else {
        s.drop_first().push(v)
    }
}

/// The contents of an initially empty window of capacity `c` after the
/// values of `pushes` have been pushed in order.
pub open spec fn window_after(pushes: Seq<u64>, c: nat) -> Seq<u64>
    decreases pushes.len(),
{
    if pushes.len() == 0 {
        Seq::empty()
    } else {
        push_step(window_after(pushes.drop_last(), c), pushes.last(), c)
    }
}

/// A fixed-capacity FIFO window over `u64` samples, stored in a dense array
/// with a wrapping write cursor.
pub struct RingBuffer {
    buffer: Vec<u64>,
    capacity: usize,
    head: usize,
    len: usize,
}

impl View for RingBuffer {
    type V = Seq<u64>;

    /// The logically valid elements, oldest to newest.
    closed spec fn view(&self) -> Seq<u64> {
        Seq::new(
            self.len as nat,
            |i: int|
                self.buffer@[
                    if self.start() + i < self.capacity as int {
                        self.start() + i
                    } else {
                        self.start() + i - self.capacity as int
                    }
                ],
        )
    }
}

impl RingBuffer {
    /// Index of the oldest retained value: 0 until the window first fills,
    /// afterwards the write cursor itself (the next write target is the
    /// oldest remaining value).
    closed spec fn start(&self) -> int {
        if self.len < self.capacity {
            0
        } else {
            self.head as int
        }
    }

    /// Structural invariant tying the cursor, the count and the storage
    /// together; every operation preserves it.
    pub closed spec fn well_formed(&self) -> bool {
        &&& self.buffer@.len() == self.capacity
        &&& self.capacity > 0
        &&& self.head < self.capacity
        &&& self.len <= self.capacity
        &&& (self.len < self.capacity ==> self.head == self.len)
    }

    /// The fixed capacity the window was created with.
    pub closed spec fn spec_capacity(&self) -> nat {
        self.capacity as nat
    }

    /// Creates a window of the given capacity; a zero capacity is invalid.
    pub fn new(capacity: usize) -> (r: Result<RingBuffer, Error>)
        ensures
            capacity == 0 <==> r is Err,
            r matches Err(e) ==> e == Error::InvalidArgument,
            r matches Ok(b) ==> {
                &&& b.well_formed()
                &&& b@ == Seq::<u64>::empty()
                &&& b.spec_capacity() == capacity
            },
    {
        if capacity == 0 {
            return Err(Error::InvalidArgument);
        }
        let mut buffer: Vec<u64> = Vec::new();
        while buffer.len() < capacity
            invariant
                buffer@.len() <= capacity,
            decreases capacity - buffer.len(),
        {
            buffer.push(0);
        }
        let result = RingBuffer { buffer, capacity, head: 0, len: 0 };
        proof {
            assert(result@ =~= Seq::<u64>::empty());
        }
        Ok(result)
    }

    /// Records `value` as the newest sample, evicting the oldest one once
    /// the window is full.
    pub fn push(&mut self, value: u64)
        requires
            old(self).well_formed(),
        ensures
            final(self).well_formed(),
            final(self).spec_capacity() == old(self).spec_capacity(),
            final(self)@ == push_step(old(self)@, value, old(self).spec_capacity()),
    {
        self.buffer[self.head] = value;
        self.head = if self.head + 1 == self.capacity {
            0
        } else {
            self.head + 1
        };
        if self.len < self.capacity {
            self.len = self.len + 1;
        }
        proof {
            assert(self@ =~= push_step(old(self)@, value, old(self).spec_capacity()));
        }
    }

    /// Returns the current window contents, oldest to newest.
    pub fn to_list(&self) -> (r: Vec<u64>)
        requires
            self.well_formed(),
        ensures
            r@ == self@,
    {
        let mut result: Vec<u64> = Vec::new();
        let mut i: usize = 0;
        while i < self.len
            invariant
                self.well_formed(),
                i <= self.len,
                result@ =~= self@.subrange(0, i as int),
            decreases self.len - i,
        {
            let pos = if self.len < self.capacity {
                i
            } else {
                let gap = self.capacity - self.head;
                if i < gap {
                    self.head + i
                } else {
                    i - gap
                }
            };
            result.push(self.buffer[pos]);
            i = i + 1;
        }
        proof {
            assert(result@ =~= self@);
        }
        result
    }

    /// Returns the most recently pushed value, or `None` if nothing was
    /// ever pushed.
    pub fn latest(&self) -> (r: Option<u64>)
        requires
            self.well_formed(),
        ensures
            r == if self@.len() == 0 {
                Option::<u64>::None
            } else {
                Option::Some(self@.last())
            },
    {
        if self.len == 0 {
            None
        } else {
            let idx = if self.head == 0 {
                self.capacity - 1
            } else {
                self.head - 1
            };
            Some(self.buffer[idx])
        }
    }

    /// True iff the window holds as many values as its capacity.
    pub fn is_full(&self) -> (r: bool)
        requires
            self.well_formed(),
        ensures
            r == (self@.len() == self.spec_capacity()),
    {
        self.len == self.capacity
    }

    /// The number of valid logical elements currently held.
    pub fn len(&self) -> (r: usize)
        requires
            self.well_formed(),
        ensures
            r == self@.len(),
    {
        self.len
    }

    /// A plain description string: the fixed capacity and the current
    /// count, independent of any host object model.
    pub fn repr(&self) -> (r: String)
        requires
            self.well_formed(),
        ensures
            r@ == "RingBuffer(capacity="@ + crate::fmt::dec_nat(self.spec_capacity() as int)
                + ", len="@ + crate::fmt::dec_nat(self@.len() as int) + ")"@,
    {
        let mut out = String::new();
        out.append("RingBuffer(capacity=");
        crate::fmt::push_u64(&mut out, self.capacity as u64);
        out.append(", len=");
        crate::fmt::push_u64(&mut out, self.len as u64);
        out.append(")");
        proof {
            assert(out@ =~= "RingBuffer(capacity="@
                + crate::fmt::dec_nat(self.spec_capacity() as int)
                + ", len="@ + crate::fmt::dec_nat(self@.len() as int) + ")"@);
        }
        out
    }
}

/// Law of the window: after any sequence of pushes into an initially empty
/// window of capacity `c > 0`, the contents are exactly the last
/// `min(k, c)` pushed values in push order (`k` the number of pushes); in
/// particular the window is full iff `k >= c`, and the newest retained
/// value is the last one pushed whenever `k > 0`.
pub proof fn lemma_window_after(pushes: Seq<u64>, c: nat)
    requires
        c > 0,
    ensures
        window_after(pushes, c).len() == min(pushes.len() as int, c as int),
        window_after(pushes, c) == pushes.subrange(
            pushes.len() - min(pushes.len() as int, c as int),
            pushes.len() as int,
        ),
        (window_after(pushes, c).len() == c) <==> (pushes.len() >= c),
        pushes.len() > 0 ==> window_after(pushes, c).last() == pushes.last(),
    decreases pushes.len(),
{
    if pushes.len() == 0 {
        assert(window_after(pushes, c) =~= pushes.subrange(0, 0));
    } else {
        lemma_window_after(pushes.drop_last(), c);
        assert(window_after(pushes, c) =~= pushes.subrange(
            pushes.len() - min(pushes.len() as int, c as int),
            pushes.len() as int,
        ));
    }
}

} // verus!
