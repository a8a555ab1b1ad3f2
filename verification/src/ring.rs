use vstd::arithmetic::div_mod::{lemma_add_mod_noop, lemma_mod_self_0, lemma_small_mod};
use vstd::prelude::*;

verus! {

/// The last `n` elements of `s`, or all of `s` when it holds no more than `n`.
pub open spec fn tail(s: Seq<u8>, n: nat) -> Seq<u8> {
    if s.len() <= n {
        s
    } else {
        s.subrange(s.len() - n, s.len() as int)
    }
}

/// `s` rotated to the left by `mid`: the element at index `mid` comes first,
/// and the first `mid` elements follow the rest.
pub open spec fn rotated_left(s: Seq<u8>, mid: int) -> Seq<u8> {
    s.subrange(mid, s.len() as int) + s.subrange(0, mid)
}

/// `s` with the elements of the window `[from, to)` in reverse order.
pub open spec fn reversed_window(s: Seq<u8>, from: int, to: int) -> Seq<u8> {
    Seq::new(s.len(), |i: int| if from <= i < to { s[from + to - 1 - i] } else { s[i] })
}

/// A region of `n` zero bytes.
pub open spec fn zeros(n: nat) -> Seq<u8> {
    Seq::new(n, |i: int| 0u8)
}

/// The state of a ring of bytes: the physical region, the index at which the
/// next byte will be written, and whether the writes have come round to the
/// start of the region since it was last laid out in order.
pub struct Ring {
    pub storage: Seq<u8>,
    pub end: int,
    pub wrapped: bool,
}

impl Ring {
    /// The number of bytes the region holds.
    pub open spec fn capacity(self) -> nat {
        self.storage.len()
    }

    /// The cursor lies within the region, or just behind it in a ring that
    /// has not wrapped.
    pub open spec fn valid(self) -> bool {
        &&& 0 <= self.end <= self.capacity()
        &&& self.wrapped ==> self.end < self.capacity()
    }

    /// The bytes the ring retains, oldest first. A ring that has wrapped
    /// retains the whole region, starting at the cursor; one that has not
    /// retains what lies in front of the cursor.
    pub open spec fn content(self) -> Seq<u8> {
        if self.wrapped {
            rotated_left(self.storage, self.end)
        } else {
            self.storage.subrange(0, self.end)
        }
    }

    /// The ring of `capacity` zero bytes that retains nothing.
    pub open spec fn empty(capacity: nat) -> Ring {
        Ring { storage: zeros(capacity), end: 0, wrapped: false }
    }

    /// The cursor after `n` bytes were written.
    pub open spec fn end_after(self, n: nat) -> int {
        if self.capacity() == 0 || n == 0 {
            self.end
        } else {
            (self.end + n) % (self.capacity() as int)
        }
    }

    /// Whether the ring has wrapped after `n` bytes were written.
    pub open spec fn wrapped_after(self, n: nat) -> bool {
        self.wrapped || (self.capacity() > 0 && n > 0 && self.end + n >= self.capacity())
    }

    /// The ring after one byte was written to it: the byte stands where the
    /// cursor was, and the cursor has moved on by one, back to the start
    /// where it left the region.
    pub open spec fn put(self, byte: u8) -> Ring {
        let at = if self.end >= self.capacity() {
            0
        } else {
            self.end
        };
        Ring {
            storage: self.storage.update(at, byte),
            end: if at + 1 >= self.capacity() {
                0
            } else {
                at + 1
            },
            wrapped: self.wrapped || self.end >= self.capacity() || at + 1 >= self.capacity(),
        }
    }

    /// The ring after `bytes` were written to it, each at the cursor, which
    /// then moves on by one and returns to the start when it leaves the
    /// region. The ring retains the last `capacity` bytes of what it retained
    /// followed by `bytes`; in a ring that has not wrapped the region behind
    /// the cursor is as it was.
    pub open spec fn written(self, bytes: Seq<u8>) -> Ring {
        let end = self.end_after(bytes.len());
        let wrapped = self.wrapped_after(bytes.len());
        let kept = tail(self.content() + bytes, self.capacity());
        Ring {
            storage: if wrapped {
                rotated_left(kept, self.capacity() - end)
            } else {
                kept + self.storage.subrange(end, self.capacity() as int)
            },
            end,
            wrapped,
        }
    }

    /// The ring laid out in order: the oldest retained byte stands at the
    /// start of the region, the cursor behind the newest.
    pub open spec fn linearized(self) -> Ring {
        Ring {
            storage: if self.wrapped {
                rotated_left(self.storage, self.end)
            } else {
                self.storage
            },
            end: self.content().len() as int,
            wrapped: false,
        }
    }
}

/// What is kept of a sequence that was cut to its last `n` elements before
/// more were appended is what is kept of the whole.
pub proof fn lemma_tail_of_tail(s: Seq<u8>, more: Seq<u8>, n: nat)
    ensures
        tail(tail(s, n) + more, n) == tail(s + more, n),
{
    assert(tail(tail(s, n) + more, n) =~= tail(s + more, n));
}

/// A byte written to a ring that is full takes the place of the oldest; one
/// written to a ring that is not is retained with the rest.
pub proof fn lemma_put(ring: Ring, byte: u8)
    requires
        ring.valid(),
        ring.capacity() > 0,
    ensures
        ring.put(byte).valid(),
        ring.put(byte).capacity() == ring.capacity(),
        ring.put(byte).content() == tail(ring.content().push(byte), ring.capacity()),
        !ring.put(byte).wrapped ==> ring.put(byte).storage.subrange(
            ring.put(byte).end,
            ring.capacity() as int,
        ) == ring.storage.subrange(ring.put(byte).end, ring.capacity() as int),
{
    let n = ring.capacity() as int;
    let after = ring.put(byte);
    let kept = tail(ring.content().push(byte), ring.capacity());
    assert(after.content().len() == kept.len());
    assert forall|i: int| 0 <= i < kept.len() implies after.content()[i] == kept[i] by {
        if ring.wrapped {
            assert(kept[i] == ring.content().push(byte)[i + 1]);
        }
    }
    assert(after.content() =~= kept);
    if !after.wrapped {
        assert(after.storage.subrange(after.end, n) =~= ring.storage.subrange(after.end, n));
    }
}

/// A cursor that has moved on by `k` from `end`, round a region of
/// `capacity` bytes, and then moves on by one more has moved on by `k + 1`.
pub proof fn lemma_next_cursor(end: int, k: nat, capacity: int)
    requires
        0 <= end <= capacity,
        0 < capacity,
    ensures
        ({
            let at = (end + k) % capacity;
            &&& 0 <= at < capacity
            &&& (end + k + 1) % capacity == if at + 1 == capacity {
                0
            } else {
                at + 1
            }
            &&& (end + k < capacity ==> at == end + k)
            &&& (end + k == capacity ==> at == 0)
        }),
{
    let at = (end + k) % capacity;
    lemma_add_mod_noop(end + k, 1, capacity);
    if end + k < capacity {
        lemma_small_mod((end + k) as nat, capacity as nat);
    }
    if end + k == capacity {
        lemma_mod_self_0(capacity);
    }
    if capacity == 1 {
        lemma_mod_self_0(capacity);
    } else {
        lemma_small_mod(1, capacity as nat);
        if at + 1 == capacity {
            lemma_mod_self_0(capacity);
        } else {
            lemma_small_mod((at + 1) as nat, capacity as nat);
        }
    }
}

/// Reverses the window `[from, to)` of `buffer` in place.
pub fn reverse(buffer: &mut [u8], from: usize, to: usize)
    requires
        from <= to <= old(buffer)@.len(),
    ensures
        final(buffer)@ == reversed_window(old(buffer)@, from as int, to as int),
{
    let mut lo: usize = from;
    let mut hi: usize = to;
    while hi - lo > 1
        invariant
            from <= lo <= hi <= to <= buffer@.len(),
            lo - from == to - hi,
            buffer@.len() == old(buffer)@.len(),
            forall|i: int|
                0 <= i < buffer@.len() ==> buffer@[i] == if (from <= i < lo) || (hi <= i < to) {
                    old(buffer)@[from + to - 1 - i]
                } else {
                    old(buffer)@[i]
                },
        decreases hi - lo,
    {
        hi -= 1;
        let low: u8 = buffer[lo];
        let high: u8 = buffer[hi];
        buffer[lo] = high;
        buffer[hi] = low;
        lo += 1;
    }
    assert(buffer@ =~= reversed_window(old(buffer)@, from as int, to as int));
}

/// Reversing the two parts of a sequence and then the whole rotates it.
pub proof fn lemma_three_reversals(s: Seq<u8>, mid: int)
    requires
        0 <= mid <= s.len(),
    ensures
        reversed_window(
            reversed_window(reversed_window(s, 0, mid), mid, s.len() as int),
            0,
            s.len() as int,
        ) == rotated_left(s, mid),
{
    let n = s.len() as int;
    let a = reversed_window(s, 0, mid);
    let b = reversed_window(a, mid, n);
    let c = reversed_window(b, 0, n);
    assert(c =~= rotated_left(s, mid));
}

/// Rotates `buffer` to the left by `mid` in place: the byte at index `mid`
/// becomes the first. Every byte is moved at most twice and nothing is
/// allocated.
pub fn rotate_left(buffer: &mut [u8], mid: usize)
    requires
        mid <= old(buffer)@.len(),
    ensures
        final(buffer)@ == rotated_left(old(buffer)@, mid as int),
{
    let n = buffer.len();
    reverse(buffer, 0, mid);
    reverse(buffer, mid, n);
    reverse(buffer, 0, n);
    proof {
        lemma_three_reversals(old(buffer)@, mid as int);
    }
}

/// Sets every byte of `buffer` to zero.
pub fn zero_fill(buffer: &mut [u8])
    ensures
        final(buffer)@ == zeros(old(buffer)@.len()),
{
    let n = buffer.len();
    let mut i: usize = 0;
    while i < n
        invariant
            n == buffer@.len(),
            n == old(buffer)@.len(),
            i <= n,
            forall|j: int| 0 <= j < i ==> buffer@[j] == 0u8,
        decreases n - i,
    {
        buffer[i] = 0x00;
        i += 1;
    }
    assert(buffer@ =~= zeros(old(buffer)@.len()));
}

} // verus!
