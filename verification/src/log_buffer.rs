use vstd::arithmetic::div_mod::{lemma_mod_self_0, lemma_small_mod};
use vstd::prelude::*;
use vstd::slice::slice_subrange;
use vstd::string::StringSliceAdditionalSpecFns;
use vstd::utf8::{decode_utf8, encode_utf8_decode_utf8, encode_utf8_valid_utf8};
use crate::laws::{
    lemma_text_is_well_formed, lemma_written, lemma_written_byte_by_byte, lemma_written_nothing,
};
use crate::ring::{rotate_left, tail, zero_fill, Ring};
use crate::storage::ByteStorage;
use crate::utf8::{
    boundary_trim, find_boundary, is_utf8_tail, lemma_empty_is_utf8_tail, lemma_first_leader,
    lemma_trim_is_valid,
};

verus! {

/// A ring buffer that stores UTF-8 text for logging. It works in place, in
/// the storage it is given, and allocates nothing.
#[derive(Debug)]
pub struct LogBuffer<Storage> {
    /// The underlying storage of the ring.
    storage: Storage,
    /// Whether the writes have come round to the start of the storage since
    /// the ring was last laid out in order.
    wrapped: bool,
    /// The position of the next byte to be written.
    end: usize,
}

impl<Storage: ByteStorage> View for LogBuffer<Storage> {
    type V = Ring;

    closed spec fn view(&self) -> Ring {
        Ring { storage: self.storage.bytes(), end: self.end as int, wrapped: self.wrapped }
    }
}

impl<Storage: ByteStorage> LogBuffer<Storage> {
    /// The cursor lies where it may, and the retained bytes are the end of
    /// well-formed UTF-8 text. Every buffer made by `new` is well formed and
    /// every operation keeps it so.
    pub open spec fn wf(&self) -> bool {
        &&& self@.valid()
        &&& is_utf8_tail(self@.content())
    }

    /// Makes a log buffer of the given storage. What the storage held is
    /// overwritten with zeros; its length is the capacity of the buffer. A
    /// buffer of no capacity retains nothing, whatever is written to it.
    pub fn new(storage: Storage) -> (log_buffer: LogBuffer<Storage>)
        ensures
            log_buffer.wf(),
            log_buffer@ == Ring::empty(storage.bytes().len()),
    {
        let mut log_buffer = LogBuffer { storage: storage, wrapped: false, end: 0 };

        log_buffer.clear();
        log_buffer
    }

    /// Empties the log buffer and overwrites its storage with zeros.
    pub fn clear(&mut self)
        ensures
            final(self).wf(),
            final(self)@ == Ring::empty(old(self)@.capacity()),
    {
        self.wrapped = false;
        self.end = 0;
        zero_fill(self.storage.as_bytes_mut());
        proof {
            lemma_empty_is_utf8_tail();
            assert(self@.content() =~= Seq::<u8>::empty());
        }
    }

    /// Whether the log buffer retains nothing.
    pub fn is_empty(&self) -> (empty: bool)
        requires
            self.wf(),
        ensures
            empty == (self@.content().len() == 0),
            empty == (self@.end == 0 && !self@.wrapped),
    {
        (self.end == 0) && !self.wrapped
    }

    /// The number of bytes the log buffer retains.
    pub fn len(&self) -> (n: usize)
        requires
            self.wf(),
        ensures
            n == self@.content().len(),
            n <= self@.capacity(),
    {
        if self.wrapped {
            self.storage.as_bytes().len()
        } else {
            self.end
        }
    }

    /// The number of bytes that can still be written before the oldest are
    /// overwritten.
    pub fn space_remaining(&self) -> (n: usize)
        requires
            self.wf(),
        ensures
            n + self@.content().len() == self@.capacity(),
    {
        self.capacity() - self.len()
    }

    /// Whether the log buffer retains as many bytes as it can hold.
    pub fn is_full(&self) -> (full: bool)
        requires
            self.wf(),
        ensures
            full == (self@.content().len() == self@.capacity()),
    {
        self.space_remaining() == 0
    }

    /// The greatest number of bytes the log buffer can retain: the length of
    /// its storage. A character may take up to four of them.
    pub fn capacity(&self) -> (n: usize)
        ensures
            n == self@.capacity(),
    {
        self.storage.as_bytes().len()
    }

    /// Whether the writes have come round to the start of the storage since
    /// the ring was last laid out in order.
    pub fn wrapped(&self) -> (wrapped: bool)
        ensures
            wrapped == self@.wrapped,
    {
        self.wrapped
    }

    /// The position in the storage of the next byte to be written.
    pub fn end(&self) -> (end: usize)
        ensures
            end == self@.end,
    {
        self.end
    }

    /// The underlying storage, as it stands.
    pub fn storage(&self) -> (storage: &Storage)
        ensures
            storage.bytes() == self@.storage,
    {
        &self.storage
    }

    /// Lays the ring out in order: where the buffer has wrapped, the storage
    /// is rotated in place until the oldest retained byte stands at its
    /// start. What the buffer retains is not changed.
    pub fn rotate(&mut self)
        requires
            old(self).wf(),
        ensures
            final(self).wf(),
            final(self)@ == old(self)@.linearized(),
            final(self)@.capacity() == old(self)@.capacity(),
            final(self)@.content() == old(self)@.content(),
    {
        if self.wrapped {
            let len = self.len();
            rotate_left(self.storage.as_bytes_mut(), self.end);
            self.end = len;
            self.wrapped = false;
        }
        proof {
            assert(self@.content() =~= old(self)@.content());
        }
    }

    /// The text the log buffer retains, from the first character that is
    /// retained whole: the retained bytes, oldest first, without the bytes
    /// that stand in front of the first leader byte. The text borrows the
    /// storage, which is laid out in order for it; nothing is copied.
    pub fn extract(&mut self) -> (text: &str)
        requires
            old(self).wf(),
        ensures
            final(self).wf(),
            final(self)@ == old(self)@.linearized(),
            final(self)@.capacity() == old(self)@.capacity(),
            final(self)@.content() == old(self)@.content(),
            text.spec_bytes() == boundary_trim(old(self)@.content()),
            text@ == decode_utf8(boundary_trim(old(self)@.content())),
    {
        self.rotate();

        let buffer = self.storage.as_bytes();
        let end = self.end;
        let start = find_boundary(buffer, end);
        proof {
            assert(buffer@.subrange(0, end as int) =~= self@.content());
            lemma_first_leader(self@.content());
            lemma_trim_is_valid(self@.content());
            assert(buffer@.subrange(start as int, end as int) =~= boundary_trim(self@.content()));
        }
        let text = if start < end {
            core::str::from_utf8(slice_subrange(buffer, start, end)).unwrap()
        } else {
            proof {
                reveal_strlit("");
                assert(""@ =~= Seq::<char>::empty());
                assert("".spec_bytes() =~= boundary_trim(self@.content()));
            }
            ""
        };
        proof {
            encode_utf8_decode_utf8(text@);
        }
        text
    }
}

/// The error of `core::fmt::Write`, which writing to a log buffer never
/// returns.
#[verifier::external_type_specification]
#[verifier::external_body]
pub struct ExFmtError(core::fmt::Error);

impl<Storage: ByteStorage> core::fmt::Write for LogBuffer<Storage> {
    /// Writes a UTF-8 string into the ring, byte by byte at the cursor. Once
    /// the ring is full each byte overwrites the oldest: the buffer retains
    /// the last `capacity` bytes of what it retained followed by the string.
    /// Writing never fails.
    ///
    /// The trait leaves no room for a precondition, so what holds of a
    /// well-formed buffer is stated under that condition.
    fn write_str(&mut self, st: &str) -> (r: core::fmt::Result)
        ensures
            r is Ok,
            final(self)@.capacity() == old(self)@.capacity(),
            old(self).wf() ==> final(self).wf(),
            old(self).wf() ==> final(self)@ == old(self)@.written(st.spec_bytes()),
            old(self).wf() ==> final(self)@.content() == tail(
                old(self)@.content() + st.spec_bytes(),
                old(self)@.capacity(),
            ),
    {
        let bytes = st.as_bytes();
        let capacity = self.storage.as_bytes().len();
        let ghost before = self@;
        proof {
            if before.valid() {
                lemma_written_nothing(before);
                lemma_written(before, bytes@);
                assert(bytes@.subrange(0, 0) =~= Seq::<u8>::empty());
            }
        }
        if capacity == 0 {
            // A ring of no capacity retains nothing.
            proof {
                if before.valid() {
                    assert(before.written(bytes@).storage =~= before.storage);
                }
                if old(self).wf() {
                    encode_utf8_valid_utf8(st@);
                    lemma_text_is_well_formed(before, bytes@);
                }
            }
            return Ok(());
        }
        let mut k: usize = 0;
        while k < bytes.len()
            invariant
                0 < capacity == self@.capacity() == before.capacity(),
                k <= bytes@.len(),
                before.valid() ==> self@ == before.written(bytes@.subrange(0, k as int)),
            decreases bytes@.len() - k,
        {
            let byte = bytes[k];
            let ghost ring = self@;
            if self.end >= capacity {
                self.end = 0;
                self.wrapped = true;
            }
            let buffer = self.storage.as_bytes_mut();
            buffer[self.end] = byte;
            self.end += 1;
            if self.end >= capacity {
                self.wrapped = true;
            }
            proof {
                if self.end == capacity {
                    lemma_mod_self_0(capacity as int);
                } else {
                    lemma_small_mod(self.end as nat, capacity as nat);
                }
            }
            self.end %= capacity;
            proof {
                assert(self@ == ring.put(byte));
                if before.valid() {
                    lemma_written_byte_by_byte(before, bytes@.subrange(0, k as int), byte);
                    assert(bytes@.subrange(0, k as int).push(byte) =~= bytes@.subrange(0, k + 1));
                }
            }
            k += 1;
        }
        proof {
            assert(bytes@.subrange(0, k as int) =~= bytes@);
            if old(self).wf() {
                encode_utf8_valid_utf8(st@);
                lemma_text_is_well_formed(before, bytes@);
            }
        }
        Ok(())
    }
}

} // verus!
