use vstd::prelude::*;
use vstd::utf8::{decode_utf8, encode_utf8, encode_utf8_decode_utf8, encode_utf8_valid_utf8, valid_utf8};
use crate::ring::{lemma_next_cursor, lemma_put, lemma_tail_of_tail, tail, Ring};
use crate::utf8::{
    boundary_trim, is_leader, is_utf8_tail, lemma_first_leader, lemma_suffix_of_extended_tail,
    lemma_trim_is_valid, lemma_trim_of_valid,
};

verus! {

/// The capacity of a ring is the length of the storage it was made of, and
/// no operation changes it.
pub proof fn lemma_capacity_is_fixed(ring: Ring, bytes: Seq<u8>)
    requires
        ring.valid(),
    ensures
        Ring::empty(ring.capacity()).capacity() == ring.capacity(),
        ring.written(bytes).capacity() == ring.capacity(),
        ring.linearized().capacity() == ring.capacity(),
{
    lemma_written(ring, bytes);
}

/// A ring never retains more bytes than it can hold: as many as the cursor
/// has passed before it first wraps, and as many as it can hold from then
/// on.
pub proof fn lemma_len_is_bounded(ring: Ring)
    requires
        ring.valid(),
    ensures
        ring.content().len() <= ring.capacity(),
        ring.content().len() == if ring.wrapped {
            ring.capacity() as int
        } else {
            ring.end
        },
{
}

/// An empty ring, as it is when made and after it was cleared, is valid and
/// retains nothing, and the text read from it is empty.
pub proof fn lemma_empty_ring(capacity: nat)
    ensures
        Ring::empty(capacity).valid(),
        Ring::empty(capacity).capacity() == capacity,
        Ring::empty(capacity).content() == Seq::<u8>::empty(),
        boundary_trim(Ring::empty(capacity).content()) == Seq::<u8>::empty(),
        decode_utf8(boundary_trim(Ring::empty(capacity).content())) == Seq::<char>::empty(),
{
    let nothing = Ring::empty(capacity).content();
    assert(nothing =~= Seq::<u8>::empty());
    assert(boundary_trim(nothing) =~= Seq::<u8>::empty());
}

/// Writing keeps a ring valid, and the ring then retains the last
/// `capacity` bytes of what it retained followed by what was written.
pub proof fn lemma_written(ring: Ring, bytes: Seq<u8>)
    requires
        ring.valid(),
    ensures
        ring.written(bytes).valid(),
        ring.written(bytes).capacity() == ring.capacity(),
        ring.written(bytes).content() == tail(ring.content() + bytes, ring.capacity()),
{
    let after = ring.written(bytes);
    let kept = tail(ring.content() + bytes, ring.capacity());
    if ring.capacity() > 0 && bytes.len() > 0 {
        lemma_next_cursor(ring.end, (bytes.len() - 1) as nat, ring.capacity() as int);
        lemma_next_cursor(ring.end, bytes.len(), ring.capacity() as int);
    }
    assert(after.storage.len() == ring.capacity());
    assert(after.content() =~= kept);
}

/// Writing is writing byte by byte: each byte is stored at the cursor, which
/// then moves on by one and returns to the start where it leaves the region.
pub proof fn lemma_written_byte_by_byte(ring: Ring, bytes: Seq<u8>, byte: u8)
    requires
        ring.valid(),
        ring.capacity() > 0,
    ensures
        ring.written(bytes.push(byte)) == ring.written(bytes).put(byte),
{
    let n = ring.capacity();
    let so_far = ring.written(bytes);
    let direct = ring.written(bytes.push(byte));
    let stepped = so_far.put(byte);
    lemma_written(ring, bytes);
    lemma_written(ring, bytes.push(byte));
    lemma_put(so_far, byte);
    lemma_next_cursor(ring.end, bytes.len(), n as int);
    assert(so_far.content().push(byte) =~= so_far.content() + seq![byte]);
    assert((ring.content() + bytes) + seq![byte] =~= ring.content() + bytes.push(byte));
    lemma_tail_of_tail(ring.content() + bytes, seq![byte], n);
    assert(stepped.content() == direct.content());
    assert(stepped.end == direct.end);
    assert(stepped.wrapped == direct.wrapped);
    assert(stepped.storage.len() == direct.storage.len());
    assert forall|i: int| 0 <= i < n implies stepped.storage[i] == direct.storage[i] by {
        if direct.wrapped {
            let j = if i >= direct.end {
                i - direct.end
            } else {
                i + n - direct.end
            };
            assert(stepped.content()[j] == stepped.storage[i]);
            assert(direct.content()[j] == direct.storage[i]);
        } else {
            if i < direct.end {
                assert(stepped.content()[i] == stepped.storage[i]);
                assert(direct.content()[i] == direct.storage[i]);
            } else {
                assert(stepped.storage[i] == stepped.storage.subrange(direct.end, n as int)[i
                    - direct.end]);
                assert(so_far.storage[i] == so_far.storage.subrange(direct.end, n as int)[i
                    - direct.end]);
            }
        }
    }
    assert(stepped.storage =~= direct.storage);
}

/// Writing nothing changes nothing.
pub proof fn lemma_written_nothing(ring: Ring)
    requires
        ring.valid(),
    ensures
        ring.written(Seq::<u8>::empty()) == ring,
{
    let after = ring.written(Seq::<u8>::empty());
    assert(ring.content() + Seq::<u8>::empty() =~= ring.content());
    assert(after.storage =~= ring.storage);
}

/// Two writes in a row retain what one write of both texts retains.
pub proof fn lemma_written_twice(ring: Ring, first: Seq<u8>, second: Seq<u8>)
    requires
        ring.valid(),
    ensures
        ring.written(first).written(second).content() == ring.written(first + second).content(),
{
    lemma_written(ring, first);
    lemma_written(ring.written(first), second);
    lemma_written(ring, first + second);
    let n = ring.capacity();
    assert(tail(tail(ring.content() + first, n) + second, n) =~= tail(
        ring.content() + (first + second),
        n,
    ));
}

/// Text that fits into an empty ring is retained whole, and read back as it
/// was written.
pub proof fn lemma_text_that_fits_is_kept(capacity: nat, text: Seq<char>)
    requires
        encode_utf8(text).len() <= capacity,
    ensures
        Ring::empty(capacity).written(encode_utf8(text)).content() == encode_utf8(text),
        boundary_trim(Ring::empty(capacity).written(encode_utf8(text)).content()) == encode_utf8(
            text,
        ),
        decode_utf8(boundary_trim(Ring::empty(capacity).written(encode_utf8(text)).content()))
            == text,
{
    let bytes = encode_utf8(text);
    lemma_empty_ring(capacity);
    lemma_written(Ring::empty(capacity), bytes);
    assert(Seq::<u8>::empty() + bytes =~= bytes);
    encode_utf8_valid_utf8(text);
    lemma_trim_of_valid(bytes);
    encode_utf8_decode_utf8(text);
}

/// Of text that is longer than a ring can hold, the ring retains the last
/// `capacity` bytes and nothing of what it retained before.
pub proof fn lemma_overflow_keeps_the_last_bytes(ring: Ring, bytes: Seq<u8>)
    requires
        ring.valid(),
        bytes.len() >= ring.capacity(),
    ensures
        ring.written(bytes).content() == bytes.subrange(
            bytes.len() - ring.capacity(),
            bytes.len() as int,
        ),
        ring.written(bytes).content().len() == ring.capacity(),
{
    lemma_written(ring, bytes);
    assert(tail(ring.content() + bytes, ring.capacity()) =~= bytes.subrange(
        bytes.len() - ring.capacity(),
        bytes.len() as int,
    ));
}

/// Laying a ring out in order keeps it valid and keeps what it retains; the
/// ring is then not wrapped, and its cursor stands behind the retained bytes.
/// A ring that is not wrapped is laid out in order as it stands.
pub proof fn lemma_linearized(ring: Ring)
    requires
        ring.valid(),
    ensures
        ring.linearized().valid(),
        ring.linearized().capacity() == ring.capacity(),
        ring.linearized().content() == ring.content(),
        !ring.linearized().wrapped,
        ring.linearized().end == ring.content().len(),
        !ring.wrapped ==> ring.linearized() == ring,
{
    assert(ring.linearized().content() =~= ring.content());
}

/// Reading is idempotent: the text read from a ring that was just read is
/// the text that was read, and the second reading leaves the ring as the
/// first left it.
pub proof fn lemma_read_again(ring: Ring)
    requires
        ring.valid(),
    ensures
        boundary_trim(ring.linearized().content()) == boundary_trim(ring.content()),
        ring.linearized().linearized() == ring.linearized(),
{
    lemma_linearized(ring);
}

/// Text read from a ring never begins inside a character: it is empty or
/// begins with a leader byte, and only bytes that are no leader bytes were
/// left out in front of it.
pub proof fn lemma_text_begins_at_a_boundary(content: Seq<u8>)
    ensures
        boundary_trim(content).len() == 0 || is_leader(boundary_trim(content)[0]),
        forall|i: int|
            0 <= i < content.len() - boundary_trim(content).len() ==> !is_leader(
                #[trigger] content[i],
            ),
{
    lemma_first_leader(content);
}

/// What a ring retains of well-formed UTF-8 text, read from its first leader
/// byte on, is well-formed UTF-8 text; and writing well-formed UTF-8 text to
/// the ring keeps it so.
pub proof fn lemma_text_is_well_formed(ring: Ring, bytes: Seq<u8>)
    requires
        ring.valid(),
        is_utf8_tail(ring.content()),
        valid_utf8(bytes),
    ensures
        valid_utf8(boundary_trim(ring.content())),
        is_utf8_tail(ring.written(bytes).content()),
        is_utf8_tail(ring.linearized().content()),
{
    lemma_trim_is_valid(ring.content());
    lemma_written(ring, bytes);
    lemma_linearized(ring);
    let all = ring.content() + bytes;
    let from = if all.len() <= ring.capacity() {
        0
    } else {
        all.len() - ring.capacity()
    };
    lemma_suffix_of_extended_tail(ring.content(), bytes, from);
    assert(all.subrange(from, all.len() as int) =~= tail(all, ring.capacity()));
}

} // verus!
