use vstd::prelude::*;
use vstd::string::StringSliceAdditionalSpecFns;
use vstd::utf8::*;

verus! {

/// True when `byte` can start the encoding of a character: it has one of the
/// bit patterns `0xxxxxxx`, `110xxxxx`, `1110xxxx` or `11110xxx`.
pub open spec fn is_leader(byte: u8) -> bool {
    ||| is_leading_byte_width_1(byte)
    ||| is_leading_byte_width_2(byte)
    ||| is_leading_byte_width_3(byte)
    ||| is_leading_byte_width_4(byte)
}

/// The index of the first leader byte of `s`, or the length of `s` when it
/// holds none.
pub open spec fn first_leader(s: Seq<u8>) -> int
    decreases s.len(),
{
    if s.len() == 0 || is_leader(s[0]) {
        0
    } else {
        1 + first_leader(s.drop_first())
    }
}

/// `s` without the bytes in front of its first leader byte. Empty when `s`
/// holds no leader byte.
pub open spec fn boundary_trim(s: Seq<u8>) -> Seq<u8> {
    s.subrange(first_leader(s), s.len() as int)
}

/// True when `front` followed by `s` is well-formed UTF-8.
pub open spec fn completes(front: Seq<u8>, s: Seq<u8>) -> bool {
    valid_utf8(front + s)
}

/// True when `s` is the end of some well-formed UTF-8 text. Such a sequence
/// may begin inside a character, and is well-formed from its first character
/// boundary on.
pub open spec fn is_utf8_tail(s: Seq<u8>) -> bool {
    exists|front: Seq<u8>| #[trigger] completes(front, s)
}

/// The error of `core::str::from_utf8`, carried and never looked into.
#[verifier::external_type_specification]
#[verifier::external_body]
pub struct ExUtf8Error(core::str::Utf8Error);

/// `core::str::from_utf8` succeeds exactly when the bytes are well-formed
/// UTF-8, and the string slice it then hands out consists of these very
/// bytes.
pub assume_specification[ core::str::from_utf8 ](v: &[u8]) -> (r: Result<
    &str,
    core::str::Utf8Error,
>)
    ensures
        r is Ok <==> valid_utf8(v@),
        r matches Ok(s) ==> s.spec_bytes() == v@,
;

/// Decides whether `byte` can start the encoding of a character.
pub fn is_utf8_leader(byte: u8) -> (r: bool)
    ensures
        r == is_leader(byte),
{
    proof {
        utf8_byte_ranges_bitwise(byte);
    }
    byte & 0b10000000 == 0b00000000 || byte & 0b11100000 == 0b11000000 || byte & 0b11110000
        == 0b11100000 || byte & 0b11111000 == 0b11110000
}

/// `first_leader` lies within the sequence, no byte in front of it is a
/// leader, and the byte at it is one.
pub proof fn lemma_first_leader(s: Seq<u8>)
    ensures
        0 <= first_leader(s) <= s.len(),
        forall|j: int| 0 <= j < first_leader(s) ==> !is_leader(#[trigger] s[j]),
        first_leader(s) < s.len() ==> is_leader(s[first_leader(s)]),
    decreases s.len(),
{
    if s.len() == 0 || is_leader(s[0]) {
    } else {
        let rest = s.drop_first();
        lemma_first_leader(rest);
        assert forall|j: int| 0 <= j < first_leader(s) implies !is_leader(#[trigger] s[j]) by {
            if j > 0 {
                assert(s[j] == rest[j - 1]);
            }
        }
        assert(first_leader(s) < s.len() ==> s[first_leader(s)] == rest[first_leader(rest)]);
    }
}

/// An index that has no leader byte in front of it, and either a leader byte
/// at it or nothing, is `first_leader`.
pub proof fn lemma_first_leader_unique(s: Seq<u8>, i: int)
    requires
        0 <= i <= s.len(),
        forall|j: int| 0 <= j < i ==> !is_leader(#[trigger] s[j]),
        i < s.len() ==> is_leader(s[i]),
    ensures
        first_leader(s) == i,
    decreases s.len(),
{
    if i == 0 {
    } else {
        let rest = s.drop_first();
        assert(!is_leader(s[0]));
        assert forall|j: int| 0 <= j < i - 1 implies !is_leader(#[trigger] rest[j]) by {
            assert(rest[j] == s[j + 1]);
        }
        lemma_first_leader_unique(rest, i - 1);
    }
}

/// Well-formed UTF-8 text that is not empty begins with a leader byte, so
/// trimming it changes nothing.
pub proof fn lemma_trim_of_valid(s: Seq<u8>)
    requires
        valid_utf8(s),
    ensures
        boundary_trim(s) == s,
{
    if s.len() > 0 {
        assert(is_leader(s[0]));
    }
    assert(s.subrange(0, s.len() as int) =~= s);
}

/// The end of well-formed UTF-8 text, trimmed to its first leader byte, is
/// well-formed UTF-8.
pub proof fn lemma_trim_is_valid(s: Seq<u8>)
    requires
        is_utf8_tail(s),
    ensures
        valid_utf8(boundary_trim(s)),
{
    let front = choose|front: Seq<u8>| #[trigger] completes(front, s);
    let text = front + s;
    let i = first_leader(s);
    lemma_first_leader(s);
    let at = front.len() + i;
    if i < s.len() {
        assert(text[at] == s[i]);
        is_char_boundary_iff_is_leading_byte(text, at);
    } else {
        is_char_boundary_start_end_of_seq(text);
    }
    valid_utf8_split(text, at);
    assert(text.subrange(at, text.len() as int) =~= boundary_trim(s));
}

/// Nothing at all is the end of well-formed UTF-8 text.
pub proof fn lemma_empty_is_utf8_tail()
    ensures
        is_utf8_tail(Seq::<u8>::empty()),
{
    let e = Seq::<u8>::empty();
    assert(e + e =~= e);
    assert(completes(e, e));
}

/// Well-formed UTF-8 text appended to the end of well-formed UTF-8 text, and
/// then cut down to any suffix, is again the end of well-formed UTF-8 text.
pub proof fn lemma_suffix_of_extended_tail(s: Seq<u8>, more: Seq<u8>, from: int)
    requires
        is_utf8_tail(s),
        valid_utf8(more),
        0 <= from <= s.len() + more.len(),
    ensures
        is_utf8_tail((s + more).subrange(from, (s + more).len() as int)),
{
    let front = choose|front: Seq<u8>| #[trigger] completes(front, s);
    valid_utf8_concat(front + s, more);
    let all = s + more;
    let kept = all.subrange(from, all.len() as int);
    let dropped = front + all.subrange(0, from);
    assert(dropped + kept =~= (front + s) + more);
    assert(completes(dropped, kept));
}

/// Index of the first leader byte among the first `end` bytes of `buffer`,
/// or `end` when there is none.
pub fn find_boundary(buffer: &[u8], end: usize) -> (i: usize)
    requires
        end <= buffer@.len(),
    ensures
        i == first_leader(buffer@.subrange(0, end as int)),
{
    let ghost window = buffer@.subrange(0, end as int);
    let mut i: usize = 0;
    while i < end
        invariant
            i <= end <= buffer@.len(),
            window == buffer@.subrange(0, end as int),
            forall|j: int| 0 <= j < i ==> !is_leader(#[trigger] window[j]),
        decreases end - i,
    {
        if is_utf8_leader(buffer[i]) {
            proof {
                lemma_first_leader_unique(window, i as int);
            }
            return i;
        }
        i += 1;
    }
    proof {
        lemma_first_leader_unique(window, i as int);
    }
    i
}

} // verus!
