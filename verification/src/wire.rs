//! The container's wire format, as functions on byte sequences.
//!
//! One chunk is: the id as a little-endian 64-bit integer, the UTF-8 bytes
//! of the name, one zero byte, the events as little-endian 64-bit integers,
//! and the smallest 64-bit integer as terminator. The chunk of id 0 with an
//! empty name and no events marks the end of the container.

use vstd::bytes::*;
use vstd::prelude::*;
use vstd::utf8::*;

verus! {

/// The value that ends a chunk's list of events.
pub const EVENTS_END: i64 = i64::MIN;

/// Why a chunk could not be decoded.
#[derive(Clone, Copy, Debug, PartialEq, Eq, Structural)]
pub enum FramingError {
    /// The bytes end before the chunk does.
    Truncated,
    /// The bytes of the name are not UTF-8.
    InvalidName,
}

/// Why a record could not be encoded.
#[derive(Clone, Copy, Debug, PartialEq, Eq, Structural)]
pub enum EncodeError {
    /// The name holds a zero byte, which would end it early.
    NulInName,
    /// An event equals the terminator of the event list.
    ReservedEvent,
}

/// What a chunk stores of a record.
pub struct Payload {
    pub id: i64,
    pub name: Seq<char>,
    pub events: Seq<i64>,
}

/// What the bytes at some position decode to.
pub enum Parsed {
    /// No chunk can be read there.
    Broken(FramingError),
    /// The end marker, which stops before `next`.
    End { next: int },
    /// A record's chunk, which stops before `next`.
    Item { payload: Payload, next: int },
}

/// The eight bytes of `x`, lowest first.
pub open spec fn i64_bytes(x: i64) -> Seq<u8> {
    spec_u64_to_le_bytes(x as u64)
}

/// The integer whose eight bytes, lowest first, are `s`.
pub open spec fn i64_of_bytes(s: Seq<u8>) -> i64 {
    spec_u64_from_le_bytes(s) as i64
}

/// The integer stored in the eight bytes of `bytes` from `at` on.
pub open spec fn word_at(bytes: Seq<u8>, at: int) -> i64 {
    i64_of_bytes(bytes.subrange(at, at + 8))
}

/// The events one after another, without terminator.
pub open spec fn events_bytes(events: Seq<i64>) -> Seq<u8>
    decreases events.len(),
{
    if events.len() == 0 {
        Seq::empty()
    } else {
        i64_bytes(events[0]) + events_bytes(events.drop_first())
    }
}

/// The chunk of a record.
pub open spec fn chunk_bytes(p: Payload) -> Seq<u8> {
    i64_bytes(p.id) + encode_utf8(p.name) + seq![0u8] + events_bytes(p.events) + i64_bytes(
        EVENTS_END,
    )
}

/// The record that the end marker is the chunk of.
pub open spec fn end_payload() -> Payload {
    Payload { id: 0, name: Seq::empty(), events: Seq::empty() }
}

/// The chunk that ends a container.
pub open spec fn end_marker() -> Seq<u8> {
    chunk_bytes(end_payload())
}

/// True when `p` can be written as a chunk and read back.
pub open spec fn encodable(p: Payload) -> bool {
    !encode_utf8(p.name).contains(0u8) && !p.events.contains(EVENTS_END)
}

/// The place of the first zero byte at or after `from`, or the length of
/// `bytes` when there is none.
pub open spec fn first_nul(bytes: Seq<u8>, from: int) -> int
    decreases bytes.len() - from,
{
    if from < 0 || from >= bytes.len() {
        bytes.len() as int
    } else if bytes[from] == 0 {
        from
    } else {
        first_nul(bytes, from + 1)
    }
}

/// The events stored from `from` on and the place after their terminator,
/// or `None` when the bytes end first.
pub open spec fn events_at(bytes: Seq<u8>, from: int) -> Option<(Seq<i64>, int)>
    decreases bytes.len() - from,
{
    if from < 0 || from + 8 > bytes.len() {
        None
    } else if word_at(bytes, from) == EVENTS_END {
        Some((Seq::empty(), from + 8))
    } else {
        match events_at(bytes, from + 8) {
            Some((rest, next)) => Some((seq![word_at(bytes, from)] + rest, next)),
            None => None,
        }
    }
}

/// What the bytes from `pos` on decode to.
pub open spec fn decode_at(bytes: Seq<u8>, pos: int) -> Parsed {
    let name_from = pos + 8;
    let name_to = first_nul(bytes, name_from);
    let raw = bytes.subrange(name_from, name_to);
    if pos < 0 || name_from > bytes.len() || name_to >= bytes.len() {
        Parsed::Broken(FramingError::Truncated)
    } else if !valid_utf8(raw) {
        Parsed::Broken(FramingError::InvalidName)
    } else {
        match events_at(bytes, name_to + 1) {
            None => Parsed::Broken(FramingError::Truncated),
            Some((events, next)) => {
                let payload = Payload { id: word_at(bytes, pos), name: decode_utf8(raw), events };
                if payload == end_payload() {
                    Parsed::End { next }
                } else {
                    Parsed::Item { payload, next }
                }
            },
        }
    }
}

/// The number of bytes in the chunk of `p`.
pub open spec fn chunk_len(p: Payload) -> int {
    17 + encode_utf8(p.name).len() as int + 8 * p.events.len() as int
}

/// Eight bytes and the integer they store determine each other.
pub proof fn lemma_word_round_trip(x: i64, s: Seq<u8>)
    ensures
        i64_bytes(x).len() == 8,
        i64_of_bytes(i64_bytes(x)) == x,
        s.len() == 8 ==> i64_bytes(i64_of_bytes(s)) == s,
{
    lemma_auto_spec_u64_to_from_le_bytes();
    let u = x as u64;
    assert(u as i64 == x) by (bit_vector)
        requires
            u == x as u64,
    ;
    let v = spec_u64_from_le_bytes(s);
    let y = v as i64;
    assert(y as u64 == v) by (bit_vector)
        requires
            y == v as i64,
    ;
}

proof fn lemma_word_in_place(pre: Seq<u8>, x: i64, post: Seq<u8>)
    ensures
        word_at(pre + i64_bytes(x) + post, pre.len() as int) == x,
{
    lemma_word_round_trip(x, Seq::empty());
    let bytes = pre + i64_bytes(x) + post;
    assert(bytes.subrange(pre.len() as int, pre.len() as int + 8) =~= i64_bytes(x));
}

proof fn lemma_events_bytes_len(events: Seq<i64>)
    ensures
        events_bytes(events).len() == 8 * events.len(),
    decreases events.len(),
{
    if events.len() > 0 {
        lemma_word_round_trip(events[0], Seq::empty());
        lemma_events_bytes_len(events.drop_first());
    }
}

proof fn lemma_first_nul_found(bytes: Seq<u8>, from: int, to: int)
    requires
        0 <= from <= to < bytes.len(),
        bytes[to] == 0,
        forall|k: int| from <= k < to ==> bytes[k] != 0,
    ensures
        first_nul(bytes, from) == to,
    decreases to - from,
{
    if from < to {
        lemma_first_nul_found(bytes, from + 1, to);
    }
}

pub(crate) proof fn lemma_first_nul_is_first(bytes: Seq<u8>, from: int)
    requires
        0 <= from <= bytes.len(),
    ensures
        from <= first_nul(bytes, from) <= bytes.len(),
        first_nul(bytes, from) < bytes.len() ==> bytes[first_nul(bytes, from)] == 0,
        forall|k: int| from <= k < first_nul(bytes, from) ==> bytes[k] != 0,
    decreases bytes.len() - from,
{
    if from < bytes.len() && bytes[from] != 0 {
        lemma_first_nul_is_first(bytes, from + 1);
    }
}

proof fn lemma_events_in_place(pre: Seq<u8>, events: Seq<i64>, post: Seq<u8>)
    requires
        !events.contains(EVENTS_END),
    ensures
        events_at(pre + events_bytes(events) + i64_bytes(EVENTS_END) + post, pre.len() as int)
            == Some((events, pre.len() as int + 8 * events.len() as int + 8)),
    decreases events.len(),
{
    let bytes = pre + events_bytes(events) + i64_bytes(EVENTS_END) + post;
    lemma_word_round_trip(EVENTS_END, Seq::empty());
    if events.len() == 0 {
        assert(bytes =~= pre + i64_bytes(EVENTS_END) + post);
        lemma_word_in_place(pre, EVENTS_END, post);
    } else {
        let x = events[0];
        let rest = events.drop_first();
        assert(events.contains(x));
        assert forall|k: int| 0 <= k < rest.len() implies rest[k] != EVENTS_END by {
            assert(events.contains(events[k + 1]));
        }
        lemma_word_round_trip(x, Seq::empty());
        lemma_events_bytes_len(rest);
        let after = events_bytes(rest) + i64_bytes(EVENTS_END) + post;
        assert(bytes =~= pre + i64_bytes(x) + after);
        lemma_word_in_place(pre, x, after);
        let pre2 = pre + i64_bytes(x);
        assert(bytes =~= pre2 + events_bytes(rest) + i64_bytes(EVENTS_END) + post);
        lemma_events_in_place(pre2, rest, post);
        assert(seq![x] + rest =~= events);
    }
}

/// Decoding what was encoded gives the record back: wherever the chunk of
/// an encodable record stands in a byte sequence, the bytes at that place
/// decode to the record, or to the end marker when the record has id 0, an
/// empty name and no events, and decoding stops where the chunk stops.
pub proof fn lemma_decode_encoded(pre: Seq<u8>, p: Payload, post: Seq<u8>)
    requires
        encodable(p),
    ensures
        chunk_bytes(p).len() == chunk_len(p),
        decode_at(pre + chunk_bytes(p) + post, pre.len() as int) == if p == end_payload() {
            Parsed::End { next: pre.len() as int + chunk_len(p) }
        } else {
            Parsed::Item { payload: p, next: pre.len() as int + chunk_len(p) }
        },
{
    broadcast use group_utf8_lib;

    let raw = encode_utf8(p.name);
    let bytes = pre + chunk_bytes(p) + post;
    let pos = pre.len() as int;
    let name_to = pos + 8 + raw.len() as int;
    lemma_word_round_trip(p.id, Seq::empty());
    lemma_word_round_trip(EVENTS_END, Seq::empty());
    lemma_events_bytes_len(p.events);
    let after_id = raw + seq![0u8] + events_bytes(p.events) + i64_bytes(EVENTS_END) + post;
    assert(bytes =~= pre + i64_bytes(p.id) + after_id);
    lemma_word_in_place(pre, p.id, after_id);
    assert forall|k: int| pos + 8 <= k < name_to implies bytes[k] != 0 by {
        assert(bytes[k] == raw[k - pos - 8]);
        assert(raw.contains(raw[k - pos - 8]));
    }
    assert(bytes[name_to] == 0);
    lemma_first_nul_found(bytes, pos + 8, name_to);
    assert(bytes.subrange(pos + 8, name_to) =~= raw);
    let head = pre + i64_bytes(p.id) + raw + seq![0u8];
    assert(bytes =~= head + events_bytes(p.events) + i64_bytes(EVENTS_END) + post);
    lemma_events_in_place(head, p.events, post);
    assert(Payload { id: p.id, name: p.name, events: p.events } == p);
}

/// The end marker is the only thing that decodes to the end of a
/// container: the bytes at a place decode to the end exactly when the
/// seventeen bytes there are the end marker.
pub proof fn lemma_end_marker_only(bytes: Seq<u8>, pos: int)
    ensures
        end_marker().len() == 17,
        decode_at(bytes, pos) is End <==> 0 <= pos && pos + 17 <= bytes.len() && bytes.subrange(
            pos,
            pos + 17,
        ) == end_marker(),
        decode_at(bytes, pos) is End ==> decode_at(bytes, pos)->End_next == pos + 17,
{
    broadcast use group_utf8_lib;

    let none = Seq::<char>::empty();
    assert(encode_utf8(none) =~= Seq::<u8>::empty());
    assert(end_payload().events =~= Seq::<i64>::empty());
    assert(encodable(end_payload()));
    lemma_word_round_trip(0, Seq::empty());
    lemma_word_round_trip(EVENTS_END, Seq::empty());
    assert(events_bytes(Seq::<i64>::empty()) =~= Seq::<u8>::empty());
    let marker = end_marker();
    assert(marker =~= i64_bytes(0) + seq![0u8] + i64_bytes(EVENTS_END));
    if 0 <= pos && pos + 17 <= bytes.len() && bytes.subrange(pos, pos + 17) == marker {
        let pre = bytes.subrange(0, pos);
        let post = bytes.subrange(pos + 17, bytes.len() as int);
        assert(bytes =~= pre + bytes.subrange(pos, pos + 17) + post);
        lemma_decode_encoded(pre, end_payload(), post);
    }
    if decode_at(bytes, pos) is End {
        let name_from = pos + 8;
        let name_to = first_nul(bytes, name_from);
        let raw = bytes.subrange(name_from, name_to);
        lemma_first_nul_is_first(bytes, name_from);
        assert(decode_utf8(raw) == none);
        assert(encode_utf8(decode_utf8(raw)) == raw);
        assert(raw.len() == 0);
        assert(name_to == name_from);
        assert(word_at(bytes, name_to + 1) == EVENTS_END);
        lemma_word_round_trip(0, bytes.subrange(pos, pos + 8));
        lemma_word_round_trip(0, bytes.subrange(pos + 9, pos + 17));
        assert(bytes.subrange(pos, pos + 17) =~= bytes.subrange(pos, pos + 8) + seq![0u8]
            + bytes.subrange(pos + 9, pos + 17));
    }
}

} // verus!
