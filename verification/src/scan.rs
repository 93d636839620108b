//! The records of a container, as the sequence that reading it front to
//! back yields.

use crate::data::{record_of, tag_at, Record};
use crate::wire::{
    decode_at, encodable, events_at, first_nul, lemma_first_nul_is_first, word_at, FramingError,
    Parsed, EVENTS_END,
};
use vstd::prelude::*;
use vstd::utf8::*;

verus! {

/// The records read from `pos` on, up to the end marker or to the first
/// place where no chunk can be read.
pub open spec fn stream(bytes: Seq<u8>, pos: int, seekable: bool) -> Seq<Record>
    decreases bytes.len() - pos,
{
    match decode_at(bytes, pos) {
        Parsed::Item { payload, next } => if pos < next <= bytes.len() {
            seq![record_of(payload, tag_at(seekable, pos))] + stream(bytes, next, seekable)
        } else {
            Seq::empty()
        },
        _ => Seq::empty(),
    }
}

/// Why reading from `pos` on stops, when it is not the end marker that
/// stops it.
pub open spec fn stream_fault(bytes: Seq<u8>, pos: int) -> Option<FramingError>
    decreases bytes.len() - pos,
{
    match decode_at(bytes, pos) {
        Parsed::Item { payload, next } => if pos < next <= bytes.len() {
            stream_fault(bytes, next)
        } else {
            None
        },
        Parsed::End { .. } => None,
        Parsed::Broken(e) => Some(e),
    }
}

/// The place at which reading from `pos` on stops.
pub open spec fn stream_stop(bytes: Seq<u8>, pos: int) -> int
    decreases bytes.len() - pos,
{
    match decode_at(bytes, pos) {
        Parsed::Item { payload, next } => if pos < next <= bytes.len() {
            stream_stop(bytes, next)
        } else {
            pos
        },
        _ => pos,
    }
}

proof fn lemma_events_bounds(bytes: Seq<u8>, from: int)
    ensures
        match events_at(bytes, from) {
            Some((events, next)) => {
                &&& 0 <= from
                &&& next == from + 8 * events.len() + 8
                &&& next <= bytes.len()
                &&& !events.contains(EVENTS_END)
            },
            None => true,
        },
    decreases bytes.len() - from,
{
    if from < 0 || from + 8 > bytes.len() {
    } else if word_at(bytes, from) == EVENTS_END {
    } else {
        lemma_events_bounds(bytes, from + 8);
    }
}

/// A chunk that decodes takes at least seventeen bytes and ends within the
/// bytes, and what it decodes to can be encoded again.
pub proof fn lemma_decoded_chunk(bytes: Seq<u8>, pos: int)
    ensures
        match decode_at(bytes, pos) {
            Parsed::Item { payload, next } => 0 <= pos && pos + 17 <= next <= bytes.len()
                && encodable(payload),
            Parsed::End { next } => 0 <= pos && pos + 17 <= next <= bytes.len(),
            Parsed::Broken(_) => true,
        },
{
    broadcast use group_utf8_lib;

    let name_from = pos + 8;
    if 0 <= pos && name_from <= bytes.len() {
        lemma_first_nul_is_first(bytes, name_from);
        let name_to = first_nul(bytes, name_from);
        let raw = bytes.subrange(name_from, name_to);
        if name_to < bytes.len() && valid_utf8(raw) {
            lemma_events_bounds(bytes, name_to + 1);
            assert(encode_utf8(decode_utf8(raw)) == raw);
            assert forall|k: int| 0 <= k < raw.len() implies raw[k] != 0 by {
                assert(raw[k] == bytes[name_from + k]);
            }
        }
    }
}

} // verus!
