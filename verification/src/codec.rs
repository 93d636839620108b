//! The binary codec of records: one chunk for each record, and the end
//! marker behind the last.

use crate::data::{record_of, views_of, Data, ReadConfig, Record, UserInfo};
use crate::scan::{lemma_decoded_chunk, stream, stream_fault, stream_stop};
use crate::wire::{
    chunk_bytes, decode_at, end_marker, events_at, events_bytes, first_nul, i64_bytes, word_at,
    EncodeError, FramingError, Parsed, Payload, EVENTS_END,
};
use byteorder::{LittleEndian, ReadBytesExt, WriteBytesExt};
use vstd::prelude::*;
use vstd::utf8::*;

verus! {

/// `ReadBytesExt::read_i64::<LittleEndian>` of byteorder, on the bytes from
/// `pos` on: the integer whose bytes, lowest first, are the next eight, or
/// nothing when fewer than eight are left.
#[verifier::external_body]
fn read_word(bytes: &[u8], pos: usize) -> (r: Option<i64>)
    requires
        pos <= bytes@.len(),
    ensures
        r == if pos + 8 <= bytes@.len() {
            Some(word_at(bytes@, pos as int))
        } else {
            None
        },
{
    let mut rest = &bytes[pos..];
    rest.read_i64::<LittleEndian>().ok()
}

/// `WriteBytesExt::write_i64::<LittleEndian>` of byteorder, on a vector:
/// the eight bytes of `n`, lowest first, are appended.
#[verifier::external_body]
fn write_word(out: &mut Vec<u8>, n: i64)
    ensures
        final(out)@ == old(out)@ + i64_bytes(n),
{
    let _ = out.write_i64::<LittleEndian>(n);
}

/// `String::from_utf8` of std: the text that the bytes encode, or nothing
/// when they are not UTF-8.
#[verifier::external_body]
fn text_of_utf8(raw: Vec<u8>) -> (r: Option<String>)
    ensures
        r is Some <==> valid_utf8(raw@),
        r is Some ==> r->0@ == decode_utf8(raw@),
{
    String::from_utf8(raw).ok()
}

/// `tail` with `head` put before its events.
pub open spec fn prepend(head: Seq<i64>, tail: Option<(Seq<i64>, int)>) -> Option<
    (Seq<i64>, int),
> {
    match tail {
        Some((rest, next)) => Some((head + rest, next)),
        None => None,
    }
}

proof fn lemma_first_nul_step(bytes: Seq<u8>, from: int)
    requires
        0 <= from < bytes.len(),
        bytes[from] != 0,
    ensures
        first_nul(bytes, from) == first_nul(bytes, from + 1),
{
}

proof fn lemma_events_step(bytes: Seq<u8>, head: Seq<i64>, at: int)
    requires
        0 <= at,
        at + 8 <= bytes.len(),
    ensures
        word_at(bytes, at) == EVENTS_END ==> prepend(head, events_at(bytes, at)) == Some(
            (head, at + 8),
        ),
        word_at(bytes, at) != EVENTS_END ==> prepend(head, events_at(bytes, at)) == prepend(
            head.push(word_at(bytes, at)),
            events_at(bytes, at + 8),
        ),
{
    let w = word_at(bytes, at);
    if w == EVENTS_END {
        assert(head + Seq::<i64>::empty() =~= head);
    } else {
        match events_at(bytes, at + 8) {
            Some((rest, next)) => {
                assert(head + (seq![w] + rest) =~= head.push(w) + rest);
            },
            None => {},
        }
    }
}

/// Decodes the chunk that begins at `pos`. Gives the record, tagged with
/// `seek`, or `None` for the end marker, and the place after the chunk.
#[verifier::loop_isolation(false)]
pub fn read_chunk(bytes: &[u8], pos: usize, seek: Option<usize>) -> (r: Result<
    (Option<UserInfo>, usize),
    FramingError,
>)
    ensures
        match decode_at(bytes@, pos as int) {
            Parsed::Broken(e) => r == Err::<(Option<UserInfo>, usize), FramingError>(e),
            Parsed::End { next } => r is Ok && r->Ok_0.0 is None && r->Ok_0.1 == next,
            Parsed::Item { payload, next } => r is Ok && r->Ok_0.0 is Some && r->Ok_0.0->0@
                == record_of(payload, seek) && r->Ok_0.1 == next,
        },
{
    if pos > bytes.len() {
        return Err(FramingError::Truncated);
    }
    let pikabu_id = match read_word(bytes, pos) {
        Some(v) => v,
        None => {
            return Err(FramingError::Truncated);
        },
    };
    let name_from: usize = pos + 8;
    let mut i: usize = name_from;
    let mut raw: Vec<u8> = Vec::new();
    while i < bytes.len() && bytes[i] != 0
        invariant
            name_from <= i <= bytes@.len(),
            raw@ == bytes@.subrange(name_from as int, i as int),
            first_nul(bytes@, name_from as int) == first_nul(bytes@, i as int),
        decreases bytes@.len() - i,
    {
        proof {
            lemma_first_nul_step(bytes@, i as int);
        }
        raw.push(bytes[i]);
        i += 1;
    }
    if i >= bytes.len() {
        return Err(FramingError::Truncated);
    }
    let name = match text_of_utf8(raw) {
        Some(s) => s,
        None => {
            return Err(FramingError::InvalidName);
        },
    };
    let events_from: usize = i + 1;
    let mut at: usize = events_from;
    let mut comments: Vec<i64> = Vec::new();
    let mut done = false;
    assert(comments@ + Seq::<i64>::empty() =~= Seq::<i64>::empty());
    assert(events_at(bytes@, at as int) == prepend(comments@, events_at(bytes@, at as int))) by {
        match events_at(bytes@, at as int) {
            Some((rest, next)) => {
                assert(comments@ + rest =~= rest);
            },
            None => {},
        }
    }
    while !done
        invariant
            at <= bytes@.len(),
            !done ==> events_at(bytes@, events_from as int) == prepend(
                comments@,
                events_at(bytes@, at as int),
            ),
            done ==> events_at(bytes@, events_from as int) == Some((comments@, at as int)),
        decreases
                if done {
                    0
                } else {
                    1 + bytes@.len() - at
                },
    {
        match read_word(bytes, at) {
            None => {
                return Err(FramingError::Truncated);
            },
            Some(ts) => {
                proof {
                    lemma_events_step(bytes@, comments@, at as int);
                }
                at += 8;
                if ts == EVENTS_END {
                    done = true;
                } else {
                    comments.push(ts);
                }
            },
        }
    }
    let is_end = pikabu_id == 0 && name.as_str().is_empty() && comments.len() == 0;
    proof {
        let p = Payload { id: pikabu_id, name: name@, events: comments@ };
        if is_end {
            assert(p.name =~= Seq::<char>::empty());
            assert(p.events =~= Seq::<i64>::empty());
        }
    }
    if is_end {
        Ok((None, at))
    } else {
        Ok((Some(UserInfo { name, pikabu_id, seek, comments }), at))
    }
}

proof fn lemma_events_bytes_push(events: Seq<i64>, x: i64)
    ensures
        events_bytes(events.push(x)) == events_bytes(events) + i64_bytes(x),
    decreases events.len(),
{
    let longer = events.push(x);
    if events.len() == 0 {
        assert(longer.drop_first() =~= Seq::<i64>::empty());
        assert(events_bytes(Seq::<i64>::empty()) =~= Seq::<u8>::empty());
        assert(longer[0] == x);
        assert(events_bytes(longer) =~= i64_bytes(x));
        assert(events_bytes(events) + i64_bytes(x) =~= i64_bytes(x));
    } else {
        assert(longer.drop_first() =~= events.drop_first().push(x));
        lemma_events_bytes_push(events.drop_first(), x);
        assert(events_bytes(longer) =~= events_bytes(events) + i64_bytes(x));
    }
}

/// What `write_chunk` does with a record: the error on which it refuses the
/// record, or nothing when it writes the record's chunk.
pub open spec fn refusal(p: Payload) -> Option<EncodeError> {
    if encode_utf8(p.name).contains(0u8) {
        Some(EncodeError::NulInName)
    } else if p.events.contains(EVENTS_END) {
        Some(EncodeError::ReservedEvent)
    } else {
        None
    }
}

/// Appends the chunk of `info` to `writer`, or the end marker for `None`.
/// A record whose name holds a zero byte, or one of whose events is the
/// terminator, is refused and nothing is written.
#[verifier::loop_isolation(false)]
pub fn write_chunk(writer: &mut Vec<u8>, info: Option<&UserInfo>) -> (r: Result<(), EncodeError>)
    ensures
        match info {
            None => r is Ok && final(writer)@ == old(writer)@ + end_marker(),
            Some(u) => match refusal(u@.payload()) {
                Some(e) => r == Err::<(), EncodeError>(e) && final(writer)@ == old(writer)@,
                None => r is Ok && final(writer)@ == old(writer)@ + chunk_bytes(u@.payload()),
            },
        },
{
    match info {
        Some(info) => {
            let name = info.name.as_str().as_bytes();
            let mut i: usize = 0;
            while i < name.len()
                invariant
                    i <= name@.len(),
                    forall|k: int| 0 <= k < i ==> name@[k] != 0,
                decreases name@.len() - i,
            {
                if name[i] == 0 {
                    return Err(EncodeError::NulInName);
                }
                i += 1;
            }
            let mut j: usize = 0;
            while j < info.comments.len()
                invariant
                    j <= info.comments@.len(),
                    forall|k: int| 0 <= k < j ==> info.comments@[k] != EVENTS_END,
                decreases info.comments@.len() - j,
            {
                if info.comments[j] == EVENTS_END {
                    return Err(EncodeError::ReservedEvent);
                }
                j += 1;
            }
            write_word(writer, info.pikabu_id);
            let ghost head = writer@;
            let mut k: usize = 0;
            while k < name.len()
                invariant
                    k <= name@.len(),
                    writer@ == head + name@.subrange(0, k as int),
                decreases name@.len() - k,
            {
                writer.push(name[k]);
                k += 1;
            }
            writer.push(0);
            let ghost named = writer@;
            assert(named == head + name@ + seq![0u8]) by {
                assert(name@.subrange(0, name@.len() as int) =~= name@);
            }
            let mut n: usize = 0;
            while n < info.comments.len()
                invariant
                    n <= info.comments@.len(),
                    writer@ == named + events_bytes(info.comments@.take(n as int)),
                decreases info.comments@.len() - n,
            {
                proof {
                    lemma_events_bytes_push(info.comments@.take(n as int), info.comments@[n as int]);
                    assert(info.comments@.take(n as int).push(info.comments@[n as int])
                        =~= info.comments@.take(n + 1));
                }
                write_word(writer, info.comments[n]);
                n += 1;
            }
            write_word(writer, EVENTS_END);
            proof {
                assert(info.comments@.take(info.comments@.len() as int) =~= info.comments@);
                assert(writer@ =~= old(writer)@ + chunk_bytes(info@.payload()));
            }
            Ok(())
        },
        None => {
            write_word(writer, 0);
            writer.push(0);
            write_word(writer, EVENTS_END);
            proof {
                broadcast use vstd::utf8::group_utf8_lib;

                assert(encode_utf8(Seq::<char>::empty()) =~= Seq::<u8>::empty());
                assert(writer@ =~= old(writer)@ + end_marker());
            }
            Ok(())
        },
    }
}

/// The chunks of `records`, one after another.
pub open spec fn chunks(records: Seq<Record>) -> Seq<u8>
    decreases records.len(),
{
    if records.len() == 0 {
        Seq::empty()
    } else {
        chunks(records.drop_last()) + chunk_bytes(records.last().payload())
    }
}

/// Copies the records that `data` holds from its cursor on to `writer`,
/// each as its chunk and in their order, and ends them with the end
/// marker. Where a chunk of `data` cannot be read, nothing is written.
pub fn write_all(data: &mut Data, writer: &mut Vec<u8>) -> (r: Result<(), FramingError>)
    ensures
        final(data).same_container(old(data)),
        final(data).same_cache(old(data)),
        final(data).position() == stream_stop(old(data).source(), old(data).position()),
        match stream_fault(old(data).source(), old(data).position()) {
            Some(e) => r == Err::<(), FramingError>(e) && final(writer)@ == old(writer)@,
            None => r is Ok && final(writer)@ == old(writer)@ + chunks(
                stream(old(data).source(), old(data).position(), old(data).seekable()),
            ) + end_marker(),
        },
{
    let ghost src = data.source();
    let ghost from = data.position();
    let ghost kind = data.seekable();
    let ghost done: Seq<Record> = Seq::empty();
    let start = writer.len();
    let mut reader = data.get_reader(ReadConfig::NoCache);
    let mut finished = false;
    assert(done + stream(src, from, kind) =~= stream(src, from, kind));
    assert(old(writer)@ + chunks(done) =~= old(writer)@);
    while !finished
        invariant
            data.same_container(old(data)),
            data.same_cache(old(data)),
            src == old(data).source(),
            from == old(data).position(),
            kind == old(data).seekable(),
            reader.config() == ReadConfig::NoCache,
            start == old(writer)@.len(),
            writer@ == old(writer)@ + chunks(done),
            stream(src, from, kind) == done + stream(src, data.position(), kind),
            stream_fault(src, from) == stream_fault(src, data.position()),
            stream_stop(src, from) == stream_stop(src, data.position()),
            finished ==> decode_at(src, data.position()) is End,
        decreases
                if finished {
                    0
                } else {
                    1 + src.len() - data.position()
                },
    {
        let ghost pos = data.position();
        proof {
            lemma_decoded_chunk(src, pos);
        }
        match reader.advance(data) {
            Err(e) => {
                writer.truncate(start);
                assert(writer@ =~= old(writer)@);
                return Err(e);
            },
            Ok(()) => {},
        }
        match reader.get(data) {
            None => {
                finished = true;
            },
            Some(x) => {
                proof {
                    let longer = done.push(x@);
                    assert(longer.drop_last() =~= done);
                    assert(done + (seq![x@] + stream(src, data.position(), kind)) =~= longer
                        + stream(src, data.position(), kind));
                    done = longer;
                }
                let _ = write_chunk(writer, Some(x));
            },
        }
    }
    let _ = write_chunk(writer, None);
    proof {
        assert(done + Seq::<Record>::empty() =~= done);
    }
    Ok(())
}

/// The reason for which the first record of `records` that cannot be
/// encoded is refused.
pub open spec fn first_refusal(records: Seq<Record>) -> Option<EncodeError>
    decreases records.len(),
{
    if records.len() == 0 {
        None
    } else {
        match first_refusal(records.drop_last()) {
            Some(e) => Some(e),
            None => refusal(records.last().payload()),
        }
    }
}

proof fn lemma_refusal_stays(records: Seq<Record>, k: int)
    requires
        0 <= k <= records.len(),
        first_refusal(records.take(k)) is Some,
    ensures
        first_refusal(records) == first_refusal(records.take(k)),
    decreases records.len() - k,
{
    if k < records.len() {
        assert(records.take(k + 1).drop_last() =~= records.take(k));
        lemma_refusal_stays(records, k + 1);
    } else {
        assert(records.take(k) =~= records);
    }
}

/// Appends the chunks of `records`, in their order, and the end marker to
/// `writer`. Where a record is refused, nothing is written.
pub fn write_records(records: &[UserInfo], writer: &mut Vec<u8>) -> (r: Result<(), EncodeError>)
    ensures
        match first_refusal(views_of(records@)) {
            Some(e) => r == Err::<(), EncodeError>(e) && final(writer)@ == old(writer)@,
            None => r is Ok && final(writer)@ == old(writer)@ + chunks(views_of(records@))
                + end_marker(),
        },
{
    let ghost all = views_of(records@);
    let start = writer.len();
    let mut i: usize = 0;
    assert(all.take(0) =~= Seq::<Record>::empty());
    assert(old(writer)@ + chunks(all.take(0)) =~= old(writer)@);
    while i < records.len()
        invariant
            i <= records@.len(),
            all == views_of(records@),
            start == old(writer)@.len(),
            first_refusal(all.take(i as int)) is None,
            writer@ == old(writer)@ + chunks(all.take(i as int)),
        decreases records@.len() - i,
    {
        proof {
            let upto = all.take(i + 1);
            assert(upto.drop_last() =~= all.take(i as int));
            assert(upto.last() == records@[i as int]@);
        }
        match write_chunk(writer, Some(&records[i])) {
            Ok(()) => {},
            Err(e) => {
                proof {
                    lemma_refusal_stays(all, i + 1);
                }
                writer.truncate(start);
                assert(writer@ =~= old(writer)@);
                return Err(e);
            },
        }
        i += 1;
    }
    assert(all.take(records@.len() as int) =~= all);
    let _ = write_chunk(writer, None);
    Ok(())
}

} // verus!
