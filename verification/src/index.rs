//! The index of a container as a text: one line for each record, with
//! the record's id, the place of its chunk and its name, and commas
//! between them.

use crate::data::{Data, Record, SeekableRef, UserInfo};
use crate::text::{
    char_from, decimal, decimal_nat, find_char, is_digit, lemma_decimal_round_trip, lowercase,
    parse_i64, parse_u64, push_decimal, push_decimal_signed, read_i64, read_u64, texts,
    to_lowercase,
};
use std::collections::HashMap;
use vstd::hash_map::StringHashMap;
use vstd::prelude::*;
use vstd::string::{StrSliceExecFns, StringExecFns};

verus! {

/// Why a line is no line of an index.
#[derive(Clone, Copy, Debug, PartialEq, Eq, Structural)]
pub enum IndexError {
    /// The first field is no 64-bit signed number.
    BadId,
    /// The second field is no place in a container.
    BadOffset,
}

/// What a line of an index says: a record's id, the place of its chunk,
/// and its name in lowercase.
pub struct Entry {
    pub id: i64,
    pub offset: usize,
    pub name: String,
}

/// The line of the record `r`, with the line feed that ends it. The place
/// is left empty for a record that does not know it.
pub open spec fn line_of(r: Record) -> Seq<char> {
    decimal(r.id as int) + seq![','] + match r.seek {
        Some(at) => decimal_nat(at as nat),
        None => Seq::empty(),
    } + seq![','] + r.name + seq!['\n']
}

/// The line of `info` in an index.
pub fn index_line(info: &UserInfo) -> (r: String)
    ensures
        r@ == line_of(info@),
{
    proof {
        reveal_strlit(",");
        reveal_strlit("\n");
    }
    let mut out = String::new();
    push_decimal_signed(&mut out, info.pikabu_id);
    out.append(",");
    if let Some(s) = info.seek {
        push_decimal(&mut out, s as u64);
    }
    out.append(",");
    out.append(info.name.as_str());
    out.append("\n");
    assert(out@ =~= line_of(info@));
    out
}

/// What a line says. A line with fewer than two commas says nothing; in
/// another, what stands before the first comma is the id, what stands
/// between the first and the second is the place, and the rest is the
/// name, which is taken in lowercase.
pub open spec fn parse_line(line: Seq<char>) -> Result<Option<(i64, usize, Seq<char>)>, IndexError> {
    let first = char_from(line, ',', 0);
    let second = char_from(line, ',', first + 1);
    if first >= line.len() || second >= line.len() {
        Ok(None)
    } else {
        match parse_i64(line.subrange(0, first)) {
            None => Err(IndexError::BadId),
            Some(id) => match parse_u64(line.subrange(first + 1, second)) {
                None => Err(IndexError::BadOffset),
                Some(at) => if at > usize::MAX {
                    Err(IndexError::BadOffset)
                } else {
                    Ok(Some((id, at as usize, lowercase(line.subrange(second + 1, line.len() as int)))))
                },
            },
        }
    }
}

/// Reads a line of an index, as `parse_line` defines it.
pub fn read_line(line: &str) -> (r: Result<Option<Entry>, IndexError>)
    ensures
        match parse_line(line@) {
            Err(e) => r == Err::<Option<Entry>, IndexError>(e),
            Ok(None) => r is Ok && r->Ok_0 is None,
            Ok(Some((id, at, name))) => r is Ok && r->Ok_0 is Some && r->Ok_0->0.id == id
                && r->Ok_0->0.offset == at && r->Ok_0->0.name@ == name,
        },
{
    let len = line.unicode_len();
    let first = find_char(line, ',', 0);
    if first >= len {
        return Ok(None);
    }
    let second = find_char(line, ',', first + 1);
    if second >= len {
        return Ok(None);
    }
    let id = match read_i64(line.substring_char(0, first)) {
        Some(id) => id,
        None => {
            return Err(IndexError::BadId);
        },
    };
    let at = match read_u64(line.substring_char(first + 1, second)) {
        Some(at) => at,
        None => {
            return Err(IndexError::BadOffset);
        },
    };
    if at > usize::MAX as u64 {
        return Err(IndexError::BadOffset);
    }
    let name = to_lowercase(line.substring_char(second + 1, len));
    Ok(Some(Entry { id, offset: at as usize, name }))
}

/// The index of names and the index of ids that the lines of `lines`
/// make, one line after the other, or the reason why the first bad line
/// is no line of an index.
pub open spec fn indexes_of(lines: Seq<Seq<char>>) -> Result<
    (Map<Seq<char>, SeekableRef>, Map<i64, SeekableRef>),
    IndexError,
>
    decreases lines.len(),
{
    if lines.len() == 0 {
        Ok((Map::empty(), Map::empty()))
    } else {
        match indexes_of(lines.drop_last()) {
            Err(e) => Err(e),
            Ok((names, ids)) => match parse_line(lines.last()) {
                Err(e) => Err(e),
                Ok(None) => Ok((names, ids)),
                Ok(Some((id, at, name))) => Ok(
                    (names.insert(name, SeekableRef::Seek(at)), ids.insert(id, SeekableRef::Seek(at))),
                ),
            },
        }
    }
}

proof fn lemma_indexes_fail(lines: Seq<Seq<char>>, k: int)
    requires
        0 <= k <= lines.len(),
        indexes_of(lines.take(k)) is Err,
    ensures
        indexes_of(lines) == indexes_of(lines.take(k)),
    decreases lines.len() - k,
{
    if k < lines.len() {
        assert(lines.take(k + 1).drop_last() =~= lines.take(k));
        lemma_indexes_fail(lines, k + 1);
    } else {
        assert(lines.take(k) =~= lines);
    }
}

/// Replaces the index of names and the index of ids of `data` by those
/// that `lines` make. Each entry leads to a place in the container, so
/// that nothing need be read before a lookup. Where a line is bad,
/// `data` stays as it is.
pub fn load_index(data: &mut Data, lines: &Vec<String>) -> (r: Result<(), IndexError>)
    ensures
        final(data).same_container(old(data)),
        final(data).position() == old(data).position(),
        final(data).cached@ == old(data).cached@,
        final(data).offsets@ == old(data).offsets@,
        match indexes_of(texts(lines@)) {
            Err(e) => r == Err::<(), IndexError>(e) && final(data).names@ == old(data).names@
                && final(data).ids@ == old(data).ids@,
            Ok((names, ids)) => r is Ok && final(data).names@ == names && final(data).ids@ == ids,
        },
{
    broadcast use vstd::std_specs::hash::group_hash_axioms;

    let ghost all = texts(lines@);
    let mut names: StringHashMap<SeekableRef> = StringHashMap::new();
    let mut ids: HashMap<i64, SeekableRef> = HashMap::new();
    let mut i: usize = 0;
    assert(all.take(0) =~= Seq::<Seq<char>>::empty());
    while i < lines.len()
        invariant
            i <= lines@.len(),
            all == texts(lines@),
            indexes_of(all.take(i as int)) == Ok::<
                (Map<Seq<char>, SeekableRef>, Map<i64, SeekableRef>),
                IndexError,
            >((names@, ids@)),
        decreases lines@.len() - i,
    {
        proof {
            let upto = all.take(i + 1);
            assert(upto.drop_last() =~= all.take(i as int));
            assert(upto.last() == lines@[i as int]@);
            if indexes_of(upto) is Err {
                lemma_indexes_fail(all, i + 1);
            }
        }
        match read_line(lines[i].as_str()) {
            Err(e) => {
                return Err(e);
            },
            Ok(None) => {},
            Ok(Some(entry)) => {
                names.insert(entry.name, SeekableRef::Seek(entry.offset));
                ids.insert(entry.id, SeekableRef::Seek(entry.offset));
            },
        }
        i += 1;
    }
    assert(all.take(lines@.len() as int) =~= all);
    data.fill_cache(names, ids);
    Ok(())
}

proof fn lemma_comma_found(s: Seq<char>, from: int, to: int)
    requires
        0 <= from <= to < s.len(),
        s[to] == ',',
        forall|k: int| from <= k < to ==> s[k] != ',',
    ensures
        char_from(s, ',', from) == to,
    decreases to - from,
{
    if from < to {
        lemma_comma_found(s, from + 1, to);
    }
}

/// A line that was written reads as it was written: the line of a record
/// that knows its place, without the line feed, says the record's id, its
/// place and its name in lowercase.
pub proof fn lemma_line_round_trip(r: Record)
    requires
        r.seek is Some,
    ensures
        line_of(r).last() == '\n',
        parse_line(line_of(r).drop_last()) == Ok::<Option<(i64, usize, Seq<char>)>, IndexError>(
            Some((r.id, r.seek->0, lowercase(r.name))),
        ),
{
    let at = r.seek->0;
    let a = decimal(r.id as int);
    let b = decimal_nat(at as nat);
    let line = line_of(r).drop_last();
    lemma_decimal_round_trip(r.id, at as u64);
    assert(line =~= a + seq![','] + b + seq![','] + r.name);
    let first = a.len() as int;
    let second = first + 1 + b.len();
    assert forall|k: int| 0 <= k < first implies line[k] != ',' by {
        assert(line[k] == a[k]);
        assert(is_digit(a[k]) || a[k] == '-');
    }
    lemma_comma_found(line, 0, first);
    assert forall|k: int| first + 1 <= k < second implies line[k] != ',' by {
        assert(line[k] == b[k - first - 1]);
        assert(is_digit(b[k - first - 1]));
    }
    lemma_comma_found(line, first + 1, second);
    assert(line.subrange(0, first) =~= a);
    assert(line.subrange(first + 1, second) =~= b);
    assert(line.subrange(second + 1, line.len() as int) =~= r.name);
}

} // verus!
