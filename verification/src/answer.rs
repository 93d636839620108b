//! What a search is to return, as functions on selectors and records.

use crate::data::{Data, Record};
use crate::data::{record_of, tag_at};
use crate::scan::{stream, stream_fault};
use crate::wire::{decode_at, Parsed};
use crate::pattern::{glob_built, glob_matches, regex_built, regex_matches};
use crate::selector::Selector;
use crate::text::lowercase;
use crate::wire::FramingError;
use vstd::prelude::*;

verus! {

/// The size, in bytes, that a compiled regular expression and its search
/// tables may each take.
pub const PATTERN_SIZE_LIMIT: usize = 5242880;

/// How deep a regular expression may nest.
pub const PATTERN_NEST_LIMIT: u32 = 5;

/// Why a search gives no answer.
pub enum Failure {
    /// A chunk of the container cannot be read.
    Framing(FramingError),
    /// This selector's pattern does not compile.
    BadPattern(Selector),
    /// As many records were found as the search may find at most.
    LimitExceeded,
    /// A pattern reached the lookup in the indexes.
    Internal,
    /// A place in the container was asked of the indexes.
    SeekUnavailable,
}

impl Selector {
    /// True for the selectors that any number of records can match.
    pub open spec fn is_pattern(self) -> bool {
        self is Glob || self is Regexp
    }

    /// True unless the selector holds a pattern that does not compile.
    pub open spec fn compiles(self) -> bool {
        match self {
            Selector::Glob(p) => glob_built(p) is Ok,
            Selector::Regexp(p) => regex_built(
                p,
                true,
                PATTERN_SIZE_LIMIT,
                PATTERN_NEST_LIMIT,
                PATTERN_SIZE_LIMIT,
            ) is Ok,
            _ => true,
        }
    }

    /// Whether the selector selects the record `r`. Names are compared in
    /// their lowercase forms; patterns are matched without regard to case.
    pub open spec fn matches(self, r: Record) -> bool {
        match self {
            Selector::Name(n) => lowercase(n) == lowercase(r.name),
            Selector::Glob(p) => glob_built(p) is Ok && glob_matches(
                glob_built(p)->Ok_0,
                r.name,
                false,
                false,
                false,
            ),
            Selector::Regexp(p) => {
                let built = regex_built(
                    p,
                    true,
                    PATTERN_SIZE_LIMIT,
                    PATTERN_NEST_LIMIT,
                    PATTERN_SIZE_LIMIT,
                );
                built is Ok && regex_matches(built->Ok_0, r.name)
            },
            Selector::PikabuId(id) => r.id == id,
            Selector::Seek(sk) => r.seek is Some && r.seek->0 as int == sk as int,
        }
    }
}

/// The selectors of all groups, one group after the other.
pub open spec fn flattened(query: Seq<Seq<Selector>>) -> Seq<Selector>
    decreases query.len(),
{
    if query.len() == 0 {
        Seq::empty()
    } else {
        flattened(query.drop_last()) + query.last()
    }
}

/// Where `sel` stands first in `table`, if it stands there.
pub open spec fn slot_of(table: Seq<Selector>, sel: Selector) -> Option<int>
    decreases table.len(),
{
    if table.len() == 0 {
        None
    } else {
        match slot_of(table.drop_last(), sel) {
            Some(i) => Some(i),
            None => if table.last() == sel {
                Some(table.len() - 1)
            } else {
                None
            },
        }
    }
}

/// The selectors of `sels` without repetition, each where it stands first.
pub open spec fn distinct(sels: Seq<Selector>) -> Seq<Selector>
    decreases sels.len(),
{
    if sels.len() == 0 {
        Seq::empty()
    } else {
        let before = distinct(sels.drop_last());
        if slot_of(before, sels.last()) is Some {
            before
        } else {
            before.push(sels.last())
        }
    }
}

/// The first selector of `table` whose pattern does not compile.
pub open spec fn first_unbuildable(table: Seq<Selector>) -> Option<Selector>
    decreases table.len(),
{
    if table.len() == 0 {
        None
    } else {
        match first_unbuildable(table.drop_last()) {
            Some(sel) => Some(sel),
            None => if table.last().compiles() {
                None
            } else {
                Some(table.last())
            },
        }
    }
}

/// True when a selector of `table` is a pattern.
pub open spec fn has_pattern(table: Seq<Selector>) -> bool {
    exists|i: int| 0 <= i < table.len() && (#[trigger] table[i]).is_pattern()
}

/// The records of `recs` that a scan finds for `sel`, in their order: all
/// that a pattern matches, and the first that another selector matches.
pub open spec fn hits(sel: Selector, recs: Seq<Record>) -> Seq<Record>
    decreases recs.len(),
{
    if recs.len() == 0 {
        Seq::empty()
    } else {
        let before = hits(sel, recs.drop_last());
        if sel.matches(recs.last()) && (sel.is_pattern() || before.len() == 0) {
            before.push(recs.last())
        } else {
            before
        }
    }
}

/// What a scan of `recs` finds for each selector of `table`.
pub open spec fn scan_found(table: Seq<Selector>, recs: Seq<Record>) -> Seq<Seq<Record>> {
    Seq::new(table.len(), |i: int| hits(table[i], recs))
}

/// The number of records in all lists of `found`.
pub open spec fn count(found: Seq<Seq<Record>>) -> nat
    decreases found.len(),
{
    if found.len() == 0 {
        0
    } else {
        count(found.drop_last()) + found.last().len()
    }
}

/// The number of finds at which a search with the limit `limit` fails.
pub open spec fn cap(limit: usize) -> nat {
    if limit == 0 {
        1
    } else {
        limit as nat
    }
}

/// True when `recs` holds a record of the id `id`.
pub open spec fn has_id(recs: Seq<Record>, id: i64) -> bool {
    exists|i: int| 0 <= i < recs.len() && (#[trigger] recs[i]).id == id
}

/// The records of `recs` without those whose id an earlier one has.
pub open spec fn dedup(recs: Seq<Record>) -> Seq<Record>
    decreases recs.len(),
{
    if recs.len() == 0 {
        Seq::empty()
    } else {
        let before = dedup(recs.drop_last());
        if has_id(before, recs.last().id) {
            before
        } else {
            before.push(recs.last())
        }
    }
}

/// What was found for the selectors of `group`, one selector after the
/// other, where `found` holds what was found for each selector of `table`.
pub open spec fn gathered(
    group: Seq<Selector>,
    table: Seq<Selector>,
    found: Seq<Seq<Record>>,
) -> Seq<Record>
    decreases group.len(),
{
    if group.len() == 0 {
        Seq::empty()
    } else {
        let before = gathered(group.drop_last(), table, found);
        match slot_of(table, group.last()) {
            Some(i) => before + found[i],
            None => before,
        }
    }
}

/// The answer to each group of `query`: what was found for its selectors,
/// each record once.
pub open spec fn assembled(
    query: Seq<Seq<Selector>>,
    table: Seq<Selector>,
    found: Seq<Seq<Record>>,
) -> Seq<Seq<Record>> {
    Seq::new(query.len(), |g: int| dedup(gathered(query[g], table, found)))
}

/// True when a scan of `recs` has found a record for every selector of
/// `table`, none of which is a pattern, so that it need not go on.
pub open spec fn settled(table: Seq<Selector>, recs: Seq<Record>) -> bool {
    forall|i: int|
        0 <= i < table.len() ==> !(#[trigger] table[i]).is_pattern() && hits(table[i], recs).len()
            > 0
}

/// What a scan for the selectors of `table` gives, where `recs` are the
/// records up to the end of the container or to the first chunk that
/// cannot be read, and `fault` says why that chunk cannot. The limit is
/// reached before a fault is met; a fault does not count when every
/// selector was answered before it.
pub open spec fn scan_outcome(
    table: Seq<Selector>,
    recs: Seq<Record>,
    fault: Option<FramingError>,
    limit: usize,
) -> Result<Seq<Seq<Record>>, Failure> {
    let found = scan_found(table, recs);
    if count(found) >= cap(limit) {
        Err(Failure::LimitExceeded)
    } else if settled(table, recs) {
        Ok(found)
    } else {
        match fault {
            Some(e) => Err(Failure::Framing(e)),
            None => Ok(found),
        }
    }
}

/// Where a scan for the selectors of `table` leaves the cursor, when it
/// has read `done` and now stands at `pos`: behind the record on which the
/// limit is reached or the last selector is answered, or at the end marker
/// or the chunk that cannot be read.
pub open spec fn scan_end(
    table: Seq<Selector>,
    bytes: Seq<u8>,
    pos: int,
    seekable: bool,
    done: Seq<Record>,
    limit: usize,
) -> int
    decreases bytes.len() - pos,
{
    match decode_at(bytes, pos) {
        Parsed::Item { payload, next } => if pos < next <= bytes.len() {
            let longer = done.push(record_of(payload, tag_at(seekable, pos)));
            if count(scan_found(table, longer)) >= cap(limit) || settled(table, longer) {
                next
            } else {
                scan_end(table, bytes, next, seekable, longer, limit)
            }
        } else {
            pos
        },
        _ => pos,
    }
}

/// Where a search of `data` for the selectors of `table` leaves the
/// cursor: where it was, unless the container is scanned.
pub open spec fn cursor_after(data: &Data, table: Seq<Selector>, use_cache: bool, limit: usize)
    -> int {
    if first_unbuildable(table) is None && table.len() > 0 && (has_pattern(table) || !use_cache) {
        scan_end(
            table,
            data.source(),
            data.position(),
            data.seekable(),
            Seq::empty(),
            limit,
        )
    } else {
        data.position()
    }
}

/// What the indexes of `data` hold for `sel`: one record at most.
pub open spec fn probed(data: &Data, sel: Selector) -> Result<Seq<Record>, Failure> {
    let entry = match sel {
        Selector::Name(n) => Ok(data.name_entry(lowercase(n))),
        Selector::PikabuId(id) => Ok(data.id_entry(id)),
        Selector::Seek(_) => Err(Failure::SeekUnavailable),
        _ => Err(Failure::Internal),
    };
    match entry {
        Err(e) => Err(e),
        Ok(Err(e)) => Err(Failure::Framing(e)),
        Ok(Ok(None)) => Ok(Seq::empty()),
        Ok(Ok(Some(r))) => Ok(seq![r]),
    }
}

/// What a lookup in the indexes of `data` gives for the selectors of
/// `table`, taken in their order: the first failure stops it.
pub open spec fn probe_outcome(data: &Data, table: Seq<Selector>, limit: usize) -> Result<
    Seq<Seq<Record>>,
    Failure,
>
    decreases table.len(),
{
    if table.len() == 0 {
        Ok(Seq::empty())
    } else {
        match probe_outcome(data, table.drop_last(), limit) {
            Err(e) => Err(e),
            Ok(found) => match probed(data, table.last()) {
                Err(e) => Err(e),
                Ok(one) => if count(found) + one.len() >= cap(limit) {
                    Err(Failure::LimitExceeded)
                } else {
                    Ok(found.push(one))
                },
            },
        }
    }
}

/// `slot_of` gives the first place at which the selector stands.
pub(crate) proof fn lemma_slot_of(table: Seq<Selector>, sel: Selector)
    ensures
        match slot_of(table, sel) {
            Some(i) => 0 <= i < table.len() && table[i] == sel && forall|k: int|
                0 <= k < i ==> table[k] != sel,
            None => forall|k: int| 0 <= k < table.len() ==> table[k] != sel,
        },
    decreases table.len(),
{
    if table.len() > 0 {
        let front = table.drop_last();
        lemma_slot_of(front, sel);
        match slot_of(front, sel) {
            Some(i) => {
                assert(front[i] == table[i]);
                assert forall|k: int| 0 <= k < i implies table[k] != sel by {
                    assert(front[k] != sel);
                }
            },
            None => {
                assert forall|k: int| 0 <= k < front.len() implies table[k] != sel by {
                    assert(front[k] != sel);
                }
            },
        }
    }
}

/// A selector keeps its place when the table grows.
pub(crate) proof fn lemma_slot_of_push(table: Seq<Selector>, sel: Selector, more: Selector)
    ensures
        slot_of(table, sel) is Some ==> slot_of(table.push(more), sel) == slot_of(table, sel),
        slot_of(table, sel) is None && more == sel ==> slot_of(table.push(more), sel) == Some(
            table.len() as int,
        ),
{
    assert(table.push(more).drop_last() =~= table);
}

/// What one more record adds to what a scan has found for a selector.
pub(crate) proof fn lemma_hits_push(sel: Selector, recs: Seq<Record>, r: Record)
    ensures
        hits(sel, recs.push(r)) == if sel.matches(r) && (sel.is_pattern() || hits(sel, recs).len()
            == 0) {
            hits(sel, recs).push(r)
        } else {
            hits(sel, recs)
        },
{
    assert(recs.push(r).drop_last() =~= recs);
}

/// A longer scan finds no less, and nothing more for a selector that is
/// no pattern and has its record.
pub(crate) proof fn lemma_hits_grow(sel: Selector, a: Seq<Record>, b: Seq<Record>)
    ensures
        hits(sel, a).len() <= hits(sel, a + b).len(),
        !sel.is_pattern() && hits(sel, a).len() > 0 ==> hits(sel, a + b) == hits(sel, a),
    decreases b.len(),
{
    if b.len() == 0 {
        assert(a + b =~= a);
    } else {
        lemma_hits_grow(sel, a, b.drop_last());
        assert((a + b).drop_last() =~= a + b.drop_last());
    }
}

/// Adding one record to one list adds one to the count.
pub(crate) proof fn lemma_count_update(found: Seq<Seq<Record>>, i: int, longer: Seq<Record>)
    requires
        0 <= i < found.len(),
    ensures
        count(found.update(i, longer)) == count(found) - found[i].len() + longer.len(),
    decreases found.len(),
{
    let after = found.update(i, longer);
    if i == found.len() - 1 {
        assert(after.drop_last() =~= found.drop_last());
    } else {
        lemma_count_update(found.drop_last(), i, longer);
        assert(after.drop_last() =~= found.drop_last().update(i, longer));
    }
}

/// Lists that are no longer, one by one, hold no more in all.
pub(crate) proof fn lemma_count_le(f: Seq<Seq<Record>>, g: Seq<Seq<Record>>)
    requires
        f.len() == g.len(),
        forall|k: int| 0 <= k < f.len() ==> f[k].len() <= g[k].len(),
    ensures
        count(f) <= count(g),
    decreases f.len(),
{
    if f.len() > 0 {
        assert forall|k: int| 0 <= k < f.drop_last().len() implies f.drop_last()[k].len()
            <= g.drop_last()[k].len() by {
            assert(f.drop_last()[k] == f[k]);
            assert(g.drop_last()[k] == g[k]);
        }
        lemma_count_le(f.drop_last(), g.drop_last());
    }
}

/// What is found in `data` for each selector of `table`: by a scan from
/// the cursor on when a selector is a pattern or the indexes may not
/// answer, and else by asking the indexes.
pub open spec fn searched(data: &Data, table: Seq<Selector>, use_cache: bool, limit: usize)
    -> Result<Seq<Seq<Record>>, Failure> {
    if has_pattern(table) || !use_cache {
        scan_outcome(
            table,
            stream(data.source(), data.position(), data.seekable()),
            stream_fault(data.source(), data.position()),
            limit,
        )
    } else {
        probe_outcome(data, table, limit)
    }
}

/// What a search of `data` for `query` gives. Patterns are compiled
/// first; then the selectors are searched for, each once; then each group
/// is answered from what was found for its selectors.
pub open spec fn expected(data: &Data, query: Seq<Seq<Selector>>, use_cache: bool, limit: usize)
    -> Result<Seq<Seq<Record>>, Failure> {
    let table = distinct(flattened(query));
    match first_unbuildable(table) {
        Some(sel) => Err(Failure::BadPattern(sel)),
        None => match searched(data, table, use_cache, limit) {
            Err(e) => Err(e),
            Ok(found) => Ok(assembled(query, table, found)),
        },
    }
}

/// The selectors of `group` that name no place in the container.
pub open spec fn without_seeks(group: Seq<Selector>) -> Seq<Selector>
    decreases group.len(),
{
    if group.len() == 0 {
        Seq::empty()
    } else if group.last() is Seek {
        without_seeks(group.drop_last())
    } else {
        without_seeks(group.drop_last()).push(group.last())
    }
}

/// The groups of `query`, each without the selectors that name a place.
pub open spec fn stripped(query: Seq<Seq<Selector>>) -> Seq<Seq<Selector>> {
    Seq::new(query.len(), |g: int| without_seeks(query[g]))
}

/// What stands at the place `sk` of the container of `data`.
pub open spec fn sought_one(data: &Data, sk: u64) -> Result<Option<Record>, Failure> {
    if sk > usize::MAX {
        Err(Failure::Framing(FramingError::Truncated))
    } else {
        match data.offset_entry(sk as usize) {
            Err(e) => Err(Failure::Framing(e)),
            Ok(r) => Ok(r),
        }
    }
}

/// The records at the places that the selectors of `group` name, in their
/// order, and the number of finds left of `left`. Each record is a find:
/// the search fails on one when no more than one is left.
pub open spec fn sought(data: &Data, group: Seq<Selector>, left: usize) -> Result<
    (Seq<Record>, usize),
    Failure,
>
    decreases group.len(),
{
    if group.len() == 0 {
        Ok((Seq::empty(), left))
    } else {
        match sought(data, group.drop_last(), left) {
            Err(e) => Err(e),
            Ok((recs, l)) => match group.last() {
                Selector::Seek(sk) => match sought_one(data, sk) {
                    Err(e) => Err(e),
                    Ok(None) => Ok((recs, l)),
                    Ok(Some(r)) => if l <= 1 {
                        Err(Failure::LimitExceeded)
                    } else {
                        Ok((recs.push(r), (l - 1) as usize))
                    },
                },
                _ => Ok((recs, l)),
            },
        }
    }
}

/// `sought` for each group of `query`, one group after the other.
pub open spec fn sought_all(data: &Data, query: Seq<Seq<Selector>>, left: usize) -> Result<
    (Seq<Seq<Record>>, usize),
    Failure,
>
    decreases query.len(),
{
    if query.len() == 0 {
        Ok((Seq::empty(), left))
    } else {
        match sought_all(data, query.drop_last(), left) {
            Err(e) => Err(e),
            Ok((lists, l)) => match sought(data, query.last(), l) {
                Err(e) => Err(e),
                Ok((recs, l2)) => Ok((lists.push(recs), l2)),
            },
        }
    }
}

/// What a search gives that also answers the selectors that name a place
/// in the container. These are answered first, each from the place it
/// names; the others are searched for with the finds that are left; and
/// each group is answered with what the search found for it, then what
/// stands at its places, each record once.
pub open spec fn expected_seek(
    data: &Data,
    query: Seq<Seq<Selector>>,
    use_cache: bool,
    limit: usize,
) -> Result<Seq<Seq<Record>>, Failure> {
    match sought_all(data, query, limit) {
        Err(e) => Err(e),
        Ok((seeks, left)) => match expected(data, stripped(query), use_cache, left) {
            Err(e) => Err(e),
            Ok(other) => Ok(Seq::new(query.len(), |g: int| dedup(other[g] + seeks[g]))),
        },
    }
}

} // verus!
