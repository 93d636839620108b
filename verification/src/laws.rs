//! What holds of every search.

use crate::answer::{
    cap, count, dedup, distinct, expected, expected_seek, first_unbuildable, flattened, gathered,
    has_id, has_pattern, hits, lemma_hits_grow, lemma_hits_push, probe_outcome, probed,
    scan_found, searched, sought_all, stripped, Failure,
};
use crate::data::{
    chunk_at, ids_with, loaded, names_with, offsets_with, views_of, CacheConfig, Data, Record,
    SeekableRef,
};
use crate::scan::{lemma_decoded_chunk, stream, stream_fault};
use crate::selector::Selector;
use crate::text::lowercase;
use crate::wire::{decode_at, FramingError, Parsed};
use vstd::prelude::*;

verus! {

/// True when no two records of `recs` have one id.
pub open spec fn ids_differ(recs: Seq<Record>) -> bool {
    forall|i: int, j: int| 0 <= i < j < recs.len() ==> recs[i].id != recs[j].id
}

/// Removing repeated ids leaves each id of the list once, and no other.
pub proof fn lemma_dedup(recs: Seq<Record>)
    ensures
        ids_differ(dedup(recs)),
        forall|id: i64| has_id(dedup(recs), id) == has_id(recs, id),
        forall|i: int| 0 <= i < dedup(recs).len() ==> recs.contains(#[trigger] dedup(recs)[i]),
    decreases recs.len(),
{
    if recs.len() > 0 {
        let front = recs.drop_last();
        let last = recs.last();
        lemma_dedup(front);
        let before = dedup(front);
        let after = dedup(recs);
        assert forall|id: i64| has_id(after, id) == has_id(recs, id) by {
            if has_id(recs, id) {
                let w = choose|w: int| 0 <= w < recs.len() && (#[trigger] recs[w]).id == id;
                if w < front.len() {
                    assert(front[w].id == id);
                    assert(has_id(front, id));
                    assert(has_id(before, id));
                    let v = choose|v: int| 0 <= v < before.len() && (#[trigger] before[v]).id == id;
                    assert(after[v].id == id);
                } else if has_id(before, id) {
                } else {
                    assert(after[before.len() as int].id == id);
                }
            }
            if has_id(after, id) {
                let v = choose|v: int| 0 <= v < after.len() && (#[trigger] after[v]).id == id;
                if v < before.len() {
                    assert(before[v].id == id);
                    assert(has_id(front, id));
                    let w = choose|w: int| 0 <= w < front.len() && (#[trigger] front[w]).id == id;
                    assert(recs[w].id == id);
                } else {
                    assert(recs[recs.len() - 1].id == id);
                }
            }
        }
        assert forall|i: int, j: int| 0 <= i < j < after.len() implies after[i].id
            != after[j].id by {
            if j == before.len() {
                assert(before[i].id == after[i].id);
            } else {
                assert(before[i].id != before[j].id);
            }
        }
        assert forall|i: int| 0 <= i < after.len() implies recs.contains(#[trigger] after[i]) by {
            if i < before.len() {
                assert(front.contains(before[i]));
                let w = choose|w: int| 0 <= w < front.len() && front[w] == before[i];
                assert(recs[w] == after[i]);
            } else {
                assert(recs[recs.len() - 1] == after[i]);
            }
        }
    }
}

/// Every group of every answer holds each user once: no two of its
/// records have one id, whichever way the search went.
pub proof fn lemma_groups_hold_each_id_once(
    data: &Data,
    query: Seq<Seq<Selector>>,
    use_cache: bool,
    limit: usize,
    g: int,
)
    requires
        0 <= g < query.len(),
    ensures
        expected(data, query, use_cache, limit) is Ok ==> ids_differ(
            expected(data, query, use_cache, limit)->Ok_0[g],
        ),
        expected_seek(data, query, use_cache, limit) is Ok ==> ids_differ(
            expected_seek(data, query, use_cache, limit)->Ok_0[g],
        ),
{
    let table = distinct(flattened(query));
    if expected(data, query, use_cache, limit) is Ok {
        let found = searched(data, table, use_cache, limit)->Ok_0;
        lemma_dedup(gathered(query[g], table, found));
    }
    match sought_all(data, query, limit) {
        Ok((seeks, left)) => {
            match expected(data, stripped(query), use_cache, left) {
                Ok(other) => {
                    lemma_dedup(other[g] + seeks[g]);
                },
                Err(_) => {},
            }
        },
        Err(_) => {},
    }
}

proof fn lemma_probe_limit(data: &Data, table: Seq<Selector>, limit: usize, wide: usize)
    requires
        limit <= wide,
    ensures
        probe_outcome(data, table, limit) is Ok ==> count(probe_outcome(data, table, limit)->Ok_0)
            < cap(limit),
        probe_outcome(data, table, wide) is Ok ==> probe_outcome(data, table, limit) == if count(
            probe_outcome(data, table, wide)->Ok_0,
        ) >= cap(limit) {
            Err::<Seq<Seq<Record>>, Failure>(Failure::LimitExceeded)
        } else {
            probe_outcome(data, table, wide)
        },
    decreases table.len(),
{
    if table.len() > 0 {
        let front = table.drop_last();
        lemma_probe_limit(data, front, limit, wide);
        match probe_outcome(data, front, limit) {
            Ok(found) => match probed(data, table.last()) {
                Ok(one) => {
                    assert(found.push(one).drop_last() =~= found);
                },
                Err(_) => {},
            },
            Err(_) => {},
        }
        match probe_outcome(data, front, wide) {
            Ok(found) => match probed(data, table.last()) {
                Ok(one) => {
                    assert(found.push(one).drop_last() =~= found);
                },
                Err(_) => {},
            },
            Err(_) => {},
        }
    }
}

/// The limit is never met quietly. An answer rests on fewer finds than
/// the limit; and where a search with a wider limit rests on as many
/// finds as the limit or more, the search with the limit fails, while on
/// fewer it finds the same.
pub proof fn lemma_limit(
    data: &Data,
    table: Seq<Selector>,
    use_cache: bool,
    limit: usize,
    wide: usize,
)
    requires
        limit <= wide,
    ensures
        searched(data, table, use_cache, limit) is Ok ==> count(
            searched(data, table, use_cache, limit)->Ok_0,
        ) < cap(limit),
        searched(data, table, use_cache, wide) is Ok ==> searched(data, table, use_cache, limit)
            == if count(searched(data, table, use_cache, wide)->Ok_0) >= cap(limit) {
            Err::<Seq<Seq<Record>>, Failure>(Failure::LimitExceeded)
        } else {
            searched(data, table, use_cache, wide)
        },
{
    lemma_probe_limit(data, table, limit, wide);
}

/// Each record of a seekable container's scan is tagged with the place at
/// which its chunk begins, and that chunk decodes to the record.
pub proof fn lemma_scanned_record(bytes: Seq<u8>, pos: int, i: int)
    requires
        0 <= pos,
        bytes.len() <= usize::MAX,
        0 <= i < stream(bytes, pos, true).len(),
    ensures
        stream(bytes, pos, true)[i].seek is Some,
        pos <= stream(bytes, pos, true)[i].seek->0 <= bytes.len(),
        chunk_at(
            bytes,
            stream(bytes, pos, true)[i].seek->0 as int,
            stream(bytes, pos, true)[i].seek,
        ) == Ok::<Option<Record>, FramingError>(Some(stream(bytes, pos, true)[i])),
        i > 0 ==> stream(bytes, pos, true)[i].seek->0 > stream(bytes, pos, true)[i - 1].seek->0,
    decreases i,
{
    lemma_decoded_chunk(bytes, pos);
    match decode_at(bytes, pos) {
        Parsed::Item { payload, next } => {
            let rest = stream(bytes, next, true);
            if i > 0 {
                lemma_scanned_record(bytes, next, i - 1);
                assert(stream(bytes, pos, true)[i] == rest[i - 1]);
                if i > 1 {
                    assert(stream(bytes, pos, true)[i - 1] == rest[i - 2]);
                }
            }
        },
        _ => {},
    }
}

/// True when every place that the index of offsets of `data` knows leads
/// to the record whose chunk begins there.
pub open spec fn offsets_agree(data: &Data) -> bool {
    forall|o: usize| #[trigger]
        data.offsets@.contains_key(o) ==> data.offset_entry(o) == chunk_at(
            data.source(),
            o as int,
            Some(o),
        )
}

/// Looking a record up by the place of its chunk gives the record that a
/// scan of the whole container tags with that place, and the scan tags no
/// other record with it.
pub proof fn lemma_offset_equivalence(data: &Data, i: int)
    requires
        data.seekable(),
        offsets_agree(data),
        0 <= i < stream(data.source(), 0, true).len(),
    ensures
        stream(data.source(), 0, true)[i].seek is Some,
        data.offset_entry(stream(data.source(), 0, true)[i].seek->0) == Ok::<
            Option<Record>,
            FramingError,
        >(Some(stream(data.source(), 0, true)[i])),
        forall|j: int|
            0 <= j < stream(data.source(), 0, true).len() && j != i ==> stream(
                data.source(),
                0,
                true,
            )[j].seek != stream(data.source(), 0, true)[i].seek,
{
    let bytes = data.source();
    let recs = stream(bytes, 0, true);
    assert(bytes.len() <= usize::MAX) by {
        vstd::std_specs::vec::axiom_spec_len(&data.reader);
    }
    lemma_scanned_record(bytes, 0, i);
    assert forall|j: int| 0 <= j < recs.len() && j != i implies recs[j].seek != recs[i].seek by {
        lemma_offsets_rise(bytes, if j < i { j } else { i }, if j < i { i } else { j });
    }
}

proof fn lemma_offsets_rise(bytes: Seq<u8>, i: int, j: int)
    requires
        bytes.len() <= usize::MAX,
        0 <= i < j < stream(bytes, 0, true).len(),
    ensures
        stream(bytes, 0, true)[i].seek is Some,
        stream(bytes, 0, true)[j].seek is Some,
        stream(bytes, 0, true)[i].seek->0 < stream(bytes, 0, true)[j].seek->0,
    decreases j - i,
{
    lemma_scanned_record(bytes, 0, j);
    lemma_scanned_record(bytes, 0, i);
    if i + 1 < j {
        lemma_offsets_rise(bytes, i, j - 1);
    }
}

/// True for the selectors that one record at most can answer from an
/// index: names and ids.
pub open spec fn exact(sel: Selector) -> bool {
    sel is Name || sel is PikabuId
}

/// True when `recs[i]` is the first record of `recs` that `sel` selects.
pub open spec fn first_match(sel: Selector, recs: Seq<Record>, i: int) -> bool {
    &&& 0 <= i < recs.len()
    &&& sel.matches(recs[i])
    &&& forall|j: int| 0 <= j < i ==> !sel.matches(recs[j])
}

/// True when the index of names of `data` is the index of `recs`: it
/// knows the name of every record, and each name it knows leads to the
/// first record of that name.
pub open spec fn names_indexed(data: &Data, recs: Seq<Record>) -> bool {
    &&& forall|i: int|
        0 <= i < recs.len() ==> data.names@.contains_key(lowercase((#[trigger] recs[i]).name))
    &&& forall|n: Seq<char>| #[trigger]
        data.names@.contains_key(lowercase(n)) ==> exists|i: int|
            first_match(Selector::Name(n), recs, i) && data.name_entry(lowercase(n)) == Ok::<
                Option<Record>,
                FramingError,
            >(Some(recs[i]))
}

/// True when the index of ids of `data` is the index of `recs`: it knows
/// the id of every record, and each id it knows leads to the first record
/// of that id.
pub open spec fn ids_indexed(data: &Data, recs: Seq<Record>) -> bool {
    &&& forall|i: int| 0 <= i < recs.len() ==> data.ids@.contains_key((#[trigger] recs[i]).id)
    &&& forall|id: i64| #[trigger]
        data.ids@.contains_key(id) ==> exists|i: int|
            first_match(Selector::PikabuId(id), recs, i) && data.id_entry(id) == Ok::<
                Option<Record>,
                FramingError,
            >(Some(recs[i]))
}

proof fn lemma_hits_none(sel: Selector, recs: Seq<Record>)
    requires
        forall|j: int| 0 <= j < recs.len() ==> !sel.matches(recs[j]),
    ensures
        hits(sel, recs) == Seq::<Record>::empty(),
    decreases recs.len(),
{
    if recs.len() > 0 {
        assert forall|j: int| 0 <= j < recs.drop_last().len() implies !sel.matches(
            recs.drop_last()[j],
        ) by {
            assert(recs.drop_last()[j] == recs[j]);
        }
        lemma_hits_none(sel, recs.drop_last());
    }
}

proof fn lemma_hits_first(sel: Selector, recs: Seq<Record>, i: int)
    requires
        !sel.is_pattern(),
        first_match(sel, recs, i),
    ensures
        hits(sel, recs) == seq![recs[i]],
{
    let before = recs.take(i);
    assert forall|j: int| 0 <= j < before.len() implies !sel.matches(before[j]) by {
        assert(before[j] == recs[j]);
    }
    lemma_hits_none(sel, before);
    lemma_hits_push(sel, before, recs[i]);
    assert(Seq::<Record>::empty().push(recs[i]) =~= seq![recs[i]]);
    lemma_hits_grow(sel, before.push(recs[i]), recs.skip(i + 1));
    assert(before.push(recs[i]) + recs.skip(i + 1) =~= recs);
}

proof fn lemma_probed_exact(data: &Data, recs: Seq<Record>, sel: Selector)
    requires
        names_indexed(data, recs),
        ids_indexed(data, recs),
        exact(sel),
    ensures
        probed(data, sel) == Ok::<Seq<Record>, Failure>(hits(sel, recs)),
{
    match sel {
        Selector::Name(n) => {
            if data.names@.contains_key(lowercase(n)) {
                let i = choose|i: int|
                    first_match(Selector::Name(n), recs, i) && data.name_entry(lowercase(n))
                        == Ok::<Option<Record>, FramingError>(Some(recs[i]));
                lemma_hits_first(sel, recs, i);
            } else {
                assert forall|j: int| 0 <= j < recs.len() implies !sel.matches(recs[j]) by {
                    assert(data.names@.contains_key(lowercase(recs[j].name)));
                }
                lemma_hits_none(sel, recs);
            }
        },
        Selector::PikabuId(id) => {
            if data.ids@.contains_key(id) {
                let i = choose|i: int|
                    first_match(Selector::PikabuId(id), recs, i) && data.id_entry(id) == Ok::<
                        Option<Record>,
                        FramingError,
                    >(Some(recs[i]));
                lemma_hits_first(sel, recs, i);
            } else {
                assert forall|j: int| 0 <= j < recs.len() implies !sel.matches(recs[j]) by {
                    assert(data.ids@.contains_key(recs[j].id));
                }
                lemma_hits_none(sel, recs);
            }
        },
        _ => {},
    }
}

proof fn lemma_probe_exact(data: &Data, table: Seq<Selector>, recs: Seq<Record>, limit: usize)
    requires
        names_indexed(data, recs),
        ids_indexed(data, recs),
        forall|k: int| 0 <= k < table.len() ==> exact(#[trigger] table[k]),
    ensures
        probe_outcome(data, table, limit) == if count(scan_found(table, recs)) >= cap(limit) {
            Err::<Seq<Seq<Record>>, Failure>(Failure::LimitExceeded)
        } else {
            Ok::<Seq<Seq<Record>>, Failure>(scan_found(table, recs))
        },
    decreases table.len(),
{
    if table.len() == 0 {
        assert(scan_found(table, recs) =~= Seq::<Seq<Record>>::empty());
    } else {
        let front = table.drop_last();
        assert forall|k: int| 0 <= k < front.len() implies exact(#[trigger] front[k]) by {
            assert(front[k] == table[k]);
        }
        lemma_probe_exact(data, front, recs, limit);
        assert(exact(table[table.len() - 1]));
        lemma_probed_exact(data, recs, table.last());
        assert(scan_found(table, recs).drop_last() =~= scan_found(front, recs));
        assert(scan_found(table, recs) =~= scan_found(front, recs).push(hits(table.last(), recs)));
    }
}

proof fn lemma_table_members(sels: Seq<Selector>, k: int)
    requires
        0 <= k < distinct(sels).len(),
    ensures
        sels.contains(distinct(sels)[k]),
    decreases sels.len(),
{
    if sels.len() > 0 {
        let before = distinct(sels.drop_last());
        if k < before.len() {
            lemma_table_members(sels.drop_last(), k);
            let w = choose|w: int| 0 <= w < sels.drop_last().len() && sels.drop_last()[w] == before[k];
            assert(sels[w] == before[k]);
        } else {
            assert(sels[sels.len() - 1] == distinct(sels)[k]);
        }
    }
}

proof fn lemma_flattened_members(query: Seq<Seq<Selector>>, k: int)
    requires
        0 <= k < flattened(query).len(),
    ensures
        exists|g: int, j: int|
            0 <= g < query.len() && 0 <= j < query[g].len() && query[g][j] == flattened(query)[k],
    decreases query.len(),
{
    if query.len() > 0 {
        let front = flattened(query.drop_last());
        if k < front.len() {
            lemma_flattened_members(query.drop_last(), k);
            let (g, j) = choose|g: int, j: int|
                0 <= g < query.drop_last().len() && 0 <= j < query.drop_last()[g].len()
                    && query.drop_last()[g][j] == front[k];
            assert(query[g][j] == flattened(query)[k]);
        } else {
            let g = query.len() - 1;
            assert(query[g][k - front.len()] == flattened(query)[k]);
        }
    }
}

proof fn lemma_exact_table(table: Seq<Selector>)
    requires
        forall|k: int| 0 <= k < table.len() ==> exact(#[trigger] table[k]),
    ensures
        first_unbuildable(table) is None,
        !has_pattern(table),
    decreases table.len(),
{
    if table.len() > 0 {
        assert forall|k: int| 0 <= k < table.drop_last().len() implies exact(
            #[trigger] table.drop_last()[k],
        ) by {
            assert(table.drop_last()[k] == table[k]);
        }
        lemma_exact_table(table.drop_last());
        assert(exact(table[table.len() - 1]));
    }
    if has_pattern(table) {
        let w = choose|w: int| 0 <= w < table.len() && (#[trigger] table[w]).is_pattern();
        assert(exact(table[w]));
    }
}

/// The way of the search does not change what names and ids find. Where
/// the container can be read to its end, the indexes are those of its
/// records from the cursor on, and every selector is a name or an id, the
/// search gives the same with the indexes as without them.
pub proof fn lemma_strategies_agree(data: &Data, query: Seq<Seq<Selector>>, limit: usize)
    requires
        stream_fault(data.source(), data.position()) is None,
        names_indexed(data, stream(data.source(), data.position(), data.seekable())),
        ids_indexed(data, stream(data.source(), data.position(), data.seekable())),
        forall|g: int, j: int|
            0 <= g < query.len() && 0 <= j < query[g].len() ==> exact(#[trigger] query[g][j]),
    ensures
        expected(data, query, true, limit) == expected(data, query, false, limit),
{
    let table = distinct(flattened(query));
    let recs = stream(data.source(), data.position(), data.seekable());
    assert forall|k: int| 0 <= k < table.len() implies exact(#[trigger] table[k]) by {
        lemma_table_members(flattened(query), k);
        let w = choose|w: int| 0 <= w < flattened(query).len() && flattened(query)[w] == table[k];
        lemma_flattened_members(query, w);
    }
    lemma_exact_table(table);
    lemma_probe_exact(data, table, recs, limit);
}

/// True when no two records of `recs` have one name, whatever the case.
pub open spec fn names_differ(recs: Seq<Record>) -> bool {
    forall|i: int, j: int|
        0 <= i < j < recs.len() ==> lowercase(recs[i].name) != lowercase(recs[j].name)
}

/// True when `data` has nothing in its cache and in its indexes of names
/// and of ids.
pub open spec fn fresh(data: &Data) -> bool {
    &&& data.cached@.len() == 0
    &&& data.names@ == Map::<Seq<char>, SeekableRef>::empty()
    &&& data.ids@ == Map::<i64, SeekableRef>::empty()
}

proof fn lemma_names_with(recs: Seq<Record>)
    requires
        names_differ(recs),
    ensures
        forall|k: Seq<char>| #[trigger]
            names_with(Map::empty(), recs, 0).contains_key(k) <==> exists|i: int|
                0 <= i < recs.len() && lowercase(#[trigger] recs[i].name) == k,
        forall|i: int|
            0 <= i < recs.len() ==> names_with(Map::empty(), recs, 0)[lowercase(
                #[trigger] recs[i].name,
            )] == SeekableRef::Cached(i as usize),
    decreases recs.len(),
{
    let all = names_with(Map::empty(), recs, 0);
    if recs.len() > 0 {
        let front = recs.drop_last();
        let n = recs.len() - 1;
        assert forall|i: int, j: int| 0 <= i < j < front.len() implies lowercase(front[i].name)
            != lowercase(front[j].name) by {
            assert(front[i] == recs[i] && front[j] == recs[j]);
        }
        lemma_names_with(front);
        let before = names_with(Map::empty(), front, 0);
        assert forall|k: Seq<char>| #[trigger] all.contains_key(k) <==> exists|i: int|
            0 <= i < recs.len() && lowercase(#[trigger] recs[i].name) == k by {
            if all.contains_key(k) {
                if k == lowercase(recs[n].name) {
                } else {
                    assert(before.contains_key(k));
                    let i = choose|i: int|
                        0 <= i < front.len() && lowercase(#[trigger] front[i].name) == k;
                    assert(lowercase(recs[i].name) == k);
                }
            }
            if exists|i: int| 0 <= i < recs.len() && lowercase(#[trigger] recs[i].name) == k {
                let i = choose|i: int|
                    0 <= i < recs.len() && lowercase(#[trigger] recs[i].name) == k;
                if i < n {
                    assert(lowercase(front[i].name) == k);
                    assert(before.contains_key(k));
                }
            }
        }
        assert forall|i: int| 0 <= i < recs.len() implies all[lowercase(
            #[trigger] recs[i].name,
        )] == SeekableRef::Cached(i as usize) by {
            if i < n {
                assert(front[i] == recs[i]);
                assert(lowercase(recs[i].name) != lowercase(recs[n].name));
            }
        }
    }
}

proof fn lemma_ids_with(recs: Seq<Record>)
    requires
        ids_differ(recs),
    ensures
        forall|k: i64| #[trigger]
            ids_with(Map::empty(), recs, 0).contains_key(k) <==> exists|i: int|
                0 <= i < recs.len() && (#[trigger] recs[i]).id == k,
        forall|i: int|
            0 <= i < recs.len() ==> ids_with(Map::empty(), recs, 0)[(#[trigger] recs[i]).id]
                == SeekableRef::Cached(i as usize),
    decreases recs.len(),
{
    let all = ids_with(Map::empty(), recs, 0);
    if recs.len() > 0 {
        let front = recs.drop_last();
        let n = recs.len() - 1;
        assert forall|i: int, j: int| 0 <= i < j < front.len() implies front[i].id
            != front[j].id by {
            assert(front[i] == recs[i] && front[j] == recs[j]);
        }
        lemma_ids_with(front);
        let before = ids_with(Map::empty(), front, 0);
        assert forall|k: i64| #[trigger] all.contains_key(k) <==> exists|i: int|
            0 <= i < recs.len() && (#[trigger] recs[i]).id == k by {
            if all.contains_key(k) {
                if k == recs[n].id {
                } else {
                    assert(before.contains_key(k));
                    let i = choose|i: int| 0 <= i < front.len() && (#[trigger] front[i]).id == k;
                    assert(recs[i].id == k);
                }
            }
            if exists|i: int| 0 <= i < recs.len() && (#[trigger] recs[i]).id == k {
                let i = choose|i: int| 0 <= i < recs.len() && (#[trigger] recs[i]).id == k;
                if i < n {
                    assert(front[i].id == k);
                    assert(before.contains_key(k));
                }
            }
        }
        assert forall|i: int| 0 <= i < recs.len() implies all[(#[trigger] recs[i]).id]
            == SeekableRef::Cached(i as usize) by {
            if i < n {
                assert(front[i] == recs[i]);
                assert(recs[i].id != recs[n].id);
            }
        }
    }
}

/// Loading makes the indexes of what was loaded. Where a fresh store has
/// loaded the records `recs` into its indexes of names and of ids, and no
/// two of them have one name or one id, each name and each id leads to
/// its record.
pub proof fn lemma_loaded_indexes(before: &Data, after: &Data, recs: Seq<Record>, cfg: CacheConfig)
    requires
        fresh(before),
        cfg.names,
        cfg.ids,
        loaded(before, after, recs, cfg),
        names_differ(recs),
        ids_differ(recs),
    ensures
        names_indexed(after, recs),
        ids_indexed(after, recs),
{
    lemma_names_with(recs);
    lemma_ids_with(recs);
    vstd::std_specs::vec::axiom_spec_len(&after.cached);
    assert(views_of(after.cached@).skip(0) =~= views_of(after.cached@));
    assert forall|i: int| 0 <= i < recs.len() implies after.cached@[i]@ == recs[i] by {
        assert(views_of(after.cached@)[i] == recs[i]);
    }
    assert forall|n: Seq<char>| #[trigger]
        after.names@.contains_key(lowercase(n)) implies exists|i: int|
        first_match(Selector::Name(n), recs, i) && after.name_entry(lowercase(n)) == Ok::<
            Option<Record>,
            FramingError,
        >(Some(recs[i])) by {
        let i = choose|i: int|
            0 <= i < recs.len() && lowercase(#[trigger] recs[i].name) == lowercase(n);
        assert(after.names@[lowercase(recs[i].name)] == SeekableRef::Cached(i as usize));
        assert(first_match(Selector::Name(n), recs, i));
    }
    assert forall|id: i64| #[trigger] after.ids@.contains_key(id) implies exists|i: int|
        first_match(Selector::PikabuId(id), recs, i) && after.id_entry(id) == Ok::<
            Option<Record>,
            FramingError,
        >(Some(recs[i])) by {
        let i = choose|i: int| 0 <= i < recs.len() && (#[trigger] recs[i]).id == id;
        assert(after.ids@[recs[i].id] == SeekableRef::Cached(i as usize));
        assert(first_match(Selector::PikabuId(id), recs, i));
    }
}

/// For a store that has loaded its container, names and ids find the
/// same with the indexes as without them: where the container can be read
/// to its end, no two of its records have one name or one id, and a fresh
/// store has loaded the records that stand from the cursor of `data` on
/// to become `data`, a search for names and ids gives the same either
/// way.
pub proof fn lemma_loaded_store_agrees(
    before: &Data,
    data: &Data,
    cfg: CacheConfig,
    query: Seq<Seq<Selector>>,
    limit: usize,
)
    requires
        fresh(before),
        cfg.names,
        cfg.ids,
        loaded(before, data, stream(data.source(), data.position(), data.seekable()), cfg),
        stream_fault(data.source(), data.position()) is None,
        names_differ(stream(data.source(), data.position(), data.seekable())),
        ids_differ(stream(data.source(), data.position(), data.seekable())),
        forall|g: int, j: int|
            0 <= g < query.len() && 0 <= j < query[g].len() ==> exact(#[trigger] query[g][j]),
    ensures
        expected(data, query, true, limit) == expected(data, query, false, limit),
{
    lemma_loaded_indexes(
        before,
        data,
        stream(data.source(), data.position(), data.seekable()),
        cfg,
    );
    lemma_strategies_agree(data, query, limit);
}

proof fn lemma_offsets_with(recs: Seq<Record>)
    requires
        forall|i: int| 0 <= i < recs.len() ==> (#[trigger] recs[i]).seek is Some,
        forall|i: int, j: int| 0 <= i < j < recs.len() ==> recs[i].seek != recs[j].seek,
    ensures
        forall|o: usize| #[trigger]
            offsets_with(Map::empty(), recs, 0).contains_key(o) <==> exists|i: int|
                0 <= i < recs.len() && (#[trigger] recs[i]).seek == Some(o),
        forall|i: int|
            0 <= i < recs.len() ==> offsets_with(Map::empty(), recs, 0)[(
            #[trigger] recs[i]).seek->0] == i as usize,
    decreases recs.len(),
{
    let all = offsets_with(Map::empty(), recs, 0);
    if recs.len() > 0 {
        let front = recs.drop_last();
        let n = recs.len() - 1;
        assert forall|i: int| 0 <= i < front.len() implies (#[trigger] front[i]).seek is Some by {
            assert(front[i] == recs[i]);
        }
        assert forall|i: int, j: int| 0 <= i < j < front.len() implies front[i].seek
            != front[j].seek by {
            assert(front[i] == recs[i] && front[j] == recs[j]);
        }
        lemma_offsets_with(front);
        let before = offsets_with(Map::empty(), front, 0);
        assert(recs[n].seek is Some);
        assert forall|o: usize| #[trigger] all.contains_key(o) <==> exists|i: int|
            0 <= i < recs.len() && (#[trigger] recs[i]).seek == Some(o) by {
            if all.contains_key(o) {
                if Some(o) == recs[n].seek {
                } else {
                    assert(before.contains_key(o));
                    let i = choose|i: int|
                        0 <= i < front.len() && (#[trigger] front[i]).seek == Some(o);
                    assert(recs[i].seek == Some(o));
                }
            }
            if exists|i: int| 0 <= i < recs.len() && (#[trigger] recs[i]).seek == Some(o) {
                let i = choose|i: int| 0 <= i < recs.len() && (#[trigger] recs[i]).seek == Some(o);
                if i < n {
                    assert(front[i].seek == Some(o));
                    assert(before.contains_key(o));
                }
            }
        }
        assert forall|i: int| 0 <= i < recs.len() implies all[(#[trigger] recs[i]).seek->0]
            == i as usize by {
            if i < n {
                assert(front[i] == recs[i]);
                assert(recs[i].seek != recs[n].seek);
            }
        }
    }
}

/// Loading makes the index of offsets agree with the container: where a
/// seekable store with nothing in its cache and in its index of offsets
/// has loaded its whole container, each place that the index knows leads
/// to the record whose chunk begins there.
pub proof fn lemma_loaded_offsets(before: &Data, after: &Data, cfg: CacheConfig)
    requires
        before.seekable(),
        before.cached@.len() == 0,
        before.offsets@ == Map::<usize, usize>::empty(),
        after.same_container(before),
        loaded(before, after, stream(before.source(), 0, true), cfg),
    ensures
        offsets_agree(after),
{
    let bytes = before.source();
    let recs = stream(bytes, 0, true);
    vstd::std_specs::vec::axiom_spec_len(&before.reader);
    vstd::std_specs::vec::axiom_spec_len(&after.cached);
    assert forall|i: int| 0 <= i < recs.len() implies (#[trigger] recs[i]).seek is Some by {
        lemma_scanned_record(bytes, 0, i);
    }
    assert forall|i: int, j: int| 0 <= i < j < recs.len() implies recs[i].seek
        != recs[j].seek by {
        lemma_offsets_rise(bytes, i, j);
    }
    lemma_offsets_with(recs);
    assert(views_of(after.cached@).skip(0) =~= views_of(after.cached@));
    assert forall|o: usize| #[trigger] after.offsets@.contains_key(o) implies after.offset_entry(
        o,
    ) == chunk_at(after.source(), o as int, Some(o)) by {
        if cfg.offsets {
            let i = choose|i: int| 0 <= i < recs.len() && (#[trigger] recs[i]).seek == Some(o);
            lemma_scanned_record(bytes, 0, i);
            assert(after.offsets@[recs[i].seek->0] == i as usize);
            assert(views_of(after.cached@)[i] == recs[i]);
        }
    }
}

} // verus!
