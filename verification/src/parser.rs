//! Filling a store from rows of a log: one row is one event of one user.

use crate::data::{cached_as, CacheConfig, Data, Record, SeekableRef, UserInfo};
use crate::{ascending, sort_ascending};
use vstd::prelude::*;

verus! {

/// The indexes that rows fill: names and ids.
pub open spec fn row_config() -> CacheConfig {
    CacheConfig { names: true, ids: true, offsets: false, prefer_seek: false }
}

/// The slot of the cache in which the record of `id` stands, as the index
/// of ids of `data` knows it.
pub open spec fn slot_for(data: &Data, id: i64) -> Option<usize> {
    if data.ids@.contains_key(id) {
        match data.ids@[id] {
            SeekableRef::Cached(idx) => if idx < data.cached@.len() {
                Some(idx)
            } else {
                None
            },
            SeekableRef::Seek(_) => None,
        }
    } else {
        None
    }
}

/// `r` with one more event at its end.
pub open spec fn with_event(r: Record, at: i64) -> Record {
    Record { name: r.name, id: r.id, seek: r.seek, events: r.events.push(at) }
}

/// Enters one row: the event of the user `author_id` at `created_at`.
/// A user whose record is in the cache gets the event behind the others;
/// another gets a record of this one event, under the given name, that
/// enters the index of names and the index of ids.
pub fn merge_row(data: &mut Data, author_id: i64, author_username: String, created_at: i64)
    ensures
        final(data).same_container(old(data)),
        final(data).position() == old(data).position(),
        match slot_for(old(data), author_id) {
            Some(idx) => {
                &&& final(data).cached@.len() == old(data).cached@.len()
                &&& final(data).cached@[idx as int]@ == with_event(
                    old(data).cached@[idx as int]@,
                    created_at,
                )
                &&& forall|k: int|
                    0 <= k < old(data).cached@.len() && k != idx ==> final(data).cached@[k] == old(
                        data,
                    ).cached@[k]
                &&& final(data).names@ == old(data).names@
                &&& final(data).ids@ == old(data).ids@
                &&& final(data).offsets@ == old(data).offsets@
            },
            None => cached_as(
                old(data),
                final(data),
                Record {
                    name: author_username@,
                    id: author_id,
                    seek: None,
                    events: seq![created_at],
                },
                row_config(),
            ),
        },
{
    broadcast use vstd::std_specs::hash::group_hash_axioms;

    let slot = match data.ids.get(&author_id) {
        Some(SeekableRef::Cached(idx)) => if *idx < data.cached.len() {
            Some(*idx)
        } else {
            None
        },
        _ => None,
    };
    match slot {
        Some(idx) => {
            data.cached[idx].comments.push(created_at);
        },
        None => {
            let mut comments: Vec<i64> = Vec::new();
            comments.push(created_at);
            let ghost before = data.cached@;
            data.put_cache(
                UserInfo { name: author_username, pikabu_id: author_id, comments, seek: None },
                CacheConfig { names: true, ids: true, offsets: false, prefer_seek: false },
            );
            assert(data.cached@.take(before.len() as int) =~= before);
            assert(comments@ =~= seq![created_at]);
        },
    }
}

/// Puts the events of every record of the cache in ascending order.
pub fn sort_comments(data: &mut Data)
    ensures
        final(data).same_container(old(data)),
        final(data).position() == old(data).position(),
        final(data).names@ == old(data).names@,
        final(data).ids@ == old(data).ids@,
        final(data).offsets@ == old(data).offsets@,
        final(data).cached@.len() == old(data).cached@.len(),
        forall|k: int|
            0 <= k < old(data).cached@.len() ==> {
                let was = old(data).cached@[k]@;
                let is = (#[trigger] final(data).cached@[k])@;
                &&& is.name == was.name
                &&& is.id == was.id
                &&& is.seek == was.seek
                &&& ascending(is.events)
                &&& is.events.to_multiset() == was.events.to_multiset()
            },
{
    let mut i: usize = 0;
    while i < data.cached.len()
        invariant
            i <= data.cached@.len(),
            data.same_container(old(data)),
            data.position() == old(data).position(),
            data.names@ == old(data).names@,
            data.ids@ == old(data).ids@,
            data.offsets@ == old(data).offsets@,
            data.cached@.len() == old(data).cached@.len(),
            forall|k: int| i <= k < data.cached@.len() ==> data.cached@[k] == old(data).cached@[k],
            forall|k: int|
                0 <= k < i ==> {
                    let was = old(data).cached@[k]@;
                    let is = (#[trigger] data.cached@[k])@;
                    &&& is.name == was.name
                    &&& is.id == was.id
                    &&& is.seek == was.seek
                    &&& ascending(is.events)
                    &&& is.events.to_multiset() == was.events.to_multiset()
                },
        decreases data.cached@.len() - i,
    {
        sort_ascending(&mut data.cached[i].comments);
        i += 1;
    }
}

} // verus!
