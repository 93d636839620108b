//! Records, and the store that reads them from a container, caches and
//! indexes them.

use crate::codec::read_chunk;
use crate::scan::{lemma_decoded_chunk, stream, stream_fault, stream_stop};
use crate::text::{lowercase, to_lowercase};
use crate::wire::{decode_at, FramingError, Parsed, Payload};
use std::borrow::Cow;
use std::collections::HashMap;
use vstd::hash_map::StringHashMap;
use vstd::prelude::*;

verus! {

/// One user's identity and the times of the user's events, in seconds.
#[derive(Debug, PartialEq, Eq)]
pub struct UserInfo {
    pub name: String,
    pub pikabu_id: i64,
    /// Where the record's chunk begins in its container, when that is known.
    pub seek: Option<usize>,
    pub comments: Vec<i64>,
}

/// A record as a mathematical value.
pub struct Record {
    pub name: Seq<char>,
    pub id: i64,
    pub seek: Option<usize>,
    pub events: Seq<i64>,
}

impl Record {
    /// The part of the record that a chunk stores.
    pub open spec fn payload(self) -> Payload {
        Payload { id: self.id, name: self.name, events: self.events }
    }
}

/// The record that a chunk's payload and the chunk's place make.
pub open spec fn record_of(p: Payload, seek: Option<usize>) -> Record {
    Record { name: p.name, id: p.id, seek, events: p.events }
}

impl View for UserInfo {
    type V = Record;

    open spec fn view(&self) -> Record {
        Record { name: self.name@, id: self.pikabu_id, seek: self.seek, events: self.comments@ }
    }
}

impl Clone for UserInfo {
    fn clone(&self) -> (r: Self)
        ensures
            r@ == self@,
    {
        UserInfo {
            name: self.name.clone(),
            pikabu_id: self.pikabu_id,
            seek: self.seek,
            comments: self.comments.clone(),
        }
    }
}

/// Which indexes a record enters when it is cached.
#[derive(Clone, Copy, Debug, PartialEq, Eq)]
pub struct CacheConfig {
    pub names: bool,
    pub ids: bool,
    /// Only a record that knows its place in the container enters this one.
    pub offsets: bool,
    /// Reserved: nothing reads it.
    pub prefer_seek: bool,
}

/// Whether a reader caches what it decodes.
#[derive(Clone, Copy, Debug, PartialEq, Eq)]
pub enum ReadConfig {
    /// Decoded records are handed out and not kept.
    NoCache,
    /// Decoded records enter the cache and the indexes named.
    Cache(CacheConfig),
}

/// Where a record is to be found.
#[derive(Clone, Copy, Debug, PartialEq, Eq, Hash, Structural)]
pub enum SeekableRef {
    /// At a place in the container, not decoded yet.
    Seek(usize),
    /// In a slot of the cache.
    Cached(usize),
}

/// A slot of the cache.
#[derive(Clone, Copy, Debug, PartialEq, Eq, Hash, Structural)]
pub struct CacheRef(pub usize);

impl CacheRef {
    /// The slot as a reference of the general kind.
    pub fn reference(self) -> (r: SeekableRef)
        ensures
            r == SeekableRef::Cached(self.0),
    {
        SeekableRef::Cached(self.0)
    }
}

/// What a lookup or a reader holds: a slot of the cache, a record of its
/// own, or nothing.
#[derive(Debug, PartialEq, Eq)]
pub enum ReaderValue {
    Cached(usize),
    Owned(UserInfo),
    Nothing,
}

impl ReaderValue {
    /// The record that the value stands for, given the cache.
    pub open spec fn resolve(self, cached: Seq<UserInfo>) -> Option<Record> {
        match self {
            ReaderValue::Cached(idx) => if idx < cached.len() {
                Some(cached[idx as int]@)
            } else {
                None
            },
            ReaderValue::Owned(ow) => Some(ow@),
            ReaderValue::Nothing => None,
        }
    }
}

/// A container of records with a cache of decoded records and indexes
/// into it. The container is read front to back from a cursor; a seekable
/// store can also decode the chunk at a given place, and tags each record
/// it decodes with the place of its chunk.
pub struct Data {
    /// The bytes of the container.
    pub reader: Vec<u8>,
    /// The place from which the next record is read.
    pub pos: usize,
    /// Whether chunks can be decoded at a given place.
    pub seekable: bool,
    /// The decoded records that were kept. It only grows.
    pub cached: Vec<UserInfo>,
    /// From the lowercase form of a name to the record of that name.
    pub names: StringHashMap<SeekableRef>,
    /// From an id to the record of that id.
    pub ids: HashMap<i64, SeekableRef>,
    /// From the place of a chunk to the slot that holds its record.
    pub offsets: HashMap<usize, usize>,
}

/// The tag that a store puts on a record decoded at `pos`.
pub open spec fn tag_at(seekable: bool, pos: int) -> Option<usize> {
    if seekable {
        Some(pos as usize)
    } else {
        None
    }
}

/// What stands at `offset` in `bytes`: a record tagged with `tag`, nothing
/// for the end marker, or the reason why no chunk can be read there.
pub open spec fn chunk_at(bytes: Seq<u8>, offset: int, tag: Option<usize>) -> Result<
    Option<Record>,
    FramingError,
> {
    match decode_at(bytes, offset) {
        Parsed::Broken(e) => Err(e),
        Parsed::End { .. } => Ok(None),
        Parsed::Item { payload, .. } => Ok(Some(record_of(payload, tag))),
    }
}

/// The place after the record's chunk at `offset`; `offset` itself where
/// no record stands.
pub open spec fn after_chunk(bytes: Seq<u8>, offset: int) -> int {
    match decode_at(bytes, offset) {
        Parsed::Item { next, .. } => next,
        _ => offset,
    }
}

impl Data {
    /// The bytes of the container.
    pub open spec fn source(&self) -> Seq<u8> {
        self.reader@
    }

    /// The place from which the next record is read.
    pub open spec fn position(&self) -> int {
        self.pos as int
    }

    /// Whether chunks can be decoded at a given place.
    pub open spec fn seekable(&self) -> bool {
        self.seekable
    }

    /// True when `other` has the same container, of the same kind.
    pub open spec fn same_container(&self, other: &Data) -> bool {
        self.source() == other.source() && self.seekable() == other.seekable()
    }

    /// True when `other` has the same cache and the same indexes.
    pub open spec fn same_cache(&self, other: &Data) -> bool {
        &&& self.cached@ == other.cached@
        &&& self.names@ == other.names@
        &&& self.ids@ == other.ids@
        &&& self.offsets@ == other.offsets@
    }

    /// The record that `r` leads to.
    pub open spec fn located(&self, r: SeekableRef) -> Result<Option<Record>, FramingError> {
        match r {
            SeekableRef::Cached(idx) => Ok(ReaderValue::Cached(idx).resolve(self.cached@)),
            SeekableRef::Seek(s) => if self.seekable() {
                chunk_at(self.source(), s as int, Some(s))
            } else {
                Ok(None)
            },
        }
    }

    /// A store over the container `reader`, with the cursor at its start,
    /// an empty cache and empty indexes.
    pub fn new(reader: Vec<u8>, seekable: bool) -> (r: Self)
        ensures
            r.source() == reader@,
            r.position() == 0,
            r.seekable() == seekable,
            r.cached@ == Seq::<UserInfo>::empty(),
            r.names@ == Map::<Seq<char>, SeekableRef>::empty(),
            r.ids@ == Map::<i64, SeekableRef>::empty(),
            r.offsets@ == Map::<usize, usize>::empty(),
    {
        Data {
            reader,
            pos: 0,
            seekable,
            cached: Vec::new(),
            names: StringHashMap::new(),
            ids: HashMap::new(),
            offsets: HashMap::new(),
        }
    }

    /// Whether chunks can be decoded at a given place.
    pub fn is_seekable(&self) -> (r: bool)
        ensures
            r == self.seekable(),
    {
        self.seekable
    }

    /// Replaces the index of names and the index of ids.
    pub fn fill_cache(&mut self, names: StringHashMap<SeekableRef>, ids: HashMap<i64, SeekableRef>)
        ensures
            final(self).names@ == names@,
            final(self).ids@ == ids@,
            final(self).cached@ == old(self).cached@,
            final(self).offsets@ == old(self).offsets@,
            final(self).same_container(old(self)),
            final(self).position() == old(self).position(),
    {
        self.names = names;
        self.ids = ids;
    }

    /// The record in slot `idx` of the cache.
    pub fn get_cached(&self, idx: usize) -> (r: Option<&UserInfo>)
        ensures
            r == if idx < self.cached@.len() {
                Some(&self.cached@[idx as int])
            } else {
                None
            },
    {
        if idx < self.cached.len() {
            Some(&self.cached[idx])
        } else {
            None
        }
    }

    /// Appends `info` to the cache and enters it into the indexes that
    /// `cfg` names. Gives the record's slot.
    pub fn put_cache(&mut self, info: UserInfo, cfg: CacheConfig) -> (idx: usize)
        ensures
            idx == old(self).cached@.len(),
            final(self).cached@ == old(self).cached@.push(info),
            final(self).offsets@ == if cfg.offsets && info.seek is Some {
                old(self).offsets@.insert(info.seek->0, idx)
            } else {
                old(self).offsets@
            },
            final(self).ids@ == if cfg.ids {
                old(self).ids@.insert(info.pikabu_id, SeekableRef::Cached(idx))
            } else {
                old(self).ids@
            },
            final(self).names@ == if cfg.names {
                old(self).names@.insert(lowercase(info.name@), SeekableRef::Cached(idx))
            } else {
                old(self).names@
            },
            final(self).same_container(old(self)),
            final(self).position() == old(self).position(),
    {
        broadcast use vstd::std_specs::hash::group_hash_axioms;

        let idx = self.cached.len();
        if cfg.offsets {
            if let Some(x) = info.seek {
                self.offsets.insert(x, idx);
            }
        }
        if cfg.ids {
            self.ids.insert(info.pikabu_id, SeekableRef::Cached(idx));
        }
        if cfg.names {
            self.names.insert(to_lowercase(info.name.as_str()), SeekableRef::Cached(idx));
        }
        self.cached.push(info);
        idx
    }
}

/// True when a lookup's result `got` stands for `want`: the same error,
/// or a value that leads to the same record in the cache `cached`.
pub open spec fn answers(
    got: Result<ReaderValue, FramingError>,
    want: Result<Option<Record>, FramingError>,
    cached: Seq<UserInfo>,
) -> bool {
    match want {
        Err(e) => got == Err::<ReaderValue, FramingError>(e),
        Ok(v) => got is Ok && got->Ok_0.resolve(cached) == v,
    }
}

/// True when `got` is what decoding gave, `want`, as a value of its own.
pub open spec fn decoded(
    got: Result<ReaderValue, FramingError>,
    want: Result<Option<Record>, FramingError>,
) -> bool {
    match want {
        Err(e) => got == Err::<ReaderValue, FramingError>(e),
        Ok(None) => got == Ok::<ReaderValue, FramingError>(ReaderValue::Nothing),
        Ok(Some(r)) => got is Ok && got->Ok_0 is Owned && got->Ok_0->Owned_0@ == r,
    }
}

impl Data {
    /// True when `got` is what following `r` gives: the slot itself for a
    /// slot of the cache, and what is decoded there for a place in the
    /// container, which leads to nothing in a store that is not seekable.
    pub open spec fn followed(&self, r: SeekableRef, got: Result<ReaderValue, FramingError>)
        -> bool {
        match r {
            SeekableRef::Cached(idx) => got == Ok::<ReaderValue, FramingError>(
                ReaderValue::Cached(idx),
            ),
            SeekableRef::Seek(s) => if self.seekable() {
                decoded(got, chunk_at(self.source(), s as int, Some(s)))
            } else {
                got == Ok::<ReaderValue, FramingError>(ReaderValue::Nothing)
            },
        }
    }

    /// What the index of names holds under `key`.
    pub open spec fn name_entry(&self, key: Seq<char>) -> Result<Option<Record>, FramingError> {
        if self.names@.contains_key(key) {
            self.located(self.names@[key])
        } else {
            Ok(None)
        }
    }

    /// What the index of ids holds under `id`.
    pub open spec fn id_entry(&self, id: i64) -> Result<Option<Record>, FramingError> {
        if self.ids@.contains_key(id) {
            self.located(self.ids@[id])
        } else {
            Ok(None)
        }
    }

    /// The record whose chunk begins at `offset`: the cached one where the
    /// index of offsets knows the place, else the one decoded there.
    pub open spec fn offset_entry(&self, offset: usize) -> Result<Option<Record>, FramingError> {
        if self.offsets@.contains_key(offset) {
            Ok(ReaderValue::Cached(self.offsets@[offset]).resolve(self.cached@))
        } else {
            chunk_at(self.source(), offset as int, Some(offset))
        }
    }

    /// Decodes the record at the cursor and moves the cursor behind it.
    /// At the end marker, and where no chunk can be read, the cursor stays.
    pub fn read_next(&mut self) -> (r: Result<Option<UserInfo>, FramingError>)
        ensures
            match chunk_at(
                old(self).source(),
                old(self).position(),
                tag_at(old(self).seekable(), old(self).position()),
            ) {
                Err(e) => r == Err::<Option<UserInfo>, FramingError>(e),
                Ok(None) => r is Ok && r->Ok_0 is None,
                Ok(Some(rec)) => r is Ok && r->Ok_0 is Some && r->Ok_0->0@ == rec,
            },
            final(self).position() == after_chunk(old(self).source(), old(self).position()),
            final(self).same_container(old(self)),
            final(self).same_cache(old(self)),
    {
        let seek = if self.seekable {
            Some(self.pos)
        } else {
            None
        };
        match read_chunk(self.reader.as_slice(), self.pos, seek) {
            Ok((Some(x), next)) => {
                self.pos = next;
                Ok(Some(x))
            },
            Ok((None, _)) => Ok(None),
            Err(e) => Err(e),
        }
    }

    /// Decodes the record whose chunk begins at `offset`, and tags it with
    /// that place. The cursor stays.
    pub fn read_at(&self, offset: usize) -> (r: Result<Option<UserInfo>, FramingError>)
        requires
            self.seekable(),
        ensures
            match chunk_at(self.source(), offset as int, Some(offset)) {
                Err(e) => r == Err::<Option<UserInfo>, FramingError>(e),
                Ok(None) => r is Ok && r->Ok_0 is None,
                Ok(Some(rec)) => r is Ok && r->Ok_0 is Some && r->Ok_0->0@ == rec,
            },
    {
        match read_chunk(self.reader.as_slice(), offset, Some(offset)) {
            Ok((x, _)) => Ok(x),
            Err(e) => Err(e),
        }
    }

    /// Puts the cursor at the start of the container.
    pub fn reset(&mut self)
        requires
            old(self).seekable(),
        ensures
            final(self).position() == 0,
            final(self).same_container(old(self)),
            final(self).same_cache(old(self)),
    {
        self.pos = 0;
    }

    /// `read_at` as a value of a lookup.
    pub fn read_at_val(&self, offset: usize) -> (r: Result<ReaderValue, FramingError>)
        requires
            self.seekable(),
        ensures
            decoded(r, chunk_at(self.source(), offset as int, Some(offset))),
            answers(r, chunk_at(self.source(), offset as int, Some(offset)), self.cached@),
    {
        match self.read_at(offset) {
            Ok(Some(x)) => Ok(ReaderValue::Owned(x)),
            Ok(None) => Ok(ReaderValue::Nothing),
            Err(e) => Err(e),
        }
    }

    /// The record whose chunk begins at `offset`. A place that the index of
    /// offsets knows is answered from the cache, without decoding.
    pub fn by_offset(&self, offset: usize) -> (r: Result<ReaderValue, FramingError>)
        requires
            self.seekable(),
        ensures
            answers(r, self.offset_entry(offset), self.cached@),
            if self.offsets@.contains_key(offset) {
                r == Ok::<ReaderValue, FramingError>(ReaderValue::Cached(self.offsets@[offset]))
            } else {
                decoded(r, chunk_at(self.source(), offset as int, Some(offset)))
            },
    {
        broadcast use vstd::std_specs::hash::group_hash_axioms;

        match self.offsets.get(&offset) {
            Some(x) => Ok(ReaderValue::Cached(*x)),
            None => self.read_at_val(offset),
        }
    }

    /// The record that `r` leads to. A place in the container leads to
    /// nothing in a store that is not seekable.
    pub fn get(&self, r: SeekableRef) -> (res: Result<ReaderValue, FramingError>)
        ensures
            self.followed(r, res),
            answers(res, self.located(r), self.cached@),
    {
        match r {
            SeekableRef::Cached(idx) => Ok(ReaderValue::Cached(idx)),
            SeekableRef::Seek(s) => if self.seekable {
                self.read_at_val(s)
            } else {
                Ok(ReaderValue::Nothing)
            },
        }
    }

    /// The record that the index of names holds under `key`, which is
    /// taken as it is.
    pub fn by_key(&self, key: &str) -> (r: Result<ReaderValue, FramingError>)
        ensures
            if self.names@.contains_key(key@) {
                self.followed(self.names@[key@], r)
            } else {
                r == Ok::<ReaderValue, FramingError>(ReaderValue::Nothing)
            },
            answers(r, self.name_entry(key@), self.cached@),
    {
        match self.names.get(key) {
            Some(x) => self.get(*x),
            None => Ok(ReaderValue::Nothing),
        }
    }

    /// The record of the name `name`, whatever its case, from the index of
    /// names.
    pub fn by_name(&self, name: &str) -> (r: Result<ReaderValue, FramingError>)
        ensures
            if self.names@.contains_key(lowercase(name@)) {
                self.followed(self.names@[lowercase(name@)], r)
            } else {
                r == Ok::<ReaderValue, FramingError>(ReaderValue::Nothing)
            },
            answers(r, self.name_entry(lowercase(name@)), self.cached@),
    {
        let key = to_lowercase(name);
        self.by_key(key.as_str())
    }

    /// The record of the id `id`, from the index of ids.
    pub fn by_id(&self, id: i64) -> (r: Result<ReaderValue, FramingError>)
        ensures
            if self.ids@.contains_key(id) {
                self.followed(self.ids@[id], r)
            } else {
                r == Ok::<ReaderValue, FramingError>(ReaderValue::Nothing)
            },
            answers(r, self.id_entry(id), self.cached@),
    {
        broadcast use vstd::std_specs::hash::group_hash_axioms;

        match self.ids.get(&id) {
            Some(x) => self.get(*x),
            None => Ok(ReaderValue::Nothing),
        }
    }
}

impl ReaderValue {
    /// The record that the value stands for: borrowed from the cache, or
    /// the value's own.
    pub fn into_cow<'a>(self, data: &'a Data) -> (r: Option<Cow<'a, UserInfo>>)
        ensures
            match r {
                Some(c) => self.resolve(data.cached@) == Some(c@),
                None => self.resolve(data.cached@) is None,
            },
            match self {
                ReaderValue::Cached(idx) => idx < data.cached@.len() ==> r == Some(
                    Cow::Borrowed(&data.cached@[idx as int]),
                ),
                ReaderValue::Owned(ow) => r == Some(Cow::<UserInfo>::Owned(ow)),
                ReaderValue::Nothing => r is None,
            },
    {
        match self {
            ReaderValue::Cached(idx) => {
                if let Some(x) = data.get_cached(idx) {
                    Some(Cow::Borrowed(x))
                } else {
                    None
                }
            },
            ReaderValue::Owned(ow) => Some(Cow::Owned(ow)),
            ReaderValue::Nothing => None,
        }
    }

    /// The record that the value stands for, by reference.
    pub fn to_ref<'a>(&'a self, data: &'a Data) -> (r: Option<&'a UserInfo>)
        ensures
            match r {
                Some(u) => self.resolve(data.cached@) == Some(u@),
                None => self.resolve(data.cached@) is None,
            },
            match *self {
                ReaderValue::Cached(idx) => idx < data.cached@.len() ==> r == Some(
                    &data.cached@[idx as int],
                ),
                ReaderValue::Owned(ow) => r == Some(&ow),
                ReaderValue::Nothing => r is None,
            },
    {
        match self {
            ReaderValue::Cached(idx) => {
                if let Some(x) = data.get_cached(*idx) {
                    Some(x)
                } else {
                    None
                }
            },
            ReaderValue::Owned(ow) => Some(ow),
            ReaderValue::Nothing => None,
        }
    }
}

/// True when `after` is `before` with a record of value `rec` appended to
/// the cache and entered into the indexes that `cfg` names.
pub open spec fn cached_as(before: &Data, after: &Data, rec: Record, cfg: CacheConfig) -> bool {
    let idx = before.cached@.len() as usize;
    &&& after.cached@.len() == before.cached@.len() + 1
    &&& after.cached@.take(before.cached@.len() as int) == before.cached@
    &&& after.cached@.last()@ == rec
    &&& after.offsets@ == if cfg.offsets && rec.seek is Some {
        before.offsets@.insert(rec.seek->0, idx)
    } else {
        before.offsets@
    }
    &&& after.ids@ == if cfg.ids {
        before.ids@.insert(rec.id, SeekableRef::Cached(idx))
    } else {
        before.ids@
    }
    &&& after.names@ == if cfg.names {
        before.names@.insert(lowercase(rec.name), SeekableRef::Cached(idx))
    } else {
        before.names@
    }
}

/// A cursor that walks a store's container once, front to back. It holds
/// the record it stands on; the store is handed to each call.
pub struct Reader {
    config: ReadConfig,
    val: ReaderValue,
}

impl Reader {
    /// Whether the reader caches what it decodes.
    pub closed spec fn config(&self) -> ReadConfig {
        self.config
    }

    /// What the reader stands on.
    pub closed spec fn value(&self) -> ReaderValue {
        self.val
    }

    /// Moves to the next record of `data`. A caching reader puts the
    /// record into the cache of `data` and stands on its slot; another
    /// holds the record itself. At the end marker the reader stands on
    /// nothing, and stays there however often it is moved. Where no chunk
    /// can be read, neither the reader nor the store changes.
    pub fn advance(&mut self, data: &mut Data) -> (r: Result<(), FramingError>)
        ensures
            final(self).config() == old(self).config(),
            final(data).same_container(old(data)),
            final(data).position() == after_chunk(old(data).source(), old(data).position()),
            match chunk_at(
                old(data).source(),
                old(data).position(),
                tag_at(old(data).seekable(), old(data).position()),
            ) {
                Err(e) => r == Err::<(), FramingError>(e) && final(self).value() == old(self).value() && final(data).same_cache(old(data)),
                Ok(None) => r is Ok && final(self).value() is Nothing && final(data).same_cache(
                    old(data),
                ),
                Ok(Some(rec)) => r is Ok && match old(self).config() {
                    ReadConfig::NoCache => final(self).value() is Owned && final(self).value()->Owned_0@ == rec && final(data).same_cache(old(data)),
                    ReadConfig::Cache(cfg) => final(self).value() == ReaderValue::Cached(
                        old(data).cached@.len() as usize,
                    ) && cached_as(old(data), final(data), rec, cfg),
                },
            },
    {
        let chunk = match data.read_next() {
            Ok(c) => c,
            Err(e) => {
                return Err(e);
            },
        };
        self.val = if let Some(x) = chunk {
            if let ReadConfig::Cache(cfg) = self.config {
                let ghost before = data.cached@;
                let idx = data.put_cache(x, cfg);
                assert(data.cached@.take(before.len() as int) =~= before);
                ReaderValue::Cached(idx)
            } else {
                ReaderValue::Owned(x)
            }
        } else {
            ReaderValue::Nothing
        };
        Ok(())
    }

    /// The record that the reader stands on.
    pub fn get<'a>(&'a self, data: &'a Data) -> (r: Option<&'a UserInfo>)
        ensures
            match r {
                Some(u) => self.value().resolve(data.cached@) == Some(u@),
                None => self.value().resolve(data.cached@) is None,
            },
    {
        self.val.to_ref(data)
    }
}

impl Data {
    /// A reader for this store, which stands on nothing yet.
    pub fn get_reader(&self, config: ReadConfig) -> (r: Reader)
        ensures
            r.config() == config,
            r.value() is Nothing,
    {
        Reader { config, val: ReaderValue::Nothing }
    }
}

/// The views of a list of records.
pub open spec fn views_of(records: Seq<UserInfo>) -> Seq<Record> {
    records.map_values(|u: UserInfo| u@)
}

/// The index of names `names` after the records of `recs` have entered
/// it, one after the other, as the records of the slots from `base` on.
pub open spec fn names_with(names: Map<Seq<char>, SeekableRef>, recs: Seq<Record>, base: nat) -> Map<
    Seq<char>,
    SeekableRef,
>
    decreases recs.len(),
{
    if recs.len() == 0 {
        names
    } else {
        names_with(names, recs.drop_last(), base).insert(
            lowercase(recs.last().name),
            SeekableRef::Cached((base + recs.len() - 1) as usize),
        )
    }
}

/// The index of ids `ids` after the records of `recs` have entered it,
/// one after the other, as the records of the slots from `base` on.
pub open spec fn ids_with(ids: Map<i64, SeekableRef>, recs: Seq<Record>, base: nat) -> Map<
    i64,
    SeekableRef,
>
    decreases recs.len(),
{
    if recs.len() == 0 {
        ids
    } else {
        ids_with(ids, recs.drop_last(), base).insert(
            recs.last().id,
            SeekableRef::Cached((base + recs.len() - 1) as usize),
        )
    }
}

/// The index of offsets `offsets` after the records of `recs` that know
/// their place have entered it, one after the other, as the records of
/// the slots from `base` on.
pub open spec fn offsets_with(offsets: Map<usize, usize>, recs: Seq<Record>, base: nat) -> Map<
    usize,
    usize,
>
    decreases recs.len(),
{
    if recs.len() == 0 {
        offsets
    } else {
        let before = offsets_with(offsets, recs.drop_last(), base);
        match recs.last().seek {
            Some(at) => before.insert(at, (base + recs.len() - 1) as usize),
            None => before,
        }
    }
}

/// True when `after` is `before` with the records `recs` appended to the
/// cache, in their order, and entered into the indexes that `cfg` names.
pub open spec fn loaded(before: &Data, after: &Data, recs: Seq<Record>, cfg: CacheConfig) -> bool {
    let base = before.cached@.len();
    &&& after.cached@.len() == base + recs.len()
    &&& after.cached@.take(base as int) == before.cached@
    &&& views_of(after.cached@).skip(base as int) == recs
    &&& after.names@ == if cfg.names {
        names_with(before.names@, recs, base)
    } else {
        before.names@
    }
    &&& after.ids@ == if cfg.ids {
        ids_with(before.ids@, recs, base)
    } else {
        before.ids@
    }
    &&& after.offsets@ == if cfg.offsets {
        offsets_with(before.offsets@, recs, base)
    } else {
        before.offsets@
    }
}

impl Data {
    /// Reads the container from the cursor to its end, and puts every
    /// record into the cache and into the indexes that `cfg` names. Where
    /// a chunk cannot be read, the records before it have entered.
    pub fn load(&mut self, cfg: CacheConfig) -> (r: Result<(), FramingError>)
        ensures
            final(self).same_container(old(self)),
            final(self).position() == stream_stop(old(self).source(), old(self).position()),
            loaded(
                old(self),
                final(self),
                stream(old(self).source(), old(self).position(), old(self).seekable()),
                cfg,
            ),
            match stream_fault(old(self).source(), old(self).position()) {
                Some(e) => r == Err::<(), FramingError>(e),
                None => r is Ok,
            },
    {
        let ghost src = self.source();
        let ghost from = self.position();
        let ghost kind = self.seekable();
        let ghost base = self.cached@.len();
        let ghost done: Seq<Record> = Seq::empty();
        let mut reader = self.get_reader(ReadConfig::Cache(cfg));
        let mut finished = false;
        proof {
            assert(done + stream(src, from, kind) =~= stream(src, from, kind));
            assert(self.cached@.take(base as int) =~= self.cached@);
            assert(views_of(self.cached@).skip(base as int) =~= done);
        }
        while !finished
            invariant
                self.same_container(old(self)),
                src == old(self).source(),
                from == old(self).position(),
                kind == old(self).seekable(),
                base == old(self).cached@.len(),
                reader.config() == ReadConfig::Cache(cfg),
                loaded(old(self), self, done, cfg),
                stream(src, from, kind) == done + stream(src, self.position(), kind),
                stream_fault(src, from) == stream_fault(src, self.position()),
                stream_stop(src, from) == stream_stop(src, self.position()),
                finished ==> decode_at(src, self.position()) is End,
            decreases
                    if finished {
                        0
                    } else {
                        1 + src.len() - self.position()
                    },
        {
            let ghost pos = self.position();
            let ghost was = *self;
            proof {
                lemma_decoded_chunk(src, pos);
            }
            match reader.advance(self) {
                Err(e) => {
                    proof {
                        assert(done + Seq::<Record>::empty() =~= done);
                    }
                    return Err(e);
                },
                Ok(()) => {},
            }
            match reader.get(self) {
                None => {
                    proof {
                        assert(done + Seq::<Record>::empty() =~= done);
                    }
                    finished = true;
                },
                Some(x) => {
                    proof {
                        let rec = x@;
                        let longer = done.push(rec);
                        assert(longer.drop_last() =~= done);
                        assert(done + (seq![rec] + stream(src, self.position(), kind)) =~= longer
                            + stream(src, self.position(), kind));
                        assert(self.cached@.take(base as int) =~= was.cached@.take(base as int));
                        assert(views_of(self.cached@).skip(base as int) =~= longer) by {
                            assert forall|k: int| 0 <= k < was.cached@.len() implies views_of(
                                self.cached@,
                            )[k] == views_of(was.cached@)[k] by {
                                assert(self.cached@.take(was.cached@.len() as int)[k]
                                    == was.cached@[k]);
                            }
                            let now = views_of(self.cached@).skip(base as int);
                            assert(now.len() == longer.len());
                            assert forall|k: int| 0 <= k < longer.len() implies now[k]
                                == longer[k] by {
                                assert(was.cached@.len() == base + done.len());
                                assert(self.cached@.len() == was.cached@.len() + 1);
                                assert(now[k] == self.cached@[base + k]@);
                                if k < done.len() {
                                    assert(views_of(was.cached@).skip(base as int)[k] == done[k]);
                                    assert(views_of(was.cached@).skip(base as int)[k]
                                        == was.cached@[base + k]@);
                                    assert(self.cached@.take(was.cached@.len() as int)[base + k]
                                        == self.cached@[base + k]);
                                } else {
                                    vstd::std_specs::vec::axiom_spec_len(&was.cached);
                                    assert(self.cached@.last() == self.cached@[base + k]);
                                    assert(self.cached@.last()@ == rec);
                                }
                            }
                        }
                        done = longer;
                    }
                },
            }
        }
        Ok(())
    }
}

} // verus!
