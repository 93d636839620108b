//! The search that answers selectors from a store.

use crate::answer::{
    assembled, cap, count, cursor_after, dedup, distinct, expected, expected_seek,
    first_unbuildable, flattened, gathered, has_id, has_pattern, hits, lemma_count_le,
    lemma_count_update, lemma_hits_grow, lemma_hits_push, lemma_slot_of, lemma_slot_of_push,
    probe_outcome, scan_end, scan_found, scan_outcome, settled, slot_of, sought,
    sought_all, stripped, without_seeks, Failure, PATTERN_NEST_LIMIT,
    PATTERN_SIZE_LIMIT,
};
use crate::data::{views_of, Data, ReadConfig, ReaderValue, Record, UserInfo};
use crate::pattern::{
    build_glob, build_regex, glob_built, glob_matches, glob_matches_with, regex_built,
    regex_is_match, regex_matches,
};
use crate::scan::{lemma_decoded_chunk, stream, stream_fault};
use crate::selector::{query_views, views, Selector, UserSelector};
use crate::text::{lowercase, to_lowercase};
use crate::wire::FramingError;
use std::collections::HashSet;
use vstd::prelude::*;

verus! {

/// Why a search gives no answer.
#[derive(Debug, PartialEq, Eq)]
pub enum SearchError {
    /// A chunk of the container cannot be read.
    Framing(FramingError),
    /// This selector's pattern does not compile.
    BadPattern(UserSelector),
    /// As many records were found as the search may find at most.
    LimitExceeded,
    /// A pattern reached the lookup in the indexes.
    Internal,
    /// A place in the container was asked of the indexes.
    SeekUnavailable,
}

impl View for SearchError {
    type V = Failure;

    open spec fn view(&self) -> Failure {
        match self {
            SearchError::Framing(e) => Failure::Framing(*e),
            SearchError::BadPattern(sel) => Failure::BadPattern(sel@),
            SearchError::LimitExceeded => Failure::LimitExceeded,
            SearchError::Internal => Failure::Internal,
            SearchError::SeekUnavailable => Failure::SeekUnavailable,
        }
    }
}

/// How a search is to go about.
#[derive(Clone, Copy, Debug, PartialEq, Eq)]
pub struct SearchSettings {
    /// Whether the indexes may answer.
    pub use_cache: bool,
    /// The number of finds at which the search fails.
    pub limit: usize,
}

/// A selector made ready for matching: a name as the key under which the
/// index of names holds it, a pattern compiled.
pub enum Compiled {
    Name(String),
    Glob(glob::Pattern),
    Regexp(regex::Regex),
    PikabuId(i64),
    Seek(u64),
}

impl Compiled {
    /// True when this is `sel` made ready.
    pub open spec fn stands_for(&self, sel: Selector) -> bool {
        match (*self, sel) {
            (Compiled::Name(key), Selector::Name(n)) => key@ == lowercase(n),
            (Compiled::Glob(p), Selector::Glob(t)) => glob_built(t) == Ok::<
                glob::Pattern,
                glob::PatternError,
            >(p),
            (Compiled::Regexp(re), Selector::Regexp(t)) => regex_built(
                t,
                true,
                PATTERN_SIZE_LIMIT,
                PATTERN_NEST_LIMIT,
                PATTERN_SIZE_LIMIT,
            ) == Ok::<regex::Regex, regex::Error>(re),
            (Compiled::PikabuId(a), Selector::PikabuId(b)) => a == b,
            (Compiled::Seek(a), Selector::Seek(b)) => a == b,
            _ => false,
        }
    }

    /// Whether the selector selects the record `r`.
    pub open spec fn accepts(&self, r: Record) -> bool {
        match *self {
            Compiled::Name(key) => key@ == lowercase(r.name),
            Compiled::Glob(p) => glob_matches(p, r.name, false, false, false),
            Compiled::Regexp(re) => regex_matches(re, r.name),
            Compiled::PikabuId(id) => r.id == id,
            Compiled::Seek(sk) => r.seek is Some && r.seek->0 as int == sk as int,
        }
    }

    /// True for the selectors that any number of records can match.
    pub open spec fn is_pattern(&self) -> bool {
        *self is Glob || *self is Regexp
    }

    /// What made ready selects is what the selector selects.
    pub proof fn lemma_accepts(&self, sel: Selector, r: Record)
        requires
            self.stands_for(sel),
        ensures
            self.accepts(r) == sel.matches(r),
            self.is_pattern() == sel.is_pattern(),
            sel.compiles(),
    {
    }

    /// The regular expression of a selector, from what building it gave.
    pub fn of_regex(built: Result<regex::Regex, regex::Error>) -> (r: Option<Compiled>)
        ensures
            match built {
                Ok(re) => r == Some(Compiled::Regexp(re)),
                Err(_) => r is None,
            },
    {
        match built {
            Ok(re) => Some(Compiled::Regexp(re)),
            Err(_) => None,
        }
    }

    /// The glob pattern of a selector, from what building it gave.
    pub fn of_glob(built: Result<glob::Pattern, glob::PatternError>) -> (r: Option<Compiled>)
        ensures
            match built {
                Ok(p) => r == Some(Compiled::Glob(p)),
                Err(_) => r is None,
            },
    {
        match built {
            Ok(p) => Some(Compiled::Glob(p)),
            Err(_) => None,
        }
    }

    /// Makes one selector ready, or gives nothing when its pattern does
    /// not compile. Regular expressions ignore case and are bounded in
    /// size and in depth.
    pub fn one(sel: &UserSelector) -> (r: Option<Compiled>)
        ensures
            match r {
                Some(c) => c.stands_for(sel@),
                None => !sel@.compiles(),
            },
    {
        match sel {
            UserSelector::PikabuId(x) => Some(Compiled::PikabuId(*x)),
            UserSelector::Regexp(r) => Compiled::of_regex(
                build_regex(
                    r.as_str(),
                    true,
                    PATTERN_SIZE_LIMIT,
                    PATTERN_NEST_LIMIT,
                    PATTERN_SIZE_LIMIT,
                ),
            ),
            UserSelector::Name(name) => Some(Compiled::Name(to_lowercase(name.as_str()))),
            UserSelector::Glob(gl) => Compiled::of_glob(build_glob(gl.as_str())),
            UserSelector::Seek(x) => Some(Compiled::Seek(*x)),
        }
    }

    /// Makes the selectors of `raw` ready, one by one. The first whose
    /// pattern does not compile is reported, and nothing else is.
    pub fn compile(raw: &[UserSelector]) -> (r: Result<Vec<Compiled>, SearchError>)
        ensures
            match first_unbuildable(views(raw@)) {
                Some(sel) => r is Err && r->Err_0@ == Failure::BadPattern(sel),
                None => r is Ok && r->Ok_0@.len() == raw@.len() && forall|i: int|
                    0 <= i < raw@.len() ==> (#[trigger] r->Ok_0@[i]).stands_for(raw@[i]@),
            },
    {
        let mut out: Vec<Compiled> = Vec::new();
        let mut i: usize = 0;
        while i < raw.len()
            invariant
                i <= raw@.len(),
                out@.len() == i,
                first_unbuildable(views(raw@).take(i as int)) is None,
                forall|k: int| 0 <= k < i ==> (#[trigger] out@[k]).stands_for(raw@[k]@),
            decreases raw@.len() - i,
        {
            proof {
                let upto = views(raw@).take(i + 1);
                assert(upto.drop_last() =~= views(raw@).take(i as int));
                assert(upto.last() == raw@[i as int]@);
            }
            match Compiled::one(&raw[i]) {
                Some(c) => {
                    out.push(c);
                },
                None => {
                    proof {
                        lemma_unbuildable_stays(views(raw@), i + 1);
                    }
                    return Err(SearchError::BadPattern(raw[i].clone()));
                },
            }
            i += 1;
        }
        assert(views(raw@).take(raw@.len() as int) =~= views(raw@));
        Ok(out)
    }

    /// Whether the selector selects `user`.
    pub fn test(&self, user: &UserInfo) -> (r: bool)
        ensures
            r == self.accepts(user@),
    {
        match self {
            Compiled::Name(key) => {
                let lowered = to_lowercase(user.name.as_str());
                *key == lowered
            },
            Compiled::Glob(gl) => glob_matches_with(gl, user.name.as_str(), false, false, false),
            Compiled::Regexp(re) => regex_is_match(re, user.name.as_str()),
            Compiled::PikabuId(id) => *id == user.pikabu_id,
            Compiled::Seek(s) => match user.seek {
                Some(at) => at as u64 == *s,
                None => false,
            },
        }
    }
}

proof fn lemma_unbuildable_stays(table: Seq<Selector>, k: int)
    requires
        0 <= k <= table.len(),
        first_unbuildable(table.take(k)) is Some,
    ensures
        first_unbuildable(table) == first_unbuildable(table.take(k)),
    decreases table.len() - k,
{
    if k < table.len() {
        assert(table.take(k + 1).drop_last() =~= table.take(k));
        lemma_unbuildable_stays(table, k + 1);
    } else {
        assert(table.take(k) =~= table);
    }
}

/// A query laid out for the search: its selectors without repetition, and
/// for each selector of each group its place among them.
pub struct Plan {
    pub table: Vec<UserSelector>,
    pub groups: Vec<Vec<usize>>,
}

impl Plan {
    /// True when `slots` holds, for each selector of `group`, its place in
    /// the table.
    pub open spec fn places(&self, slots: Seq<usize>, group: Seq<Selector>) -> bool {
        &&& slots.len() == group.len()
        &&& forall|j: int|
            0 <= j < group.len() ==> slot_of(views(self.table@), group[j]) == Some(
                #[trigger] slots[j] as int,
            )
    }

    /// True when this is the layout of `query`.
    pub open spec fn lays_out(&self, query: Seq<Seq<Selector>>) -> bool {
        &&& views(self.table@) == distinct(flattened(query))
        &&& self.groups@.len() == query.len()
        &&& forall|g: int|
            0 <= g < query.len() ==> self.places((#[trigger] self.groups@[g])@, query[g])
    }

    /// The place of `sel` in `table`.
    pub fn find_slot(table: &Vec<UserSelector>, sel: &UserSelector) -> (r: Option<usize>)
        ensures
            match r {
                Some(i) => slot_of(views(table@), sel@) == Some(i as int),
                None => slot_of(views(table@), sel@) is None,
            },
    {
        let mut i: usize = 0;
        while i < table.len()
            invariant
                i <= table@.len(),
                forall|k: int| 0 <= k < i ==> views(table@)[k] != sel@,
            decreases table@.len() - i,
        {
            if table[i].same(sel) {
                proof {
                    lemma_slot_of(views(table@), sel@);
                    assert(views(table@)[i as int] == sel@);
                }
                return Some(i);
            }
            i += 1;
        }
        proof {
            lemma_slot_of(views(table@), sel@);
        }
        None
    }

    /// Lays out `query`.
    pub fn new(query: &[Vec<UserSelector>]) -> (r: Plan)
        ensures
            r.lays_out(query_views(query@)),
    {
        let ghost qv = query_views(query@);
        let mut plan = Plan { table: Vec::new(), groups: Vec::new() };
        let mut g: usize = 0;
        assert(qv.take(0) =~= Seq::<Seq<Selector>>::empty());
        assert(views(plan.table@) =~= Seq::<Selector>::empty());
        while g < query.len()
            invariant
                g <= query@.len(),
                qv == query_views(query@),
                views(plan.table@) == distinct(flattened(qv.take(g as int))),
                plan.groups@.len() == g,
                forall|h: int| 0 <= h < g ==> plan.places((#[trigger] plan.groups@[h])@, qv[h]),
            decreases query@.len() - g,
        {
            let group = &query[g];
            let ghost base = flattened(qv.take(g as int));
            let mut slots: Vec<usize> = Vec::new();
            let mut j: usize = 0;
            assert(base + qv[g as int].take(0) =~= base);
            while j < group.len()
                invariant
                    j <= group@.len(),
                    g < query@.len(),
                    qv == query_views(query@),
                    group@ == query@[g as int]@,
                    base == flattened(qv.take(g as int)),
                    views(plan.table@) == distinct(base + qv[g as int].take(j as int)),
                    plan.groups@.len() == g,
                    forall|h: int|
                        0 <= h < g ==> plan.places((#[trigger] plan.groups@[h])@, qv[h]),
                    plan.places(slots@, qv[g as int].take(j as int)),
                decreases group@.len() - j,
            {
                let ghost before = views(plan.table@);
                let ghost sel = group@[j as int]@;
                proof {
                    let upto = base + qv[g as int].take(j + 1);
                    assert(upto.drop_last() =~= base + qv[g as int].take(j as int));
                    assert(upto.last() == sel);
                    assert forall|h: int, k: int|
                        0 <= h < g && 0 <= k < qv[h].len() implies slot_of(
                        before.push(sel),
                        qv[h][k],
                    ) == Some(#[trigger] plan.groups@[h]@[k] as int) by {
                        assert(plan.places(plan.groups@[h]@, qv[h]));
                        lemma_slot_of_push(before, qv[h][k], sel);
                    }
                    assert forall|k: int| 0 <= k < j implies slot_of(
                        before.push(sel),
                        qv[g as int].take(j as int)[k],
                    ) == Some(#[trigger] slots@[k] as int) by {
                        lemma_slot_of_push(before, qv[g as int].take(j as int)[k], sel);
                    }
                    lemma_slot_of_push(before, sel, sel);
                }
                match Plan::find_slot(&plan.table, &group[j]) {
                    Some(i) => {
                        slots.push(i);
                    },
                    None => {
                        slots.push(plan.table.len());
                        plan.table.push(group[j].clone());
                        assert(views(plan.table@) =~= before.push(sel));
                    },
                }
                j += 1;
            }
            proof {
                assert(qv[g as int].take(group@.len() as int) =~= qv[g as int]);
                let upto = qv.take(g + 1);
                assert(upto.drop_last() =~= qv.take(g as int));
                assert(upto.last() == qv[g as int]);
            }
            plan.groups.push(slots);
            g += 1;
        }
        assert(qv.take(query@.len() as int) =~= qv);
        plan
    }
}

/// The views of the lists found for the selectors of a table.
pub open spec fn found_views(found: Seq<Vec<UserInfo>>) -> Seq<Seq<Record>> {
    Seq::new(found.len(), |i: int| views_of(found[i]@))
}

/// Enters what matching `user` against the selector in place `i` gave.
/// A match is one more find: it fails the search when no more than one
/// find is left, and else puts a copy of `user` behind what was found for
/// the selector.
pub fn offer(
    found: &mut Vec<Vec<UserInfo>>,
    left: &mut usize,
    i: usize,
    matched: bool,
    user: &UserInfo,
) -> (r: Result<(), SearchError>)
    requires
        i < old(found)@.len(),
    ensures
        final(found)@.len() == old(found)@.len(),
        if !matched {
            r is Ok && *final(left) == *old(left) && found_views(final(found)@) == found_views(
                old(found)@,
            )
        } else if *old(left) <= 1 {
            r is Err && r->Err_0@ == Failure::LimitExceeded && *final(left) == *old(left)
                && found_views(final(found)@) == found_views(old(found)@)
        } else {
            r is Ok && *final(left) == *old(left) - 1 && found_views(final(found)@)
                == found_views(old(found)@).update(
                i as int,
                views_of(old(found)@[i as int]@).push(user@),
            )
        },
{
    if !matched {
        return Ok(());
    }
    if *left <= 1 {
        return Err(SearchError::LimitExceeded);
    }
    *left = *left - 1;
    let copy = user.clone();
    found[i].push(copy);
    proof {
        let before = found_views(old(found)@);
        let after = found_views(found@);
        let want = before.update(i as int, views_of(old(found)@[i as int]@).push(user@));
        assert(after.len() == want.len());
        assert forall|k: int| 0 <= k < after.len() implies after[k] == want[k] by {
            if k == i {
                assert(after[k] =~= want[k]);
            } else {
                assert(found@[k] == old(found)@[k]);
            }
        }
        assert(after =~= want);
    }
    Ok(())
}

/// True when `got` is the outcome `want` of a lookup in the indexes, with
/// the cache `cached`.
pub open spec fn looked_up(
    got: Result<ReaderValue, SearchError>,
    want: Result<Option<Record>, FramingError>,
    cached: Seq<UserInfo>,
) -> bool {
    match want {
        Err(e) => got is Err && got->Err_0@ == Failure::Framing(e),
        Ok(v) => got is Ok && got->Ok_0.resolve(cached) == v,
    }
}

impl Compiled {
    /// Asks the indexes of `data` for the selector. A name is looked up in
    /// the index of names and an id in the index of ids; the indexes
    /// cannot answer a place in the container, and a pattern must not
    /// come here.
    pub fn lookup(&self, data: &Data) -> (r: Result<ReaderValue, SearchError>)
        ensures
            match *self {
                Compiled::Name(key) => looked_up(r, data.name_entry(key@), data.cached@),
                Compiled::PikabuId(id) => looked_up(r, data.id_entry(id), data.cached@),
                Compiled::Seek(_) => r is Err && r->Err_0@ == Failure::SeekUnavailable,
                _ => r is Err && r->Err_0@ == Failure::Internal,
            },
    {
        let looked = match self {
            Compiled::Name(key) => data.by_key(key.as_str()),
            Compiled::PikabuId(id) => data.by_id(*id),
            Compiled::Seek(_) => {
                return Err(SearchError::SeekUnavailable);
            },
            _ => {
                return Err(SearchError::Internal);
            },
        };
        match looked {
            Ok(v) => Ok(v),
            Err(e) => Err(SearchError::Framing(e)),
        }
    }

    /// Whether any number of records can match the selector.
    pub fn pattern(&self) -> (r: bool)
        ensures
            r == self.is_pattern(),
    {
        match self {
            Compiled::Glob(_) => true,
            Compiled::Regexp(_) => true,
            _ => false,
        }
    }
}

/// True when `compiled` holds the selectors of `table` made ready.
pub open spec fn ready(compiled: Seq<Compiled>, table: Seq<Selector>) -> bool {
    &&& compiled.len() == table.len()
    &&& forall|i: int| 0 <= i < table.len() ==> (#[trigger] compiled[i]).stands_for(table[i])
}

/// Whether something was found for every selector.
fn all_found(found: &Vec<Vec<UserInfo>>) -> (r: bool)
    ensures
        r == forall|k: int| 0 <= k < found@.len() ==> (#[trigger] found@[k])@.len() > 0,
{
    let mut k: usize = 0;
    while k < found.len()
        invariant
            k <= found@.len(),
            forall|j: int| 0 <= j < k ==> (#[trigger] found@[j])@.len() > 0,
        decreases found@.len() - k,
    {
        if found[k].len() == 0 {
            return false;
        }
        k += 1;
    }
    true
}

/// As many empty lists as there are selectors.
fn blank(n: usize) -> (found: Vec<Vec<UserInfo>>)
    ensures
        found@.len() == n,
        forall|k: int| 0 <= k < n ==> (#[trigger] found@[k])@.len() == 0,
{
    let mut found: Vec<Vec<UserInfo>> = Vec::new();
    let mut k: usize = 0;
    while k < n
        invariant
            k <= n,
            found@.len() == k,
            forall|j: int| 0 <= j < k ==> (#[trigger] found@[j])@.len() == 0,
        decreases n - k,
    {
        found.push(Vec::new());
        k += 1;
    }
    found
}

/// Whether one of the selectors is a pattern.
fn any_pattern(compiled: &Vec<Compiled>, Ghost(table): Ghost<Seq<Selector>>) -> (r: bool)
    requires
        ready(compiled@, table),
    ensures
        r == has_pattern(table),
{
    let mut any = false;
    let mut k: usize = 0;
    while k < compiled.len()
        invariant
            k <= compiled@.len(),
            ready(compiled@, table),
            any == has_pattern(table.take(k as int)),
        decreases compiled@.len() - k,
    {
        proof {
            let upto = table.take(k + 1);
            if has_pattern(upto) {
                let w = choose|w: int| 0 <= w < upto.len() && (#[trigger] upto[w]).is_pattern();
                if w < k {
                    assert(table.take(k as int)[w].is_pattern());
                }
            }
            if has_pattern(table.take(k as int)) {
                let w = choose|w: int|
                    0 <= w < k && (#[trigger] table.take(k as int)[w]).is_pattern();
                assert(upto[w].is_pattern());
            }
            if table[k as int].is_pattern() {
                assert(upto[k as int].is_pattern());
            }
        }
        if compiled[k].pattern() {
            any = true;
        }
        k += 1;
    }
    assert(table.take(table.len() as int) =~= table);
    any
}

/// What a scan has found when the record after `done` was matched against
/// the first `i` selectors only.
pub open spec fn midway(table: Seq<Selector>, done: Seq<Record>, next: Record, i: int) -> Seq<
    Seq<Record>,
> {
    Seq::new(
        table.len(),
        |k: int|
            if k < i {
                hits(table[k], done.push(next))
            } else {
                hits(table[k], done)
            },
    )
}

/// Matches `user`, the record after `done`, against every selector that
/// can still find something, and enters the finds.
fn match_record(
    compiled: &Vec<Compiled>,
    Ghost(table): Ghost<Seq<Selector>>,
    Ghost(done): Ghost<Seq<Record>>,
    found: &mut Vec<Vec<UserInfo>>,
    left: &mut usize,
    user: &UserInfo,
) -> (r: Result<(), SearchError>)
    requires
        ready(compiled@, table),
        found_views(old(found)@) == scan_found(table, done),
        *old(left) >= 1,
    ensures
        match r {
            Ok(()) => {
                &&& found_views(final(found)@) == scan_found(table, done.push(user@))
                &&& count(found_views(final(found)@)) + *final(left) == count(
                    scan_found(table, done),
                ) + *old(left)
                &&& *final(left) >= 1
            },
            Err(e) => e@ == Failure::LimitExceeded && count(scan_found(table, done.push(user@)))
                >= count(scan_found(table, done)) + *old(left),
        },
{
    let ghost longer = done.push(user@);
    let n = compiled.len();
    let mut i: usize = 0;
    assert(found_views(found@) =~= midway(table, done, user@, 0));
    while i < n
        invariant
            i <= n,
            n == table.len(),
            ready(compiled@, table),
            longer == done.push(user@),
            found@.len() == n,
            found_views(found@) == midway(table, done, user@, i as int),
            count(found_views(found@)) + *left == count(scan_found(table, done)) + *old(left),
            *left >= 1,
        decreases n - i,
    {
        let ghost fv = found_views(found@);
        let ghost sel = table[i as int];
        proof {
            compiled@[i as int].lemma_accepts(sel, user@);
            lemma_hits_push(sel, done, user@);
            assert(fv[i as int] == hits(sel, done));
            assert(fv[i as int].len() == found@[i as int]@.len());
        }
        let c = &compiled[i];
        let open = c.pattern() || found[i].len() == 0;
        let matched = open && c.test(user);
        match offer(found, left, i, matched, user) {
            Err(e) => {
                proof {
                    let full = scan_found(table, longer);
                    let raised = fv.update(i as int, hits(sel, longer));
                    lemma_count_update(fv, i as int, hits(sel, longer));
                    assert forall|k: int| 0 <= k < raised.len() implies raised[k].len()
                        <= full[k].len() by {
                        if k > i {
                            lemma_hits_grow(table[k], done, seq![user@]);
                            assert(done + seq![user@] =~= longer);
                        }
                    }
                    lemma_count_le(raised, full);
                }
                return Err(e);
            },
            Ok(()) => {},
        }
        proof {
            if matched {
                lemma_count_update(fv, i as int, fv[i as int].push(user@));
            }
            assert(found_views(found@) =~= midway(table, done, user@, i + 1));
        }
        i += 1;
    }
    assert(midway(table, done, user@, n as int) =~= scan_found(table, longer));
    Ok(())
}

proof fn lemma_found_grows(table: Seq<Selector>, a: Seq<Record>, b: Seq<Record>)
    ensures
        count(scan_found(table, a)) <= count(scan_found(table, a + b)),
        settled(table, a) ==> scan_found(table, a + b) == scan_found(table, a) && settled(
            table,
            a + b,
        ),
{
    let f = scan_found(table, a);
    let g = scan_found(table, a + b);
    assert forall|k: int| 0 <= k < f.len() implies f[k].len() <= g[k].len() by {
        lemma_hits_grow(table[k], a, b);
    }
    lemma_count_le(f, g);
    if settled(table, a) {
        assert forall|k: int| 0 <= k < f.len() implies f[k] == g[k] by {
            assert(!table[k].is_pattern());
            lemma_hits_grow(table[k], a, b);
        }
        assert(f =~= g);
        assert forall|i: int| 0 <= i < table.len() implies !(#[trigger] table[i]).is_pattern()
            && hits(table[i], a + b).len() > 0 by {
            assert(g[i] == f[i]);
        }
    }
}

/// Reads `data` from its cursor on and matches each record against the
/// selectors of `compiled`. A selector that is no pattern finds one record
/// at most; when each has found its record and none is a pattern, the
/// scan stops early.
fn scan(
    data: &mut Data,
    compiled: &Vec<Compiled>,
    Ghost(table): Ghost<Seq<Selector>>,
    limit: usize,
) -> (r: Result<Vec<Vec<UserInfo>>, SearchError>)
    requires
        ready(compiled@, table),
    ensures
        final(data).same_container(old(data)),
        final(data).same_cache(old(data)),
        match scan_outcome(
            table,
            stream(old(data).source(), old(data).position(), old(data).seekable()),
            stream_fault(old(data).source(), old(data).position()),
            limit,
        ) {
            Err(e) => r is Err && r->Err_0@ == e,
            Ok(found) => r is Ok && found_views(r->Ok_0@) == found,
        },
        r is Ok ==> r->Ok_0@.len() == table.len(),
        final(data).position() == if table.len() == 0 {
            old(data).position()
        } else {
            scan_end(
                table,
                old(data).source(),
                old(data).position(),
                old(data).seekable(),
                Seq::empty(),
                limit,
            )
        },
{
    let ghost src = data.source();
    let ghost from = data.position();
    let ghost kind = data.seekable();
    let ghost recs = stream(src, from, kind);
    let ghost fault = stream_fault(src, from);
    let ghost done: Seq<Record> = Seq::empty();
    let mut found = blank(compiled.len());
    let any_pattern = any_pattern(compiled, Ghost(table));
    let mut left: usize = if limit == 0 {
        1
    } else {
        limit
    };
    proof {
        let blank = Seq::new(table.len(), |k: int| Seq::<Record>::empty());
        assert forall|k: int| 0 <= k < table.len() implies (#[trigger] found_views(found@)[k])
            == blank[k] && hits(table[k], done) == blank[k] by {
            assert(found@[k]@.len() == 0);
            assert(found_views(found@)[k] =~= blank[k]);
        }
        assert(found_views(found@) =~= blank);
        assert(scan_found(table, done) =~= blank);
        lemma_count_blank(table.len());
        assert(done + recs =~= recs);
    }
    if compiled.len() == 0 {
        proof {
            lemma_found_grows(table, done, recs);
        }
        return Ok(found);
    }
    assert(!settled(table, done)) by {
        assert(hits(table[0], done).len() == 0);
    }
    let mut reader = data.get_reader(ReadConfig::NoCache);
    let mut stop = false;
    while !stop
        invariant
            ready(compiled@, table),
            table.len() > 0,
            data.same_container(old(data)),
            data.same_cache(old(data)),
            src == old(data).source(),
            from == old(data).position(),
            kind == old(data).seekable(),
            recs == stream(src, from, kind),
            fault == stream_fault(src, from),
            reader.config() == ReadConfig::NoCache,
            any_pattern == has_pattern(table),
            found@.len() == table.len(),
            found_views(found@) == scan_found(table, done),
            count(found_views(found@)) + left == cap(limit),
            left >= 1,
            recs == done + stream(src, data.position(), kind),
            fault == stream_fault(src, data.position()),
            stop ==> settled(table, done) || (fault is None && recs == done),
            !stop ==> !settled(table, done),
            !stop ==> scan_end(table, src, from, kind, Seq::empty(), limit) == scan_end(
                table,
                src,
                data.position(),
                kind,
                done,
                limit,
            ),
            stop ==> scan_end(table, src, from, kind, Seq::empty(), limit) == data.position(),
        decreases
                if stop {
                    0
                } else {
                    1 + src.len() - data.position()
                },
    {
        let ghost pos = data.position();
        proof {
            lemma_decoded_chunk(src, pos);
        }
        match reader.advance(data) {
            Err(e) => {
                proof {
                    assert(done + Seq::<Record>::empty() =~= done);
                }
                return Err(SearchError::Framing(e));
            },
            Ok(()) => {},
        }
        match reader.get(data) {
            None => {
                proof {
                    assert(done + Seq::<Record>::empty() =~= done);
                }
                stop = true;
            },
            Some(user) => {
                let ghost rest = stream(src, data.position(), kind);
                proof {
                    assert(done + (seq![user@] + rest) =~= done.push(user@) + rest);
                }
                match match_record(compiled, Ghost(table), Ghost(done), &mut found, &mut left, user) {
                    Err(e) => {
                        proof {
                            lemma_found_grows(table, done.push(user@), rest);
                        }
                        return Err(e);
                    },
                    Ok(()) => {},
                }
                proof {
                    done = done.push(user@);
                }
                let every = !any_pattern && all_found(&found);
                proof {
                    let fv = found_views(found@);
                    if every {
                        assert forall|i: int| 0 <= i < table.len() implies !(
                        #[trigger] table[i]).is_pattern() && hits(table[i], done).len() > 0 by {
                            assert(fv[i].len() == found@[i]@.len());
                        }
                    } else if any_pattern {
                    } else {
                        let k = choose|k: int|
                            0 <= k < found@.len() && !((#[trigger] found@[k])@.len() > 0);
                        assert(fv[k].len() == found@[k]@.len());
                        assert(hits(table[k], done).len() == 0);
                    }
                }
                if every {
                    stop = true;
                }
            },
        }
    }
    proof {
        if settled(table, done) {
            lemma_found_grows(table, done, stream(src, data.position(), kind));
        }
    }
    Ok(found)
}

proof fn lemma_count_blank(n: nat)
    ensures
        count(Seq::new(n, |k: int| Seq::<Record>::empty())) == 0,
    decreases n,
{
    if n > 0 {
        let blank = Seq::new(n, |k: int| Seq::<Record>::empty());
        assert(blank.drop_last() =~= Seq::new((n - 1) as nat, |k: int| Seq::<Record>::empty()));
        lemma_count_blank((n - 1) as nat);
    }
}

proof fn lemma_probe_fails(data: &Data, table: Seq<Selector>, k: int, limit: usize)
    requires
        0 <= k <= table.len(),
        probe_outcome(data, table.take(k), limit) is Err,
    ensures
        probe_outcome(data, table, limit) == probe_outcome(data, table.take(k), limit),
    decreases table.len() - k,
{
    if k < table.len() {
        assert(table.take(k + 1).drop_last() =~= table.take(k));
        lemma_probe_fails(data, table, k + 1, limit);
    } else {
        assert(table.take(k) =~= table);
    }
}

/// Asks the indexes of `data` for each selector of `compiled`, in their
/// order. Only names and ids can be asked for.
fn probe(
    data: &Data,
    compiled: &Vec<Compiled>,
    Ghost(table): Ghost<Seq<Selector>>,
    limit: usize,
) -> (r: Result<Vec<Vec<UserInfo>>, SearchError>)
    requires
        ready(compiled@, table),
    ensures
        match probe_outcome(data, table, limit) {
            Err(e) => r is Err && r->Err_0@ == e,
            Ok(found) => r is Ok && found_views(r->Ok_0@) == found,
        },
        r is Ok ==> r->Ok_0@.len() == table.len(),
{
    let mut found: Vec<Vec<UserInfo>> = Vec::new();
    let mut left: usize = if limit == 0 {
        1
    } else {
        limit
    };
    let mut i: usize = 0;
    assert(table.take(0) =~= Seq::<Selector>::empty());
    assert(found_views(found@) =~= Seq::<Seq<Record>>::empty());
    while i < compiled.len()
        invariant
            i <= compiled@.len(),
            ready(compiled@, table),
            found@.len() == i,
            probe_outcome(data, table.take(i as int), limit) == Ok::<Seq<Seq<Record>>, Failure>(
                found_views(found@),
            ),
            count(found_views(found@)) + left == cap(limit),
            left >= 1,
        decreases compiled@.len() - i,
    {
        let ghost sel = table[i as int];
        let ghost fv = found_views(found@);
        proof {
            let upto = table.take(i + 1);
            assert(upto.drop_last() =~= table.take(i as int));
            assert(upto.last() == sel);
            assert(compiled@[i as int].stands_for(sel));
            if probe_outcome(data, upto, limit) is Err {
                lemma_probe_fails(data, table, i + 1, limit);
            }
        }
        let value = match compiled[i].lookup(data) {
            Ok(v) => v,
            Err(e) => {
                return Err(e);
            },
        };
        found.push(Vec::new());
        let ghost opened = fv.push(Seq::<Record>::empty());
        proof {
            assert(found_views(found@)[i as int] =~= Seq::<Record>::empty());
            assert(found_views(found@) =~= opened);
            assert(opened.drop_last() =~= fv);
        }
        match value.to_ref(data) {
            Some(user) => {
                match offer(&mut found, &mut left, i, true, user) {
                    Err(e) => {
                        return Err(e);
                    },
                    Ok(()) => {},
                }
                proof {
                    let one = seq![user@];
                    assert(Seq::<Record>::empty().push(user@) =~= one);
                    assert(opened.update(i as int, one) =~= fv.push(one));
                    assert(fv.push(one).drop_last() =~= fv);
                }
            },
            None => {},
        }
        i += 1;
    }
    assert(table.take(table.len() as int) =~= table);
    Ok(found)
}

/// The ids of the records of `recs`.
pub open spec fn ids_of(recs: Seq<Record>) -> Set<i64> {
    Set::new(|id: i64| has_id(recs, id))
}

/// Puts behind `out` the records of `list` whose id no record before
/// them has, where `out` holds the records of `base` of which that is so
/// and `seen` their ids.
fn append_new(
    out: &mut Vec<UserInfo>,
    seen: &mut HashSet<i64>,
    list: &Vec<UserInfo>,
    Ghost(base): Ghost<Seq<Record>>,
)
    requires
        views_of(old(out)@) == dedup(base),
        old(seen)@ == ids_of(views_of(old(out)@)),
    ensures
        views_of(final(out)@) == dedup(base + views_of(list@)),
        final(seen)@ == ids_of(views_of(final(out)@)),
{
    broadcast use vstd::std_specs::hash::group_hash_axioms;

    let ghost more = views_of(list@);
    let mut m: usize = 0;
    assert(base + more.take(0) =~= base);
    while m < list.len()
        invariant
            m <= list@.len(),
            more == views_of(list@),
            views_of(out@) == dedup(base + more.take(m as int)),
            seen@ == ids_of(views_of(out@)),
        decreases list@.len() - m,
    {
        let user = &list[m];
        let ghost before = views_of(out@);
        proof {
            let upto = base + more.take(m + 1);
            assert(upto.drop_last() =~= base + more.take(m as int));
            assert(upto.last() == user@);
        }
        if seen.insert(user.pikabu_id) {
            out.push(user.clone());
            proof {
                let after = views_of(out@);
                assert(after =~= before.push(user@));
                assert forall|id: i64| has_id(after, id) <==> ids_of(before).insert(
                    user@.id,
                ).contains(id) by {
                    if has_id(after, id) {
                        let w = choose|w: int|
                            0 <= w < after.len() && (#[trigger] after[w]).id == id;
                        if w < before.len() {
                            assert(before[w].id == id);
                        }
                    }
                    if has_id(before, id) {
                        let w = choose|w: int|
                            0 <= w < before.len() && (#[trigger] before[w]).id == id;
                        assert(after[w].id == id);
                    }
                    if id == user@.id {
                        assert(after[before.len() as int].id == id);
                    }
                }
                assert(seen@ =~= ids_of(after));
            }
        } else {
            assert(seen@ =~= ids_of(before));
        }
        m += 1;
    }
    assert(more.take(list@.len() as int) =~= more);
}

/// The answer to one group: what was found for its selectors, in their
/// order, without the records whose id an earlier one has.
fn answer_group(
    slots: &Vec<usize>,
    found: &Vec<Vec<UserInfo>>,
    Ghost(group): Ghost<Seq<Selector>>,
    Ghost(table): Ghost<Seq<Selector>>,
) -> (out: Vec<UserInfo>)
    requires
        slots@.len() == group.len(),
        forall|j: int|
            0 <= j < group.len() ==> slot_of(table, group[j]) == Some(#[trigger] slots@[j] as int),
        found@.len() == table.len(),
    ensures
        views_of(out@) == dedup(gathered(group, table, found_views(found@))),
{
    let ghost fv = found_views(found@);
    let mut out: Vec<UserInfo> = Vec::new();
    let mut seen: HashSet<i64> = HashSet::new();
    let mut j: usize = 0;
    assert(group.take(0) =~= Seq::<Selector>::empty());
    assert(views_of(out@) =~= Seq::<Record>::empty());
    assert(seen@ =~= ids_of(views_of(out@)));
    while j < slots.len()
        invariant
            j <= slots@.len(),
            slots@.len() == group.len(),
            forall|k: int|
                0 <= k < group.len() ==> slot_of(table, group[k]) == Some(
                    #[trigger] slots@[k] as int,
                ),
            found@.len() == table.len(),
            fv == found_views(found@),
            views_of(out@) == dedup(gathered(group.take(j as int), table, fv)),
            seen@ == ids_of(views_of(out@)),
        decreases slots@.len() - j,
    {
        let slot = slots[j];
        let ghost base = gathered(group.take(j as int), table, fv);
        proof {
            lemma_slot_of(table, group[j as int]);
            assert(slot_of(table, group[j as int]) == Some(slots@[j as int] as int));
            assert(group.take(j + 1).drop_last() =~= group.take(j as int));
            assert(group.take(j + 1).last() == group[j as int]);
        }
        append_new(&mut out, &mut seen, &found[slot], Ghost(base));
        j += 1;
    }
    assert(group.take(group.len() as int) =~= group);
    out
}

/// The records of `first`, then those of `second`, without the records
/// whose id an earlier one has.
fn splice(first: &Vec<UserInfo>, second: &Vec<UserInfo>) -> (out: Vec<UserInfo>)
    ensures
        views_of(out@) == dedup(views_of(first@) + views_of(second@)),
{
    let mut out: Vec<UserInfo> = Vec::new();
    let mut seen: HashSet<i64> = HashSet::new();
    let ghost none = Seq::<Record>::empty();
    assert(views_of(out@) =~= none);
    assert(seen@ =~= ids_of(views_of(out@)));
    append_new(&mut out, &mut seen, first, Ghost(none));
    assert(none + views_of(first@) =~= views_of(first@));
    append_new(&mut out, &mut seen, second, Ghost(views_of(first@)));
    out
}

/// The answers to the groups of a laid-out query, from what was found
/// for each selector of its table.
fn assemble(plan: &Plan, found: &Vec<Vec<UserInfo>>, Ghost(query): Ghost<Seq<Seq<Selector>>>) -> (out:
    Vec<Vec<UserInfo>>)
    requires
        plan.lays_out(query),
        found@.len() == plan.table@.len(),
    ensures
        found_views(out@) == assembled(query, views(plan.table@), found_views(found@)),
{
    let ghost table = views(plan.table@);
    let ghost want = assembled(query, table, found_views(found@));
    let mut out: Vec<Vec<UserInfo>> = Vec::new();
    let mut g: usize = 0;
    while g < plan.groups.len()
        invariant
            g <= plan.groups@.len(),
            plan.lays_out(query),
            found@.len() == plan.table@.len(),
            table == views(plan.table@),
            want == assembled(query, table, found_views(found@)),
            out@.len() == g,
            forall|h: int| 0 <= h < g ==> views_of((#[trigger] out@[h])@) == want[h],
        decreases plan.groups@.len() - g,
    {
        assert(plan.places(plan.groups@[g as int]@, query[g as int]));
        let answer = answer_group(&plan.groups[g], found, Ghost(query[g as int]), Ghost(table));
        out.push(answer);
        g += 1;
    }
    assert(found_views(out@) =~= want);
    out
}

/// Searches `data` for the records that the groups of `query` select,
/// and answers each group with its records, each once and in the order
/// in which they were found. With a pattern among the selectors, or when
/// the indexes may not answer, the container is scanned from the cursor
/// on; otherwise the indexes are asked.
pub fn find(data: &mut Data, query: &[Vec<UserSelector>], settings: SearchSettings) -> (r: Result<
    Vec<Vec<UserInfo>>,
    SearchError,
>)
    ensures
        final(data).same_container(old(data)),
        final(data).same_cache(old(data)),
        match expected(old(data), query_views(query@), settings.use_cache, settings.limit) {
            Err(e) => r is Err && r->Err_0@ == e,
            Ok(answers) => r is Ok && found_views(r->Ok_0@) == answers,
        },
        final(data).position() == cursor_after(
            old(data),
            distinct(flattened(query_views(query@))),
            settings.use_cache,
            settings.limit,
        ),
{
    let ghost qv = query_views(query@);
    let plan = Plan::new(query);
    let ghost table = views(plan.table@);
    let compiled = match Compiled::compile(plan.table.as_slice()) {
        Ok(c) => c,
        Err(e) => {
            return Err(e);
        },
    };
    let iter_all = any_pattern(&compiled, Ghost(table));
    let outcome = if iter_all || !settings.use_cache {
        scan(data, &compiled, Ghost(table), settings.limit)
    } else {
        probe(data, &compiled, Ghost(table), settings.limit)
    };
    let found = match outcome {
        Ok(f) => f,
        Err(e) => {
            return Err(e);
        },
    };
    Ok(assemble(&plan, &found, Ghost(qv)))
}

proof fn lemma_sought_fails(data: &Data, group: Seq<Selector>, k: int, left: usize)
    requires
        0 <= k <= group.len(),
        sought(data, group.take(k), left) is Err,
    ensures
        sought(data, group, left) == sought(data, group.take(k), left),
    decreases group.len() - k,
{
    if k < group.len() {
        assert(group.take(k + 1).drop_last() =~= group.take(k));
        lemma_sought_fails(data, group, k + 1, left);
    } else {
        assert(group.take(k) =~= group);
    }
}

proof fn lemma_sought_all_fails(data: &Data, query: Seq<Seq<Selector>>, k: int, left: usize)
    requires
        0 <= k <= query.len(),
        sought_all(data, query.take(k), left) is Err,
    ensures
        sought_all(data, query, left) == sought_all(data, query.take(k), left),
    decreases query.len() - k,
{
    if k < query.len() {
        assert(query.take(k + 1).drop_last() =~= query.take(k));
        lemma_sought_all_fails(data, query, k + 1, left);
    } else {
        assert(query.take(k) =~= query);
    }
}

/// Answers the selectors of `group` that name a place in the container,
/// each from its place, and gives the other selectors back.
fn seek_group(data: &Data, group: &Vec<UserSelector>, left: &mut usize) -> (r: Result<
    (Vec<UserSelector>, Vec<UserInfo>),
    SearchError,
>)
    requires
        data.seekable(),
    ensures
        match sought(data, views(group@), *old(left)) {
            Err(e) => r is Err && r->Err_0@ == e,
            Ok((recs, l)) => r is Ok && views(r->Ok_0.0@) == without_seeks(views(group@))
                && views_of(r->Ok_0.1@) == recs && *final(left) == l,
        },
{
    let ghost sels = views(group@);
    let ghost left0 = *left;
    let mut tmp: Vec<UserSelector> = Vec::new();
    let mut tmp_sk: Vec<UserInfo> = Vec::new();
    let mut j: usize = 0;
    assert(sels.take(0) =~= Seq::<Selector>::empty());
    assert(views(tmp@) =~= Seq::<Selector>::empty());
    assert(views_of(tmp_sk@) =~= Seq::<Record>::empty());
    while j < group.len()
        invariant
            j <= group@.len(),
            data.seekable(),
            sels == views(group@),
            left0 == *old(left),
            sought(data, sels.take(j as int), left0) == Ok::<(Seq<Record>, usize), Failure>(
                (views_of(tmp_sk@), *left),
            ),
            views(tmp@) == without_seeks(sels.take(j as int)),
        decreases group@.len() - j,
    {
        let ghost kept = views(tmp@);
        let ghost got = views_of(tmp_sk@);
        proof {
            let upto = sels.take(j + 1);
            assert(upto.drop_last() =~= sels.take(j as int));
            assert(upto.last() == group@[j as int]@);
            if sought(data, upto, left0) is Err {
                lemma_sought_fails(data, sels, j + 1, left0);
            }
        }
        match &group[j] {
            UserSelector::Seek(sk) => {
                if *sk > usize::MAX as u64 {
                    return Err(SearchError::Framing(FramingError::Truncated));
                }
                let value = match data.by_offset(*sk as usize) {
                    Ok(v) => v,
                    Err(e) => {
                        return Err(SearchError::Framing(e));
                    },
                };
                match value.to_ref(data) {
                    Some(user) => {
                        if *left <= 1 {
                            return Err(SearchError::LimitExceeded);
                        }
                        *left = *left - 1;
                        tmp_sk.push(user.clone());
                        assert(views_of(tmp_sk@) =~= got.push(user@));
                    },
                    None => {},
                }
            },
            other => {
                tmp.push(other.clone());
                assert(views(tmp@) =~= kept.push(other@));
            },
        }
        j += 1;
    }
    assert(sels.take(group@.len() as int) =~= sels);
    Ok((tmp, tmp_sk))
}

/// `find` for a seekable store, which also answers the selectors that
/// name a place in the container. These are answered first, without a
/// scan; the others are searched for as `find` does; then the cursor is
/// put back to the start. Each group is answered with what the search
/// found for it, then what stands at its places, each record once.
pub fn find_seek(data: &mut Data, query: Vec<Vec<UserSelector>>, settings: SearchSettings) -> (r:
    Result<Vec<Vec<UserInfo>>, SearchError>)
    requires
        old(data).seekable(),
    ensures
        final(data).same_container(old(data)),
        final(data).same_cache(old(data)),
        final(data).position() == if sought_all(
            old(data),
            query_views(query@),
            settings.limit,
        ) is Ok {
            0
        } else {
            old(data).position()
        },
        match expected_seek(
            old(data),
            query_views(query@),
            settings.use_cache,
            settings.limit,
        ) {
            Err(e) => r is Err && r->Err_0@ == e,
            Ok(answers) => r is Ok && found_views(r->Ok_0@) == answers,
        },
{
    let ghost qv = query_views(query@);
    let mut seeks: Vec<Vec<UserInfo>> = Vec::new();
    let mut new_query: Vec<Vec<UserSelector>> = Vec::new();
    let mut left = settings.limit;
    let mut g: usize = 0;
    assert(qv.take(0) =~= Seq::<Seq<Selector>>::empty());
    assert(found_views(seeks@) =~= Seq::<Seq<Record>>::empty());
    assert(query_views(new_query@) =~= stripped(qv.take(0)));
    while g < query.len()
        invariant
            g <= query@.len(),
            *data == *old(data),
            data.seekable(),
            qv == query_views(query@),
            seeks@.len() == g,
            new_query@.len() == g,
            sought_all(data, qv.take(g as int), settings.limit) == Ok::<
                (Seq<Seq<Record>>, usize),
                Failure,
            >((found_views(seeks@), left)),
            query_views(new_query@) == stripped(qv.take(g as int)),
        decreases query@.len() - g,
    {
        let ghost got = found_views(seeks@);
        let ghost kept = query_views(new_query@);
        proof {
            let upto = qv.take(g + 1);
            assert(upto.drop_last() =~= qv.take(g as int));
            assert(upto.last() == views(query@[g as int]@));
            if sought_all(data, upto, settings.limit) is Err {
                lemma_sought_all_fails(data, qv, g + 1, settings.limit);
            }
        }
        let (tmp, tmp_sk) = match seek_group(data, &query[g], &mut left) {
            Ok(pair) => pair,
            Err(e) => {
                return Err(e);
            },
        };
        new_query.push(tmp);
        seeks.push(tmp_sk);
        proof {
            assert(found_views(seeks@) =~= got.push(views_of(tmp_sk@)));
            let now = query_views(new_query@);
            let want = stripped(qv.take(g + 1));
            assert forall|k: int| 0 <= k < now.len() implies now[k] == want[k] by {
                if k < g {
                    assert(now[k] == kept[k]);
                    assert(kept[k] == stripped(qv.take(g as int))[k]);
                }
            }
            assert(now =~= want);
        }
        g += 1;
    }
    assert(qv.take(query@.len() as int) =~= qv);
    let searched = find(
        data,
        new_query.as_slice(),
        SearchSettings { use_cache: settings.use_cache, limit: left },
    );
    data.reset();
    let other = match searched {
        Ok(o) => o,
        Err(e) => {
            return Err(e);
        },
    };
    let ghost want = expected_seek(
        old(data),
        qv,
        settings.use_cache,
        settings.limit,
    )->Ok_0;
    proof {
        let sv = found_views(seeks@);
        let ov = found_views(other@);
        assert(sought_all(old(data), qv, settings.limit) == Ok::<
            (Seq<Seq<Record>>, usize),
            Failure,
        >((sv, left)));
        assert(expected(old(data), stripped(qv), settings.use_cache, left) == Ok::<
            Seq<Seq<Record>>,
            Failure,
        >(ov));
        assert(ov.len() == stripped(qv).len());
        assert(ov.len() == other@.len());
        assert(sv.len() == seeks@.len());
        assert(want == Seq::new(qv.len(), |g: int| dedup(ov[g] + sv[g])));
        assert forall|k: int| 0 <= k < want.len() implies want[k] == dedup(
            views_of(other@[k]@) + views_of(seeks@[k]@),
        ) by {
            assert(ov[k] == views_of(other@[k]@));
            assert(sv[k] == views_of(seeks@[k]@));
        }
    }
    let mut out: Vec<Vec<UserInfo>> = Vec::new();
    let mut h: usize = 0;
    while h < other.len()
        invariant
            h <= other@.len(),
            other@.len() == seeks@.len(),
            other@.len() == want.len(),
            out@.len() == h,
            forall|k: int|
                0 <= k < want.len() ==> want[k] == dedup(
                    views_of(other@[k]@) + views_of(seeks@[k]@),
                ),
            forall|k: int| 0 <= k < h ==> views_of((#[trigger] out@[k])@) == want[k],
        decreases other@.len() - h,
    {
        out.push(splice(&other[h], &seeks[h]));
        h += 1;
    }
    assert(found_views(out@) =~= want);
    Ok(out)
}

} // verus!
