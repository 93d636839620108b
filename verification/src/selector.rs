//! Selectors of records: what they are, how they are written and shown.

use crate::text::{
    decimal, lowercase, parse_i64, parse_u64, pieces, push_decimal, push_decimal_signed, read_i64,
    read_u64, split, texts, to_lowercase,
};
use vstd::prelude::*;
use vstd::string::{StrSliceExecFns, StringExecFns};

verus! {

/// A predicate on records.
#[derive(Debug, PartialEq, Eq, Hash)]
pub enum UserSelector {
    /// The record of this name, whatever the case of either.
    Name(String),
    /// The records whose name a glob pattern matches.
    Glob(String),
    /// The records in whose name a regular expression finds a match.
    Regexp(String),
    /// The record of this id.
    PikabuId(i64),
    /// The record whose chunk begins at this place.
    Seek(u64),
}

/// A selector as a mathematical value.
pub enum Selector {
    Name(Seq<char>),
    Glob(Seq<char>),
    Regexp(Seq<char>),
    PikabuId(i64),
    Seek(u64),
}

/// Why a text is no selector.
#[derive(Clone, Copy, Debug, PartialEq, Eq, Structural)]
pub enum SelectorError {
    /// What follows `id:` is no 64-bit signed number.
    BadId,
    /// What follows `sk:` is no 64-bit unsigned number.
    BadOffset,
}

impl View for UserSelector {
    type V = Selector;

    open spec fn view(&self) -> Selector {
        match self {
            UserSelector::Name(n) => Selector::Name(n@),
            UserSelector::Glob(g) => Selector::Glob(g@),
            UserSelector::Regexp(r) => Selector::Regexp(r@),
            UserSelector::PikabuId(id) => Selector::PikabuId(*id),
            UserSelector::Seek(sk) => Selector::Seek(*sk),
        }
    }
}

impl Clone for UserSelector {
    fn clone(&self) -> (r: Self)
        ensures
            r@ == self@,
    {
        match self {
            UserSelector::Name(n) => UserSelector::Name(n.clone()),
            UserSelector::Glob(g) => UserSelector::Glob(g.clone()),
            UserSelector::Regexp(r) => UserSelector::Regexp(r.clone()),
            UserSelector::PikabuId(id) => UserSelector::PikabuId(*id),
            UserSelector::Seek(sk) => UserSelector::Seek(*sk),
        }
    }
}

/// True when `s` begins with the characters `a`, `b` and a colon.
pub open spec fn tagged(s: Seq<char>, a: char, b: char) -> bool {
    s.len() >= 3 && s[0] == a && s[1] == b && s[2] == ':'
}

/// The selector that a text writes: `re:` before a regular expression,
/// `gl:` before a glob pattern, `id:` before an id, `sk:` before a place
/// in the container, and a name otherwise. Names and patterns are taken in
/// their lowercase form.
pub open spec fn parse_selector(s: Seq<char>) -> Result<Selector, SelectorError> {
    if tagged(s, 'r', 'e') {
        Ok(Selector::Regexp(lowercase(s.skip(3))))
    } else if tagged(s, 'g', 'l') {
        Ok(Selector::Glob(lowercase(s.skip(3))))
    } else if tagged(s, 'i', 'd') {
        match parse_i64(s.skip(3)) {
            Some(id) => Ok(Selector::PikabuId(id)),
            None => Err(SelectorError::BadId),
        }
    } else if tagged(s, 's', 'k') {
        match parse_u64(s.skip(3)) {
            Some(sk) => Ok(Selector::Seek(sk)),
            None => Err(SelectorError::BadOffset),
        }
    } else {
        Ok(Selector::Name(lowercase(s)))
    }
}

/// How a selector is shown to a reader.
pub open spec fn shown(sel: Selector) -> Seq<char> {
    match sel {
        Selector::Name(n) => n,
        Selector::Glob(g) => seq!['g', 'l', ':', '\''] + g + seq!['\''],
        Selector::Regexp(r) => seq!['r', 'e', ':', '\''] + r + seq!['\''],
        Selector::PikabuId(id) => seq!['i', 'd', ':'] + decimal(id as int),
        Selector::Seek(sk) => seq!['s', 'k', ':'] + decimal(sk as int),
    }
}

/// The selectors of a group as they are shown, with `+` between them.
pub open spec fn shown_joined(group: Seq<Selector>) -> Seq<char>
    decreases group.len(),
{
    if group.len() == 0 {
        Seq::empty()
    } else if group.len() == 1 {
        shown(group[0])
    } else {
        shown_joined(group.drop_last()) + seq!['+'] + shown(group.last())
    }
}

/// The views of a list of selectors.
pub open spec fn views(group: Seq<UserSelector>) -> Seq<Selector> {
    group.map_values(|s: UserSelector| s@)
}

impl UserSelector {
    /// Reads a selector, as `parse_selector` defines it.
    pub fn new(s: &str) -> (r: Result<Self, SelectorError>)
        ensures
            match parse_selector(s@) {
                Ok(sel) => r is Ok && r->Ok_0@ == sel,
                Err(e) => r == Err::<Self, SelectorError>(e),
            },
    {
        let len = s.unicode_len();
        if len >= 3 && s.get_char(2) == ':' {
            let a = s.get_char(0);
            let b = s.get_char(1);
            let rest = s.substring_char(3, len);
            assert(rest@ =~= s@.skip(3));
            if a == 'r' && b == 'e' {
                return Ok(UserSelector::Regexp(to_lowercase(rest)));
            } else if a == 'g' && b == 'l' {
                return Ok(UserSelector::Glob(to_lowercase(rest)));
            } else if a == 'i' && b == 'd' {
                return match read_i64(rest) {
                    Some(id) => Ok(UserSelector::PikabuId(id)),
                    None => Err(SelectorError::BadId),
                };
            } else if a == 's' && b == 'k' {
                return match read_u64(rest) {
                    Some(sk) => Ok(UserSelector::Seek(sk)),
                    None => Err(SelectorError::BadOffset),
                };
            }
        }
        Ok(UserSelector::Name(to_lowercase(s)))
    }

    /// The selector as it is shown to a reader.
    pub fn human_readable(&self) -> (r: String)
        ensures
            r@ == shown(self@),
    {
        proof {
            reveal_strlit("gl:'");
            reveal_strlit("re:'");
            reveal_strlit("id:");
            reveal_strlit("sk:");
            reveal_strlit("'");
        }
        match self {
            UserSelector::Name(n) => n.clone(),
            UserSelector::Glob(gl) => {
                let mut out = String::from_str("gl:'");
                out.append(gl.as_str());
                out.append("'");
                assert(out@ =~= shown(self@));
                out
            },
            UserSelector::Regexp(re) => {
                let mut out = String::from_str("re:'");
                out.append(re.as_str());
                out.append("'");
                assert(out@ =~= shown(self@));
                out
            },
            UserSelector::PikabuId(id) => {
                let mut out = String::from_str("id:");
                push_decimal_signed(&mut out, *id);
                assert(out@ =~= shown(self@));
                out
            },
            UserSelector::Seek(seek) => {
                let mut out = String::from_str("sk:");
                push_decimal(&mut out, *seek);
                assert(out@ =~= shown(self@));
                out
            },
        }
    }

    /// Whether two selectors are the same predicate, written the same way.
    pub fn same(&self, other: &UserSelector) -> (r: bool)
        ensures
            r == (self@ == other@),
    {
        match self {
            UserSelector::Name(a) => match other {
                UserSelector::Name(b) => *a == *b,
                _ => false,
            },
            UserSelector::Glob(a) => match other {
                UserSelector::Glob(b) => *a == *b,
                _ => false,
            },
            UserSelector::Regexp(a) => match other {
                UserSelector::Regexp(b) => *a == *b,
                _ => false,
            },
            UserSelector::PikabuId(a) => match other {
                UserSelector::PikabuId(b) => *a == *b,
                _ => false,
            },
            UserSelector::Seek(a) => match other {
                UserSelector::Seek(b) => *a == *b,
                _ => false,
            },
        }
    }
}

/// The name of a group of selectors: its selectors as they are shown,
/// with `+` between them, or `<none>` for an empty group.
pub fn selector_name(selectors: &[UserSelector]) -> (r: String)
    ensures
        r@ == if selectors@.len() == 0 {
            seq!['<', 'n', 'o', 'n', 'e', '>']
        } else {
            shown_joined(views(selectors@))
        },
{
    proof {
        reveal_strlit("<none>");
        reveal_strlit("+");
    }
    if selectors.len() == 0 {
        let none = String::from_str("<none>");
        assert(none@ =~= seq!['<', 'n', 'o', 'n', 'e', '>']);
        return none;
    }
    let mut parts = selectors[0].human_readable();
    let mut i: usize = 1;
    assert(views(selectors@).take(1) =~= seq![selectors@[0]@]);
    while i < selectors.len()
        invariant
            1 <= i <= selectors@.len(),
            parts@ == shown_joined(views(selectors@).take(i as int)),
            "+"@ == seq!['+'],
        decreases selectors@.len() - i,
    {
        parts.append("+");
        let shown_i = selectors[i].human_readable();
        parts.append(shown_i.as_str());
        proof {
            let upto = views(selectors@).take(i + 1);
            assert(upto.drop_last() =~= views(selectors@).take(i as int));
            assert(upto.last() == selectors@[i as int]@);
        }
        i += 1;
    }
    assert(views(selectors@).take(selectors@.len() as int) =~= views(selectors@));
    parts
}

/// The views of the groups of a query.
pub open spec fn query_views(query: Seq<Vec<UserSelector>>) -> Seq<Seq<Selector>> {
    Seq::new(query.len(), |g: int| views(query[g]@))
}

/// The selectors that the texts of `texts` write, or the reason why the
/// first bad one is no selector.
pub open spec fn parse_each(texts: Seq<Seq<char>>) -> Result<Seq<Selector>, SelectorError>
    decreases texts.len(),
{
    if texts.len() == 0 {
        Ok(Seq::empty())
    } else {
        match parse_each(texts.drop_last()) {
            Err(e) => Err(e),
            Ok(sels) => match parse_selector(texts.last()) {
                Err(e) => Err(e),
                Ok(sel) => Ok(sels.push(sel)),
            },
        }
    }
}

/// The group that a text writes: its selectors with `+` between them.
pub open spec fn parse_group_text(text: Seq<char>) -> Result<Seq<Selector>, SelectorError> {
    parse_each(pieces(text, '+'))
}

/// The groups that the texts of `texts` write, or the reason why the
/// first bad selector is none.
pub open spec fn parse_groups(texts: Seq<Seq<char>>) -> Result<Seq<Seq<Selector>>, SelectorError>
    decreases texts.len(),
{
    if texts.len() == 0 {
        Ok(Seq::empty())
    } else {
        match parse_groups(texts.drop_last()) {
            Err(e) => Err(e),
            Ok(groups) => match parse_group_text(texts.last()) {
                Err(e) => Err(e),
                Ok(group) => Ok(groups.push(group)),
            },
        }
    }
}

/// The query that a text writes: its groups with commas between them.
pub open spec fn parse_query_text(text: Seq<char>) -> Result<Seq<Seq<Selector>>, SelectorError> {
    parse_groups(pieces(text, ','))
}

proof fn lemma_parse_each_fails(texts: Seq<Seq<char>>, k: int)
    requires
        0 <= k <= texts.len(),
        parse_each(texts.take(k)) is Err,
    ensures
        parse_each(texts) == parse_each(texts.take(k)),
    decreases texts.len() - k,
{
    if k < texts.len() {
        assert(texts.take(k + 1).drop_last() =~= texts.take(k));
        lemma_parse_each_fails(texts, k + 1);
    } else {
        assert(texts.take(k) =~= texts);
    }
}

proof fn lemma_parse_groups_fails(texts: Seq<Seq<char>>, k: int)
    requires
        0 <= k <= texts.len(),
        parse_groups(texts.take(k)) is Err,
    ensures
        parse_groups(texts) == parse_groups(texts.take(k)),
    decreases texts.len() - k,
{
    if k < texts.len() {
        assert(texts.take(k + 1).drop_last() =~= texts.take(k));
        lemma_parse_groups_fails(texts, k + 1);
    } else {
        assert(texts.take(k) =~= texts);
    }
}

/// Reads a group of selectors, written with `+` between them.
pub fn parse_group(text: &str) -> (r: Result<Vec<UserSelector>, SelectorError>)
    ensures
        match parse_group_text(text@) {
            Ok(sels) => r is Ok && views(r->Ok_0@) == sels,
            Err(e) => r == Err::<Vec<UserSelector>, SelectorError>(e),
        },
{
    let parts = split(text, '+');
    let ghost all = texts(parts@);
    let mut out: Vec<UserSelector> = Vec::new();
    let mut i: usize = 0;
    assert(all.take(0) =~= Seq::<Seq<char>>::empty());
    assert(views(out@) =~= Seq::<Selector>::empty());
    while i < parts.len()
        invariant
            i <= parts@.len(),
            all == texts(parts@),
            all == pieces(text@, '+'),
            parse_each(all.take(i as int)) == Ok::<Seq<Selector>, SelectorError>(views(out@)),
        decreases parts@.len() - i,
    {
        let ghost before = views(out@);
        proof {
            let upto = all.take(i + 1);
            assert(upto.drop_last() =~= all.take(i as int));
            assert(upto.last() == parts@[i as int]@);
            if parse_each(upto) is Err {
                lemma_parse_each_fails(all, i + 1);
            }
        }
        match UserSelector::new(parts[i].as_str()) {
            Ok(sel) => {
                out.push(sel);
                assert(views(out@) =~= before.push(sel@));
            },
            Err(e) => {
                return Err(e);
            },
        }
        i += 1;
    }
    assert(all.take(parts@.len() as int) =~= all);
    Ok(out)
}

/// Reads a query: groups with commas between them, and in each group
/// selectors with `+` between them.
pub fn parse_query(text: &str) -> (r: Result<Vec<Vec<UserSelector>>, SelectorError>)
    ensures
        match parse_query_text(text@) {
            Ok(groups) => r is Ok && query_views(r->Ok_0@) == groups,
            Err(e) => r == Err::<Vec<Vec<UserSelector>>, SelectorError>(e),
        },
{
    let parts = split(text, ',');
    let ghost all = texts(parts@);
    let mut out: Vec<Vec<UserSelector>> = Vec::new();
    let mut i: usize = 0;
    assert(all.take(0) =~= Seq::<Seq<char>>::empty());
    assert(query_views(out@) =~= Seq::<Seq<Selector>>::empty());
    while i < parts.len()
        invariant
            i <= parts@.len(),
            all == texts(parts@),
            all == pieces(text@, ','),
            parse_groups(all.take(i as int)) == Ok::<Seq<Seq<Selector>>, SelectorError>(
                query_views(out@),
            ),
        decreases parts@.len() - i,
    {
        let ghost before = query_views(out@);
        proof {
            let upto = all.take(i + 1);
            assert(upto.drop_last() =~= all.take(i as int));
            assert(upto.last() == parts@[i as int]@);
            if parse_groups(upto) is Err {
                lemma_parse_groups_fails(all, i + 1);
            }
        }
        match parse_group(parts[i].as_str()) {
            Ok(group) => {
                let ghost sels = views(group@);
                out.push(group);
                assert(query_views(out@) =~= before.push(sels));
            },
            Err(e) => {
                return Err(e);
            },
        }
        i += 1;
    }
    assert(all.take(parts@.len() as int) =~= all);
    Ok(out)
}

} // verus!
