//! Text operations that the store and the selectors share.

use vstd::prelude::*;
use vstd::string::{StrSliceExecFns, StringExecFns};

verus! {

/// The lowercase form of a text. Names are compared by it.
pub uninterp spec fn lowercase(s: Seq<char>) -> Seq<char>;

/// `str::to_lowercase` of std: the lowercase form of `s`, which depends on
/// the characters of `s` alone.
#[verifier::external_body]
pub(crate) fn to_lowercase(s: &str) -> (r: String)
    ensures
        r@ == lowercase(s@),
{
    s.to_lowercase()
}

/// The value of a decimal digit.
pub open spec fn digit_of(c: char) -> Option<int> {
    if '0' <= c && c <= '9' {
        Some(c as int - '0' as int)
    } else {
        None
    }
}

/// The number that a run of decimal digits writes; 0 for the empty run,
/// nothing when a character is no digit.
pub open spec fn digits_value(s: Seq<char>) -> Option<int>
    decreases s.len(),
{
    if s.len() == 0 {
        Some(0)
    } else {
        match (digits_value(s.drop_last()), digit_of(s.last())) {
            (Some(v), Some(d)) => Some(10 * v + d),
            _ => None,
        }
    }
}

/// The unsigned number that `s` writes: one digit or more, with or without
/// a `+` before them, and no more than 64 bits.
pub open spec fn parse_u64(s: Seq<char>) -> Option<u64> {
    let digits = if s.len() > 0 && s[0] == '+' {
        s.drop_first()
    } else {
        s
    };
    match digits_value(digits) {
        Some(v) => if digits.len() > 0 && v <= u64::MAX {
            Some(v as u64)
        } else {
            None
        },
        None => None,
    }
}

/// The signed number that `s` writes: one digit or more, with or without a
/// `+` or a `-` before them, and no more than 64 bits.
pub open spec fn parse_i64(s: Seq<char>) -> Option<i64> {
    let negative = s.len() > 0 && s[0] == '-';
    let digits = if s.len() > 0 && (s[0] == '+' || s[0] == '-') {
        s.drop_first()
    } else {
        s
    };
    match digits_value(digits) {
        Some(v) => {
            let n = if negative {
                -v
            } else {
                v
            };
            if digits.len() > 0 && i64::MIN <= n <= i64::MAX {
                Some(n as i64)
            } else {
                None
            }
        },
        None => None,
    }
}

proof fn lemma_digits_prefix(s: Seq<char>, k: int)
    requires
        0 <= k <= s.len(),
    ensures
        match digits_value(s) {
            Some(v) => digits_value(s.take(k)) is Some && 0 <= digits_value(s.take(k))->0 <= v,
            None => true,
        },
    decreases s.len(),
{
    if k == s.len() {
        assert(s.take(k) =~= s);
        if s.len() > 0 {
            lemma_digits_prefix(s.drop_last(), 0);
        } else {
        }
    } else {
        lemma_digits_prefix(s.drop_last(), k);
        assert(s.drop_last().take(k) =~= s.take(k));
    }
}

/// The number that the digits of `s` from `from` on write, when there is
/// one digit at least, all are digits and the number has no more than 64
/// bits.
fn scan_digits(s: &str, from: usize) -> (r: Option<u64>)
    requires
        from <= s@.len(),
    ensures
        r == match digits_value(s@.skip(from as int)) {
            Some(v) => if from < s@.len() && v <= u64::MAX {
                Some(v as u64)
            } else {
                None
            },
            None => None,
        },
{
    let len = s.unicode_len();
    if from >= len {
        return None;
    }
    let ghost digits = s@.skip(from as int);
    let mut acc: u64 = 0;
    let mut i: usize = from;
    assert(digits.take(0) =~= Seq::<char>::empty());
    while i < len
        invariant
            from <= i <= len,
            len == s@.len(),
            digits == s@.skip(from as int),
            digits_value(digits.take(i - from)) == Some(acc as int),
        decreases len - i,
    {
        let c = s.get_char(i);
        proof {
            lemma_digits_prefix(digits, i - from + 1);
            assert(digits.take(i - from + 1).drop_last() =~= digits.take(i - from));
            assert(digits.take(i - from + 1).last() == c);
        }
        if c < '0' || c > '9' {
            return None;
        }
        let d: u64 = (c as u32 - '0' as u32) as u64;
        if acc > (u64::MAX - d) / 10 {
            return None;
        }
        acc = acc * 10 + d;
        i += 1;
    }
    assert(digits.take(len - from) =~= digits);
    Some(acc)
}

/// Reads an unsigned number, as `parse_u64` defines it.
pub fn read_u64(s: &str) -> (r: Option<u64>)
    ensures
        r == parse_u64(s@),
{
    let len = s.unicode_len();
    let from: usize = if len > 0 && s.get_char(0) == '+' {
        1
    } else {
        0
    };
    proof {
        assert(s@.skip(0) =~= s@);
        if from == 1 {
            assert(s@.skip(1) =~= s@.drop_first());
        }
    }
    scan_digits(s, from)
}

/// Reads a signed number, as `parse_i64` defines it.
pub fn read_i64(s: &str) -> (r: Option<i64>)
    ensures
        r == parse_i64(s@),
{
    let len = s.unicode_len();
    let first = if len > 0 {
        s.get_char(0)
    } else {
        '0'
    };
    let negative = len > 0 && first == '-';
    let from: usize = if len > 0 && (first == '+' || first == '-') {
        1
    } else {
        0
    };
    proof {
        assert(s@.skip(0) =~= s@);
        if from == 1 {
            assert(s@.skip(1) =~= s@.drop_first());
        }
        lemma_digits_prefix(s@.skip(from as int), 0);
    }
    match scan_digits(s, from) {
        None => None,
        Some(m) => {
            if negative {
                if m <= 0x7fff_ffff_ffff_ffff {
                    Some(-(m as i64))
                } else if m == 0x8000_0000_0000_0000 {
                    Some(i64::MIN)
                } else {
                    None
                }
            } else if m <= 0x7fff_ffff_ffff_ffff {
                Some(m as i64)
            } else {
                None
            }
        },
    }
}

/// The character of a decimal digit.
pub open spec fn digit_char(d: int) -> char {
    ('0' as int + d) as char
}

/// A natural number in decimal digits, without leading zeros.
pub open spec fn decimal_nat(n: nat) -> Seq<char>
    decreases n,
{
    if n < 10 {
        seq![digit_char(n as int)]
    } else {
        decimal_nat(n / 10).push(digit_char((n % 10) as int))
    }
}

/// An integer in decimal digits, with a `-` before them when it is
/// negative.
pub open spec fn decimal(n: int) -> Seq<char> {
    if n < 0 {
        seq!['-'] + decimal_nat((-n) as nat)
    } else {
        decimal_nat(n as nat)
    }
}

fn digit_text(d: u64) -> (r: &'static str)
    requires
        d < 10,
    ensures
        r@ == seq![digit_char(d as int)],
{
    proof {
        reveal_strlit("0");
        reveal_strlit("1");
        reveal_strlit("2");
        reveal_strlit("3");
        reveal_strlit("4");
        reveal_strlit("5");
        reveal_strlit("6");
        reveal_strlit("7");
        reveal_strlit("8");
        reveal_strlit("9");
    }
    let r = if d == 0 {
        "0"
    } else if d == 1 {
        "1"
    } else if d == 2 {
        "2"
    } else if d == 3 {
        "3"
    } else if d == 4 {
        "4"
    } else if d == 5 {
        "5"
    } else if d == 6 {
        "6"
    } else if d == 7 {
        "7"
    } else if d == 8 {
        "8"
    } else {
        "9"
    };
    assert(r@ =~= seq![digit_char(d as int)]);
    r
}

/// Appends `n` in decimal digits to `out`.
pub fn push_decimal(out: &mut String, n: u64)
    ensures
        final(out)@ == old(out)@ + decimal_nat(n as nat),
    decreases n,
{
    if n >= 10 {
        push_decimal(out, n / 10);
    }
    out.append(digit_text(n % 10));
    proof {
        if n >= 10 {
            assert(final(out)@ =~= old(out)@ + decimal_nat(n as nat));
        } else {
            assert(final(out)@ =~= old(out)@ + decimal_nat(n as nat));
        }
    }
}

/// Appends `n` in decimal digits to `out`, with a `-` before them when it
/// is negative.
pub fn push_decimal_signed(out: &mut String, n: i64)
    ensures
        final(out)@ == old(out)@ + decimal(n as int),
{
    if n < 0 {
        proof {
            reveal_strlit("-");
        }
        out.append("-");
        let magnitude: u64 = (-(n + 1)) as u64 + 1;
        push_decimal(out, magnitude);
        assert(final(out)@ =~= old(out)@ + decimal(n as int)) by {
            assert("-"@ =~= seq!['-']);
        }
    } else {
        push_decimal(out, n as u64);
    }
}

/// True for the ten decimal digits.
pub open spec fn is_digit(c: char) -> bool {
    digit_of(c) is Some
}

proof fn lemma_decimal_nat(n: nat)
    ensures
        decimal_nat(n).len() > 0,
        digits_value(decimal_nat(n)) == Some(n as int),
        forall|k: int| 0 <= k < decimal_nat(n).len() ==> is_digit(#[trigger] decimal_nat(n)[k]),
    decreases n,
{
    let s = decimal_nat(n);
    if n < 10 {
        assert(s.drop_last() =~= Seq::<char>::empty());
        assert(digits_value(Seq::<char>::empty()) == Some(0int));
        assert(digit_of(s.last()) == Some(n as int));
    } else {
        let front = decimal_nat(n / 10);
        lemma_decimal_nat(n / 10);
        assert(s.drop_last() =~= front);
        assert(digit_of(s.last()) == Some((n % 10) as int));
        assert forall|k: int| 0 <= k < s.len() implies is_digit(#[trigger] s[k]) by {
            if k < front.len() {
                assert(s[k] == front[k]);
            }
        }
    }
}

/// What is written is read back: a number in decimal digits reads as the
/// number, and its digits hold no sign but a `-` in the first place of a
/// negative one.
pub proof fn lemma_decimal_round_trip(n: i64, u: u64)
    ensures
        parse_i64(decimal(n as int)) == Some(n),
        parse_u64(decimal_nat(u as nat)) == Some(u),
        forall|k: int| 0 <= k < decimal_nat(u as nat).len() ==> is_digit(
            #[trigger] decimal_nat(u as nat)[k],
        ),
        forall|k: int|
            0 <= k < decimal(n as int).len() ==> is_digit(#[trigger] decimal(n as int)[k]) || (k
                == 0 && decimal(n as int)[k] == '-'),
{
    lemma_decimal_nat(u as nat);
    let us = decimal_nat(u as nat);
    assert(is_digit(us[0]));
    if n < 0 {
        let m = (-n) as nat;
        lemma_decimal_nat(m);
        let s = decimal(n as int);
        assert(s.drop_first() =~= decimal_nat(m));
        assert forall|k: int| 0 <= k < s.len() implies is_digit(#[trigger] s[k]) || (k == 0
            && s[k] == '-') by {
            if k > 0 {
                assert(s[k] == decimal_nat(m)[k - 1]);
            }
        }
    } else {
        lemma_decimal_nat(n as nat);
        assert(is_digit(decimal_nat(n as nat)[0]));
    }
}

/// The place of the first `c` of `s` at or after `from`, or the length of
/// `s` when there is none.
pub open spec fn char_from(s: Seq<char>, c: char, from: int) -> int
    decreases s.len() - from,
{
    if from < 0 || from >= s.len() {
        s.len() as int
    } else if s[from] == c {
        from
    } else {
        char_from(s, c, from + 1)
    }
}

/// The pieces into which the separator `sep` cuts `s` from `from` on: one
/// more than there are separators, of which some may be empty.
pub open spec fn pieces_from(s: Seq<char>, sep: char, from: int) -> Seq<Seq<char>>
    decreases s.len() - from,
{
    let to = char_from(s, sep, from);
    if from < 0 || from > s.len() {
        Seq::empty()
    } else if to >= s.len() || to < from {
        seq![s.subrange(from, s.len() as int)]
    } else {
        seq![s.subrange(from, to)] + pieces_from(s, sep, to + 1)
    }
}

/// The pieces into which the separator `sep` cuts `s`.
pub open spec fn pieces(s: Seq<char>, sep: char) -> Seq<Seq<char>> {
    pieces_from(s, sep, 0)
}

/// The place of the first `c` of `s` at or after `from`.
pub fn find_char(s: &str, c: char, from: usize) -> (r: usize)
    requires
        from <= s@.len(),
    ensures
        r == char_from(s@, c, from as int),
        from <= r <= s@.len(),
        r < s@.len() ==> s@[r as int] == c,
{
    let len = s.unicode_len();
    let mut i: usize = from;
    while i < len
        invariant
            from <= i <= len,
            len == s@.len(),
            char_from(s@, c, from as int) == char_from(s@, c, i as int),
        decreases len - i,
    {
        if s.get_char(i) == c {
            return i;
        }
        i += 1;
    }
    i
}

/// The views of a list of texts.
pub open spec fn texts(lines: Seq<String>) -> Seq<Seq<char>> {
    lines.map_values(|l: String| l@)
}

/// Cuts `s` at every `sep`.
pub fn split(s: &str, sep: char) -> (r: Vec<String>)
    ensures
        texts(r@) == pieces(s@, sep),
        r@.len() > 0,
{
    let len = s.unicode_len();
    let mut out: Vec<String> = Vec::new();
    let mut from: usize = 0;
    assert(texts(out@) + pieces_from(s@, sep, 0) =~= pieces(s@, sep));
    loop
        invariant_except_break
            from <= len,
            pieces(s@, sep) == texts(out@) + pieces_from(s@, sep, from as int),
        invariant
            len == s@.len(),
        ensures
            texts(out@) == pieces(s@, sep),
            out@.len() > 0,
        decreases len - from,
    {
        let ghost before = texts(out@);
        let to = find_char(s, sep, from);
        let piece = s.substring_char(from, to).to_owned();
        out.push(piece);
        assert(texts(out@) =~= before.push(s@.subrange(from as int, to as int)));
        if to >= len {
            assert(before + seq![s@.subrange(from as int, len as int)] =~= texts(out@));
            break;
        }
        proof {
            let rest = pieces_from(s@, sep, to + 1);
            assert(before + (seq![s@.subrange(from as int, to as int)] + rest) =~= texts(out@)
                + rest);
        }
        from = to + 1;
    }
    out
}

} // verus!
