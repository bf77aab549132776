//! The byte-level grammar of the exchanges' depth messages.
//!
//! Each exchange sends one JSON object per snapshot.  The codec
//! consumes the members it knows (`bids`, `asks`, and for Bitstamp the
//! `data` wrapper); any other member must hold a string or another
//! scalar, which is skipped.  Prices and amounts arrive as decimal
//! strings and go through the exact fixed-point codec in `decimal`.
//!
//! Every parsing function returns precisely what its spec-level
//! counterpart denotes, so the accepted language and the values read
//! from it are pinned down completely.
use vstd::prelude::*;

use crate::decimal::ParseError;
use crate::decimal::format_decimal;
use crate::decimal::parse_decimal_range;
use crate::decimal::spec_format_decimal;
use crate::decimal::spec_parse_decimal;
use crate::orderbook::ExchangeId;
use crate::orderbook::Level;

verus! {

pub const QUOTE: u8 = 34;
pub const COMMA: u8 = 44;
pub const COLON: u8 = 58;
pub const LBRACK: u8 = 91;
pub const BACKSLASH: u8 = 92;
pub const RBRACK: u8 = 93;
pub const LBRACE: u8 = 123;
pub const RBRACE: u8 = 125;

pub open spec fn is_ws(c: u8) -> bool {
    c == 32 || c == 9 || c == 10 || c == 13
}

/// First index at or after `i` holding a non-blank byte.
pub open spec fn skip_ws(s: Seq<u8>, i: int) -> int
    decreases s.len() - i,
{
    if i < 0 || i >= s.len() {
        i
    } else if is_ws(s[i]) {
        skip_ws(s, i + 1)
    } else {
        i
    }
}

/// Index of the quote that closes a string whose body starts at `i`,
/// or -1 if the string never closes.  A backslash carries the next
/// byte verbatim.
pub open spec fn scan_string_end(s: Seq<u8>, i: int) -> int
    decreases s.len() + 1 - i,
{
    if i < 0 || i >= s.len() {
        -1
    } else if s[i] == QUOTE {
        i
    } else if s[i] == BACKSLASH {
        scan_string_end(s, i + 2)
    } else {
        scan_string_end(s, i + 1)
    }
}

proof fn lemma_scan_string_bounds(s: Seq<u8>, i: int)
    requires
        0 <= i,
    ensures
        scan_string_end(s, i) == -1 || (i <= scan_string_end(s, i) < s.len() && s[scan_string_end(
            s,
            i,
        )] == QUOTE),
    decreases s.len() + 1 - i,
{
    if i < s.len() && s[i] != QUOTE {
        if s[i] == BACKSLASH {
            lemma_scan_string_bounds(s, i + 2);
        } else {
            lemma_scan_string_bounds(s, i + 1);
        }
    }
}

/// Bytes a bare (unquoted) scalar is made of: digits, letters, sign,
/// dot — enough for JSON numbers, `true`, `false` and `null`.
pub open spec fn is_scalar_byte(c: u8) -> bool {
    (48 <= c <= 57) || (65 <= c <= 90) || (97 <= c <= 122) || c == 43 || c == 45 || c == 46
}

/// First index at or after `i` past a run of scalar bytes.
pub open spec fn scan_scalar(s: Seq<u8>, i: int) -> int
    decreases s.len() - i,
{
    if i < 0 || i >= s.len() {
        i
    } else if is_scalar_byte(s[i]) {
        scan_scalar(s, i + 1)
    } else {
        i
    }
}

proof fn lemma_scan_scalar_bounds(s: Seq<u8>, i: int)
    requires
        0 <= i <= s.len(),
    ensures
        i <= scan_scalar(s, i) <= s.len(),
    decreases s.len() - i,
{
    if i < s.len() && is_scalar_byte(s[i]) {
        lemma_scan_scalar_bounds(s, i + 1);
    }
}

/// Position just past a member value the codec does not consume: a
/// quoted string or a run of scalar bytes.  Anything else is refused.
pub open spec fn skip_value(s: Seq<u8>, i: int) -> Option<int> {
    if i < 0 || i >= s.len() {
        None
    } else if s[i] == QUOTE {
        let e = scan_string_end(s, i + 1);
        if e == -1 {
            None
        } else {
            Some(e + 1)
        }
    } else if is_scalar_byte(s[i]) {
        Some(scan_scalar(s, i + 1))
    } else {
        None
    }
}

proof fn lemma_skip_value_bounds(s: Seq<u8>, i: int)
    requires
        0 <= i <= s.len(),
    ensures
        skip_value(s, i) matches Some(j) ==> i < j <= s.len(),
{
    if 0 <= i < s.len() {
        lemma_scan_string_bounds(s, i + 1);
        lemma_scan_scalar_bounds(s, i + 1);
    }
}

/// Advances past blanks; exactly `skip_ws`.
#[verifier::loop_isolation(false)]
pub fn ws_from(s: &Vec<u8>, from: usize) -> (r: usize)
    requires
        from <= s@.len(),
    ensures
        r == skip_ws(s@, from as int),
        from <= r <= s@.len(),
        r < s@.len() ==> !is_ws(s@[r as int]),
{
    let mut i = from;
    while i < s.len() && (s[i] == 32 || s[i] == 9 || s[i] == 10 || s[i] == 13)
        invariant
            from <= i <= s@.len(),
            skip_ws(s@, from as int) == skip_ws(s@, i as int),
        decreases s@.len() - i,
    {
        i = i + 1;
    }
    i
}

/// Finds the closing quote; exactly `scan_string_end`.
#[verifier::loop_isolation(false)]
pub fn string_end_from(s: &Vec<u8>, from: usize) -> (r: Option<usize>)
    requires
        from <= s@.len(),
    ensures
        match r {
            Some(e) => scan_string_end(s@, from as int) == e && from <= e < s@.len() && s@[e as int]
                == QUOTE,
            None => scan_string_end(s@, from as int) == -1,
        },
{
    let mut i = from;
    while i < s.len()
        invariant
            from <= i <= s@.len(),
            scan_string_end(s@, from as int) == scan_string_end(s@, i as int),
        decreases s@.len() - i,
    {
        if s[i] == QUOTE {
            return Some(i);
        }
        if s[i] == BACKSLASH {
            if i + 1 >= s.len() {
                proof {
                    assert(scan_string_end(s@, i as int) == scan_string_end(s@, i + 2));
                    assert(scan_string_end(s@, i + 2) == -1);
                }
                return None;
            }
            i = i + 2;
        } else {
            i = i + 1;
        }
    }
    None
}

/// Advances past a run of scalar bytes; exactly `scan_scalar`.
#[verifier::loop_isolation(false)]
pub fn scalar_end_from(s: &Vec<u8>, from: usize) -> (r: usize)
    requires
        from <= s@.len(),
    ensures
        r == scan_scalar(s@, from as int),
        from <= r <= s@.len(),
{
    let mut i = from;
    while i < s.len() && ((48 <= s[i] && s[i] <= 57) || (65 <= s[i] && s[i] <= 90) || (97 <= s[i]
        && s[i] <= 122) || s[i] == 43 || s[i] == 45 || s[i] == 46)
        invariant
            from <= i <= s@.len(),
            scan_scalar(s@, from as int) == scan_scalar(s@, i as int),
        decreases s@.len() - i,
    {
        i = i + 1;
    }
    i
}

/// Skips a scalar member value; exactly `skip_value`.
pub fn value_end_from(s: &Vec<u8>, from: usize) -> (r: Result<usize, ParseError>)
    requires
        from <= s@.len(),
    ensures
        match r {
            Ok(j) => skip_value(s@, from as int) == Some(j as int) && from < j <= s@.len(),
            Err(_) => skip_value(s@, from as int) is None,
        },
{
    if from >= s.len() {
        return Err(ParseError);
    }
    proof {
        lemma_skip_value_bounds(s@, from as int);
    }
    let c = s[from];
    if c == QUOTE {
        match string_end_from(s, from + 1) {
            Some(e) => Ok(e + 1),
            None => Err(ParseError),
        }
    } else if (48 <= c && c <= 57) || (65 <= c && c <= 90) || (97 <= c && c <= 122) || c == 43 || c
        == 45 || c == 46 {
        Ok(scalar_end_from(s, from + 1))
    } else {
        Err(ParseError)
    }
}

/// The member names the codec consumes, as byte strings.
pub open spec fn bids_key() -> Seq<u8> {
    seq![98u8, 105u8, 100u8, 115u8]
}

pub open spec fn asks_key() -> Seq<u8> {
    seq![97u8, 115u8, 107u8, 115u8]
}

pub open spec fn data_key() -> Seq<u8> {
    seq![100u8, 97u8, 116u8, 97u8]
}

/// One `["price","amount"]` pair read into a level quoted by `ex`.
pub open spec fn parse_pair(s: Seq<u8>, i: int, ex: ExchangeId) -> Option<(Level, int)> {
    let i1 = skip_ws(s, i);
    if !(0 <= i1 < s.len() && s[i1] == LBRACK) {
        None
    } else {
        let i2 = skip_ws(s, i1 + 1);
        if !(i2 < s.len() && s[i2] == QUOTE) {
            None
        } else {
            let e1 = scan_string_end(s, i2 + 1);
            if e1 == -1 {
                None
            } else {
                match spec_parse_decimal(s.subrange(i2 + 1, e1)) {
                    None => None,
                    Some(price) => {
                        let i3 = skip_ws(s, e1 + 1);
                        if !(i3 < s.len() && s[i3] == COMMA) {
                            None
                        } else {
                            let i4 = skip_ws(s, i3 + 1);
                            if !(i4 < s.len() && s[i4] == QUOTE) {
                                None
                            } else {
                                let e2 = scan_string_end(s, i4 + 1);
                                if e2 == -1 {
                                    None
                                } else {
                                    match spec_parse_decimal(s.subrange(i4 + 1, e2)) {
                                        None => None,
                                        Some(amount) => {
                                            let i5 = skip_ws(s, e2 + 1);
                                            if !(i5 < s.len() && s[i5] == RBRACK) {
                                                None
                                            } else {
                                                Some(
                                                    (Level { exchange: ex, price, amount }, i5 + 1),
                                                )
                                            }
                                        },
                                    }
                                }
                            }
                        }
                    },
                }
            }
        }
    }
}

/// The pairs of a non-empty array, read from the first pair on; `acc`
/// carries the levels already read.
pub open spec fn parse_items(s: Seq<u8>, i: int, ex: ExchangeId, acc: Seq<Level>) -> Option<
    (Seq<Level>, int),
>
    decreases s.len() - i,
{
    if i < 0 {
        None
    } else {
        match parse_pair(s, i, ex) {
            None => None,
            Some((l, j)) => {
                let i2 = skip_ws(s, j);
                if 0 <= i2 < s.len() && s[i2] == RBRACK {
                    Some((acc.push(l), i2 + 1))
                } else if 0 <= i2 < s.len() && s[i2] == COMMA && i2 + 1 > i {
                    parse_items(s, i2 + 1, ex, acc.push(l))
                } else {
                    None
                }
            },
        }
    }
}

/// A whole `[ ... ]` array of price-amount pairs.
pub open spec fn parse_levels(s: Seq<u8>, i: int, ex: ExchangeId) -> Option<(Seq<Level>, int)> {
    let i1 = skip_ws(s, i);
    if !(0 <= i1 < s.len() && s[i1] == LBRACK) {
        None
    } else {
        let i2 = skip_ws(s, i1 + 1);
        if 0 <= i2 < s.len() && s[i2] == RBRACK {
            Some((Seq::<Level>::empty(), i2 + 1))
        } else {
            parse_items(s, i1 + 1, ex, Seq::<Level>::empty())
        }
    }
}

/// The members of a depth object, from just past its `{` or a
/// separating comma.  `b` and `a` hold the sides already seen; a side
/// seen twice or a member that is neither a known key nor a scalar
/// refuses the message.
pub open spec fn parse_book_members(
    s: Seq<u8>,
    i: int,
    ex: ExchangeId,
    b: Option<Seq<Level>>,
    a: Option<Seq<Level>>,
) -> Option<(Seq<Level>, Seq<Level>, int)>
    decreases s.len() - i, 1int,
{
    if i < 0 {
        None
    } else {
        let i1 = skip_ws(s, i);
        if !(i1 < s.len() && s[i1] == QUOTE) {
            None
        } else {
            let e = scan_string_end(s, i1 + 1);
            if e == -1 {
                None
            } else {
                let key = s.subrange(i1 + 1, e);
                let i2 = skip_ws(s, e + 1);
                if !(i2 < s.len() && s[i2] == COLON) {
                    None
                } else {
                    let vi = i2 + 1;
                    if key == bids_key() {
                        if b is Some {
                            None
                        } else {
                            match parse_levels(s, vi, ex) {
                                None => None,
                                Some((ls, j)) => if i < j <= s.len() {
                                    parse_book_more(s, j, ex, Some(ls), a)
                                } else {
                                    None
                                },
                            }
                        }
                    } else if key == asks_key() {
                        if a is Some {
                            None
                        } else {
                            match parse_levels(s, vi, ex) {
                                None => None,
                                Some((ls, j)) => if i < j <= s.len() {
                                    parse_book_more(s, j, ex, b, Some(ls))
                                } else {
                                    None
                                },
                            }
                        }
                    } else {
                        match skip_value(s, skip_ws(s, vi)) {
                            None => None,
                            Some(j) => if i < j <= s.len() {
                                parse_book_more(s, j, ex, b, a)
                            } else {
                                None
                            },
                        }
                    }
                }
            }
        }
    }
}

/// After a member's value: close the object, or continue past the
/// comma.  Both sides must have been seen by the close.
pub open spec fn parse_book_more(
    s: Seq<u8>,
    j: int,
    ex: ExchangeId,
    b: Option<Seq<Level>>,
    a: Option<Seq<Level>>,
) -> Option<(Seq<Level>, Seq<Level>, int)>
    decreases s.len() - j, 0int,
{
    if j < 0 {
        None
    } else {
        let i3 = skip_ws(s, j);
        if !(i3 < s.len()) {
            None
        } else if s[i3] == RBRACE {
            match (b, a) {
                (Some(bs), Some(aa)) => Some((bs, aa, i3 + 1)),
                _ => None,
            }
        } else if s[i3] == COMMA && i3 + 1 > j {
            parse_book_members(s, i3 + 1, ex, b, a)
        } else {
            None
        }
    }
}

/// The members of the envelope Bitstamp wraps its depth object in:
/// the `data` member holds the depth object, every other member must
/// be scalar.
pub open spec fn parse_outer_members(
    s: Seq<u8>,
    i: int,
    ex: ExchangeId,
    found: Option<(Seq<Level>, Seq<Level>)>,
) -> Option<(Seq<Level>, Seq<Level>, int)>
    decreases s.len() - i, 1int,
{
    if i < 0 {
        None
    } else {
        let i1 = skip_ws(s, i);
        if !(i1 < s.len() && s[i1] == QUOTE) {
            None
        } else {
            let e = scan_string_end(s, i1 + 1);
            if e == -1 {
                None
            } else {
                let key = s.subrange(i1 + 1, e);
                let i2 = skip_ws(s, e + 1);
                if !(i2 < s.len() && s[i2] == COLON) {
                    None
                } else {
                    let vi = i2 + 1;
                    if key == data_key() {
                        if found is Some {
                            None
                        } else {
                            let vi1 = skip_ws(s, vi);
                            if !(vi1 < s.len() && s[vi1] == LBRACE) {
                                None
                            } else {
                                match parse_book_members(s, vi1 + 1, ex, None, None) {
                                    None => None,
                                    Some((bs, aa, j)) => if i < j <= s.len() {
                                        parse_outer_more(s, j, ex, Some((bs, aa)))
                                    } else {
                                        None
                                    },
                                }
                            }
                        }
                    } else {
                        match skip_value(s, skip_ws(s, vi)) {
                            None => None,
                            Some(j) => if i < j <= s.len() {
                                parse_outer_more(s, j, ex, found)
                            } else {
                                None
                            },
                        }
                    }
                }
            }
        }
    }
}

/// After an envelope member's value: close, or continue at the comma.
pub open spec fn parse_outer_more(
    s: Seq<u8>,
    j: int,
    ex: ExchangeId,
    found: Option<(Seq<Level>, Seq<Level>)>,
) -> Option<(Seq<Level>, Seq<Level>, int)>
    decreases s.len() - j, 0int,
{
    if j < 0 {
        None
    } else {
        let i3 = skip_ws(s, j);
        if !(i3 < s.len()) {
            None
        } else if s[i3] == RBRACE {
            match found {
                Some((bs, aa)) => Some((bs, aa, i3 + 1)),
                None => None,
            }
        } else if s[i3] == COMMA && i3 + 1 > j {
            parse_outer_members(s, i3 + 1, ex, found)
        } else {
            None
        }
    }
}

/// Does `s[start..end]` spell the given four-byte key?
fn key_matches(s: &Vec<u8>, start: usize, end: usize, k0: u8, k1: u8, k2: u8, k3: u8) -> (r: bool)
    requires
        start <= end <= s@.len(),
    ensures
        r == (s@.subrange(start as int, end as int) == seq![k0, k1, k2, k3]),
{
    let ghost sub = s@.subrange(start as int, end as int);
    let ghost key = seq![k0, k1, k2, k3];
    proof {
        assert(key.len() == 4);
        assert(key[0] == k0 && key[1] == k1 && key[2] == k2 && key[3] == k3);
    }
    if end - start != 4 {
        return false;
    }
    let r = s[start] == k0 && s[start + 1] == k1 && s[start + 2] == k2 && s[start + 3] == k3;
    proof {
        assert(sub[0] == s@[start as int] && sub[1] == s@[start as int + 1] && sub[2] == s@[
            start as int + 2] && sub[3] == s@[start as int + 3]);
        if r {
            assert(sub =~= key);
        }
        if sub == key {
            assert(s@[start as int] == k0 && s@[start as int + 1] == k1 && s@[start as int + 2]
                == k2 && s@[start as int + 3] == k3);
        }
    }
    r
}

/// Reads one `["price","amount"]` pair; exactly `parse_pair`.
pub fn read_pair(s: &Vec<u8>, from: usize, ex: ExchangeId) -> (r: Result<
    (Level, usize),
    ParseError,
>)
    requires
        from <= s@.len(),
    ensures
        match r {
            Ok((l, j)) => parse_pair(s@, from as int, ex) == Some((l, j as int)) && from < j
                <= s@.len() && l.wf() && l.exchange == ex,
            Err(_) => parse_pair(s@, from as int, ex) is None,
        },
{
    let i1 = ws_from(s, from);
    if i1 >= s.len() || s[i1] != LBRACK {
        return Err(ParseError);
    }
    let i2 = ws_from(s, i1 + 1);
    if i2 >= s.len() || s[i2] != QUOTE {
        return Err(ParseError);
    }
    let e1 = match string_end_from(s, i2 + 1) {
        Some(e) => e,
        None => {
            return Err(ParseError);
        },
    };
    let price = match parse_decimal_range(s, i2 + 1, e1) {
        Ok(p) => p,
        Err(e) => {
            return Err(e);
        },
    };
    let i3 = ws_from(s, e1 + 1);
    if i3 >= s.len() || s[i3] != COMMA {
        return Err(ParseError);
    }
    let i4 = ws_from(s, i3 + 1);
    if i4 >= s.len() || s[i4] != QUOTE {
        return Err(ParseError);
    }
    let e2 = match string_end_from(s, i4 + 1) {
        Some(e) => e,
        None => {
            return Err(ParseError);
        },
    };
    let amount = match parse_decimal_range(s, i4 + 1, e2) {
        Ok(a) => a,
        Err(e) => {
            return Err(e);
        },
    };
    let i5 = ws_from(s, e2 + 1);
    if i5 >= s.len() || s[i5] != RBRACK {
        return Err(ParseError);
    }
    Ok((Level { exchange: ex, price, amount }, i5 + 1))
}

/// Reads a whole `[ ... ]` of pairs; exactly `parse_levels`.
#[verifier::loop_isolation(false)]
pub fn read_levels(s: &Vec<u8>, from: usize, ex: ExchangeId) -> (r: Result<
    (Vec<Level>, usize),
    ParseError,
>)
    requires
        from <= s@.len(),
    ensures
        match r {
            Ok((ls, j)) => parse_levels(s@, from as int, ex) == Some((ls@, j as int)) && from < j
                <= s@.len() && forall|k: int|
                0 <= k < ls@.len() ==> (#[trigger] ls@[k]).wf() && ls@[k].exchange == ex,
            Err(_) => parse_levels(s@, from as int, ex) is None,
        },
{
    let i1 = ws_from(s, from);
    if i1 >= s.len() || s[i1] != LBRACK {
        return Err(ParseError);
    }
    let i2 = ws_from(s, i1 + 1);
    if i2 < s.len() && s[i2] == RBRACK {
        let empty_side: Vec<Level> = Vec::new();
        return Ok((empty_side, i2 + 1));
    }
    let mut acc: Vec<Level> = Vec::new();
    let mut pos: usize = i1 + 1;
    loop
        invariant
            from < pos <= s@.len(),
            parse_items(s@, (i1 + 1) as int, ex, Seq::<Level>::empty()) == parse_items(
                s@,
                pos as int,
                ex,
                acc@,
            ),
            forall|k: int|
                0 <= k < acc@.len() ==> (#[trigger] acc@[k]).wf() && acc@[k].exchange == ex,
        decreases s@.len() - pos,
    {
        let (l, j) = match read_pair(s, pos, ex) {
            Ok(x) => x,
            Err(e) => {
                return Err(e);
            },
        };
        acc.push(l);
        let i3 = ws_from(s, j);
        if i3 < s.len() && s[i3] == RBRACK {
            return Ok((acc, i3 + 1));
        }
        if i3 < s.len() && s[i3] == COMMA {
            pos = i3 + 1;
        } else {
            return Err(ParseError);
        }
    }
}

/// Reads the members of a depth object from just past its `{`;
/// exactly `parse_book_members` with nothing seen yet.
#[verifier::loop_isolation(false)]
pub fn read_book(s: &Vec<u8>, from: usize, ex: ExchangeId) -> (r: Result<
    (Vec<Level>, Vec<Level>, usize),
    ParseError,
>)
    requires
        from <= s@.len(),
    ensures
        match r {
            Ok((b, a, j)) => parse_book_members(s@, from as int, ex, None, None) == Some(
                (b@, a@, j as int),
            ) && from < j <= s@.len() && (forall|k: int|
                0 <= k < b@.len() ==> (#[trigger] b@[k]).wf() && b@[k].exchange == ex) && (forall|
                k: int,
            |
                0 <= k < a@.len() ==> (#[trigger] a@[k]).wf() && a@[k].exchange == ex),
            Err(_) => parse_book_members(s@, from as int, ex, None, None) is None,
        },
{
    let mut bids: Vec<Level> = Vec::new();
    let mut asks: Vec<Level> = Vec::new();
    let mut have_b = false;
    let mut have_a = false;
    let mut pos = from;
    loop
        invariant
            from <= pos <= s@.len(),
            parse_book_members(s@, from as int, ex, None, None) == parse_book_members(
                s@,
                pos as int,
                ex,
                if have_b {
                    Some(bids@)
                } else {
                    None
                },
                if have_a {
                    Some(asks@)
                } else {
                    None
                },
            ),
            forall|k: int|
                0 <= k < bids@.len() ==> (#[trigger] bids@[k]).wf() && bids@[k].exchange == ex,
            forall|k: int|
                0 <= k < asks@.len() ==> (#[trigger] asks@[k]).wf() && asks@[k].exchange == ex,
        decreases s@.len() - pos,
    {
        let i1 = ws_from(s, pos);
        if i1 >= s.len() || s[i1] != QUOTE {
            return Err(ParseError);
        }
        let e = match string_end_from(s, i1 + 1) {
            Some(e) => e,
            None => {
                return Err(ParseError);
            },
        };
        let i2 = ws_from(s, e + 1);
        if i2 >= s.len() || s[i2] != COLON {
            return Err(ParseError);
        }
        let vi = i2 + 1;
        let j: usize;
        if key_matches(s, i1 + 1, e, 98, 105, 100, 115) {
            if have_b {
                return Err(ParseError);
            }
            let (ls, jj) = match read_levels(s, vi, ex) {
                Ok(x) => x,
                Err(er) => {
                    return Err(er);
                },
            };
            bids = ls;
            have_b = true;
            j = jj;
        } else if key_matches(s, i1 + 1, e, 97, 115, 107, 115) {
            if have_a {
                return Err(ParseError);
            }
            let (ls, jj) = match read_levels(s, vi, ex) {
                Ok(x) => x,
                Err(er) => {
                    return Err(er);
                },
            };
            asks = ls;
            have_a = true;
            j = jj;
        } else {
            let vj = ws_from(s, vi);
            j = match value_end_from(s, vj) {
                Ok(x) => x,
                Err(er) => {
                    return Err(er);
                },
            };
        }
        let i3 = ws_from(s, j);
        if i3 < s.len() && s[i3] == RBRACE {
            if have_b && have_a {
                return Ok((bids, asks, i3 + 1));
            }
            return Err(ParseError);
        }
        if i3 < s.len() && s[i3] == COMMA {
            pos = i3 + 1;
        } else {
            return Err(ParseError);
        }
    }
}

/// Reads the members of the Bitstamp envelope from just past its `{`;
/// exactly `parse_outer_members` with nothing seen yet.
#[verifier::loop_isolation(false)]
pub fn read_outer(s: &Vec<u8>, from: usize, ex: ExchangeId) -> (r: Result<
    (Vec<Level>, Vec<Level>, usize),
    ParseError,
>)
    requires
        from <= s@.len(),
    ensures
        match r {
            Ok((b, a, j)) => parse_outer_members(s@, from as int, ex, None) == Some(
                (b@, a@, j as int),
            ) && from < j <= s@.len() && (forall|k: int|
                0 <= k < b@.len() ==> (#[trigger] b@[k]).wf() && b@[k].exchange == ex) && (forall|
                k: int,
            |
                0 <= k < a@.len() ==> (#[trigger] a@[k]).wf() && a@[k].exchange == ex),
            Err(_) => parse_outer_members(s@, from as int, ex, None) is None,
        },
{
    let mut bids: Vec<Level> = Vec::new();
    let mut asks: Vec<Level> = Vec::new();
    let mut have = false;
    let mut pos = from;
    loop
        invariant
            from <= pos <= s@.len(),
            parse_outer_members(s@, from as int, ex, None) == parse_outer_members(
                s@,
                pos as int,
                ex,
                if have {
                    Some((bids@, asks@))
                } else {
                    None
                },
            ),
            forall|k: int|
                0 <= k < bids@.len() ==> (#[trigger] bids@[k]).wf() && bids@[k].exchange == ex,
            forall|k: int|
                0 <= k < asks@.len() ==> (#[trigger] asks@[k]).wf() && asks@[k].exchange == ex,
        decreases s@.len() - pos,
    {
        let i1 = ws_from(s, pos);
        if i1 >= s.len() || s[i1] != QUOTE {
            return Err(ParseError);
        }
        let e = match string_end_from(s, i1 + 1) {
            Some(e) => e,
            None => {
                return Err(ParseError);
            },
        };
        let i2 = ws_from(s, e + 1);
        if i2 >= s.len() || s[i2] != COLON {
            return Err(ParseError);
        }
        let vi = i2 + 1;
        let j: usize;
        if key_matches(s, i1 + 1, e, 100, 97, 116, 97) {
            if have {
                return Err(ParseError);
            }
            let vi1 = ws_from(s, vi);
            if vi1 >= s.len() || s[vi1] != LBRACE {
                return Err(ParseError);
            }
            let (b2, a2, jj) = match read_book(s, vi1 + 1, ex) {
                Ok(x) => x,
                Err(er) => {
                    return Err(er);
                },
            };
            bids = b2;
            asks = a2;
            have = true;
            j = jj;
        } else {
            let vj = ws_from(s, vi);
            j = match value_end_from(s, vj) {
                Ok(x) => x,
                Err(er) => {
                    return Err(er);
                },
            };
        }
        let i3 = ws_from(s, j);
        if i3 < s.len() && s[i3] == RBRACE {
            if have {
                return Ok((bids, asks, i3 + 1));
            }
            return Err(ParseError);
        }
        if i3 < s.len() && s[i3] == COMMA {
            pos = i3 + 1;
        } else {
            return Err(ParseError);
        }
    }
}

/// Appends a copy of `src`.
#[verifier::loop_isolation(false)]
pub fn push_all(out: &mut Vec<u8>, src: &Vec<u8>)
    ensures
        final(out)@ == old(out)@ + src@,
{
    let mut i: usize = 0;
    while i < src.len()
        invariant
            0 <= i <= src@.len(),
            out@ == old(out)@ + src@.take(i as int),
        decreases src@.len() - i,
    {
        out.push(src[i]);
        proof {
            assert(src@.take(i + 1) =~= src@.take(i as int).push(src@[i as int]));
            assert(out@ =~= old(out)@ + src@.take(i + 1));
        }
        i = i + 1;
    }
    proof {
        assert(src@.take(src@.len() as int) =~= src@);
    }
}

/// Byte-for-byte equality of two buffers.
#[verifier::loop_isolation(false)]
pub fn bytes_eq(a: &Vec<u8>, b: &Vec<u8>) -> (r: bool)
    ensures
        r == (a@ == b@),
{
    if a.len() != b.len() {
        proof {
            assert(a@ != b@);
        }
        return false;
    }
    let mut i: usize = 0;
    while i < a.len()
        invariant
            0 <= i <= a@.len(),
            a@.len() == b@.len(),
            forall|k: int| 0 <= k < i ==> a@[k] == b@[k],
        decreases a@.len() - i,
    {
        if a[i] != b[i] {
            return false;
        }
        i = i + 1;
    }
    proof {
        assert(a@ =~= b@);
    }
    true
}

/// The canonical form of one pair: `["price","amount"]`, both in the
/// eight-fractional-digit decimal form.
pub open spec fn enc_pair(l: Level) -> Seq<u8> {
    seq![91u8, 34u8] + spec_format_decimal(l.price as int) + seq![34u8, 44u8, 34u8]
        + spec_format_decimal(l.amount as int) + seq![34u8, 93u8]
}

/// The pairs of one side, comma-separated.
pub open spec fn enc_items(ls: Seq<Level>) -> Seq<u8>
    decreases ls.len(),
{
    if ls.len() == 0 {
        Seq::<u8>::empty()
    } else if ls.len() == 1 {
        enc_pair(ls[0])
    } else {
        enc_items(ls.drop_last()) + seq![44u8] + enc_pair(ls.last())
    }
}

/// The canonical `[ ... ]` form of one side.
pub open spec fn enc_levels(ls: Seq<Level>) -> Seq<u8> {
    seq![91u8] + enc_items(ls) + seq![93u8]
}

fn encode_pair_into(out: &mut Vec<u8>, l: &Level)
    ensures
        final(out)@ == old(out)@ + enc_pair(*l),
{
    out.push(91);
    out.push(34);
    let mut p = format_decimal(l.price);
    out.append(&mut p);
    out.push(34);
    out.push(44);
    out.push(34);
    let mut a = format_decimal(l.amount);
    out.append(&mut a);
    out.push(34);
    out.push(93);
    proof {
        assert(out@ =~= old(out)@ + enc_pair(*l));
    }
}

/// Writes one side back in its canonical array form.
#[verifier::loop_isolation(false)]
pub fn encode_levels_into(out: &mut Vec<u8>, ls: &Vec<Level>)
    ensures
        final(out)@ == old(out)@ + enc_levels(ls@),
{
    out.push(91);
    let mut i: usize = 0;
    proof {
        assert(ls@.take(0) =~= Seq::<Level>::empty());
    }
    while i < ls.len()
        invariant
            0 <= i <= ls@.len(),
            out@ == old(out)@ + seq![91u8] + enc_items(ls@.take(i as int)),
        decreases ls@.len() - i,
    {
        if i > 0 {
            out.push(44);
        }
        let l = ls[i];
        encode_pair_into(out, &l);
        proof {
            assert(ls@.take(i + 1).drop_last() =~= ls@.take(i as int));
            assert(ls@.take(i + 1).last() == ls@[i as int]);
            assert(out@ =~= old(out)@ + seq![91u8] + enc_items(ls@.take(i + 1)));
        }
        i = i + 1;
    }
    out.push(93);
    proof {
        assert(ls@.take(ls@.len() as int) =~= ls@);
        assert(out@ =~= old(out)@ + enc_levels(ls@));
    }
}

/// The canonical depth object: `{"bids":[...],"asks":[...]}`.
pub open spec fn enc_book(b: Seq<Level>, a: Seq<Level>) -> Seq<u8> {
    seq![123u8, 34u8] + bids_key() + seq![34u8, 58u8] + enc_levels(b) + seq![44u8, 34u8]
        + asks_key() + seq![34u8, 58u8] + enc_levels(a) + seq![125u8]
}

/// Writes the canonical depth object for the two sides.
pub fn encode_book_into(out: &mut Vec<u8>, bids: &Vec<Level>, asks: &Vec<Level>)
    ensures
        final(out)@ == old(out)@ + enc_book(bids@, asks@),
{
    out.push(123);
    out.push(34);
    out.push(98);
    out.push(105);
    out.push(100);
    out.push(115);
    out.push(34);
    out.push(58);
    encode_levels_into(out, bids);
    out.push(44);
    out.push(34);
    out.push(97);
    out.push(115);
    out.push(107);
    out.push(115);
    out.push(34);
    out.push(58);
    encode_levels_into(out, asks);
    out.push(125);
    proof {
        assert(out@ =~= old(out)@ + enc_book(bids@, asks@));
    }
}

/// A scan over bytes that are neither quote nor backslash stops at
/// the first quote after them.
proof fn lemma_scan_plain(s: Seq<u8>, i: int, e: int)
    requires
        0 <= i <= e < s.len(),
        forall|k: int| i <= k < e ==> s[k] != QUOTE && s[k] != BACKSLASH,
        s[e] == QUOTE,
    ensures
        scan_string_end(s, i) == e,
    decreases e - i,
{
    if i < e {
        lemma_scan_plain(s, i + 1, e);
    }
}

/// Parsing at the canonical encoding of one pair yields exactly that
/// pair's level.
proof fn lemma_parse_pair_enc(s: Seq<u8>, i: int, l: Level, ex: ExchangeId)
    requires
        0 <= i,
        i + enc_pair(l).len() <= s.len(),
        s.subrange(i, i + enc_pair(l).len()) == enc_pair(l),
        l.wf(),
        l.exchange == ex,
    ensures
        parse_pair(s, i, ex) == Some((l, i + enc_pair(l).len())),
{
    let w = enc_pair(l);
    let pd = spec_format_decimal(l.price as int);
    let ad = spec_format_decimal(l.amount as int);
    let p = pd.len() as int;
    let a = ad.len() as int;
    crate::decimal::lemma_format_decimal_shape(l.price);
    crate::decimal::lemma_format_decimal_shape(l.amount);
    crate::decimal::lemma_decimal_round_trip(l.price);
    crate::decimal::lemma_decimal_round_trip(l.amount);
    assert(w.len() == 7 + p + a);
    assert forall|k: int| 0 <= k < w.len() implies s[i + k] == w[k] by {
        assert(s.subrange(i, i + w.len())[k] == s[i + k]);
    }
    assert(w[0] == 91 && w[1] == 34);
    assert forall|k: int| 0 <= k < p implies w[2 + k] == pd[k] by {}
    assert(w[2 + p] == 34 && w[3 + p] == 44 && w[4 + p] == 34);
    assert forall|k: int| 0 <= k < a implies w[5 + p + k] == ad[k] by {}
    assert(w[5 + p + a] == 34 && w[6 + p + a] == 93);
    // The scanners stop exactly where the canonical form puts them.
    assert(skip_ws(s, i) == i);
    assert(skip_ws(s, i + 1) == i + 1);
    assert forall|k: int| i + 2 <= k < i + 2 + p implies s[k] != QUOTE && s[k] != BACKSLASH by {
        assert(s[k] == pd[k - i - 2]);
        assert(crate::decimal::is_digit(pd[k - i - 2]) || pd[k - i - 2] == 46);
    }
    lemma_scan_plain(s, i + 2, i + 2 + p);
    assert(s.subrange(i + 2, i + 2 + p) =~= pd);
    assert(skip_ws(s, i + 3 + p) == i + 3 + p);
    assert(skip_ws(s, i + 4 + p) == i + 4 + p);
    assert forall|k: int| i + 5 + p <= k < i + 5 + p + a implies s[k] != QUOTE && s[k]
        != BACKSLASH by {
        assert(s[k] == ad[k - i - 5 - p]);
        assert(crate::decimal::is_digit(ad[k - i - 5 - p]) || ad[k - i - 5 - p] == 46);
    }
    lemma_scan_plain(s, i + 5 + p, i + 5 + p + a);
    assert(s.subrange(i + 5 + p, i + 5 + p + a) =~= ad);
    assert(skip_ws(s, i + 6 + p + a) == i + 6 + p + a);
    assert(parse_pair(s, i, ex) == Some((Level { exchange: ex, price: l.price, amount: l.amount },
    i + 7 + p + a)));
    assert(Level { exchange: ex, price: l.price, amount: l.amount } == l);
}

/// `enc_items` seen from the front: the first pair, a comma, the rest.
proof fn lemma_enc_items_cons(ls: Seq<Level>)
    requires
        ls.len() >= 2,
    ensures
        enc_items(ls) == enc_pair(ls[0]) + seq![44u8] + enc_items(ls.drop_first()),
    decreases ls.len(),
{
    if ls.len() == 2 {
        assert(ls.drop_last().len() == 1);
        assert(ls.drop_last()[0] == ls[0]);
        assert(enc_items(ls.drop_last()) == enc_pair(ls[0]));
        assert(ls.drop_first().len() == 1);
        assert(ls.drop_first()[0] == ls[1]);
        assert(enc_items(ls.drop_first()) == enc_pair(ls[1]));
        assert(ls.last() == ls[1]);
        assert(enc_items(ls) =~= enc_pair(ls[0]) + seq![44u8] + enc_items(ls.drop_first()));
    } else {
        lemma_enc_items_cons(ls.drop_last());
        assert(ls.drop_last().drop_first() =~= ls.drop_first().drop_last());
        assert(ls.drop_last()[0] == ls[0]);
        assert(ls.drop_first().len() >= 2);
        assert(enc_items(ls.drop_first()) == enc_items(ls.drop_first().drop_last()) + seq![44u8]
            + enc_pair(ls.drop_first().last()));
        assert(ls.drop_first().last() == ls.last());
        assert(enc_items(ls) =~= enc_pair(ls[0]) + seq![44u8] + enc_items(ls.drop_first()));
    }
}

/// A non-empty side's encoding starts with its first pair's bracket.
proof fn lemma_enc_items_first(ls: Seq<Level>)
    requires
        ls.len() >= 1,
    ensures
        enc_items(ls).len() >= 1,
        enc_items(ls)[0] == 91,
{
    if ls.len() == 1 {
        assert(enc_items(ls) == enc_pair(ls[0]));
    } else {
        lemma_enc_items_cons(ls);
        assert(enc_items(ls)[0] == enc_pair(ls[0])[0]);
    }
}

/// Parsing the items at the canonical encoding of a non-empty side
/// appends exactly that side's levels.
proof fn lemma_parse_items_enc(s: Seq<u8>, i: int, ls: Seq<Level>, ex: ExchangeId, acc: Seq<Level>)
    requires
        0 <= i,
        ls.len() >= 1,
        i + enc_items(ls).len() < s.len(),
        s.subrange(i, i + enc_items(ls).len()) == enc_items(ls),
        s[i + enc_items(ls).len()] == RBRACK,
        forall|k: int| 0 <= k < ls.len() ==> (#[trigger] ls[k]).wf() && ls[k].exchange == ex,
    ensures
        parse_items(s, i, ex, acc) == Some((acc + ls, i + enc_items(ls).len() + 1)),
    decreases ls.len(),
{
    let w = enc_items(ls);
    assert forall|k: int| 0 <= k < w.len() implies s[i + k] == w[k] by {
        assert(s.subrange(i, i + w.len())[k] == s[i + k]);
    }
    if ls.len() == 1 {
        assert(w == enc_pair(ls[0]));
        assert(s.subrange(i, i + enc_pair(ls[0]).len()) == enc_pair(ls[0]));
        lemma_parse_pair_enc(s, i, ls[0], ex);
        let j = i + enc_pair(ls[0]).len();
        assert(skip_ws(s, j) == j);
        assert(acc.push(ls[0]) =~= acc + ls);
    } else {
        lemma_enc_items_cons(ls);
        let pw = enc_pair(ls[0]);
        let rest = enc_items(ls.drop_first());
        assert forall|k: int| 0 <= k < pw.len() implies s.subrange(i, i + pw.len())[k]
            == pw[k] by {
            assert(w[k] == pw[k]);
        }
        assert(s.subrange(i, i + pw.len()) =~= pw);
        lemma_parse_pair_enc(s, i, ls[0], ex);
        let j = i + pw.len();
        assert(s[j] == w[pw.len() as int]);
        assert(w[pw.len() as int] == 44);
        assert(skip_ws(s, j) == j);
        assert forall|k: int| 0 <= k < rest.len() implies s.subrange(
            j + 1,
            j + 1 + rest.len(),
        )[k] == rest[k] by {
            assert(w[pw.len() + 1 + k] == rest[k]);
            assert(s[j + 1 + k] == w[pw.len() + 1 + k]);
        }
        assert(s.subrange(j + 1, j + 1 + rest.len()) =~= rest);
        assert(s[j + 1 + rest.len()] == RBRACK);
        assert(forall|k: int|
            0 <= k < ls.drop_first().len() ==> (#[trigger] ls.drop_first()[k]).wf()
                && ls.drop_first()[k].exchange == ex);
        lemma_parse_items_enc(s, j + 1, ls.drop_first(), ex, acc.push(ls[0]));
        assert(acc.push(ls[0]) + ls.drop_first() =~= acc + ls);
        assert(i + enc_items(ls).len() + 1 == j + 1 + rest.len() + 1);
    }
}

/// Parsing at the canonical encoding of one side yields exactly that
/// side.
proof fn lemma_parse_levels_enc(s: Seq<u8>, i: int, ls: Seq<Level>, ex: ExchangeId)
    requires
        0 <= i,
        i + enc_levels(ls).len() <= s.len(),
        s.subrange(i, i + enc_levels(ls).len()) == enc_levels(ls),
        forall|k: int| 0 <= k < ls.len() ==> (#[trigger] ls[k]).wf() && ls[k].exchange == ex,
    ensures
        parse_levels(s, i, ex) == Some((ls, i + enc_levels(ls).len())),
{
    let w = enc_levels(ls);
    assert forall|k: int| 0 <= k < w.len() implies s[i + k] == w[k] by {
        assert(s.subrange(i, i + w.len())[k] == s[i + k]);
    }
    assert(w[0] == 91);
    assert(skip_ws(s, i) == i);
    if ls.len() == 0 {
        assert(w[1] == 93);
        assert(skip_ws(s, i + 1) == i + 1);
        assert(parse_levels(s, i, ex) == Some((Seq::<Level>::empty(), i + 2)));
        assert(Seq::<Level>::empty() =~= ls);
    } else {
        lemma_enc_items_first(ls);
        assert(w[1] == enc_items(ls)[0]);
        assert(s[i + 1] == 91);
        assert(skip_ws(s, i + 1) == i + 1);
        let rest = enc_items(ls);
        assert forall|k: int| 0 <= k < rest.len() implies s.subrange(
            i + 1,
            i + 1 + rest.len(),
        )[k] == rest[k] by {
            assert(w[1 + k] == rest[k]);
            assert(s[i + 1 + k] == w[1 + k]);
        }
        assert(s.subrange(i + 1, i + 1 + rest.len()) =~= rest);
        assert(s[i + 1 + rest.len() as int] == w[1 + rest.len() as int]);
        assert(w[1 + rest.len() as int] == 93);
        lemma_parse_items_enc(s, i + 1, ls, ex, Seq::<Level>::empty());
        assert(Seq::<Level>::empty() + ls =~= ls);
        assert(i + 1 + rest.len() + 1 == i + w.len());
    }
}

/// A short all-letters key closes at the quote right after it.
pub proof fn lemma_scan_plain_keys(s: Seq<u8>, i: int, e: int)
    requires
        0 <= i <= e < s.len(),
        forall|k: int| i <= k < e ==> s[k] != QUOTE && s[k] != BACKSLASH,
        s[e] == QUOTE,
    ensures
        scan_string_end(s, i) == e,
{
    lemma_scan_plain(s, i, e);
}

/// Parsing the members at the canonical depth object recovers both
/// sides exactly.
#[verifier::rlimit(100)]
pub proof fn lemma_parse_book_enc(s: Seq<u8>, i: int, b: Seq<Level>, a: Seq<Level>, ex: ExchangeId)
    requires
        0 <= i,
        i + enc_book(b, a).len() <= s.len(),
        s.subrange(i, i + enc_book(b, a).len()) == enc_book(b, a),
        forall|k: int| 0 <= k < b.len() ==> (#[trigger] b[k]).wf() && b[k].exchange == ex,
        forall|k: int| 0 <= k < a.len() ==> (#[trigger] a[k]).wf() && a[k].exchange == ex,
    ensures
        parse_book_members(s, i + 1, ex, None, None) == Some(
            (b, a, i + enc_book(b, a).len() as int),
        ),
{
    let w = enc_book(b, a);
    let lb = enc_levels(b);
    let la = enc_levels(a);
    let p = lb.len() as int;
    let q = la.len() as int;
    assert(w.len() == 17 + p + q);
    assert forall|k: int| 0 <= k < w.len() implies s[i + k] == w[k] by {
        assert(s.subrange(i, i + w.len())[k] == s[i + k]);
    }
    assert(w[0] == 123 && w[1] == 34);
    assert(w[2] == 98 && w[3] == 105 && w[4] == 100 && w[5] == 115);
    assert(w[6] == 34 && w[7] == 58);
    assert forall|k: int| 0 <= k < p implies w[8 + k] == lb[k] by {}
    assert(w[8 + p] == 44 && w[9 + p] == 34);
    assert(w[10 + p] == 97 && w[11 + p] == 115 && w[12 + p] == 107 && w[13 + p] == 115);
    assert(w[14 + p] == 34 && w[15 + p] == 58);
    assert forall|k: int| 0 <= k < q implies w[16 + p + k] == la[k] by {}
    assert(w[16 + p + q] == 125);
    // First member: the bids key and its array.
    assert(skip_ws(s, i + 1) == i + 1);
    lemma_scan_plain(s, i + 2, i + 6);
    assert(s.subrange(i + 2, i + 6) =~= bids_key());
    assert(skip_ws(s, i + 7) == i + 7);
    assert(s.subrange(i + 8, i + 8 + p) =~= lb) by {
        assert forall|k: int| 0 <= k < p implies s.subrange(i + 8, i + 8 + p)[k] == lb[k] by {
            assert(s[i + 8 + k] == w[8 + k]);
        }
    }
    lemma_parse_levels_enc(s, i + 8, b, ex);
    let j1 = i + 8 + p;
    assert(s[j1] == 44);
    assert(skip_ws(s, j1) == j1);
    // Second member: the asks key and its array.
    assert(skip_ws(s, j1 + 1) == j1 + 1);
    lemma_scan_plain(s, j1 + 2, j1 + 6);
    assert(s.subrange(j1 + 2, j1 + 6) =~= asks_key());
    assert(asks_key() != bids_key()) by {
        assert(asks_key()[0] == 97 && bids_key()[0] == 98);
    }
    assert(skip_ws(s, j1 + 7) == j1 + 7);
    assert(s.subrange(j1 + 8, j1 + 8 + q) =~= la) by {
        assert forall|k: int| 0 <= k < q implies s.subrange(j1 + 8, j1 + 8 + q)[k] == la[k] by {
            assert(s[j1 + 8 + k] == w[16 + p + (k - 8) + 8]);
        }
    }
    lemma_parse_levels_enc(s, j1 + 8, a, ex);
    let j2 = j1 + 8 + q;
    assert(s[j2] == 125);
    assert(skip_ws(s, j2) == j2);
    assert(parse_book_more(s, j2, ex, Some(b), Some(a)) == Some((b, a, j2 + 1)));
    assert(parse_book_members(s, j1 + 1, ex, Some(b), None) == Some((b, a, j2 + 1)));
    assert(parse_book_more(s, j1, ex, Some(b), None) == Some((b, a, j2 + 1)));
    assert(parse_book_members(s, i + 1, ex, None, None) == Some((b, a, j2 + 1)));
}

} // verus!
