//! The two structured schemas: a strict object `{"comments": [...]}` and a
//! bare array of the same record shape. Validation is strict: an unknown or
//! duplicated field, a malformed literal, or trailing content refuses the
//! whole output. Records list their fields as `file, line, column, code,
//! level, message, endLine, endColumn, fix`, a fix holds `replacements`,
//! and a replacement holds `line, endLine, column, endColumn,
//! insertionPoint, precedence, replacement`; fields may arrive in any order.

use crate::comment::Comment;
use crate::comment::CommentModel;
use crate::comment::Fix;
use crate::comment::FixModel;
use crate::comment::InsertionPoint;
use crate::comment::Level;
use crate::comment::Replacement;
use crate::comment::ReplacementModel;
use crate::num::digits_end;
use crate::num::digits_val;
use crate::num::dec_of;
use crate::num::is_digit;
use vstd::prelude::*;

verus! {

/// JSON whitespace.
pub open spec fn is_ws(b: u8) -> bool {
    b == 32 || b == 9 || b == 10 || b == 13
}

/// First position at or after `p` that holds no whitespace.
pub open spec fn ws_end(s: Seq<u8>, p: int) -> int
    decreases s.len() - p,
{
    if 0 <= p < s.len() && is_ws(s[p]) {
        ws_end(s, p + 1)
    } else {
        p
    }
}

/// `ws_end` stays in range and skips only whitespace.
pub proof fn lemma_ws_end(s: Seq<u8>, p: int)
    requires
        0 <= p <= s.len(),
    ensures
        p <= ws_end(s, p) <= s.len(),
        ws_end(s, p) < s.len() ==> !is_ws(s[ws_end(s, p)]),
        forall|k: int| p <= k < ws_end(s, p) ==> is_ws(s[k]),
    decreases s.len() - p,
{
    if 0 <= p < s.len() && is_ws(s[p]) {
        lemma_ws_end(s, p + 1);
    }
}

/// First position at or after `p` that holds no whitespace.
pub fn ws_end_at(s: &Vec<u8>, p: usize) -> (r: usize)
    requires
        p <= s@.len(),
    ensures
        r == ws_end(s@, p as int),
{
    let mut i: usize = p;
    while i < s.len() && (s[i] == 32 || s[i] == 9 || s[i] == 10 || s[i] == 13)
        invariant
            p <= i <= s@.len(),
            ws_end(s@, p as int) == ws_end(s@, i as int),
        decreases s@.len() - i,
    {
        i = i + 1;
    }
    i
}

/// Value of a hexadecimal digit, or `16` for anything else.
pub open spec fn hex_val(b: u8) -> int {
    if 48 <= b <= 57 {
        b - 48
    } else if 97 <= b <= 102 {
        b - 87
    } else if 65 <= b <= 70 {
        b - 55
    } else {
        16
    }
}

/// Value of the four hexadecimal digits at `p`, or `None`.
pub open spec fn hex4(s: Seq<u8>, p: int) -> Option<int> {
    if 0 <= p && p + 4 <= s.len() && hex_val(s[p]) < 16 && hex_val(s[p + 1]) < 16 && hex_val(
        s[p + 2],
    ) < 16 && hex_val(s[p + 3]) < 16 {
        Option::Some(
            hex_val(s[p]) * 4096 + hex_val(s[p + 1]) * 256 + hex_val(s[p + 2]) * 16 + hex_val(
                s[p + 3],
            ),
        )
    } else {
        Option::None
    }
}

/// Value of the four hexadecimal digits at `p`, or `None`.
pub fn hex4_at(s: &Vec<u8>, p: usize) -> (r: Option<u32>)
    requires
        p <= s@.len(),
    ensures
        match r {
            Option::Some(v) => hex4(s@, p as int) == Option::Some(v as int) && v < 0x10000,
            Option::None => hex4(s@, p as int) matches Option::None,
        },
{
    let n: usize = s.len();
    if p > n || n - p < 4 {
        return Option::None;
    }
    let d0 = match hex_digit(s[p]) {
        Option::None => {
            return Option::None;
        },
        Option::Some(d) => d,
    };
    let d1 = match hex_digit(s[p + 1]) {
        Option::None => {
            return Option::None;
        },
        Option::Some(d) => d,
    };
    let d2 = match hex_digit(s[p + 2]) {
        Option::None => {
            return Option::None;
        },
        Option::Some(d) => d,
    };
    let d3 = match hex_digit(s[p + 3]) {
        Option::None => {
            return Option::None;
        },
        Option::Some(d) => d,
    };
    Option::Some(d0 as u32 * 4096 + d1 as u32 * 256 + d2 as u32 * 16 + d3 as u32)
}

/// Value of one hexadecimal digit.
fn hex_digit(b: u8) -> (r: Option<u8>)
    ensures
        match r {
            Option::Some(d) => hex_val(b) == d && d < 16,
            Option::None => hex_val(b) == 16,
        },
{
    if 48 <= b && b <= 57 {
        Option::Some(b - 48)
    } else if 97 <= b && b <= 102 {
        Option::Some(b - 87)
    } else if 65 <= b && b <= 70 {
        Option::Some(b - 55)
    } else {
        Option::None
    }
}

/// UTF-8 bytes of code point `cp`.
pub open spec fn utf8_enc(cp: int) -> Seq<u8> {
    if cp < 0x80 {
        seq![cp as u8]
    } else if cp < 0x800 {
        seq![(192 + cp / 64) as u8, (128 + cp % 64) as u8]
    } else if cp < 0x10000 {
        seq![(224 + cp / 4096) as u8, (128 + (cp / 64) % 64) as u8, (128 + cp % 64) as u8]
    } else {
        seq![
            (240 + cp / 262144) as u8,
            (128 + (cp / 4096) % 64) as u8,
            (128 + (cp / 64) % 64) as u8,
            (128 + cp % 64) as u8,
        ]
    }
}

/// Push the UTF-8 bytes of `cp` onto `v`.
pub fn push_utf8(v: &mut Vec<u8>, cp: u32)
    requires
        cp < 0x110000,
    ensures
        final(v)@ == old(v)@ + utf8_enc(cp as int),
{
    let ghost pre = v@;
    if cp < 0x80 {
        v.push(cp as u8);
    } else if cp < 0x800 {
        v.push(192 + (cp / 64) as u8);
        v.push(128 + (cp % 64) as u8);
    } else if cp < 0x10000 {
        v.push(224 + (cp / 4096) as u8);
        v.push(128 + ((cp / 64) % 64) as u8);
        v.push(128 + (cp % 64) as u8);
    } else {
        v.push(240 + (cp / 262144) as u8);
        v.push(128 + ((cp / 4096) % 64) as u8);
        v.push(128 + ((cp / 64) % 64) as u8);
        v.push(128 + (cp % 64) as u8);
    }
    proof {
        assert(v@ =~= pre + utf8_enc(cp as int));
    }
}

/// Decode a string literal's body from `p` (just inside the opening quote)
/// to its closing quote: the decoded bytes and the position after the
/// quote. Escapes cover the JSON short forms and `\u`, with surrogate
/// pairs; a raw control byte or a bad escape refuses the string.
pub open spec fn parse_string_body(s: Seq<u8>, p: int) -> Option<(Seq<u8>, int)>
    decreases s.len() - p,
{
    if !(0 <= p < s.len()) {
        Option::None
    } else {
        let b = s[p];
        if b == 34 {
            Option::Some((Seq::empty(), p + 1))
        } else if b == 92 {
            if p + 1 >= s.len() {
                Option::None
            } else {
                let e = s[p + 1];
                if e == 117 {
                    match hex4(s, p + 2) {
                        Option::None => Option::None,
                        Option::Some(cp) => {
                            if 0xD800 <= cp < 0xDC00 {
                                if p + 12 <= s.len() && s[p + 6] == 92 && s[p + 7] == 117 {
                                    match hex4(s, p + 8) {
                                        Option::None => Option::None,
                                        Option::Some(lo) => {
                                            if 0xDC00 <= lo < 0xE000 {
                                                let full = 0x10000 + (cp - 0xD800) * 1024 + (lo
                                                    - 0xDC00);
                                                match parse_string_body(s, p + 12) {
                                                    Option::None => Option::None,
                                                    Option::Some((t, np)) => Option::Some(
                                                        (utf8_enc(full) + t, np),
                                                    ),
                                                }
                                            } else {
                                                Option::None
                                            }
                                        },
                                    }
                                } else {
                                    Option::None
                                }
                            } else if 0xDC00 <= cp < 0xE000 {
                                Option::None
                            } else {
                                match parse_string_body(s, p + 6) {
                                    Option::None => Option::None,
                                    Option::Some((t, np)) => Option::Some((utf8_enc(cp) + t, np)),
                                }
                            }
                        },
                    }
                } else {
                    let u: u8 = if e == 34 {
                        34
                    } else if e == 92 {
                        92
                    } else if e == 47 {
                        47
                    } else if e == 98 {
                        8
                    } else if e == 102 {
                        12
                    } else if e == 110 {
                        10
                    } else if e == 114 {
                        13
                    } else if e == 116 {
                        9
                    } else {
                        0
                    };
                    if u == 0 {
                        Option::None
                    } else {
                        match parse_string_body(s, p + 2) {
                            Option::None => Option::None,
                            Option::Some((t, np)) => Option::Some((seq![u] + t, np)),
                        }
                    }
                }
            }
        } else if b < 32 {
            Option::None
        } else {
            match parse_string_body(s, p + 1) {
                Option::None => Option::None,
                Option::Some((t, np)) => Option::Some((seq![b] + t, np)),
            }
        }
    }
}

/// Where string decoding succeeds it consumes at least one byte and stays
/// within the input.
pub proof fn lemma_parse_string_advances(s: Seq<u8>, p: int)
    requires
        0 <= p,
        parse_string_body(s, p) matches Option::Some(_),
    ensures
        parse_string_body(s, p) matches Option::Some(r) && p < r.1 <= s.len(),
    decreases s.len() - p,
{
    let b = s[p];
    if b == 34 {
    } else if b == 92 {
        let e = s[p + 1];
        if e == 117 {
            match hex4(s, p + 2) {
                Option::None => {},
                Option::Some(cp) => {
                    if 0xD800 <= cp < 0xDC00 {
                        lemma_parse_string_advances(s, p + 12);
                    } else if 0xDC00 <= cp < 0xE000 {
                    } else {
                        lemma_parse_string_advances(s, p + 6);
                    }
                },
            }
        } else {
            lemma_parse_string_advances(s, p + 2);
        }
    } else {
        lemma_parse_string_advances(s, p + 1);
    }
}

/// Decode the string literal body beginning at `p`, as `parse_string_body`
/// says.
pub fn parse_string_at(s: &Vec<u8>, p: usize) -> (r: Option<(Vec<u8>, usize)>)
    requires
        p <= s@.len(),
    ensures
        match r {
            Option::Some(v) => parse_string_body(s@, p as int) == Option::Some((v.0@, v.1 as int))
                && p < v.1 <= s@.len(),
            Option::None => parse_string_body(s@, p as int) matches Option::None,
        },
{
    let n: usize = s.len();
    let mut acc: Vec<u8> = Vec::new();
    let mut i: usize = p;
    loop
        invariant
            p <= i <= n,
            n == s@.len(),
            parse_string_body(s@, p as int) == (match parse_string_body(s@, i as int) {
                Option::None => Option::None::<(Seq<u8>, int)>,
                Option::Some(t) => Option::Some((acc@ + t.0, t.1)),
            }),
        decreases n - i,
    {
        if i >= n {
            return Option::None;
        }
        let b = s[i];
        if b == 34 {
            proof {
                assert(acc@ + Seq::<u8>::empty() =~= acc@);
                lemma_parse_string_advances(s@, p as int);
            }
            return Option::Some((acc, i + 1));
        } else if b == 92 {
            if i + 1 >= n {
                return Option::None;
            }
            let e = s[i + 1];
            if e == 117 {
                let cp = match hex4_at(s, i + 2) {
                    Option::None => {
                        return Option::None;
                    },
                    Option::Some(cp) => cp,
                };
                if 0xD800 <= cp && cp < 0xDC00 {
                    if !(n - i >= 12 && s[i + 6] == 92 && s[i + 7] == 117) {
                        return Option::None;
                    }
                    let lo = match hex4_at(s, i + 8) {
                        Option::None => {
                            return Option::None;
                        },
                        Option::Some(lo) => lo,
                    };
                    if !(0xDC00 <= lo && lo < 0xE000) {
                        return Option::None;
                    }
                    let full: u32 = 0x10000 + (cp - 0xD800) * 1024 + (lo - 0xDC00);
                    let ghost pre = acc@;
                    push_utf8(&mut acc, full);
                    proof {
                        lemma_compose_units(s@, p as int, i as int, i + 12, pre, utf8_enc(
                            full as int,
                        ));
                    }
                    i = i + 12;
                } else if 0xDC00 <= cp && cp < 0xE000 {
                    return Option::None;
                } else {
                    let ghost pre = acc@;
                    push_utf8(&mut acc, cp);
                    proof {
                        lemma_compose_units(s@, p as int, i as int, i + 6, pre, utf8_enc(
                            cp as int,
                        ));
                    }
                    i = i + 6;
                }
            } else {
                let u: u8 = if e == 34 {
                    34
                } else if e == 92 {
                    92
                } else if e == 47 {
                    47
                } else if e == 98 {
                    8
                } else if e == 102 {
                    12
                } else if e == 110 {
                    10
                } else if e == 114 {
                    13
                } else if e == 116 {
                    9
                } else {
                    return Option::None;
                };
                let ghost pre = acc@;
                acc.push(u);
                proof {
                    assert(acc@ =~= pre + seq![u]);
                    lemma_compose_units(s@, p as int, i as int, i + 2, pre, seq![u]);
                }
                i = i + 2;
            }
        } else if b < 32 {
            return Option::None;
        } else {
            let ghost pre = acc@;
            acc.push(b);
            proof {
                assert(acc@ =~= pre + seq![b]);
                lemma_compose_units(s@, p as int, i as int, i + 1, pre, seq![b]);
            }
            i = i + 1;
        }
    }
}

/// Folding one decoded unit into the accumulator keeps the loop's
/// composition equation: if decoding from `i` yields `unit` then the rest
/// from `j`, then `acc + unit` plus the rest from `j` is the whole from `p`.
proof fn lemma_compose_units(s: Seq<u8>, p: int, i: int, j: int, acc: Seq<u8>, unit: Seq<u8>)
    requires
        parse_string_body(s, p) == (match parse_string_body(s, i) {
            Option::None => Option::None::<(Seq<u8>, int)>,
            Option::Some(t) => Option::Some((acc + t.0, t.1)),
        }),
        parse_string_body(s, i) == (match parse_string_body(s, j) {
            Option::None => Option::None::<(Seq<u8>, int)>,
            Option::Some(t) => Option::Some((unit + t.0, t.1)),
        }),
    ensures
        parse_string_body(s, p) == (match parse_string_body(s, j) {
            Option::None => Option::None::<(Seq<u8>, int)>,
            Option::Some(t) => Option::Some(((acc + unit) + t.0, t.1)),
        }),
{
    match parse_string_body(s, j) {
        Option::None => {},
        Option::Some(t) => {
            assert(acc + (unit + t.0) =~= (acc + unit) + t.0);
        },
    }
}

/// The name of an insertion point on the wire.
pub open spec fn ins_word(p: InsertionPoint) -> Seq<u8> {
    match p {
        InsertionPoint::AfterEnd => seq![97u8, 102u8, 116u8, 101u8, 114u8, 69u8, 110u8, 100u8],
        InsertionPoint::BeforeStart => seq![
            98u8,
            101u8,
            102u8,
            111u8,
            114u8,
            101u8,
            83u8,
            116u8,
            97u8,
            114u8,
            116u8,
        ],
    }
}

/// The name of an insertion point, as bytes.
pub fn ins_word_vec(p: InsertionPoint) -> (v: Vec<u8>)
    ensures
        v@ == ins_word(p),
{
    let v: Vec<u8> = match p {
        InsertionPoint::AfterEnd => vec![97, 102, 116, 101, 114, 69, 110, 100],
        InsertionPoint::BeforeStart => vec![98, 101, 102, 111, 114, 101, 83, 116, 97, 114, 116],
    };
    proof {
        assert(v@ =~= ins_word(p));
    }
    v
}

/// The level named `w`, where `note` counts only for the bare-array schema.
pub open spec fn level_of_name(w: Seq<u8>, allow_note: bool) -> Option<Level> {
    if w == crate::gcc::level_word(Level::Error) {
        Option::Some(Level::Error)
    } else if w == crate::gcc::level_word(Level::Warning) {
        Option::Some(Level::Warning)
    } else if w == crate::gcc::level_word(Level::Info) {
        Option::Some(Level::Info)
    } else if w == crate::gcc::level_word(Level::Style) {
        Option::Some(Level::Style)
    } else if allow_note && w == crate::gcc::level_word(Level::Note) {
        Option::Some(Level::Note)
    } else {
        Option::None
    }
}

/// The insertion point named `w`.
pub open spec fn ins_of_name(w: Seq<u8>) -> Option<InsertionPoint> {
    if w == ins_word(InsertionPoint::AfterEnd) {
        Option::Some(InsertionPoint::AfterEnd)
    } else if w == ins_word(InsertionPoint::BeforeStart) {
        Option::Some(InsertionPoint::BeforeStart)
    } else {
        Option::None
    }
}

/// A field of a record object.
#[derive(Clone, Copy, PartialEq, Eq, Structural, Debug)]
pub enum CKey {
    File,
    Line,
    Column,
    Code,
    Level,
    Message,
    EndLine,
    EndColumn,
    FixKey,
}

/// A field of a replacement object.
#[derive(Clone, Copy, PartialEq, Eq, Structural, Debug)]
pub enum RKey {
    Line,
    EndLine,
    Column,
    EndColumn,
    InsPoint,
    Precedence,
    ReplText,
}

pub open spec fn kw_file() -> Seq<u8> {
    seq![102u8, 105u8, 108u8, 101u8]
}

pub open spec fn kw_line() -> Seq<u8> {
    seq![108u8, 105u8, 110u8, 101u8]
}

pub open spec fn kw_column() -> Seq<u8> {
    seq![99u8, 111u8, 108u8, 117u8, 109u8, 110u8]
}

pub open spec fn kw_code() -> Seq<u8> {
    seq![99u8, 111u8, 100u8, 101u8]
}

pub open spec fn kw_level() -> Seq<u8> {
    seq![108u8, 101u8, 118u8, 101u8, 108u8]
}

pub open spec fn kw_message() -> Seq<u8> {
    seq![109u8, 101u8, 115u8, 115u8, 97u8, 103u8, 101u8]
}

pub open spec fn kw_end_line() -> Seq<u8> {
    seq![101u8, 110u8, 100u8, 76u8, 105u8, 110u8, 101u8]
}

pub open spec fn kw_end_column() -> Seq<u8> {
    seq![101u8, 110u8, 100u8, 67u8, 111u8, 108u8, 117u8, 109u8, 110u8]
}

pub open spec fn kw_fix() -> Seq<u8> {
    seq![102u8, 105u8, 120u8]
}

pub open spec fn kw_insertion_point() -> Seq<u8> {
    seq![
        105u8,
        110u8,
        115u8,
        101u8,
        114u8,
        116u8,
        105u8,
        111u8,
        110u8,
        80u8,
        111u8,
        105u8,
        110u8,
        116u8,
    ]
}

pub open spec fn kw_precedence() -> Seq<u8> {
    seq![112u8, 114u8, 101u8, 99u8, 101u8, 100u8, 101u8, 110u8, 99u8, 101u8]
}

pub open spec fn kw_replacement() -> Seq<u8> {
    seq![114u8, 101u8, 112u8, 108u8, 97u8, 99u8, 101u8, 109u8, 101u8, 110u8, 116u8]
}

pub open spec fn kw_replacements() -> Seq<u8> {
    seq![114u8, 101u8, 112u8, 108u8, 97u8, 99u8, 101u8, 109u8, 101u8, 110u8, 116u8, 115u8]
}

pub open spec fn kw_comments() -> Seq<u8> {
    seq![99u8, 111u8, 109u8, 109u8, 101u8, 110u8, 116u8, 115u8]
}

pub open spec fn kw_null() -> Seq<u8> {
    seq![110u8, 117u8, 108u8, 108u8]
}

/// Which record field the decoded key `w` names.
pub open spec fn ckey_of(w: Seq<u8>) -> Option<CKey> {
    if w == kw_file() {
        Option::Some(CKey::File)
    } else if w == kw_line() {
        Option::Some(CKey::Line)
    } else if w == kw_column() {
        Option::Some(CKey::Column)
    } else if w == kw_code() {
        Option::Some(CKey::Code)
    } else if w == kw_level() {
        Option::Some(CKey::Level)
    } else if w == kw_message() {
        Option::Some(CKey::Message)
    } else if w == kw_end_line() {
        Option::Some(CKey::EndLine)
    } else if w == kw_end_column() {
        Option::Some(CKey::EndColumn)
    } else if w == kw_fix() {
        Option::Some(CKey::FixKey)
    } else {
        Option::None
    }
}

/// Which replacement field the decoded key `w` names.
pub open spec fn rkey_of(w: Seq<u8>) -> Option<RKey> {
    if w == kw_line() {
        Option::Some(RKey::Line)
    } else if w == kw_end_line() {
        Option::Some(RKey::EndLine)
    } else if w == kw_column() {
        Option::Some(RKey::Column)
    } else if w == kw_end_column() {
        Option::Some(RKey::EndColumn)
    } else if w == kw_insertion_point() {
        Option::Some(RKey::InsPoint)
    } else if w == kw_precedence() {
        Option::Some(RKey::Precedence)
    } else if w == kw_replacement() {
        Option::Some(RKey::ReplText)
    } else {
        Option::None
    }
}

/// `null` occurs literally at `p`.
pub open spec fn null_at(s: Seq<u8>, p: int) -> bool {
    crate::gcc::has_seq_at(s, p, kw_null())
}

/// A decimal token for a record field: digits with no leading zero, fitting
/// the field.
pub open spec fn parse_u32_tok(s: Seq<u8>, p: int) -> Option<(int, int)> {
    if !(0 <= p <= s.len()) {
        Option::None
    } else {
        let de = digits_end(s, p);
        if de == p {
            Option::None
        } else if s[p] == 48 && de > p + 1 {
            Option::None
        } else {
            let v = digits_val(s.subrange(p, de));
            if v > u32::MAX {
                Option::None
            } else {
                Option::Some((v, de))
            }
        }
    }
}

/// Parse the decimal token at `p`, as `parse_u32_tok` says.
pub fn parse_u32_at(s: &Vec<u8>, p: usize) -> (r: Option<(u32, usize)>)
    requires
        p <= s@.len(),
    ensures
        match r {
            Option::Some(v) => parse_u32_tok(s@, p as int) == Option::Some((v.0 as int, v.1 as int))
                && p < v.1 <= s@.len(),
            Option::None => parse_u32_tok(s@, p as int) matches Option::None,
        },
{
    let de = crate::num::digits_end_at(s, p);
    proof {
        crate::num::lemma_digits_end(s@, p as int);
    }
    if de == p {
        return Option::None;
    }
    if s[p] == 48 && de > p + 1 {
        return Option::None;
    }
    match crate::num::parse_u32_digits(s, p, de) {
        Option::None => Option::None,
        Option::Some(v) => Option::Some((v, de)),
    }
}

/// A string-named level token: a quoted name.
pub open spec fn parse_level_tok(s: Seq<u8>, p: int, allow_note: bool) -> Option<(Level, int)> {
    if !(0 <= p < s.len() && s[p] == 34) {
        Option::None
    } else {
        match parse_string_body(s, p + 1) {
            Option::None => Option::None,
            Option::Some((w, np)) => match level_of_name(w, allow_note) {
                Option::None => Option::None,
                Option::Some(l) => Option::Some((l, np)),
            },
        }
    }
}

/// A string-named insertion point token: a quoted name.
pub open spec fn parse_ins_tok(s: Seq<u8>, p: int) -> Option<(InsertionPoint, int)> {
    if !(0 <= p < s.len() && s[p] == 34) {
        Option::None
    } else {
        match parse_string_body(s, p + 1) {
            Option::None => Option::None,
            Option::Some((w, np)) => match ins_of_name(w) {
                Option::None => Option::None,
                Option::Some(l) => Option::Some((l, np)),
            },
        }
    }
}

/// A quoted string token.
pub open spec fn parse_string_tok(s: Seq<u8>, p: int) -> Option<(Seq<u8>, int)> {
    if !(0 <= p < s.len() && s[p] == 34) {
        Option::None
    } else {
        parse_string_body(s, p + 1)
    }
}

/// The fields of a replacement object gathered so far.
pub ghost struct ReplAcc {
    pub line: Option<int>,
    pub end_line: Option<int>,
    pub column: Option<int>,
    pub end_column: Option<int>,
    pub ins: Option<InsertionPoint>,
    pub prec: Option<int>,
    pub text: Option<Seq<u8>>,
}

/// No replacement field seen yet.
pub open spec fn repl_acc_empty() -> ReplAcc {
    ReplAcc {
        line: Option::None,
        end_line: Option::None,
        column: Option::None,
        end_column: Option::None,
        ins: Option::None,
        prec: Option::None,
        text: Option::None,
    }
}

/// The finished replacement, once every mandatory field arrived.
pub open spec fn repl_acc_done(a: ReplAcc) -> Option<ReplacementModel> {
    match (a.line, a.end_line, a.column, a.end_column, a.ins, a.prec, a.text) {
        (
            Option::Some(l),
            Option::Some(el),
            Option::Some(c),
            Option::Some(ec),
            Option::Some(ip),
            Option::Some(pr),
            Option::Some(t),
        ) => Option::Some(
            ReplacementModel {
                line: l,
                end_line: el,
                column: c,
                end_column: ec,
                insertion_point: ip,
                precedence: pr,
                replacement: t,
            },
        ),
        _ => Option::None,
    }
}

/// One replacement field's value at `vs`, folded into the gathered fields:
/// refused where the field came twice or the value has the wrong shape.
pub open spec fn repl_step(s: Seq<u8>, vs: int, k: RKey, a: ReplAcc) -> Option<(ReplAcc, int)> {
    match k {
        RKey::Line => match (a.line, parse_u32_tok(s, vs)) {
            (Option::None, Option::Some((v, vp))) => Option::Some(
                (ReplAcc { line: Option::Some(v), ..a }, vp),
            ),
            _ => Option::None,
        },
        RKey::EndLine => match (a.end_line, parse_u32_tok(s, vs)) {
            (Option::None, Option::Some((v, vp))) => Option::Some(
                (ReplAcc { end_line: Option::Some(v), ..a }, vp),
            ),
            _ => Option::None,
        },
        RKey::Column => match (a.column, parse_u32_tok(s, vs)) {
            (Option::None, Option::Some((v, vp))) => Option::Some(
                (ReplAcc { column: Option::Some(v), ..a }, vp),
            ),
            _ => Option::None,
        },
        RKey::EndColumn => match (a.end_column, parse_u32_tok(s, vs)) {
            (Option::None, Option::Some((v, vp))) => Option::Some(
                (ReplAcc { end_column: Option::Some(v), ..a }, vp),
            ),
            _ => Option::None,
        },
        RKey::InsPoint => match (a.ins, parse_ins_tok(s, vs)) {
            (Option::None, Option::Some((v, vp))) => Option::Some(
                (ReplAcc { ins: Option::Some(v), ..a }, vp),
            ),
            _ => Option::None,
        },
        RKey::Precedence => match (a.prec, parse_u32_tok(s, vs)) {
            (Option::None, Option::Some((v, vp))) => Option::Some(
                (ReplAcc { prec: Option::Some(v), ..a }, vp),
            ),
            _ => Option::None,
        },
        RKey::ReplText => match (a.text, parse_string_tok(s, vs)) {
            (Option::None, Option::Some((v, vp))) => Option::Some(
                (ReplAcc { text: Option::Some(v), ..a }, vp),
            ),
            _ => Option::None,
        },
    }
}

/// Parse replacement fields from `p` (a key expected) until the closing
/// brace: keys in any order, each exactly once, none unknown, every one of
/// the seven present at the close.
#[verifier::opaque]
pub open spec fn parse_repl_fields(s: Seq<u8>, p: int, a: ReplAcc) -> Option<(ReplacementModel, int)>
    decreases s.len() - p,
{
    if !(0 <= p < s.len() && s[p] == 34) {
        Option::None
    } else {
        match parse_string_body(s, p + 1) {
            Option::None => Option::None,
            Option::Some((w, kp)) => {
                let q = ws_end(s, kp);
                if !(q < s.len() && s[q] == 58) {
                    Option::None
                } else {
                    let vs = ws_end(s, q + 1);
                    let step: Option<(ReplAcc, int)> = match rkey_of(w) {
                        Option::None => Option::None,
                        Option::Some(k) => repl_step(s, vs, k, a),
                    };
                    match step {
                        Option::None => Option::None,
                        Option::Some((a2, vp)) => {
                            let r = ws_end(s, vp);
                            if r < s.len() && s[r] == 44 {
                                let np = ws_end(s, r + 1);
                                if p < np <= s.len() {
                                    parse_repl_fields(s, np, a2)
                                } else {
                                    Option::None
                                }
                            } else if r < s.len() && s[r] == 125 {
                                match repl_acc_done(a2) {
                                    Option::None => Option::None,
                                    Option::Some(m) => Option::Some((m, r + 1)),
                                }
                            } else {
                                Option::None
                            }
                        },
                    }
                }
            },
        }
    }
}

/// A replacement object: `{`, its fields, `}`.
pub open spec fn parse_repl_obj(s: Seq<u8>, p: int) -> Option<(ReplacementModel, int)> {
    if !(0 <= p < s.len() && s[p] == 123) {
        Option::None
    } else {
        parse_repl_fields(s, ws_end(s, p + 1), repl_acc_empty())
    }
}

/// The items of a replacement array from the first item on.
pub open spec fn parse_repl_items(s: Seq<u8>, p: int) -> Option<(Seq<ReplacementModel>, int)>
    decreases s.len() - p,
{
    match parse_repl_obj(s, p) {
        Option::None => Option::None,
        Option::Some((m, vp)) => {
            let r = ws_end(s, vp);
            if r < s.len() && s[r] == 44 {
                let np = ws_end(s, r + 1);
                if p < np <= s.len() {
                    match parse_repl_items(s, np) {
                        Option::None => Option::None,
                        Option::Some((rest, e)) => Option::Some((seq![m] + rest, e)),
                    }
                } else {
                    Option::None
                }
            } else if r < s.len() && s[r] == 93 {
                Option::Some((seq![m], r + 1))
            } else {
                Option::None
            }
        },
    }
}

/// A replacement array: `[`, items or nothing, `]`.
pub open spec fn parse_repl_array(s: Seq<u8>, p: int) -> Option<(Seq<ReplacementModel>, int)> {
    if !(0 <= p < s.len() && s[p] == 91) {
        Option::None
    } else {
        let q = ws_end(s, p + 1);
        if q < s.len() && s[q] == 93 {
            Option::Some((Seq::empty(), q + 1))
        } else {
            parse_repl_items(s, q)
        }
    }
}

/// A fix object: `{"replacements": [...]}`, the one field mandatory, no
/// other accepted.
pub open spec fn parse_fix_obj(s: Seq<u8>, p: int) -> Option<(FixModel, int)> {
    if !(0 <= p < s.len() && s[p] == 123) {
        Option::None
    } else {
        let k = ws_end(s, p + 1);
        if !(k < s.len() && s[k] == 34) {
            Option::None
        } else {
            match parse_string_body(s, k + 1) {
                Option::None => Option::None,
                Option::Some((w, kp)) => {
                    if w != kw_replacements() {
                        Option::None
                    } else {
                        let q = ws_end(s, kp);
                        if !(q < s.len() && s[q] == 58) {
                            Option::None
                        } else {
                            match parse_repl_array(s, ws_end(s, q + 1)) {
                                Option::None => Option::None,
                                Option::Some((rs, vp)) => {
                                    let r = ws_end(s, vp);
                                    if r < s.len() && s[r] == 125 {
                                        Option::Some((FixModel { replacements: rs }, r + 1))
                                    } else {
                                        Option::None
                                    }
                                },
                            }
                        }
                    }
                },
            }
        }
    }
}

/// The fields of a record object gathered so far. For the optional fields
/// the outer option says whether the key arrived at all; the inner value is
/// what it carried (`null` carries nothing).
pub ghost struct CommentAcc {
    pub file: Option<Seq<u8>>,
    pub line: Option<int>,
    pub column: Option<int>,
    pub code: Option<int>,
    pub level: Option<Level>,
    pub message: Option<Seq<u8>>,
    pub end_line: Option<Option<int>>,
    pub end_column: Option<Option<int>>,
    pub fix: Option<Option<FixModel>>,
}

/// No record field seen yet.
pub open spec fn comment_acc_empty() -> CommentAcc {
    CommentAcc {
        file: Option::None,
        line: Option::None,
        column: Option::None,
        code: Option::None,
        level: Option::None,
        message: Option::None,
        end_line: Option::None,
        end_column: Option::None,
        fix: Option::None,
    }
}

/// The finished record. The six plain fields are always mandatory; under
/// the strict object schema (`j1`) the three nullable keys must have
/// arrived too, while the bare-array schema lets them be absent.
pub open spec fn comment_acc_done(a: CommentAcc, j1: bool) -> Option<CommentModel> {
    match (a.file, a.line, a.column, a.code, a.level, a.message) {
        (
            Option::Some(f),
            Option::Some(l),
            Option::Some(c),
            Option::Some(k),
            Option::Some(lv),
            Option::Some(m),
        ) => {
            if j1 && !(a.end_line matches Option::Some(_) && a.end_column matches Option::Some(_)
                && a.fix matches Option::Some(_)) {
                Option::None
            } else {
                Option::Some(
                    CommentModel {
                        file: f,
                        line: l,
                        column: c,
                        code: k,
                        level: lv,
                        message: m,
                        end_line: match a.end_line {
                            Option::Some(x) => x,
                            Option::None => Option::None,
                        },
                        end_column: match a.end_column {
                            Option::Some(x) => x,
                            Option::None => Option::None,
                        },
                        fix: match a.fix {
                            Option::Some(x) => x,
                            Option::None => Option::None,
                        },
                    },
                )
            }
        },
        _ => Option::None,
    }
}

/// A nullable number: `null` or a decimal token.
pub open spec fn parse_opt_u32_tok(s: Seq<u8>, p: int) -> Option<(Option<int>, int)> {
    if null_at(s, p) {
        Option::Some((Option::None, p + 4))
    } else {
        match parse_u32_tok(s, p) {
            Option::None => Option::None,
            Option::Some((v, vp)) => Option::Some((Option::Some(v), vp)),
        }
    }
}

/// A nullable fix: `null` or a fix object.
pub open spec fn parse_opt_fix_tok(s: Seq<u8>, p: int) -> Option<(Option<FixModel>, int)> {
    if null_at(s, p) {
        Option::Some((Option::None, p + 4))
    } else {
        match parse_fix_obj(s, p) {
            Option::None => Option::None,
            Option::Some((v, vp)) => Option::Some((Option::Some(v), vp)),
        }
    }
}

/// One record field's value at `vs`, folded into the gathered fields:
/// refused where the field came twice or the value has the wrong shape.
#[verifier::opaque]
pub open spec fn comment_step(s: Seq<u8>, vs: int, k: CKey, a: CommentAcc, j1: bool) -> Option<
    (CommentAcc, int),
> {
    match k {
        CKey::File => match (a.file, parse_string_tok(s, vs)) {
            (Option::None, Option::Some((v, vp))) => Option::Some(
                (CommentAcc { file: Option::Some(v), ..a }, vp),
            ),
            _ => Option::None,
        },
        CKey::Line => match (a.line, parse_u32_tok(s, vs)) {
            (Option::None, Option::Some((v, vp))) => Option::Some(
                (CommentAcc { line: Option::Some(v), ..a }, vp),
            ),
            _ => Option::None,
        },
        CKey::Column => match (a.column, parse_u32_tok(s, vs)) {
            (Option::None, Option::Some((v, vp))) => Option::Some(
                (CommentAcc { column: Option::Some(v), ..a }, vp),
            ),
            _ => Option::None,
        },
        CKey::Code => match (a.code, parse_u32_tok(s, vs)) {
            (Option::None, Option::Some((v, vp))) => Option::Some(
                (CommentAcc { code: Option::Some(v), ..a }, vp),
            ),
            _ => Option::None,
        },
        CKey::Level => match (a.level, parse_level_tok(s, vs, !j1)) {
            (Option::None, Option::Some((v, vp))) => Option::Some(
                (CommentAcc { level: Option::Some(v), ..a }, vp),
            ),
            _ => Option::None,
        },
        CKey::Message => match (a.message, parse_string_tok(s, vs)) {
            (Option::None, Option::Some((v, vp))) => Option::Some(
                (CommentAcc { message: Option::Some(v), ..a }, vp),
            ),
            _ => Option::None,
        },
        CKey::EndLine => match (a.end_line, parse_opt_u32_tok(s, vs)) {
            (Option::None, Option::Some((v, vp))) => Option::Some(
                (CommentAcc { end_line: Option::Some(v), ..a }, vp),
            ),
            _ => Option::None,
        },
        CKey::EndColumn => match (a.end_column, parse_opt_u32_tok(s, vs)) {
            (Option::None, Option::Some((v, vp))) => Option::Some(
                (CommentAcc { end_column: Option::Some(v), ..a }, vp),
            ),
            _ => Option::None,
        },
        CKey::FixKey => match (a.fix, parse_opt_fix_tok(s, vs)) {
            (Option::None, Option::Some((v, vp))) => Option::Some(
                (CommentAcc { fix: Option::Some(v), ..a }, vp),
            ),
            _ => Option::None,
        },
    }
}

/// Parse record fields from `p` (a key expected) until the closing brace:
/// keys in any order, each exactly once, none unknown.
#[verifier::opaque]
pub open spec fn parse_comment_fields(s: Seq<u8>, p: int, a: CommentAcc, j1: bool) -> Option<
    (CommentModel, int),
>
    decreases s.len() - p,
{
    if !(0 <= p < s.len() && s[p] == 34) {
        Option::None
    } else {
        match parse_string_body(s, p + 1) {
            Option::None => Option::None,
            Option::Some((w, kp)) => {
                let q = ws_end(s, kp);
                if !(q < s.len() && s[q] == 58) {
                    Option::None
                } else {
                    let vs = ws_end(s, q + 1);
                    let step: Option<(CommentAcc, int)> = match ckey_of(w) {
                        Option::None => Option::None,
                        Option::Some(k) => comment_step(s, vs, k, a, j1),
                    };
                    match step {
                        Option::None => Option::None,
                        Option::Some((a2, vp)) => {
                            let r = ws_end(s, vp);
                            if r < s.len() && s[r] == 44 {
                                let np = ws_end(s, r + 1);
                                if p < np <= s.len() {
                                    parse_comment_fields(s, np, a2, j1)
                                } else {
                                    Option::None
                                }
                            } else if r < s.len() && s[r] == 125 {
                                match comment_acc_done(a2, j1) {
                                    Option::None => Option::None,
                                    Option::Some(m) => Option::Some((m, r + 1)),
                                }
                            } else {
                                Option::None
                            }
                        },
                    }
                }
            },
        }
    }
}

/// A record object: `{`, its fields, `}`.
pub open spec fn parse_comment_obj(s: Seq<u8>, p: int, j1: bool) -> Option<(CommentModel, int)> {
    if !(0 <= p < s.len() && s[p] == 123) {
        Option::None
    } else {
        parse_comment_fields(s, ws_end(s, p + 1), comment_acc_empty(), j1)
    }
}

/// The items of a record array from the first item on.
pub open spec fn parse_comment_items(s: Seq<u8>, p: int, j1: bool) -> Option<
    (Seq<CommentModel>, int),
>
    decreases s.len() - p,
{
    match parse_comment_obj(s, p, j1) {
        Option::None => Option::None,
        Option::Some((m, vp)) => {
            let r = ws_end(s, vp);
            if r < s.len() && s[r] == 44 {
                let np = ws_end(s, r + 1);
                if p < np <= s.len() {
                    match parse_comment_items(s, np, j1) {
                        Option::None => Option::None,
                        Option::Some((rest, e)) => Option::Some((seq![m] + rest, e)),
                    }
                } else {
                    Option::None
                }
            } else if r < s.len() && s[r] == 93 {
                Option::Some((seq![m], r + 1))
            } else {
                Option::None
            }
        },
    }
}

/// A record array: `[`, items or nothing, `]`.
pub open spec fn parse_comment_array(s: Seq<u8>, p: int, j1: bool) -> Option<
    (Seq<CommentModel>, int),
> {
    if !(0 <= p < s.len() && s[p] == 91) {
        Option::None
    } else {
        let q = ws_end(s, p + 1);
        if q < s.len() && s[q] == 93 {
            Option::Some((Seq::empty(), q + 1))
        } else {
            parse_comment_items(s, q, j1)
        }
    }
}

/// The strict object schema, whole input: `{"comments": [...]}` and nothing
/// after it.
pub open spec fn parse_json1(s: Seq<u8>) -> Option<Seq<CommentModel>> {
    let p = ws_end(s, 0);
    if !(p < s.len() && s[p] == 123) {
        Option::None
    } else {
        let k = ws_end(s, p + 1);
        if !(k < s.len() && s[k] == 34) {
            Option::None
        } else {
            match parse_string_body(s, k + 1) {
                Option::None => Option::None,
                Option::Some((w, kp)) => {
                    if w != kw_comments() {
                        Option::None
                    } else {
                        let q = ws_end(s, kp);
                        if !(q < s.len() && s[q] == 58) {
                            Option::None
                        } else {
                            match parse_comment_array(s, ws_end(s, q + 1), true) {
                                Option::None => Option::None,
                                Option::Some((ms, vp)) => {
                                    let r = ws_end(s, vp);
                                    if r < s.len() && s[r] == 125 && ws_end(s, r + 1) == s.len() {
                                        Option::Some(ms)
                                    } else {
                                        Option::None
                                    }
                                },
                            }
                        }
                    }
                },
            }
        }
    }
}

/// The bare-array schema, whole input: `[...]` and nothing after it.
pub open spec fn parse_json(s: Seq<u8>) -> Option<Seq<CommentModel>> {
    match parse_comment_array(s, ws_end(s, 0), false) {
        Option::None => Option::None,
        Option::Some((ms, vp)) => {
            if ws_end(s, vp) == s.len() {
                Option::Some(ms)
            } else {
                Option::None
            }
        },
    }
}

/// Whether two byte strings hold the same bytes.
fn bytes_eq(a: &Vec<u8>, b: &Vec<u8>) -> (r: bool)
    ensures
        r == (a@ == b@),
{
    crate::comment::bytes_cmp(a, b) == 0
}

/// Which record field the decoded key names, as `ckey_of` says.
fn ckey_at(w: &Vec<u8>) -> (r: Option<CKey>)
    ensures
        r == ckey_of(w@),
{
    let kw: Vec<u8> = vec![102, 105, 108, 101];
    proof {
        assert(kw@ =~= kw_file());
    }
    if bytes_eq(w, &kw) {
        return Option::Some(CKey::File);
    }
    let kw: Vec<u8> = vec![108, 105, 110, 101];
    proof {
        assert(kw@ =~= kw_line());
    }
    if bytes_eq(w, &kw) {
        return Option::Some(CKey::Line);
    }
    let kw: Vec<u8> = vec![99, 111, 108, 117, 109, 110];
    proof {
        assert(kw@ =~= kw_column());
    }
    if bytes_eq(w, &kw) {
        return Option::Some(CKey::Column);
    }
    let kw: Vec<u8> = vec![99, 111, 100, 101];
    proof {
        assert(kw@ =~= kw_code());
    }
    if bytes_eq(w, &kw) {
        return Option::Some(CKey::Code);
    }
    let kw: Vec<u8> = vec![108, 101, 118, 101, 108];
    proof {
        assert(kw@ =~= kw_level());
    }
    if bytes_eq(w, &kw) {
        return Option::Some(CKey::Level);
    }
    let kw: Vec<u8> = vec![109, 101, 115, 115, 97, 103, 101];
    proof {
        assert(kw@ =~= kw_message());
    }
    if bytes_eq(w, &kw) {
        return Option::Some(CKey::Message);
    }
    let kw: Vec<u8> = vec![101, 110, 100, 76, 105, 110, 101];
    proof {
        assert(kw@ =~= kw_end_line());
    }
    if bytes_eq(w, &kw) {
        return Option::Some(CKey::EndLine);
    }
    let kw: Vec<u8> = vec![101, 110, 100, 67, 111, 108, 117, 109, 110];
    proof {
        assert(kw@ =~= kw_end_column());
    }
    if bytes_eq(w, &kw) {
        return Option::Some(CKey::EndColumn);
    }
    let kw: Vec<u8> = vec![102, 105, 120];
    proof {
        assert(kw@ =~= kw_fix());
    }
    if bytes_eq(w, &kw) {
        return Option::Some(CKey::FixKey);
    }
    Option::None
}

/// Which replacement field the decoded key names, as `rkey_of` says.
fn rkey_at(w: &Vec<u8>) -> (r: Option<RKey>)
    ensures
        r == rkey_of(w@),
{
    let kw: Vec<u8> = vec![108, 105, 110, 101];
    proof {
        assert(kw@ =~= kw_line());
    }
    if bytes_eq(w, &kw) {
        return Option::Some(RKey::Line);
    }
    let kw: Vec<u8> = vec![101, 110, 100, 76, 105, 110, 101];
    proof {
        assert(kw@ =~= kw_end_line());
    }
    if bytes_eq(w, &kw) {
        return Option::Some(RKey::EndLine);
    }
    let kw: Vec<u8> = vec![99, 111, 108, 117, 109, 110];
    proof {
        assert(kw@ =~= kw_column());
    }
    if bytes_eq(w, &kw) {
        return Option::Some(RKey::Column);
    }
    let kw: Vec<u8> = vec![101, 110, 100, 67, 111, 108, 117, 109, 110];
    proof {
        assert(kw@ =~= kw_end_column());
    }
    if bytes_eq(w, &kw) {
        return Option::Some(RKey::EndColumn);
    }
    let kw: Vec<u8> = vec![105, 110, 115, 101, 114, 116, 105, 111, 110, 80, 111, 105, 110, 116];
    proof {
        assert(kw@ =~= kw_insertion_point());
    }
    if bytes_eq(w, &kw) {
        return Option::Some(RKey::InsPoint);
    }
    let kw: Vec<u8> = vec![112, 114, 101, 99, 101, 100, 101, 110, 99, 101];
    proof {
        assert(kw@ =~= kw_precedence());
    }
    if bytes_eq(w, &kw) {
        return Option::Some(RKey::Precedence);
    }
    let kw: Vec<u8> = vec![114, 101, 112, 108, 97, 99, 101, 109, 101, 110, 116];
    proof {
        assert(kw@ =~= kw_replacement());
    }
    if bytes_eq(w, &kw) {
        return Option::Some(RKey::ReplText);
    }
    Option::None
}

/// Parse the quoted level name at `p`, as `parse_level_tok` says.
fn level_tok_at(s: &Vec<u8>, p: usize, allow_note: bool) -> (r: Option<(Level, usize)>)
    requires
        p <= s@.len(),
    ensures
        match r {
            Option::Some(v) => parse_level_tok(s@, p as int, allow_note) == Option::Some(
                (v.0, v.1 as int),
            ) && p < v.1 <= s@.len(),
            Option::None => parse_level_tok(s@, p as int, allow_note) matches Option::None,
        },
{
    if !(p < s.len() && s[p] == 34) {
        return Option::None;
    }
    let (w, np) = match parse_string_at(s, p + 1) {
        Option::None => {
            return Option::None;
        },
        Option::Some(v) => v,
    };
    let cand = crate::gcc::level_word_vec(Level::Error);
    if bytes_eq(&w, &cand) {
        return Option::Some((Level::Error, np));
    }
    let cand = crate::gcc::level_word_vec(Level::Warning);
    if bytes_eq(&w, &cand) {
        return Option::Some((Level::Warning, np));
    }
    let cand = crate::gcc::level_word_vec(Level::Info);
    if bytes_eq(&w, &cand) {
        return Option::Some((Level::Info, np));
    }
    let cand = crate::gcc::level_word_vec(Level::Style);
    if bytes_eq(&w, &cand) {
        return Option::Some((Level::Style, np));
    }
    let cand = crate::gcc::level_word_vec(Level::Note);
    if allow_note && bytes_eq(&w, &cand) {
        return Option::Some((Level::Note, np));
    }
    Option::None
}

/// Parse the quoted insertion-point name at `p`, as `parse_ins_tok` says.
fn ins_tok_at(s: &Vec<u8>, p: usize) -> (r: Option<(InsertionPoint, usize)>)
    requires
        p <= s@.len(),
    ensures
        match r {
            Option::Some(v) => parse_ins_tok(s@, p as int) == Option::Some((v.0, v.1 as int)) && p
                < v.1 <= s@.len(),
            Option::None => parse_ins_tok(s@, p as int) matches Option::None,
        },
{
    if !(p < s.len() && s[p] == 34) {
        return Option::None;
    }
    let (w, np) = match parse_string_at(s, p + 1) {
        Option::None => {
            return Option::None;
        },
        Option::Some(v) => v,
    };
    let cand = ins_word_vec(InsertionPoint::AfterEnd);
    if bytes_eq(&w, &cand) {
        return Option::Some((InsertionPoint::AfterEnd, np));
    }
    let cand = ins_word_vec(InsertionPoint::BeforeStart);
    if bytes_eq(&w, &cand) {
        return Option::Some((InsertionPoint::BeforeStart, np));
    }
    Option::None
}

/// Parse the quoted string at `p`, as `parse_string_tok` says.
fn string_tok_at(s: &Vec<u8>, p: usize) -> (r: Option<(Vec<u8>, usize)>)
    requires
        p <= s@.len(),
    ensures
        match r {
            Option::Some(v) => parse_string_tok(s@, p as int) == Option::Some((v.0@, v.1 as int))
                && p < v.1 <= s@.len(),
            Option::None => parse_string_tok(s@, p as int) matches Option::None,
        },
{
    if !(p < s.len() && s[p] == 34) {
        return Option::None;
    }
    parse_string_at(s, p + 1)
}

/// `null` occurs literally at `p`.
fn null_check(s: &Vec<u8>, p: usize) -> (r: bool)
    ensures
        r == null_at(s@, p as int),
{
    let kw: Vec<u8> = vec![110, 117, 108, 108];
    proof {
        assert(kw@ =~= kw_null());
    }
    crate::gcc::has_bytes_at(s, p, &kw)
}

/// Parse the nullable number at `p`, as `parse_opt_u32_tok` says.
fn opt_u32_tok_at(s: &Vec<u8>, p: usize) -> (r: Option<(Option<u32>, usize)>)
    requires
        p <= s@.len(),
    ensures
        match r {
            Option::Some(v) => parse_opt_u32_tok(s@, p as int) == Option::Some(
                (opt_u32_int_view(v.0), v.1 as int),
            ) && p < v.1 <= s@.len(),
            Option::None => parse_opt_u32_tok(s@, p as int) matches Option::None,
        },
{
    let n: usize = s.len();
    if null_check(s, p) {
        proof {
            assert(p + 4 <= n);
        }
        return Option::Some((Option::None, p + 4));
    }
    match parse_u32_at(s, p) {
        Option::None => Option::None,
        Option::Some((v, vp)) => Option::Some((Option::Some(v), vp)),
    }
}

/// The mathematical value of an optional number.
pub open spec fn opt_u32_int_view(o: Option<u32>) -> Option<int> {
    match o {
        Option::None => Option::None,
        Option::Some(v) => Option::Some(v as int),
    }
}

/// The fields of a replacement object gathered so far, executable side.
struct ReplAccX {
    line: Option<u32>,
    end_line: Option<u32>,
    column: Option<u32>,
    end_column: Option<u32>,
    ins: Option<InsertionPoint>,
    prec: Option<u32>,
    text: Option<Vec<u8>>,
}

impl View for ReplAccX {
    type V = ReplAcc;

    closed spec fn view(&self) -> ReplAcc {
        ReplAcc {
            line: opt_u32_int_view(self.line),
            end_line: opt_u32_int_view(self.end_line),
            column: opt_u32_int_view(self.column),
            end_column: opt_u32_int_view(self.end_column),
            ins: self.ins,
            prec: opt_u32_int_view(self.prec),
            text: match self.text {
                Option::None => Option::None,
                Option::Some(ref t) => Option::Some(t@),
            },
        }
    }
}

/// One replacement field's value folded into the gathered fields, as
/// `repl_step` says.
fn repl_field_step(s: &Vec<u8>, vs: usize, key: RKey, acc: &mut ReplAccX) -> (r: Option<usize>)
    requires
        vs <= s@.len(),
    ensures
        match r {
            Option::Some(vp) => repl_step(s@, vs as int, key, old(acc)@) == Option::Some(
                (final(acc)@, vp as int),
            ) && vs < vp <= s@.len(),
            Option::None => repl_step(s@, vs as int, key, old(acc)@) matches Option::None,
        },
{
    match key {
        RKey::Line => {
            if acc.line.is_some() {
                return Option::None;
            }
            match parse_u32_at(s, vs) {
                Option::None => Option::None,
                Option::Some((v, vp)) => {
                    acc.line = Option::Some(v);
                    Option::Some(vp)
                },
            }
        },
        RKey::EndLine => {
            if acc.end_line.is_some() {
                return Option::None;
            }
            match parse_u32_at(s, vs) {
                Option::None => Option::None,
                Option::Some((v, vp)) => {
                    acc.end_line = Option::Some(v);
                    Option::Some(vp)
                },
            }
        },
        RKey::Column => {
            if acc.column.is_some() {
                return Option::None;
            }
            match parse_u32_at(s, vs) {
                Option::None => Option::None,
                Option::Some((v, vp)) => {
                    acc.column = Option::Some(v);
                    Option::Some(vp)
                },
            }
        },
        RKey::EndColumn => {
            if acc.end_column.is_some() {
                return Option::None;
            }
            match parse_u32_at(s, vs) {
                Option::None => Option::None,
                Option::Some((v, vp)) => {
                    acc.end_column = Option::Some(v);
                    Option::Some(vp)
                },
            }
        },
        RKey::InsPoint => {
            if acc.ins.is_some() {
                return Option::None;
            }
            match ins_tok_at(s, vs) {
                Option::None => Option::None,
                Option::Some((v, vp)) => {
                    acc.ins = Option::Some(v);
                    Option::Some(vp)
                },
            }
        },
        RKey::Precedence => {
            if acc.prec.is_some() {
                return Option::None;
            }
            match parse_u32_at(s, vs) {
                Option::None => Option::None,
                Option::Some((v, vp)) => {
                    acc.prec = Option::Some(v);
                    Option::Some(vp)
                },
            }
        },
        RKey::ReplText => {
            if acc.text.is_some() {
                return Option::None;
            }
            match string_tok_at(s, vs) {
                Option::None => Option::None,
                Option::Some((v, vp)) => {
                    acc.text = Option::Some(v);
                    Option::Some(vp)
                },
            }
        },
    }
}

/// What one field iteration of an object loop produced.
enum IterOut {
    /// The object closed at this position, every mandatory field gathered.
    Done(usize),
    /// A comma: the next key begins at this position.
    More(usize),
    /// The shape is wrong.
    Fail,
}

/// One field of a replacement object: one unfolding of
/// `parse_repl_fields` from `i`.
#[verifier::rlimit(100)]
fn repl_obj_iter(s: &Vec<u8>, i: usize, acc: &mut ReplAccX) -> (r: IterOut)
    requires
        i <= s@.len(),
    ensures
        match r {
            IterOut::More(np) => i < np <= s@.len() && parse_repl_fields(s@, i as int, old(acc)@)
                == parse_repl_fields(s@, np as int, final(acc)@),
            IterOut::Done(e) => i < e <= s@.len() && (match repl_acc_done(final(acc)@) {
                Option::Some(m) => parse_repl_fields(s@, i as int, old(acc)@) == Option::Some(
                    (m, e as int),
                ),
                Option::None => false,
            }),
            IterOut::Fail => parse_repl_fields(s@, i as int, old(acc)@) matches Option::None,
        },
{
    proof {
        reveal(parse_repl_fields);
    }
    let n: usize = s.len();
    if !(i < n && s[i] == 34) {
        return IterOut::Fail;
    }
    let (w, kp) = match parse_string_at(s, i + 1) {
        Option::None => {
            return IterOut::Fail;
        },
        Option::Some(v) => v,
    };
    let q = ws_end_at(s, kp);
    proof {
        lemma_ws_end(s@, kp as int);
    }
    if !(q < n && s[q] == 58) {
        return IterOut::Fail;
    }
    let vs = ws_end_at(s, q + 1);
    proof {
        lemma_ws_end(s@, q + 1);
    }
    let key = match rkey_at(&w) {
        Option::None => {
            return IterOut::Fail;
        },
        Option::Some(k) => k,
    };
    let vp: usize = match repl_field_step(s, vs, key, acc) {
        Option::None => {
            return IterOut::Fail;
        },
        Option::Some(vp) => vp,
    };
    let rp = ws_end_at(s, vp);
    proof {
        lemma_ws_end(s@, vp as int);
    }
    if rp < n && s[rp] == 44 {
        let np = ws_end_at(s, rp + 1);
        proof {
            lemma_ws_end(s@, rp + 1);
        }
        if !(i < np && np <= n) {
            return IterOut::Fail;
        }
        IterOut::More(np)
    } else if rp < n && s[rp] == 125 {
        let complete = acc.line.is_some() && acc.end_line.is_some() && acc.column.is_some()
            && acc.end_column.is_some() && acc.ins.is_some() && acc.prec.is_some()
            && acc.text.is_some();
        if !complete {
            return IterOut::Fail;
        }
        IterOut::Done(rp + 1)
    } else {
        return IterOut::Fail;
    }
}

/// Parse a replacement object at `p`, as `parse_repl_obj` says.
fn repl_obj_at(s: &Vec<u8>, p: usize) -> (r: Option<(Replacement, usize)>)
    requires
        p <= s@.len(),
    ensures
        match r {
            Option::Some(v) => parse_repl_obj(s@, p as int) == Option::Some((v.0@, v.1 as int))
                && p < v.1 <= s@.len(),
            Option::None => parse_repl_obj(s@, p as int) matches Option::None,
        },
{
    let n: usize = s.len();
    if !(p < n && s[p] == 123) {
        return Option::None;
    }
    let start = ws_end_at(s, p + 1);
    proof {
        lemma_ws_end(s@, p + 1);
    }
    let mut acc = ReplAccX {
        line: Option::None,
        end_line: Option::None,
        column: Option::None,
        end_column: Option::None,
        ins: Option::None,
        prec: Option::None,
        text: Option::None,
    };
    let mut i: usize = start;
    proof {
        assert(acc@ =~= repl_acc_empty());
    }
    loop
        invariant
            p < i <= n,
            n == s@.len(),
            p < n,
            s@[p as int] == 123,
            start == ws_end(s@, p + 1),
            parse_repl_fields(s@, start as int, repl_acc_empty()) == parse_repl_fields(
                s@,
                i as int,
                acc@,
            ),
        decreases n - i,
    {
        match repl_obj_iter(s, i, &mut acc) {
            IterOut::Fail => {
                return Option::None;
            },
            IterOut::Done(e) => {
                let ghost accv = acc@;
                let m = match acc {
                    ReplAccX {
                        line: Option::Some(l),
                        end_line: Option::Some(el),
                        column: Option::Some(c),
                        end_column: Option::Some(ec),
                        ins: Option::Some(ip),
                        prec: Option::Some(pr),
                        text: Option::Some(t),
                    } => Replacement {
                        line: l,
                        end_line: el,
                        column: c,
                        end_column: ec,
                        insertion_point: ip,
                        precedence: pr,
                        replacement: t,
                    },
                    _ => {
                        return Option::None;
                    },
                };
                proof {
                    assert(repl_acc_done(accv) == Option::Some(m@));
                }
                return Option::Some((m, e));
            },
            IterOut::More(np) => {
                i = np;
            },
        }
    }
}

/// Parse the items of a replacement array from the first item on, as
/// `parse_repl_items` says.
fn repl_items_at(s: &Vec<u8>, p: usize) -> (r: Option<(Vec<Replacement>, usize)>)
    requires
        p <= s@.len(),
    ensures
        match r {
            Option::Some(v) => parse_repl_items(s@, p as int) == Option::Some(
                (crate::comment::repl_seq_view(v.0@), v.1 as int),
            ) && p < v.1 <= s@.len(),
            Option::None => parse_repl_items(s@, p as int) matches Option::None,
        },
{
    let n: usize = s.len();
    let mut out: Vec<Replacement> = Vec::new();
    let mut i: usize = p;
    proof {
        assert(crate::comment::repl_seq_view(out@) =~= Seq::<ReplacementModel>::empty());
    }
    loop
        invariant
            i <= n,
            n == s@.len(),
            p <= i,
            parse_repl_items(s@, p as int) == (match parse_repl_items(s@, i as int) {
                Option::None => Option::None::<(Seq<ReplacementModel>, int)>,
                Option::Some(t) => Option::Some(
                    (crate::comment::repl_seq_view(out@) + t.0, t.1),
                ),
            }),
        decreases n - i,
    {
        let (m, vp) = match repl_obj_at(s, i) {
            Option::None => {
                return Option::None;
            },
            Option::Some(v) => v,
        };
        let rp = ws_end_at(s, vp);
        proof {
            lemma_ws_end(s@, vp as int);
        }
        let ghost pre_out = out@;
        let ghost mv = m@;
        out.push(m);
        proof {
            assert(crate::comment::repl_seq_view(out@) =~= crate::comment::repl_seq_view(
                pre_out,
            ).push(mv));
        }
        if rp < n && s[rp] == 44 {
            let np = ws_end_at(s, rp + 1);
            proof {
                lemma_ws_end(s@, rp + 1);
            }
            if !(i < np && np <= n) {
                return Option::None;
            }
            proof {
                match parse_repl_items(s@, np as int) {
                    Option::None => {},
                    Option::Some(t) => {
                        assert(crate::comment::repl_seq_view(pre_out) + (seq![mv] + t.0)
                            =~= crate::comment::repl_seq_view(out@) + t.0);
                    },
                }
            }
            i = np;
        } else if rp < n && s[rp] == 93 {
            proof {
                assert(crate::comment::repl_seq_view(pre_out) + seq![mv]
                    =~= crate::comment::repl_seq_view(out@));
            }
            return Option::Some((out, rp + 1));
        } else {
            return Option::None;
        }
    }
}

/// Parse a replacement array at `p`, as `parse_repl_array` says.
fn repl_array_at(s: &Vec<u8>, p: usize) -> (r: Option<(Vec<Replacement>, usize)>)
    requires
        p <= s@.len(),
    ensures
        match r {
            Option::Some(v) => parse_repl_array(s@, p as int) == Option::Some(
                (crate::comment::repl_seq_view(v.0@), v.1 as int),
            ) && p < v.1 <= s@.len(),
            Option::None => parse_repl_array(s@, p as int) matches Option::None,
        },
{
    let n: usize = s.len();
    if !(p < n && s[p] == 91) {
        return Option::None;
    }
    let q = ws_end_at(s, p + 1);
    proof {
        lemma_ws_end(s@, p + 1);
    }
    if q < n && s[q] == 93 {
        let out: Vec<Replacement> = Vec::new();
        proof {
            assert(crate::comment::repl_seq_view(out@) =~= Seq::<ReplacementModel>::empty());
        }
        return Option::Some((out, q + 1));
    }
    repl_items_at(s, q)
}

/// Parse a fix object at `p`, as `parse_fix_obj` says.
fn fix_obj_at(s: &Vec<u8>, p: usize) -> (r: Option<(Fix, usize)>)
    requires
        p <= s@.len(),
    ensures
        match r {
            Option::Some(v) => parse_fix_obj(s@, p as int) == Option::Some((v.0@, v.1 as int))
                && p < v.1 <= s@.len(),
            Option::None => parse_fix_obj(s@, p as int) matches Option::None,
        },
{
    let n: usize = s.len();
    if !(p < n && s[p] == 123) {
        return Option::None;
    }
    let k = ws_end_at(s, p + 1);
    proof {
        lemma_ws_end(s@, p + 1);
    }
    if !(k < n && s[k] == 34) {
        return Option::None;
    }
    let (w, kp) = match parse_string_at(s, k + 1) {
        Option::None => {
            return Option::None;
        },
        Option::Some(v) => v,
    };
    let kw: Vec<u8> = vec![114, 101, 112, 108, 97, 99, 101, 109, 101, 110, 116, 115];
    proof {
        assert(kw@ =~= kw_replacements());
    }
    if !bytes_eq(&w, &kw) {
        return Option::None;
    }
    let q = ws_end_at(s, kp);
    proof {
        lemma_ws_end(s@, kp as int);
    }
    if !(q < n && s[q] == 58) {
        return Option::None;
    }
    let vs = ws_end_at(s, q + 1);
    proof {
        lemma_ws_end(s@, q + 1);
    }
    let (rs, vp) = match repl_array_at(s, vs) {
        Option::None => {
            return Option::None;
        },
        Option::Some(v) => v,
    };
    let rp = ws_end_at(s, vp);
    proof {
        lemma_ws_end(s@, vp as int);
    }
    if rp < n && s[rp] == 125 {
        Option::Some((Fix { replacements: rs }, rp + 1))
    } else {
        Option::None
    }
}

/// Parse the nullable fix at `p`, as `parse_opt_fix_tok` says.
fn opt_fix_tok_at(s: &Vec<u8>, p: usize) -> (r: Option<(Option<Fix>, usize)>)
    requires
        p <= s@.len(),
    ensures
        match r {
            Option::Some(v) => parse_opt_fix_tok(s@, p as int) == Option::Some(
                (crate::comment::opt_fix_view(v.0), v.1 as int),
            ) && p < v.1 <= s@.len(),
            Option::None => parse_opt_fix_tok(s@, p as int) matches Option::None,
        },
{
    let n: usize = s.len();
    if null_check(s, p) {
        proof {
            assert(p + 4 <= n);
        }
        return Option::Some((Option::None, p + 4));
    }
    match fix_obj_at(s, p) {
        Option::None => Option::None,
        Option::Some((f, vp)) => {
            proof {
                reveal(parse_repl_fields);
            }
            Option::Some((Option::Some(f), vp))
        },
    }
}

/// The fields of a record object gathered so far, executable side.
struct CommentAccX {
    file: Option<Vec<u8>>,
    line: Option<u32>,
    column: Option<u32>,
    code: Option<u32>,
    level: Option<Level>,
    message: Option<Vec<u8>>,
    end_line: Option<Option<u32>>,
    end_column: Option<Option<u32>>,
    fix: Option<Option<Fix>>,
}

impl View for CommentAccX {
    type V = CommentAcc;

    closed spec fn view(&self) -> CommentAcc {
        CommentAcc {
            file: match self.file {
                Option::None => Option::None,
                Option::Some(ref t) => Option::Some(t@),
            },
            line: opt_u32_int_view(self.line),
            column: opt_u32_int_view(self.column),
            code: opt_u32_int_view(self.code),
            level: self.level,
            message: match self.message {
                Option::None => Option::None,
                Option::Some(ref t) => Option::Some(t@),
            },
            end_line: match self.end_line {
                Option::None => Option::None,
                Option::Some(x) => Option::Some(opt_u32_int_view(x)),
            },
            end_column: match self.end_column {
                Option::None => Option::None,
                Option::Some(x) => Option::Some(opt_u32_int_view(x)),
            },
            fix: match self.fix {
                Option::None => Option::None,
                Option::Some(ref x) => Option::Some(crate::comment::opt_fix_view(*x)),
            },
        }
    }
}

/// One record field's value folded into the gathered fields, as
/// `comment_step` says.
fn comment_field_step(s: &Vec<u8>, vs: usize, key: CKey, acc: &mut CommentAccX, j1: bool) -> (r:
    Option<usize>)
    requires
        vs <= s@.len(),
    ensures
        match r {
            Option::Some(vp) => comment_step(s@, vs as int, key, old(acc)@, j1) == Option::Some(
                (final(acc)@, vp as int),
            ) && vs < vp <= s@.len(),
            Option::None => comment_step(s@, vs as int, key, old(acc)@, j1) matches Option::None,
        },
{
    proof {
        reveal(comment_step);
    }
    match key {
        CKey::File => {
            if acc.file.is_some() {
                return Option::None;
            }
            match string_tok_at(s, vs) {
                Option::None => Option::None,
                Option::Some((v, vp)) => {
                    acc.file = Option::Some(v);
                    Option::Some(vp)
                },
            }
        },
        CKey::Line => {
            if acc.line.is_some() {
                return Option::None;
            }
            match parse_u32_at(s, vs) {
                Option::None => Option::None,
                Option::Some((v, vp)) => {
                    acc.line = Option::Some(v);
                    Option::Some(vp)
                },
            }
        },
        CKey::Column => {
            if acc.column.is_some() {
                return Option::None;
            }
            match parse_u32_at(s, vs) {
                Option::None => Option::None,
                Option::Some((v, vp)) => {
                    acc.column = Option::Some(v);
                    Option::Some(vp)
                },
            }
        },
        CKey::Code => {
            if acc.code.is_some() {
                return Option::None;
            }
            match parse_u32_at(s, vs) {
                Option::None => Option::None,
                Option::Some((v, vp)) => {
                    acc.code = Option::Some(v);
                    Option::Some(vp)
                },
            }
        },
        CKey::Level => {
            if acc.level.is_some() {
                return Option::None;
            }
            match level_tok_at(s, vs, !j1) {
                Option::None => Option::None,
                Option::Some((v, vp)) => {
                    acc.level = Option::Some(v);
                    Option::Some(vp)
                },
            }
        },
        CKey::Message => {
            if acc.message.is_some() {
                return Option::None;
            }
            match string_tok_at(s, vs) {
                Option::None => Option::None,
                Option::Some((v, vp)) => {
                    acc.message = Option::Some(v);
                    Option::Some(vp)
                },
            }
        },
        CKey::EndLine => {
            if acc.end_line.is_some() {
                return Option::None;
            }
            match opt_u32_tok_at(s, vs) {
                Option::None => Option::None,
                Option::Some((v, vp)) => {
                    acc.end_line = Option::Some(v);
                    Option::Some(vp)
                },
            }
        },
        CKey::EndColumn => {
            if acc.end_column.is_some() {
                return Option::None;
            }
            match opt_u32_tok_at(s, vs) {
                Option::None => Option::None,
                Option::Some((v, vp)) => {
                    acc.end_column = Option::Some(v);
                    Option::Some(vp)
                },
            }
        },
        CKey::FixKey => {
            if acc.fix.is_some() {
                return Option::None;
            }
            match opt_fix_tok_at(s, vs) {
                Option::None => Option::None,
                Option::Some((v, vp)) => {
                    acc.fix = Option::Some(v);
                    Option::Some(vp)
                },
            }
        },
    }
}

/// One field of a record object: one unfolding of `parse_comment_fields`
/// from `i`.
#[verifier::rlimit(100)]
fn comment_obj_iter(s: &Vec<u8>, i: usize, acc: &mut CommentAccX, j1: bool) -> (r: IterOut)
    requires
        i <= s@.len(),
    ensures
        match r {
            IterOut::More(np) => i < np <= s@.len() && parse_comment_fields(
                s@,
                i as int,
                old(acc)@,
                j1,
            ) == parse_comment_fields(s@, np as int, final(acc)@, j1),
            IterOut::Done(e) => i < e <= s@.len() && (match comment_acc_done(final(acc)@, j1) {
                Option::Some(m) => parse_comment_fields(s@, i as int, old(acc)@, j1)
                    == Option::Some((m, e as int)),
                Option::None => false,
            }),
            IterOut::Fail => parse_comment_fields(s@, i as int, old(acc)@, j1)
                matches Option::None,
        },
{
    proof {
        reveal(parse_comment_fields);
    }
    let n: usize = s.len();
    if !(i < n && s[i] == 34) {
        return IterOut::Fail;
    }
    let (w, kp) = match parse_string_at(s, i + 1) {
        Option::None => {
            return IterOut::Fail;
        },
        Option::Some(v) => v,
    };
    let q = ws_end_at(s, kp);
    proof {
        lemma_ws_end(s@, kp as int);
    }
    if !(q < n && s[q] == 58) {
        return IterOut::Fail;
    }
    let vs = ws_end_at(s, q + 1);
    proof {
        lemma_ws_end(s@, q + 1);
    }
    let key = match ckey_at(&w) {
        Option::None => {
            return IterOut::Fail;
        },
        Option::Some(k) => k,
    };
    let vp: usize = match comment_field_step(s, vs, key, acc, j1) {
        Option::None => {
            return IterOut::Fail;
        },
        Option::Some(vp) => vp,
    };
    let rp = ws_end_at(s, vp);
    proof {
        lemma_ws_end(s@, vp as int);
    }
    if rp < n && s[rp] == 44 {
        let np = ws_end_at(s, rp + 1);
        proof {
            lemma_ws_end(s@, rp + 1);
        }
        if !(i < np && np <= n) {
            return IterOut::Fail;
        }
        IterOut::More(np)
    } else if rp < n && s[rp] == 125 {
        let complete = acc.file.is_some() && acc.line.is_some() && acc.column.is_some()
            && acc.code.is_some() && acc.level.is_some() && acc.message.is_some() && (!j1 || (
        acc.end_line.is_some() && acc.end_column.is_some() && acc.fix.is_some()));
        if !complete {
            return IterOut::Fail;
        }
        IterOut::Done(rp + 1)
    } else {
        return IterOut::Fail;
    }
}

/// Parse a record object at `p`, as `parse_comment_obj` says.
fn comment_obj_at(s: &Vec<u8>, p: usize, j1: bool) -> (r: Option<(Comment, usize)>)
    requires
        p <= s@.len(),
    ensures
        match r {
            Option::Some(v) => parse_comment_obj(s@, p as int, j1) == Option::Some(
                (v.0@, v.1 as int),
            ) && p < v.1 <= s@.len(),
            Option::None => parse_comment_obj(s@, p as int, j1) matches Option::None,
        },
{
    let n: usize = s.len();
    if !(p < n && s[p] == 123) {
        return Option::None;
    }
    let start = ws_end_at(s, p + 1);
    proof {
        lemma_ws_end(s@, p + 1);
    }
    let mut acc = CommentAccX {
        file: Option::None,
        line: Option::None,
        column: Option::None,
        code: Option::None,
        level: Option::None,
        message: Option::None,
        end_line: Option::None,
        end_column: Option::None,
        fix: Option::None,
    };
    let mut i: usize = start;
    proof {
        assert(acc@ =~= comment_acc_empty());
    }
    loop
        invariant
            p < i <= n,
            n == s@.len(),
            p < n,
            s@[p as int] == 123,
            start == ws_end(s@, p + 1),
            parse_comment_fields(s@, start as int, comment_acc_empty(), j1)
                == parse_comment_fields(s@, i as int, acc@, j1),
        decreases n - i,
    {
        match comment_obj_iter(s, i, &mut acc, j1) {
            IterOut::Fail => {
                return Option::None;
            },
            IterOut::Done(e) => {
                let ghost accv = acc@;
                let m = match acc {
                    CommentAccX {
                        file: Option::Some(f),
                        line: Option::Some(l),
                        column: Option::Some(c),
                        code: Option::Some(k),
                        level: Option::Some(lv),
                        message: Option::Some(msg),
                        end_line,
                        end_column,
                        fix,
                    } => Comment {
                        file: f,
                        line: l,
                        column: c,
                        code: k,
                        level: lv,
                        message: msg,
                        end_line: match end_line {
                            Option::Some(x) => x,
                            Option::None => Option::None,
                        },
                        end_column: match end_column {
                            Option::Some(x) => x,
                            Option::None => Option::None,
                        },
                        fix: match fix {
                            Option::Some(x) => x,
                            Option::None => Option::None,
                        },
                    },
                    _ => {
                        return Option::None;
                    },
                };
                proof {
                    assert(comment_acc_done(accv, j1) == Option::Some(m@));
                }
                return Option::Some((m, e));
            },
            IterOut::More(np) => {
                i = np;
            },
        }
    }
}

/// Parse the items of a record array from the first item on, as
/// `parse_comment_items` says.
fn comment_items_at(s: &Vec<u8>, p: usize, j1: bool) -> (r: Option<(Vec<Comment>, usize)>)
    requires
        p <= s@.len(),
    ensures
        match r {
            Option::Some(v) => parse_comment_items(s@, p as int, j1) == Option::Some(
                (crate::comment::comment_seq_view(v.0@), v.1 as int),
            ) && p < v.1 <= s@.len(),
            Option::None => parse_comment_items(s@, p as int, j1) matches Option::None,
        },
{
    let n: usize = s.len();
    let mut out: Vec<Comment> = Vec::new();
    let mut i: usize = p;
    proof {
        assert(crate::comment::comment_seq_view(out@) =~= Seq::<CommentModel>::empty());
    }
    loop
        invariant
            i <= n,
            n == s@.len(),
            p <= i,
            parse_comment_items(s@, p as int, j1) == (match parse_comment_items(
                s@,
                i as int,
                j1,
            ) {
                Option::None => Option::None::<(Seq<CommentModel>, int)>,
                Option::Some(t) => Option::Some(
                    (crate::comment::comment_seq_view(out@) + t.0, t.1),
                ),
            }),
        decreases n - i,
    {
        let (m, vp) = match comment_obj_at(s, i, j1) {
            Option::None => {
                return Option::None;
            },
            Option::Some(v) => v,
        };
        let rp = ws_end_at(s, vp);
        proof {
            lemma_ws_end(s@, vp as int);
        }
        let ghost pre_out = out@;
        let ghost mv = m@;
        out.push(m);
        proof {
            assert(crate::comment::comment_seq_view(out@) =~= crate::comment::comment_seq_view(
                pre_out,
            ).push(mv));
        }
        if rp < n && s[rp] == 44 {
            let np = ws_end_at(s, rp + 1);
            proof {
                lemma_ws_end(s@, rp + 1);
            }
            if !(i < np && np <= n) {
                return Option::None;
            }
            proof {
                match parse_comment_items(s@, np as int, j1) {
                    Option::None => {},
                    Option::Some(t) => {
                        assert(crate::comment::comment_seq_view(pre_out) + (seq![mv] + t.0)
                            =~= crate::comment::comment_seq_view(out@) + t.0);
                    },
                }
            }
            i = np;
        } else if rp < n && s[rp] == 93 {
            proof {
                assert(crate::comment::comment_seq_view(pre_out) + seq![mv]
                    =~= crate::comment::comment_seq_view(out@));
            }
            return Option::Some((out, rp + 1));
        } else {
            return Option::None;
        }
    }
}

/// Parse a record array at `p`, as `parse_comment_array` says.
fn comment_array_at(s: &Vec<u8>, p: usize, j1: bool) -> (r: Option<(Vec<Comment>, usize)>)
    requires
        p <= s@.len(),
    ensures
        match r {
            Option::Some(v) => parse_comment_array(s@, p as int, j1) == Option::Some(
                (crate::comment::comment_seq_view(v.0@), v.1 as int),
            ) && p < v.1 <= s@.len(),
            Option::None => parse_comment_array(s@, p as int, j1) matches Option::None,
        },
{
    let n: usize = s.len();
    if !(p < n && s[p] == 91) {
        return Option::None;
    }
    let q = ws_end_at(s, p + 1);
    proof {
        lemma_ws_end(s@, p + 1);
    }
    if q < n && s[q] == 93 {
        let out: Vec<Comment> = Vec::new();
        proof {
            assert(crate::comment::comment_seq_view(out@) =~= Seq::<CommentModel>::empty());
        }
        return Option::Some((out, q + 1));
    }
    comment_items_at(s, q, j1)
}

/// Parse a whole strict-object-schema output, as `parse_json1` says. The
/// record order is the array order; any deviation from the schema refuses
/// everything.
pub fn parse_json1_bytes(bytes: &Vec<u8>) -> (r: Result<Vec<Comment>, crate::ShellcheckError>)
    ensures
        match r {
            Result::Ok(cs) => parse_json1(bytes@) == Option::Some(
                crate::comment::comment_seq_view(cs@),
            ),
            Result::Err(e) => parse_json1(bytes@) matches Option::None && e
                == crate::ShellcheckError::SchemaParse,
        },
{
    let n: usize = bytes.len();
    let p = ws_end_at(bytes, 0);
    proof {
        lemma_ws_end(bytes@, 0);
    }
    if !(p < n && bytes[p] == 123) {
        return Result::Err(crate::ShellcheckError::SchemaParse);
    }
    let k = ws_end_at(bytes, p + 1);
    proof {
        lemma_ws_end(bytes@, p + 1);
    }
    if !(k < n && bytes[k] == 34) {
        return Result::Err(crate::ShellcheckError::SchemaParse);
    }
    let (w, kp) = match parse_string_at(bytes, k + 1) {
        Option::None => {
            return Result::Err(crate::ShellcheckError::SchemaParse);
        },
        Option::Some(v) => v,
    };
    let kw: Vec<u8> = vec![99, 111, 109, 109, 101, 110, 116, 115];
    proof {
        assert(kw@ =~= kw_comments());
    }
    if !bytes_eq(&w, &kw) {
        return Result::Err(crate::ShellcheckError::SchemaParse);
    }
    let q = ws_end_at(bytes, kp);
    proof {
        lemma_ws_end(bytes@, kp as int);
    }
    if !(q < n && bytes[q] == 58) {
        return Result::Err(crate::ShellcheckError::SchemaParse);
    }
    let vs = ws_end_at(bytes, q + 1);
    proof {
        lemma_ws_end(bytes@, q + 1);
    }
    let (ms, vp) = match comment_array_at(bytes, vs, true) {
        Option::None => {
            return Result::Err(crate::ShellcheckError::SchemaParse);
        },
        Option::Some(v) => v,
    };
    let rp = ws_end_at(bytes, vp);
    proof {
        lemma_ws_end(bytes@, vp as int);
    }
    if rp < n && bytes[rp] == 125 {
        let e = ws_end_at(bytes, rp + 1);
        proof {
            lemma_ws_end(bytes@, rp + 1);
        }
        if e == n {
            return Result::Ok(ms);
        }
    }
    Result::Err(crate::ShellcheckError::SchemaParse)
}

/// Parse a whole bare-array-schema output, as `parse_json` says. The
/// record order is the array order; any deviation from the schema refuses
/// everything.
pub fn parse_json_bytes(bytes: &Vec<u8>) -> (r: Result<Vec<Comment>, crate::ShellcheckError>)
    ensures
        match r {
            Result::Ok(cs) => parse_json(bytes@) == Option::Some(
                crate::comment::comment_seq_view(cs@),
            ),
            Result::Err(e) => parse_json(bytes@) matches Option::None && e
                == crate::ShellcheckError::SchemaParse,
        },
{
    let n: usize = bytes.len();
    let p = ws_end_at(bytes, 0);
    proof {
        lemma_ws_end(bytes@, 0);
    }
    let (ms, vp) = match comment_array_at(bytes, p, false) {
        Option::None => {
            return Result::Err(crate::ShellcheckError::SchemaParse);
        },
        Option::Some(v) => v,
    };
    let e = ws_end_at(bytes, vp);
    proof {
        lemma_ws_end(bytes@, vp as int);
    }
    if e == n {
        Result::Ok(ms)
    } else {
        Result::Err(crate::ShellcheckError::SchemaParse)
    }
}

/// The lowercase hexadecimal digit of `d`.
pub open spec fn hex_digit_of(d: int) -> u8 {
    if d < 10 {
        (48 + d) as u8
    } else {
        (87 + d) as u8
    }
}

/// The escape of one byte inside a string literal: the two-character short
/// forms, `\u00XY` for other control bytes, the byte itself otherwise.
pub open spec fn esc_byte(b: u8) -> Seq<u8> {
    if b == 34 {
        seq![92u8, 34u8]
    } else if b == 92 {
        seq![92u8, 92u8]
    } else if b == 8 {
        seq![92u8, 98u8]
    } else if b == 9 {
        seq![92u8, 116u8]
    } else if b == 10 {
        seq![92u8, 110u8]
    } else if b == 12 {
        seq![92u8, 102u8]
    } else if b == 13 {
        seq![92u8, 114u8]
    } else if b < 32 {
        seq![92u8, 117u8, 48u8, 48u8, hex_digit_of(b as int / 16), hex_digit_of(b as int % 16)]
    } else {
        seq![b]
    }
}

/// Every byte of `m`, escaped.
pub open spec fn esc_all(m: Seq<u8>) -> Seq<u8>
    decreases m.len(),
{
    if m.len() == 0 {
        Seq::empty()
    } else {
        esc_byte(m[0]) + esc_all(m.drop_first())
    }
}

/// A serialized string literal: quote, escaped bytes, quote.
pub open spec fn str_lit_of(m: Seq<u8>) -> Seq<u8> {
    seq![34u8] + esc_all(m) + seq![34u8]
}

/// A serialized nullable number: `null` or canonical digits.
pub open spec fn opt_u32_json(o: Option<int>) -> Seq<u8> {
    match o {
        Option::None => kw_null(),
        Option::Some(v) => dec_of(v),
    }
}

/// A serialized quoted key followed by its colon.
pub open spec fn key_of(w: Seq<u8>) -> Seq<u8> {
    seq![34u8] + w + seq![34u8, 58u8]
}

/// One serialized replacement object, fields in declaration order.
pub open spec fn repl_json_of(r: ReplacementModel) -> Seq<u8> {
    seq![123u8] + key_of(kw_line()) + dec_of(r.line) + seq![44u8] + key_of(kw_end_line()) + dec_of(
        r.end_line,
    ) + seq![44u8] + key_of(kw_column()) + dec_of(r.column) + seq![44u8] + key_of(kw_end_column())
        + dec_of(r.end_column) + seq![44u8] + key_of(kw_insertion_point()) + seq![34u8] + ins_word(
        r.insertion_point,
    ) + seq![34u8] + seq![44u8] + key_of(kw_precedence()) + dec_of(r.precedence) + seq![44u8]
        + key_of(kw_replacement()) + str_lit_of(r.replacement) + seq![125u8]
}

/// The comma-joined serialized replacements.
pub open spec fn repl_items_json_of(rs: Seq<ReplacementModel>) -> Seq<u8>
    decreases rs.len(),
{
    if rs.len() == 0 {
        Seq::empty()
    } else if rs.len() == 1 {
        repl_json_of(rs[0])
    } else {
        repl_json_of(rs[0]) + seq![44u8] + repl_items_json_of(rs.drop_first())
    }
}

/// One serialized fix object.
pub open spec fn fix_json_of(f: FixModel) -> Seq<u8> {
    seq![123u8] + key_of(kw_replacements()) + seq![91u8] + repl_items_json_of(f.replacements)
        + seq![93u8] + seq![125u8]
}

/// A serialized nullable fix.
pub open spec fn opt_fix_json(o: Option<FixModel>) -> Seq<u8> {
    match o {
        Option::None => kw_null(),
        Option::Some(f) => fix_json_of(f),
    }
}

/// One serialized record object, fields in declaration order; the nullable
/// fields are always written, as `null` when absent.
pub open spec fn comment_json_of(c: CommentModel) -> Seq<u8> {
    seq![123u8] + key_of(kw_file()) + str_lit_of(c.file) + seq![44u8] + key_of(kw_line()) + dec_of(
        c.line,
    ) + seq![44u8] + key_of(kw_column()) + dec_of(c.column) + seq![44u8] + key_of(kw_code())
        + dec_of(c.code) + seq![44u8] + key_of(kw_level()) + seq![34u8] + crate::gcc::level_word(
        c.level,
    ) + seq![34u8] + seq![44u8] + key_of(kw_message()) + str_lit_of(c.message) + seq![44u8]
        + key_of(kw_end_line()) + opt_u32_json(c.end_line) + seq![44u8] + key_of(kw_end_column())
        + opt_u32_json(c.end_column) + seq![44u8] + key_of(kw_fix()) + opt_fix_json(c.fix)
        + seq![125u8]
}

/// The comma-joined serialized records.
pub open spec fn comment_items_json_of(ms: Seq<CommentModel>) -> Seq<u8>
    decreases ms.len(),
{
    if ms.len() == 0 {
        Seq::empty()
    } else if ms.len() == 1 {
        comment_json_of(ms[0])
    } else {
        comment_json_of(ms[0]) + seq![44u8] + comment_items_json_of(ms.drop_first())
    }
}

/// A whole serialized bare-array document.
pub open spec fn json_doc_of(ms: Seq<CommentModel>) -> Seq<u8> {
    seq![91u8] + comment_items_json_of(ms) + seq![93u8]
}

/// A whole serialized strict-object document.
pub open spec fn json1_doc_of(ms: Seq<CommentModel>) -> Seq<u8> {
    seq![123u8] + key_of(kw_comments()) + json_doc_of(ms) + seq![125u8]
}

/// Escaping one more byte appends its escape.
proof fn lemma_esc_all_snoc(m: Seq<u8>, i: int)
    requires
        0 <= i < m.len(),
    ensures
        esc_all(m.take(i + 1)) == esc_all(m.take(i)) + esc_byte(m[i]),
    decreases i,
{
    if i == 0 {
        assert(m.take(1) =~= seq![m[0]]);
        assert(m.take(1).drop_first() =~= Seq::<u8>::empty());
        assert(esc_all(Seq::<u8>::empty()) =~= Seq::<u8>::empty());
        assert(m.take(0) =~= Seq::<u8>::empty());
        assert(esc_all(m.take(1)) =~= esc_byte(m[0]));
        assert(esc_all(m.take(0)) + esc_byte(m[0]) =~= esc_byte(m[0]));
    } else {
        lemma_esc_all_snoc(m.drop_first(), i - 1);
        assert(m.take(i + 1).drop_first() =~= m.drop_first().take(i));
        assert(m.take(i).drop_first() =~= m.drop_first().take(i - 1));
        assert(m.take(i + 1)[0] == m[0]);
        assert(m.take(i)[0] == m[0]);
        assert(m.drop_first()[i - 1] == m[i]);
        assert(esc_all(m.take(i + 1)) =~= esc_byte(m[0]) + esc_all(m.drop_first().take(i)));
        assert(esc_byte(m[0]) + (esc_all(m.drop_first().take(i - 1)) + esc_byte(m[i])) =~= (
        esc_byte(m[0]) + esc_all(m.drop_first().take(i - 1))) + esc_byte(m[i]));
        assert(esc_all(m.take(i)) =~= esc_byte(m[0]) + esc_all(m.drop_first().take(i - 1)));
    }
}

/// Append the string literal of `b` to `v`.
fn push_str_lit(v: &mut Vec<u8>, b: &Vec<u8>)
    ensures
        final(v)@ == old(v)@ + str_lit_of(b@),
{
    let ghost pre = v@;
    v.push(34);
    let n: usize = b.len();
    let mut i: usize = 0;
    proof {
        assert(esc_all(b@.take(0)) =~= Seq::<u8>::empty());
        assert(v@ =~= pre + seq![34u8] + esc_all(b@.take(0)));
    }
    while i < n
        invariant
            i <= n,
            n == b@.len(),
            v@ == pre + seq![34u8] + esc_all(b@.take(i as int)),
        decreases n - i,
    {
        let ghost prev = v@;
        let c = b[i];
        if c == 34 {
            v.push(92);
            v.push(34);
        } else if c == 92 {
            v.push(92);
            v.push(92);
        } else if c == 8 {
            v.push(92);
            v.push(98);
        } else if c == 9 {
            v.push(92);
            v.push(116);
        } else if c == 10 {
            v.push(92);
            v.push(110);
        } else if c == 12 {
            v.push(92);
            v.push(102);
        } else if c == 13 {
            v.push(92);
            v.push(114);
        } else if c < 32 {
            v.push(92);
            v.push(117);
            v.push(48);
            v.push(48);
            let hi = c / 16;
            let lo = c % 16;
            v.push(if hi < 10 {
                48 + hi
            } else {
                87 + hi
            });
            v.push(if lo < 10 {
                48 + lo
            } else {
                87 + lo
            });
        } else {
            v.push(c);
        }
        proof {
            assert(v@ =~= prev + esc_byte(b@[i as int]));
            lemma_esc_all_snoc(b@, i as int);
            assert(v@ =~= pre + seq![34u8] + esc_all(b@.take(i + 1)));
        }
        i = i + 1;
    }
    v.push(34);
    proof {
        assert(b@.take(n as int) =~= b@);
        assert(v@ =~= pre + str_lit_of(b@));
    }
}

/// Append a quoted key and its colon to `v`.
fn push_key(v: &mut Vec<u8>, w: &Vec<u8>)
    ensures
        final(v)@ == old(v)@ + key_of(w@),
{
    let ghost pre = v@;
    v.push(34);
    crate::bytes::push_bytes(v, w);
    v.push(34);
    v.push(58);
    proof {
        assert(v@ =~= pre + key_of(w@));
    }
}

/// Append a nullable number to `v`.
fn push_opt_u32_json(v: &mut Vec<u8>, o: &Option<u32>)
    ensures
        final(v)@ == old(v)@ + opt_u32_json(crate::comment::opt_u32_view(*o)),
{
    let ghost pre = v@;
    match o {
        Option::None => {
            v.push(110);
            v.push(117);
            v.push(108);
            v.push(108);
            proof {
                assert(v@ =~= pre + kw_null());
            }
        },
        Option::Some(x) => {
            let d = crate::num::u32_to_dec(*x);
            crate::bytes::push_bytes(v, &d);
        },
    }
}

/// One serialized replacement object, as `repl_json_of` says.
fn repl_json_bytes(r: &Replacement) -> (v: Vec<u8>)
    ensures
        v@ == repl_json_of(r@),
{
    let mut v: Vec<u8> = Vec::new();
    v.push(123);
    let kw: Vec<u8> = vec![108, 105, 110, 101];
    proof {
        assert(kw@ =~= kw_line());
    }
    push_key(&mut v, &kw);
    let d = crate::num::u32_to_dec(r.line);
    crate::bytes::push_bytes(&mut v, &d);
    v.push(44);
    let kw: Vec<u8> = vec![101, 110, 100, 76, 105, 110, 101];
    proof {
        assert(kw@ =~= kw_end_line());
    }
    push_key(&mut v, &kw);
    let d = crate::num::u32_to_dec(r.end_line);
    crate::bytes::push_bytes(&mut v, &d);
    v.push(44);
    let kw: Vec<u8> = vec![99, 111, 108, 117, 109, 110];
    proof {
        assert(kw@ =~= kw_column());
    }
    push_key(&mut v, &kw);
    let d = crate::num::u32_to_dec(r.column);
    crate::bytes::push_bytes(&mut v, &d);
    v.push(44);
    let kw: Vec<u8> = vec![101, 110, 100, 67, 111, 108, 117, 109, 110];
    proof {
        assert(kw@ =~= kw_end_column());
    }
    push_key(&mut v, &kw);
    let d = crate::num::u32_to_dec(r.end_column);
    crate::bytes::push_bytes(&mut v, &d);
    v.push(44);
    let kw: Vec<u8> = vec![105, 110, 115, 101, 114, 116, 105, 111, 110, 80, 111, 105, 110, 116];
    proof {
        assert(kw@ =~= kw_insertion_point());
    }
    push_key(&mut v, &kw);
    v.push(34);
    let w = ins_word_vec(r.insertion_point);
    crate::bytes::push_bytes(&mut v, &w);
    v.push(34);
    v.push(44);
    let kw: Vec<u8> = vec![112, 114, 101, 99, 101, 100, 101, 110, 99, 101];
    proof {
        assert(kw@ =~= kw_precedence());
    }
    push_key(&mut v, &kw);
    let d = crate::num::u32_to_dec(r.precedence);
    crate::bytes::push_bytes(&mut v, &d);
    v.push(44);
    let kw: Vec<u8> = vec![114, 101, 112, 108, 97, 99, 101, 109, 101, 110, 116];
    proof {
        assert(kw@ =~= kw_replacement());
    }
    push_key(&mut v, &kw);
    push_str_lit(&mut v, &r.replacement);
    v.push(125);
    proof {
        assert(v@ =~= repl_json_of(r@));
    }
    v
}

/// Serializing one more listed replacement appends a comma where one came
/// before, then its object.
proof fn lemma_repl_items_json_snoc(rs: Seq<ReplacementModel>, i: int)
    requires
        0 <= i < rs.len(),
    ensures
        repl_items_json_of(rs.take(i + 1)) == repl_items_json_of(rs.take(i)) + (if i == 0 {
            Seq::<u8>::empty()
        } else {
            seq![44u8]
        }) + repl_json_of(rs[i]),
    decreases i,
{
    if i == 0 {
        assert(rs.take(1) =~= seq![rs[0]]);
        assert(rs.take(0) =~= Seq::<ReplacementModel>::empty());
        assert(repl_items_json_of(rs.take(1)) =~= repl_json_of(rs[0]));
        assert(repl_items_json_of(rs.take(0)) + Seq::<u8>::empty() + repl_json_of(rs[0])
            =~= repl_json_of(rs[0]));
    } else {
        lemma_repl_items_json_snoc(rs.drop_first(), i - 1);
        assert(rs.take(i + 1).drop_first() =~= rs.drop_first().take(i));
        assert(rs.take(i).drop_first() =~= rs.drop_first().take(i - 1));
        assert(rs.take(i + 1)[0] == rs[0]);
        assert(rs.take(i)[0] == rs[0]);
        assert(rs.drop_first()[i - 1] == rs[i]);
        assert(rs.take(i + 1).len() == i + 1);
        assert(repl_items_json_of(rs.take(i + 1)) =~= repl_json_of(rs[0]) + seq![44u8]
            + repl_items_json_of(rs.drop_first().take(i)));
        let mid = if i == 1 {
            Seq::<u8>::empty()
        } else {
            seq![44u8]
        };
        assert(repl_json_of(rs[0]) + seq![44u8] + (repl_items_json_of(rs.drop_first().take(i - 1))
            + mid + repl_json_of(rs[i])) =~= (repl_json_of(rs[0]) + seq![44u8]
            + repl_items_json_of(rs.drop_first().take(i - 1))) + mid + repl_json_of(rs[i]));
        if i == 1 {
            assert(repl_items_json_of(rs.take(1)) =~= repl_json_of(rs[0]));
            assert((repl_json_of(rs[0]) + seq![44u8] + repl_items_json_of(
                rs.drop_first().take(0),
            )) =~= repl_json_of(rs[0]) + seq![44u8]);
            assert(repl_items_json_of(rs.take(i)) + seq![44u8] =~= repl_json_of(rs[0])
                + seq![44u8] + repl_items_json_of(rs.drop_first().take(i - 1)));
        } else {
            assert(repl_items_json_of(rs.take(i)) =~= repl_json_of(rs[0]) + seq![44u8]
                + repl_items_json_of(rs.drop_first().take(i - 1)));
        }
    }
}

/// The serialized replacement array body, as `repl_items_json_of` says.
fn repl_items_json_bytes(rs: &Vec<Replacement>) -> (v: Vec<u8>)
    ensures
        v@ == repl_items_json_of(crate::comment::repl_seq_view(rs@)),
{
    let ghost ms = crate::comment::repl_seq_view(rs@);
    let mut v: Vec<u8> = Vec::new();
    let n: usize = rs.len();
    let mut i: usize = 0;
    proof {
        assert(ms.take(0) =~= Seq::<ReplacementModel>::empty());
        assert(v@ =~= repl_items_json_of(ms.take(0)));
    }
    while i < n
        invariant
            i <= n,
            n == ms.len(),
            ms == crate::comment::repl_seq_view(rs@),
            v@ == repl_items_json_of(ms.take(i as int)),
        decreases n - i,
    {
        let ghost prev = v@;
        if i > 0 {
            v.push(44);
        }
        let o = repl_json_bytes(&rs[i]);
        crate::bytes::push_bytes(&mut v, &o);
        proof {
            assert(ms[i as int] == rs@[i as int]@);
            lemma_repl_items_json_snoc(ms, i as int);
            if i == 0 {
                assert(v@ =~= prev + Seq::<u8>::empty() + repl_json_of(ms[i as int]));
            } else {
                assert(v@ =~= prev + seq![44u8] + repl_json_of(ms[i as int]));
            }
        }
        i = i + 1;
    }
    proof {
        assert(ms.take(n as int) =~= ms);
    }
    v
}

/// Append a nullable fix to `v`.
fn push_opt_fix_json(v: &mut Vec<u8>, o: &Option<Fix>)
    ensures
        final(v)@ == old(v)@ + opt_fix_json(crate::comment::opt_fix_view(*o)),
{
    let ghost pre = v@;
    match o {
        Option::None => {
            v.push(110);
            v.push(117);
            v.push(108);
            v.push(108);
            proof {
                assert(v@ =~= pre + kw_null());
            }
        },
        Option::Some(f) => {
            v.push(123);
            let kw: Vec<u8> = vec![114, 101, 112, 108, 97, 99, 101, 109, 101, 110, 116, 115];
            proof {
                assert(kw@ =~= kw_replacements());
            }
            push_key(v, &kw);
            v.push(91);
            let items = repl_items_json_bytes(&f.replacements);
            crate::bytes::push_bytes(v, &items);
            v.push(93);
            v.push(125);
            proof {
                assert(v@ =~= pre + fix_json_of(f@));
            }
        },
    }
}

/// One serialized record object, as `comment_json_of` says.
#[verifier::rlimit(100)]
pub fn comment_json_bytes(c: &Comment) -> (v: Vec<u8>)
    ensures
        v@ == comment_json_of(c@),
{
    let mut v: Vec<u8> = Vec::new();
    v.push(123);
    let kw: Vec<u8> = vec![102, 105, 108, 101];
    proof {
        assert(kw@ =~= kw_file());
    }
    push_key(&mut v, &kw);
    push_str_lit(&mut v, &c.file);
    v.push(44);
    let kw: Vec<u8> = vec![108, 105, 110, 101];
    proof {
        assert(kw@ =~= kw_line());
    }
    push_key(&mut v, &kw);
    let d = crate::num::u32_to_dec(c.line);
    crate::bytes::push_bytes(&mut v, &d);
    v.push(44);
    let kw: Vec<u8> = vec![99, 111, 108, 117, 109, 110];
    proof {
        assert(kw@ =~= kw_column());
    }
    push_key(&mut v, &kw);
    let d = crate::num::u32_to_dec(c.column);
    crate::bytes::push_bytes(&mut v, &d);
    v.push(44);
    let kw: Vec<u8> = vec![99, 111, 100, 101];
    proof {
        assert(kw@ =~= kw_code());
    }
    push_key(&mut v, &kw);
    let d = crate::num::u32_to_dec(c.code);
    crate::bytes::push_bytes(&mut v, &d);
    v.push(44);
    let kw: Vec<u8> = vec![108, 101, 118, 101, 108];
    proof {
        assert(kw@ =~= kw_level());
    }
    push_key(&mut v, &kw);
    v.push(34);
    let w = crate::gcc::level_word_vec(c.level);
    crate::bytes::push_bytes(&mut v, &w);
    v.push(34);
    v.push(44);
    let kw: Vec<u8> = vec![109, 101, 115, 115, 97, 103, 101];
    proof {
        assert(kw@ =~= kw_message());
    }
    push_key(&mut v, &kw);
    push_str_lit(&mut v, &c.message);
    v.push(44);
    let kw: Vec<u8> = vec![101, 110, 100, 76, 105, 110, 101];
    proof {
        assert(kw@ =~= kw_end_line());
    }
    push_key(&mut v, &kw);
    push_opt_u32_json(&mut v, &c.end_line);
    v.push(44);
    let kw: Vec<u8> = vec![101, 110, 100, 67, 111, 108, 117, 109, 110];
    proof {
        assert(kw@ =~= kw_end_column());
    }
    push_key(&mut v, &kw);
    push_opt_u32_json(&mut v, &c.end_column);
    v.push(44);
    let kw: Vec<u8> = vec![102, 105, 120];
    proof {
        assert(kw@ =~= kw_fix());
    }
    push_key(&mut v, &kw);
    push_opt_fix_json(&mut v, &c.fix);
    v.push(125);
    proof {
        assert(v@ =~= comment_json_of(c@));
    }
    v
}

/// Serializing one more listed record appends a comma where one came
/// before, then its object.
#[verifier::rlimit(100)]
proof fn lemma_comment_items_json_snoc(ms: Seq<CommentModel>, i: int)
    requires
        0 <= i < ms.len(),
    ensures
        comment_items_json_of(ms.take(i + 1)) == comment_items_json_of(ms.take(i)) + (if i == 0 {
            Seq::<u8>::empty()
        } else {
            seq![44u8]
        }) + comment_json_of(ms[i]),
    decreases i,
{
    if i == 0 {
        assert(ms.take(1) =~= seq![ms[0]]);
        assert(ms.take(0) =~= Seq::<CommentModel>::empty());
        assert(comment_items_json_of(ms.take(1)) =~= comment_json_of(ms[0]));
        assert(comment_items_json_of(ms.take(0)) + Seq::<u8>::empty() + comment_json_of(ms[0])
            =~= comment_json_of(ms[0]));
    } else {
        lemma_comment_items_json_snoc(ms.drop_first(), i - 1);
        assert(ms.take(i + 1).drop_first() =~= ms.drop_first().take(i));
        assert(ms.take(i).drop_first() =~= ms.drop_first().take(i - 1));
        assert(ms.take(i + 1)[0] == ms[0]);
        assert(ms.take(i)[0] == ms[0]);
        assert(ms.drop_first()[i - 1] == ms[i]);
        assert(ms.take(i + 1).len() == i + 1);
        assert(comment_items_json_of(ms.take(i + 1)) =~= comment_json_of(ms[0]) + seq![44u8]
            + comment_items_json_of(ms.drop_first().take(i)));
        let mid = if i == 1 {
            Seq::<u8>::empty()
        } else {
            seq![44u8]
        };
        assert(comment_json_of(ms[0]) + seq![44u8] + (comment_items_json_of(
            ms.drop_first().take(i - 1),
        ) + mid + comment_json_of(ms[i])) =~= (comment_json_of(ms[0]) + seq![44u8]
            + comment_items_json_of(ms.drop_first().take(i - 1))) + mid + comment_json_of(ms[i]));
        if i == 1 {
            assert(comment_items_json_of(ms.take(1)) =~= comment_json_of(ms[0]));
            assert((comment_json_of(ms[0]) + seq![44u8] + comment_items_json_of(
                ms.drop_first().take(0),
            )) =~= comment_json_of(ms[0]) + seq![44u8]);
            assert(comment_items_json_of(ms.take(i)) + seq![44u8] =~= comment_json_of(ms[0])
                + seq![44u8] + comment_items_json_of(ms.drop_first().take(i - 1)));
        } else {
            assert(comment_items_json_of(ms.take(i)) =~= comment_json_of(ms[0]) + seq![44u8]
                + comment_items_json_of(ms.drop_first().take(i - 1)));
        }
    }
}

/// The serialized record array `[...]` of a record set, in the set's
/// canonical order, as `json_doc_of` says.
#[verifier::rlimit(100)]
pub fn json_doc_bytes(set: &crate::comment::CommentSet) -> (v: Vec<u8>)
    ensures
        v@ == json_doc_of(set.seq_view()),
{
    let ghost ms = set.seq_view();
    let mut v: Vec<u8> = Vec::new();
    v.push(91);
    let n = set.len();
    let mut i: usize = 0;
    proof {
        assert(ms.take(0) =~= Seq::<CommentModel>::empty());
        assert(v@ =~= seq![91u8] + comment_items_json_of(ms.take(0)));
    }
    while i < n
        invariant
            i <= n,
            n == ms.len(),
            ms == set.seq_view(),
            v@ == seq![91u8] + comment_items_json_of(ms.take(i as int)),
        decreases n - i,
    {
        let ghost prev = v@;
        if i > 0 {
            v.push(44);
        }
        let o = comment_json_bytes(set.get(i));
        crate::bytes::push_bytes(&mut v, &o);
        proof {
            lemma_comment_items_json_snoc(ms, i as int);
            if i == 0 {
                assert(v@ =~= prev + Seq::<u8>::empty() + comment_json_of(ms[i as int]));
            } else {
                assert(v@ =~= prev + seq![44u8] + comment_json_of(ms[i as int]));
            }
            assert(v@ =~= seq![91u8] + comment_items_json_of(ms.take(i + 1)));
        }
        i = i + 1;
    }
    v.push(93);
    proof {
        assert(ms.take(n as int) =~= ms);
        assert(v@ =~= json_doc_of(ms));
    }
    v
}

/// A window of `s` holding a concatenation splits into its two parts.
proof fn lemma_split_prefix(s: Seq<u8>, p: int, x: Seq<u8>, y: Seq<u8>)
    requires
        0 <= p,
        p + x.len() + y.len() <= s.len(),
        s.subrange(p, p + x.len() + y.len()) == x + y,
    ensures
        s.subrange(p, p + x.len()) == x,
        s.subrange(p + x.len(), p + x.len() + y.len()) == y,
{
    let w = s.subrange(p, p + x.len() + y.len());
    assert forall|i: int| 0 <= i < x.len() implies s.subrange(p, p + x.len())[i] == x[i] by {
        assert(s.subrange(p, p + x.len())[i] == s[p + i]);
        assert(w[i] == s[p + i]);
        assert(w[i] == (x + y)[i]);
    }
    assert(s.subrange(p, p + x.len()) =~= x);
    assert forall|j: int|
        0 <= j < y.len() implies s.subrange(p + x.len(), p + x.len() + y.len())[j] == y[j] by {
        assert(s.subrange(p + x.len(), p + x.len() + y.len())[j] == s[p + x.len() + j]);
        assert(w[x.len() + j] == s[p + (x.len() + j)]);
        assert(w[x.len() + j] == (x + y)[x.len() + j]);
    }
    assert(s.subrange(p + x.len(), p + x.len() + y.len()) =~= y);
}

/// Escaping bytes that need no escape changes nothing.
proof fn lemma_esc_plain(m: Seq<u8>)
    requires
        forall|i: int| 0 <= i < m.len() ==> 32 <= #[trigger] m[i] && m[i] != 34 && m[i] != 92,
    ensures
        esc_all(m) == m,
    decreases m.len(),
{
    if m.len() == 0 {
        assert(esc_all(m) =~= m);
    } else {
        assert(forall|i: int|
            0 <= i < m.drop_first().len() ==> 32 <= #[trigger] m.drop_first()[i]
                && m.drop_first()[i] != 34 && m.drop_first()[i] != 92) by {
            assert(forall|i: int|
                0 <= i < m.drop_first().len() ==> #[trigger] m.drop_first()[i] == m[i + 1]);
        }
        lemma_esc_plain(m.drop_first());
        assert(esc_all(m) =~= seq![m[0]] + m.drop_first());
        assert(seq![m[0]] + m.drop_first() =~= m);
    }
}

/// A hexadecimal digit's character decodes back to its value.
proof fn lemma_hex_digit_of(d: int)
    requires
        0 <= d < 16,
    ensures
        hex_val(hex_digit_of(d)) == d,
{
}

/// Decoding the escaped string literal gives back the original bytes:
/// the literal body `esc_all(m)` followed by the closing quote decodes to
/// `m`, for every byte string `m`.
#[verifier::rlimit(100)]
pub proof fn lemma_string_body_roundtrip(s: Seq<u8>, p: int, m: Seq<u8>)
    requires
        0 <= p,
        p + esc_all(m).len() + 1 <= s.len(),
        s.subrange(p, p + esc_all(m).len() + 1) == esc_all(m) + seq![34u8],
    ensures
        parse_string_body(s, p) == Option::Some((m, p + esc_all(m).len() + 1)),
    decreases m.len(),
{
    let ghost el = esc_all(m).len() as int;
    assert forall|i: int| 0 <= i < el + 1 implies s[p + i] == (esc_all(m) + seq![34u8])[i] by {
        assert(s.subrange(p, p + el + 1)[i] == s[p + i]);
    }
    if m.len() == 0 {
        assert(esc_all(m) =~= Seq::<u8>::empty());
        assert(s[p + 0] == (esc_all(m) + seq![34u8])[0]);
        assert(s[p] == 34);
        assert(m =~= Seq::<u8>::empty());
    } else {
        let b = m[0];
        let e = esc_byte(b);
        let m2 = m.drop_first();
        assert(esc_all(m) == e + esc_all(m2));
        assert((e + esc_all(m2)) + seq![34u8] =~= e + (esc_all(m2) + seq![34u8]));
        lemma_split_prefix(s, p, e, esc_all(m2) + seq![34u8]);
        let q = p + e.len();
        lemma_string_body_roundtrip(s, q, m2);
        assert forall|i: int| 0 <= i < e.len() implies s[p + i] == e[i] by {
            assert(s.subrange(p, q)[i] == s[p + i]);
        }
        assert(s[p + 0] == e[0]);
        assert(seq![b] + m2 =~= m);
        if b == 34 || b == 92 {
            assert(s[p] == 92 && s[p + 1] == b);
        } else if b == 8 {
            assert(s[p] == 92 && s[p + 1] == 98);
        } else if b == 9 {
            assert(s[p] == 92 && s[p + 1] == 116);
        } else if b == 10 {
            assert(s[p] == 92 && s[p + 1] == 110);
        } else if b == 12 {
            assert(s[p] == 92 && s[p + 1] == 102);
        } else if b == 13 {
            assert(s[p] == 92 && s[p + 1] == 114);
        } else if b < 32 {
            assert(s[p] == 92 && s[p + 1] == 117 && s[p + 2] == 48 && s[p + 3] == 48 && s[p + 4]
                == hex_digit_of(b as int / 16) && s[p + 5] == hex_digit_of(b as int % 16));
            lemma_hex_digit_of(b as int / 16);
            lemma_hex_digit_of(b as int % 16);
            vstd::arithmetic::div_mod::lemma_fundamental_div_mod(b as int, 16);
            assert(hex4(s, p + 2) == Option::Some(
                0 * 4096 + 0 * 256 + (b as int / 16) * 16 + (b as int % 16),
            ));
            assert(0 * 4096 + 0 * 256 + (b as int / 16) * 16 + (b as int % 16) == b as int);
            assert(utf8_enc(b as int) =~= seq![b]);
            assert(parse_string_body(s, p) == Option::Some((seq![b] + m2, p + el + 1)));
        } else {
            assert(s[p] == b);
        }
    }
}

/// A digit run bounded by a non-digit ends exactly there.
proof fn lemma_digits_end_exact(s: Seq<u8>, p: int, e: int)
    requires
        0 <= p <= e <= s.len(),
        crate::num::all_digits(s.subrange(p, e)),
        e < s.len() ==> !is_digit(s[e]),
    ensures
        digits_end(s, p) == e,
    decreases e - p,
{
    if p == e {
    } else {
        assert(s.subrange(p, e)[0] == s[p]);
        assert(is_digit(s[p]));
        assert forall|i: int| 0 <= i < e - (p + 1) implies is_digit(
            #[trigger] s.subrange(p + 1, e)[i],
        ) by {
            assert(s.subrange(p + 1, e)[i] == s[p + 1 + i]);
            assert(s.subrange(p, e)[i + 1] == s[p + 1 + i]);
        }
        lemma_digits_end_exact(s, p + 1, e);
    }
}

/// The canonical decimal digits of a value, bounded by a non-digit, parse
/// back to that value.
proof fn lemma_u32_tok_roundtrip(s: Seq<u8>, p: int, v: int)
    requires
        0 <= v <= u32::MAX,
        0 <= p,
        p + dec_of(v).len() <= s.len(),
        s.subrange(p, p + dec_of(v).len()) == dec_of(v),
        p + dec_of(v).len() == s.len() || !is_digit(s[p + dec_of(v).len()]),
    ensures
        parse_u32_tok(s, p) == Option::Some((v, p + dec_of(v).len())),
{
    crate::num::lemma_dec_of(v);
    let e = p + dec_of(v).len();
    lemma_digits_end_exact(s, p, e);
    assert(s.subrange(p, e)[0] == s[p]);
    assert(digits_val(s.subrange(p, e)) == v);
}

/// Skipping whitespace where none stands is the identity.
proof fn lemma_ws_noop(s: Seq<u8>, p: int)
    requires
        0 <= p,
        p < s.len() ==> !is_ws(s[p]),
    ensures
        ws_end(s, p) == p,
{
}

/// A level's own name names it back; `note` only where allowed.
proof fn lemma_level_of_name(l: Level, allow_note: bool)
    ensures
        level_of_name(crate::gcc::level_word(l), allow_note) == (if l == Level::Note
            && !allow_note {
            Option::<Level>::None
        } else {
            Option::Some(l)
        }),
{
    assert(crate::gcc::level_word(Level::Error).len() == 5);
    assert(crate::gcc::level_word(Level::Warning).len() == 7);
    assert(crate::gcc::level_word(Level::Info).len() == 4);
    assert(crate::gcc::level_word(Level::Style).len() == 5);
    assert(crate::gcc::level_word(Level::Note).len() == 4);
    assert(crate::gcc::level_word(Level::Error)[0] == 101);
    assert(crate::gcc::level_word(Level::Style)[0] == 115);
    assert(crate::gcc::level_word(Level::Info)[0] == 105);
    assert(crate::gcc::level_word(Level::Note)[0] == 110);
}

/// Each record key names its own field: the nine key words are pairwise
/// distinct.
proof fn lemma_ckey_names()
    ensures
        ckey_of(kw_file()) == Option::Some(CKey::File),
        ckey_of(kw_line()) == Option::Some(CKey::Line),
        ckey_of(kw_column()) == Option::Some(CKey::Column),
        ckey_of(kw_code()) == Option::Some(CKey::Code),
        ckey_of(kw_level()) == Option::Some(CKey::Level),
        ckey_of(kw_message()) == Option::Some(CKey::Message),
        ckey_of(kw_end_line()) == Option::Some(CKey::EndLine),
        ckey_of(kw_end_column()) == Option::Some(CKey::EndColumn),
        ckey_of(kw_fix()) == Option::Some(CKey::FixKey),
{
    assert(kw_file().len() == 4);
    assert(kw_line().len() == 4);
    assert(kw_column().len() == 6);
    assert(kw_code().len() == 4);
    assert(kw_level().len() == 5);
    assert(kw_message().len() == 7);
    assert(kw_end_line().len() == 7);
    assert(kw_end_column().len() == 9);
    assert(kw_fix().len() == 3);
    assert(kw_file()[0] == 102);
    assert(kw_line()[0] == 108);
    assert(kw_code()[0] == 99);
    assert(kw_message()[0] == 109);
    assert(kw_end_line()[0] == 101);
}

/// A quoted plain word at `q` decodes as a string literal to itself.
proof fn lemma_word_literal(s: Seq<u8>, q: int, w: Seq<u8>)
    requires
        0 <= q,
        q + w.len() + 2 <= s.len(),
        s.subrange(q, q + w.len() + 2) == seq![34u8] + w + seq![34u8],
        forall|i: int| 0 <= i < w.len() ==> 32 <= #[trigger] w[i] && w[i] != 34 && w[i] != 92,
    ensures
        s[q] == 34,
        parse_string_body(s, q + 1) == Option::Some((w, q + w.len() + 2)),
{
    lemma_esc_plain(w);
    assert(seq![34u8] + w + seq![34u8] =~= seq![34u8] + (w + seq![34u8]));
    lemma_split_prefix(s, q, seq![34u8], w + seq![34u8]);
    assert(s.subrange(q, q + 1)[0] == s[q]);
    lemma_string_body_roundtrip(s, q + 1, w);
}

/// One field of a serialized record object: unfolding the field parser at
/// the key consumes the key, the colon, and the value, then either
/// continues at the next key or closes the object.
proof fn lemma_comment_fields_step(
    s: Seq<u8>,
    q: int,
    w: Seq<u8>,
    a: CommentAcc,
    a2: CommentAcc,
    vp: int,
    j1: bool,
    closing: bool,
)
    requires
        0 <= q,
        q + w.len() + 3 <= s.len(),
        s[q] == 34,
        parse_string_body(s, q + 1) == Option::Some((w, q + w.len() + 2)),
        s[q + w.len() + 2] == 58,
        q + w.len() + 3 < s.len() ==> !is_ws(s[q + w.len() + 3]),
        ckey_of(w) matches Option::Some(k) && comment_step(s, q + w.len() + 3, k, a, j1)
            == Option::Some((a2, vp)),
        0 <= vp < s.len(),
        !is_ws(s[vp]),
        closing ==> s[vp] == 125,
        !closing ==> s[vp] == 44 && vp + 1 < s.len() && !is_ws(s[vp + 1]) && q < vp + 1,
    ensures
        closing ==> parse_comment_fields(s, q, a, j1) == (match comment_acc_done(a2, j1) {
            Option::Some(m) => Option::Some((m, vp + 1)),
            Option::None => Option::None::<(CommentModel, int)>,
        }),
        !closing ==> parse_comment_fields(s, q, a, j1) == parse_comment_fields(s, vp + 1, a2, j1),
{
    reveal(parse_comment_fields);
    let kp = q + w.len() + 2;
    lemma_ws_noop(s, kp);
    lemma_ws_noop(s, kp + 1);
    lemma_ws_noop(s, vp);
    if !closing {
        lemma_ws_noop(s, vp + 1);
    }
}

/// A serialized string value decodes as a string token to its bytes.
proof fn lemma_strlit_value(s: Seq<u8>, vs: int, m: Seq<u8>)
    requires
        0 <= vs,
        vs + str_lit_of(m).len() <= s.len(),
        s.subrange(vs, vs + str_lit_of(m).len()) == str_lit_of(m),
    ensures
        parse_string_tok(s, vs) == Option::Some((m, vs + str_lit_of(m).len())),
{
    assert(str_lit_of(m) =~= seq![34u8] + (esc_all(m) + seq![34u8]));
    lemma_split_prefix(s, vs, seq![34u8], esc_all(m) + seq![34u8]);
    assert(s.subrange(vs, vs + 1)[0] == s[vs]);
    lemma_string_body_roundtrip(s, vs + 1, m);
}

/// A serialized nullable number parses back: `null` to absent, canonical
/// digits to their value.
proof fn lemma_opt_u32_value(s: Seq<u8>, vs: int, o: Option<int>)
    requires
        0 <= vs,
        vs + opt_u32_json(o).len() <= s.len(),
        s.subrange(vs, vs + opt_u32_json(o).len()) == opt_u32_json(o),
        o matches Option::Some(v) ==> 0 <= v <= u32::MAX,
        vs + opt_u32_json(o).len() == s.len() || !is_digit(s[vs + opt_u32_json(o).len()]),
    ensures
        parse_opt_u32_tok(s, vs) == Option::Some((o, vs + opt_u32_json(o).len())),
{
    match o {
        Option::None => {
            assert(null_at(s, vs));
            assert(opt_u32_json(o).len() == 4);
        },
        Option::Some(v) => {
            crate::num::lemma_dec_of(v);
            assert(s.subrange(vs, vs + dec_of(v).len())[0] == s[vs]);
            assert(is_digit(s[vs]));
            if null_at(s, vs) {
                assert(s.subrange(vs, vs + 4)[0] == s[vs]);
                assert(s[vs] == 110);
            }
            lemma_u32_tok_roundtrip(s, vs, v);
        },
    }
}

/// Every wire field of the record fits, and it carries no fix: the records
/// this library serializes and re-parses losslessly.
pub open spec fn comment_plain(c: CommentModel) -> bool {
    0 <= c.line <= u32::MAX && 0 <= c.column <= u32::MAX && 0 <= c.code <= u32::MAX && (
    match c.end_line {
        Option::Some(v) => 0 <= v <= u32::MAX,
        Option::None => true,
    }) && (match c.end_column {
        Option::Some(v) => 0 <= v <= u32::MAX,
        Option::None => true,
    }) && c.fix matches Option::None
}

/// A quoted key and its colon stand decoded at `q`.
pub open spec fn wire_key_at(s: Seq<u8>, q: int, w: Seq<u8>) -> bool {
    0 <= q && q + w.len() + 3 <= s.len() && s[q] == 34 && parse_string_body(s, q + 1)
        == Option::Some((w, q + w.len() + 2)) && s[q + w.len() + 2] == 58
}

/// A key block window `"key":` gives the decoded key and the colon.
proof fn lemma_key_block(s: Seq<u8>, q: int, w: Seq<u8>)
    requires
        0 <= q,
        q + w.len() + 3 <= s.len(),
        s.subrange(q, q + w.len() + 3) == key_of(w),
        forall|i: int| 0 <= i < w.len() ==> 32 <= #[trigger] w[i] && w[i] != 34 && w[i] != 92,
    ensures
        wire_key_at(s, q, w),
{
    assert(key_of(w) =~= (seq![34u8] + w + seq![34u8]) + seq![58u8]);
    lemma_split_prefix(s, q, seq![34u8] + w + seq![34u8], seq![58u8]);
    lemma_word_literal(s, q, w);
    assert(s.subrange(q + w.len() + 2, q + w.len() + 3)[0] == s[q + w.len() + 2]);
}

/// A quoted word given as three adjacent windows decodes as one literal.
proof fn lemma_quoted_word(s: Seq<u8>, v: int, w: Seq<u8>)
    requires
        0 <= v,
        v + w.len() + 2 <= s.len(),
        s.subrange(v, v + 1) == seq![34u8],
        s.subrange(v + 1, v + 1 + w.len()) == w,
        s.subrange(v + 1 + w.len(), v + 2 + w.len()) == seq![34u8],
        forall|i: int| 0 <= i < w.len() ==> 32 <= #[trigger] w[i] && w[i] != 34 && w[i] != 92,
    ensures
        s[v] == 34,
        parse_string_body(s, v + 1) == Option::Some((w, v + w.len() + 2)),
{
    assert forall|i: int| 0 <= i < w.len() + 2 implies s.subrange(v, v + w.len() + 2)[i] == (
    seq![34u8] + w + seq![34u8])[i] by {
        assert(s.subrange(v, v + w.len() + 2)[i] == s[v + i]);
        if i == 0 {
            assert(s.subrange(v, v + 1)[0] == s[v]);
        } else if i < w.len() + 1 {
            assert(s.subrange(v + 1, v + 1 + w.len())[i - 1] == s[v + i]);
        } else {
            assert(s.subrange(v + 1 + w.len(), v + 2 + w.len())[0] == s[v + w.len() + 1]);
        }
    }
    assert(s.subrange(v, v + w.len() + 2) =~= seq![34u8] + w + seq![34u8]);
    lemma_word_literal(s, v, w);
}

/// The wire facts of one serialized fix-free record object at `p`: the
/// opening brace, each quoted key with its colon, each value's token
/// parse, and each separator, at their exact offsets.
#[verifier::rlimit(100)]
proof fn lemma_comment_wire(s: Seq<u8>, p: int, c: CommentModel)
    requires
        comment_plain(c),
        0 <= p,
        p + comment_json_of(c).len() <= s.len(),
        s.subrange(p, p + comment_json_of(c).len()) == comment_json_of(c),
    ensures
        ({
            let q1 = p + 1;
            let q2 = q1 + 7 + str_lit_of(c.file).len() + 1;
            let q3 = q2 + 7 + dec_of(c.line).len() + 1;
            let q4 = q3 + 9 + dec_of(c.column).len() + 1;
            let q5 = q4 + 7 + dec_of(c.code).len() + 1;
            let q6 = q5 + 8 + crate::gcc::level_word(c.level).len() + 2 + 1;
            let q7 = q6 + 10 + str_lit_of(c.message).len() + 1;
            let q8 = q7 + 10 + opt_u32_json(c.end_line).len() + 1;
            let q9 = q8 + 12 + opt_u32_json(c.end_column).len() + 1;
            let end = q9 + 6 + 4 + 1;
            end == p + comment_json_of(c).len() && s[p] == 123 && wire_key_at(s, q1, kw_file())
                && wire_key_at(s, q2, kw_line()) && wire_key_at(s, q3, kw_column()) && wire_key_at(
                s,
                q4,
                kw_code(),
            ) && wire_key_at(s, q5, kw_level()) && wire_key_at(s, q6, kw_message()) && wire_key_at(
                s,
                q7,
                kw_end_line(),
            ) && wire_key_at(s, q8, kw_end_column()) && wire_key_at(s, q9, kw_fix())
                && parse_string_tok(s, q1 + 7) == Option::Some((c.file, q2 - 1)) && parse_u32_tok(
                s,
                q2 + 7,
            ) == Option::Some((c.line, q3 - 1)) && parse_u32_tok(s, q3 + 9) == Option::Some(
                (c.column, q4 - 1),
            ) && parse_u32_tok(s, q4 + 7) == Option::Some((c.code, q5 - 1)) && s[q5 + 8] == 34
                && parse_string_body(s, q5 + 9) == Option::Some(
                (crate::gcc::level_word(c.level), q6 - 1),
            ) && parse_string_tok(s, q6 + 10) == Option::Some((c.message, q7 - 1))
                && parse_opt_u32_tok(s, q7 + 10) == Option::Some((c.end_line, q8 - 1))
                && parse_opt_u32_tok(s, q8 + 12) == Option::Some((c.end_column, q9 - 1))
                && null_at(s, q9 + 6) && s[q2 - 1] == 44 && s[q3 - 1] == 44 && s[q4 - 1] == 44
                && s[q5 - 1] == 44 && s[q6 - 1] == 44 && s[q7 - 1] == 44 && s[q8 - 1] == 44 && s[q9
                - 1] == 44 && s[end - 1] == 125
        }),
{
    let w5 = crate::gcc::level_word(c.level);
    // prefixes of the wire, exactly as the serialization is put together
    let t01 = seq![123u8];
    let t02 = t01 + key_of(kw_file());
    let t03 = t02 + str_lit_of(c.file);
    let t04 = t03 + seq![44u8];
    let t05 = t04 + key_of(kw_line());
    let t06 = t05 + dec_of(c.line);
    let t07 = t06 + seq![44u8];
    let t08 = t07 + key_of(kw_column());
    let t09 = t08 + dec_of(c.column);
    let t10 = t09 + seq![44u8];
    let t11 = t10 + key_of(kw_code());
    let t12 = t11 + dec_of(c.code);
    let t13 = t12 + seq![44u8];
    let t14 = t13 + key_of(kw_level());
    let t15 = t14 + seq![34u8];
    let t16 = t15 + w5;
    let t17 = t16 + seq![34u8];
    let t18 = t17 + seq![44u8];
    let t19 = t18 + key_of(kw_message());
    let t20 = t19 + str_lit_of(c.message);
    let t21 = t20 + seq![44u8];
    let t22 = t21 + key_of(kw_end_line());
    let t23 = t22 + opt_u32_json(c.end_line);
    let t24 = t23 + seq![44u8];
    let t25 = t24 + key_of(kw_end_column());
    let t26 = t25 + opt_u32_json(c.end_column);
    let t27 = t26 + seq![44u8];
    let t28 = t27 + key_of(kw_fix());
    let t29 = t28 + opt_fix_json(c.fix);
    assert(opt_fix_json(c.fix) == kw_null());
    assert(comment_json_of(c) == t29 + seq![125u8]);
    lemma_split_prefix(s, p, t29, seq![125u8]);
    lemma_split_prefix(s, p, t28, opt_fix_json(c.fix));
    lemma_split_prefix(s, p, t27, key_of(kw_fix()));
    lemma_split_prefix(s, p, t26, seq![44u8]);
    lemma_split_prefix(s, p, t25, opt_u32_json(c.end_column));
    lemma_split_prefix(s, p, t24, key_of(kw_end_column()));
    lemma_split_prefix(s, p, t23, seq![44u8]);
    lemma_split_prefix(s, p, t22, opt_u32_json(c.end_line));
    lemma_split_prefix(s, p, t21, key_of(kw_end_line()));
    lemma_split_prefix(s, p, t20, seq![44u8]);
    lemma_split_prefix(s, p, t19, str_lit_of(c.message));
    lemma_split_prefix(s, p, t18, key_of(kw_message()));
    lemma_split_prefix(s, p, t17, seq![44u8]);
    lemma_split_prefix(s, p, t16, seq![34u8]);
    lemma_split_prefix(s, p, t15, w5);
    lemma_split_prefix(s, p, t14, seq![34u8]);
    lemma_split_prefix(s, p, t13, key_of(kw_level()));
    lemma_split_prefix(s, p, t12, seq![44u8]);
    lemma_split_prefix(s, p, t11, dec_of(c.code));
    lemma_split_prefix(s, p, t10, key_of(kw_code()));
    lemma_split_prefix(s, p, t09, seq![44u8]);
    lemma_split_prefix(s, p, t08, dec_of(c.column));
    lemma_split_prefix(s, p, t07, key_of(kw_column()));
    lemma_split_prefix(s, p, t06, seq![44u8]);
    lemma_split_prefix(s, p, t05, dec_of(c.line));
    lemma_split_prefix(s, p, t04, key_of(kw_line()));
    lemma_split_prefix(s, p, t03, seq![44u8]);
    lemma_split_prefix(s, p, t02, str_lit_of(c.file));
    lemma_split_prefix(s, p, t01, key_of(kw_file()));
    lemma_comment_wire_keys(s, p, c);
    lemma_comment_wire_values(s, p, c);
}

/// Key and separator facts of one serialized fix-free record object.
#[verifier::rlimit(100)]
proof fn lemma_comment_wire_keys(s: Seq<u8>, p: int, c: CommentModel)
    requires
        comment_plain(c),
        0 <= p,
        p + comment_json_of(c).len() <= s.len(),
        ({
            let q1 = p + 1;
            let q2 = q1 + 7 + str_lit_of(c.file).len() + 1;
            let q3 = q2 + 7 + dec_of(c.line).len() + 1;
            let q4 = q3 + 9 + dec_of(c.column).len() + 1;
            let q5 = q4 + 7 + dec_of(c.code).len() + 1;
            let q6 = q5 + 8 + crate::gcc::level_word(c.level).len() + 2 + 1;
            let q7 = q6 + 10 + str_lit_of(c.message).len() + 1;
            let q8 = q7 + 10 + opt_u32_json(c.end_line).len() + 1;
            let q9 = q8 + 12 + opt_u32_json(c.end_column).len() + 1;
            let end = q9 + 6 + 4 + 1;
            let w5 = crate::gcc::level_word(c.level);
            end == p + comment_json_of(c).len() && s.subrange(p, q1) == seq![123u8] && s.subrange(
                q1,
                q1 + 7,
            ) == key_of(kw_file()) && s.subrange(q1 + 7, q2 - 1) == str_lit_of(c.file)
                && s.subrange(q2 - 1, q2) == seq![44u8] && s.subrange(q2, q2 + 7) == key_of(
                kw_line(),
            ) && s.subrange(q2 + 7, q3 - 1) == dec_of(c.line) && s.subrange(q3 - 1, q3) == seq![
                44u8,
            ] && s.subrange(q3, q3 + 9) == key_of(kw_column()) && s.subrange(q3 + 9, q4 - 1)
                == dec_of(c.column) && s.subrange(q4 - 1, q4) == seq![44u8] && s.subrange(
                q4,
                q4 + 7,
            ) == key_of(kw_code()) && s.subrange(q4 + 7, q5 - 1) == dec_of(c.code) && s.subrange(
                q5 - 1,
                q5,
            ) == seq![44u8] && s.subrange(q5, q5 + 8) == key_of(kw_level()) && s.subrange(
                q5 + 8,
                q5 + 9,
            ) == seq![34u8] && s.subrange(q5 + 9, q5 + 9 + w5.len()) == w5 && s.subrange(
                q5 + 9 + w5.len(),
                q6 - 1,
            ) == seq![34u8] && s.subrange(q6 - 1, q6) == seq![44u8] && s.subrange(q6, q6 + 10)
                == key_of(kw_message()) && s.subrange(q6 + 10, q7 - 1) == str_lit_of(c.message)
                && s.subrange(q7 - 1, q7) == seq![44u8] && s.subrange(q7, q7 + 10) == key_of(
                kw_end_line(),
            ) && s.subrange(q7 + 10, q8 - 1) == opt_u32_json(c.end_line) && s.subrange(q8 - 1, q8)
                == seq![44u8] && s.subrange(q8, q8 + 12) == key_of(kw_end_column()) && s.subrange(
                q8 + 12,
                q9 - 1,
            ) == opt_u32_json(c.end_column) && s.subrange(q9 - 1, q9) == seq![44u8] && s.subrange(
                q9,
                q9 + 6,
            ) == key_of(kw_fix()) && s.subrange(q9 + 6, end - 1) == kw_null() && s.subrange(
                end - 1,
                end,
            ) == seq![125u8]
        }),
    ensures
        ({
            let q1 = p + 1;
            let q2 = q1 + 7 + str_lit_of(c.file).len() + 1;
            let q3 = q2 + 7 + dec_of(c.line).len() + 1;
            let q4 = q3 + 9 + dec_of(c.column).len() + 1;
            let q5 = q4 + 7 + dec_of(c.code).len() + 1;
            let q6 = q5 + 8 + crate::gcc::level_word(c.level).len() + 2 + 1;
            let q7 = q6 + 10 + str_lit_of(c.message).len() + 1;
            let q8 = q7 + 10 + opt_u32_json(c.end_line).len() + 1;
            let q9 = q8 + 12 + opt_u32_json(c.end_column).len() + 1;
            let end = q9 + 6 + 4 + 1;
            s[p] == 123 && wire_key_at(s, q1, kw_file()) && wire_key_at(s, q2, kw_line())
                && wire_key_at(s, q3, kw_column()) && wire_key_at(s, q4, kw_code()) && wire_key_at(
                s,
                q5,
                kw_level(),
            ) && wire_key_at(s, q6, kw_message()) && wire_key_at(s, q7, kw_end_line())
                && wire_key_at(s, q8, kw_end_column()) && wire_key_at(s, q9, kw_fix()) && s[q2 - 1]
                == 44 && s[q3 - 1] == 44 && s[q4 - 1] == 44 && s[q5 - 1] == 44 && s[q6 - 1] == 44
                && s[q7 - 1] == 44 && s[q8 - 1] == 44 && s[q9 - 1] == 44 && s[end - 1] == 125
        }),
{
    let q1 = p + 1;
    let q2 = q1 + 7 + str_lit_of(c.file).len() + 1;
    let q3 = q2 + 7 + dec_of(c.line).len() + 1;
    let q4 = q3 + 9 + dec_of(c.column).len() + 1;
    let q5 = q4 + 7 + dec_of(c.code).len() + 1;
    let w5 = crate::gcc::level_word(c.level);
    let q6 = q5 + 8 + w5.len() + 2 + 1;
    let q7 = q6 + 10 + str_lit_of(c.message).len() + 1;
    let q8 = q7 + 10 + opt_u32_json(c.end_line).len() + 1;
    let q9 = q8 + 12 + opt_u32_json(c.end_column).len() + 1;
    let end = q9 + 6 + 4 + 1;
    assert(s.subrange(p, q1)[0] == s[p]);
    assert(s.subrange(q2 - 1, q2)[0] == s[q2 - 1]);
    assert(s.subrange(q3 - 1, q3)[0] == s[q3 - 1]);
    assert(s.subrange(q4 - 1, q4)[0] == s[q4 - 1]);
    assert(s.subrange(q5 - 1, q5)[0] == s[q5 - 1]);
    assert(s.subrange(q6 - 1, q6)[0] == s[q6 - 1]);
    assert(s.subrange(q7 - 1, q7)[0] == s[q7 - 1]);
    assert(s.subrange(q8 - 1, q8)[0] == s[q8 - 1]);
    assert(s.subrange(q9 - 1, q9)[0] == s[q9 - 1]);
    assert(s.subrange(end - 1, end)[0] == s[end - 1]);
    lemma_key_block(s, q1, kw_file());
    lemma_key_block(s, q2, kw_line());
    lemma_key_block(s, q3, kw_column());
    lemma_key_block(s, q4, kw_code());
    lemma_key_block(s, q5, kw_level());
    lemma_key_block(s, q6, kw_message());
    lemma_key_block(s, q7, kw_end_line());
    lemma_key_block(s, q8, kw_end_column());
    lemma_key_block(s, q9, kw_fix());
}

/// Value-token facts of one serialized fix-free record object.
#[verifier::rlimit(100)]
proof fn lemma_comment_wire_values(s: Seq<u8>, p: int, c: CommentModel)
    requires
        comment_plain(c),
        0 <= p,
        p + comment_json_of(c).len() <= s.len(),
        ({
            let q1 = p + 1;
            let q2 = q1 + 7 + str_lit_of(c.file).len() + 1;
            let q3 = q2 + 7 + dec_of(c.line).len() + 1;
            let q4 = q3 + 9 + dec_of(c.column).len() + 1;
            let q5 = q4 + 7 + dec_of(c.code).len() + 1;
            let q6 = q5 + 8 + crate::gcc::level_word(c.level).len() + 2 + 1;
            let q7 = q6 + 10 + str_lit_of(c.message).len() + 1;
            let q8 = q7 + 10 + opt_u32_json(c.end_line).len() + 1;
            let q9 = q8 + 12 + opt_u32_json(c.end_column).len() + 1;
            let end = q9 + 6 + 4 + 1;
            let w5 = crate::gcc::level_word(c.level);
            end == p + comment_json_of(c).len() && s.subrange(p, q1) == seq![123u8] && s.subrange(
                q1,
                q1 + 7,
            ) == key_of(kw_file()) && s.subrange(q1 + 7, q2 - 1) == str_lit_of(c.file)
                && s.subrange(q2 - 1, q2) == seq![44u8] && s.subrange(q2, q2 + 7) == key_of(
                kw_line(),
            ) && s.subrange(q2 + 7, q3 - 1) == dec_of(c.line) && s.subrange(q3 - 1, q3) == seq![
                44u8,
            ] && s.subrange(q3, q3 + 9) == key_of(kw_column()) && s.subrange(q3 + 9, q4 - 1)
                == dec_of(c.column) && s.subrange(q4 - 1, q4) == seq![44u8] && s.subrange(
                q4,
                q4 + 7,
            ) == key_of(kw_code()) && s.subrange(q4 + 7, q5 - 1) == dec_of(c.code) && s.subrange(
                q5 - 1,
                q5,
            ) == seq![44u8] && s.subrange(q5, q5 + 8) == key_of(kw_level()) && s.subrange(
                q5 + 8,
                q5 + 9,
            ) == seq![34u8] && s.subrange(q5 + 9, q5 + 9 + w5.len()) == w5 && s.subrange(
                q5 + 9 + w5.len(),
                q6 - 1,
            ) == seq![34u8] && s.subrange(q6 - 1, q6) == seq![44u8] && s.subrange(q6, q6 + 10)
                == key_of(kw_message()) && s.subrange(q6 + 10, q7 - 1) == str_lit_of(c.message)
                && s.subrange(q7 - 1, q7) == seq![44u8] && s.subrange(q7, q7 + 10) == key_of(
                kw_end_line(),
            ) && s.subrange(q7 + 10, q8 - 1) == opt_u32_json(c.end_line) && s.subrange(q8 - 1, q8)
                == seq![44u8] && s.subrange(q8, q8 + 12) == key_of(kw_end_column()) && s.subrange(
                q8 + 12,
                q9 - 1,
            ) == opt_u32_json(c.end_column) && s.subrange(q9 - 1, q9) == seq![44u8] && s.subrange(
                q9,
                q9 + 6,
            ) == key_of(kw_fix()) && s.subrange(q9 + 6, end - 1) == kw_null() && s.subrange(
                end - 1,
                end,
            ) == seq![125u8]
        }),
    ensures
        ({
            let q1 = p + 1;
            let q2 = q1 + 7 + str_lit_of(c.file).len() + 1;
            let q3 = q2 + 7 + dec_of(c.line).len() + 1;
            let q4 = q3 + 9 + dec_of(c.column).len() + 1;
            let q5 = q4 + 7 + dec_of(c.code).len() + 1;
            let q6 = q5 + 8 + crate::gcc::level_word(c.level).len() + 2 + 1;
            let q7 = q6 + 10 + str_lit_of(c.message).len() + 1;
            let q8 = q7 + 10 + opt_u32_json(c.end_line).len() + 1;
            let q9 = q8 + 12 + opt_u32_json(c.end_column).len() + 1;
            parse_string_tok(s, q1 + 7) == Option::Some((c.file, q2 - 1)) && parse_u32_tok(
                s,
                q2 + 7,
            ) == Option::Some((c.line, q3 - 1)) && parse_u32_tok(s, q3 + 9) == Option::Some(
                (c.column, q4 - 1),
            ) && parse_u32_tok(s, q4 + 7) == Option::Some((c.code, q5 - 1)) && s[q5 + 8] == 34
                && parse_string_body(s, q5 + 9) == Option::Some(
                (crate::gcc::level_word(c.level), q6 - 1),
            ) && parse_string_tok(s, q6 + 10) == Option::Some((c.message, q7 - 1))
                && parse_opt_u32_tok(s, q7 + 10) == Option::Some((c.end_line, q8 - 1))
                && parse_opt_u32_tok(s, q8 + 12) == Option::Some((c.end_column, q9 - 1))
                && null_at(s, q9 + 6)
        }),
{
    let q1 = p + 1;
    let q2 = q1 + 7 + str_lit_of(c.file).len() + 1;
    let q3 = q2 + 7 + dec_of(c.line).len() + 1;
    let q4 = q3 + 9 + dec_of(c.column).len() + 1;
    let q5 = q4 + 7 + dec_of(c.code).len() + 1;
    let w5 = crate::gcc::level_word(c.level);
    let q6 = q5 + 8 + w5.len() + 2 + 1;
    let q7 = q6 + 10 + str_lit_of(c.message).len() + 1;
    let q8 = q7 + 10 + opt_u32_json(c.end_line).len() + 1;
    let q9 = q8 + 12 + opt_u32_json(c.end_column).len() + 1;
    lemma_strlit_value(s, q1 + 7, c.file);
    crate::num::lemma_dec_of(c.line);
    crate::num::lemma_dec_of(c.column);
    crate::num::lemma_dec_of(c.code);
    assert(s.subrange(q3 - 1, q3)[0] == s[q3 - 1]);
    assert(s.subrange(q4 - 1, q4)[0] == s[q4 - 1]);
    assert(s.subrange(q5 - 1, q5)[0] == s[q5 - 1]);
    assert(s.subrange(q8 - 1, q8)[0] == s[q8 - 1]);
    assert(s.subrange(q9 - 1, q9)[0] == s[q9 - 1]);
    lemma_u32_tok_roundtrip(s, q2 + 7, c.line);
    lemma_u32_tok_roundtrip(s, q3 + 9, c.column);
    lemma_u32_tok_roundtrip(s, q4 + 7, c.code);
    lemma_quoted_word(s, q5 + 8, w5);
    lemma_strlit_value(s, q6 + 10, c.message);
    lemma_opt_u32_value(s, q7 + 10, c.end_line);
    lemma_opt_u32_value(s, q8 + 12, c.end_column);
    assert(null_at(s, q9 + 6));
}

/// The `file` field folds its string value in.
proof fn lemma_cstep_file(s: Seq<u8>, vs: int, a: CommentAcc, m: Seq<u8>, np: int, j1: bool)
    requires
        a.file matches Option::None,
        parse_string_tok(s, vs) == Option::Some((m, np)),
    ensures
        comment_step(s, vs, CKey::File, a, j1) == Option::Some(
            (CommentAcc { file: Option::Some(m), ..a }, np),
        ),
{
    reveal(comment_step);
}

/// The `message` field folds its string value in.
proof fn lemma_cstep_message(s: Seq<u8>, vs: int, a: CommentAcc, m: Seq<u8>, np: int, j1: bool)
    requires
        a.message matches Option::None,
        parse_string_tok(s, vs) == Option::Some((m, np)),
    ensures
        comment_step(s, vs, CKey::Message, a, j1) == Option::Some(
            (CommentAcc { message: Option::Some(m), ..a }, np),
        ),
{
    reveal(comment_step);
}

/// The `line` field folds its number in.
proof fn lemma_cstep_line(s: Seq<u8>, vs: int, a: CommentAcc, v: int, np: int, j1: bool)
    requires
        a.line matches Option::None,
        parse_u32_tok(s, vs) == Option::Some((v, np)),
    ensures
        comment_step(s, vs, CKey::Line, a, j1) == Option::Some(
            (CommentAcc { line: Option::Some(v), ..a }, np),
        ),
{
    reveal(comment_step);
}

/// The `column` field folds its number in.
proof fn lemma_cstep_column(s: Seq<u8>, vs: int, a: CommentAcc, v: int, np: int, j1: bool)
    requires
        a.column matches Option::None,
        parse_u32_tok(s, vs) == Option::Some((v, np)),
    ensures
        comment_step(s, vs, CKey::Column, a, j1) == Option::Some(
            (CommentAcc { column: Option::Some(v), ..a }, np),
        ),
{
    reveal(comment_step);
}

/// The `code` field folds its number in.
proof fn lemma_cstep_code(s: Seq<u8>, vs: int, a: CommentAcc, v: int, np: int, j1: bool)
    requires
        a.code matches Option::None,
        parse_u32_tok(s, vs) == Option::Some((v, np)),
    ensures
        comment_step(s, vs, CKey::Code, a, j1) == Option::Some(
            (CommentAcc { code: Option::Some(v), ..a }, np),
        ),
{
    reveal(comment_step);
}

/// The `level` field folds its named severity in.
proof fn lemma_cstep_level(s: Seq<u8>, vs: int, a: CommentAcc, l: Level, np: int, j1: bool)
    requires
        a.level matches Option::None,
        parse_level_tok(s, vs, !j1) == Option::Some((l, np)),
    ensures
        comment_step(s, vs, CKey::Level, a, j1) == Option::Some(
            (CommentAcc { level: Option::Some(l), ..a }, np),
        ),
{
    reveal(comment_step);
}

/// The `endLine` field folds its nullable number in.
proof fn lemma_cstep_end_line(s: Seq<u8>, vs: int, a: CommentAcc, o: Option<int>, np: int, j1: bool)
    requires
        a.end_line matches Option::None,
        parse_opt_u32_tok(s, vs) == Option::Some((o, np)),
    ensures
        comment_step(s, vs, CKey::EndLine, a, j1) == Option::Some(
            (CommentAcc { end_line: Option::Some(o), ..a }, np),
        ),
{
    reveal(comment_step);
}

/// The `endColumn` field folds its nullable number in.
proof fn lemma_cstep_end_column(
    s: Seq<u8>,
    vs: int,
    a: CommentAcc,
    o: Option<int>,
    np: int,
    j1: bool,
)
    requires
        a.end_column matches Option::None,
        parse_opt_u32_tok(s, vs) == Option::Some((o, np)),
    ensures
        comment_step(s, vs, CKey::EndColumn, a, j1) == Option::Some(
            (CommentAcc { end_column: Option::Some(o), ..a }, np),
        ),
{
    reveal(comment_step);
}

/// A `fix` field holding `null` folds an absent fix in.
proof fn lemma_cstep_fix_null(s: Seq<u8>, vs: int, a: CommentAcc, j1: bool)
    requires
        a.fix matches Option::None,
        null_at(s, vs),
    ensures
        comment_step(s, vs, CKey::FixKey, a, j1) == Option::Some(
            (CommentAcc { fix: Option::Some(Option::None), ..a }, vs + 4),
        ),
{
    reveal(comment_step);
}

/// Parsing a serialized record object gives back the record, for a record
/// without a fix; under the strict schema its level must not be `note`.
#[verifier::rlimit(100)]
proof fn lemma_comment_roundtrip(s: Seq<u8>, p: int, c: CommentModel, j1: bool)
    requires
        comment_plain(c),
        j1 ==> c.level != Level::Note,
        0 <= p,
        p + comment_json_of(c).len() <= s.len(),
        s.subrange(p, p + comment_json_of(c).len()) == comment_json_of(c),
    ensures
        parse_comment_obj(s, p, j1) == Option::Some((c, p + comment_json_of(c).len())),
{
    lemma_ckey_names();
    lemma_level_of_name(c.level, !j1);
    lemma_comment_wire(s, p, c);
    let q1 = p + 1;
    let q2 = q1 + 7 + str_lit_of(c.file).len() + 1;
    let q3 = q2 + 7 + dec_of(c.line).len() + 1;
    let q4 = q3 + 9 + dec_of(c.column).len() + 1;
    let q5 = q4 + 7 + dec_of(c.code).len() + 1;
    let q6 = q5 + 8 + crate::gcc::level_word(c.level).len() + 2 + 1;
    let q7 = q6 + 10 + str_lit_of(c.message).len() + 1;
    let q8 = q7 + 10 + opt_u32_json(c.end_line).len() + 1;
    let q9 = q8 + 12 + opt_u32_json(c.end_column).len() + 1;
    let end = q9 + 6 + 4 + 1;
    let a0 = comment_acc_empty();
    let a1 = CommentAcc { file: Option::Some(c.file), ..a0 };
    let a2 = CommentAcc { line: Option::Some(c.line), ..a1 };
    let a3 = CommentAcc { column: Option::Some(c.column), ..a2 };
    let a4 = CommentAcc { code: Option::Some(c.code), ..a3 };
    let a5 = CommentAcc { level: Option::Some(c.level), ..a4 };
    let a6 = CommentAcc { message: Option::Some(c.message), ..a5 };
    let a7 = CommentAcc { end_line: Option::Some(c.end_line), ..a6 };
    let a8 = CommentAcc { end_column: Option::Some(c.end_column), ..a7 };
    let a9 = CommentAcc { fix: Option::Some(Option::None), ..a8 };
    lemma_cstep_file(s, q1 + 7, a0, c.file, q2 - 1, j1);
    lemma_cstep_line(s, q2 + 7, a1, c.line, q3 - 1, j1);
    lemma_cstep_column(s, q3 + 9, a2, c.column, q4 - 1, j1);
    lemma_cstep_code(s, q4 + 7, a3, c.code, q5 - 1, j1);
    assert(parse_level_tok(s, q5 + 8, !j1) == Option::Some((c.level, q6 - 1)));
    lemma_cstep_level(s, q5 + 8, a4, c.level, q6 - 1, j1);
    lemma_cstep_message(s, q6 + 10, a5, c.message, q7 - 1, j1);
    lemma_cstep_end_line(s, q7 + 10, a6, c.end_line, q8 - 1, j1);
    lemma_cstep_end_column(s, q8 + 12, a7, c.end_column, q9 - 1, j1);
    lemma_cstep_fix_null(s, q9 + 6, a8, j1);
    lemma_comment_fields_step(s, q1, kw_file(), a0, a1, q2 - 1, j1, false);
    lemma_comment_fields_step(s, q2, kw_line(), a1, a2, q3 - 1, j1, false);
    lemma_comment_fields_step(s, q3, kw_column(), a2, a3, q4 - 1, j1, false);
    lemma_comment_fields_step(s, q4, kw_code(), a3, a4, q5 - 1, j1, false);
    lemma_comment_fields_step(s, q5, kw_level(), a4, a5, q6 - 1, j1, false);
    lemma_comment_fields_step(s, q6, kw_message(), a5, a6, q7 - 1, j1, false);
    lemma_comment_fields_step(s, q7, kw_end_line(), a6, a7, q8 - 1, j1, false);
    lemma_comment_fields_step(s, q8, kw_end_column(), a7, a8, q9 - 1, j1, false);
    lemma_comment_fields_step(s, q9, kw_fix(), a8, a9, end - 1, j1, true);
    assert(comment_acc_done(a9, j1) == Option::Some(c));
    lemma_ws_noop(s, p + 1);
}

/// A serialized record object begins with its opening brace.
proof fn lemma_comment_json_first(c: CommentModel)
    ensures
        comment_json_of(c).len() >= 1,
        comment_json_of(c)[0] == 123,
{
}

/// Every record of a listing is wire-plain, and under the strict schema
/// none carries the `note` level.
pub open spec fn comments_plain(ms: Seq<CommentModel>, j1: bool) -> bool {
    forall|i: int|
        0 <= i < ms.len() ==> comment_plain(#[trigger] ms[i]) && (j1 ==> ms[i].level
            != Level::Note)
}

/// Parsing serialized record items followed by the closing bracket gives
/// back the records in order.
#[verifier::rlimit(100)]
proof fn lemma_comment_items_roundtrip(s: Seq<u8>, p: int, ms: Seq<CommentModel>, j1: bool)
    requires
        ms.len() >= 1,
        comments_plain(ms, j1),
        0 <= p,
        p + comment_items_json_of(ms).len() + 1 <= s.len(),
        s.subrange(p, p + comment_items_json_of(ms).len()) == comment_items_json_of(ms),
        s[p + comment_items_json_of(ms).len()] == 93,
    ensures
        parse_comment_items(s, p, j1) == Option::Some(
            (ms, p + comment_items_json_of(ms).len() + 1),
        ),
    decreases ms.len(),
{
    let il = comment_items_json_of(ms).len() as int;
    if ms.len() == 1 {
        assert(comment_items_json_of(ms) == comment_json_of(ms[0]));
        lemma_comment_roundtrip(s, p, ms[0], j1);
        let e = p + comment_json_of(ms[0]).len();
        lemma_ws_noop(s, e);
        assert(seq![ms[0]] =~= ms);
    } else {
        let m0 = ms[0];
        let rest = ms.drop_first();
        assert(comment_items_json_of(ms) == comment_json_of(m0) + seq![44u8]
            + comment_items_json_of(rest));
        assert((comment_json_of(m0) + seq![44u8]) + comment_items_json_of(rest)
            =~= comment_json_of(m0) + (seq![44u8] + comment_items_json_of(rest)));
        lemma_split_prefix(s, p, comment_json_of(m0), seq![44u8] + comment_items_json_of(rest));
        let e = p + comment_json_of(m0).len();
        lemma_split_prefix(s, e, seq![44u8], comment_items_json_of(rest));
        assert(s.subrange(e, e + 1)[0] == s[e]);
        assert(comment_plain(m0) && (j1 ==> m0.level != Level::Note));
        lemma_comment_roundtrip(s, p, m0, j1);
        lemma_ws_noop(s, e);
        assert(comments_plain(rest, j1)) by {
            assert(forall|i: int| 0 <= i < rest.len() ==> #[trigger] rest[i] == ms[i + 1]);
        }
        lemma_comment_json_first(rest[0]);
        assert(comment_items_json_of(rest)[0] == 123) by {
            if rest.len() == 1 {
            } else {
                assert(comment_items_json_of(rest) == comment_json_of(rest[0]) + seq![44u8]
                    + comment_items_json_of(rest.drop_first()));
                assert(comment_items_json_of(rest)[0] == comment_json_of(rest[0])[0]);
            }
        }
        assert(s.subrange(e + 1, p + il)[0] == s[e + 1]);
        assert(s[e + 1] == 123);
        lemma_ws_noop(s, e + 1);
        lemma_comment_items_roundtrip(s, e + 1, rest, j1);
        assert(seq![m0] + rest =~= ms);
    }
}

/// Parsing a serialized record array gives back the records in order.
proof fn lemma_comment_array_roundtrip(s: Seq<u8>, p: int, ms: Seq<CommentModel>, j1: bool)
    requires
        comments_plain(ms, j1),
        0 <= p,
        p + json_doc_of(ms).len() <= s.len(),
        s.subrange(p, p + json_doc_of(ms).len()) == json_doc_of(ms),
    ensures
        parse_comment_array(s, p, j1) == Option::Some((ms, p + json_doc_of(ms).len())),
{
    let il = comment_items_json_of(ms).len() as int;
    assert(json_doc_of(ms) =~= seq![91u8] + (comment_items_json_of(ms) + seq![93u8]));
    lemma_split_prefix(s, p, seq![91u8], comment_items_json_of(ms) + seq![93u8]);
    lemma_split_prefix(s, p + 1, comment_items_json_of(ms), seq![93u8]);
    assert(s.subrange(p, p + 1)[0] == s[p]);
    assert(s.subrange(p + 1 + il, p + 2 + il)[0] == s[p + 1 + il]);
    if ms.len() == 0 {
        assert(comment_items_json_of(ms).len() == 0);
        lemma_ws_noop(s, p + 1);
        assert(ms =~= Seq::<CommentModel>::empty());
    } else {
        lemma_comment_json_first(ms[0]);
        assert(comment_items_json_of(ms)[0] == 123) by {
            if ms.len() == 1 {
            } else {
                assert(comment_items_json_of(ms) == comment_json_of(ms[0]) + seq![44u8]
                    + comment_items_json_of(ms.drop_first()));
                assert(comment_items_json_of(ms)[0] == comment_json_of(ms[0])[0]);
            }
        }
        assert(s.subrange(p + 1, p + 1 + il)[0] == s[p + 1]);
        assert(s[p + 1] == 123);
        lemma_ws_noop(s, p + 1);
        lemma_comment_items_roundtrip(s, p + 1, ms, j1);
    }
}

/// Round trip under the bare-array schema: serializing any listing of
/// fix-free records and re-parsing yields the identical listing.
pub proof fn lemma_json_roundtrip(ms: Seq<CommentModel>)
    requires
        comments_plain(ms, false),
    ensures
        parse_json(json_doc_of(ms)) == Option::Some(ms),
{
    let s = json_doc_of(ms);
    assert(s.subrange(0, s.len() as int) =~= s);
    assert(s[0] == 91) by {
        assert(s =~= seq![91u8] + (comment_items_json_of(ms) + seq![93u8]));
    }
    lemma_ws_noop(s, 0);
    lemma_comment_array_roundtrip(s, 0, ms, false);
    lemma_ws_noop(s, s.len() as int);
}

/// Round trip under the strict object schema: serializing any listing of
/// fix-free records whose levels the schema can carry, and re-parsing,
/// yields the identical listing.
#[verifier::rlimit(100)]
pub proof fn lemma_json1_roundtrip(ms: Seq<CommentModel>)
    requires
        comments_plain(ms, true),
    ensures
        parse_json1(json1_doc_of(ms)) == Option::Some(ms),
{
    let s = json1_doc_of(ms);
    assert(s.subrange(0, s.len() as int) =~= s);
    let t1 = seq![123u8];
    let t2 = t1 + key_of(kw_comments());
    let t3 = t2 + json_doc_of(ms);
    assert(s == t3 + seq![125u8]);
    lemma_split_prefix(s, 0, t3, seq![125u8]);
    lemma_split_prefix(s, 0, t2, json_doc_of(ms));
    lemma_split_prefix(s, 0, t1, key_of(kw_comments()));
    assert(s.subrange(0, 1)[0] == s[0]);
    lemma_key_block(s, 1, kw_comments());
    lemma_ws_noop(s, 0);
    lemma_ws_noop(s, 1);
    let kp = 1 + kw_comments().len() as int + 2;
    lemma_ws_noop(s, kp);
    lemma_ws_noop(s, kp + 1);
    assert(s.subrange(kp + 1, kp + 1 + json_doc_of(ms).len() as int)[0] == s[kp + 1]);
    assert(json_doc_of(ms)[0] == 91) by {
        assert(json_doc_of(ms) =~= seq![91u8] + (comment_items_json_of(ms) + seq![93u8]));
    }
    lemma_comment_array_roundtrip(s, kp + 1, ms, true);
    let vp = kp + 1 + json_doc_of(ms).len() as int;
    lemma_ws_noop(s, vp);
    assert(s.subrange(vp, vp + 1)[0] == s[vp]);
    lemma_ws_noop(s, vp + 1);
}

/// The whole serialized strict-object document of a record set, as
/// `json1_doc_of` says.
pub fn json1_doc_bytes(set: &crate::comment::CommentSet) -> (v: Vec<u8>)
    ensures
        v@ == json1_doc_of(set.seq_view()),
{
    let mut v: Vec<u8> = Vec::new();
    v.push(123);
    let kw: Vec<u8> = vec![99, 111, 109, 109, 101, 110, 116, 115];
    proof {
        assert(kw@ =~= kw_comments());
    }
    push_key(&mut v, &kw);
    let arr = json_doc_bytes(set);
    crate::bytes::push_bytes(&mut v, &arr);
    v.push(125);
    proof {
        assert(v@ =~= json1_doc_of(set.seq_view()));
    }
    v
}

} // verus!
