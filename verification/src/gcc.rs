//! The line-oriented text schema: one record per line, in the shape
//! `file:line:column: severity: message [SCcode]` with severity one of
//! `error`, `warning`, `note`. Records from this schema never carry an end
//! line, an end column or a fix. A line not matching the shape is a hard
//! parse error, never a skip.
//!
//! The file part is greedy: it is the longest prefix that leaves a valid
//! remainder, so the split point is the last candidate position that works.
//! The `[SCcode]` trailer is likewise the last marker occurrence on the line.

use crate::comment::Comment;
use crate::comment::CommentModel;
use crate::comment::CommentSet;
use crate::comment::Level;
use crate::bytes::copy_range;
use crate::bytes::find_byte;
use crate::bytes::find_byte_at;
use crate::bytes::push_bytes;
use crate::bytes::all_digits_range;
use crate::num::all_digits;
use crate::num::digits_end;
use crate::num::digits_end_at;
use crate::num::digits_val;
use crate::num::dec_of;
use crate::num::parse_u32_digits;
use crate::num::u32_to_dec;
use crate::ShellcheckError;
use vstd::prelude::*;

verus! {

/// The lowercase name of a severity level.
pub open spec fn level_word(l: Level) -> Seq<u8> {
    match l {
        Level::Error => seq![101u8, 114u8, 114u8, 111u8, 114u8],
        Level::Warning => seq![119u8, 97u8, 114u8, 110u8, 105u8, 110u8, 103u8],
        Level::Info => seq![105u8, 110u8, 102u8, 111u8],
        Level::Style => seq![115u8, 116u8, 121u8, 108u8, 101u8],
        Level::Note => seq![110u8, 111u8, 116u8, 101u8],
    }
}

/// The lowercase name of a severity level, as bytes.
pub fn level_word_vec(l: Level) -> (v: Vec<u8>)
    ensures
        v@ == level_word(l),
{
    let mut v: Vec<u8> = Vec::new();
    match l {
        Level::Error => {
            v.push(101);
            v.push(114);
            v.push(114);
            v.push(111);
            v.push(114);
        },
        Level::Warning => {
            v.push(119);
            v.push(97);
            v.push(114);
            v.push(110);
            v.push(105);
            v.push(110);
            v.push(103);
        },
        Level::Info => {
            v.push(105);
            v.push(110);
            v.push(102);
            v.push(111);
        },
        Level::Style => {
            v.push(115);
            v.push(116);
            v.push(121);
            v.push(108);
            v.push(101);
        },
        Level::Note => {
            v.push(110);
            v.push(111);
            v.push(116);
            v.push(101);
        },
    }
    proof {
        assert(v@ =~= level_word(l));
    }
    v
}

/// `w` occurs in `s` starting at `pos`.
pub open spec fn has_seq_at(s: Seq<u8>, pos: int, w: Seq<u8>) -> bool {
    0 <= pos && pos + w.len() <= s.len() && s.subrange(pos, pos + w.len()) == w
}

/// `w` occurs in `s` starting at `pos`.
pub fn has_bytes_at(s: &Vec<u8>, pos: usize, w: &Vec<u8>) -> (r: bool)
    ensures
        r == has_seq_at(s@, pos as int, w@),
{
    let n: usize = s.len();
    if pos > n || n - pos < w.len() {
        return false;
    }
    let wn: usize = w.len();
    let mut i: usize = 0;
    while i < wn
        invariant
            i <= wn,
            wn == w@.len(),
            n == s@.len(),
            pos + wn <= n,
            forall|k: int| 0 <= k < i ==> s@[pos + k] == w@[k],
        decreases wn - i,
    {
        let at: usize = pos + i;
        if s[at] != w[i] {
            proof {
                assert(s@.subrange(pos as int, pos + w@.len())[i as int] == s@[pos + i]);
            }
            return false;
        }
        i = i + 1;
    }
    proof {
        assert(s@.subrange(pos as int, pos + w@.len()) =~= w@);
    }
    true
}

/// The ` [SC` marker begins at `j`.
pub open spec fn marker_at(line: Seq<u8>, j: int) -> bool {
    0 <= j && j + 4 <= line.len() && line[j] == 32 && line[j + 1] == 91 && line[j + 2] == 83
        && line[j + 3] == 67
}

/// The last marker position at or below `i`, or `-1`.
pub open spec fn last_marker_from(line: Seq<u8>, i: int) -> int
    decreases i + 1,
{
    if i < 0 {
        -1
    } else if marker_at(line, i) {
        i
    } else {
        last_marker_from(line, i - 1)
    }
}

/// The positions of the middle fields of a line split at `i`: `i` is where
/// the `:line:column: severity: ` run begins, right after the file part.
pub ghost struct GccParts {
    /// End of the line-number digits.
    pub l_end: int,
    /// End of the column digits.
    pub c_end: int,
    /// The severity named on the line.
    pub level: Level,
    /// Where the message begins.
    pub msg_start: int,
}

/// Parse the middle fields at split position `i`: `:` then digits, `:` then
/// digits, `: `, a severity word, `: `. `None` where the shape is not there.
pub open spec fn split_parts(line: Seq<u8>, i: int) -> Option<GccParts> {
    if !(0 <= i < line.len() && line[i] == 58) {
        Option::None
    } else {
        let l_end = digits_end(line, i + 1);
        if l_end == i + 1 || l_end >= line.len() || line[l_end] != 58 {
            Option::None
        } else {
            let c_end = digits_end(line, l_end + 1);
            if c_end == l_end + 1 || c_end + 1 >= line.len() || line[c_end] != 58 || line[c_end
                + 1] != 32 {
                Option::None
            } else {
                let ls = c_end + 2;
                if has_seq_at(line, ls, level_word(Level::Error)) {
                    split_tail(line, l_end, c_end, Level::Error, ls + 5)
                } else if has_seq_at(line, ls, level_word(Level::Warning)) {
                    split_tail(line, l_end, c_end, Level::Warning, ls + 7)
                } else if has_seq_at(line, ls, level_word(Level::Note)) {
                    split_tail(line, l_end, c_end, Level::Note, ls + 4)
                } else {
                    Option::None
                }
            }
        }
    }
}

/// The `: ` after the severity word, and where the message then begins.
pub open spec fn split_tail(line: Seq<u8>, l_end: int, c_end: int, lv: Level, j: int) -> Option<
    GccParts,
> {
    if j + 1 >= line.len() || line[j] != 58 || line[j + 1] != 32 {
        Option::None
    } else {
        Option::Some(GccParts { l_end, c_end, level: lv, msg_start: j + 2 })
    }
}

/// A split at `i` works for a line whose marker sits at `t`: the middle
/// fields parse and at least one message byte remains before the marker.
pub open spec fn valid_split(line: Seq<u8>, t: int, i: int) -> bool {
    1 <= i && match split_parts(line, i) {
        Option::Some(p) => p.msg_start < t,
        Option::None => false,
    }
}

/// The greedy split: the largest working split position at or below `i`,
/// or `-1` — the longest file prefix that leaves a valid remainder.
pub open spec fn best_split(line: Seq<u8>, t: int, i: int) -> int
    decreases i + 1,
{
    if i < 1 {
        -1
    } else if valid_split(line, t, i) {
        i
    } else {
        best_split(line, t, i - 1)
    }
}

/// Parse one line of the text schema. The marker is the last ` [SC` on the
/// line; the code digits run to a closing `]` at the very end; the file is
/// the longest prefix that leaves a valid middle and a nonempty message;
/// each numeric field must fit the record. Anything else: no record.
pub open spec fn parse_gcc_line(line: Seq<u8>) -> Option<CommentModel> {
    let t = last_marker_from(line, line.len() - 4);
    if t < 0 {
        Option::None
    } else {
        let code_start = t + 4;
        let code_end = line.len() - 1;
        if !(code_start < code_end && line[code_end] == 93 && all_digits(
            line.subrange(code_start, code_end),
        )) {
            Option::None
        } else {
            let i = best_split(line, t, t - 1);
            if i < 1 {
                Option::None
            } else {
                match split_parts(line, i) {
                    Option::None => Option::None,
                    Option::Some(p) => {
                        let lv = digits_val(line.subrange(i + 1, p.l_end));
                        let cv = digits_val(line.subrange(p.l_end + 1, p.c_end));
                        let kv = digits_val(line.subrange(code_start, code_end));
                        if lv <= u32::MAX && cv <= u32::MAX && kv <= u32::MAX {
                            Option::Some(
                                CommentModel {
                                    file: line.subrange(0, i),
                                    line: lv,
                                    column: cv,
                                    code: kv,
                                    level: p.level,
                                    message: line.subrange(p.msg_start, t),
                                    end_line: Option::None,
                                    end_column: Option::None,
                                    fix: Option::None,
                                },
                            )
                        } else {
                            Option::None
                        }
                    },
                }
            }
        }
    }
}

/// Split a byte string into lines: at each newline, with a single trailing
/// carriage return of a line stripped, and no final empty line after a
/// trailing newline.
#[verifier::opaque]
pub open spec fn split_lines(s: Seq<u8>) -> Seq<Seq<u8>>
    decreases s.len(),
{
    if s.len() == 0 {
        Seq::empty()
    } else {
        let f = find_byte(s, 10, 0);
        let i = if 0 <= f <= s.len() {
            f
        } else {
            s.len() as int
        };
        let raw = s.subrange(0, i);
        let ln = if raw.len() > 0 && raw.last() == 13 {
            raw.drop_last()
        } else {
            raw
        };
        let rest = if i < s.len() {
            s.skip(i + 1)
        } else {
            Seq::empty()
        };
        seq![ln] + split_lines(rest)
    }
}

/// Parse every line; one malformed line refuses the whole output.
#[verifier::opaque]
pub open spec fn parse_gcc_lines(ls: Seq<Seq<u8>>) -> Option<Seq<CommentModel>>
    decreases ls.len(),
{
    if ls.len() == 0 {
        Option::Some(Seq::empty())
    } else {
        match parse_gcc_line(ls[0]) {
            Option::None => Option::None,
            Option::Some(c) => match parse_gcc_lines(ls.drop_first()) {
                Option::None => Option::None,
                Option::Some(rest) => Option::Some(seq![c] + rest),
            },
        }
    }
}

/// Parse a whole text-schema output: its lines, in order.
pub open spec fn parse_gcc(s: Seq<u8>) -> Option<Seq<CommentModel>> {
    parse_gcc_lines(split_lines(s))
}

/// One serialized line of the text schema.
pub open spec fn gcc_line_of(c: CommentModel) -> Seq<u8> {
    c.file + seq![58u8] + dec_of(c.line) + seq![58u8] + dec_of(c.column) + seq![58u8, 32u8]
        + level_word(c.level) + seq![58u8, 32u8] + c.message + seq![32u8, 91u8, 83u8, 67u8] + dec_of(
        c.code,
    ) + seq![93u8]
}

/// A whole serialized text-schema document: one line per record, each
/// ended by a newline, in listing order.
pub open spec fn gcc_doc_of(ms: Seq<CommentModel>) -> Seq<u8>
    decreases ms.len(),
{
    if ms.len() == 0 {
        Seq::empty()
    } else {
        gcc_line_of(ms[0]) + seq![10u8] + gcc_doc_of(ms.drop_first())
    }
}

/// Whether the ` [SC` marker begins at `j`.
fn marker_check(line: &Vec<u8>, j: usize) -> (r: bool)
    ensures
        r == marker_at(line@, j as int),
{
    if line.len() < 4 || j > line.len() - 4 {
        return false;
    }
    line[j] == 32 && line[j + 1] == 91 && line[j + 2] == 83 && line[j + 3] == 67
}

/// The last ` [SC` marker position on the line, if any.
fn find_last_marker(line: &Vec<u8>) -> (r: Option<usize>)
    ensures
        match r {
            Option::Some(t) => last_marker_from(line@, line@.len() - 4) == t && marker_at(
                line@,
                t as int,
            ),
            Option::None => last_marker_from(line@, line@.len() - 4) == -1,
        },
{
    if line.len() < 4 {
        return Option::None;
    }
    let mut j: usize = line.len() - 4 + 1;
    while j > 0
        invariant
            j <= line@.len() - 4 + 1,
            last_marker_from(line@, line@.len() - 4) == last_marker_from(line@, j - 1),
        decreases j,
    {
        if marker_check(line, j - 1) {
            return Option::Some(j - 1);
        }
        j = j - 1;
    }
    Option::None
}

/// Parse the middle fields at split position `i`, as `split_parts` says.
fn split_parts_at(line: &Vec<u8>, i: usize) -> (r: Option<(usize, usize, Level, usize)>)
    requires
        i < line@.len(),
    ensures
        match r {
            Option::Some(p) => split_parts(line@, i as int) == Option::Some(
                GccParts {
                    l_end: p.0 as int,
                    c_end: p.1 as int,
                    level: p.2,
                    msg_start: p.3 as int,
                },
            ),
            Option::None => split_parts(line@, i as int) matches Option::None,
        },
{
    let n: usize = line.len();
    if line[i] != 58 {
        return Option::None;
    }
    let l_end = digits_end_at(line, i + 1);
    proof {
        crate::num::lemma_digits_end(line@, i + 1);
    }
    if l_end == i + 1 || l_end >= n || line[l_end] != 58 {
        return Option::None;
    }
    let c_end = digits_end_at(line, l_end + 1);
    proof {
        crate::num::lemma_digits_end(line@, l_end + 1);
    }
    if c_end == l_end + 1 || c_end >= n - 1 || line[c_end] != 58 || line[c_end + 1] != 32 {
        return Option::None;
    }
    let ls = c_end + 2;
    let we = level_word_vec(Level::Error);
    if has_bytes_at(line, ls, &we) {
        return split_tail_at(line, l_end, c_end, Level::Error, ls + 5);
    }
    let ww = level_word_vec(Level::Warning);
    if has_bytes_at(line, ls, &ww) {
        return split_tail_at(line, l_end, c_end, Level::Warning, ls + 7);
    }
    let wn = level_word_vec(Level::Note);
    if has_bytes_at(line, ls, &wn) {
        return split_tail_at(line, l_end, c_end, Level::Note, ls + 4);
    }
    Option::None
}

/// Check the `: ` after the severity word, as `split_tail` says.
fn split_tail_at(line: &Vec<u8>, l_end: usize, c_end: usize, lv: Level, j: usize) -> (r: Option<
    (usize, usize, Level, usize),
>)
    requires
        j <= line@.len(),
    ensures
        match r {
            Option::Some(p) => split_tail(line@, l_end as int, c_end as int, lv, j as int)
                == Option::Some(
                GccParts {
                    l_end: p.0 as int,
                    c_end: p.1 as int,
                    level: p.2,
                    msg_start: p.3 as int,
                },
            ) && p.0 == l_end && p.1 == c_end && p.2 == lv,
            Option::None => split_tail(line@, l_end as int, c_end as int, lv, j as int)
                matches Option::None,
        },
{
    if j >= line.len() || j + 1 >= line.len() {
        return Option::None;
    }
    if line[j] != 58 || line[j + 1] != 32 {
        return Option::None;
    }
    Option::Some((l_end, c_end, lv, j + 2))
}

/// Parse one line of the text schema into a record, as `parse_gcc_line`
/// says: `None` exactly where the line does not match.
pub fn parse_gcc_line_bytes(line: &Vec<u8>) -> (r: Option<Comment>)
    ensures
        match r {
            Option::Some(c) => parse_gcc_line(line@) == Option::Some(c@),
            Option::None => parse_gcc_line(line@) matches Option::None,
        },
{
    let n: usize = line.len();
    let t = match find_last_marker(line) {
        Option::None => {
            return Option::None;
        },
        Option::Some(t) => t,
    };
    proof {
        assert(t + 4 <= n);
    }
    let code_start = t + 4;
    let code_end = n - 1;
    if !(code_start < code_end) {
        return Option::None;
    }
    if line[code_end] != 93 {
        return Option::None;
    }
    if !all_digits_range(line, code_start, code_end) {
        return Option::None;
    }
    let mut i: usize = t;
    let mut found: bool = false;
    while !found && i > 1
        invariant
            i <= t,
            t < line@.len(),
            !found ==> best_split(line@, t as int, t - 1) == best_split(line@, t as int, i - 1),
            found ==> i > 1 && valid_split(line@, t as int, i - 1) && best_split(
                line@,
                t as int,
                t - 1,
            ) == i - 1,
        decreases i, (if found { 0int } else { 1int }),
    {
        let cand = i - 1;
        let mut ok = false;
        match split_parts_at(line, cand) {
            Option::Some(p) => {
                if p.3 < t {
                    ok = true;
                }
            },
            Option::None => {},
        }
        if ok {
            found = true;
        } else {
            i = i - 1;
        }
    }
    if !found {
        proof {
            assert(best_split(line@, t as int, i - 1) == -1);
        }
        return Option::None;
    }
    let cand = i - 1;
    let (l_end, c_end, lv, msg_start) = match split_parts_at(line, cand) {
        Option::Some(p) => p,
        Option::None => {
            return Option::None;
        },
    };
    proof {
        crate::num::lemma_digits_end(line@, cand + 1);
        crate::num::lemma_digits_end(line@, l_end + 1);
    }
    let lineno = match parse_u32_digits(line, cand + 1, l_end) {
        Option::Some(v) => v,
        Option::None => {
            return Option::None;
        },
    };
    let colno = match parse_u32_digits(line, l_end + 1, c_end) {
        Option::Some(v) => v,
        Option::None => {
            return Option::None;
        },
    };
    let codeno = match parse_u32_digits(line, code_start, code_end) {
        Option::Some(v) => v,
        Option::None => {
            return Option::None;
        },
    };
    let c = Comment {
        file: copy_range(line, 0, cand),
        line: lineno,
        column: colno,
        code: codeno,
        level: lv,
        message: copy_range(line, msg_start, t),
        end_line: Option::None,
        end_column: Option::None,
        fix: Option::None,
    };
    Option::Some(c)
}

/// `find_byte` looked at through `skip`: scanning a suffix is scanning the
/// whole from that position.
pub proof fn lemma_find_byte_skip(s: Seq<u8>, b: u8, pos: int)
    requires
        0 <= pos <= s.len(),
    ensures
        find_byte(s.skip(pos), b, 0) == find_byte(s, b, pos) - pos,
{
    crate::bytes::lemma_find_byte(s, b, pos);
    crate::bytes::lemma_find_byte(s.skip(pos), b, 0);
    let f = find_byte(s, b, pos);
    let g = find_byte(s.skip(pos), b, 0);
    assert forall|k: int| 0 <= k < s.skip(pos).len() implies s.skip(pos)[k] == s[pos + k] by {}
    if g < f - pos {
        assert(s[pos + g] == b);
    }
    if f - pos < g {
        assert(s.skip(pos)[f - pos] == b);
    }
    if f == s.len() && g == s.skip(pos).len() {
    }
}

/// Take one line off the input at `pos`: its parsed record and where the
/// next line begins, composing one unfolding of the line list.
#[verifier::rlimit(100)]
fn gcc_line_step(bytes: &Vec<u8>, pos: usize) -> (r: Result<(Comment, usize), ShellcheckError>)
    requires
        pos < bytes@.len(),
    ensures
        match r {
            Result::Ok(v) => pos < v.1 <= bytes@.len() && (match parse_gcc_lines(
                split_lines(bytes@.skip(v.1 as int)),
            ) {
                Option::None => parse_gcc_lines(split_lines(bytes@.skip(pos as int)))
                    matches Option::None,
                Option::Some(rest) => parse_gcc_lines(split_lines(bytes@.skip(pos as int)))
                    == Option::Some(seq![v.0@] + rest),
            }),
            Result::Err(e) => parse_gcc_lines(split_lines(bytes@.skip(pos as int)))
                matches Option::None && e == ShellcheckError::SchemaParse,
        },
{
    proof {
        reveal(split_lines);
        reveal(parse_gcc_lines);
    }
    let ghost pre_pos = pos as int;
    let ghost suffix = bytes@.skip(pre_pos);
    let f = find_byte_at(bytes, 10, pos);
    proof {
        crate::bytes::lemma_find_byte(bytes@, 10, pre_pos);
        lemma_find_byte_skip(bytes@, 10, pre_pos);
    }
    let line_end = if f > pos && bytes[f - 1] == 13 {
        f - 1
    } else {
        f
    };
    let line = copy_range(bytes, pos, line_end);
    let np = if f < bytes.len() {
        f + 1
    } else {
        f
    };
    proof {
        let fs = find_byte(suffix, 10, 0);
        assert(fs == f - pre_pos);
        assert(suffix.subrange(0, fs) =~= bytes@.subrange(pre_pos, f as int));
        if fs > 0 {
            assert(suffix.subrange(0, fs).last() == bytes@[f - 1]);
        }
        if f > pre_pos && bytes@[f - 1] == 13 {
            assert(suffix.subrange(0, fs).drop_last() =~= bytes@.subrange(pre_pos, f - 1));
        }
        assert(split_lines(suffix)[0] == line@);
        let rest = if fs < suffix.len() {
            suffix.skip(fs + 1)
        } else {
            Seq::<u8>::empty()
        };
        assert(rest =~= bytes@.skip(np as int));
        assert(split_lines(suffix) =~= seq![line@] + split_lines(rest));
        assert(split_lines(suffix).drop_first() =~= split_lines(rest));
    }
    match parse_gcc_line_bytes(&line) {
        Option::None => Result::Err(ShellcheckError::SchemaParse),
        Option::Some(c) => Result::Ok((c, np)),
    }
}

/// Parse a whole text-schema output, as `parse_gcc` says. The record order
/// is the line order; one malformed line refuses everything.
pub fn parse_gcc_bytes(bytes: &Vec<u8>) -> (r: Result<Vec<Comment>, ShellcheckError>)
    ensures
        match r {
            Result::Ok(cs) => parse_gcc(bytes@) == Option::Some(
                crate::comment::comment_seq_view(cs@),
            ),
            Result::Err(e) => parse_gcc(bytes@) matches Option::None && e
                == ShellcheckError::SchemaParse,
        },
{
    let mut out: Vec<Comment> = Vec::new();
    let mut pos: usize = 0;
    proof {
        assert(bytes@.skip(0) =~= bytes@);
        assert(crate::comment::comment_seq_view(out@) =~= Seq::<CommentModel>::empty());
        match parse_gcc_lines(split_lines(bytes@)) {
            Option::None => {},
            Option::Some(rest) => {
                assert(Seq::<CommentModel>::empty() + rest =~= rest);
            },
        }
    }
    while pos < bytes.len()
        invariant
            pos <= bytes@.len(),
            parse_gcc_lines(split_lines(bytes@)) == (match parse_gcc_lines(
                split_lines(bytes@.skip(pos as int)),
            ) {
                Option::None => Option::None::<Seq<CommentModel>>,
                Option::Some(rest) => Option::Some(crate::comment::comment_seq_view(out@) + rest),
            }),
        decreases bytes@.len() - pos,
    {
        let (c, np) = match gcc_line_step(bytes, pos) {
            Result::Err(e) => {
                return Result::Err(e);
            },
            Result::Ok(v) => v,
        };
        let ghost pre_out = out@;
        out.push(c);
        pos = np;
        proof {
            assert(crate::comment::comment_seq_view(out@) =~= crate::comment::comment_seq_view(
                pre_out,
            ).push(c@));
            match parse_gcc_lines(split_lines(bytes@.skip(pos as int))) {
                Option::None => {},
                Option::Some(r2) => {
                    assert(crate::comment::comment_seq_view(pre_out) + (seq![c@] + r2)
                        =~= crate::comment::comment_seq_view(out@) + r2);
                },
            }
        }
    }
    proof {
        reveal(split_lines);
        reveal(parse_gcc_lines);
        assert(bytes@.skip(pos as int) =~= Seq::<u8>::empty());
        assert(split_lines(Seq::<u8>::empty()) =~= Seq::<Seq<u8>>::empty());
        assert(crate::comment::comment_seq_view(out@) + Seq::<CommentModel>::empty()
            =~= crate::comment::comment_seq_view(out@));
    }
    Result::Ok(out)
}

/// One serialized line of the text schema, as `gcc_line_of` says.
pub fn gcc_line_bytes(c: &Comment) -> (v: Vec<u8>)
    ensures
        v@ == gcc_line_of(c@),
{
    let mut v: Vec<u8> = Vec::new();
    push_bytes(&mut v, &c.file);
    v.push(58);
    let d = u32_to_dec(c.line);
    push_bytes(&mut v, &d);
    v.push(58);
    let d = u32_to_dec(c.column);
    push_bytes(&mut v, &d);
    v.push(58);
    v.push(32);
    let w = level_word_vec(c.level);
    push_bytes(&mut v, &w);
    v.push(58);
    v.push(32);
    push_bytes(&mut v, &c.message);
    v.push(32);
    v.push(91);
    v.push(83);
    v.push(67);
    let d = u32_to_dec(c.code);
    push_bytes(&mut v, &d);
    v.push(93);
    proof {
        assert(v@ =~= gcc_line_of(c@));
    }
    v
}

/// Serializing one more listed record appends its line and a newline.
proof fn lemma_gcc_doc_snoc(ms: Seq<CommentModel>, i: int)
    requires
        0 <= i < ms.len(),
    ensures
        gcc_doc_of(ms.take(i + 1)) == gcc_doc_of(ms.take(i)) + gcc_line_of(ms[i]) + seq![10u8],
    decreases i,
{
    if i == 0 {
        assert(ms.take(1) =~= seq![ms[0]]);
        assert(ms.take(1).drop_first() =~= Seq::<CommentModel>::empty());
        assert(ms.take(0) =~= Seq::<CommentModel>::empty());
        assert(gcc_doc_of(Seq::<CommentModel>::empty()) =~= Seq::<u8>::empty());
        assert(ms.take(1)[0] == ms[0]);
        assert(gcc_doc_of(ms.take(1)) =~= gcc_line_of(ms[0]) + seq![10u8]);
        assert(gcc_doc_of(ms.take(0)) + gcc_line_of(ms[0]) + seq![10u8] =~= gcc_line_of(ms[0])
            + seq![10u8]);
    } else {
        lemma_gcc_doc_snoc(ms.drop_first(), i - 1);
        assert(ms.take(i + 1).drop_first() =~= ms.drop_first().take(i));
        assert(ms.take(i).drop_first() =~= ms.drop_first().take(i - 1));
        assert(ms.take(i + 1)[0] == ms[0]);
        assert(ms.take(i)[0] == ms[0]);
        assert(ms.drop_first()[i - 1] == ms[i]);
        assert(gcc_doc_of(ms.take(i + 1)) =~= gcc_line_of(ms[0]) + seq![10u8] + gcc_doc_of(
            ms.drop_first().take(i),
        ));
        assert(gcc_line_of(ms[0]) + seq![10u8] + (gcc_doc_of(ms.drop_first().take(i - 1))
            + gcc_line_of(ms[i]) + seq![10u8]) =~= (gcc_line_of(ms[0]) + seq![10u8] + gcc_doc_of(
            ms.drop_first().take(i - 1),
        )) + gcc_line_of(ms[i]) + seq![10u8]);
        assert(gcc_doc_of(ms.take(i)) =~= gcc_line_of(ms[0]) + seq![10u8] + gcc_doc_of(
            ms.drop_first().take(i - 1),
        ));
    }
}

/// The whole serialized text-schema document of a record set, in the set's
/// canonical order.
pub fn gcc_doc_bytes(set: &CommentSet) -> (v: Vec<u8>)
    ensures
        v@ == gcc_doc_of(set.seq_view()),
{
    let ghost ms = set.seq_view();
    let mut v: Vec<u8> = Vec::new();
    let n = set.len();
    let mut i: usize = 0;
    proof {
        assert(ms.take(0) =~= Seq::<CommentModel>::empty());
    }
    while i < n
        invariant
            i <= n,
            n == ms.len(),
            ms == set.seq_view(),
            v@ == gcc_doc_of(ms.take(i as int)),
        decreases n - i,
    {
        let line = gcc_line_bytes(set.get(i));
        push_bytes(&mut v, &line);
        v.push(10);
        proof {
            lemma_gcc_doc_snoc(ms, i as int);
        }
        i = i + 1;
    }
    proof {
        assert(ms.take(n as int) =~= ms);
    }
    v
}

} // verus!
