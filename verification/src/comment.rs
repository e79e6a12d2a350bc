//! The diagnostic record ("comment") data model: severity levels, fix
//! replacements, the record itself, and the deduplicated, totally ordered
//! record set that an aggregate document is built from.
//!
//! Records are ordered lexicographically over (file, line, column, code,
//! level, message, end line, end column, fix), so a set of records has one
//! canonical listing and the serialized document is deterministic.

use vstd::prelude::*;

verus! {

/// Severity of a diagnostic record. `Note` occurs only in the line-oriented
/// text schema, where it stands ambiguously for `Info` or `Style`; it is kept
/// distinct rather than guessed.
#[derive(Clone, Copy, PartialEq, Eq, Structural, Debug)]
pub enum Level {
    Error,
    Warning,
    Info,
    Style,
    Note,
}

/// Where a replacement is inserted when its span is empty.
#[derive(Clone, Copy, PartialEq, Eq, Structural, Debug)]
pub enum InsertionPoint {
    AfterEnd,
    BeforeStart,
}

/// One edit of a fix: a line/column span, an insertion point discriminator,
/// a precedence for ordering simultaneous edits, and the replacement text.
#[derive(Clone, Debug)]
pub struct Replacement {
    pub line: u32,
    pub end_line: u32,
    pub column: u32,
    pub end_column: u32,
    pub insertion_point: InsertionPoint,
    pub precedence: u32,
    pub replacement: Vec<u8>,
}

/// A suggested fix: an ordered list of replacements.
#[derive(Clone, Debug)]
pub struct Fix {
    pub replacements: Vec<Replacement>,
}

/// One diagnostic record. End line/column and fix are optional: absent means
/// unknown, not "same as start". Text fields are raw bytes.
#[derive(Clone, Debug)]
pub struct Comment {
    pub file: Vec<u8>,
    pub line: u32,
    pub column: u32,
    pub code: u32,
    pub level: Level,
    pub message: Vec<u8>,
    pub end_line: Option<u32>,
    pub end_column: Option<u32>,
    pub fix: Option<Fix>,
}

/// Mathematical value of a `Replacement`.
pub ghost struct ReplacementModel {
    pub line: int,
    pub end_line: int,
    pub column: int,
    pub end_column: int,
    pub insertion_point: InsertionPoint,
    pub precedence: int,
    pub replacement: Seq<u8>,
}

/// Mathematical value of a `Fix`.
pub ghost struct FixModel {
    pub replacements: Seq<ReplacementModel>,
}

/// Mathematical value of a `Comment`.
pub ghost struct CommentModel {
    pub file: Seq<u8>,
    pub line: int,
    pub column: int,
    pub code: int,
    pub level: Level,
    pub message: Seq<u8>,
    pub end_line: Option<int>,
    pub end_column: Option<int>,
    pub fix: Option<FixModel>,
}

impl View for Replacement {
    type V = ReplacementModel;

    open spec fn view(&self) -> ReplacementModel {
        ReplacementModel {
            line: self.line as int,
            end_line: self.end_line as int,
            column: self.column as int,
            end_column: self.end_column as int,
            insertion_point: self.insertion_point,
            precedence: self.precedence as int,
            replacement: self.replacement@,
        }
    }
}

impl View for Fix {
    type V = FixModel;

    open spec fn view(&self) -> FixModel {
        FixModel { replacements: self.replacements@.map_values(|r: Replacement| r@) }
    }
}

pub open spec fn opt_u32_view(o: Option<u32>) -> Option<int> {
    match o {
        Option::None => Option::None,
        Option::Some(n) => Option::Some(n as int),
    }
}

pub open spec fn opt_fix_view(o: Option<Fix>) -> Option<FixModel> {
    match o {
        Option::None => Option::None,
        Option::Some(f) => Option::Some(f@),
    }
}

impl View for Comment {
    type V = CommentModel;

    open spec fn view(&self) -> CommentModel {
        CommentModel {
            file: self.file@,
            line: self.line as int,
            column: self.column as int,
            code: self.code as int,
            level: self.level,
            message: self.message@,
            end_line: opt_u32_view(self.end_line),
            end_column: opt_u32_view(self.end_column),
            fix: opt_fix_view(self.fix),
        }
    }
}

/// Rank giving the order of severity levels.
pub open spec fn level_rank(l: Level) -> int {
    match l {
        Level::Error => 0,
        Level::Warning => 1,
        Level::Info => 2,
        Level::Style => 3,
        Level::Note => 4,
    }
}

/// Rank giving the order of insertion points.
pub open spec fn ins_rank(p: InsertionPoint) -> int {
    match p {
        InsertionPoint::AfterEnd => 0,
        InsertionPoint::BeforeStart => 1,
    }
}

/// Strict lexicographic order on byte sequences.
pub open spec fn bytes_lt(a: Seq<u8>, b: Seq<u8>) -> bool
    decreases a.len(),
{
    if b.len() == 0 {
        false
    } else if a.len() == 0 {
        true
    } else if a[0] != b[0] {
        a[0] < b[0]
    } else {
        bytes_lt(a.drop_first(), b.drop_first())
    }
}

/// Strict order on optional numbers: absent sorts first.
pub open spec fn opt_int_lt(a: Option<int>, b: Option<int>) -> bool {
    match (a, b) {
        (Option::None, Option::None) => false,
        (Option::None, Option::Some(_)) => true,
        (Option::Some(_), Option::None) => false,
        (Option::Some(x), Option::Some(y)) => x < y,
    }
}

/// Strict lexicographic order on replacements, field by field.
pub open spec fn repl_lt(a: ReplacementModel, b: ReplacementModel) -> bool {
    if a.line != b.line {
        a.line < b.line
    } else if a.end_line != b.end_line {
        a.end_line < b.end_line
    } else if a.column != b.column {
        a.column < b.column
    } else if a.end_column != b.end_column {
        a.end_column < b.end_column
    } else if a.insertion_point != b.insertion_point {
        ins_rank(a.insertion_point) < ins_rank(b.insertion_point)
    } else if a.precedence != b.precedence {
        a.precedence < b.precedence
    } else {
        bytes_lt(a.replacement, b.replacement)
    }
}

/// Strict lexicographic order on replacement lists.
pub open spec fn replseq_lt(a: Seq<ReplacementModel>, b: Seq<ReplacementModel>) -> bool
    decreases a.len(),
{
    if b.len() == 0 {
        false
    } else if a.len() == 0 {
        true
    } else if a[0] != b[0] {
        repl_lt(a[0], b[0])
    } else {
        replseq_lt(a.drop_first(), b.drop_first())
    }
}

/// Strict order on optional fixes: absent sorts first.
pub open spec fn opt_fix_lt(a: Option<FixModel>, b: Option<FixModel>) -> bool {
    match (a, b) {
        (Option::None, Option::None) => false,
        (Option::None, Option::Some(_)) => true,
        (Option::Some(_), Option::None) => false,
        (Option::Some(x), Option::Some(y)) => replseq_lt(x.replacements, y.replacements),
    }
}

/// The natural total order on diagnostic records: lexicographic over
/// (file, line, column, code, level, message, end line, end column, fix).
pub open spec fn comment_lt(a: CommentModel, b: CommentModel) -> bool {
    if a.file != b.file {
        bytes_lt(a.file, b.file)
    } else if a.line != b.line {
        a.line < b.line
    } else if a.column != b.column {
        a.column < b.column
    } else if a.code != b.code {
        a.code < b.code
    } else if a.level != b.level {
        level_rank(a.level) < level_rank(b.level)
    } else if a.message != b.message {
        bytes_lt(a.message, b.message)
    } else if a.end_line != b.end_line {
        opt_int_lt(a.end_line, b.end_line)
    } else if a.end_column != b.end_column {
        opt_int_lt(a.end_column, b.end_column)
    } else {
        opt_fix_lt(a.fix, b.fix)
    }
}

/// A sequence is determined by its first element and the rest.
proof fn lemma_eq_from_head_tail<A>(a: Seq<A>, b: Seq<A>)
    requires
        a.len() > 0,
        b.len() > 0,
        a[0] == b[0],
        a.drop_first() == b.drop_first(),
    ensures
        a == b,
{
    assert(a.drop_first() =~= a.subrange(1, a.len() as int));
    assert(b.drop_first() =~= b.subrange(1, b.len() as int));
    assert(a.len() == b.len());
    assert forall|i: int| 0 <= i < a.len() implies a[i] == b[i] by {
        if i >= 1 {
            assert(a.subrange(1, a.len() as int)[i - 1] == a[i]);
            assert(b.subrange(1, b.len() as int)[i - 1] == b[i]);
        }
    }
    assert(a =~= b);
}

/// Of `a < b`, `b < a` and `a == b`, exactly one holds for byte sequences.
pub proof fn lemma_bytes_trichotomy(a: Seq<u8>, b: Seq<u8>)
    ensures
        bytes_lt(a, b) || bytes_lt(b, a) || a == b,
        !(bytes_lt(a, b) && bytes_lt(b, a)),
        bytes_lt(a, b) ==> a != b,
    decreases a.len(),
{
    if b.len() == 0 {
        if a.len() == 0 {
            assert(a =~= b);
        }
    } else if a.len() == 0 {
    } else if a[0] != b[0] {
    } else {
        lemma_bytes_trichotomy(a.drop_first(), b.drop_first());
        if a.drop_first() == b.drop_first() {
            lemma_eq_from_head_tail(a, b);
        }
        if a == b {
            assert(a.drop_first() == b.drop_first());
        }
    }
}

/// The byte-sequence order is transitive.
pub proof fn lemma_bytes_trans(a: Seq<u8>, b: Seq<u8>, c: Seq<u8>)
    requires
        bytes_lt(a, b),
        bytes_lt(b, c),
    ensures
        bytes_lt(a, c),
    decreases a.len(),
{
    if c.len() == 0 {
    } else if a.len() == 0 {
    } else {
        if a[0] == b[0] && b[0] == c[0] {
            lemma_bytes_trans(a.drop_first(), b.drop_first(), c.drop_first());
        }
    }
}

/// Of `a < b`, `b < a` and `a == b`, exactly one holds for replacements.
pub proof fn lemma_repl_trichotomy(a: ReplacementModel, b: ReplacementModel)
    ensures
        repl_lt(a, b) || repl_lt(b, a) || a == b,
        !(repl_lt(a, b) && repl_lt(b, a)),
        repl_lt(a, b) ==> a != b,
{
    lemma_bytes_trichotomy(a.replacement, b.replacement);
}

/// The replacement order is transitive.
pub proof fn lemma_repl_trans(a: ReplacementModel, b: ReplacementModel, c: ReplacementModel)
    requires
        repl_lt(a, b),
        repl_lt(b, c),
    ensures
        repl_lt(a, c),
{
    lemma_bytes_trichotomy(a.replacement, b.replacement);
    lemma_bytes_trichotomy(b.replacement, c.replacement);
    if bytes_lt(a.replacement, b.replacement) && bytes_lt(b.replacement, c.replacement) {
        lemma_bytes_trans(a.replacement, b.replacement, c.replacement);
    }
}

/// Of `a < b`, `b < a` and `a == b`, exactly one holds for replacement lists.
pub proof fn lemma_replseq_trichotomy(a: Seq<ReplacementModel>, b: Seq<ReplacementModel>)
    ensures
        replseq_lt(a, b) || replseq_lt(b, a) || a == b,
        !(replseq_lt(a, b) && replseq_lt(b, a)),
        replseq_lt(a, b) ==> a != b,
    decreases a.len(),
{
    if b.len() == 0 {
        if a.len() == 0 {
            assert(a =~= b);
        }
    } else if a.len() == 0 {
    } else if a[0] != b[0] {
        lemma_repl_trichotomy(a[0], b[0]);
    } else {
        lemma_replseq_trichotomy(a.drop_first(), b.drop_first());
        if a.drop_first() == b.drop_first() {
            lemma_eq_from_head_tail(a, b);
        }
        if a == b {
            assert(a.drop_first() == b.drop_first());
        }
    }
}

/// The replacement-list order is transitive.
pub proof fn lemma_replseq_trans(
    a: Seq<ReplacementModel>,
    b: Seq<ReplacementModel>,
    c: Seq<ReplacementModel>,
)
    requires
        replseq_lt(a, b),
        replseq_lt(b, c),
    ensures
        replseq_lt(a, c),
    decreases a.len(),
{
    if c.len() == 0 {
    } else if a.len() == 0 {
    } else {
        lemma_repl_trichotomy(a[0], b[0]);
        lemma_repl_trichotomy(b[0], c[0]);
        if a[0] == b[0] && b[0] == c[0] {
            lemma_replseq_trans(a.drop_first(), b.drop_first(), c.drop_first());
        } else if repl_lt(a[0], b[0]) && repl_lt(b[0], c[0]) {
            lemma_repl_trans(a[0], b[0], c[0]);
        }
    }
}

/// Of `a < b`, `b < a` and `a == b`, exactly one holds for diagnostic records.
pub proof fn lemma_comment_trichotomy(a: CommentModel, b: CommentModel)
    ensures
        comment_lt(a, b) || comment_lt(b, a) || a == b,
        !(comment_lt(a, b) && comment_lt(b, a)),
        comment_lt(a, b) ==> a != b,
{
    lemma_bytes_trichotomy(a.file, b.file);
    lemma_bytes_trichotomy(a.message, b.message);
    if let (Option::Some(fa), Option::Some(fb)) = (a.fix, b.fix) {
        lemma_replseq_trichotomy(fa.replacements, fb.replacements);
        if fa.replacements == fb.replacements {
            assert(fa == fb);
        }
    }
}

/// The diagnostic-record order is transitive.
pub proof fn lemma_comment_trans(a: CommentModel, b: CommentModel, c: CommentModel)
    requires
        comment_lt(a, b),
        comment_lt(b, c),
    ensures
        comment_lt(a, c),
{
    lemma_bytes_trichotomy(a.file, b.file);
    lemma_bytes_trichotomy(b.file, c.file);
    if bytes_lt(a.file, b.file) && bytes_lt(b.file, c.file) {
        lemma_bytes_trans(a.file, b.file, c.file);
    }
    lemma_bytes_trichotomy(a.message, b.message);
    lemma_bytes_trichotomy(b.message, c.message);
    if bytes_lt(a.message, b.message) && bytes_lt(b.message, c.message) {
        lemma_bytes_trans(a.message, b.message, c.message);
    }
    if let (Option::Some(fa), Option::Some(fb), Option::Some(fc)) = (a.fix, b.fix, c.fix) {
        lemma_replseq_trichotomy(fa.replacements, fb.replacements);
        lemma_replseq_trichotomy(fb.replacements, fc.replacements);
        if replseq_lt(fa.replacements, fb.replacements) && replseq_lt(
            fb.replacements,
            fc.replacements,
        ) {
            lemma_replseq_trans(fa.replacements, fb.replacements, fc.replacements);
        }
        if fa.replacements == fb.replacements {
            assert(fa == fb);
        }
        if fb.replacements == fc.replacements {
            assert(fb == fc);
        }
    }
}

/// Model sequence of a sequence of replacements.
pub open spec fn repl_seq_view(s: Seq<Replacement>) -> Seq<ReplacementModel> {
    s.map_values(|r: Replacement| r@)
}

/// The byte order is decided by the first position where the sequences differ.
proof fn lemma_bytes_lt_step(a: Seq<u8>, b: Seq<u8>, i: int)
    requires
        0 <= i <= a.len(),
        i <= b.len(),
        forall|k: int| 0 <= k < i ==> a[k] == b[k],
    ensures
        bytes_lt(a, b) == bytes_lt(a.skip(i), b.skip(i)),
    decreases i,
{
    if i == 0 {
        assert(a.skip(0) =~= a);
        assert(b.skip(0) =~= b);
    } else {
        lemma_bytes_lt_step(a, b, i - 1);
        assert(a.skip(i - 1)[0] == a[i - 1]);
        assert(b.skip(i - 1)[0] == b[i - 1]);
        assert(a.skip(i - 1).drop_first() =~= a.skip(i));
        assert(b.skip(i - 1).drop_first() =~= b.skip(i));
    }
}

/// The replacement-list order is decided by the first differing position.
proof fn lemma_replseq_lt_step(a: Seq<ReplacementModel>, b: Seq<ReplacementModel>, i: int)
    requires
        0 <= i <= a.len(),
        i <= b.len(),
        forall|k: int| 0 <= k < i ==> a[k] == b[k],
    ensures
        replseq_lt(a, b) == replseq_lt(a.skip(i), b.skip(i)),
    decreases i,
{
    if i == 0 {
        assert(a.skip(0) =~= a);
        assert(b.skip(0) =~= b);
    } else {
        lemma_replseq_lt_step(a, b, i - 1);
        assert(a.skip(i - 1)[0] == a[i - 1]);
        assert(b.skip(i - 1)[0] == b[i - 1]);
        assert(a.skip(i - 1).drop_first() =~= a.skip(i));
        assert(b.skip(i - 1).drop_first() =~= b.skip(i));
    }
}

/// Three-way comparison of byte strings under `bytes_lt`.
pub fn bytes_cmp(a: &Vec<u8>, b: &Vec<u8>) -> (r: i8)
    ensures
        -1 <= r <= 1,
        (r == -1) == bytes_lt(a@, b@),
        (r == 0) == (a@ == b@),
        (r == 1) == bytes_lt(b@, a@),
{
    proof {
        lemma_bytes_trichotomy(a@, b@);
    }
    let mut i: usize = 0;
    while i < a.len() && i < b.len()
        invariant
            i <= a@.len(),
            i <= b@.len(),
            forall|k: int| 0 <= k < i ==> a@[k] == b@[k],
        decreases a@.len() - i,
    {
        let x = a[i];
        let y = b[i];
        if x != y {
            proof {
                lemma_bytes_lt_step(a@, b@, i as int);
                lemma_bytes_lt_step(b@, a@, i as int);
                assert(a@.skip(i as int)[0] == a@[i as int]);
                assert(b@.skip(i as int)[0] == b@[i as int]);
            }
            if x < y {
                return -1;
            } else {
                return 1;
            }
        }
        i = i + 1;
    }
    proof {
        lemma_bytes_lt_step(a@, b@, i as int);
        lemma_bytes_lt_step(b@, a@, i as int);
    }
    if a.len() == b.len() {
        proof {
            assert(a@ =~= b@);
        }
        0
    } else if a.len() < b.len() {
        -1
    } else {
        1
    }
}

/// Three-way comparison of severity levels by rank.
fn level_cmp(a: Level, b: Level) -> (r: i8)
    ensures
        -1 <= r <= 1,
        (r == -1) == (level_rank(a) < level_rank(b)),
        (r == 0) == (a == b),
        (r == 1) == (level_rank(b) < level_rank(a)),
{
    let ra: u8 = match a {
        Level::Error => 0,
        Level::Warning => 1,
        Level::Info => 2,
        Level::Style => 3,
        Level::Note => 4,
    };
    let rb: u8 = match b {
        Level::Error => 0,
        Level::Warning => 1,
        Level::Info => 2,
        Level::Style => 3,
        Level::Note => 4,
    };
    if ra < rb {
        -1
    } else if ra == rb {
        0
    } else {
        1
    }
}

/// Three-way comparison of insertion points by rank.
fn ins_cmp(a: InsertionPoint, b: InsertionPoint) -> (r: i8)
    ensures
        -1 <= r <= 1,
        (r == -1) == (ins_rank(a) < ins_rank(b)),
        (r == 0) == (a == b),
        (r == 1) == (ins_rank(b) < ins_rank(a)),
{
    let ra: u8 = match a {
        InsertionPoint::AfterEnd => 0,
        InsertionPoint::BeforeStart => 1,
    };
    let rb: u8 = match b {
        InsertionPoint::AfterEnd => 0,
        InsertionPoint::BeforeStart => 1,
    };
    if ra < rb {
        -1
    } else if ra == rb {
        0
    } else {
        1
    }
}

/// Three-way comparison of `u32` values.
fn u32_cmp(a: u32, b: u32) -> (r: i8)
    ensures
        -1 <= r <= 1,
        (r == -1) == (a < b),
        (r == 0) == (a == b),
        (r == 1) == (b < a),
{
    if a < b {
        -1
    } else if a == b {
        0
    } else {
        1
    }
}

/// Three-way comparison of optional `u32` values; absent sorts first.
fn opt_u32_cmp(a: &Option<u32>, b: &Option<u32>) -> (r: i8)
    ensures
        -1 <= r <= 1,
        (r == -1) == opt_int_lt(opt_u32_view(*a), opt_u32_view(*b)),
        (r == 0) == (opt_u32_view(*a) == opt_u32_view(*b)),
        (r == 1) == opt_int_lt(opt_u32_view(*b), opt_u32_view(*a)),
{
    match (a, b) {
        (Option::None, Option::None) => 0,
        (Option::None, Option::Some(_)) => -1,
        (Option::Some(_), Option::None) => 1,
        (Option::Some(x), Option::Some(y)) => u32_cmp(*x, *y),
    }
}

/// Three-way comparison of replacements under `repl_lt`.
fn repl_cmp(a: &Replacement, b: &Replacement) -> (r: i8)
    ensures
        -1 <= r <= 1,
        (r == -1) == repl_lt(a@, b@),
        (r == 0) == (a@ == b@),
        (r == 1) == repl_lt(b@, a@),
{
    let c: i8 = u32_cmp(a.line, b.line);
    if c != 0 {
        return c;
    }
    let c: i8 = u32_cmp(a.end_line, b.end_line);
    if c != 0 {
        return c;
    }
    let c: i8 = u32_cmp(a.column, b.column);
    if c != 0 {
        return c;
    }
    let c: i8 = u32_cmp(a.end_column, b.end_column);
    if c != 0 {
        return c;
    }
    let c: i8 = ins_cmp(a.insertion_point, b.insertion_point);
    if c != 0 {
        return c;
    }
    let c: i8 = u32_cmp(a.precedence, b.precedence);
    if c != 0 {
        return c;
    }
    bytes_cmp(&a.replacement, &b.replacement)
}

/// Three-way comparison of replacement lists under `replseq_lt`.
fn replvec_cmp(a: &Vec<Replacement>, b: &Vec<Replacement>) -> (r: i8)
    ensures
        -1 <= r <= 1,
        (r == -1) == replseq_lt(repl_seq_view(a@), repl_seq_view(b@)),
        (r == 0) == (repl_seq_view(a@) == repl_seq_view(b@)),
        (r == 1) == replseq_lt(repl_seq_view(b@), repl_seq_view(a@)),
{
    let ghost va = repl_seq_view(a@);
    let ghost vb = repl_seq_view(b@);
    proof {
        lemma_replseq_trichotomy(va, vb);
    }
    let mut i: usize = 0;
    while i < a.len() && i < b.len()
        invariant
            i <= va.len(),
            i <= vb.len(),
            va == repl_seq_view(a@),
            vb == repl_seq_view(b@),
            va.len() == a@.len(),
            vb.len() == b@.len(),
            forall|k: int| 0 <= k < i ==> va[k] == vb[k],
        decreases a@.len() - i,
    {
        let c: i8 = repl_cmp(&a[i], &b[i]);
        if c != 0 {
            proof {
                lemma_replseq_lt_step(va, vb, i as int);
                lemma_replseq_lt_step(vb, va, i as int);
                assert(va.skip(i as int)[0] == va[i as int]);
                assert(vb.skip(i as int)[0] == vb[i as int]);
            }
            return c;
        }
        i = i + 1;
    }
    proof {
        lemma_replseq_lt_step(va, vb, i as int);
        lemma_replseq_lt_step(vb, va, i as int);
    }
    if a.len() == b.len() {
        proof {
            assert(va =~= vb);
        }
        0
    } else if a.len() < b.len() {
        -1
    } else {
        1
    }
}

/// Three-way comparison of optional fixes; absent sorts first.
fn opt_fix_cmp(a: &Option<Fix>, b: &Option<Fix>) -> (r: i8)
    ensures
        -1 <= r <= 1,
        (r == -1) == opt_fix_lt(opt_fix_view(*a), opt_fix_view(*b)),
        (r == 0) == (opt_fix_view(*a) == opt_fix_view(*b)),
        (r == 1) == opt_fix_lt(opt_fix_view(*b), opt_fix_view(*a)),
{
    match (a, b) {
        (Option::None, Option::None) => 0,
        (Option::None, Option::Some(_)) => -1,
        (Option::Some(_), Option::None) => 1,
        (Option::Some(x), Option::Some(y)) => replvec_cmp(&x.replacements, &y.replacements),
    }
}

/// Three-way comparison of diagnostic records under their natural order.
pub fn comment_cmp(a: &Comment, b: &Comment) -> (r: i8)
    ensures
        -1 <= r <= 1,
        (r == -1) == comment_lt(a@, b@),
        (r == 0) == (a@ == b@),
        (r == 1) == comment_lt(b@, a@),
{
    let c: i8 = bytes_cmp(&a.file, &b.file);
    if c != 0 {
        return c;
    }
    let c: i8 = u32_cmp(a.line, b.line);
    if c != 0 {
        return c;
    }
    let c: i8 = u32_cmp(a.column, b.column);
    if c != 0 {
        return c;
    }
    let c: i8 = u32_cmp(a.code, b.code);
    if c != 0 {
        return c;
    }
    let c: i8 = level_cmp(a.level, b.level);
    if c != 0 {
        return c;
    }
    let c: i8 = bytes_cmp(&a.message, &b.message);
    if c != 0 {
        return c;
    }
    let c: i8 = opt_u32_cmp(&a.end_line, &b.end_line);
    if c != 0 {
        return c;
    }
    let c: i8 = opt_u32_cmp(&a.end_column, &b.end_column);
    if c != 0 {
        return c;
    }
    opt_fix_cmp(&a.fix, &b.fix)
}

/// Strictly ascending under the record order: sorted, with no duplicates.
pub open spec fn comments_sorted(s: Seq<CommentModel>) -> bool {
    forall|i: int, j: int| 0 <= i < j < s.len() ==> comment_lt(s[i], s[j])
}

/// Model sequence of a sequence of records.
pub open spec fn comment_seq_view(s: Seq<Comment>) -> Seq<CommentModel> {
    s.map_values(|c: Comment| c@)
}

/// A deduplicated set of diagnostic records, kept as its canonical listing:
/// strictly ascending in the natural record order. Two sets holding the same
/// records are therefore identical, element for element.
pub struct CommentSet {
    items: Vec<Comment>,
}

impl View for CommentSet {
    type V = Set<CommentModel>;

    /// The records this set holds, as a mathematical set.
    closed spec fn view(&self) -> Set<CommentModel> {
        comment_seq_view(self.items@).to_set()
    }
}

impl CommentSet {
    /// The canonical listing: ascending, duplicate-free.
    pub closed spec fn seq_view(&self) -> Seq<CommentModel> {
        comment_seq_view(self.items@)
    }

    /// Well-formedness: the listing is strictly ascending.
    pub closed spec fn wf(&self) -> bool {
        comments_sorted(self.seq_view())
    }

    /// The empty record set.
    pub fn new() -> (s: CommentSet)
        ensures
            s.wf(),
            s@ == Set::<CommentModel>::empty(),
            s.seq_view() == Seq::<CommentModel>::empty(),
    {
        let s = CommentSet { items: Vec::new() };
        proof {
            assert(s.seq_view() =~= Seq::<CommentModel>::empty());
            assert(s@ =~= Set::<CommentModel>::empty());
        }
        s
    }

    /// How many distinct records the set holds.
    pub fn len(&self) -> (n: usize)
        ensures
            n == self.seq_view().len(),
    {
        self.items.len()
    }

    /// The record at position `i` of the canonical listing.
    pub fn get(&self, i: usize) -> (c: &Comment)
        requires
            i < self.seq_view().len(),
        ensures
            c@ == self.seq_view()[i as int],
    {
        proof {
            assert(self.seq_view()[i as int] == self.items@[i as int]@);
        }
        &self.items[i]
    }

    /// Index of the first record not below `c`, and whether it equals `c`.
    fn find_slot(&self, c: &Comment) -> (r: (usize, bool))
        requires
            self.wf(),
        ensures
            r.0 <= self.seq_view().len(),
            forall|k: int| 0 <= k < r.0 ==> comment_lt(self.seq_view()[k], c@),
            r.1 ==> r.0 < self.seq_view().len() && self.seq_view()[r.0 as int] == c@,
            !r.1 && r.0 < self.seq_view().len() ==> comment_lt(c@, self.seq_view()[r.0 as int]),
    {
        let mut j: usize = 0;
        while j < self.items.len()
            invariant
                j <= self.items@.len(),
                self.seq_view().len() == self.items@.len(),
                forall|k: int| 0 <= k < j ==> comment_lt(self.seq_view()[k], #[trigger] c@),
            decreases self.items@.len() - j,
        {
            let o: i8 = comment_cmp(&self.items[j], c);
            proof {
                assert(self.seq_view()[j as int] == self.items@[j as int]@);
            }
            if o == 0 {
                return (j, true);
            }
            if o == 1 {
                return (j, false);
            }
            j = j + 1;
        }
        (j, false)
    }

    /// Add one record; a record already present collapses to one entry.
    pub fn insert(&mut self, c: Comment)
        requires
            old(self).wf(),
        ensures
            final(self).wf(),
            final(self)@ == old(self)@.insert(c@),
    {
        let ghost pre = self.seq_view();
        let (j, present) = self.find_slot(&c);
        if present {
            proof {
                assert(pre.contains(c@));
                assert(self@.insert(c@) =~= self@);
            }
            return;
        }
        self.items.insert(j, c);
        proof {
            pre.insert_ensures(j as int, c@);
            assert(self.seq_view() =~= pre.insert(j as int, c@)) by {
                assert(self.items@.len() == pre.len() + 1);
                assert(forall|k: int|
                    0 <= k < self.items@.len() ==> self.seq_view()[k] == #[trigger] self.items@[k]@);
            }
            let post = self.seq_view();
            assert forall|x: int, y: int| 0 <= x < y < post.len() implies comment_lt(
                post[x],
                post[y],
            ) by {
                lemma_lt_around_slot(pre, c@, j as int, x, y);
            }
            assert(self@ =~= old(self)@.insert(c@)) by {
                assert forall|m: CommentModel| post.contains(m) implies pre.contains(m) || m == c@
                by {
                    let k = choose|k: int| 0 <= k < post.len() && post[k] == m;
                    if k < j {
                        assert(pre[k] == m);
                    } else if k > j {
                        assert(pre[k - 1] == m);
                    }
                }
                assert forall|m: CommentModel| pre.contains(m) implies post.contains(m) by {
                    let k = choose|k: int| 0 <= k < pre.len() && pre[k] == m;
                    if k < j {
                        assert(post[k] == m);
                    } else {
                        assert(post[k + 1] == m);
                    }
                }
                assert(post.contains(c@));
            }
        }
    }
}

/// After inserting `c` at slot `j` of a sorted listing, where everything
/// before `j` is below `c` and everything from `j` on is above it, the
/// listing is still strictly ascending at any pair of positions.
proof fn lemma_lt_around_slot(pre: Seq<CommentModel>, c: CommentModel, j: int, x: int, y: int)
    requires
        comments_sorted(pre),
        0 <= j <= pre.len(),
        forall|k: int| 0 <= k < j ==> comment_lt(#[trigger] pre[k], c),
        j < pre.len() ==> comment_lt(c, pre[j]),
        0 <= x < y < pre.insert(j, c).len(),
    ensures
        comment_lt(pre.insert(j, c)[x], pre.insert(j, c)[y]),
{
    pre.insert_ensures(j, c);
    let post = pre.insert(j, c);
    let px = if x < j { pre[x] } else if x == j { c } else { pre[x - 1] };
    let py = if y < j { pre[y] } else if y == j { c } else { pre[y - 1] };
    assert(post[x] == px);
    assert(post[y] == py);
    if x < j && y > j {
        assert(j <= y - 1 < pre.len());
        if y - 1 == j {
            lemma_comment_trans(pre[x], c, pre[j]);
        } else {
            lemma_comment_trans(c, pre[j], pre[y - 1]);
            lemma_comment_trans(pre[x], c, pre[y - 1]);
        }
    } else if x == j && y - 1 > j {
        assert(j < pre.len());
        lemma_comment_trans(c, pre[j], pre[y - 1]);
    }
}

impl CommentSet {
    /// Two well-formed record sets holding the same records have the same
    /// canonical listing, element for element.
    pub proof fn lemma_canonical(a: &CommentSet, b: &CommentSet)
        requires
            a.wf(),
            b.wf(),
            a@ == b@,
        ensures
            a.seq_view() == b.seq_view(),
    {
        lemma_sorted_unique(a.seq_view(), b.seq_view());
    }
}

/// Two strictly ascending listings of the same record set are identical:
/// the canonical listing is unique.
pub proof fn lemma_sorted_unique(a: Seq<CommentModel>, b: Seq<CommentModel>)
    requires
        comments_sorted(a),
        comments_sorted(b),
        a.to_set() == b.to_set(),
    ensures
        a == b,
    decreases a.len(),
{
    if a.len() == 0 {
        if b.len() > 0 {
            assert(b.to_set().contains(b[0]));
            assert(a.contains(b[0]));
        }
        assert(a =~= b);
    } else if b.len() == 0 {
        assert(a.to_set().contains(a[0]));
        assert(b.contains(a[0]));
    } else {
        if a[0] != b[0] {
            assert(a.to_set().contains(a[0]));
            assert(b.contains(a[0]));
            let k = choose|k: int| 0 <= k < b.len() && b[k] == a[0];
            assert(b.to_set().contains(b[0]));
            assert(a.contains(b[0]));
            let k2 = choose|k2: int| 0 <= k2 < a.len() && a[k2] == b[0];
            assert(k > 0 && k2 > 0);
            assert(comment_lt(b[0], a[0]));
            assert(comment_lt(a[0], b[0]));
            lemma_comment_trichotomy(a[0], b[0]);
        }
        let ta = a.drop_first();
        let tb = b.drop_first();
        lemma_tail_set(a);
        lemma_tail_set(b);
        assert(ta.to_set() =~= tb.to_set());
        lemma_sorted_tail(a);
        lemma_sorted_tail(b);
        lemma_sorted_unique(ta, tb);
        lemma_eq_from_head_tail(a, b);
    }
}

/// The tail of a strictly ascending listing is strictly ascending.
proof fn lemma_sorted_tail(a: Seq<CommentModel>)
    requires
        comments_sorted(a),
        a.len() > 0,
    ensures
        comments_sorted(a.drop_first()),
{
    let t = a.drop_first();
    assert forall|i: int, j: int| 0 <= i < j < t.len() implies comment_lt(t[i], t[j]) by {
        assert(t[i] == a[i + 1]);
        assert(t[j] == a[j + 1]);
    }
}

/// Dropping the head of a strictly ascending listing removes exactly the
/// head from the set it lists.
proof fn lemma_tail_set(a: Seq<CommentModel>)
    requires
        comments_sorted(a),
        a.len() > 0,
    ensures
        a.drop_first().to_set() == a.to_set().remove(a[0]),
{
    let t = a.drop_first();
    assert forall|m: CommentModel| t.to_set().contains(m) implies a.to_set().remove(
        a[0],
    ).contains(m) by {
        let k = choose|k: int| 0 <= k < t.len() && t[k] == m;
        assert(a[k + 1] == m);
        assert(comment_lt(a[0], a[k + 1]));
        lemma_comment_trichotomy(a[0], m);
    }
    assert forall|m: CommentModel| a.to_set().remove(a[0]).contains(m) implies t.to_set().contains(
        m,
    ) by {
        let k = choose|k: int| 0 <= k < a.len() && a[k] == m;
        assert(k > 0);
        assert(t[k - 1] == m);
    }
    assert(t.to_set() =~= a.to_set().remove(a[0]));
}

} // verus!
