//! The multi-schema result aggregator: one deduplicated record set behind
//! one of the three wire schemas, selected once per run. Each successful
//! invocation's raw output is parsed strictly under the active schema and
//! merged into the set; the set is order-insensitive, so completions may
//! arrive in any interleaving. Serialization mirrors parsing per schema.

use crate::comment::CommentModel;
use crate::comment::CommentSet;
use crate::ShellcheckError;
use vstd::prelude::*;

verus! {

/// The wire schema of a run: the strict object form, the bare array form,
/// or the line-oriented text form.
#[derive(Clone, Copy, PartialEq, Eq, Structural, Debug)]
pub enum ShellcheckFormat {
    Json,
    Json1,
    Gcc,
}

/// The aggregate document of the strict object schema.
pub struct ShellcheckJson1 {
    comments: CommentSet,
}

/// The aggregate document of the bare array schema.
pub struct ShellcheckJson {
    comments: CommentSet,
}

/// The aggregate document of the line-oriented text schema.
pub struct ShellcheckGcc {
    comments: CommentSet,
}

impl View for ShellcheckJson1 {
    type V = Set<CommentModel>;

    closed spec fn view(&self) -> Set<CommentModel> {
        self.comments@
    }
}

impl View for ShellcheckJson {
    type V = Set<CommentModel>;

    closed spec fn view(&self) -> Set<CommentModel> {
        self.comments@
    }
}

impl View for ShellcheckGcc {
    type V = Set<CommentModel>;

    closed spec fn view(&self) -> Set<CommentModel> {
        self.comments@
    }
}

impl ShellcheckJson1 {
    /// The records listed in their canonical order.
    pub closed spec fn seq_view(&self) -> Seq<CommentModel> {
        self.comments.seq_view()
    }

    /// The listing is strictly ascending.
    pub closed spec fn wf(&self) -> bool {
        self.comments.wf()
    }

    /// An empty document.
    pub fn new() -> (r: ShellcheckJson1)
        ensures
            r.wf(),
            r@ == Set::<CommentModel>::empty(),
    {
        ShellcheckJson1 { comments: CommentSet::new() }
    }
}

impl Default for ShellcheckJson1 {
    /// An empty document.
    fn default() -> (r: ShellcheckJson1)
        ensures
            r.wf(),
            r@ == Set::<CommentModel>::empty(),
    {
        ShellcheckJson1::new()
    }
}

impl ShellcheckJson {
    /// The records listed in their canonical order.
    pub closed spec fn seq_view(&self) -> Seq<CommentModel> {
        self.comments.seq_view()
    }

    /// The listing is strictly ascending.
    pub closed spec fn wf(&self) -> bool {
        self.comments.wf()
    }

    /// An empty document.
    pub fn new() -> (r: ShellcheckJson)
        ensures
            r.wf(),
            r@ == Set::<CommentModel>::empty(),
    {
        ShellcheckJson { comments: CommentSet::new() }
    }
}

impl Default for ShellcheckJson {
    /// An empty document.
    fn default() -> (r: ShellcheckJson)
        ensures
            r.wf(),
            r@ == Set::<CommentModel>::empty(),
    {
        ShellcheckJson::new()
    }
}

impl ShellcheckGcc {
    /// The records listed in their canonical order.
    pub closed spec fn seq_view(&self) -> Seq<CommentModel> {
        self.comments.seq_view()
    }

    /// The listing is strictly ascending.
    pub closed spec fn wf(&self) -> bool {
        self.comments.wf()
    }

    /// An empty document.
    pub fn new() -> (r: ShellcheckGcc)
        ensures
            r.wf(),
            r@ == Set::<CommentModel>::empty(),
    {
        ShellcheckGcc { comments: CommentSet::new() }
    }
}

impl Default for ShellcheckGcc {
    /// An empty document.
    fn default() -> (r: ShellcheckGcc)
        ensures
            r.wf(),
            r@ == Set::<CommentModel>::empty(),
    {
        ShellcheckGcc::new()
    }
}

/// The aggregate document tagged with its wire schema.
pub enum ShellcheckFormatter {
    Json(ShellcheckJson),
    Json1(ShellcheckJson1),
    Gcc(ShellcheckGcc),
}

impl View for ShellcheckFormatter {
    type V = Set<CommentModel>;

    /// The records the document holds, whatever the schema.
    closed spec fn view(&self) -> Set<CommentModel> {
        match self {
            ShellcheckFormatter::Json(x) => x@,
            ShellcheckFormatter::Json1(x) => x@,
            ShellcheckFormatter::Gcc(x) => x@,
        }
    }
}

impl ShellcheckFormatter {
    /// The records listed in their canonical order.
    pub closed spec fn seq_view(&self) -> Seq<CommentModel> {
        match self {
            ShellcheckFormatter::Json(x) => x.seq_view(),
            ShellcheckFormatter::Json1(x) => x.seq_view(),
            ShellcheckFormatter::Gcc(x) => x.seq_view(),
        }
    }

    /// The listing is strictly ascending.
    pub closed spec fn wf(&self) -> bool {
        match self {
            ShellcheckFormatter::Json(x) => x.wf(),
            ShellcheckFormatter::Json1(x) => x.wf(),
            ShellcheckFormatter::Gcc(x) => x.wf(),
        }
    }

    /// The wire schema this document speaks.
    pub open spec fn schema(&self) -> ShellcheckFormat {
        match self {
            ShellcheckFormatter::Json(_) => ShellcheckFormat::Json,
            ShellcheckFormatter::Json1(_) => ShellcheckFormat::Json1,
            ShellcheckFormatter::Gcc(_) => ShellcheckFormat::Gcc,
        }
    }

    /// What one invocation's output bytes mean under the active schema:
    /// the records they carry, in wire order, or nothing where the bytes
    /// do not match the schema strictly.
    pub open spec fn schema_parse(&self, bytes: Seq<u8>) -> Option<Seq<CommentModel>> {
        match self.schema() {
            ShellcheckFormat::Json => crate::json::parse_json(bytes),
            ShellcheckFormat::Json1 => crate::json::parse_json1(bytes),
            ShellcheckFormat::Gcc => crate::gcc::parse_gcc(bytes),
        }
    }

    /// The serialized document under the active schema, of the canonical
    /// listing.
    pub open spec fn schema_doc(&self, ms: Seq<CommentModel>) -> Seq<u8> {
        match self.schema() {
            ShellcheckFormat::Json => crate::json::json_doc_of(ms),
            ShellcheckFormat::Json1 => crate::json::json1_doc_of(ms),
            ShellcheckFormat::Gcc => crate::gcc::gcc_doc_of(ms),
        }
    }

    /// An empty document speaking `format`.
    pub fn new(format: ShellcheckFormat) -> (r: ShellcheckFormatter)
        ensures
            r.wf(),
            r@ == Set::<CommentModel>::empty(),
            r.schema() == format,
    {
        match format {
            ShellcheckFormat::Json => ShellcheckFormatter::Json(ShellcheckJson::new()),
            ShellcheckFormat::Json1 => ShellcheckFormatter::Json1(ShellcheckJson1::new()),
            ShellcheckFormat::Gcc => ShellcheckFormatter::Gcc(ShellcheckGcc::new()),
        }
    }

    /// Merge one successful invocation's output into the document: parse it
    /// strictly under the active schema and take the union with the records
    /// already held, collapsing duplicates. Where the bytes do not match
    /// the schema, the document is left as it was and the run must treat
    /// the mismatch as fatal.
    pub fn push_slice(&mut self, value: &[u8]) -> (r: Result<(), ShellcheckError>)
        requires
            old(self).wf(),
        ensures
            final(self).wf(),
            final(self).schema() == old(self).schema(),
            match old(self).schema_parse(value@) {
                Option::Some(ms) => r matches Result::Ok(_) && final(self)@ == old(self)@.union(
                    ms.to_set(),
                ),
                Option::None => r matches Result::Err(e) && e == ShellcheckError::SchemaParse
                    && final(self)@ == old(self)@,
            },
    {
        let bytes = copy_slice(value);
        let parsed = match self {
            ShellcheckFormatter::Json(_) => crate::json::parse_json_bytes(&bytes),
            ShellcheckFormatter::Json1(_) => crate::json::parse_json1_bytes(&bytes),
            ShellcheckFormatter::Gcc(_) => crate::gcc::parse_gcc_bytes(&bytes),
        };
        let cs = match parsed {
            Result::Err(e) => {
                return Result::Err(e);
            },
            Result::Ok(cs) => cs,
        };
        match self {
            ShellcheckFormatter::Json(x) => merge_into(&mut x.comments, cs),
            ShellcheckFormatter::Json1(x) => merge_into(&mut x.comments, cs),
            ShellcheckFormatter::Gcc(x) => merge_into(&mut x.comments, cs),
        }
        Result::Ok(())
    }

    /// The serialized document under the active schema, in the set's
    /// canonical order: deterministic whatever the completion interleaving
    /// was.
    pub fn to_bytes(&self) -> (v: Vec<u8>)
        ensures
            v@ == self.schema_doc(self.seq_view()),
    {
        match self {
            ShellcheckFormatter::Json(x) => crate::json::json_doc_bytes(&x.comments),
            ShellcheckFormatter::Json1(x) => crate::json::json1_doc_bytes(&x.comments),
            ShellcheckFormatter::Gcc(x) => crate::gcc::gcc_doc_bytes(&x.comments),
        }
    }

    /// How many distinct records the document holds.
    pub fn len(&self) -> (n: usize)
        ensures
            n == self.seq_view().len(),
    {
        match self {
            ShellcheckFormatter::Json(x) => x.comments.len(),
            ShellcheckFormatter::Json1(x) => x.comments.len(),
            ShellcheckFormatter::Gcc(x) => x.comments.len(),
        }
    }
}

/// A copy of a byte slice.
fn copy_slice(value: &[u8]) -> (v: Vec<u8>)
    ensures
        v@ == value@,
{
    let mut v: Vec<u8> = Vec::new();
    let n: usize = value.len();
    let mut i: usize = 0;
    while i < n
        invariant
            i <= n,
            n == value@.len(),
            v@ =~= value@.subrange(0, i as int),
        decreases n - i,
    {
        v.push(value[i]);
        i = i + 1;
    }
    proof {
        assert(v@ =~= value@);
    }
    v
}

/// Insert every record of `cs` into `set`: afterwards the set holds the
/// union of what it held and what the listing carries.
fn merge_into(set: &mut CommentSet, cs: Vec<crate::comment::Comment>)
    requires
        old(set).wf(),
    ensures
        final(set).wf(),
        final(set)@ == old(set)@.union(crate::comment::comment_seq_view(cs@).to_set()),
{
    let ghost ms = crate::comment::comment_seq_view(cs@);
    let ghost n = ms.len();
    proof {
        assert(old(set)@.union(ms.take(0).to_set()) =~= old(set)@);
        assert(crate::comment::comment_seq_view(cs@) =~= ms.skip(0));
    }
    let mut rest = cs;
    let total: usize = rest.len();
    let mut k: usize = 0;
    while rest.len() > 0
        invariant
            n == ms.len(),
            n == total,
            k + rest@.len() == n,
            crate::comment::comment_seq_view(rest@) == ms.skip(k as int),
            set.wf(),
            set@ == old(set)@.union(ms.take(k as int).to_set()),
        decreases rest@.len(),
    {
        let ghost pre_rest = rest@;
        let c = rest.remove(0);
        proof {
            assert(crate::comment::comment_seq_view(pre_rest).len() == pre_rest.len());
            assert(pre_rest.len() == n - k);
            assert(0 <= k < n);
            assert(ms.skip(k as int) =~= ms.subrange(k as int, ms.len() as int));
            assert(ms.skip(k as int)[0] == ms[k as int]);
            assert(crate::comment::comment_seq_view(pre_rest)[0] == c@);
            assert(c@ == ms[k as int]);
            assert(crate::comment::comment_seq_view(rest@) =~= ms.skip(k + 1)) by {
                assert(rest@ =~= pre_rest.subrange(1, pre_rest.len() as int));
                assert forall|j: int|
                    0 <= j < rest@.len() implies crate::comment::comment_seq_view(rest@)[j]
                    == ms.skip(k + 1)[j] by {
                    assert(rest@[j] == pre_rest[j + 1]);
                    assert(crate::comment::comment_seq_view(pre_rest)[j + 1] == pre_rest[j + 1]@);
                    assert(crate::comment::comment_seq_view(rest@)[j] == rest@[j]@);
                    assert(ms.subrange(k as int, ms.len() as int)[j + 1] == ms[k + 1 + j]);
                    assert(ms.skip(k + 1) =~= ms.subrange(k + 1, ms.len() as int));
                    assert(ms.subrange(k + 1, ms.len() as int)[j] == ms[k + 1 + j]);
                }
            }
        }
        set.insert(c);
        proof {
            lemma_take_to_set_snoc(ms, k as int);
            assert(set@ =~= old(set)@.union(ms.take(k + 1).to_set()));
        }
        k = k + 1;
    }
    proof {
        assert(ms.take(n as int) =~= ms);
    }
}

/// Two well-formed documents holding the same records have the same
/// canonical listing, whatever the schemas.
pub proof fn lemma_formatter_canonical(x: &ShellcheckFormatter, y: &ShellcheckFormatter)
    requires
        x.wf(),
        y.wf(),
        x@ == y@,
    ensures
        x.seq_view() == y.seq_view(),
{
    let a = match x {
        ShellcheckFormatter::Json(d) => &d.comments,
        ShellcheckFormatter::Json1(d) => &d.comments,
        ShellcheckFormatter::Gcc(d) => &d.comments,
    };
    let b = match y {
        ShellcheckFormatter::Json(d) => &d.comments,
        ShellcheckFormatter::Json1(d) => &d.comments,
        ShellcheckFormatter::Gcc(d) => &d.comments,
    };
    CommentSet::lemma_canonical(a, b);
}

/// Listing one more record adds exactly that record to the listed set.
proof fn lemma_take_to_set_snoc(ms: Seq<CommentModel>, k: int)
    requires
        0 <= k < ms.len(),
    ensures
        ms.take(k + 1).to_set() == ms.take(k).to_set().insert(ms[k]),
{
    let a = ms.take(k + 1);
    let b = ms.take(k);
    assert forall|m: CommentModel| a.to_set().contains(m) implies b.to_set().contains(m) || m
        == ms[k] by {
        let j = choose|j: int| 0 <= j < a.len() && #[trigger] a[j] == m;
        if j < k {
            assert(b[j] == m);
        }
    }
    assert forall|m: CommentModel| b.to_set().contains(m) implies a.to_set().contains(m) by {
        let j = choose|j: int| 0 <= j < b.len() && #[trigger] b[j] == m;
        assert(a[j] == m);
    }
    assert(a.to_set().contains(ms[k])) by {
        assert(a[k] == ms[k]);
    }
    assert(a.to_set() =~= b.to_set().insert(ms[k]));
}

} // verus!
