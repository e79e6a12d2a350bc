//! The aggregate document's algebra. Merging is set union keyed by full
//! structural equality, so it is commutative, associative and idempotent —
//! which is what lets invocations complete and merge in any interleaving —
//! and a well-formed document is canonical: what it holds determines its
//! serialized bytes, not the order its records arrived in.

use crate::comment::CommentModel;
use crate::formatter::ShellcheckFormatter;
use vstd::prelude::*;

verus! {

/// Merging two successful invocations' records into a document in either
/// order yields the same document.
pub proof fn lemma_merge_commutes(d: Set<CommentModel>, a: Seq<CommentModel>, b: Seq<CommentModel>)
    ensures
        d.union(a.to_set()).union(b.to_set()) == d.union(b.to_set()).union(a.to_set()),
{
    assert(d.union(a.to_set()).union(b.to_set()) =~= d.union(b.to_set()).union(a.to_set()));
}

/// Merging is associative: grouping does not matter, so a batch's records
/// may arrive as one merge or as many.
pub proof fn lemma_merge_associates(
    d: Set<CommentModel>,
    a: Set<CommentModel>,
    b: Set<CommentModel>,
)
    ensures
        d.union(a).union(b) == d.union(a.union(b)),
{
    assert(d.union(a).union(b) =~= d.union(a.union(b)));
}

/// Merging the same invocation's records twice yields the document that
/// one merge yields.
pub proof fn lemma_merge_idempotent(d: Set<CommentModel>, a: Seq<CommentModel>)
    ensures
        d.union(a.to_set()).union(a.to_set()) == d.union(a.to_set()),
{
    assert(d.union(a.to_set()).union(a.to_set()) =~= d.union(a.to_set()));
}

/// Split equivalence: a failed batch merges nothing, and once each of its
/// files' singleton retries has succeeded, the document holds what it held
/// before the batch plus exactly the union of the individual results —
/// however the retries were interleaved.
pub proof fn lemma_split_equivalence(
    d0: Set<CommentModel>,
    ra: Seq<CommentModel>,
    rb: Seq<CommentModel>,
    rc: Seq<CommentModel>,
)
    ensures
        d0.union(ra.to_set()).union(rb.to_set()).union(rc.to_set()) == d0.union(
            ra.to_set().union(rb.to_set()).union(rc.to_set()),
        ),
        d0.union(ra.to_set()).union(rb.to_set()).union(rc.to_set()) == d0.union(
            rc.to_set(),
        ).union(rb.to_set()).union(ra.to_set()),
{
    assert(d0.union(ra.to_set()).union(rb.to_set()).union(rc.to_set()) =~= d0.union(
        ra.to_set().union(rb.to_set()).union(rc.to_set()),
    ));
    assert(d0.union(ra.to_set()).union(rb.to_set()).union(rc.to_set()) =~= d0.union(
        rc.to_set(),
    ).union(rb.to_set()).union(ra.to_set()));
}

/// Schema round trip: serializing a document under either structured
/// schema and re-parsing it under the same schema yields the identical
/// record listing, for records that carry no fix (and, under the strict
/// object schema, no `note` level, which that schema cannot carry).
pub proof fn lemma_schema_round_trip(fmt: &ShellcheckFormatter)
    requires
        fmt.wf(),
        fmt.schema() != crate::formatter::ShellcheckFormat::Gcc,
        crate::json::comments_plain(
            fmt.seq_view(),
            fmt.schema() == crate::formatter::ShellcheckFormat::Json1,
        ),
    ensures
        fmt.schema_parse(fmt.schema_doc(fmt.seq_view())) == Option::Some(fmt.seq_view()),
{
    match fmt.schema() {
        crate::formatter::ShellcheckFormat::Json1 => {
            crate::json::lemma_json1_roundtrip(fmt.seq_view());
        },
        crate::formatter::ShellcheckFormat::Json => {
            crate::json::lemma_json_roundtrip(fmt.seq_view());
        },
        crate::formatter::ShellcheckFormat::Gcc => {},
    }
}

/// Two well-formed documents of the same schema holding the same records
/// serialize to the same bytes: the final document is deterministic
/// regardless of scheduling.
pub proof fn lemma_document_deterministic(x: &ShellcheckFormatter, y: &ShellcheckFormatter)
    requires
        x.wf(),
        y.wf(),
        x@ == y@,
        x.schema() == y.schema(),
    ensures
        x.schema_doc(x.seq_view()) == y.schema_doc(y.seq_view()),
{
    crate::formatter::lemma_formatter_canonical(x, y);
}

} // verus!
