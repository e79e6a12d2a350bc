//! The batch planner: chooses a chunk size from the file count and the
//! concurrency degree, then partitions the classified file list into
//! consecutive chunks of that size. Every file lands in exactly one chunk.

use vstd::prelude::*;

verus! {

/// Chunks per worker slot kept in flight at steady state; trades process
/// spawn overhead against pool utilization and retry granularity.
pub const GRANULARITY: usize = 16;

/// Deep view of a file list: each file identifier as its byte sequence.
pub open spec fn files_view(s: Seq<Vec<u8>>) -> Seq<Seq<u8>> {
    s.map_values(|v: Vec<u8>| v@)
}

/// Chunk size for `len` files at concurrency `workers`:
/// `len / (workers * 16) + 1`. Never zero; degenerates to one chunk holding
/// everything when `len < workers * 16`.
pub fn chunk_size(len: usize, workers: usize) -> (s: usize)
    requires
        1 <= workers,
        workers as int * 16 <= usize::MAX as int,
    ensures
        s == len as int / (workers as int * 16) + 1,
        s >= 1,
{
    let denom: usize = workers * GRANULARITY;
    assert(len as int / (denom as int) < usize::MAX as int) by (nonlinear_arith)
        requires
            denom >= 16 && len <= usize::MAX,
    ;
    len / denom + 1
}

/// The files that chunk `i` of size `s` covers: the `i`-th consecutive
/// window of `s` files (the last window may be shorter).
pub open spec fn chunk_span(fv: Seq<Seq<u8>>, s: int, i: int) -> Seq<Seq<u8>> {
    fv.subrange(i * s, if (i + 1) * s <= fv.len() { (i + 1) * s } else { fv.len() as int })
}

/// Partition `files` into consecutive chunks of `s` files, the last chunk
/// possibly shorter. Produces exactly `ceil(len / s)` chunks, and chunk `i`
/// is exactly the `i`-th window of the input: nothing omitted, nothing
/// duplicated, order kept.
pub fn plan_chunks(files: &Vec<Vec<u8>>, s: usize) -> (chunks: Vec<Vec<Vec<u8>>>)
    requires
        1 <= s,
    ensures
        chunks@.len() == (files@.len() + s - 1) / (s as int),
        forall|i: int|
            0 <= i < chunks@.len() ==> files_view(#[trigger] chunks@[i]@) == chunk_span(
                files_view(files@),
                s as int,
                i,
            ),
{
    let ghost fv = files_view(files@);
    let mut chunks: Vec<Vec<Vec<u8>>> = Vec::new();
    let mut cur: Vec<Vec<u8>> = Vec::new();
    let mut i: usize = 0;
    proof {
        assert(chunks@.len() * s == 0) by (nonlinear_arith)
            requires
                chunks@.len() == 0,
        ;
        assert(files_view(cur@) =~= fv.subrange(0, 0));
    }
    while i < files.len()
        invariant
            fv == files_view(files@),
            fv.len() == files@.len(),
            i <= files@.len(),
            s >= 1,
            cur@.len() < s,
            i == chunks@.len() * s + cur@.len(),
            files_view(cur@) =~= fv.subrange(chunks@.len() * s, i as int),
            forall|k: int|
                0 <= k < chunks@.len() ==> files_view(#[trigger] chunks@[k]@) == chunk_span(
                    fv,
                    s as int,
                    k,
                ),
        decreases files@.len() - i,
    {
        let ghost pre_chunks = chunks@;
        let ghost pre_cur = cur@;
        cur.push(files[i].clone());
        proof {
            assert(cur@[pre_cur.len() as int]@ =~= fv[i as int]);
            assert(files_view(cur@) =~= fv.subrange(chunks@.len() * s, i + 1));
        }
        if cur.len() == s {
            chunks.push(cur);
            cur = Vec::new();
            proof {
                let n = pre_chunks.len() as int;
                assert((n + 1) * s == n * s + s) by (nonlinear_arith);
                assert(files_view(chunks@[n]@) == chunk_span(fv, s as int, n));
                assert(files_view(cur@) =~= fv.subrange(chunks@.len() * s, i + 1));
            }
        }
        i = i + 1;
    }
    if cur.len() > 0 {
        let ghost n = chunks@.len() as int;
        chunks.push(cur);
        proof {
            assert((n + 1) * s == n * s + s) by (nonlinear_arith);
            assert(files_view(chunks@[n]@) == chunk_span(fv, s as int, n));
            let r = fv.len() - n * s;
            vstd::arithmetic::mul::lemma_mul_is_distributive_add(s as int, n, 1);
            vstd::arithmetic::mul::lemma_mul_is_commutative(s as int, n);
            assert(fv.len() + s - 1 == (s as int) * (n + 1) + (r - 1));
            vstd::arithmetic::div_mod::lemma_div_multiples_vanish_fancy(n + 1, r - 1, s as int);
        }
    } else {
        proof {
            let n = chunks@.len() as int;
            vstd::arithmetic::mul::lemma_mul_is_commutative(s as int, n);
            assert(fv.len() + s - 1 == (s as int) * n + (s - 1));
            vstd::arithmetic::div_mod::lemma_div_multiples_vanish_fancy(n, s - 1, s as int);
        }
    }
    chunks
}

/// Concatenating the chunk windows `0 .. n` gives back the first `n * s`
/// files (clipped to the input length): the chunks partition the input.
pub proof fn lemma_chunks_partition(fv: Seq<Seq<u8>>, s: int, chunks: Seq<Seq<Seq<u8>>>)
    requires
        s >= 1,
        chunks.len() == (fv.len() + s - 1) / s,
        forall|i: int| 0 <= i < chunks.len() ==> #[trigger] chunks[i] == chunk_span(fv, s, i),
    ensures
        chunks.flatten() == fv,
{
    lemma_chunks_partition_prefix(fv, s, chunks, chunks.len() as int);
    let n = chunks.len() as int;
    assert(chunks.subrange(0, n) =~= chunks);
    let f = fv.len() as int;
    vstd::arithmetic::div_mod::lemma_fundamental_div_mod(f + s - 1, s);
    vstd::arithmetic::div_mod::lemma_mod_bound(f + s - 1, s);
    assert(n * s == s * n);
    assert(n * s >= f);
    assert(fv.subrange(0, f) =~= fv);
}

/// Helper: the first `n` chunks flatten to the first `n * s` files.
proof fn lemma_chunks_partition_prefix(fv: Seq<Seq<u8>>, s: int, chunks: Seq<Seq<Seq<u8>>>, n: int)
    requires
        s >= 1,
        0 <= n <= chunks.len(),
        chunks.len() <= (fv.len() + s - 1) / s,
        forall|i: int| 0 <= i < chunks.len() ==> #[trigger] chunks[i] == chunk_span(fv, s, i),
    ensures
        chunks.subrange(0, n).flatten() == fv.subrange(
            0,
            if n * s <= fv.len() { n * s } else { fv.len() as int },
        ),
    decreases n,
{
    if n == 0 {
        assert(chunks.subrange(0, 0) =~= Seq::<Seq<Seq<u8>>>::empty());
        assert(Seq::<Seq<Seq<u8>>>::empty().flatten() =~= Seq::<Seq<u8>>::empty());
        assert(fv.subrange(0, 0) =~= Seq::<Seq<u8>>::empty());
    } else {
        lemma_chunks_partition_prefix(fv, s, chunks, n - 1);
        let prev = chunks.subrange(0, n - 1);
        let here = chunks.subrange(0, n);
        assert(here.drop_last() =~= prev);
        assert(here.last() == chunks[n - 1]);
        here.lemma_flatten_and_flatten_alt_are_equivalent();
        prev.lemma_flatten_and_flatten_alt_are_equivalent();
        assert(here.flatten_alt() == prev.flatten_alt() + chunks[n - 1]);
        let f = fv.len() as int;
        let q = (f + s - 1) / s;
        vstd::arithmetic::div_mod::lemma_fundamental_div_mod(f + s - 1, s);
        vstd::arithmetic::div_mod::lemma_mod_bound(f + s - 1, s);
        vstd::arithmetic::mul::lemma_mul_inequality(n - 1, q - 1, s);
        assert((n - 1) * s == n * s - s) by (nonlinear_arith);
        assert((q - 1) * s == s * q - s) by (nonlinear_arith);
        assert((n - 1) * s <= f - 1);
        let hi_prev = if (n - 1) * s <= fv.len() { (n - 1) * s } else { fv.len() as int };
        let hi_here = if n * s <= fv.len() { n * s } else { fv.len() as int };
        assert(chunks[n - 1] == chunk_span(fv, s, n - 1));
        assert(fv.subrange(0, hi_prev) + fv.subrange(hi_prev, hi_here) =~= fv.subrange(0, hi_here));
    }
}

} // verus!