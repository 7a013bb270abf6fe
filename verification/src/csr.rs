//! Compressed-sparse-row (CSR) layout of a sequence of rows.
//!
//! A CSR graph stores its rows back to back in one `neighbors` array and
//! records in `offsets[k]` where row `k` starts, so that row `k` is
//! `neighbors[offsets[k]..offsets[k + 1]]`.
use vstd::prelude::*;

verus! {

/// Number of entries stored before row `k`, i.e. the true (unbounded) CSR offset.
pub open spec fn csr_offset(rows: Seq<Seq<u32>>, k: int) -> nat {
    rows.take(k).flatten().len()
}

/// The offset array as the library stores it: one `u32` per row boundary.
///
/// Each entry is the length of the neighbor array before the boundary,
/// converted with `as u32` exactly as the construction does it.
pub open spec fn csr_offsets(rows: Seq<Seq<u32>>) -> Seq<u32> {
    Seq::new((rows.len() + 1) as nat, |k: int| csr_offset(rows, k) as u32)
}

/// Total number of stored neighbor entries.
pub open spec fn csr_len(rows: Seq<Seq<u32>>) -> nat {
    rows.flatten().len()
}

/// Appending row `k` to the first `k` rows extends the flattened prefix by that row.
pub proof fn lemma_take_push_flatten(rows: Seq<Seq<u32>>, k: int)
    requires
        0 <= k < rows.len(),
    ensures
        rows.take(k + 1).flatten() == rows.take(k).flatten() + rows[k],
        csr_offset(rows, k + 1) == csr_offset(rows, k) + rows[k].len(),
{
    assert(rows.take(k + 1) =~= rows.take(k).push(rows[k]));
    rows.take(k).lemma_flatten_push(rows[k]);
}

/// The flattened first `j` rows are a prefix of the flattened first `m` rows.
pub proof fn lemma_flatten_prefix(rows: Seq<Seq<u32>>, j: int, m: int)
    requires
        0 <= j <= m <= rows.len(),
    ensures
        csr_offset(rows, j) <= csr_offset(rows, m),
        rows.take(m).flatten().subrange(0, csr_offset(rows, j) as int)
            == rows.take(j).flatten(),
    decreases m - j,
{
    if j == m {
        assert(rows.take(m).flatten().subrange(0, csr_offset(rows, j) as int)
            =~= rows.take(j).flatten());
    } else {
        lemma_flatten_prefix(rows, j, m - 1);
        lemma_take_push_flatten(rows, m - 1);
        assert(rows.take(m).flatten().subrange(0, csr_offset(rows, j) as int)
            =~= rows.take(m - 1).flatten().subrange(0, csr_offset(rows, j) as int));
    }
}

/// Row `k` is found in the flattened array between the offsets of rows `k` and `k + 1`,
/// and the offsets are bounded by the total length.
pub proof fn lemma_csr_row(rows: Seq<Seq<u32>>, k: int)
    requires
        0 <= k < rows.len(),
    ensures
        csr_offset(rows, k) + rows[k].len() == csr_offset(rows, k + 1),
        csr_offset(rows, k + 1) <= csr_len(rows),
        rows.flatten().subrange(csr_offset(rows, k) as int, csr_offset(rows, k + 1) as int)
            == rows[k],
{
    lemma_take_push_flatten(rows, k);
    lemma_flatten_prefix(rows, k + 1, rows.len() as int);
    assert(rows.take(rows.len() as int) =~= rows);
    let all = rows.flatten();
    let lo = csr_offset(rows, k) as int;
    let hi = csr_offset(rows, k + 1) as int;
    assert(all.subrange(0, hi) == rows.take(k).flatten() + rows[k]);
    assert(all.subrange(lo, hi) =~= all.subrange(0, hi).subrange(lo, hi));
    assert(all.subrange(lo, hi) =~= rows[k]);
}

/// The offset after the last row equals the total length, and offsets never decrease.
pub proof fn lemma_csr_offsets_monotone(rows: Seq<Seq<u32>>, j: int, m: int)
    requires
        0 <= j <= m <= rows.len(),
    ensures
        csr_offset(rows, j) <= csr_offset(rows, m),
        csr_offset(rows, rows.len() as int) == csr_len(rows),
{
    lemma_flatten_prefix(rows, j, m);
    assert(rows.take(rows.len() as int) =~= rows);
}

} // verus!
