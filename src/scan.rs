//! Scan planning for the columnar adapter: how a segment's rows are cut into
//! batches and which columns a projection selects.
use vstd::prelude::*;

use crate::metadata::ColumnMetadata;

verus! {

/// Largest number of rows in one batch.
pub const BATCH_SIZE: usize = 8192;

/// One batch: `len` rows starting at row `offset`.
#[derive(Debug, Clone, Copy, PartialEq, Eq, Structural)]
pub struct BatchRange {
    pub offset: usize,
    pub len: usize,
}

/// The batches that cover rows `offset..total`, in row order.
pub open spec fn batches_from(offset: nat, total: nat) -> Seq<(nat, nat)>
    decreases total - offset,
{
    if offset >= total {
        seq![]
    } else {
        let len: nat = if total - offset < BATCH_SIZE {
            (total - offset) as nat
        } else {
            BATCH_SIZE as nat
        };
        seq![(offset, len)] + batches_from(offset + len, total)
    }
}

/// The batches of a segment of `total` rows.
pub open spec fn planned_batches(total: nat) -> Seq<(nat, nat)> {
    batches_from(0, total)
}

/// The number of rows of the batches `bs`.
pub open spec fn rows_of(bs: Seq<(nat, nat)>) -> nat
    decreases bs.len(),
{
    if bs.len() == 0 {
        0
    } else {
        bs[0].1 + rows_of(bs.drop_first())
    }
}

/// The sum of `ts`.
pub open spec fn sum_of(ts: Seq<nat>) -> nat
    decreases ts.len(),
{
    if ts.len() == 0 {
        0
    } else {
        ts[0] + sum_of(ts.drop_first())
    }
}

/// The batches of every segment together.
pub open spec fn table_rows(ts: Seq<nat>) -> nat
    decreases ts.len(),
{
    if ts.len() == 0 {
        0
    } else {
        rows_of(planned_batches(ts[0])) + table_rows(ts.drop_first())
    }
}

proof fn lemma_batches_from(offset: nat, total: nat)
    requires
        offset <= total,
    ensures
        rows_of(batches_from(offset, total)) == total - offset,
        forall|i: int|
            0 <= i < batches_from(offset, total).len() ==> 0 < (#[trigger] batches_from(
                offset,
                total,
            )[i]).1 <= BATCH_SIZE,
    decreases total - offset,
{
    if offset < total {
        let len: nat = if total - offset < BATCH_SIZE {
            (total - offset) as nat
        } else {
            BATCH_SIZE as nat
        };
        lemma_batches_from(offset + len, total);
        let rest = batches_from(offset + len, total);
        assert((seq![(offset, len)] + rest).drop_first() =~= rest);
        assert forall|i: int| 0 <= i < batches_from(offset, total).len() implies 0 < (
        #[trigger] batches_from(offset, total)[i]).1 <= BATCH_SIZE by {
            if i > 0 {
                assert(batches_from(offset, total)[i] == rest[i - 1]);
            }
        }
    }
}

/// The batches of a segment hold each of its rows once: their row counts add
/// up to the segment's row count, and no batch is empty or larger than
/// `BATCH_SIZE`.
pub proof fn lemma_batches_cover(total: nat)
    ensures
        rows_of(planned_batches(total)) == total,
        forall|i: int|
            0 <= i < planned_batches(total).len() ==> 0 < (#[trigger] planned_batches(total)[i]).1
                <= BATCH_SIZE,
{
    lemma_batches_from(0, total);
}

/// Over all the partitions of a table, one per segment, the batches hold as
/// many rows as the segments together.
pub proof fn lemma_table_rows(ts: Seq<nat>)
    ensures
        table_rows(ts) == sum_of(ts),
    decreases ts.len(),
{
    if ts.len() > 0 {
        lemma_batches_cover(ts[0]);
        lemma_table_rows(ts.drop_first());
    }
}

/// The batches of a segment of `total_docs` rows.
pub fn batch_ranges(total_docs: usize) -> (r: Vec<BatchRange>)
    ensures
        r@.map_values(|b: BatchRange| (b.offset as nat, b.len as nat)) == planned_batches(
            total_docs as nat,
        ),
{
    let mut out: Vec<BatchRange> = Vec::new();
    let mut offset: usize = 0;
    while offset < total_docs
        invariant
            offset <= total_docs,
            planned_batches(total_docs as nat) == out@.map_values(
                |b: BatchRange| (b.offset as nat, b.len as nat),
            ) + batches_from(offset as nat, total_docs as nat),
        decreases total_docs - offset,
    {
        let len: usize = if total_docs - offset < BATCH_SIZE {
            total_docs - offset
        } else {
            BATCH_SIZE
        };
        let ghost before = out@.map_values(|b: BatchRange| (b.offset as nat, b.len as nat));
        let b = BatchRange { offset, len };
        out.push(b);
        proof {
            assert(out@.map_values(|b: BatchRange| (b.offset as nat, b.len as nat)) =~= before.push(
                (offset as nat, len as nat),
            ));
            assert(before + batches_from(offset as nat, total_docs as nat) =~= before.push(
                (offset as nat, len as nat),
            ) + batches_from((offset + len) as nat, total_docs as nat));
        }
        offset = offset + len;
    }
    proof {
        assert(out@.map_values(|b: BatchRange| (b.offset as nat, b.len as nat)) + seq![] =~= out@.map_values(
            |b: BatchRange| (b.offset as nat, b.len as nat),
        ));
    }
    out
}

/// The indices of the columns a scan reads: the projection when there is one,
/// else every column; `None` when a projected index is out of range.
pub fn projected_columns(num_columns: usize, projection: &Option<Vec<usize>>) -> (r: Option<Vec<usize>>)
    ensures
        projection is None ==> (r matches Some(v) && v@ == Seq::new(
            num_columns as nat,
            |i: int| i as usize,
        )),
        projection matches Some(p) ==> (r is Some <==> forall|k: int|
            0 <= k < p@.len() ==> #[trigger] p@[k] < num_columns),
        projection matches Some(p) ==> (r matches Some(v) ==> v@ == p@),
{
    match projection {
        None => {
            let mut v: Vec<usize> = Vec::new();
            let mut i: usize = 0;
            while i < num_columns
                invariant
                    i <= num_columns,
                    v@ == Seq::new(i as nat, |j: int| j as usize),
                decreases num_columns - i,
            {
                v.push(i);
                i = i + 1;
                proof {
                    assert(v@ =~= Seq::new(i as nat, |j: int| j as usize));
                }
            }
            Some(v)
        },
        Some(p) => {
            let mut v: Vec<usize> = Vec::new();
            let mut k: usize = 0;
            while k < p.len()
                invariant
                    projection matches Some(pp) && pp@ == p@,
                    k <= p@.len(),
                    v@ == p@.subrange(0, k as int),
                    forall|j: int| 0 <= j < k ==> #[trigger] p@[j] < num_columns,
                decreases p@.len() - k,
            {
                if p[k] >= num_columns {
                    return None;
                }
                v.push(p[k]);
                k = k + 1;
                proof {
                    assert(v@ =~= p@.subrange(0, k as int));
                }
            }
            proof {
                assert(p@.subrange(0, k as int) =~= p@);
            }
            Some(v)
        },
    }
}

/// The names of the selected columns, in selection order.
pub fn selected_names(columns: &Vec<ColumnMetadata>, selection: &Vec<usize>) -> (r: Vec<String>)
    requires
        forall|k: int| 0 <= k < selection@.len() ==> #[trigger] selection@[k] < columns@.len(),
    ensures
        r@.len() == selection@.len(),
        forall|k: int| 0 <= k < r@.len() ==> #[trigger] r@[k]@ == columns@[selection@[k] as int].name@,
{
    let mut out: Vec<String> = Vec::new();
    let mut k: usize = 0;
    while k < selection.len()
        invariant
            k <= selection@.len(),
            forall|j: int| 0 <= j < selection@.len() ==> #[trigger] selection@[j] < columns@.len(),
            out@.len() == k,
            forall|j: int| 0 <= j < k ==> #[trigger] out@[j]@ == columns@[selection@[j] as int].name@,
        decreases selection@.len() - k,
    {
        let name = columns[selection[k]].name.clone();
        out.push(name);
        k = k + 1;
    }
    out
}

} // verus!
