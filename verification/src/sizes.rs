//! The table of sizes: the rows that the workers hand in, put in the order of their frames.

use crate::order::{arranged, is_order, lemma_order_unique, names, precedes, sorted_order, Comparison};
use crate::paths::{decimal, spec_decimal};
use crate::schedule::{lemma_chunk_size, spec_chunk, spec_chunk_size};
use vstd::prelude::*;
use vstd::string::*;

verus! {

/// What is written down of each frame.
#[derive(Clone, Copy, Debug, PartialEq, Eq, Structural)]
pub enum StatisticMode {
    /// One size: the root of the mean square of the distances from the outline to its centre.
    Rms,
    /// The smallest distance, the quartiles and the largest distance, their mean, and the
    /// centre.
    FiveNumber,
}

/// The order of the rows by the number of their frame.
pub struct ByFrame;

impl<R> Comparison<(u32, R)> for ByFrame {
    open spec fn admits(&self, item: (u32, R)) -> bool {
        true
    }

    open spec fn below(&self, a: (u32, R), b: (u32, R)) -> bool {
        a.0 < b.0
    }

    fn is_below(&self, a: &(u32, R), b: &(u32, R)) -> (below: bool) {
        a.0 < b.0
    }

    proof fn weak_order(&self, a: (u32, R), b: (u32, R), c: (u32, R)) {
    }
}

/// The rows of all `parts`, one part after the other.
pub open spec fn joined<T>(parts: Seq<Vec<T>>) -> Seq<T>
    decreases parts.len(),
{
    if parts.len() == 0 {
        Seq::empty()
    } else {
        joined(parts.drop_last()) + parts.last()@
    }
}

/// Whether `merged` holds the rows of `rows`, each once, in the order of their frames, rows of
/// one frame in the order in which `rows` holds them.
pub open spec fn is_merged<R>(rows: Seq<(u32, R)>, merged: Seq<(u32, R)>) -> bool {
    exists|order: Seq<usize>| #[trigger] is_order(ByFrame, rows, order) && merged == arranged(rows, order)
}

/// Whether the frames of `rows` never go down.
pub open spec fn is_sorted<R>(rows: Seq<(u32, R)>) -> bool {
    forall|k: int, l: int| 0 <= k < l < rows.len() ==> (#[trigger] rows[k]).0 <= (#[trigger] rows[l]).0
}

/// Whether the frames of `rows` go up from each row to the next.
pub open spec fn is_increasing<R>(rows: Seq<(u32, R)>) -> bool {
    forall|k: int, l: int| 0 <= k < l < rows.len() ==> (#[trigger] rows[k]).0 < (#[trigger] rows[l]).0
}

/// Whether no two rows of `rows` are of the same frame.
pub open spec fn one_row_each<R>(rows: Seq<(u32, R)>) -> bool {
    forall|k: int, l: int| 0 <= k < l < rows.len() ==> (#[trigger] rows[k]).0 != (#[trigger] rows[l]).0
}

/// Puts together what the workers hand in: the rows of all `parts`, in the order of their
/// frames.
pub fn merge<R: Copy>(parts: &Vec<Vec<(u32, R)>>) -> (merged: Vec<(u32, R)>)
    ensures
        is_merged(joined(parts@), merged@),
        is_sorted(merged@),
{
    let mut rows: Vec<(u32, R)> = Vec::new();
    let mut i: usize = 0;
    assert(parts@.take(0) =~= Seq::<Vec<(u32, R)>>::empty());
    while i < parts.len()
        invariant
            i <= parts.len(),
            rows@ == joined(parts@.take(i as int)),
        decreases parts.len() - i,
    {
        let part: &Vec<(u32, R)> = &parts[i];
        let ghost start = rows@;
        let mut j: usize = 0;
        while j < part.len()
            invariant
                j <= part.len(),
                rows@ == start + part@.take(j as int),
            decreases part.len() - j,
        {
            rows.push(part[j]);
            assert(part@.take(j + 1) =~= part@.take(j as int).push(part[j as int]));
            assert(rows@ =~= start + part@.take(j + 1));
            j += 1;
        }
        proof {
            assert(part@.take(part.len() as int) =~= part@);
            assert(parts@.take(i + 1).drop_last() =~= parts@.take(i as int));
            assert(parts@.take(i + 1).last() == parts@[i as int]);
        }
        i += 1;
    }
    assert(parts@.take(parts.len() as int) =~= parts@);
    let order: Vec<usize> = sorted_order(&ByFrame, &rows);
    let mut merged: Vec<(u32, R)> = Vec::new();
    let mut k: usize = 0;
    while k < order.len()
        invariant
            k <= order.len(),
            is_order(ByFrame, rows@, order@),
            merged@ == arranged(rows@, order@).take(k as int),
        decreases order.len() - k,
    {
        merged.push(rows[order[k]]);
        assert(merged@ =~= arranged(rows@, order@).take(k + 1));
        k += 1;
    }
    proof {
        assert(merged@ =~= arranged(rows@, order@));
        lemma_merged_sorted(rows@, merged@);
    }
    merged
}

/// Merged rows are in the order of their frames.
pub proof fn lemma_merged_sorted<R>(rows: Seq<(u32, R)>, merged: Seq<(u32, R)>)
    requires
        is_merged(rows, merged),
    ensures
        is_sorted(merged),
        one_row_each(rows) ==> is_increasing(merged),
{
    let order = choose|order: Seq<usize>| #[trigger] is_order(ByFrame, rows, order) && merged == arranged(rows, order);
    assert forall|k: int, l: int| 0 <= k < l < merged.len() implies (#[trigger] merged[k]).0 <= (
    #[trigger] merged[l]).0 && (one_row_each(rows) ==> merged[k].0 < merged[l].0) by {
        assert(precedes(ByFrame, rows, order[k] as int, order[l] as int));
        if one_row_each(rows) && order[k] != order[l] {
            if order[k] < order[l] {
                assert(rows[order[k] as int].0 != rows[order[l] as int].0);
            } else {
                assert(rows[order[l] as int].0 != rows[order[k] as int].0);
            }
        }
    }
}

/// Rows are merged in one way.
pub proof fn lemma_merged_unique<R>(rows: Seq<(u32, R)>, merged: Seq<(u32, R)>, other: Seq<(u32, R)>)
    requires
        is_merged(rows, merged),
        is_merged(rows, other),
    ensures
        merged == other,
{
    let first = choose|order: Seq<usize>| #[trigger] is_order(ByFrame, rows, order) && merged == arranged(rows, order);
    let second = choose|order: Seq<usize>| #[trigger] is_order(ByFrame, rows, order) && other == arranged(rows, order);
    lemma_order_unique(ByFrame, rows, first, second);
}

/// Merging neither drops a row nor makes one up: the merged rows are the rows that were handed
/// in, as many as there were.
pub proof fn lemma_merged_complete<R>(rows: Seq<(u32, R)>, merged: Seq<(u32, R)>)
    requires
        is_merged(rows, merged),
    ensures
        merged.len() == rows.len(),
        forall|row: (u32, R)| rows.contains(row) <==> merged.contains(row),
{
    let order = choose|order: Seq<usize>| #[trigger] is_order(ByFrame, rows, order) && merged == arranged(rows, order);
    assert forall|row: (u32, R)| rows.contains(row) <==> merged.contains(row) by {
        if rows.contains(row) {
            let i = choose|i: int| 0 <= i < rows.len() && rows[i] == row;
            assert(names(order, i));
            let k = choose|k: int| 0 <= k < order.len() && order[k] == i;
            assert(merged[k] == row);
        }
        if merged.contains(row) {
            let k = choose|k: int| 0 <= k < merged.len() && merged[k] == row;
            assert(rows[order[k] as int] == row);
        }
    }
}

/// Rows whose frames go up are told by what they hold: two such lists of the same rows are the
/// same list.
pub proof fn lemma_increasing_unique<R>(a: Seq<(u32, R)>, b: Seq<(u32, R)>)
    requires
        is_increasing(a),
        is_increasing(b),
        forall|row: (u32, R)| a.contains(row) <==> b.contains(row),
    ensures
        a == b,
    decreases a.len(),
{
    if a.len() == 0 {
        if b.len() > 0 {
            assert(b.contains(b[0]));
        }
        assert(a =~= b);
    } else {
        let x = a.last();
        assert(a.contains(a[a.len() - 1]));
        assert(b.contains(x));
        let j = choose|j: int| 0 <= j < b.len() && b[j] == x;
        let y = b.last();
        assert(b.contains(b[b.len() - 1]));
        assert(a.contains(y));
        let i = choose|i: int| 0 <= i < a.len() && a[i] == y;
        if j < b.len() - 1 {
            assert(b[j].0 < b[b.len() - 1].0);
        }
        if i < a.len() - 1 {
            assert(a[i].0 < a[a.len() - 1].0);
        }
        assert(x == y);
        let a0 = a.drop_last();
        let b0 = b.drop_last();
        assert forall|row: (u32, R)| a0.contains(row) <==> b0.contains(row) by {
            if a0.contains(row) {
                let k = choose|k: int| 0 <= k < a0.len() && a0[k] == row;
                assert(a[k] == row && a[k].0 < a[a.len() - 1].0);
                assert(a.contains(row));
                let l = choose|l: int| 0 <= l < b.len() && b[l] == row;
                assert(b0[l] == row);
            }
            if b0.contains(row) {
                let k = choose|k: int| 0 <= k < b0.len() && b0[k] == row;
                assert(b[k] == row && b[k].0 < b[b.len() - 1].0);
                assert(b.contains(row));
                let l = choose|l: int| 0 <= l < a.len() && a[l] == row;
                assert(a0[l] == row);
            }
        }
        assert(is_increasing(a0)) by {
            assert forall|k: int, l: int| 0 <= k < l < a0.len() implies (#[trigger] a0[k]).0 < (#[trigger] a0[l]).0 by {
                assert(a[k].0 < a[l].0);
            }
        }
        assert(is_increasing(b0)) by {
            assert forall|k: int, l: int| 0 <= k < l < b0.len() implies (#[trigger] b0[k]).0 < (#[trigger] b0[l]).0 by {
                assert(b[k].0 < b[l].0);
            }
        }
        lemma_increasing_unique(a0, b0);
        assert(a =~= a0.push(x));
        assert(b =~= b0.push(y));
    }
}

/// The table does not depend on how the frames were shared out. Let the workers hand in the
/// same rows, one row for a frame at most, once as `rows` and once, in another order, as
/// `others`. Then both are merged to the same table, and its frames go up from row to row.
pub proof fn lemma_merged_same<R>(
    rows: Seq<(u32, R)>,
    others: Seq<(u32, R)>,
    merged: Seq<(u32, R)>,
    other_merged: Seq<(u32, R)>,
)
    requires
        is_merged(rows, merged),
        is_merged(others, other_merged),
        one_row_each(rows),
        one_row_each(others),
        forall|row: (u32, R)| rows.contains(row) <==> others.contains(row),
    ensures
        merged == other_merged,
        is_increasing(merged),
{
    lemma_merged_sorted(rows, merged);
    lemma_merged_sorted(others, other_merged);
    lemma_merged_complete(rows, merged);
    lemma_merged_complete(others, other_merged);
    lemma_increasing_unique(merged, other_merged);
}

/// The rows of frames in a row, of which the first has the number `first`: for each frame of
/// which `results` holds a result, a row of its number and that result.
pub open spec fn spec_rows<R>(first: int, results: Seq<Option<R>>) -> Seq<(u32, R)>
    decreases results.len(),
{
    if results.len() == 0 {
        Seq::empty()
    } else {
        match results.last() {
            Some(result) => spec_rows(first, results.drop_last()).push(((first + results.len() - 1) as u32, result)),
            None => spec_rows(first, results.drop_last()),
        }
    }
}

/// The rows that a worker hands in, once it has gone through its frames from the frame `first`
/// on and has a result, or none, for each of them.
pub fn collect<R: Copy>(first: u32, results: &Vec<Option<R>>) -> (rows: Vec<(u32, R)>)
    requires
        first + results.len() <= u32::MAX + 1,
    ensures
        rows@ == spec_rows(first as int, results@),
{
    let mut rows: Vec<(u32, R)> = Vec::new();
    let mut k: usize = 0;
    assert(results@.take(0) =~= Seq::<Option<R>>::empty());
    while k < results.len()
        invariant
            k <= results.len(),
            first + results.len() <= u32::MAX + 1,
            rows@ == spec_rows(first as int, results@.take(k as int)),
        decreases results.len() - k,
    {
        proof {
            assert(results@.take(k + 1).drop_last() =~= results@.take(k as int));
            assert(results@.take(k + 1).last() == results@[k as int]);
        }
        match results[k] {
            Some(result) => {
                let frame: u32 = first + k as u32;
                rows.push((frame, result));
            },
            None => {},
        }
        k += 1;
    }
    assert(results@.take(results.len() as int) =~= results@);
    rows
}

/// The rows that worker `i` hands in, where `measured` holds for each frame, from frame 1 on,
/// its result or none.
pub open spec fn share_rows<R>(i: u32, fcount: u32, threads: u32, measured: Seq<Option<R>>) -> Seq<(u32, R)> {
    if spec_chunk(i, fcount, threads).0 <= spec_chunk(i, fcount, threads).1 {
        spec_rows(
            spec_chunk(i, fcount, threads).0,
            measured.subrange(spec_chunk(i, fcount, threads).0 - 1, spec_chunk(i, fcount, threads).1),
        )
    } else {
        Seq::empty()
    }
}

/// The rows of frames in a row are the rows of the first of them and then those of the rest.
pub proof fn lemma_rows_append<R>(first: int, a: Seq<Option<R>>, b: Seq<Option<R>>)
    ensures
        spec_rows(first, a + b) == spec_rows(first, a) + spec_rows(first + a.len(), b),
    decreases b.len(),
{
    if b.len() == 0 {
        assert(a + b =~= a);
        assert(spec_rows(first, a) + spec_rows(first + a.len(), b) =~= spec_rows(first, a));
    } else {
        lemma_rows_append(first, a, b.drop_last());
        assert((a + b).drop_last() =~= a + b.drop_last());
        assert((a + b).last() == b.last());
        match b.last() {
            Some(result) => {
                assert(spec_rows(first, a + b) =~= spec_rows(first, a) + spec_rows(first + a.len(), b));
            },
            None => {},
        }
    }
}

/// The rows of frames in a row go up by their frames, and each is a row of one of the frames.
pub proof fn lemma_rows_increasing<R>(first: int, results: Seq<Option<R>>)
    requires
        0 <= first,
        first + results.len() <= u32::MAX + 1,
    ensures
        is_increasing(spec_rows(first, results)),
        forall|k: int|
            0 <= k < spec_rows(first, results).len() ==> first <= (#[trigger] spec_rows(first, results)[k]).0 < first
                + results.len(),
    decreases results.len(),
{
    if results.len() > 0 {
        let rest = spec_rows(first, results.drop_last());
        lemma_rows_increasing(first, results.drop_last());
        let rows = spec_rows(first, results);
        assert forall|k: int| 0 <= k < rows.len() implies first <= (#[trigger] rows[k]).0 < first + results.len() by {
            if k < rest.len() {
                assert(rows[k] == rest[k]);
            }
        }
        assert forall|k: int, l: int| 0 <= k < l < rows.len() implies (#[trigger] rows[k]).0 < (#[trigger] rows[l]).0 by {
            assert(rows[k] == rest[k]);
            if l < rest.len() {
                assert(rows[l] == rest[l]);
            }
        }
    }
}

/// What the first `k` workers hand in, one after the other, are the rows of the frames up to
/// the last frame of worker `k`.
proof fn lemma_shares_join<R>(fcount: u32, threads: u32, measured: Seq<Option<R>>, parts: Seq<Vec<(u32, R)>>, k: int)
    requires
        threads >= 1,
        measured.len() == fcount,
        parts.len() == threads,
        forall|i: int| 0 <= i < threads ==> (#[trigger] parts[i])@ == share_rows(i as u32, fcount, threads, measured),
        0 <= k <= threads,
    ensures
        joined(parts.take(k)) == spec_rows(
            1,
            measured.take(
                if k * spec_chunk_size(fcount, threads) < fcount {
                    k * spec_chunk_size(fcount, threads)
                } else {
                    fcount as int
                },
            ),
        ),
    decreases k,
{
    let size = spec_chunk_size(fcount, threads);
    lemma_chunk_size(fcount, threads);
    if k == 0 {
        assert(parts.take(0) =~= Seq::<Vec<(u32, R)>>::empty());
        assert(0 * size == 0) by (nonlinear_arith);
        assert(measured.take(0) =~= Seq::<Option<R>>::empty());
    } else {
        lemma_shares_join(fcount, threads, measured, parts, k - 1);
        let i = k - 1;
        assert(parts.take(k).drop_last() =~= parts.take(i));
        assert(parts.take(k).last() == parts[i]);
        assert(parts[i]@ == share_rows(i as u32, fcount, threads, measured));
        assert((i + 1) * size == i * size + size) by (nonlinear_arith);
        assert(0 <= i * size) by (nonlinear_arith)
            requires
                0 <= i,
                0 <= size,
        ;
        let lo = if i * size < fcount {
            i * size
        } else {
            fcount as int
        };
        let hi = if k * size < fcount {
            k * size
        } else {
            fcount as int
        };
        if spec_chunk(i as u32, fcount, threads).0 <= spec_chunk(i as u32, fcount, threads).1 {
            assert(measured.take(hi) =~= measured.take(lo) + measured.subrange(lo, hi));
            lemma_rows_append(1, measured.take(lo), measured.subrange(lo, hi));
        } else {
            assert(hi == lo);
            assert(joined(parts.take(i)) + parts[i]@ =~= joined(parts.take(i)));
        }
    }
}

/// The table does not depend on the number of workers. Let `measured` hold for each frame, from
/// frame 1 on, its result or none, and let each of the workers hand in the rows of the frames
/// of its share. Then the merged table holds one row for each frame that has a result, and no
/// other row; the frames of its rows go up from row to row; and it is the same table whatever
/// the number of workers.
pub proof fn lemma_table<R>(
    fcount: u32,
    threads: u32,
    measured: Seq<Option<R>>,
    parts: Seq<Vec<(u32, R)>>,
    merged: Seq<(u32, R)>,
)
    requires
        threads >= 1,
        measured.len() == fcount,
        parts.len() == threads,
        forall|i: int| 0 <= i < threads ==> (#[trigger] parts[i])@ == share_rows(i as u32, fcount, threads, measured),
        is_merged(joined(parts), merged),
    ensures
        merged == spec_rows(1, measured),
        is_increasing(merged),
{
    let size = spec_chunk_size(fcount, threads);
    let table = spec_rows(1, measured);
    lemma_chunk_size(fcount, threads);
    lemma_shares_join(fcount, threads, measured, parts, threads as int);
    assert(threads * size == size * threads) by (nonlinear_arith);
    assert(parts.take(threads as int) =~= parts);
    assert(measured.take(fcount as int) =~= measured);
    assert(joined(parts) == table);
    lemma_rows_increasing(1, measured);
    lemma_merged_sorted(table, merged);
    lemma_merged_complete(table, merged);
    lemma_increasing_unique(merged, table);
}

/// The first line of the table.
pub open spec fn spec_header(mode: StatisticMode) -> Seq<char> {
    match mode {
        StatisticMode::Rms => "frame,size"@,
        StatisticMode::FiveNumber =>
            "frame,min,lower_quartile,median,higher_quartile,max,mean,center_x,center_y"@,
    }
}

/// The first line of the table, which names its columns.
pub fn header(mode: StatisticMode) -> (line: String)
    ensures
        line@ == spec_header(mode),
{
    match mode {
        StatisticMode::Rms => String::from_str("frame,size"),
        StatisticMode::FiveNumber => String::from_str(
            "frame,min,lower_quartile,median,higher_quartile,max,mean,center_x,center_y",
        ),
    }
}

/// `fields`, each behind a comma.
pub open spec fn spec_fields(fields: Seq<String>) -> Seq<char>
    decreases fields.len(),
{
    if fields.len() == 0 {
        Seq::empty()
    } else {
        spec_fields(fields.drop_last()) + ","@ + fields.last()@
    }
}

/// A line of the table: the number of the frame, then its fields, commas between them.
pub open spec fn spec_row(frame: u32, fields: Seq<String>) -> Seq<char> {
    spec_decimal(frame as nat) + spec_fields(fields)
}

/// The line of the table for one frame.
pub fn row(frame: u32, fields: &Vec<String>) -> (line: String)
    ensures
        line@ == spec_row(frame, fields@),
{
    let mut line: String = decimal(frame);
    let mut i: usize = 0;
    assert(fields@.take(0) =~= Seq::<String>::empty());
    assert(line@ =~= spec_row(frame, fields@.take(0)));
    while i < fields.len()
        invariant
            i <= fields.len(),
            line@ == spec_row(frame, fields@.take(i as int)),
        decreases fields.len() - i,
    {
        line.append(",");
        line.append(fields[i].as_str());
        proof {
            assert(fields@.take(i + 1).drop_last() =~= fields@.take(i as int));
            assert(fields@.take(i + 1).last() == fields@[i as int]);
            assert(line@ =~= spec_row(frame, fields@.take(i + 1)));
        }
        i += 1;
    }
    assert(fields@.take(fields.len() as int) =~= fields@);
    line
}

} // verus!
