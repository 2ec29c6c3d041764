//! Counting the occurrences of a value in a rectangular table, and how a single update changes
//! the count.

use vstd::prelude::*;

verus! {

/// The rows of a table, each taken as a sequence.
pub open spec fn rows_of<T>(table: Seq<Vec<T>>) -> Seq<Seq<T>> {
    Seq::new(table.len(), |i: int| table[i]@)
}

/// How many entries of `row` equal `v`.
pub open spec fn count_in_row<T>(row: Seq<T>, v: T) -> nat
    decreases row.len(),
{
    if row.len() == 0 {
        0
    } else {
        count_in_row(row.drop_last(), v) + if row.last() == v {
            1nat
        } else {
            0nat
        }
    }
}

/// How many entries of the table `rows` equal `v`.
pub open spec fn count_in_rows<T>(rows: Seq<Seq<T>>, v: T) -> nat
    decreases rows.len(),
{
    if rows.len() == 0 {
        0
    } else {
        count_in_rows(rows.drop_last(), v) + count_in_row(rows.last(), v)
    }
}

/// One where `b` holds, else zero.
pub open spec fn one_if(b: bool) -> nat {
    if b {
        1
    } else {
        0
    }
}

/// Replacing the entry at `j` changes the count of `v` in a row by what left and what came.
pub proof fn lemma_count_row_update<T>(row: Seq<T>, j: int, new: T, v: T)
    requires
        0 <= j < row.len(),
    ensures
        count_in_row(row.update(j, new), v) + one_if(row[j] == v) == count_in_row(row, v) + one_if(
            new == v,
        ),
    decreases row.len(),
{
    let upd = row.update(j, new);
    if j == row.len() - 1 {
        assert(upd.drop_last() =~= row.drop_last());
    } else {
        assert(upd.drop_last() =~= row.drop_last().update(j, new));
        lemma_count_row_update(row.drop_last(), j, new, v);
    }
}

/// Replacing row `i` changes the count of `v` by the counts of the row that left and of the
/// row that came.
pub proof fn lemma_count_rows_update<T>(rows: Seq<Seq<T>>, i: int, new_row: Seq<T>, v: T)
    requires
        0 <= i < rows.len(),
    ensures
        count_in_rows(rows.update(i, new_row), v) + count_in_row(rows[i], v) == count_in_rows(
            rows,
            v,
        ) + count_in_row(new_row, v),
    decreases rows.len(),
{
    let upd = rows.update(i, new_row);
    if i == rows.len() - 1 {
        assert(upd.drop_last() =~= rows.drop_last());
    } else {
        assert(upd.drop_last() =~= rows.drop_last().update(i, new_row));
        lemma_count_rows_update(rows.drop_last(), i, new_row, v);
    }
}

/// Replacing the entry at `(i, j)` changes the count of `v` by what left and what came.
pub proof fn lemma_count_cell_update<T>(rows: Seq<Seq<T>>, i: int, j: int, new: T, v: T)
    requires
        0 <= i < rows.len(),
        0 <= j < rows[i].len(),
    ensures
        count_in_rows(rows.update(i, rows[i].update(j, new)), v) + one_if(rows[i][j] == v)
            == count_in_rows(rows, v) + one_if(new == v),
{
    lemma_count_row_update(rows[i], j, new, v);
    lemma_count_rows_update(rows, i, rows[i].update(j, new), v);
}

/// The count of `v` in a row is zero exactly when no entry of the row is `v`.
pub proof fn lemma_count_row_zero<T>(row: Seq<T>, v: T)
    ensures
        count_in_row(row, v) == 0 <==> forall|j: int| 0 <= j < row.len() ==> row[j] != v,
    decreases row.len(),
{
    if row.len() > 0 {
        lemma_count_row_zero(row.drop_last(), v);
        if count_in_row(row, v) == 0 {
            assert forall|j: int| 0 <= j < row.len() implies row[j] != v by {
                if j < row.len() - 1 {
                    assert(row.drop_last()[j] == row[j]);
                }
            }
        } else {
            if row.last() != v {
                let j = choose|j: int| 0 <= j < row.drop_last().len() && row.drop_last()[j] == v;
                assert(row[j] == v);
            }
        }
    }
}

/// The count of `v` is zero exactly when no entry of the table is `v`.
pub proof fn lemma_count_rows_zero<T>(rows: Seq<Seq<T>>, v: T)
    ensures
        count_in_rows(rows, v) == 0 <==> forall|i: int, j: int|
            0 <= i < rows.len() && 0 <= j < rows[i].len() ==> rows[i][j] != v,
    decreases rows.len(),
{
    if rows.len() > 0 {
        lemma_count_rows_zero(rows.drop_last(), v);
        lemma_count_row_zero(rows.last(), v);
        if count_in_rows(rows, v) == 0 {
            assert forall|i: int, j: int|
                0 <= i < rows.len() && 0 <= j < rows[i].len() implies rows[i][j] != v by {
                if i < rows.len() - 1 {
                    assert(rows.drop_last()[i] == rows[i]);
                }
            }
        } else {
            if count_in_row(rows.last(), v) == 0 {
                let (i, j) = choose|i: int, j: int|
                    0 <= i < rows.drop_last().len() && 0 <= j < rows.drop_last()[i].len()
                        && rows.drop_last()[i][j] == v;
                assert(rows[i][j] == v);
            } else {
                let j = choose|j: int| 0 <= j < rows.last().len() && rows.last()[j] == v;
                assert(rows[rows.len() - 1][j] == v);
            }
        }
    }
}

} // verus!
