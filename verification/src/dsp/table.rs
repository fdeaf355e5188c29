//! Tables of numbers: a vector of rows, and its flat form in row order.
use vstd::prelude::*;

verus! {

/// The rows of a table, each by its contents.
pub open spec fn rows_of<T>(table: Seq<Vec<T>>) -> Seq<Seq<T>> {
    Seq::new(table.len(), |i: int| table[i]@)
}

/// The rows of a table that is stored in row order.
pub open spec fn rows_in<T>(data: Seq<T>, rows: nat, cols: nat) -> Seq<Seq<T>> {
    Seq::new(rows, |k: int| data.subrange(k * cols, (k + 1) * cols))
}

/// Every row, twice.
pub open spec fn doubled<R>(rows: Seq<R>) -> Seq<R> {
    Seq::new(2 * rows.len(), |i: int| rows[i / 2])
}

/// Appends `src` to `dst`.
pub fn push_all<T: Copy>(dst: &mut Vec<T>, src: &[T])
    ensures
        final(dst)@ == old(dst)@ + src@,
{
    let mut i: usize = 0;
    while i < src.len()
        invariant
            i <= src@.len(),
            dst@ == old(dst)@ + src@.take(i as int),
        decreases src@.len() - i,
    {
        dst.push(src[i]);
        i += 1;
    }
    assert(src@.take(src@.len() as int) =~= src@);
}

/// A copy of `src`.
pub fn copied<T: Copy>(src: &[T]) -> (r: Vec<T>)
    ensures
        r@ == src@,
{
    let mut r: Vec<T> = Vec::new();
    push_all(&mut r, src);
    r
}

/// The samples of `src` from `start` up to `end`.
pub fn copied_range<T: Copy>(src: &[T], start: usize, end: usize) -> (r: Vec<T>)
    requires
        start <= end <= src@.len(),
    ensures
        r@ == src@.subrange(start as int, end as int),
{
    let mut r: Vec<T> = Vec::new();
    let mut i: usize = start;
    while i < end
        invariant
            start <= i <= end <= src@.len(),
            r@ == src@.subrange(start as int, i as int),
        decreases end - i,
    {
        r.push(src[i]);
        i += 1;
    }
    r
}

/// The rows of a table that is stored in row order.
pub fn split_rows<T: Copy>(data: &Vec<T>, rows: usize, cols: usize) -> (r: Vec<Vec<T>>)
    requires
        data@.len() == rows * cols,
    ensures
        rows_of(r@) == rows_in(data@, rows as nat, cols as nat),
        r@.len() == rows,
        forall|k: int| 0 <= k < rows ==> (#[trigger] r@[k])@.len() == cols,
{
    let mut r: Vec<Vec<T>> = Vec::new();
    let mut at: usize = 0;
    let size: usize = data.len();
    proof {
        assert(0 * cols == 0) by (nonlinear_arith);
    }
    while r.len() < rows
        invariant
            data@.len() == rows * cols,
            size == data@.len(),
            r@.len() <= rows,
            at == r@.len() * cols,
            rows_of(r@) == rows_in(data@, r@.len(), cols as nat),
            forall|k: int| 0 <= k < r@.len() ==> (#[trigger] r@[k])@.len() == cols,
        decreases rows - r@.len(),
    {
        let ghost k = r@.len();
        proof {
            assert((k + 1) * cols == k * cols + cols) by (nonlinear_arith);
            assert((k + 1) * cols <= rows * cols) by (nonlinear_arith)
                requires
                    k + 1 <= rows,
            ;
        }
        let row = copied_range(data.as_slice(), at, at + cols);
        proof {
            assert(rows_of(r@.push(row)) =~= rows_of(r@).push(row@));
            assert(rows_in(data@, k + 1, cols as nat) =~= rows_in(data@, k, cols as nat).push(
                data@.subrange(k * cols, (k + 1) * cols),
            ));
        }
        r.push(row);
        at += cols;
    }
    r
}

/// Every row, twice: nearest-neighbour doubling of the frame rate.
pub fn double_rows<T: Copy>(table: &Vec<Vec<T>>) -> (r: Vec<Vec<T>>)
    ensures
        rows_of(r@) == doubled(rows_of(table@)),
{
    let mut r: Vec<Vec<T>> = Vec::new();
    let mut t: usize = 0;
    while t < table.len()
        invariant
            t <= table@.len(),
            rows_of(r@) == doubled(rows_of(table@)).take(2 * t),
        decreases table@.len() - t,
    {
        let ghost before = r@;
        let first = copied(table[t].as_slice());
        let second = copied(table[t].as_slice());
        proof {
            let all = doubled(rows_of(table@));
            assert(rows_of(before.push(first).push(second)) =~= rows_of(before).push(
                first@,
            ).push(second@));
            assert(all[2 * t] == table@[t as int]@);
            assert(all[2 * t + 1] == table@[t as int]@);
            assert(all.take(2 * (t + 1)) =~= all.take(2 * t).push(all[2 * t]).push(
                all[2 * t + 1],
            ));
        }
        r.push(first);
        r.push(second);
        t += 1;
    }
    assert(doubled(rows_of(table@)).take(2 * t) =~= doubled(rows_of(table@)));
    r
}

/// A table in row order has its cells row by row, as many to a row as there are columns.
pub proof fn law_cells_are_in_row_order<T>(data: Seq<T>, rows: nat, cols: nat, k: int, c: int)
    requires
        data.len() == rows * cols,
        0 <= k < rows,
        0 <= c < cols,
    ensures
        rows_in(data, rows, cols).len() == rows,
        rows_in(data, rows, cols)[k].len() == cols,
        rows_in(data, rows, cols)[k][c] == data[k * cols + c],
{
    assert((k + 1) * cols == k * cols + cols) by (nonlinear_arith);
    assert(0 <= k * cols && (k + 1) * cols <= rows * cols) by (nonlinear_arith)
        requires
            0 <= k,
            k + 1 <= rows,
            0 <= cols,
    ;
}

} // verus!
