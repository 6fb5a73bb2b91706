//! The row-major fixed-width matrix container.
//!
//! A `Matrix<T>` stores its cells in one flat vector together with the row
//! width; the height is derived. It carries both syntactic matrix literals
//! (cells are expressions) and plain value shapes (cells are literals).

use vstd::prelude::*;

verus! {

/// Row-major two-dimensional container: a flat cell vector plus row width.
#[derive(Debug, PartialEq)]
pub struct Matrix<T> {
    pub data: Vec<T>,
    pub width: usize,
}

/// A matrix is well formed when it has at least one row of positive width
/// and the flat data divides evenly into rows.
pub open spec fn matrix_wf<T>(m: Matrix<T>) -> bool {
    m.width >= 1 && m.data@.len() >= 1 && m.data@.len() as int % (m.width as int) == 0
}

/// The concatenation of a sequence of rows into one flat sequence.
pub open spec fn concat_rows<T>(rows: Seq<Seq<T>>) -> Seq<T>
    decreases rows.len(),
{
    if rows.len() == 0 {
        Seq::empty()
    } else {
        rows[0] + concat_rows(rows.drop_first())
    }
}

/// Concatenating rows of one common width yields `count * width` cells.
pub proof fn lemma_concat_rows_len<T>(rows: Seq<Seq<T>>, w: int)
    requires
        forall|i: int| 0 <= i < rows.len() ==> (#[trigger] rows[i]).len() == w,
    ensures
        concat_rows(rows).len() == rows.len() * w,
    decreases rows.len(),
{
    if rows.len() == 0 {
    } else {
        lemma_concat_rows_len(rows.drop_first(), w);
        assert(rows.len() * w == w + (rows.len() - 1) * w) by (nonlinear_arith);
    }
}

impl<T: Clone> Clone for Matrix<T> {
    fn clone(&self) -> (r: Self)
        ensures
            r.width == self.width,
            r.data@.len() == self.data@.len(),
            forall|i: int|
                0 <= i < self.data@.len() ==> vstd::pervasive::cloned::<T>(
                    self.data@[i],
                    #[trigger] r.data@[i],
                ),
    {
        Matrix { data: self.data.clone(), width: self.width }
    }
}

impl<T> Matrix<T> {
    /// Builds a matrix from a list of equally long rows.
    pub fn from_vecs(data: Vec<Vec<T>>) -> (r: Self)
        requires
            data@.len() >= 1,
            forall|i: int|
                0 <= i < data@.len() ==> (#[trigger] data@[i])@.len() == data@[0]@.len(),
        ensures
            r.width == data@[0]@.len(),
            r.data@ == concat_rows(data@.map_values(|v: Vec<T>| v@)),
            r.data@.len() == data@.len() * data@[0]@.len(),
    {
        let ghost all_rows: Seq<Seq<T>> = data@.map_values(|v: Vec<T>| v@);
        let width = data[0].len();
        let mut rows = data;
        let mut flat: Vec<T> = Vec::new();
        proof {
            lemma_concat_rows_len(all_rows, width as int);
        }
        while rows.len() > 0
            invariant
                flat@ + concat_rows(rows@.map_values(|v: Vec<T>| v@)) == concat_rows(all_rows),
            decreases rows.len(),
        {
            let ghost rows_before: Seq<Seq<T>> = rows@.map_values(|v: Vec<T>| v@);
            let mut row = rows.remove(0);
            proof {
                assert(rows@.map_values(|v: Vec<T>| v@) =~= rows_before.drop_first());
                assert(concat_rows(rows_before) == rows_before[0] + concat_rows(
                    rows_before.drop_first(),
                ));
            }
            let ghost row_full: Seq<T> = row@;
            let ghost flat_start: Seq<T> = flat@;
            flat.append(&mut row);
            proof {
                assert(flat_start + row_full + concat_rows(rows_before.drop_first())
                    =~= flat_start + (row_full + concat_rows(rows_before.drop_first())));
            }
        }
        proof {
            assert(rows@.map_values(|v: Vec<T>| v@) =~= Seq::<Seq<T>>::empty());
            assert(flat@ =~= flat@ + concat_rows(rows@.map_values(|v: Vec<T>| v@)));
        }
        Matrix { data: flat, width }
    }

    /// The number of columns.
    pub fn width(&self) -> (r: usize)
        ensures
            r == self.width,
    {
        self.width
    }

    /// The number of rows.
    pub fn height(&self) -> (r: usize)
        requires
            self.width >= 1,
        ensures
            r == self.data@.len() as int / (self.width as int),
    {
        self.data.len() / self.width
    }

    /// The flat index of column `i` in row `j`.
    pub fn ix(&self, i: usize, j: usize) -> (r: usize)
        requires
            (self.width as int) * (j as int) + (i as int) <= usize::MAX,
        ensures
            r == (self.width as int) * (j as int) + (i as int),
    {
        self.width * j + i
    }

    /// The cell at column `i` of row `j`, when the flat index is in range.
    pub fn get(&self, i: usize, j: usize) -> (r: Option<&T>)
        requires
            (self.width as int) * (j as int) + (i as int) <= usize::MAX,
        ensures
            ({
                let idx = (self.width as int) * (j as int) + (i as int);
                if idx < self.data@.len() {
                    r == Some(&self.data@[idx])
                } else {
                    r is None
                }
            }),
    {
        let idx = self.ix(i, j);
        if idx < self.data.len() {
            Some(&self.data[idx])
        } else {
            None
        }
    }

    /// Overwrites the cell at column `i` of row `j`; reports whether the
    /// flat index was in range.
    pub fn set(&mut self, i: usize, j: usize, v: T) -> (r: bool)
        requires
            (old(self).width as int) * (j as int) + (i as int) <= usize::MAX,
        ensures
            ({
                let idx = (old(self).width as int) * (j as int) + (i as int);
                final(self).width == old(self).width && if idx < old(self).data@.len() {
                    r && final(self).data@ == old(self).data@.update(idx, v)
                } else {
                    !r && final(self).data@ == old(self).data@
                }
            }),
    {
        let idx = self.ix(i, j);
        if idx < self.data.len() {
            self.data.set(idx, v);
            true
        } else {
            false
        }
    }

    /// Applies a function to every cell, keeping the shape.
    pub fn map<U, F: Fn(T) -> U>(self, f: F) -> (r: Matrix<U>)
        requires
            forall|i: int| 0 <= i < self.data@.len() ==> call_requires(f, (#[trigger] self.data@[i],)),
        ensures
            r.width == self.width,
            r.data@.len() == self.data@.len(),
            forall|i: int|
                0 <= i < self.data@.len() ==> call_ensures(f, (self.data@[i],), #[trigger] r.data@[i]),
    {
        let ghost input: Seq<T> = self.data@;
        let width = self.width;
        let mut cells = self.data;
        let mut out: Vec<U> = Vec::new();
        while cells.len() > 0
            invariant
                cells@ == input.skip(input.len() - cells@.len()),
                out@.len() == input.len() - cells@.len(),
                forall|i: int|
                    0 <= i < out@.len() ==> call_ensures(f, (input[i],), #[trigger] out@[i]),
                forall|i: int| 0 <= i < input.len() ==> call_requires(f, (#[trigger] input[i],)),
            decreases cells.len(),
        {
            let ghost done: int = input.len() - cells@.len();
            let cell = cells.remove(0);
            proof {
                assert(cell == input[done]);
                assert(cells@ =~= input.skip(done + 1));
            }
            out.push(f(cell));
        }
        Matrix { data: out, width }
    }

    /// Borrows every cell, keeping the shape.
    pub fn as_ref(&self) -> (r: Matrix<&T>)
        ensures
            r.width == self.width,
            r.data@.len() == self.data@.len(),
            forall|i: int| 0 <= i < self.data@.len() ==> #[trigger] r.data@[i] == &self.data@[i],
    {
        let mut out: Vec<&T> = Vec::new();
        let mut k: usize = 0;
        while k < self.data.len()
            invariant
                k <= self.data@.len(),
                out@.len() == k,
                forall|i: int| 0 <= i < k ==> #[trigger] out@[i] == &self.data@[i],
            decreases self.data@.len() - k,
        {
            out.push(&self.data[k]);
            k = k + 1;
        }
        Matrix { data: out, width: self.width }
    }
}

/// Every cell of the sequence is present.
pub open spec fn all_cells_present<T>(s: Seq<Option<T>>) -> bool {
    forall|i: int| 0 <= i < s.len() ==> (#[trigger] s[i]) is Some
}

impl<T> Matrix<Option<T>> {
    /// Moves the option outward: the whole matrix is present exactly when
    /// every cell is.
    #[verifier::loop_isolation(false)]
    pub fn transpose(self) -> (r: Option<Matrix<T>>)
        ensures
            (r is Some) == all_cells_present(self.data@),
            r is Some ==> ({
                let m = r->0;
                m.width == self.width && m.data@.len() == self.data@.len() && forall|i: int|
                    0 <= i < self.data@.len() ==> #[trigger] m.data@[i] == self.data@[i]->0
            }),
    {
        let ghost input: Seq<Option<T>> = self.data@;
        let width = self.width;
        let mut cells = self.data;
        let mut out: Vec<T> = Vec::new();
        while cells.len() > 0
            invariant
                cells@ == input.skip(input.len() - cells@.len()),
                out@.len() == input.len() - cells@.len(),
                forall|i: int| 0 <= i < out@.len() ==> (#[trigger] input[i]) is Some,
                forall|i: int| 0 <= i < out@.len() ==> #[trigger] out@[i] == input[i]->0,
            decreases cells.len(),
        {
            let ghost done: int = input.len() - cells@.len();
            let cell = cells.remove(0);
            proof {
                assert(cell == input[done]);
                assert(cells@ =~= input.skip(done + 1));
            }
            match cell {
                Some(v) => out.push(v),
                None => {
                    proof {
                        assert(0 <= done < input.len() && !(input[done] is Some));
                        assert(!all_cells_present(input));
                    }
                    return None;
                },
            }
        }
        Some(Matrix { data: out, width })
    }
}

} // verus!
