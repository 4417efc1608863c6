use vstd::prelude::*;

use crate::shape::{Shape, ShapeError};

verus! {

/// The transpose of a table of `g.len()` rows of `g[0].len()` entries each.
pub open spec fn transpose_of<T>(g: Seq<Seq<T>>) -> Seq<Seq<T>> {
    Seq::new(g[0].len(), |i: int| Seq::new(g.len(), |j: int| g[j][i]))
}

/// Column `j` of the table `g`.
pub open spec fn column<T>(g: Seq<Seq<T>>, j: int) -> Seq<T> {
    Seq::new(g.len(), |k: int| g[k][j])
}

/// `r` is a value that summing the products of `xs` and `ys` can give, term by
/// term from the first: starting from `zero`, each step adds, by `plus`, the
/// product of the next pair, by `times`. Where both operations are functions
/// (as they are on floating-point numbers), `r` is the one such sum.
pub open spec fn sums_products<T, X: Fn(T, T) -> T, P: Fn(T, T) -> T>(
    times: X,
    plus: P,
    zero: T,
    xs: Seq<T>,
    ys: Seq<T>,
    r: T,
) -> bool
    decreases xs.len(),
{
    if xs.len() == 0 {
        r == zero
    } else {
        exists|acc: T, p: T|
            #![trigger call_ensures(plus, (acc, p), r)]
            sums_products(times, plus, zero, xs.drop_last(), ys.drop_last(), acc) && call_ensures(
                times,
                (xs.last(), ys.last()),
                p,
            ) && call_ensures(plus, (acc, p), r)
    }
}

/// `r` is a table of the shape of `a` whose entry in row `i`, column `j`, is a
/// value that `f` can return on `a[i][j]`.
pub open spec fn mapped<T, F: Fn(T) -> T>(a: Seq<Seq<T>>, f: F, r: Seq<Seq<T>>) -> bool {
    &&& r.len() == a.len()
    &&& forall|i: int| 0 <= i < a.len() ==> (#[trigger] r[i]).len() == a[i].len()
    &&& forall|i: int, j: int|
        0 <= i < a.len() && 0 <= j < a[i].len() ==> call_ensures(f, (a[i][j],), #[trigger] r[i][j])
}

/// `r` is a table of the shape of `a` whose entry in row `i`, column `j`, is a
/// value that `f` can return on `a[i][j]` and `b[i][j]`.
pub open spec fn zipped<T, F: Fn(T, T) -> T>(
    a: Seq<Seq<T>>,
    b: Seq<Seq<T>>,
    f: F,
    r: Seq<Seq<T>>,
) -> bool {
    &&& r.len() == a.len()
    &&& forall|i: int| 0 <= i < a.len() ==> (#[trigger] r[i]).len() == a[i].len()
    &&& forall|i: int, j: int|
        0 <= i < a.len() && 0 <= j < a[i].len() ==> call_ensures(
            f,
            (a[i][j], b[i][j]),
            #[trigger] r[i][j],
        )
}

/// `r` is a product of the tables `a` (`n` columns) and `b` (`n` rows): its
/// entry in row `i`, column `j`, sums the products of row `i` of `a` and
/// column `j` of `b`.
pub open spec fn multiplied<T, X: Fn(T, T) -> T, P: Fn(T, T) -> T>(
    a: Seq<Seq<T>>,
    b: Seq<Seq<T>>,
    times: X,
    plus: P,
    zero: T,
    r: Seq<Seq<T>>,
) -> bool {
    &&& r.len() == a.len()
    &&& forall|i: int| 0 <= i < a.len() ==> (#[trigger] r[i]).len() == b[0].len()
    &&& forall|i: int, j: int|
        0 <= i < a.len() && 0 <= j < b[0].len() ==> sums_products(
            times,
            plus,
            zero,
            a[i],
            column(b, j),
            #[trigger] r[i][j],
        )
}

/// One more term of a sum of products.
pub proof fn lemma_sums_products_push<T, X: Fn(T, T) -> T, P: Fn(T, T) -> T>(
    times: X,
    plus: P,
    zero: T,
    xs: Seq<T>,
    ys: Seq<T>,
    acc: T,
    x: T,
    y: T,
    p: T,
    r: T,
)
    requires
        sums_products(times, plus, zero, xs, ys, acc),
        call_ensures(times, (x, y), p),
        call_ensures(plus, (acc, p), r),
    ensures
        sums_products(times, plus, zero, xs.push(x), ys.push(y), r),
{
    assert(xs.push(x).drop_last() =~= xs);
    assert(ys.push(y).drop_last() =~= ys);
}

/// A dense matrix of `rows` by `cols` entries, stored row by row. The
/// operations below keep `wf`: each of them asks it of its operands.
#[derive(Clone, Debug)]
pub struct Matrix<T> {
    pub data: Vec<Vec<T>>,
    pub rows: usize,
    pub cols: usize,
}

impl<T> View for Matrix<T> {
    type V = Seq<Seq<T>>;

    open spec fn view(&self) -> Seq<Seq<T>> {
        self.data@.map_values(|r: Vec<T>| r@)
    }
}

impl<T: Copy> Matrix<T> {
    /// The stored sizes describe the data, and neither is zero.
    pub open spec fn wf(&self) -> bool {
        &&& self.rows > 0
        &&& self.cols > 0
        &&& self.data@.len() == self.rows
        &&& forall|i: int| 0 <= i < self.rows ==> (#[trigger] self.data@[i])@.len() == self.cols
    }

    /// The shape, rows by columns.
    pub open spec fn shape_spec(&self) -> Shape {
        Shape { rows: self.rows, cols: self.cols }
    }

    /// Wraps `data`, a sequence of rows. Fails with `Empty` where there is no
    /// row or the first row is empty, and with `Ragged` where the rows differ
    /// in length.
    pub fn new(data: Vec<Vec<T>>) -> (r: Result<Matrix<T>, ShapeError>)
        ensures
            r is Ok <==> (data@.len() > 0 && data@[0]@.len() > 0 && forall|i: int|
                0 <= i < data@.len() ==> #[trigger] data@[i]@.len() == data@[0]@.len()),
            data@.len() == 0 || data@[0]@.len() == 0 <==> r == Err::<Matrix<T>, ShapeError>(
                ShapeError::Empty,
            ),
            r == Err::<Matrix<T>, ShapeError>(ShapeError::Ragged) <==> (data@.len() > 0
                && data@[0]@.len() > 0 && exists|i: int|
                0 <= i < data@.len() && #[trigger] data@[i]@.len() != data@[0]@.len()),
            r matches Ok(m) ==> {
                &&& m.wf()
                &&& m.rows == data@.len()
                &&& m.cols == data@[0]@.len()
                &&& m@ == data@.map_values(|row: Vec<T>| row@)
            },
    {
        let rows = data.len();
        if rows == 0 || data[0].len() == 0 {
            return Err(ShapeError::Empty);
        }
        let cols = data[0].len();
        let mut i: usize = 1;
        while i < rows
            invariant
                rows == data@.len(),
                cols == data@[0]@.len(),
                cols > 0,
                1 <= i <= rows,
                forall|k: int| 0 <= k < i ==> (#[trigger] data@[k]@).len() == cols,
            decreases rows - i,
        {
            if data[i].len() != cols {
                assert(data@[i as int]@.len() != data@[0]@.len());
                return Err(ShapeError::Ragged);
            }
            i = i + 1;
        }
        Ok(Matrix { data, rows, cols })
    }

    /// A matrix of `rows` by `cols` entries, each of them `value`. Fails with
    /// `Empty` where either size is zero.
    pub fn filled(rows: usize, cols: usize, value: T) -> (r: Result<Matrix<T>, ShapeError>)
        ensures
            rows == 0 || cols == 0 <==> r is Err,
            r is Err ==> r == Err::<Matrix<T>, ShapeError>(ShapeError::Empty),
            r matches Ok(m) ==> {
                &&& m.wf()
                &&& m.rows == rows
                &&& m.cols == cols
                &&& forall|i: int, j: int|
                    0 <= i < rows && 0 <= j < cols ==> #[trigger] m@[i][j] == value
            },
    {
        if rows == 0 || cols == 0 {
            return Err(ShapeError::Empty);
        }
        let mut data: Vec<Vec<T>> = Vec::new();
        let mut i: usize = 0;
        while i < rows
            invariant
                i <= rows,
                data@.len() == i,
                forall|k: int| 0 <= k < i ==> (#[trigger] data@[k]@).len() == cols,
                forall|k: int, j: int|
                    0 <= k < i && 0 <= j < cols ==> #[trigger] data@[k]@[j] == value,
            decreases rows - i,
        {
            let mut line: Vec<T> = Vec::new();
            let mut j: usize = 0;
            while j < cols
                invariant
                    j <= cols,
                    line@.len() == j,
                    forall|l: int| 0 <= l < j ==> #[trigger] line@[l] == value,
                decreases cols - j,
            {
                line.push(value);
                j = j + 1;
            }
            data.push(line);
            i = i + 1;
        }
        Ok(Matrix { data, rows, cols })
    }

    /// The number of rows.
    pub fn rows(&self) -> (r: usize)
        ensures
            r == self.rows,
    {
        self.rows
    }

    /// The number of columns.
    pub fn cols(&self) -> (r: usize)
        ensures
            r == self.cols,
    {
        self.cols
    }

    /// The shape, rows by columns.
    pub fn shape(&self) -> (r: Shape)
        ensures
            r == self.shape_spec(),
    {
        Shape { rows: self.rows, cols: self.cols }
    }

    /// The entry in row `i`, column `j`.
    pub fn get(&self, i: usize, j: usize) -> (r: T)
        requires
            self.wf(),
            i < self.rows,
            j < self.cols,
        ensures
            r == self@[i as int][j as int],
    {
        self.data[i][j]
    }

    /// The matrix of `cols` rows by `rows` columns whose row `i` is column `i`
    /// of this one.
    pub fn transpose(&self) -> (r: Matrix<T>)
        requires
            self.wf(),
        ensures
            r.wf(),
            r.rows == self.cols,
            r.cols == self.rows,
            r@ == transpose_of(self@),
    {
        let mut data: Vec<Vec<T>> = Vec::new();
        let mut i: usize = 0;
        while i < self.cols
            invariant
                self.wf(),
                i <= self.cols,
                data@.len() == i,
                forall|k: int| 0 <= k < i ==> (#[trigger] data@[k]@).len() == self.rows,
                forall|k: int, j: int|
                    0 <= k < i && 0 <= j < self.rows ==> #[trigger] data@[k]@[j] == self@[j][k],
            decreases self.cols - i,
        {
            let mut line: Vec<T> = Vec::new();
            let mut j: usize = 0;
            while j < self.rows
                invariant
                    self.wf(),
                    i < self.cols,
                    j <= self.rows,
                    line@.len() == j,
                    forall|l: int| 0 <= l < j ==> #[trigger] line@[l] == self@[l][i as int],
                decreases self.rows - j,
            {
                line.push(self.data[j][i]);
                j = j + 1;
            }
            data.push(line);
            i = i + 1;
        }
        let r = Matrix { data, rows: self.cols, cols: self.rows };
        assert(r@ =~= transpose_of(self@)) by {
            assert forall|k: int| 0 <= k < self.cols implies r@[k] =~= transpose_of(self@)[k] by {}
        }
        r
    }

    /// The matrix of the same shape whose entries are `f` of this one's.
    pub fn map<F: Fn(T) -> T>(&self, f: F) -> (r: Matrix<T>)
        requires
            self.wf(),
            forall|x: T| f.requires((x,)),
        ensures
            r.wf(),
            r.rows == self.rows,
            r.cols == self.cols,
            mapped(self@, f, r@),
    {
        let mut data: Vec<Vec<T>> = Vec::new();
        let mut i: usize = 0;
        while i < self.rows
            invariant
                self.wf(),
                forall|x: T| f.requires((x,)),
                i <= self.rows,
                data@.len() == i,
                forall|k: int| 0 <= k < i ==> (#[trigger] data@[k]@).len() == self.cols,
                forall|k: int, j: int|
                    0 <= k < i && 0 <= j < self.cols ==> call_ensures(
                        f,
                        (self@[k][j],),
                        #[trigger] data@[k]@[j],
                    ),
            decreases self.rows - i,
        {
            let mut line: Vec<T> = Vec::new();
            let mut j: usize = 0;
            while j < self.cols
                invariant
                    self.wf(),
                    forall|x: T| f.requires((x,)),
                    i < self.rows,
                    j <= self.cols,
                    line@.len() == j,
                    forall|l: int|
                        0 <= l < j ==> call_ensures(f, (self@[i as int][l],), #[trigger] line@[l]),
                decreases self.cols - j,
            {
                line.push(f(self.data[i][j]));
                j = j + 1;
            }
            data.push(line);
            i = i + 1;
        }
        Matrix { data, rows: self.rows, cols: self.cols }
    }

    /// The matrix of the same shape whose entries are `f` of this one's and
    /// `other`'s, entry by entry. Fails where the shapes differ.
    pub fn zip_with<F: Fn(T, T) -> T>(&self, other: &Matrix<T>, f: F) -> (r: Result<
        Matrix<T>,
        ShapeError,
    >)
        requires
            self.wf(),
            other.wf(),
            forall|x: T, y: T| f.requires((x, y)),
        ensures
            self.shape_spec() != other.shape_spec() <==> r is Err,
            r is Err ==> r == Err::<Matrix<T>, ShapeError>(
                ShapeError::Mismatch { expected: self.shape_spec(), actual: other.shape_spec() },
            ),
            r matches Ok(m) ==> {
                &&& m.wf()
                &&& m.rows == self.rows
                &&& m.cols == self.cols
                &&& zipped(self@, other@, f, m@)
            },
    {
        if self.rows != other.rows || self.cols != other.cols {
            return Err(ShapeError::Mismatch { expected: self.shape(), actual: other.shape() });
        }
        let mut data: Vec<Vec<T>> = Vec::new();
        let mut i: usize = 0;
        while i < self.rows
            invariant
                self.wf(),
                other.wf(),
                self.shape_spec() == other.shape_spec(),
                forall|x: T, y: T| f.requires((x, y)),
                i <= self.rows,
                data@.len() == i,
                forall|k: int| 0 <= k < i ==> (#[trigger] data@[k]@).len() == self.cols,
                forall|k: int, j: int|
                    0 <= k < i && 0 <= j < self.cols ==> call_ensures(
                        f,
                        (self@[k][j], other@[k][j]),
                        #[trigger] data@[k]@[j],
                    ),
            decreases self.rows - i,
        {
            let mut line: Vec<T> = Vec::new();
            let mut j: usize = 0;
            while j < self.cols
                invariant
                    self.wf(),
                    other.wf(),
                    self.shape_spec() == other.shape_spec(),
                    forall|x: T, y: T| f.requires((x, y)),
                    i < self.rows,
                    j <= self.cols,
                    line@.len() == j,
                    forall|l: int|
                        0 <= l < j ==> call_ensures(
                            f,
                            (self@[i as int][l], other@[i as int][l]),
                            #[trigger] line@[l],
                        ),
                decreases self.cols - j,
            {
                line.push(f(self.data[i][j], other.data[i][j]));
                j = j + 1;
            }
            data.push(line);
            i = i + 1;
        }
        Ok(Matrix { data, rows: self.rows, cols: self.cols })
    }

    /// The matrix product of this matrix and `other`: `rows` by `other.cols`,
    /// its entry in row `i`, column `j`, being the sum over `k` of
    /// `self[i][k] * other[k][j]`, added up from `zero` in order of `k`.
    /// Fails where `other` does not have `cols` rows.
    pub fn product<X: Fn(T, T) -> T, P: Fn(T, T) -> T>(
        &self,
        other: &Matrix<T>,
        times: X,
        plus: P,
        zero: T,
    ) -> (r: Result<Matrix<T>, ShapeError>)
        requires
            self.wf(),
            other.wf(),
            forall|x: T, y: T| times.requires((x, y)),
            forall|x: T, y: T| plus.requires((x, y)),
        ensures
            self.cols != other.rows <==> r is Err,
            r is Err ==> r == Err::<Matrix<T>, ShapeError>(
                ShapeError::Mismatch {
                    expected: Shape { rows: self.cols, cols: other.cols },
                    actual: other.shape_spec(),
                },
            ),
            r matches Ok(m) ==> {
                &&& m.wf()
                &&& m.rows == self.rows
                &&& m.cols == other.cols
                &&& multiplied(self@, other@, times, plus, zero, m@)
            },
    {
        if self.cols != other.rows {
            return Err(
                ShapeError::Mismatch {
                    expected: Shape { rows: self.cols, cols: other.cols },
                    actual: other.shape(),
                },
            );
        }
        let mut data: Vec<Vec<T>> = Vec::new();
        let mut i: usize = 0;
        while i < self.rows
            invariant
                self.wf(),
                other.wf(),
                self.cols == other.rows,
                forall|x: T, y: T| times.requires((x, y)),
                forall|x: T, y: T| plus.requires((x, y)),
                i <= self.rows,
                data@.len() == i,
                forall|k: int| 0 <= k < i ==> (#[trigger] data@[k]@).len() == other.cols,
                forall|k: int, j: int|
                    0 <= k < i && 0 <= j < other.cols ==> sums_products(
                        times,
                        plus,
                        zero,
                        self@[k],
                        column(other@, j),
                        #[trigger] data@[k]@[j],
                    ),
            decreases self.rows - i,
        {
            let mut line: Vec<T> = Vec::new();
            let mut j: usize = 0;
            while j < other.cols
                invariant
                    self.wf(),
                    other.wf(),
                    self.cols == other.rows,
                    forall|x: T, y: T| times.requires((x, y)),
                    forall|x: T, y: T| plus.requires((x, y)),
                    i < self.rows,
                    j <= other.cols,
                    line@.len() == j,
                    forall|l: int|
                        0 <= l < j ==> sums_products(
                            times,
                            plus,
                            zero,
                            self@[i as int],
                            column(other@, l),
                            #[trigger] line@[l],
                        ),
                decreases other.cols - j,
            {
                let mut acc = zero;
                let mut k: usize = 0;
                while k < self.cols
                    invariant
                        self.wf(),
                        other.wf(),
                        self.cols == other.rows,
                        forall|x: T, y: T| times.requires((x, y)),
                        forall|x: T, y: T| plus.requires((x, y)),
                        i < self.rows,
                        j < other.cols,
                        k <= self.cols,
                        sums_products(
                            times,
                            plus,
                            zero,
                            self@[i as int].take(k as int),
                            column(other@, j as int).take(k as int),
                            acc,
                        ),
                    decreases self.cols - k,
                {
                    let x = self.data[i][k];
                    let y = other.data[k][j];
                    let p = times(x, y);
                    let next = plus(acc, p);
                    proof {
                        lemma_sums_products_push(
                            times,
                            plus,
                            zero,
                            self@[i as int].take(k as int),
                            column(other@, j as int).take(k as int),
                            acc,
                            x,
                            y,
                            p,
                            next,
                        );
                        assert(self@[i as int].take(k as int).push(x) =~= self@[i as int].take(
                            k + 1,
                        ));
                        assert(column(other@, j as int).take(k as int).push(y) =~= column(
                            other@,
                            j as int,
                        ).take(k + 1));
                    }
                    acc = next;
                    k = k + 1;
                }
                proof {
                    assert(self@[i as int].take(k as int) =~= self@[i as int]);
                    assert(column(other@, j as int).take(k as int) =~= column(other@, j as int));
                }
                line.push(acc);
                j = j + 1;
            }
            data.push(line);
            i = i + 1;
        }
        Ok(Matrix { data, rows: self.rows, cols: other.cols })
    }

    /// The sum of the products of this matrix's entries and `other`'s, entry
    /// by entry, added up from `zero` in row-major order. Fails where the
    /// shapes differ.
    pub fn dot<X: Fn(T, T) -> T, P: Fn(T, T) -> T>(
        &self,
        other: &Matrix<T>,
        times: X,
        plus: P,
        zero: T,
    ) -> (r: Result<T, ShapeError>)
        requires
            self.wf(),
            other.wf(),
            forall|x: T, y: T| times.requires((x, y)),
            forall|x: T, y: T| plus.requires((x, y)),
        ensures
            self.shape_spec() != other.shape_spec() <==> r is Err,
            r is Err ==> r == Err::<T, ShapeError>(
                ShapeError::Mismatch { expected: self.shape_spec(), actual: other.shape_spec() },
            ),
            r matches Ok(v) ==> sums_products(
                times,
                plus,
                zero,
                self@.flatten(),
                other@.flatten(),
                v,
            ),
    {
        if self.rows != other.rows || self.cols != other.cols {
            return Err(ShapeError::Mismatch { expected: self.shape(), actual: other.shape() });
        }
        let mut acc = zero;
        let mut i: usize = 0;
        while i < self.rows
            invariant
                self.wf(),
                other.wf(),
                self.shape_spec() == other.shape_spec(),
                forall|x: T, y: T| times.requires((x, y)),
                forall|x: T, y: T| plus.requires((x, y)),
                i <= self.rows,
                sums_products(
                    times,
                    plus,
                    zero,
                    self@.take(i as int).flatten(),
                    other@.take(i as int).flatten(),
                    acc,
                ),
            decreases self.rows - i,
        {
            let mut j: usize = 0;
            while j < self.cols
                invariant
                    self.wf(),
                    other.wf(),
                    self.shape_spec() == other.shape_spec(),
                    forall|x: T, y: T| times.requires((x, y)),
                    forall|x: T, y: T| plus.requires((x, y)),
                    i < self.rows,
                    j <= self.cols,
                    sums_products(
                        times,
                        plus,
                        zero,
                        self@.take(i as int).flatten() + self@[i as int].take(j as int),
                        other@.take(i as int).flatten() + other@[i as int].take(j as int),
                        acc,
                    ),
                decreases self.cols - j,
            {
                let x = self.data[i][j];
                let y = other.data[i][j];
                let p = times(x, y);
                let next = plus(acc, p);
                proof {
                    let xs = self@.take(i as int).flatten() + self@[i as int].take(j as int);
                    let ys = other@.take(i as int).flatten() + other@[i as int].take(j as int);
                    lemma_sums_products_push(times, plus, zero, xs, ys, acc, x, y, p, next);
                    assert(xs.push(x) =~= self@.take(i as int).flatten() + self@[i as int].take(
                        j + 1,
                    ));
                    assert(ys.push(y) =~= other@.take(i as int).flatten() + other@[i as int].take(
                        j + 1,
                    ));
                }
                acc = next;
                j = j + 1;
            }
            proof {
                self@.take(i as int).lemma_flatten_push(self@[i as int]);
                other@.take(i as int).lemma_flatten_push(other@[i as int]);
                assert(self@.take(i as int).push(self@[i as int]) =~= self@.take(i + 1));
                assert(other@.take(i as int).push(other@[i as int]) =~= other@.take(i + 1));
                assert(self@[i as int].take(j as int) =~= self@[i as int]);
                assert(other@[i as int].take(j as int) =~= other@[i as int]);
            }
            i = i + 1;
        }
        proof {
            assert(self@.take(i as int) =~= self@);
            assert(other@.take(i as int) =~= other@);
        }
        Ok(acc)
    }

    /// The sum of the products of this matrix's entries and `c`, added up
    /// from `zero` in row-major order: a weighted sum of the entries, with
    /// `c` as the weight of each.
    pub fn dot_const<X: Fn(T, T) -> T, P: Fn(T, T) -> T>(
        &self,
        c: T,
        times: X,
        plus: P,
        zero: T,
    ) -> (r: T)
        requires
            self.wf(),
            forall|x: T, y: T| times.requires((x, y)),
            forall|x: T, y: T| plus.requires((x, y)),
        ensures
            sums_products(
                times,
                plus,
                zero,
                self@.flatten(),
                Seq::new(self@.flatten().len(), |k: int| c),
                r,
            ),
    {
        let mut acc = zero;
        let mut i: usize = 0;
        while i < self.rows
            invariant
                self.wf(),
                forall|x: T, y: T| times.requires((x, y)),
                forall|x: T, y: T| plus.requires((x, y)),
                i <= self.rows,
                sums_products(
                    times,
                    plus,
                    zero,
                    self@.take(i as int).flatten(),
                    Seq::new(self@.take(i as int).flatten().len(), |k: int| c),
                    acc,
                ),
            decreases self.rows - i,
        {
            let mut j: usize = 0;
            while j < self.cols
                invariant
                    self.wf(),
                    forall|x: T, y: T| times.requires((x, y)),
                    forall|x: T, y: T| plus.requires((x, y)),
                    i < self.rows,
                    j <= self.cols,
                    sums_products(
                        times,
                        plus,
                        zero,
                        self@.take(i as int).flatten() + self@[i as int].take(j as int),
                        Seq::new(
                            (self@.take(i as int).flatten().len() + j) as nat,
                            |k: int| c,
                        ),
                        acc,
                    ),
                decreases self.cols - j,
            {
                let x = self.data[i][j];
                let p = times(x, c);
                let next = plus(acc, p);
                proof {
                    let xs = self@.take(i as int).flatten() + self@[i as int].take(j as int);
                    let n = (self@.take(i as int).flatten().len() + j) as nat;
                    let ys = Seq::new(n, |k: int| c);
                    lemma_sums_products_push(times, plus, zero, xs, ys, acc, x, c, p, next);
                    assert(xs.push(x) =~= self@.take(i as int).flatten() + self@[i as int].take(
                        j + 1,
                    ));
                    assert(ys.push(c) =~= Seq::new((n + 1) as nat, |k: int| c));
                }
                acc = next;
                j = j + 1;
            }
            proof {
                self@.take(i as int).lemma_flatten_push(self@[i as int]);
                assert(self@.take(i as int).push(self@[i as int]) =~= self@.take(i + 1));
                assert(self@[i as int].take(j as int) =~= self@[i as int]);
            }
            i = i + 1;
        }
        proof {
            assert(self@.take(i as int) =~= self@);
        }
        acc
    }
}

/// Transposing a matrix twice gives back the matrix.
pub proof fn lemma_transpose_twice<T: Copy>(a: Matrix<T>)
    requires
        a.wf(),
    ensures
        transpose_of(transpose_of(a@)) == a@,
{
    let t = transpose_of(a@);
    assert(a@[0].len() == a.cols);
    assert(t[0].len() == a.rows);
    assert(transpose_of(t) =~= a@) by {
        assert forall|i: int| 0 <= i < a.rows implies transpose_of(t)[i] =~= a@[i] by {}
    }
}

/// Adding `b` to `a` entry by entry, then subtracting `b` from the sum, gives
/// back `a`, where subtracting undoes adding on single entries.
pub proof fn lemma_add_then_sub<T: Copy, A: Fn(T, T) -> T, S: Fn(T, T) -> T>(
    a: Matrix<T>,
    b: Matrix<T>,
    plus: A,
    minus: S,
    sum: Seq<Seq<T>>,
    diff: Seq<Seq<T>>,
)
    requires
        a.wf(),
        b.wf(),
        a.shape_spec() == b.shape_spec(),
        forall|x: T, y: T, s: T, d: T|
            call_ensures(plus, (x, y), s) && call_ensures(minus, (s, y), d) ==> d == x,
        zipped(a@, b@, plus, sum),
        zipped(sum, b@, minus, diff),
    ensures
        diff == a@,
{
    assert(diff =~= a@) by {
        assert forall|i: int| 0 <= i < a.rows implies diff[i] =~= a@[i] by {
            assert forall|j: int| 0 <= j < a.cols implies diff[i][j] == a@[i][j] by {
                assert(call_ensures(plus, (a@[i][j], b@[i][j]), sum[i][j]));
                assert(call_ensures(minus, (sum[i][j], b@[i][j]), diff[i][j]));
            }
        }
    }
}

} // verus!
