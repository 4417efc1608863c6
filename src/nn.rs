use vstd::prelude::*;

use crate::classify::{active_index, arg_max, scans_to_active, scans_to_max};
use crate::layer::{layer_gives, Layer};
use crate::matrix::{column, multiplied, transpose_of, zipped, Matrix};
use crate::shape::{Shape, ShapeError};

verus! {

/// `y` is an output that passing `x` through `layers`, first to last, can
/// give.
pub open spec fn passes<T, X: Fn(T, T) -> T, P: Fn(T, T) -> T, F: Fn(T) -> T>(
    layers: Seq<Layer<T>>,
    x: Seq<Seq<T>>,
    times: X,
    plus: P,
    zero: T,
    activate: F,
    y: Seq<Seq<T>>,
) -> bool
    decreases layers.len(),
{
    if layers.len() == 0 {
        y == x
    } else {
        exists|h: Seq<Seq<T>>|
            #![trigger layer_gives(layers.last().weights@, h, times, plus, zero, activate, y)]
            passes(layers.drop_last(), x, times, plus, zero, activate, h) && layer_gives(
                layers.last().weights@,
                h,
                times,
                plus,
                zero,
                activate,
                y,
            )
    }
}

/// The views of a sequence of matrices.
pub open spec fn views<T>(ms: Seq<Matrix<T>>) -> Seq<Seq<Seq<T>>> {
    ms.map_values(|m: Matrix<T>| m@)
}

/// The input of layer `k` in a pass of `x` whose layer outputs are `outs`:
/// `x` itself for the first layer, else the output of the layer before.
pub open spec fn input_of<T>(x: Seq<Seq<T>>, outs: Seq<Seq<Seq<T>>>, k: int) -> Seq<Seq<T>> {
    if k == 0 {
        x
    } else {
        outs[k - 1]
    }
}

/// A table of `rows` rows of `cols` entries, each of them `value`.
pub open spec fn constant_table<T>(rows: nat, cols: nat, value: T) -> Seq<Seq<T>> {
    Seq::new(rows, |i: int| Seq::new(cols, |j: int| value))
}

/// `r` is `g` with each entry multiplied by `lr`.
pub open spec fn scaled<T, X: Fn(T, T) -> T>(g: Seq<Seq<T>>, times: X, lr: T, r: Seq<Seq<T>>) -> bool {
    &&& r.len() == g.len()
    &&& forall|i: int| 0 <= i < g.len() ==> (#[trigger] r[i]).len() == g[i].len()
    &&& forall|i: int, j: int|
        0 <= i < g.len() && 0 <= j < g[i].len() ==> call_ensures(times, (g[i][j], lr), #[trigger] r[i][j])
}

/// `outs` and `errs` are the layer outputs and the layer errors of a pass of
/// `x` through `layers` with expected output `y`: each layer's output is what
/// it gives on its input; the last layer's error is `y` minus its output;
/// each earlier layer's error is the transpose of the next layer's weights
/// times the next layer's error.
pub open spec fn backpropagates<
    T,
    X: Fn(T, T) -> T,
    P: Fn(T, T) -> T,
    M: Fn(T, T) -> T,
    F: Fn(T) -> T,
>(
    layers: Seq<Layer<T>>,
    x: Seq<Seq<T>>,
    y: Seq<Seq<T>>,
    times: X,
    plus: P,
    minus: M,
    zero: T,
    activate: F,
    outs: Seq<Seq<Seq<T>>>,
    errs: Seq<Seq<Seq<T>>>,
) -> bool {
    let n = layers.len();
    &&& outs.len() == n
    &&& errs.len() == n
    &&& forall|k: int|
        0 <= k < n ==> layer_gives(
            layers[k].weights@,
            input_of(x, outs, k),
            times,
            plus,
            zero,
            activate,
            #[trigger] outs[k],
        )
    &&& n > 0 ==> zipped(y, outs[n - 1], minus, errs[n - 1])
    &&& forall|k: int|
        0 <= k < n - 1 ==> multiplied(
            transpose_of(layers[k + 1].weights@),
            errs[k + 1],
            times,
            plus,
            zero,
            #[trigger] errs[k],
        )
}

/// `w2` is what a training step makes of the weights `w` of a layer that
/// gave `o` on `x` and whose error is `e`: `w` plus `lr` times the product
/// of `(1 - o) * (e * o)`, taken entry by entry, and the transpose of `x`.
pub open spec fn updates_to<T, X: Fn(T, T) -> T, P: Fn(T, T) -> T, M: Fn(T, T) -> T>(
    w: Seq<Seq<T>>,
    x: Seq<Seq<T>>,
    o: Seq<Seq<T>>,
    e: Seq<Seq<T>>,
    times: X,
    plus: P,
    minus: M,
    zero: T,
    one: T,
    lr: T,
    w2: Seq<Seq<T>>,
) -> bool {
    exists|g: Seq<Seq<T>>, s: Seq<Seq<T>>, h: Seq<Seq<T>>, d: Seq<Seq<T>>, u: Seq<Seq<T>>|
        #![trigger zipped(e, o, times, g), zipped(constant_table(o.len(), o[0].len(), one), o, minus, s), zipped(s, g, times, h), multiplied(h, transpose_of(x), times, plus, zero, d), zipped(w, u, plus, w2)]
        zipped(e, o, times, g) && zipped(constant_table(o.len(), o[0].len(), one), o, minus, s)
            && zipped(s, g, times, h) && multiplied(h, transpose_of(x), times, plus, zero, d)
            && scaled(d, times, lr, u) && zipped(w, u, plus, w2)
}

/// The shapes of the weight matrices, first layer first.
pub open spec fn shapes_of<T: Copy>(layers: Seq<Layer<T>>) -> Seq<Shape> {
    Seq::new(layers.len(), |i: int| layers[i].weights.shape_spec())
}

/// The weight shapes of a network of widths `topology`: layer `i` maps
/// `topology[i]` entries to `topology[i + 1]`.
pub open spec fn topology_shapes(topology: Seq<usize>) -> Seq<Shape> {
    if topology.len() == 0 {
        Seq::empty()
    } else {
        Seq::new(
            (topology.len() - 1) as nat,
            |i: int| Shape { rows: topology[i + 1], cols: topology[i] },
        )
    }
}

/// The shapes of the weight matrices of a network whose layer widths are
/// `topology`, `[n0, n1, ..., nk]`: `k` matrices, the one of layer `i`
/// being `n(i+1)` rows by `ni` columns.
pub fn layer_shapes(topology: &Vec<usize>) -> (r: Vec<Shape>)
    ensures
        r@ == topology_shapes(topology@),
{
    let mut r: Vec<Shape> = Vec::new();
    let mut i: usize = 1;
    while i < topology.len()
        invariant
            1 <= i,
            i <= topology.len() || i == 1,
            r@ =~= topology_shapes(topology@).take(i - 1),
        decreases topology.len() - i,
    {
        r.push(Shape { rows: topology[i], cols: topology[i - 1] });
        i = i + 1;
    }
    assert(r@ =~= topology_shapes(topology@));
    r
}

/// A feedforward network: layers applied in order, each one's output being
/// the next one's input, and the learning rate that scales each update.
#[derive(Debug)]
pub struct NeuralNetwork<T> {
    pub lr: T,
    pub layers: Vec<Layer<T>>,
}

impl<T: Copy> NeuralNetwork<T> {
    /// Each layer is well formed, and each one's output size is the next
    /// one's input size.
    pub open spec fn wf(&self) -> bool {
        chained(self.layers@)
    }

    /// Whether the network takes an input with `rows` rows.
    pub open spec fn accepts(&self, rows: usize) -> bool {
        self.layers@.len() == 0 || rows == self.layers@[0].input_size_spec()
    }

    /// The number of rows of the output on an input of `rows` rows.
    pub open spec fn output_rows(&self, rows: usize) -> usize {
        if self.layers@.len() == 0 {
            rows
        } else {
            self.layers@.last().output_size_spec()
        }
    }

    /// The network of `layers`, in order, with learning rate `lr`. Fails where
    /// a layer's output size is not the next one's input size; the error
    /// names the first such layer after the first.
    pub fn new(layers: Vec<Layer<T>>, lr: T) -> (r: Result<NeuralNetwork<T>, ShapeError>)
        requires
            forall|i: int| 0 <= i < layers@.len() ==> #[trigger] layers@[i].wf(),
        ensures
            chained(layers@) <==> r is Ok,
            r matches Ok(n) ==> n.layers@ == layers@ && n.lr == lr,
            r is Err ==> exists|i: int|
                0 < i < layers@.len() && #[trigger] layers@[i].input_size_spec()
                    != layers@[i - 1].output_size_spec() && r == Err::<
                    NeuralNetwork<T>,
                    ShapeError,
                >(
                    ShapeError::Mismatch {
                        expected: Shape {
                            rows: layers@[i].output_size_spec(),
                            cols: layers@[i - 1].output_size_spec(),
                        },
                        actual: layers@[i].weights.shape_spec(),
                    },
                ) && forall|k: int|
                    0 < k < i ==> #[trigger] layers@[k].input_size_spec()
                        == layers@[k - 1].output_size_spec(),
    {
        let mut i: usize = 1;
        while i < layers.len()
            invariant
                forall|k: int| 0 <= k < layers@.len() ==> #[trigger] layers@[k].wf(),
                1 <= i,
                i <= layers@.len() || i == 1,
                forall|k: int|
                    0 < k < i && k < layers@.len() ==> #[trigger] layers@[k].input_size_spec()
                        == layers@[k - 1].output_size_spec(),
            decreases layers.len() - i,
        {
            if layers[i].input_size() != layers[i - 1].output_size() {
                let e = ShapeError::Mismatch {
                    expected: Shape {
                        rows: layers[i].output_size(),
                        cols: layers[i - 1].output_size(),
                    },
                    actual: layers[i].weights.shape(),
                };
                assert(!chained(layers@)) by {
                    assert(layers@[i - 1].output_size_spec() != layers@[i as int].input_size_spec());
                }
                return Err(e);
            }
            i = i + 1;
        }
        assert(chained(layers@)) by {
            assert forall|k: int| 0 <= k < layers@.len() - 1 implies #[trigger] layers@[k].output_size_spec()
                == layers@[k + 1].input_size_spec() by {
                assert(layers@[k + 1].input_size_spec() == layers@[(k + 1) - 1].output_size_spec());
            }
        }
        Ok(NeuralNetwork { lr, layers })
    }

    /// The output on `input`: `input` passed through each layer in turn.
    /// Fails where the first layer does not take `input`'s number of rows.
    pub fn inference<X: Fn(T, T) -> T + Copy, P: Fn(T, T) -> T + Copy, F: Fn(T) -> T + Copy>(
        &self,
        input: Matrix<T>,
        times: X,
        plus: P,
        zero: T,
        activate: F,
    ) -> (r: Result<Matrix<T>, ShapeError>)
        requires
            self.wf(),
            input.wf(),
            forall|x: T, y: T| times.requires((x, y)),
            forall|x: T, y: T| plus.requires((x, y)),
            forall|x: T| activate.requires((x,)),
        ensures
            self.accepts(input.rows) <==> r is Ok,
            r is Err ==> r == Err::<Matrix<T>, ShapeError>(
                ShapeError::Mismatch {
                    expected: Shape { rows: self.layers@[0].input_size_spec(), cols: input.cols },
                    actual: input.shape_spec(),
                },
            ),
            r matches Ok(m) ==> {
                &&& m.wf()
                &&& m.rows == self.output_rows(input.rows)
                &&& m.cols == input.cols
                &&& passes(self.layers@, input@, times, plus, zero, activate, m@)
            },
    {
        if self.layers.len() > 0 && input.rows != self.layers[0].input_size() {
            return Err(
                ShapeError::Mismatch {
                    expected: Shape { rows: self.layers[0].input_size(), cols: input.cols },
                    actual: input.shape(),
                },
            );
        }
        let ghost x = input@;
        let mut res = input;
        let mut i: usize = 0;
        while i < self.layers.len()
            invariant
                self.wf(),
                forall|x: T, y: T| times.requires((x, y)),
                forall|x: T, y: T| plus.requires((x, y)),
                forall|x: T| activate.requires((x,)),
                i <= self.layers@.len(),
                res.wf(),
                res.cols == input.cols,
                i < self.layers@.len() ==> res.rows == self.layers@[i as int].input_size_spec(),
                i == self.layers@.len() ==> res.rows == self.output_rows(input.rows),
                passes(self.layers@.take(i as int), x, times, plus, zero, activate, res@),
            decreases self.layers@.len() - i,
        {
            let next = match self.layers[i].call(&res, times, plus, zero, activate) {
                Ok(m) => m,
                Err(e) => return Err(e),
            };
            proof {
                let ls = self.layers@.take(i + 1);
                assert(ls.drop_last() =~= self.layers@.take(i as int));
                assert(ls.last() == self.layers@[i as int]);
                assert(layer_gives(ls.last().weights@, res@, times, plus, zero, activate, next@));
                if i + 1 < self.layers@.len() {
                    assert(self.layers@[i as int].output_size_spec()
                        == self.layers@[i + 1].input_size_spec());
                }
            }
            res = next;
            i = i + 1;
        }
        assert(self.layers@.take(i as int) =~= self.layers@);
        Ok(res)
    }

    /// One step of training on the example `input` with the expected output
    /// `label`. The input is passed forward through every layer, keeping each
    /// layer's output. The error of the last layer is `label` minus its
    /// output; the error of each earlier layer is the transpose of the next
    /// layer's weights times the next layer's error. Only then, from the last
    /// layer back, each weight matrix has added to it
    /// `lr * (((1 - output) * (error * output)) x previous_output^T)`, the
    /// inner two products taken entry by entry. Returns the last layer's
    /// output, transposed. Fails, changing nothing, where `input` has a
    /// number of rows that the first layer does not take, or `label` is not
    /// of the output's shape.
    #[verifier::rlimit(60)]
    pub fn train<
        X: Fn(T, T) -> T + Copy,
        P: Fn(T, T) -> T + Copy,
        M: Fn(T, T) -> T + Copy,
        F: Fn(T) -> T + Copy,
    >(
        &mut self,
        input: &Matrix<T>,
        label: &Matrix<T>,
        times: X,
        plus: P,
        minus: M,
        zero: T,
        one: T,
        activate: F,
    ) -> (r: Result<Matrix<T>, ShapeError>)
        requires
            old(self).wf(),
            input.wf(),
            label.wf(),
            forall|x: T, y: T| times.requires((x, y)),
            forall|x: T, y: T| plus.requires((x, y)),
            forall|x: T, y: T| minus.requires((x, y)),
            forall|x: T| activate.requires((x,)),
        ensures
            old(self).accepts(input.rows) && label.rows == old(self).output_rows(input.rows)
                && label.cols == input.cols <==> r is Ok,
            !old(self).accepts(input.rows) ==> r == Err::<Matrix<T>, ShapeError>(
                ShapeError::Mismatch {
                    expected: Shape {
                        rows: old(self).layers@[0].input_size_spec(),
                        cols: input.cols,
                    },
                    actual: input.shape_spec(),
                },
            ),
            old(self).accepts(input.rows) && r is Err ==> r == Err::<Matrix<T>, ShapeError>(
                ShapeError::Mismatch {
                    expected: Shape { rows: old(self).output_rows(input.rows), cols: input.cols },
                    actual: label.shape_spec(),
                },
            ),
            r is Err ==> *final(self) == *old(self),
            final(self).wf(),
            final(self).lr == old(self).lr,
            shapes_of(final(self).layers@) == shapes_of(old(self).layers@),
            r matches Ok(m) ==> {
                &&& m.wf()
                &&& m.rows == input.cols
                &&& m.cols == label.rows
                &&& exists|o: Seq<Seq<T>>|
                    #[trigger] passes(old(self).layers@, input@, times, plus, zero, activate, o)
                        && m@ == transpose_of(o)
            },
            r is Ok ==> exists|outs: Seq<Seq<Seq<T>>>, errs: Seq<Seq<Seq<T>>>|
                #[trigger] backpropagates(
                    old(self).layers@,
                    input@,
                    label@,
                    times,
                    plus,
                    minus,
                    zero,
                    activate,
                    outs,
                    errs,
                ) && forall|k: int|
                    0 <= k < old(self).layers@.len() ==> updates_to(
                        old(self).layers@[k].weights@,
                        input_of(input@, outs, k),
                        outs[k],
                        errs[k],
                        times,
                        plus,
                        minus,
                        zero,
                        one,
                        old(self).lr,
                        #[trigger] final(self).layers@[k].weights@,
                    ),
    {
        let n = self.layers.len();
        if n > 0 && input.rows != self.layers[0].input_size() {
            return Err(
                ShapeError::Mismatch {
                    expected: Shape { rows: self.layers[0].input_size(), cols: input.cols },
                    actual: input.shape(),
                },
            );
        }
        let out_rows = if n == 0 {
            input.rows
        } else {
            self.layers[n - 1].output_size()
        };
        if label.rows != out_rows || label.cols != input.cols {
            return Err(
                ShapeError::Mismatch {
                    expected: Shape { rows: out_rows, cols: input.cols },
                    actual: label.shape(),
                },
            );
        }
        if n == 0 {
            assert(passes(self.layers@, input@, times, plus, zero, activate, input@));
            assert(backpropagates(
                self.layers@,
                input@,
                label@,
                times,
                plus,
                minus,
                zero,
                activate,
                Seq::empty(),
                Seq::empty(),
            ));
            return Ok(input.transpose());
        }
        // The forward pass: outputs[k] is the output of layer k.

        let mut outputs: Vec<Matrix<T>> = Vec::new();
        let mut i: usize = 0;
        while i < n
            invariant
                *self == *old(self),
                self.wf(),
                n == self.layers@.len(),
                n > 0,
                input.wf(),
                input.rows == self.layers@[0].input_size_spec(),
                forall|x: T, y: T| times.requires((x, y)),
                forall|x: T, y: T| plus.requires((x, y)),
                forall|x: T| activate.requires((x,)),
                i <= n,
                outputs@.len() == i,
                forall|k: int|
                    0 <= k < i ==> (#[trigger] outputs@[k]).wf() && outputs@[k].rows
                        == self.layers@[k].output_size_spec() && outputs@[k].cols == input.cols,
                i > 0 ==> passes(
                    self.layers@.take(i as int),
                    input@,
                    times,
                    plus,
                    zero,
                    activate,
                    outputs@[i - 1]@,
                ),
                forall|k: int|
                    0 <= k < i ==> layer_gives(
                        self.layers@[k].weights@,
                        input_of(input@, views(outputs@), k),
                        times,
                        plus,
                        zero,
                        activate,
                        #[trigger] views(outputs@)[k],
                    ),
            decreases n - i,
        {
            let called = if i == 0 {
                self.layers[0].call(input, times, plus, zero, activate)
            } else {
                assert(self.layers@[i - 1].output_size_spec() == self.layers@[i as int].input_size_spec());
                self.layers[i].call(&outputs[i - 1], times, plus, zero, activate)
            };
            let next = match called {
                Ok(m) => m,
                Err(e) => return Err(e),
            };
            proof {
                let ls = self.layers@.take(i + 1);
                assert(ls.drop_last() =~= self.layers@.take(i as int));
                assert(ls.last() == self.layers@[i as int]);
                if i == 0 {
                    assert(passes(ls.drop_last(), input@, times, plus, zero, activate, input@));
                }
                assert(passes(ls, input@, times, plus, zero, activate, next@));
            }
            let ghost before = outputs@;
            outputs.push(next);
            proof {
                assert forall|k: int| 0 <= k < i + 1 implies layer_gives(
                    self.layers@[k].weights@,
                    input_of(input@, views(outputs@), k),
                    times,
                    plus,
                    zero,
                    activate,
                    #[trigger] views(outputs@)[k],
                ) by {
                    assert(views(outputs@)[k] == outputs@[k]@);
                    if k > 0 {
                        assert(views(outputs@)[k - 1] == outputs@[k - 1]@);
                    }
                    if k < i {
                        assert(outputs@[k] == before[k]);
                        assert(views(before)[k] == before[k]@);
                        if k > 0 {
                            assert(outputs@[k - 1] == before[k - 1]);
                            assert(views(before)[k - 1] == before[k - 1]@);
                        }
                    }
                }
            }
            i = i + 1;
        }
        let ghost outs = views(outputs@);
        assert(self.layers@.take(n as int) =~= self.layers@);
        // The errors, last layer first: errs[t] is the error of layer n - 1 - t.

        let mut errs: Vec<Matrix<T>> = Vec::new();
        let last = match label.zip_with(&outputs[n - 1], minus) {
            Ok(m) => m,
            Err(e) => return Err(e),
        };
        errs.push(last);
        let mut t: usize = 1;
        while t < n
            invariant
                *self == *old(self),
                self.wf(),
                n == self.layers@.len(),
                forall|x: T, y: T| times.requires((x, y)),
                forall|x: T, y: T| plus.requires((x, y)),
                1 <= t <= n,
                errs@.len() == t,
                forall|s: int|
                    0 <= s < t ==> (#[trigger] errs@[s]).wf() && errs@[s].rows
                        == self.layers@[n - 1 - s].output_size_spec() && errs@[s].cols
                        == input.cols,
                zipped(label@, outputs@[n - 1]@, minus, errs@[0]@),
                forall|s: int|
                    0 < s < t ==> multiplied(
                        transpose_of(self.layers@[n - s].weights@),
                        errs@[s - 1]@,
                        times,
                        plus,
                        zero,
                        #[trigger] errs@[s]@,
                    ),
            decreases n - t,
        {
            let k = n - t;
            assert(self.layers@[k - 1].output_size_spec() == self.layers@[k as int].input_size_spec());
            assert(self.layers@[k as int].wf());
            let back = self.layers[k].weights.transpose();
            let e = match back.product(&errs[t - 1], times, plus, zero) {
                Ok(m) => m,
                Err(e) => return Err(e),
            };
            errs.push(e);
            t = t + 1;
        }
        let ghost errg = Seq::new(n as nat, |k: int| errs@[n - 1 - k]@);
        proof {
            assert(outs == views(outputs@));
            assert forall|k: int| 0 <= k < n - 1 implies multiplied(
                transpose_of(self.layers@[k + 1].weights@),
                errg[k + 1],
                times,
                plus,
                zero,
                #[trigger] errg[k],
            ) by {
                let s = n - 1 - k;
                assert(errs@[s]@ == errg[k]);
                assert(errs@[s - 1]@ == errg[k + 1]);
            }
            assert(backpropagates(
                self.layers@,
                input@,
                label@,
                times,
                plus,
                minus,
                zero,
                activate,
                outs,
                errg,
            ));
        }
        // The updates, last layer first.

        let lr = self.lr;
        let mut t: usize = 0;
        while t < n
            invariant
                self.lr == old(self).lr,
                lr == old(self).lr,
                chained(old(self).layers@),
                n == old(self).layers@.len(),
                n == self.layers@.len(),
                shapes_of(self.layers@) == shapes_of(old(self).layers@),
                forall|j: int| 0 <= j < n ==> #[trigger] self.layers@[j].wf(),
                input.wf(),
                input.rows == old(self).layers@[0].input_size_spec(),
                forall|x: T, y: T| times.requires((x, y)),
                forall|x: T, y: T| plus.requires((x, y)),
                forall|x: T, y: T| minus.requires((x, y)),
                t <= n,
                outputs@.len() == n,
                forall|k: int|
                    0 <= k < n ==> (#[trigger] outputs@[k]).wf() && outputs@[k].rows
                        == old(self).layers@[k].output_size_spec() && outputs@[k].cols
                        == input.cols,
                errs@.len() == n,
                forall|s: int|
                    0 <= s < n ==> (#[trigger] errs@[s]).wf() && errs@[s].rows
                        == old(self).layers@[n - 1 - s].output_size_spec() && errs@[s].cols
                        == input.cols,
                backpropagates(
                    old(self).layers@,
                    input@,
                    label@,
                    times,
                    plus,
                    minus,
                    zero,
                    activate,
                    outs,
                    errg,
                ),
                outs == views(outputs@),
                errg == Seq::new(n as nat, |k: int| errs@[n - 1 - k]@),
                forall|k: int| 0 <= k < n - t ==> #[trigger] self.layers@[k] == old(self).layers@[k],
                forall|k: int|
                    n - t <= k < n ==> updates_to(
                        old(self).layers@[k].weights@,
                        input_of(input@, outs, k),
                        outs[k],
                        errg[k],
                        times,
                        plus,
                        minus,
                        zero,
                        one,
                        lr,
                        #[trigger] self.layers@[k].weights@,
                    ),
            decreases n - t,
        {
            let k = n - 1 - t;
            let out = &outputs[k];
            assert(self.layers@[k as int].wf());
            assert(shapes_of(self.layers@)[k as int] == shapes_of(old(self).layers@)[k as int]);
            let updated = if k == 0 {
                descend(&self.layers[k].weights, input, out, &errs[t], lr, times, plus, minus, zero, one)
            } else {
                assert(old(self).layers@[k - 1].output_size_spec()
                    == old(self).layers@[k as int].input_size_spec());
                descend(
                    &self.layers[k].weights,
                    &outputs[k - 1],
                    out,
                    &errs[t],
                    lr,
                    times,
                    plus,
                    minus,
                    zero,
                    one,
                )
            };
            proof {
                assert(out@ == outs[k as int]);
                assert(errs@[t as int]@ == errg[k as int]);
                if k > 0 {
                    assert(outputs@[k - 1]@ == outs[k - 1]);
                }
                assert(self.layers@[k as int] == old(self).layers@[k as int]);
            }
            self.layers.set(k, Layer::new(updated));
            proof {
                assert(shapes_of(self.layers@) =~= shapes_of(old(self).layers@));
            }
            t = t + 1;
        }
        proof {
            assert forall|j: int| 0 <= j < n - 1 implies #[trigger] self.layers@[j].output_size_spec()
                == self.layers@[j + 1].input_size_spec() by {
                assert(shapes_of(self.layers@)[j] == shapes_of(old(self).layers@)[j]);
                assert(shapes_of(self.layers@)[j + 1] == shapes_of(old(self).layers@)[j + 1]);
                assert(old(self).layers@[j].output_size_spec() == old(self).layers@[j
                    + 1].input_size_spec());
            }
        }
        Ok(outputs[n - 1].transpose())
    }

    /// Classifies `input` and decodes `label`: the index of the first
    /// greatest entry of the network's output on `input`, a column, and the
    /// index of the last entry of `label`'s first row that `active` holds of
    /// (0 where there is none). Fails where the first layer does not take
    /// `input`'s number of rows.
    pub fn eval<
        X: Fn(T, T) -> T + Copy,
        P: Fn(T, T) -> T + Copy,
        F: Fn(T) -> T + Copy,
        L: Fn(T, T) -> bool,
        A: Fn(T) -> bool,
    >(
        &self,
        input: Matrix<T>,
        label: &Matrix<T>,
        times: X,
        plus: P,
        zero: T,
        activate: F,
        less: L,
        active: A,
    ) -> (r: Result<(usize, usize), ShapeError>)
        requires
            self.wf(),
            input.wf(),
            label.wf(),
            forall|x: T, y: T| times.requires((x, y)),
            forall|x: T, y: T| plus.requires((x, y)),
            forall|x: T| activate.requires((x,)),
            forall|x: T, y: T| less.requires((x, y)),
            forall|x: T| active.requires((x,)),
        ensures
            self.accepts(input.rows) <==> r is Ok,
            r is Err ==> r == Err::<(usize, usize), ShapeError>(
                ShapeError::Mismatch {
                    expected: Shape { rows: self.layers@[0].input_size_spec(), cols: input.cols },
                    actual: input.shape_spec(),
                },
            ),
            r matches Ok((predicted, expected)) ==> {
                &&& exists|o: Seq<Seq<T>>|
                    #[trigger] passes(self.layers@, input@, times, plus, zero, activate, o)
                        && scans_to_max(column(o, 0), less, predicted as int)
                &&& scans_to_active(label@[0], active, expected as int)
            },
    {
        let output = self.inference(input, times, plus, zero, activate)?;
        let row = output.transpose();
        assert(row@[0] =~= column(output@, 0));
        let predicted = arg_max(&row.data[0], less);
        let expected = active_index(&label.data[0], active);
        Ok((predicted, expected))
    }
}

/// The weights `weights` after one gradient step, for a layer that gave
/// `output` on `input` and whose error is `error`: `weights` plus `lr` times
/// the product of `(1 - output) * (error * output)`, taken entry by entry,
/// and the transpose of `input`.
fn descend<T: Copy, X: Fn(T, T) -> T + Copy, P: Fn(T, T) -> T + Copy, M: Fn(T, T) -> T + Copy>(
    weights: &Matrix<T>,
    input: &Matrix<T>,
    output: &Matrix<T>,
    error: &Matrix<T>,
    lr: T,
    times: X,
    plus: P,
    minus: M,
    zero: T,
    one: T,
) -> (r: Matrix<T>)
    requires
        weights.wf(),
        input.wf(),
        output.wf(),
        error.wf(),
        input.rows == weights.cols,
        output.rows == weights.rows,
        output.cols == input.cols,
        error.shape_spec() == output.shape_spec(),
        forall|x: T, y: T| times.requires((x, y)),
        forall|x: T, y: T| plus.requires((x, y)),
        forall|x: T, y: T| minus.requires((x, y)),
    ensures
        r.wf(),
        r.shape_spec() == weights.shape_spec(),
        updates_to(weights@, input@, output@, error@, times, plus, minus, zero, one, lr, r@),
{
    let scale = |x: T| -> (y: T)
        requires
            times.requires((x, lr)),
        ensures
            call_ensures(times, (x, lr), y),
        { times(x, lr) };
    let product = error.zip_with(output, times).unwrap();
    let ones = Matrix::filled(output.rows, output.cols, one).unwrap();
    let slope = ones.zip_with(output, minus).unwrap();
    let signal = slope.zip_with(&product, times).unwrap();
    let back = input.transpose();
    let gradient = signal.product(&back, times, plus, zero).unwrap();
    let step = gradient.map(scale);
    let r = weights.zip_with(&step, plus).unwrap();
    proof {
        assert(ones@ =~= constant_table(output@.len(), output@[0].len(), one)) by {
            assert forall|i: int| 0 <= i < output.rows implies ones@[i] =~= constant_table(
                output@.len(),
                output@[0].len(),
                one,
            )[i] by {}
        }
        assert(scaled(gradient@, times, lr, step@)) by {
            assert forall|i: int, j: int|
                0 <= i < gradient@.len() && 0 <= j < gradient@[i].len() implies call_ensures(
                times,
                (gradient@[i][j], lr),
                #[trigger] step@[i][j],
            ) by {
                assert(call_ensures(scale, (gradient@[i][j],), step@[i][j]));
            }
        }
    }
    r
}

/// Each layer is well formed, and each one's output size is the next one's
/// input size.
pub open spec fn chained<T: Copy>(layers: Seq<Layer<T>>) -> bool {
    &&& forall|i: int| 0 <= i < layers.len() ==> #[trigger] layers[i].wf()
    &&& forall|i: int|
        0 <= i < layers.len() - 1 ==> #[trigger] layers[i].output_size_spec()
            == layers[i + 1].input_size_spec()
}

} // verus!
