//! The model abstraction and its linear-regression implementation.
//!
//! A model owns its training data exclusively. Fitting optionally
//! normalizes the data in place, runs batch gradient descent from the
//! current parameters, and stores the fitted parameters and their cost;
//! predicting applies the fitted line to one input.

use crate::dataset::{col_ok, normalized_col, DataSet};
use crate::fixed::{fx_mul, fx_mul_spec, in_i64};
use crate::gradient::{calculate_cost, cost_ok, cost_val, gradient_descent, run_gd};
use crate::Error;
use vstd::prelude::*;

verus! {

/// A trainable model over inputs `T` and outputs `R`. Each
/// implementation states what its training and prediction guarantee
/// through the associated specification functions.
pub trait Model<T, R>: Sized {
    /// What the model asks of itself before training.
    spec fn fit_req(&self) -> bool;

    /// What training guarantees: how the trained model and its result
    /// relate to the model before training.
    spec fn fit_ens(old_self: Self, new_self: Self, r: Result<(), Error>) -> bool;

    /// What prediction guarantees.
    spec fn predict_ens(old_self: Self, new_self: Self, value: T, r: Result<R, Error>) -> bool;

    /// Trains the model on its own data.
    fn fit(&mut self) -> (r: Result<(), Error>)
        requires
            old(self).fit_req(),
        ensures
            Self::fit_ens(*old(self), *final(self), r),
    ;

    /// Predicts the output for one input.
    fn predict(&mut self, value: T) -> (r: Result<R, Error>)
        ensures
            Self::predict_ens(*old(self), *final(self), value, r),
    ;
}

/// Configuration of a linear-regression fit.
#[derive(Clone, Copy, Debug)]
pub struct LinealRegressionOptions {
    /// How many full-batch optimizer steps to make.
    pub epochs: u32,
    /// The learning rate in micro-units.
    pub learning_rate: i64,
    /// Whether to normalize the training data in place before fitting.
    pub normalize: bool,
}

/// A single-feature linear model `y = b + w * x`, with its training
/// data and the cost of the fitted parameters.
pub struct LinealRegression {
    /// The bias (intercept) in micro-units.
    pub b: i64,
    /// The weight (slope) in micro-units.
    pub w: i64,
    /// The cost of the fitted parameters on the training data.
    pub cost: i64,
    /// The training data, owned exclusively by the model.
    pub training_data: DataSet,
    /// The fit configuration.
    pub options: LinealRegressionOptions,
}

/// The input column the optimizer sees: normalized when the options ask
/// for it.
pub open spec fn prepared_input(o: LinealRegression) -> Seq<i64> {
    if o.options.normalize {
        normalized_col(o.training_data.input@)
    } else {
        o.training_data.input@
    }
}

/// The output column the optimizer sees.
pub open spec fn prepared_output(o: LinealRegression) -> Seq<i64> {
    if o.options.normalize {
        normalized_col(o.training_data.output@)
    } else {
        o.training_data.output@
    }
}

/// Everything fitting guarantees: on an empty dataset it reports
/// `EmptyInput` and changes nothing; when normalization or a step or
/// the final cost is degenerate it reports so, the data by then
/// normalized where normalization succeeded; otherwise it stores the
/// parameters the optimizer run reaches and their exact cost.
pub open spec fn fit_post(o: LinealRegression, s: LinealRegression, r: Result<(), Error>) -> bool {
    let n = o.training_data.size;
    let xs = prepared_input(o);
    let ys = prepared_output(o);
    if n == 0 {
        r == Err::<(), Error>(Error::EmptyInput) && s == o
    } else if o.options.normalize && !(col_ok(o.training_data.input@) && col_ok(
        o.training_data.output@,
    )) {
        r == Err::<(), Error>(Error::NumericDegenerate) && s == o
    } else {
        &&& s.training_data.size == n
        &&& s.training_data.input@ == xs
        &&& s.training_data.output@ == ys
        &&& s.options == o.options
        &&& match run_gd(
            xs,
            ys,
            o.options.learning_rate as int,
            o.options.epochs as nat,
            o.b as int,
            o.w as int,
        ) {
            Some(p) => {
                if cost_ok(xs, ys, p.0, p.1) {
                    r == Ok::<(), Error>(()) && s.b == p.0 && s.w == p.1 && s.cost == cost_val(
                        xs,
                        ys,
                        p.0,
                        p.1,
                    )
                } else {
                    r == Err::<(), Error>(Error::NumericDegenerate) && s.b == o.b && s.w == o.w
                        && s.cost == o.cost
                }
            },
            None => r == Err::<(), Error>(Error::NumericDegenerate) && s.b == o.b && s.w == o.w
                && s.cost == o.cost,
        }
    }
}

/// Everything predicting guarantees: the model is unchanged, and the
/// result is the exact fixed-point value of the fitted line at the
/// input, or `NumericDegenerate` when that value is unrepresentable.
pub open spec fn predict_post(
    o: LinealRegression,
    s: LinealRegression,
    value: i64,
    r: Result<i64, Error>,
) -> bool {
    &&& s == o
    &&& if in_i64(fx_mul_spec(o.w as int, value as int)) && in_i64(
        fx_mul_spec(o.w as int, value as int) + o.b,
    ) {
        r == Ok::<i64, Error>((fx_mul_spec(o.w as int, value as int) + o.b) as i64)
    } else {
        r == Err::<i64, Error>(Error::NumericDegenerate)
    }
}

impl LinealRegression {
    /// A fresh model over the given data: both parameters and the cost
    /// start at zero.
    pub fn new(training_data: DataSet, options: LinealRegressionOptions) -> (m: Self)
        ensures
            m.b == 0 && m.w == 0 && m.cost == 0,
            m.training_data == training_data,
            m.options == options,
    {
        Self { b: 0, w: 0, cost: 0, training_data, options }
    }
}

impl Model<i64, i64> for LinealRegression {
    open spec fn fit_req(&self) -> bool {
        self.training_data.wf()
    }

    open spec fn fit_ens(old_self: Self, new_self: Self, r: Result<(), Error>) -> bool {
        fit_post(old_self, new_self, r)
    }

    open spec fn predict_ens(
        old_self: Self,
        new_self: Self,
        value: i64,
        r: Result<i64, Error>,
    ) -> bool {
        predict_post(old_self, new_self, value, r)
    }

    fn fit(&mut self) -> (r: Result<(), Error>) {
        if self.options.normalize {
            match self.training_data.normalize() {
                Ok(()) => (),
                Err(e) => {
                    return Err(e);
                },
            }
        } else if self.training_data.size == 0 {
            return Err(Error::EmptyInput);
        }
        let fitted = match gradient_descent(
            self.options.epochs,
            self.options.learning_rate,
            self.b,
            self.w,
            &self.training_data,
        ) {
            Ok(p) => p,
            Err(e) => {
                return Err(e);
            },
        };
        let c = match calculate_cost(fitted.0, fitted.1, &self.training_data) {
            Ok(c) => c,
            Err(e) => {
                return Err(e);
            },
        };
        self.b = fitted.0;
        self.w = fitted.1;
        self.cost = c;
        proof {
            crate::gradient::lemma_cost_nonnegative(
                prepared_input(*old(self)),
                prepared_output(*old(self)),
                fitted.0 as int,
                fitted.1 as int,
            );
        }
        Ok(())
    }

    fn predict(&mut self, value: i64) -> (r: Result<i64, Error>) {
        let m = match fx_mul(self.w, value) {
            Some(m) => m,
            None => {
                return Err(Error::NumericDegenerate);
            },
        };
        let p128: i128 = (m as i128) + (self.b as i128);
        if p128 < i64::MIN as i128 || p128 > i64::MAX as i128 {
            return Err(Error::NumericDegenerate);
        }
        Ok(p128 as i64)
    }
}

} // verus!
