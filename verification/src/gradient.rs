//! Mean-squared-error cost and batch gradient descent, in exact fixed
//! point.
//!
//! The residual of a sample is `b + w (*) x - y`, where `(*)` is the
//! fixed-point product. The cost is the exact sum of squared residuals
//! divided by `2 * n`, truncated; one optimizer step subtracts
//! `lr (*) (gradient / n)` from each parameter, both gradients taken at
//! the same pre-update parameters. A step whose exact value leaves the
//! representable range makes the whole run degenerate, as a diverging
//! run overflows in floating point.

use crate::dataset::DataSet;
use crate::fixed::{div_t, div_trunc, fx_mul, fx_mul_spec, in_i64, lemma_div_t_bound, SCALE};
use crate::stats::lemma_avg_in_i64;
use crate::Error;
use vstd::prelude::*;

verus! {

/// The residual of one sample under parameters `b`, `w`.
pub open spec fn residual(b: int, w: int, x: int, y: int) -> int {
    b + fx_mul_spec(w, x) - y
}

/// Whether the residuals of the first `k` samples are representable,
/// the fixed-point product included.
pub open spec fn residuals_ok(xs: Seq<i64>, ys: Seq<i64>, b: int, w: int, k: int) -> bool {
    forall|i: int|
        0 <= i < k ==> in_i64(fx_mul_spec(w, xs[i] as int)) && in_i64(
            residual(b, w, #[trigger] xs[i] as int, ys[i] as int),
        )
}

/// The sum of the first `k` residuals.
pub open spec fn sum_res(xs: Seq<i64>, ys: Seq<i64>, b: int, w: int, k: int) -> int
    decreases k,
{
    if k <= 0 {
        0
    } else {
        sum_res(xs, ys, b, w, k - 1) + residual(b, w, xs[k - 1] as int, ys[k - 1] as int)
    }
}

/// The sum of the first `k` residuals, each weighted by its input
/// through the fixed-point product.
pub open spec fn sum_wres(xs: Seq<i64>, ys: Seq<i64>, b: int, w: int, k: int) -> int
    decreases k,
{
    if k <= 0 {
        0
    } else {
        sum_wres(xs, ys, b, w, k - 1) + fx_mul_spec(
            residual(b, w, xs[k - 1] as int, ys[k - 1] as int),
            xs[k - 1] as int,
        )
    }
}

/// The sum of the first `k` squared residuals, exact.
pub open spec fn sum_sq_res(xs: Seq<i64>, ys: Seq<i64>, b: int, w: int, k: int) -> int
    decreases k,
{
    if k <= 0 {
        0
    } else {
        let r = residual(b, w, xs[k - 1] as int, ys[k - 1] as int);
        sum_sq_res(xs, ys, b, w, k - 1) + r * r
    }
}

/// Whether every weighted residual of the first `k` samples is
/// representable.
pub open spec fn wterms_ok(xs: Seq<i64>, ys: Seq<i64>, b: int, w: int, k: int) -> bool {
    forall|i: int|
        0 <= i < k ==> in_i64(
            fx_mul_spec(residual(b, w, #[trigger] xs[i] as int, ys[i] as int), xs[i] as int),
        )
}

/// Whether the cost of `(b, w)` is representable: every residual and
/// the sum of their squares stay in range, and so does the quotient.
pub open spec fn cost_ok(xs: Seq<i64>, ys: Seq<i64>, b: int, w: int) -> bool {
    let n = xs.len() as int;
    &&& residuals_ok(xs, ys, b, w, n)
    &&& sum_sq_res(xs, ys, b, w, n) <= i128::MAX
    &&& div_t(sum_sq_res(xs, ys, b, w, n), 2 * n * (SCALE as int)) <= i64::MAX
}

/// The cost: the exact sum of squared residuals over `2 n`, brought
/// back to micro-units and truncated toward zero.
pub open spec fn cost_val(xs: Seq<i64>, ys: Seq<i64>, b: int, w: int) -> int
    recommends
        xs.len() >= 1,
{
    div_t(sum_sq_res(xs, ys, b, w, xs.len() as int), 2 * (xs.len() as int) * (SCALE as int))
}

/// One optimizer step at learning rate `lr`, or `None` when any exact
/// intermediate leaves the representable range.
pub open spec fn step_of(xs: Seq<i64>, ys: Seq<i64>, lr: int, b: int, w: int) -> Option<(int, int)>
    recommends
        xs.len() >= 1,
{
    let n = xs.len() as int;
    if !(residuals_ok(xs, ys, b, w, n) && wterms_ok(xs, ys, b, w, n)) {
        None
    } else {
        let ub = fx_mul_spec(lr, div_t(sum_res(xs, ys, b, w, n), n));
        let uw = fx_mul_spec(lr, div_t(sum_wres(xs, ys, b, w, n), n));
        if !(in_i64(ub) && in_i64(uw) && in_i64(b - ub) && in_i64(w - uw)) {
            None
        } else {
            Some((b - ub, w - uw))
        }
    }
}

/// The optimizer run: `epochs` steps from `(b, w)`, or `None` as soon
/// as one step is degenerate.
pub open spec fn run_gd(
    xs: Seq<i64>,
    ys: Seq<i64>,
    lr: int,
    epochs: nat,
    b: int,
    w: int,
) -> Option<(int, int)>
    decreases epochs,
{
    if epochs == 0 {
        Some((b, w))
    } else {
        match step_of(xs, ys, lr, b, w) {
            Some(p) => run_gd(xs, ys, lr, (epochs - 1) as nat, p.0, p.1),
            None => None,
        }
    }
}

/// A run of at least one epoch whose first step is degenerate is
/// degenerate.
pub proof fn lemma_run_gd_none(xs: Seq<i64>, ys: Seq<i64>, lr: int, epochs: nat, b: int, w: int)
    requires
        epochs > 0,
        step_of(xs, ys, lr, b, w) is None,
    ensures
        run_gd(xs, ys, lr, epochs, b, w) is None,
{
    reveal_with_fuel(run_gd, 2);
}

/// A run of at least one epoch goes through its first step.
pub proof fn lemma_run_gd_some(
    xs: Seq<i64>,
    ys: Seq<i64>,
    lr: int,
    epochs: nat,
    b: int,
    w: int,
    p: (int, int),
)
    requires
        epochs > 0,
        step_of(xs, ys, lr, b, w) == Some(p),
    ensures
        run_gd(xs, ys, lr, epochs, b, w) == run_gd(xs, ys, lr, (epochs - 1) as nat, p.0, p.1),
{
    reveal_with_fuel(run_gd, 2);
}

/// Prefix sums of squared residuals are non-negative and grow.
pub proof fn lemma_ssr_mono(xs: Seq<i64>, ys: Seq<i64>, b: int, w: int, k1: int, k2: int)
    requires
        0 <= k1 <= k2,
    ensures
        0 <= sum_sq_res(xs, ys, b, w, k1) <= sum_sq_res(xs, ys, b, w, k2),
    decreases k2,
{
    if k2 > 0 {
        let r = residual(b, w, xs[k2 - 1] as int, ys[k2 - 1] as int);
        assert(r * r >= 0) by (nonlinear_arith);
        if k1 == k2 {
            lemma_ssr_mono(xs, ys, b, w, k1 - 1, k2 - 1);
        } else {
            lemma_ssr_mono(xs, ys, b, w, k1, k2 - 1);
        }
    }
}

/// The sum of squared residuals vanishes exactly when every residual
/// does: the model fits every sample exactly.
pub proof fn lemma_ssr_zero_iff_fit(xs: Seq<i64>, ys: Seq<i64>, b: int, w: int, k: int)
    requires
        0 <= k,
    ensures
        sum_sq_res(xs, ys, b, w, k) == 0 <==> forall|i: int|
            0 <= i < k ==> residual(b, w, #[trigger] xs[i] as int, ys[i] as int) == 0,
    decreases k,
{
    if k > 0 {
        lemma_ssr_zero_iff_fit(xs, ys, b, w, k - 1);
        let r = residual(b, w, xs[k - 1] as int, ys[k - 1] as int);
        assert(r * r >= 0 && (r * r == 0 <==> r == 0)) by (nonlinear_arith);
        lemma_ssr_mono(xs, ys, b, w, 0, k - 1);
    }
}

/// The cost is never negative; a model that fits every sample exactly
/// has cost zero; and the cost is zero exactly when the sum of squared
/// residuals falls under one rounding unit of the divisor `2 n`.
pub proof fn lemma_cost_nonnegative(xs: Seq<i64>, ys: Seq<i64>, b: int, w: int)
    requires
        xs.len() >= 1,
    ensures
        cost_val(xs, ys, b, w) >= 0,
        (forall|i: int|
            0 <= i < xs.len() ==> residual(b, w, #[trigger] xs[i] as int, ys[i] as int) == 0)
            ==> cost_val(xs, ys, b, w) == 0,
        cost_val(xs, ys, b, w) == 0 <==> sum_sq_res(xs, ys, b, w, xs.len() as int) < 2 * (
        xs.len() as int) * (SCALE as int),
{
    let n = xs.len() as int;
    let den = 2 * n * (SCALE as int);
    let ssr = sum_sq_res(xs, ys, b, w, n);
    lemma_ssr_mono(xs, ys, b, w, 0, n);
    lemma_div_t_bound(ssr, den);
    lemma_ssr_zero_iff_fit(xs, ys, b, w, n);
    assert(2 * n * (SCALE as int) >= 2_000_000) by (nonlinear_arith)
        requires
            n >= 1,
            SCALE == 1_000_000i64,
    ;
    if ssr < den {
        vstd::arithmetic::div_mod::lemma_basic_div(ssr, den);
    } else {
        vstd::arithmetic::div_mod::lemma_div_non_zero(ssr, den);
    }
}

/// With a zero learning rate every step returns its parameters
/// unchanged, so the whole run does, however many epochs it makes.
pub proof fn lemma_zero_rate_keeps_parameters(
    xs: Seq<i64>,
    ys: Seq<i64>,
    epochs: nat,
    b: i64,
    w: i64,
)
    requires
        xs.len() >= 1,
        residuals_ok(xs, ys, b as int, w as int, xs.len() as int),
        wterms_ok(xs, ys, b as int, w as int, xs.len() as int),
    ensures
        run_gd(xs, ys, 0, epochs, b as int, w as int) == Some((b as int, w as int)),
    decreases epochs,
{
    if epochs > 0 {
        let n = xs.len() as int;
        let gb = sum_res(xs, ys, b as int, w as int, n);
        let gw = sum_wres(xs, ys, b as int, w as int, n);
        assert(0 * div_t(gb, n) == 0) by (nonlinear_arith);
        assert(0 * div_t(gw, n) == 0) by (nonlinear_arith);
        assert(div_t(0, SCALE as int) == 0) by {
            vstd::arithmetic::div_mod::lemma_div_of0(SCALE as int);
        }
        assert(step_of(xs, ys, 0, b as int, w as int) == Some((b as int, w as int)));
        lemma_zero_rate_keeps_parameters(xs, ys, (epochs - 1) as nat, b, w);
    }
}

/// The mean squared error of `(b, w)` on the dataset, in micro-units,
/// with the conventional extra factor of two in the denominator.
/// Fails with `EmptyInput` on an empty dataset and with
/// `NumericDegenerate` exactly when an exact intermediate leaves the
/// representable range.
pub fn calculate_cost(b: i64, w: i64, data: &DataSet) -> (r: Result<i64, Error>)
    requires
        data.wf(),
    ensures
        data.size == 0 <==> r == Err::<i64, Error>(Error::EmptyInput),
        data.size >= 1 && cost_ok(data.input@, data.output@, b as int, w as int) ==> r == Ok::<
            i64,
            Error,
        >(cost_val(data.input@, data.output@, b as int, w as int) as i64),
        data.size >= 1 && !cost_ok(data.input@, data.output@, b as int, w as int) ==> r == Err::<
            i64,
            Error,
        >(Error::NumericDegenerate),
        r matches Ok(v) ==> v >= 0,
{
    let ghost xs = data.input@;
    let ghost ys = data.output@;
    let n = data.size;
    if n == 0 {
        return Err(Error::EmptyInput);
    }
    let mut acc: i128 = 0;
    let mut i: usize = 0;
    while i < n
        invariant
            0 <= i <= n,
            data.wf(),
            n == data.size,
            xs == data.input@,
            ys == data.output@,
            acc == sum_sq_res(xs, ys, b as int, w as int, i as int),
            0 <= acc <= i128::MAX,
            residuals_ok(xs, ys, b as int, w as int, i as int),
        decreases n - i,
    {
        let x = data.input[i];
        let y = data.output[i];
        let m = match fx_mul(w, x) {
            Some(m) => m,
            None => {
                return Err(Error::NumericDegenerate);
            },
        };
        let r128: i128 = (b as i128) + (m as i128) - (y as i128);
        if r128 < i64::MIN as i128 || r128 > i64::MAX as i128 {
            return Err(Error::NumericDegenerate);
        }
        proof {
            assert((r128 as int) * (r128 as int) <= i128::MAX && (r128 as int) * (r128 as int) >= 0)
                by (nonlinear_arith)
                requires
                    i64::MIN as int <= r128 as int <= i64::MAX as int,
            ;
            lemma_ssr_mono(xs, ys, b as int, w as int, i as int, i + 1);
        }
        let sq: i128 = r128 * r128;
        acc = match acc.checked_add(sq) {
            Some(t) => t,
            None => {
                proof {
                    lemma_ssr_mono(xs, ys, b as int, w as int, i + 1, n as int);
                }
                return Err(Error::NumericDegenerate);
            },
        };
        i += 1;
    }
    proof {
        assert(2 * (n as int) * (SCALE as int) < i128::MAX) by (nonlinear_arith)
            requires
                n <= u64::MAX,
                SCALE == 1_000_000i64,
        ;
    }
    let den: i128 = 2 * (n as i128) * (SCALE as i128);
    let cv = div_trunc(acc, den);
    proof {
        lemma_div_t_bound(acc as int, den as int);
    }
    if cv > i64::MAX as i128 {
        return Err(Error::NumericDegenerate);
    }
    Ok(cv as i64)
}

/// Runs batch gradient descent for a fixed number of epochs from the
/// given parameters. Fails with `EmptyInput` on an empty dataset, and
/// with `NumericDegenerate` exactly when some step's exact value leaves
/// the representable range.
pub fn gradient_descent(
    num_iterations: u32,
    learning_rate: i64,
    initial_bias: i64,
    initial_weight: i64,
    training_data: &DataSet,
) -> (r: Result<(i64, i64), Error>)
    requires
        training_data.wf(),
    ensures
        training_data.size == 0 <==> r == Err::<(i64, i64), Error>(Error::EmptyInput),
        training_data.size >= 1 ==> match run_gd(
            training_data.input@,
            training_data.output@,
            learning_rate as int,
            num_iterations as nat,
            initial_bias as int,
            initial_weight as int,
        ) {
            Some(p) => r == Ok::<(i64, i64), Error>((p.0 as i64, p.1 as i64)) && in_i64(p.0)
                && in_i64(p.1),
            None => r == Err::<(i64, i64), Error>(Error::NumericDegenerate),
        },
{
    let ghost xs = training_data.input@;
    let ghost ys = training_data.output@;
    let n = training_data.size;
    if n == 0 {
        return Err(Error::EmptyInput);
    }
    let mut bias = initial_bias;
    let mut weight = initial_weight;
    let mut e: u32 = 0;
    while e < num_iterations
        invariant
            0 <= e <= num_iterations,
            training_data.wf(),
            n == training_data.size,
            1 <= n,
            xs == training_data.input@,
            ys == training_data.output@,
            run_gd(
                xs,
                ys,
                learning_rate as int,
                num_iterations as nat,
                initial_bias as int,
                initial_weight as int,
            ) == run_gd(
                xs,
                ys,
                learning_rate as int,
                (num_iterations - e) as nat,
                bias as int,
                weight as int,
            ),
        decreases num_iterations - e,
    {
        let mut gb: i128 = 0;
        let mut gw: i128 = 0;
        let mut i: usize = 0;
        while i < n
            invariant
                0 <= i <= n,
                training_data.wf(),
                n == training_data.size,
                xs == training_data.input@,
                ys == training_data.output@,
                gb == sum_res(xs, ys, bias as int, weight as int, i as int),
                gw == sum_wres(xs, ys, bias as int, weight as int, i as int),
                (i as int) * (i64::MIN as int) <= gb <= (i as int) * (i64::MAX as int),
                (i as int) * (i64::MIN as int) <= gw <= (i as int) * (i64::MAX as int),
                residuals_ok(xs, ys, bias as int, weight as int, i as int),
                wterms_ok(xs, ys, bias as int, weight as int, i as int),
                e < num_iterations,
                run_gd(
                    xs,
                    ys,
                    learning_rate as int,
                    num_iterations as nat,
                    initial_bias as int,
                    initial_weight as int,
                ) == run_gd(
                    xs,
                    ys,
                    learning_rate as int,
                    (num_iterations - e) as nat,
                    bias as int,
                    weight as int,
                ),
            decreases n - i,
        {
            let x = training_data.input[i];
            let y = training_data.output[i];
            let m = match fx_mul(weight, x) {
                Some(m) => m,
                None => {
                    proof {
                        lemma_run_gd_none(xs, ys, learning_rate as int, (num_iterations - e) as nat, bias as int, weight as int);
                    }
                    return Err(Error::NumericDegenerate);
                },
            };
            let r128: i128 = (bias as i128) + (m as i128) - (y as i128);
            if r128 < i64::MIN as i128 || r128 > i64::MAX as i128 {
                proof {
                    lemma_run_gd_none(xs, ys, learning_rate as int, (num_iterations - e) as nat, bias as int, weight as int);
                }
                return Err(Error::NumericDegenerate);
            }
            let rr = r128 as i64;
            let wt = match fx_mul(rr, x) {
                Some(t) => t,
                None => {
                    proof {
                        lemma_run_gd_none(xs, ys, learning_rate as int, (num_iterations - e) as nat, bias as int, weight as int);
                    }
                    return Err(Error::NumericDegenerate);
                },
            };
            gb = gb + r128;
            gw = gw + (wt as i128);
            i += 1;
        }
        proof {
            lemma_avg_in_i64(gb as int, n as int);
            lemma_avg_in_i64(gw as int, n as int);
        }
        let avg_b = div_trunc(gb, n as i128) as i64;
        let avg_w = div_trunc(gw, n as i128) as i64;
        let ub = match fx_mul(learning_rate, avg_b) {
            Some(u) => u,
            None => {
                proof {
                    lemma_run_gd_none(xs, ys, learning_rate as int, (num_iterations - e) as nat, bias as int, weight as int);
                }
                return Err(Error::NumericDegenerate);
            },
        };
        let uw = match fx_mul(learning_rate, avg_w) {
            Some(u) => u,
            None => {
                proof {
                    lemma_run_gd_none(xs, ys, learning_rate as int, (num_iterations - e) as nat, bias as int, weight as int);
                }
                return Err(Error::NumericDegenerate);
            },
        };
        let nb128: i128 = (bias as i128) - (ub as i128);
        let nw128: i128 = (weight as i128) - (uw as i128);
        if nb128 < i64::MIN as i128 || nb128 > i64::MAX as i128 || nw128 < i64::MIN as i128
            || nw128 > i64::MAX as i128 {
            proof {
                lemma_run_gd_none(xs, ys, learning_rate as int, (num_iterations - e) as nat, bias as int, weight as int);
            }
            return Err(Error::NumericDegenerate);
        }
        proof {
            assert(step_of(xs, ys, learning_rate as int, bias as int, weight as int) == Some(
                (nb128 as int, nw128 as int),
            ));
            lemma_run_gd_some(
                xs,
                ys,
                learning_rate as int,
                (num_iterations - e) as nat,
                bias as int,
                weight as int,
                (nb128 as int, nw128 as int),
            );
        }
        bias = nb128 as i64;
        weight = nw128 as i64;
        e += 1;
    }
    Ok((bias, weight))
}

} // verus!
