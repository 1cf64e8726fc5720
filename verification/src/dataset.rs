//! The training dataset: parallel input and output columns.
//!
//! A dataset is built from text records of the form `output,input`
//! (the label first). A record whose fields do not both read as
//! numerals is skipped silently, and a source that could not be read
//! at all yields an empty dataset rather than an error. Normalization
//! centres each column on its mean and scales it by its population
//! standard deviation, exactly in fixed point.

use crate::fixed::{div_trunc, fx_div, fx_div_spec, in_i64, isqrt, lemma_div_t_bound, SCALE};
use crate::parse::{find_char, first_at, lemma_first_at_is, num_val, num_wf, parse_number};
use crate::stats::{dev_ok, lemma_sumsq_nonneg, mean_of, mean_value, ssq_of, std_of, sumsq_devs};
use crate::Error;
use vstd::prelude::*;

verus! {

/// The first field of a record: everything before the first comma.
pub open spec fn first_field(l: Seq<char>) -> Seq<char> {
    l.subrange(0, first_at(l, ','))
}

/// The second field of a record: everything between the first comma
/// and the next one, or the end of the record.
pub open spec fn second_field(l: Seq<char>) -> Seq<char> {
    let c1 = first_at(l, ',');
    let rest = l.subrange(c1 + 1, l.len() as int);
    rest.subrange(0, first_at(rest, ','))
}

/// Whether a record is well formed: it has a comma, and both fields
/// read as numerals. Anything after a second comma is ignored.
pub open spec fn line_wf(l: Seq<char>) -> bool {
    &&& first_at(l, ',') < l.len()
    &&& num_wf(first_field(l))
    &&& num_wf(second_field(l))
}

/// The `(output, input)` pair a well-formed record carries: the first
/// field is the label.
pub open spec fn line_row(l: Seq<char>) -> (i64, i64) {
    (num_val(first_field(l)) as i64, num_val(second_field(l)) as i64)
}

/// The `(output, input)` pairs of the well-formed records, in order.
pub open spec fn rows_of(ls: Seq<Seq<char>>) -> Seq<(i64, i64)>
    decreases ls.len(),
{
    if ls.len() == 0 {
        Seq::empty()
    } else {
        rows_of(ls.drop_last()) + if line_wf(ls.last()) {
            seq![line_row(ls.last())]
        } else {
            Seq::empty()
        }
    }
}

/// Reads one record, or reports that it is malformed.
pub fn parse_line(l: &str) -> (r: Option<(i64, i64)>)
    ensures
        line_wf(l@) ==> r == Some(line_row(l@)),
        !line_wf(l@) ==> r is None,
{
    let n = l.unicode_len();
    let c1 = find_char(l, 0, ',');
    proof {
        lemma_first_at_is(l@, ',', c1 as int);
    }
    if c1 == n {
        return None;
    }
    let f0 = l.substring_char(0, c1);
    let c2 = find_char(l, c1 + 1, ',');
    let f1 = l.substring_char(c1 + 1, c2);
    proof {
        let rest = l@.subrange(c1 + 1, n as int);
        assert(forall|j: int| 0 <= j < c2 - c1 - 1 ==> rest[j] == l@[j + c1 + 1] && rest[j] != ',');
        assert(c2 < n ==> rest[c2 - c1 - 1] == ',');
        lemma_first_at_is(rest, ',', c2 - c1 - 1);
        assert(f0@ =~= first_field(l@));
        assert(f1@ =~= second_field(l@));
    }
    let v0 = match parse_number(f0) {
        Some(v) => v,
        None => {
            return None;
        },
    };
    let v1 = match parse_number(f1) {
        Some(v) => v,
        None => {
            return None;
        },
    };
    Some((v0, v1))
}

/// Whether a column can be normalized: every deviation and the sum of
/// their squares stay representable, and the spread is neither zero nor
/// too large, so every scaled value is representable too.
pub open spec fn col_ok(s: Seq<i64>) -> bool {
    &&& dev_ok(s)
    &&& ssq_of(s) <= i128::MAX
    &&& 1 <= std_of(s) <= i64::MAX
    &&& forall|i: int| 0 <= i < s.len() ==> in_i64(fx_div_spec(s[i] - mean_of(s), std_of(s)))
}

/// A column centred on its mean and scaled by its population standard
/// deviation, exactly in fixed point.
pub open spec fn normalized_col(s: Seq<i64>) -> Seq<i64> {
    Seq::new(s.len(), |i: int| fx_div_spec(s[i] - mean_of(s), std_of(s)) as i64)
}

/// The sum of the first `k` normalized values of a column, exact.
pub open spec fn norm_prefix(s: Seq<i64>, k: int) -> int
    decreases k,
{
    if k <= 0 {
        0
    } else {
        norm_prefix(s, k - 1) + fx_div_spec(s[k - 1] - mean_of(s), std_of(s))
    }
}

/// The sum of the first `k` deviations from `m`.
pub open spec fn dev_prefix(s: Seq<i64>, m: int, k: int) -> int
    decreases k,
{
    if k <= 0 {
        0
    } else {
        dev_prefix(s, m, k - 1) + (s[k - 1] - m)
    }
}

/// The deviations from `m` sum to the column's sum less `k` times `m`.
proof fn lemma_dev_prefix_total(s: Seq<i64>, m: int, k: int)
    requires
        0 <= k <= s.len(),
    ensures
        dev_prefix(s, m, k) == crate::stats::seq_sum(s.subrange(0, k)) - k * m,
    decreases k,
{
    if k > 0 {
        lemma_dev_prefix_total(s, m, k - 1);
        assert(s.subrange(0, k).drop_last() =~= s.subrange(0, k - 1));
        assert(s.subrange(0, k).last() == s[k - 1]);
        assert(k * m == (k - 1) * m + m) by (nonlinear_arith);
    } else {
        assert(k * m == 0) by (nonlinear_arith)
            requires
                k == 0,
        ;
    }
}

/// Each normalized value carries a truncation error below one rounding
/// unit, so the errors over a prefix stay below one unit per sample.
proof fn lemma_norm_prefix_err(s: Seq<i64>, k: int)
    requires
        0 <= k <= s.len(),
        std_of(s) >= 1,
    ensures
        -(k * (std_of(s) - 1)) <= std_of(s) * norm_prefix(s, k) - (SCALE as int) * dev_prefix(
            s,
            mean_of(s),
            k,
        ) <= k * (std_of(s) - 1),
    decreases k,
{
    let m = mean_of(s);
    let sd = std_of(s);
    if k > 0 {
        lemma_norm_prefix_err(s, k - 1);
        let d = s[k - 1] - m;
        crate::fixed::lemma_div_t_rem(d * (SCALE as int), sd);
        assert(sd * (norm_prefix(s, k - 1) + fx_div_spec(d, sd)) == sd * norm_prefix(s, k - 1) + sd
            * fx_div_spec(d, sd)) by (nonlinear_arith);
        assert(k * (sd - 1) == (k - 1) * (sd - 1) + (sd - 1)) by (nonlinear_arith);
    }
}

/// The sum of a normalized column equals its exact prefix sum: every
/// entry is representable, so the casts vanish.
proof fn lemma_norm_col_sum(s: Seq<i64>, k: int)
    requires
        0 <= k <= s.len(),
        forall|i: int| 0 <= i < s.len() ==> in_i64(fx_div_spec(s[i] - mean_of(s), std_of(s))),
    ensures
        crate::stats::seq_sum(normalized_col(s).subrange(0, k)) == norm_prefix(s, k),
    decreases k,
{
    if k > 0 {
        lemma_norm_col_sum(s, k - 1);
        assert(normalized_col(s).subrange(0, k).drop_last() =~= normalized_col(s).subrange(
            0,
            k - 1,
        ));
    }
}

/// After normalization a column is centred: its sum, scaled back by the
/// spread, is within one rounding unit per sample of zero, so its mean
/// vanishes up to truncation.
pub proof fn lemma_normalized_mean_near_zero(s: Seq<i64>)
    requires
        s.len() >= 1,
        col_ok(s),
    ensures
        -(s.len() * (std_of(s) + SCALE as int)) <= std_of(s) * crate::stats::seq_sum(
            normalized_col(s),
        ) <= s.len() * (std_of(s) + SCALE as int),
{
    let n = s.len() as int;
    let m = mean_of(s);
    let sd = std_of(s);
    lemma_norm_col_sum(s, n);
    assert(normalized_col(s).subrange(0, n) =~= normalized_col(s));
    lemma_norm_prefix_err(s, n);
    lemma_dev_prefix_total(s, m, n);
    assert(s.subrange(0, n) =~= s);
    crate::fixed::lemma_div_t_rem(crate::stats::seq_sum(s), n);
    let rem = crate::stats::seq_sum(s) - n * m;
    assert(-(n - 1) <= rem <= n - 1);
    assert((SCALE as int) * rem <= (SCALE as int) * (n - 1) && (SCALE as int) * rem >= -((
    SCALE as int) * (n - 1))) by (nonlinear_arith)
        requires
            -(n - 1) <= rem <= n - 1,
    ;
    assert(n * (sd - 1) + (SCALE as int) * (n - 1) <= n * (sd + SCALE as int))
        by (nonlinear_arith)
        requires
            n >= 1,
            sd >= 1,
    ;
}

/// Computes the normalized copy of one column.
fn normalize_column(v: &Vec<i64>) -> (r: Result<Vec<i64>, Error>)
    requires
        v@.len() >= 1,
    ensures
        col_ok(v@) <==> r is Ok,
        r matches Ok(w) ==> w@ == normalized_col(v@),
        r matches Err(e) ==> e == Error::NumericDegenerate,
{
    let n = v.len();
    let mean = mean_value(v);
    let ssq: i128 = match sumsq_devs(v, mean) {
        Some(t) => t,
        None => {
            return Err(Error::NumericDegenerate);
        },
    };
    proof {
        lemma_sumsq_nonneg(v@, mean as int);
    }
    let q = div_trunc(ssq, n as i128);
    proof {
        lemma_div_t_bound(ssq as int, n as int);
    }
    let sroot = isqrt(q as u128);
    if sroot == 0 || sroot > i64::MAX as u64 {
        return Err(Error::NumericDegenerate);
    }
    let std = sroot as i64;
    let mut w: Vec<i64> = Vec::new();
    let mut i: usize = 0;
    while i < n
        invariant
            0 <= i <= n == v@.len(),
            dev_ok(v@),
            mean == mean_of(v@),
            1 <= std == std_of(v@) <= i64::MAX,
            w@ =~= normalized_col(v@).subrange(0, i as int),
            forall|j: int| 0 <= j < i ==> in_i64(fx_div_spec(v@[j] - mean_of(v@), std_of(v@))),
        decreases n - i,
    {
        let d128: i128 = (v[i] as i128) - (mean as i128);
        let d: i64 = d128 as i64;
        let scaled = match fx_div(d, std) {
            Some(x) => x,
            None => {
                return Err(Error::NumericDegenerate);
            },
        };
        w.push(scaled);
        proof {
            assert(normalized_col(v@).subrange(0, i + 1) =~= normalized_col(v@).subrange(
                0,
                i as int,
            ).push(normalized_col(v@)[i as int]));
        }
        i += 1;
    }
    proof {
        assert(w@ =~= normalized_col(v@));
    }
    Ok(w)
}

/// A dataset of paired observations: `input[i]` is the feature of the
/// `i`-th sample and `output[i]` its label, both in micro-units.
pub struct DataSet {
    /// The input (feature) column.
    pub input: Vec<i64>,
    /// The output (label) column, index-aligned with the inputs.
    pub output: Vec<i64>,
    /// The number of samples.
    pub size: usize,
}

impl DataSet {
    /// The columns stay parallel and the count stays honest.
    pub open spec fn wf(&self) -> bool {
        self.input@.len() == self.size && self.output@.len() == self.size
    }

    /// The dataset as the sequence of its `(output, input)` pairs.
    pub open spec fn rows(&self) -> Seq<(i64, i64)> {
        Seq::new(self.size as nat, |i: int| (self.output@[i], self.input@[i]))
    }

    /// Builds a dataset from the lines of a source, keeping exactly the
    /// well-formed records in order. `None` stands for a source that
    /// could not be read and yields an empty dataset, not an error.
    pub fn new(lines: Option<Vec<String>>) -> (d: DataSet)
        ensures
            d.wf(),
            lines is None ==> d.rows() == Seq::<(i64, i64)>::empty(),
            lines matches Some(ls) ==> d.rows() == rows_of(
                ls@.map_values(|s: String| s@),
            ),
    {
        let ls = match lines {
            Some(ls) => ls,
            None => {
                let d = DataSet { input: Vec::new(), output: Vec::new(), size: 0 };
                proof {
                    assert(d.rows() =~= Seq::<(i64, i64)>::empty());
                }
                return d;
            },
        };
        let ghost ss = ls@.map_values(|s: String| s@);
        let mut input_vec: Vec<i64> = Vec::new();
        let mut output_vec: Vec<i64> = Vec::new();
        let mut j: usize = 0;
        proof {
            assert(Seq::new(0nat, |i: int| (output_vec@[i], input_vec@[i])) =~= rows_of(
                ss.subrange(0, 0),
            ));
        }
        while j < ls.len()
            invariant
                0 <= j <= ls@.len(),
                ss == ls@.map_values(|s: String| s@),
                input_vec@.len() == output_vec@.len(),
                Seq::new(input_vec@.len(), |i: int| (output_vec@[i], input_vec@[i])) == rows_of(
                    ss.subrange(0, j as int),
                ),
            decreases ls@.len() - j,
        {
            let parsed = parse_line(ls[j].as_str());
            proof {
                assert(ss.subrange(0, j + 1).drop_last() =~= ss.subrange(0, j as int));
                assert(ss.subrange(0, j + 1).last() == ss[j as int]);
                assert(ss[j as int] == ls@[j as int]@);
            }
            match parsed {
                Some(pair) => {
                    output_vec.push(pair.0);
                    input_vec.push(pair.1);
                    proof {
                        assert(Seq::new(
                            input_vec@.len(),
                            |i: int| (output_vec@[i], input_vec@[i]),
                        ) =~= rows_of(ss.subrange(0, j as int)).push(line_row(ss[j as int])));
                        assert(rows_of(ss.subrange(0, j + 1)) =~= rows_of(
                            ss.subrange(0, j as int),
                        ).push(line_row(ss[j as int])));
                    }
                },
                None => {
                    proof {
                        assert(rows_of(ss.subrange(0, j + 1)) =~= rows_of(
                            ss.subrange(0, j as int),
                        ));
                    }
                },
            }
            j += 1;
        }
        proof {
            assert(ss.subrange(0, ss.len() as int) =~= ss);
        }
        let size = input_vec.len();
        let d = DataSet { input: input_vec, output: output_vec, size };
        proof {
            assert(d.rows() =~= rows_of(ss));
        }
        d
    }

    /// Appends one sample.
    pub fn add_row(&mut self, input: i64, output: i64)
        requires
            old(self).wf(),
            old(self).size < usize::MAX,
        ensures
            final(self).wf(),
            final(self).rows() == old(self).rows().push((output, input)),
    {
        self.input.push(input);
        self.output.push(output);
        self.size += 1;
        proof {
            assert(final(self).rows() =~= old(self).rows().push((output, input)));
        }
    }

    /// The number of samples.
    pub fn size(&self) -> (n: usize)
        ensures
            n == self.size,
    {
        self.size
    }

    /// Replaces each column by its normalized form: every value is
    /// centred on the column's mean and scaled by the column's
    /// population standard deviation. Fails with `EmptyInput` on an
    /// empty dataset and with `NumericDegenerate` exactly when a column
    /// has zero spread or a value leaves the representable range; on
    /// any failure the dataset is unchanged.
    pub fn normalize(&mut self) -> (r: Result<(), Error>)
        requires
            old(self).wf(),
        ensures
            final(self).wf(),
            final(self).size == old(self).size,
            old(self).size == 0 ==> r == Err::<(), Error>(Error::EmptyInput) && *final(self)
                == *old(self),
            old(self).size >= 1 && col_ok(old(self).input@) && col_ok(old(self).output@) ==> r
                is Ok && final(self).input@ == normalized_col(old(self).input@)
                && final(self).output@ == normalized_col(old(self).output@),
            old(self).size >= 1 && !(col_ok(old(self).input@) && col_ok(old(self).output@)) ==> r
                == Err::<(), Error>(Error::NumericDegenerate) && *final(self) == *old(self),
    {
        if self.size == 0 {
            return Err(Error::EmptyInput);
        }
        let new_input = match normalize_column(&self.input) {
            Ok(w) => w,
            Err(e) => {
                return Err(e);
            },
        };
        let new_output = match normalize_column(&self.output) {
            Ok(w) => w,
            Err(e) => {
                return Err(e);
            },
        };
        self.input = new_input;
        self.output = new_output;
        Ok(())
    }
}

} // verus!
