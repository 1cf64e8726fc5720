use lineal_regression::dataset::DataSet;
use lineal_regression::gradient::{calculate_cost, gradient_descent};
use lineal_regression::model::{LinealRegression, LinealRegressionOptions, Model};
use lineal_regression::parse::parse_number;
use lineal_regression::stats::Statistics;
use lineal_regression::Error;

const S: i64 = 1_000_000;

fn line_dataset() -> DataSet {
    // y = 2 x for x in 1..=5
    DataSet {
        input: vec![1 * S, 2 * S, 3 * S, 4 * S, 5 * S],
        output: vec![2 * S, 4 * S, 6 * S, 8 * S, 10 * S],
        size: 5,
    }
}

#[test]
fn parse_reads_plain_decimals() {
    assert_eq!(parse_number("4.0"), Some(4 * S));
    assert_eq!(parse_number("2"), Some(2 * S));
    assert_eq!(parse_number("-1.5"), Some(-1_500_000));
    assert_eq!(parse_number("+0.25"), Some(250_000));
    assert_eq!(parse_number("0.000001"), Some(1));
    assert_eq!(parse_number("123456789012.999999"), Some(123_456_789_012_999_999));
}

#[test]
fn parse_rejects_malformed_fields() {
    assert_eq!(parse_number(""), None);
    assert_eq!(parse_number("x"), None);
    assert_eq!(parse_number("-"), None);
    assert_eq!(parse_number("."), None);
    assert_eq!(parse_number("1.2.3"), None);
    assert_eq!(parse_number("1,2"), None);
    assert_eq!(parse_number(" 1"), None);
    // more than twelve integer digits or six fraction digits
    assert_eq!(parse_number("1234567890123"), None);
    assert_eq!(parse_number("0.1234567"), None);
}

#[test]
fn dataset_keeps_well_formed_records_only() {
    let lines = vec!["4.0,2.0".to_string(), "x,y".to_string()];
    let d = DataSet::new(Some(lines));
    assert_eq!(d.size(), 1);
    assert_eq!(d.output[0], 4 * S);
    assert_eq!(d.input[0], 2 * S);
}

#[test]
fn dataset_from_unreadable_source_is_empty() {
    let d = DataSet::new(None);
    assert_eq!(d.size(), 0);
}

#[test]
fn dataset_record_details() {
    let lines = vec![
        "1,2,3".to_string(),   // third field ignored
        "7".to_string(),       // no comma: skipped
        "3.5,".to_string(),    // empty second field: skipped
        ",1".to_string(),      // empty first field: skipped
        "-2.5,+4".to_string(), // signs are fine
    ];
    let d = DataSet::new(Some(lines));
    assert_eq!(d.size(), 2);
    assert_eq!(d.output, vec![1 * S, -2_500_000]);
    assert_eq!(d.input, vec![2 * S, 4 * S]);
}

#[test]
fn add_row_appends_one_sample() {
    let mut d = DataSet::new(None);
    d.add_row(2_500_000, 4_100_000);
    assert_eq!(d.size(), 1);
    assert_eq!(d.input[0], 2_500_000);
    assert_eq!(d.output[0], 4_100_000);
}

#[test]
fn normalize_centres_and_scales() {
    let mut d = line_dataset();
    assert!(d.normalize().is_ok());
    assert_eq!(d.input, vec![-1_414_214, -707_107, 0, 707_107, 1_414_214]);
    assert_eq!(d.output, vec![-1_414_213, -707_106, 0, 707_106, 1_414_213]);
    // after normalization the mean is zero and the standard deviation one
    let si = Statistics::new(&d.input).unwrap();
    assert_eq!(si.mean, 0);
    assert!((si.std_dev - S).abs() <= 10);
    let so = Statistics::new(&d.output).unwrap();
    assert_eq!(so.mean, 0);
    assert!((so.std_dev - S).abs() <= 10);
}

#[test]
fn normalize_empty_dataset_is_empty_input() {
    let mut d = DataSet::new(None);
    assert_eq!(d.normalize(), Err(Error::EmptyInput));
}

#[test]
fn normalize_constant_column_is_degenerate() {
    let mut d = DataSet { input: vec![3 * S, 3 * S], output: vec![1 * S, 2 * S], size: 2 };
    assert_eq!(d.normalize(), Err(Error::NumericDegenerate));
    // and the dataset is unchanged
    assert_eq!(d.input, vec![3 * S, 3 * S]);
    assert_eq!(d.output, vec![1 * S, 2 * S]);
}

#[test]
fn cost_of_exact_fit_is_zero() {
    let d = line_dataset();
    assert_eq!(calculate_cost(0, 2 * S, &d), Ok(0));
}

#[test]
fn cost_of_zero_model_is_exact() {
    let d = line_dataset();
    // residuals are -y: sum of squares 220e12, over 2 * 5 gives 22.0
    assert_eq!(calculate_cost(0, 0, &d), Ok(22 * S));
}

#[test]
fn cost_is_nonnegative_on_samples() {
    let d = line_dataset();
    for &(b, w) in &[(0, 0), (5 * S, -3 * S), (-7 * S, 10 * S), (123_456, -654_321)] {
        let c = calculate_cost(b, w, &d).unwrap();
        assert!(c >= 0);
    }
}

#[test]
fn cost_of_empty_dataset_is_empty_input() {
    let d = DataSet::new(None);
    assert_eq!(calculate_cost(0, 0, &d), Err(Error::EmptyInput));
}

#[test]
fn gradient_descent_zero_rate_keeps_parameters() {
    let d = line_dataset();
    assert_eq!(gradient_descent(0, 0, 5 * S, -3 * S, &d), Ok((5 * S, -3 * S)));
    assert_eq!(gradient_descent(100, 0, 5 * S, -3 * S, &d), Ok((5 * S, -3 * S)));
    assert_eq!(gradient_descent(7, 0, 123, 456, &d), Ok((123, 456)));
}

#[test]
fn gradient_descent_empty_dataset_is_empty_input() {
    let d = DataSet::new(None);
    assert_eq!(gradient_descent(10, 10_000, 0, 0, &d), Err(Error::EmptyInput));
}

#[test]
fn gradient_descent_converges_on_convex_line() {
    let d = line_dataset();
    let c0 = calculate_cost(0, 0, &d).unwrap();
    let (b, w) = gradient_descent(100, 10_000, 0, 0, &d).unwrap();
    assert_eq!((b, w), (434_439, 1_879_657));
    let c100 = calculate_cost(b, w, &d).unwrap();
    assert_eq!(c100, 17_176);
    // the cost fell strictly, and the weight is near 2.0 (within 0.13
    // for one hundred iterations at this rate)
    assert!(c100 < c0);
    assert!((w - 2 * S).abs() <= 130_000);
}

#[test]
fn statistics_of_seven_values() {
    let data = vec![1 * S, 2 * S, 2 * S, 3 * S, 3 * S, 3 * S, 4 * S];
    let st = Statistics::new(&data).unwrap();
    assert_eq!(st.mode, 3 * S);
    assert_eq!(st.median, 3 * S);
    assert_eq!(st.mean, 2_571_428); // 18 / 7 = 2.571428...
    assert_eq!(st.min, 1 * S);
    assert_eq!(st.max, 4 * S);
    assert_eq!(st.sum, 18 * S as i128);
    assert_eq!(st.count, 7);
    assert_eq!(st.variance, 816_326);
    assert_eq!(st.std_dev, 903_507);
    assert_eq!(st.std_err, 341_493);
}

#[test]
fn statistics_median_of_odd_unsorted() {
    let data = vec![1 * S, 3 * S, 2 * S, 5 * S, 4 * S];
    let st = Statistics::new(&data).unwrap();
    assert_eq!(st.median, 3 * S);
}

#[test]
fn statistics_median_of_even_count() {
    let data = vec![4 * S, 1 * S, 3 * S, 2 * S];
    let st = Statistics::new(&data).unwrap();
    assert_eq!(st.median, 2_500_000);
}

#[test]
fn statistics_mode_tie_takes_first_run() {
    // two runs of equal length: the smaller value wins
    let data = vec![2 * S, 1 * S, 2 * S, 1 * S];
    let st = Statistics::new(&data).unwrap();
    assert_eq!(st.mode, 1 * S);
}

#[test]
fn statistics_of_empty_sample_is_empty_input() {
    let data: Vec<i64> = vec![];
    assert_eq!(Statistics::new(&data).err(), Some(Error::EmptyInput));
}

#[test]
fn statistics_extreme_values_are_degenerate() {
    // deviations from the mean square beyond any representable sum
    let data = vec![i64::MIN, i64::MAX, i64::MAX];
    assert_eq!(Statistics::new(&data).err(), Some(Error::NumericDegenerate));
}

#[test]
fn model_fits_and_predicts() {
    let d = line_dataset();
    let options = LinealRegressionOptions { epochs: 100, learning_rate: 10_000, normalize: false };
    let mut model = LinealRegression::new(d, options);
    assert_eq!(model.b, 0);
    assert_eq!(model.w, 0);
    assert!(model.fit().is_ok());
    assert_eq!((model.b, model.w), (434_439, 1_879_657));
    assert_eq!(model.cost, 17_176);
    let p = model.predict(6 * S).unwrap();
    // near 12.0: the line is close to y = 2 x
    assert_eq!(p, 11_712_381);
    assert!((p - 12 * S).abs() <= 400_000);
}

#[test]
fn model_fit_normalizes_when_asked() {
    let d = line_dataset();
    let options = LinealRegressionOptions { epochs: 100, learning_rate: 10_000, normalize: true };
    let mut model = LinealRegression::new(d, options);
    assert!(model.fit().is_ok());
    // the training data is now normalized
    assert_eq!(model.training_data.input[2], 0);
    assert_eq!(model.training_data.output[2], 0);
    // on data normalized to equal columns the slope heads for 1.0
    assert_eq!((model.b, model.w), (0, 633_937));
}

#[test]
fn model_fit_empty_dataset_is_empty_input() {
    let d = DataSet::new(None);
    let options = LinealRegressionOptions { epochs: 10, learning_rate: 10_000, normalize: false };
    let mut model = LinealRegression::new(d, options);
    assert_eq!(model.fit(), Err(Error::EmptyInput));
}

#[test]
fn model_fit_constant_column_is_degenerate() {
    let d = DataSet { input: vec![5 * S, 5 * S], output: vec![1 * S, 2 * S], size: 2 };
    let options = LinealRegressionOptions { epochs: 10, learning_rate: 10_000, normalize: true };
    let mut model = LinealRegression::new(d, options);
    assert_eq!(model.fit(), Err(Error::NumericDegenerate));
}

#[test]
fn model_predict_overflow_is_degenerate() {
    let d = line_dataset();
    let options = LinealRegressionOptions { epochs: 0, learning_rate: 0, normalize: false };
    let mut model = LinealRegression::new(d, options);
    model.w = i64::MAX;
    assert_eq!(model.predict(i64::MAX), Err(Error::NumericDegenerate));
}

#[test]
fn diverging_learning_rate_is_degenerate() {
    // a huge learning rate makes the parameters blow up past the
    // representable range, the analogue of diverging to infinity
    let d = line_dataset();
    let r = gradient_descent(1000, 1_000_000_000_000, 0, 0, &d);
    assert_eq!(r, Err(Error::NumericDegenerate));
}
