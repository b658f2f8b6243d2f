use h5inspect::analysis::{
    analysis_plan, analyze, AnalysisPlan, AnalysisResult, ElementKind, NumericArray,
    BIN_CENTER_DENOM, N_BINS,
};

fn stats(r: &AnalysisResult) -> (Vec<(String, String)>, Option<Vec<(i128, u64)>>) {
    match r {
        AnalysisResult::Stats(pairs, hist) => (
            pairs.clone(),
            hist.as_ref()
                .map(|h| h.iter().map(|b| (b.center_numer, b.count)).collect()),
        ),
        _ => panic!("expected statistics"),
    }
}

fn value<'a>(pairs: &'a [(String, String)], label: &str) -> &'a str {
    &pairs.iter().find(|(l, _)| l == label).unwrap().1
}

#[test]
fn mean_and_std_of_one_to_five() {
    let r = analyze(&NumericArray::I32(vec![1, 2, 3, 4, 5]));
    let (pairs, hist) = stats(&r);
    let labels: Vec<&str> = pairs.iter().map(|(l, _)| l.as_str()).collect();
    assert_eq!(labels, vec!["count", "mean", "NaN count", "std"]);
    assert_eq!(value(&pairs, "count"), "5");
    assert_eq!(value(&pairs, "mean"), "3");
    assert_eq!(value(&pairs, "NaN count"), "0");
    assert_eq!(value(&pairs, "std"), "1.581138");
    let std: f64 = value(&pairs, "std").parse().unwrap();
    assert!((std - 1.58).abs() < 0.01);
    let hist = hist.unwrap();
    assert_eq!(hist.len(), N_BINS);
    assert_eq!(hist[0], (62, 1));
    assert_eq!(hist[7].1, 1);
    assert_eq!(hist[14].1, 1);
    assert_eq!(hist[21].1, 1);
    assert_eq!(hist[29], (58 + 4 * 59, 1));
}

#[test]
fn histogram_counts_every_element() {
    let data: Vec<i64> = (0..1000).map(|i| (i * 7919) % 1013 - 500).collect();
    let r = analyze(&NumericArray::I64(data.clone()));
    let (_, hist) = stats(&r);
    let hist = hist.unwrap();
    let total: u64 = hist.iter().map(|(_, c)| c).sum();
    assert_eq!(total, data.len() as u64);
}

#[test]
fn bin_centres_span_the_range() {
    let r = analyze(&NumericArray::U8(vec![0, 29]));
    let (_, hist) = stats(&r);
    let hist = hist.unwrap();
    assert_eq!(BIN_CENTER_DENOM, 58);
    assert_eq!(hist[0], (29, 1));
    assert_eq!(hist[29], (29 * 59, 1));
    for (i, (_, c)) in hist.iter().enumerate() {
        if i != 0 && i != 29 {
            assert_eq!(*c, 0);
        }
    }
}

#[test]
fn mean_of_negative_values() {
    let r = analyze(&NumericArray::I8(vec![-1, -2]));
    let (pairs, _) = stats(&r);
    assert_eq!(value(&pairs, "mean"), "-1.5");
    assert_eq!(value(&pairs, "std"), "0.707106");
}

#[test]
fn booleans_count_as_zero_and_one() {
    let r = analyze(&NumericArray::Bool(vec![true, false, true, true]));
    let (pairs, _) = stats(&r);
    assert_eq!(value(&pairs, "mean"), "0.75");
}

#[test]
fn equal_values_have_no_histogram() {
    let r = analyze(&NumericArray::U16(vec![7, 7, 7]));
    let (pairs, hist) = stats(&r);
    assert_eq!(value(&pairs, "mean"), "7");
    assert_eq!(value(&pairs, "std"), "0");
    assert!(hist.is_none());
}

#[test]
fn one_element_has_no_std() {
    let r = analyze(&NumericArray::U32(vec![42]));
    let (pairs, hist) = stats(&r);
    assert_eq!(value(&pairs, "std"), "NaN");
    assert!(hist.is_none());
}

#[test]
fn huge_spread_is_out_of_exact_range() {
    let r = analyze(&NumericArray::U64(vec![0, u64::MAX]));
    let (pairs, _) = stats(&r);
    assert_eq!(value(&pairs, "std"), "n/a");
    assert_eq!(value(&pairs, "mean"), "9223372036854775807.5");
}

#[test]
fn empty_array_is_not_available() {
    assert_eq!(analyze(&NumericArray::I16(vec![])), AnalysisResult::NotAvailable);
}

#[test]
fn plan_follows_rank_size_and_type() {
    assert_eq!(analysis_plan(1, 3, ElementKind::I32), AnalysisPlan::Exact);
    assert_eq!(analysis_plan(1, 3, ElementKind::F64), AnalysisPlan::Floating);
    assert_eq!(analysis_plan(2, 9, ElementKind::I32), AnalysisPlan::NotAvailable);
    assert_eq!(analysis_plan(1, 0, ElementKind::U8), AnalysisPlan::NotAvailable);
    assert_eq!(analysis_plan(1, 4, ElementKind::Other), AnalysisPlan::NotAvailable);
}
