use h5inspect::analysis::{analyze, AnalysisResult, NumericArray};
use h5inspect::cache::{AnalysisCache, RequestState};
use h5inspect::session::{analysis_for, Navigator};
use h5inspect::tree::{Hdf5Object, TreeNode};

#[test]
fn repeated_requests_start_one_computation() {
    let mut cache: AnalysisCache<u32> = AnalysisCache::new();
    let outcomes: Vec<RequestState> = (0..10).map(|_| cache.request(5)).collect();
    let started = outcomes
        .iter()
        .filter(|s| **s == RequestState::Started)
        .count();
    assert_eq!(started, 1);
    assert_eq!(outcomes[0], RequestState::Started);
    assert!(outcomes[1..].iter().all(|s| *s == RequestState::Pending));
    assert_eq!(cache.num_pending(), 1);
    assert_eq!(cache.ready_result(5), None);
}

#[test]
fn ready_results_are_stable() {
    let mut cache: AnalysisCache<u32> = AnalysisCache::new();
    assert_eq!(cache.request(1), RequestState::Started);
    cache.complete(1, 99);
    assert_eq!(cache.num_pending(), 0);
    for _ in 0..5 {
        assert_eq!(cache.request(1), RequestState::Ready);
        assert_eq!(cache.ready_result(1), Some(&99));
    }
    cache.complete(1, 7);
    assert_eq!(cache.ready_result(1), Some(&99));
}

#[test]
fn results_for_unrequested_ids_are_ignored() {
    let mut cache: AnalysisCache<u32> = AnalysisCache::new();
    cache.complete(3, 1);
    assert_eq!(cache.ready_result(3), None);
    assert_eq!(cache.request(3), RequestState::Started);
}

#[test]
fn analysis_for_end_to_end() {
    let tree = TreeNode::<i64>::new(
        1,
        "root",
        vec![TreeNode::new(2, "data", vec![]).set_hdf5_object(Hdf5Object::Dataset)],
    )
    .set_hdf5_object(Hdf5Object::Group);
    let mut cache: AnalysisCache<AnalysisResult> = AnalysisCache::new();
    assert_eq!(
        analysis_for(&tree, &mut cache, &[1, 2]),
        Some((2, RequestState::Started))
    );
    assert_eq!(
        analysis_for(&tree, &mut cache, &[1, 2]),
        Some((2, RequestState::Pending))
    );
    let result = analyze(&NumericArray::I32(vec![10, 20, 30]));
    cache.complete(2, result);
    assert_eq!(
        analysis_for(&tree, &mut cache, &[1, 2]),
        Some((2, RequestState::Ready))
    );
    match cache.ready_result(2).unwrap() {
        AnalysisResult::Stats(pairs, hist) => {
            assert!(pairs.contains(&("mean".to_string(), "20".to_string())));
            assert!(hist.is_some());
        }
        _ => panic!("expected statistics"),
    }
    assert_eq!(analysis_for(&tree, &mut cache, &[1]), None);
    assert_eq!(analysis_for(&tree, &mut cache, &[1, 9]), None);
}

#[test]
fn navigator_refilters_and_reconciles() {
    let tree = TreeNode::<i64>::new(
        0,
        "root",
        vec![
            TreeNode::new(1, "alpha", vec![]),
            TreeNode::new(2, "beta", vec![]),
        ],
    );
    let mut nav: Navigator<i64> = Navigator::new();
    assert!(nav.current_view().is_none());
    let opened = nav.set_tree(tree);
    assert_eq!(nav.selected_path(), &vec![0]);
    assert!(opened.is_empty());
    nav.select(vec![0, 1]);
    let opened = nav.set_query("beta");
    assert_eq!(nav.selected_path(), &vec![0, 2]);
    assert_eq!(opened, vec![vec![0]]);
    assert_eq!(nav.current_view().unwrap().children().len(), 1);
    let opened = nav.set_query("zzz");
    assert!(nav.current_view().is_none());
    assert!(nav.selected_path().is_empty());
    assert!(opened.is_empty());
}
