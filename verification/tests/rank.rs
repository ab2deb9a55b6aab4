use scrying_glass::rank::{select_top1, select_top_k};

#[test]
fn top_k_orders_by_key_then_index() {
    let scores = vec![Some(5), Some(9), Some(5), Some(1), Some(9)];
    assert_eq!(select_top_k(&scores, Some(0), 5), vec![1, 4, 0, 2, 3]);
    assert_eq!(select_top_k(&scores, Some(0), 2), vec![1, 4]);
    assert_eq!(select_top_k(&scores, Some(5), 10), vec![1, 4, 0, 2]);
    assert_eq!(select_top_k(&scores, Some(10), 10), Vec::<usize>::new());
    assert_eq!(select_top_k(&scores, Some(0), 0), Vec::<usize>::new());
}

#[test]
fn unordered_scores_and_thresholds_never_pass() {
    let scores = vec![None, Some(3), None, Some(7)];
    assert_eq!(select_top_k(&scores, Some(0), 4), vec![3, 1]);
    assert_eq!(select_top_k(&scores, None, 4), Vec::<usize>::new());
    assert_eq!(select_top1(&scores, None), None);
}

#[test]
fn shorter_selection_is_prefix_of_longer() {
    let scores: Vec<Option<u64>> = (0..40u64).map(|i| Some((i * 7919) % 13)).collect();
    let full = select_top_k(&scores, Some(3), scores.len());
    for k in 0..=scores.len() + 2 {
        let part = select_top_k(&scores, Some(3), k);
        assert_eq!(part.len(), k.min(full.len()));
        assert_eq!(&full[..part.len()], &part[..]);
    }
}

#[test]
fn top1_is_head_of_ranking() {
    let scores = vec![Some(2), Some(8), Some(8), Some(3)];
    assert_eq!(select_top1(&scores, Some(0)), Some(1));
    assert_eq!(select_top1(&scores, Some(9)), None);
    assert_eq!(select_top1(&Vec::new(), Some(0)), None);
}
