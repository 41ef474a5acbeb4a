use cpudash::Corpus;
use cpudash::default_fragment;
use cpudash::fold_index;
use cpudash::make_snapshot;
use cpudash::select_with_draws;
use cpudash::select_fragment;
use cpudash::trimmed_len;

fn scenario_corpus() -> Corpus {
    let text: Vec<u8> = b"The abyss stares.back.ok.fine thought here.void".to_vec();
    Corpus::from_text(&text)
}

#[test]
fn corpus_splits_on_dots() {
    let corpus = scenario_corpus();
    assert_eq!(corpus.len(), 5);
    assert_eq!(corpus.fragment(0), &b"The abyss stares".to_vec());
    assert_eq!(corpus.fragment(1), &b"back".to_vec());
    assert_eq!(corpus.fragment(2), &b"ok".to_vec());
    assert_eq!(corpus.fragment(3), &b"fine thought here".to_vec());
    assert_eq!(corpus.fragment(4), &b"void".to_vec());
}

#[test]
fn corpus_of_empty_text_has_one_empty_fragment() {
    let corpus = Corpus::from_text(&Vec::new());
    assert_eq!(corpus.len(), 1);
    assert_eq!(corpus.fragment(0), &Vec::new());
}

#[test]
fn corpus_of_single_dot_has_two_empty_fragments() {
    let corpus = Corpus::from_text(&b".".to_vec());
    assert_eq!(corpus.len(), 2);
    assert_eq!(corpus.fragment(0), &Vec::new());
    assert_eq!(corpus.fragment(1), &Vec::new());
}

#[test]
fn fold_keeps_small_index() {
    assert_eq!(fold_index(4, 5), 4);
    assert_eq!(fold_index(0, 1), 0);
}

#[test]
fn fold_divides_by_ten_until_in_range() {
    // 19 -> 1 for a corpus of five fragments
    assert_eq!(fold_index(19, 5), 1);
    // 123456 -> 12345 -> 1234 -> 123 -> 12 -> 1
    assert_eq!(fold_index(123456, 5), 1);
    assert_eq!(fold_index(987, 10), 9);
}

#[test]
fn fold_handles_the_largest_input() {
    assert_eq!(fold_index(u64::MAX, 5), 1);
    assert_eq!(fold_index(u64::MAX, 1), 0);
}

#[test]
fn deterministic_selection_is_reproducible() {
    // same scaled value, same corpus, same draws: same result, every time
    let corpus = scenario_corpus();
    for scaled in [0u64, 2, 19, 123456] {
        let a = fold_index(scaled, corpus.len());
        let b = fold_index(scaled, corpus.len());
        assert_eq!(a, b);
        let x = select_with_draws(&corpus, a, &vec![3, 7]);
        let y = select_with_draws(&corpus, b, &vec![3, 7]);
        assert_eq!(x, y);
    }
}

#[test]
fn trimmed_length_discounts_whitespace() {
    assert_eq!(trimmed_len(&b"back".to_vec()), 4);
    assert_eq!(trimmed_len(&b"  ok \n".to_vec()), 2);
    assert_eq!(trimmed_len(&b"   ".to_vec()), 0);
    assert_eq!(trimmed_len(&Vec::new()), 0);
}

#[test]
fn scaled_nineteen_selects_back_without_fallback() {
    // u = 0.0019 at four significant decimal digits gives scaled = 19,
    // which folds to index 1; "back" is long enough, so no fallback runs.
    let corpus = scenario_corpus();
    let idx = fold_index(19, corpus.len());
    assert_eq!(idx, 1);
    let frag = select_with_draws(&corpus, idx, &Vec::new());
    assert_eq!(frag, b"back".to_vec());
}

#[test]
fn scaled_two_triggers_fallback_on_short_fragment() {
    // u = 0.0002 gives scaled = 2; "ok" is too short, so the draw moves
    // the index to a neighbour that stays inside the corpus bounds.
    let corpus = scenario_corpus();
    let idx = fold_index(2, corpus.len());
    assert_eq!(idx, 2);
    // a draw of 1 steps down to index 1
    assert_eq!(select_with_draws(&corpus, idx, &vec![1]), b"back".to_vec());
    // a draw of 5 would underflow downwards and overshoot upwards, so the
    // index clamps to the last fragment
    assert_eq!(select_with_draws(&corpus, idx, &vec![5]), b"void".to_vec());
    // with no draws left the fixed default fragment is returned
    assert_eq!(select_with_draws(&corpus, idx, &Vec::new()), default_fragment());
}

#[test]
fn random_fallback_stays_within_corpus_or_default() {
    let corpus = scenario_corpus();
    for _ in 0..50 {
        let frag = select_fragment(&corpus, 2);
        let in_corpus = (0..corpus.len()).any(|i| corpus.fragment(i) == &frag);
        assert!(in_corpus || frag == default_fragment());
        assert!(trimmed_len(&frag) >= 3 || frag == default_fragment());
    }
}

#[test]
fn snapshot_pairs_fragments_with_utilizations() {
    let corpus = scenario_corpus();
    let snap = make_snapshot(&corpus, vec![19, 40]);
    assert_eq!(snap.len(), 2);
    assert_eq!(snap.utilization(0), 19);
    assert_eq!(snap.utilization(1), 40);
    // 19 folds to 1 ("back"), 40 folds to 4 ("void"); both are long enough
    assert_eq!(snap.fragment(0), &b"back".to_vec());
    assert_eq!(snap.fragment(1), &b"void".to_vec());
}

#[test]
fn snapshot_of_no_cpus_is_empty() {
    let corpus = scenario_corpus();
    let snap = make_snapshot(&corpus, Vec::new());
    assert_eq!(snap.len(), 0);
}
