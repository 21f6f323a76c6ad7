use clap_core::{rank, sync_run, FilterResult, MatchResult, SourceError, SourceItem};

fn items(texts: &[&str]) -> Vec<SourceItem> {
    texts.iter().map(|t| SourceItem::new(t.to_string())).collect()
}

fn texts(r: &[FilterResult]) -> Vec<String> {
    r.iter().map(|x| x.0.raw.clone()).collect()
}

#[test]
fn ranks_by_descending_score_then_source_order() {
    let src = items(&["alpha", "beta", "gamma", "delta"]);
    let matched: Vec<MatchResult> = vec![
        Some((5, vec![0])),
        None,
        Some((9, vec![1, 2])),
        Some((5, vec![3])),
    ];
    let r = rank(&src, &matched);
    assert_eq!(texts(&r), vec!["gamma", "alpha", "delta"]);
    assert_eq!(r[0].1, 9);
    assert_eq!(r[0].2, vec![1, 2]);
    assert_eq!(r[1].1, 5);
    assert_eq!(r[1].2, vec![0]);
    assert_eq!(r[2].1, 5);
    assert_eq!(r[2].2, vec![3]);
}

#[test]
fn scores_are_non_increasing() {
    let src = items(&["a", "b", "c", "d", "e", "f"]);
    let matched: Vec<MatchResult> = vec![
        Some((-3, vec![])),
        Some((i64::MAX, vec![0])),
        Some((0, vec![])),
        Some((i64::MIN, vec![])),
        None,
        Some((7, vec![])),
    ];
    let r = rank(&src, &matched);
    assert_eq!(texts(&r), vec!["b", "f", "c", "a", "d"]);
    for w in r.windows(2) {
        assert!(w[0].1 >= w[1].1);
    }
}

#[test]
fn unmatched_items_are_dropped() {
    let src = items(&["x", "y"]);
    let matched: Vec<MatchResult> = vec![None, None];
    assert!(rank(&src, &matched).is_empty());
    let r = rank(&items(&[]), &vec![]);
    assert!(r.is_empty());
}

#[test]
fn ranking_twice_gives_the_same_order() {
    let src = items(&["p", "q", "r", "s"]);
    let matched: Vec<MatchResult> = vec![
        Some((1, vec![0])),
        Some((1, vec![0])),
        Some((2, vec![0])),
        Some((1, vec![0])),
    ];
    let first = rank(&src, &matched);
    let second = rank(&src, &matched);
    assert_eq!(texts(&first), texts(&second));
    assert_eq!(texts(&first), vec!["r", "p", "q", "s"]);
}

#[test]
fn sync_run_propagates_source_errors() {
    let matched: Vec<MatchResult> = vec![Some((1, vec![0]))];
    let r = sync_run(&Err(SourceError::ReadError), &matched);
    assert!(matches!(r, Err(SourceError::ReadError)));
    let r = sync_run(&Err(SourceError::SpawnFailed), &vec![]);
    assert!(matches!(r, Err(SourceError::SpawnFailed)));
}

#[test]
fn sync_run_ranks_a_source() {
    let r = sync_run(&Ok(items(&["one", "two"])), &vec![Some((1, vec![0])), Some((4, vec![2]))]);
    let r = r.unwrap();
    assert_eq!(texts(&r), vec!["two", "one"]);
}

#[test]
fn ranking_takes_each_candidate_once() {
    let src = items(&["a", "b", "c", "d", "e"]);
    let matched: Vec<MatchResult> = vec![Some((2, vec![])), Some((2, vec![])), None, Some((3, vec![])), Some((2, vec![]))];
    let mut got = texts(&rank(&src, &matched));
    assert_eq!(got, vec!["d", "a", "b", "e"]);
    got.sort();
    got.dedup();
    assert_eq!(got.len(), 4);
}
