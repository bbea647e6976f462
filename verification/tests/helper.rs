use rtimelog::helper::TimelogHelper;
use rtimelog::store::Timelog;

#[test]
fn test_pool_dedup() {
    let mut h = TimelogHelper::new();
    assert_eq!(h.len(), 0);
    h.add("rtimelog: code".to_string());
    h.add("rtimelog: code".to_string());
    assert_eq!(h.len(), 1);
}

#[test]
fn test_complete_subproject_prefix() {
    let mut h = TimelogHelper::new();
    h.add("rtimelog: code".to_string());
    h.add("rtimelog: code".to_string());
    // line has no ':' yet, so the active separator is ':' and the
    // suggestion is the trimmed part before it, not the full label
    let (start, candidates) = h.complete("rtimelog", "rtimelog".len());
    assert_eq!(start, 0);
    assert_eq!(candidates, vec!["rtimelog".to_string()]);
}

#[test]
fn test_complete_not_at_end_of_line() {
    let mut h = TimelogHelper::new();
    h.add("rtimelog: code".to_string());
    let (start, candidates) = h.complete("rtimelog", 3);
    assert_eq!(start, 3);
    assert_eq!(candidates.len(), 0);

    // a cursor past the end of the line is not "at the end" either
    let (start, candidates) = h.complete("rtimelog", 9);
    assert_eq!(start, 9);
    assert_eq!(candidates.len(), 0);

    let (start, candidates) = h.complete("", 0);
    assert_eq!(start, 0);
    assert_eq!(candidates.len(), 0);
}

#[test]
fn test_complete_subtask_separator() {
    let mut h = TimelogHelper::new();
    h.add("proj: fix -- review".to_string());
    h.add("proj: fix -- write".to_string());
    h.add("other: thing".to_string());
    // the line already has ':', so the active separator is "--"
    let (start, candidates) = h.complete("proj: fix", "proj: fix".len());
    assert_eq!(start, 0);
    assert_eq!(candidates, vec!["proj: fix".to_string()]);
}

#[test]
fn test_complete_no_separator_left() {
    let mut h = TimelogHelper::new();
    h.add("proj: fix -- review now".to_string());
    // the line has both ':' and "--": full-label completion only
    let (start, candidates) = h.complete("proj: fix -- rev", "proj: fix -- rev".len());
    assert_eq!(start, 0);
    assert_eq!(candidates, vec!["proj: fix -- review now".to_string()]);
}

#[test]
fn test_complete_full_label_when_candidate_lacks_separator() {
    let mut h = TimelogHelper::new();
    h.add("email".to_string());
    h.add("evening walk".to_string());
    let (start, candidates) = h.complete("e", 1);
    assert_eq!(start, 0);
    assert_eq!(
        candidates,
        vec!["email".to_string(), "evening walk".to_string()]
    );
}

#[test]
fn test_from_store_snapshot() {
    let tl = Timelog::new_from_string(
        "2022-06-10 12:05: rtimelog: code\n2022-06-10 12:30: **lunch\n2022-06-10 14:00: rtimelog: code\n",
    )
    .unwrap();
    let h = TimelogHelper::from_store(&tl);
    // "rtimelog: code" appears twice in the log but once in the pool
    assert_eq!(h.len(), 2);
    let (start, candidates) = h.complete("rtimelog", "rtimelog".len());
    assert_eq!(start, 0);
    assert_eq!(candidates, vec!["rtimelog".to_string()]);

    // the snapshot does not follow the store
    let mut tl = tl;
    tl.add("new thing".to_string());
    assert_eq!(h.len(), 2);
}
