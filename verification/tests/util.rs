use cctag::util::EpochSet;
use cctag::vote::linking::VisitedMap;
use cctag::timing::StageTimer;
use std::time::Duration;

#[test]
fn epoch_set_membership() {
    let mut s = EpochSet::new(4);
    // before the first epoch every index is a member
    assert!(s.contains(2));
    s.begin(4);
    for i in 0..4 {
        assert!(!s.contains(i));
    }
    s.insert(1);
    assert!(s.contains(1));
    assert!(!s.contains(0));
    s.remove(1);
    assert!(!s.contains(1));
    s.insert(3);
    s.begin(2);
    assert!(!s.contains(3));
    s.begin(8);
    s.insert(7);
    assert!(s.contains(7));
}

#[test]
fn epoch_set_many_epochs() {
    let mut s = EpochSet::new(3);
    for k in 0..1000 {
        s.begin(3);
        assert!(!s.contains(k % 3));
        s.insert(k % 3);
        assert!(s.contains(k % 3));
    }
}

#[test]
fn visited_map() {
    let mut m = VisitedMap::new(4, 3);
    assert!(m.contains(3, 2));
    m.begin();
    assert!(!m.contains(3, 2));
    m.insert(3, 2);
    assert!(m.contains(3, 2));
    assert!(!m.contains(2, 2));
    m.ensure(4, 3);
    assert!(m.contains(3, 2));
    m.ensure(5, 3);
    m.begin();
    assert!(!m.contains(4, 2));
    m.insert(4, 2);
    assert!(m.contains(4, 2));
}

#[test]
fn stage_timer() {
    let mut t = StageTimer::new();
    t.record("pyramid", Duration::from_millis(3));
    t.count("L0/seeds", 12);
    t.record("vote", Duration::from_micros(5));
    assert_eq!(t.durations.len(), 2);
    assert_eq!(t.durations[0], ("pyramid".to_string(), Duration::from_millis(3)));
    assert_eq!(t.durations[1].0, "vote");
    assert_eq!(t.counters, vec![("L0/seeds".to_string(), 12)]);
    t.clear();
    assert!(t.durations.is_empty() && t.counters.is_empty());
}

#[test]
fn clones_keep_members() {
    let mut s = EpochSet::new(4);
    s.begin(4);
    s.insert(2);
    let c = s.clone();
    assert!(c.contains(2) && !c.contains(1));
    let mut m = VisitedMap::new(3, 2);
    m.begin();
    m.insert(1, 1);
    let n = m.clone();
    assert!(n.contains(1, 1) && !n.contains(0, 1));
}
