//! Sets of priorities.

use emcyphal::priority::{Priority, PrioritySet};

#[test]
fn test_priority_set() {
    let mut set = PrioritySet::none();
    set.insert(Priority::Fast);
    set.insert(Priority::Nominal);

    assert_eq!(set.first(), Some(Priority::Fast));
    assert_eq!(set.last(), Some(Priority::Nominal));
}

#[test]
fn test_priority_set_ge() {
    let set = PrioritySet::new_ge(Priority::Optional);
    assert!(!set.contains(Priority::Slow));
    assert!(set.contains(Priority::Optional));

    let set = PrioritySet::new_ge(Priority::Exceptional);
    assert_eq!(set, PrioritySet::all());
}

#[test]
fn test_priority_set_le() {
    let set = PrioritySet::new_le(Priority::Optional);
    assert_eq!(set, PrioritySet::all());

    let set = PrioritySet::new_le(Priority::Exceptional);
    assert!(set.contains(Priority::Exceptional));
    assert!(!set.contains(Priority::Immediate));
}

#[test]
fn test_priority_set_gt() {
    let set = PrioritySet::new_gt(Priority::Optional);
    assert_eq!(set, PrioritySet::none());

    let set = PrioritySet::new_gt(Priority::Exceptional);
    assert!(!set.contains(Priority::Exceptional));
    assert!(set.contains(Priority::Immediate));
}

#[test]
fn test_priority_set_lt() {
    let set = PrioritySet::new_lt(Priority::Optional);
    assert!(set.contains(Priority::Slow));
    assert!(!set.contains(Priority::Optional));

    let set = PrioritySet::new_lt(Priority::Exceptional);
    assert_eq!(set, PrioritySet::none());
}
