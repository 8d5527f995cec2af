use project_allocation::rckey::RcKey;
use project_allocation::solution::{
    lookup_project, lookup_staff, AllocatableProject, AllocatableStaff,
};

#[test]
fn last_place_is_taken_once() {
    let mut entry = AllocatableProject { project: RcKey::from(0), remaining: 1 };
    assert!(entry.take());
    assert_eq!(entry.remaining, 0);
    assert!(!entry.take());
    assert_eq!(entry.remaining, 0);
    assert_eq!(entry.project, RcKey::from(0));
}

#[test]
fn load_goes_down_by_one_for_each_take() {
    let mut entry = AllocatableStaff { staff: RcKey::from(4), remaining: 3 };
    assert!(entry.take());
    assert!(entry.take());
    assert_eq!(entry.remaining, 1);
    assert!(entry.take());
    assert!(!entry.take());
    assert_eq!(entry.remaining, 0);
    assert_eq!(entry.staff, RcKey::from(4));
}

#[test]
fn nothing_is_taken_from_an_empty_entry() {
    let mut entry = AllocatableProject { project: RcKey::from(2), remaining: 0 };
    assert!(!entry.take());
    assert_eq!(entry.remaining, 0);
}

#[test]
fn lookup_finds_the_entry_at_the_position_of_the_key() {
    let pool = vec![
        AllocatableProject { project: RcKey::from(0), remaining: 1 },
        AllocatableProject { project: RcKey::from(1), remaining: 0 },
    ];
    assert!(matches!(lookup_project(&pool, RcKey::from(0)), Ok(0)));
    assert!(matches!(lookup_project(&pool, RcKey::from(1)), Ok(1)));
    assert!(lookup_project(&pool, RcKey::from(2)).is_err());
    assert!(lookup_project(&vec![], RcKey::from(0)).is_err());
}

#[test]
fn lookup_fails_where_the_position_holds_another_key() {
    let pool = vec![AllocatableStaff { staff: RcKey::from(7), remaining: 1 }];
    assert!(lookup_staff(&pool, RcKey::from(0)).is_err());
    assert!(lookup_staff(&pool, RcKey::from(7)).is_err());
    let pool = vec![AllocatableStaff { staff: RcKey::from(0), remaining: 1 }];
    assert!(matches!(lookup_staff(&pool, RcKey::from(0)), Ok(0)));
}
