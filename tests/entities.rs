use schedule_hypergraph::calendar::Date;
use schedule_hypergraph::calendar::DateTime;
use schedule_hypergraph::calendar::Period;
use schedule_hypergraph::calendar::TimeOfDay;
use schedule_hypergraph::schedule_graph::Skill;
use schedule_hypergraph::technician::Technician;
use schedule_hypergraph::work_order::Activity;
use schedule_hypergraph::work_order::WorkOrder;
use schedule_hypergraph::work_order::WorkOrderError;

fn day(y: i32, m: u32, d: u32) -> Date {
    Date::from_ymd_opt(y, m, d).unwrap()
}

#[test]
fn day_numbers_count_from_the_common_era() {
    assert_eq!(day(1, 1, 1).days_from_ce(), 1);
    assert_eq!(day(0, 1, 1).days_from_ce(), -365);
    assert_eq!(day(1970, 1, 1).days_from_ce(), 719163);
    assert_eq!(day(2025, 1, 13).days_from_ce(), 739264);
    assert_eq!(day(2024, 3, 1).days_from_ce() - day(2024, 2, 28).days_from_ce(), 2);
    assert_eq!(day(2025, 3, 1).days_from_ce() - day(2025, 2, 28).days_from_ce(), 1);
}

#[test]
fn invalid_dates_are_refused() {
    assert!(Date::from_ymd_opt(2025, 2, 29).is_none());
    assert!(Date::from_ymd_opt(2024, 2, 29).is_some());
    assert!(Date::from_ymd_opt(1900, 2, 29).is_none());
    assert!(Date::from_ymd_opt(2000, 2, 29).is_some());
    assert!(Date::from_ymd_opt(2025, 13, 1).is_none());
    assert!(Date::from_ymd_opt(2025, 4, 31).is_none());
    assert!(Date::from_ymd_opt(2025, 1, 0).is_none());
    assert!(Date::from_ymd_opt(262143, 1, 1).is_none());
    assert!(Date::from_ymd_opt(262142, 12, 31).is_some());
}

#[test]
fn adding_days() {
    assert_eq!(day(2025, 1, 13).checked_add_days(13), Some(day(2025, 1, 26)));
    assert_eq!(day(2024, 12, 31).checked_add_days(1), Some(day(2025, 1, 1)));
    assert_eq!(Date::from_days_from_ce(i32::MAX).checked_add_days(1), None);
}

#[test]
fn times_of_day() {
    assert_eq!(TimeOfDay::from_hms_opt(8, 30, 15).unwrap().num_seconds_from_midnight(), 30615);
    assert_eq!(TimeOfDay::from_hms_opt(0, 0, 0).unwrap().num_seconds_from_midnight(), 0);
    assert!(TimeOfDay::from_hms_opt(24, 0, 0).is_none());
    assert!(TimeOfDay::from_hms_opt(23, 60, 0).is_none());
    assert!(TimeOfDay::from_hms_opt(23, 59, 60).is_none());
    let t = TimeOfDay::from_hms_opt(7, 0, 0).unwrap();
    let dt = DateTime::new(day(2025, 1, 13), t);
    assert_eq!(dt.date(), day(2025, 1, 13));
    assert_eq!(dt.time(), t);
}

#[test]
fn period_window_is_fourteen_days() {
    let p = Period::from_start_date(day(2025, 1, 13));
    assert_eq!(p.start_date(), day(2025, 1, 13));
    assert!(p.contains_date(day(2025, 1, 13)));
    assert!(p.contains_date(day(2025, 1, 26)));
    assert!(!p.contains_date(day(2025, 1, 27)));
    assert!(!p.contains_date(day(2025, 1, 12)));
}

#[test]
fn activity_accessors() {
    let a = Activity::new(40, Skill::MtnElec);
    assert_eq!(a.number(), 40);
    assert_eq!(a.skill(), Skill::MtnElec);
}

#[test]
fn work_order_number_must_have_ten_digits() {
    match WorkOrder::new(123456789, day(2025, 1, 13), vec![]) {
        Err(WorkOrderError::InvalidWorkOrderNumber(s)) => assert_eq!(s, "123456789"),
        _ => panic!("a nine-digit number was accepted"),
    }
    match WorkOrder::new(12345678901, day(2025, 1, 13), vec![]) {
        Err(WorkOrderError::InvalidWorkOrderNumber(s)) => assert_eq!(s, "12345678901"),
        _ => panic!("an eleven-digit number was accepted"),
    }
    assert!(WorkOrder::new(1000000000, day(2025, 1, 13), vec![]).is_ok());
    assert!(WorkOrder::new(9999999999, day(2025, 1, 13), vec![]).is_ok());
    assert!(matches!(
        WorkOrder::new(999999999, day(2025, 1, 13), vec![]),
        Err(WorkOrderError::InvalidWorkOrderNumber(_))
    ));
}

#[test]
fn work_order_activities_must_ascend() {
    let unsorted = vec![Activity::new(20, Skill::MtnMech), Activity::new(10, Skill::MtnMech)];
    match WorkOrder::new(1122334455, day(2025, 1, 13), unsorted.clone()) {
        Err(WorkOrderError::NonSortedActivities(v)) => assert_eq!(v, unsorted),
        _ => panic!("unsorted activities were accepted"),
    }
}

#[test]
fn work_order_activities_must_be_distinct() {
    let repeated = vec![
        Activity::new(10, Skill::MtnMech),
        Activity::new(20, Skill::MtnMech),
        Activity::new(20, Skill::MtnElec),
    ];
    assert!(matches!(
        WorkOrder::new(1122334455, day(2025, 1, 13), repeated),
        Err(WorkOrderError::DuplicatedActivities)
    ));
}

#[test]
fn work_order_accessors() {
    let acts = vec![Activity::new(10, Skill::MtnMech), Activity::new(20, Skill::MtnElec)];
    let w = WorkOrder::new(1122334455, day(2025, 1, 13), acts.clone()).unwrap();
    assert_eq!(w.number(), 1122334455);
    assert_eq!(w.basic_start_date(), day(2025, 1, 13));
    assert_eq!(w.activities(), &acts);
}

#[test]
fn technician_keeps_each_skill_and_interval_once() {
    let t0 = TimeOfDay::from_hms_opt(8, 0, 0).unwrap();
    let a = (DateTime::new(day(2025, 1, 13), t0), DateTime::new(day(2025, 1, 14), t0));
    let b = (DateTime::new(day(2025, 1, 15), t0), DateTime::new(day(2025, 1, 16), t0));
    let t = Technician::new(12, vec![a, b, a], vec![Skill::MtnElec, Skill::MtnMech, Skill::MtnElec]);
    assert_eq!(t.id(), 12);
    assert_eq!(t.skills(), &vec![Skill::MtnElec, Skill::MtnMech]);
    assert_eq!(t.availabilities(), &vec![a, b]);
}
