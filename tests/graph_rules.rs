use schedule_hypergraph::calendar::Date;
use schedule_hypergraph::calendar::DateTime;
use schedule_hypergraph::calendar::Period;
use schedule_hypergraph::calendar::TimeOfDay;
use schedule_hypergraph::schedule_graph::EdgeType;
use schedule_hypergraph::schedule_graph::HyperEdge;
use schedule_hypergraph::schedule_graph::Node;
use schedule_hypergraph::schedule_graph::ScheduleGraph;
use schedule_hypergraph::schedule_graph::ScheduleGraphErrors;
use schedule_hypergraph::schedule_graph::Skill;
use schedule_hypergraph::technician::Technician;
use schedule_hypergraph::work_order::Activity;
use schedule_hypergraph::work_order::WorkOrder;

fn day(y: i32, m: u32, d: u32) -> Date {
    Date::from_ymd_opt(y, m, d).unwrap()
}

fn graph_with_work_order() -> (ScheduleGraph, usize, usize) {
    let mut g = ScheduleGraph::new();
    g.add_node(Node::Skill(Skill::MtnMech));
    let period_node = g.add_period(Period(day(2025, 1, 13))).unwrap();
    let work_order = WorkOrder::new(
        1122334455,
        day(2025, 1, 13),
        vec![Activity::new(10, Skill::MtnMech), Activity::new(20, Skill::MtnMech), Activity::new(30, Skill::MtnMech)],
    )
    .unwrap();
    let work_order_node = g.add_work_order(&work_order).unwrap();
    (g, period_node, work_order_node)
}

#[test]
fn period_registers_fourteen_days_once() {
    let mut g = ScheduleGraph::new();
    let start = day(2025, 1, 13);
    let period_node = g.add_period(Period(start)).unwrap();
    assert_eq!(period_node, 14);
    for k in 0..14 {
        let d = start.checked_add_days(k).unwrap();
        assert_eq!(g.node_index(Node::Day(d)), Some(k as usize));
    }
    assert_eq!(g.node_index(Node::Day(day(2025, 1, 26))), Some(13));
    assert_eq!(g.node_index(Node::Day(day(2025, 1, 27))), None);
    assert_eq!(g.nodes()[14], Node::Period(Period(start)));
    assert!(g.hyperedges().is_empty());
}

#[test]
fn overlapping_periods_share_days() {
    let mut g = ScheduleGraph::new();
    g.add_period(Period(day(2025, 1, 13))).unwrap();
    let second = g.add_period(Period(day(2025, 1, 20))).unwrap();
    // Seven new days (2025-01-27 .. 2025-02-02), then the period node.
    assert_eq!(second, 15 + 7);
    assert_eq!(g.node_index(Node::Day(day(2025, 1, 27))), Some(15));
    let days = g.nodes().iter().filter(|n| matches!(n, Node::Day(_))).count();
    assert_eq!(days, 21);
}

#[test]
fn period_added_twice_changes_nothing() {
    let mut g = ScheduleGraph::new();
    let p = Period(day(2025, 1, 13));
    g.add_period(p).unwrap();
    let nodes = g.nodes().len();
    let edges = g.hyperedges().len();
    assert_eq!(g.add_period(p), Err(ScheduleGraphErrors::PeriodDuplicate));
    assert_eq!(g.nodes().len(), nodes);
    assert_eq!(g.hyperedges().len(), edges);
}

#[test]
fn work_order_needs_its_day_then_builds_activities() {
    let mut g = ScheduleGraph::new();
    g.add_node(Node::Skill(Skill::MtnMech));
    let start = day(2025, 1, 13);
    let work_order = WorkOrder::new(
        1122334455,
        start,
        vec![Activity::new(10, Skill::MtnMech), Activity::new(20, Skill::MtnMech), Activity::new(30, Skill::MtnMech)],
    )
    .unwrap();
    assert_eq!(g.add_work_order(&work_order), Err(ScheduleGraphErrors::DayMissing));
    assert_eq!(g.nodes().len(), 1);
    g.add_period(Period(start)).unwrap();
    let w = g.add_work_order(&work_order).unwrap();
    assert_eq!(w, 16);
    assert_eq!(g.nodes()[w..].to_vec(), vec![
        Node::WorkOrder(1122334455),
        Node::Activity(10),
        Node::Activity(20),
        Node::Activity(30),
    ]);
    let skill = g.node_index(Node::Skill(Skill::MtnMech)).unwrap();
    let start_day = g.node_index(Node::Day(start)).unwrap();
    let expected = vec![
        HyperEdge::new(EdgeType::BasicStart, vec![w, start_day]),
        HyperEdge::new(EdgeType::Contains, vec![w, w + 1]),
        HyperEdge::new(EdgeType::Requires, vec![w + 1, skill]),
        HyperEdge::new(EdgeType::Contains, vec![w, w + 2]),
        HyperEdge::new(EdgeType::Requires, vec![w + 2, skill]),
        HyperEdge::new(EdgeType::FinishStart, vec![w + 1, w + 2]),
        HyperEdge::new(EdgeType::Contains, vec![w, w + 3]),
        HyperEdge::new(EdgeType::Requires, vec![w + 3, skill]),
        HyperEdge::new(EdgeType::FinishStart, vec![w + 2, w + 3]),
    ];
    assert_eq!(g.hyperedges(), &expected);
    assert_eq!(g.incidence_list()[w], vec![0, 1, 3, 6]);
    assert_eq!(g.incidence_list()[w + 3], vec![6, 7, 8]);
}

#[test]
fn work_order_errors() {
    let mut g = ScheduleGraph::new();
    let start = day(2025, 1, 13);
    g.add_period(Period(start)).unwrap();
    let work_order = WorkOrder::new(1122334455, start, vec![Activity::new(10, Skill::MtnElec)]).unwrap();
    assert_eq!(g.add_work_order(&work_order), Err(ScheduleGraphErrors::WorkOrderActivityMissingSkills));
    g.add_node(Node::Skill(Skill::MtnElec));
    assert!(g.add_work_order(&work_order).is_ok());
    let edges = g.hyperedges().len();
    assert_eq!(g.add_work_order(&work_order), Err(ScheduleGraphErrors::WorkOrderDuplicate));
    assert_eq!(g.hyperedges().len(), edges);
}

#[test]
fn assignment_needs_worker_and_is_found_once() {
    let (mut g, _, _) = graph_with_work_order();
    let p = Period(day(2025, 1, 13));
    assert_eq!(g.add_assignment_work_order(1234, 1122334455, p), Err(ScheduleGraphErrors::WorkerMissing));
    g.add_technician(Technician::new(1234, vec![], vec![])).unwrap();
    let e = g.add_assignment_work_order(1234, 1122334455, p).unwrap();
    let found = g.find_all_assignments_for_period(p).unwrap();
    assert_eq!(found.iter().filter(|x| **x == e).count(), 1);
    assert_eq!(found, vec![e]);
}

#[test]
fn assignment_errors_for_work_order_and_period() {
    let (mut g, _, _) = graph_with_work_order();
    g.add_technician(Technician::new(7, vec![], vec![])).unwrap();
    let p = Period(day(2025, 1, 13));
    assert_eq!(g.add_assignment_work_order(7, 1122334456, p), Err(ScheduleGraphErrors::WorkOrderMissing));
    assert_eq!(
        g.add_assignment_work_order(7, 1122334455, Period(day(2025, 1, 27))),
        Err(ScheduleGraphErrors::PeriodMissing)
    );
}

#[test]
fn unregistered_period_has_no_assignments() {
    let g = ScheduleGraph::new();
    assert_eq!(
        g.find_all_assignments_for_period(Period(day(2025, 1, 13))),
        Err(ScheduleGraphErrors::PeriodMissing)
    );
}

#[test]
fn period_window_includes_its_last_day() {
    let mut g = ScheduleGraph::new();
    let p = Period(day(2025, 1, 13));
    g.add_period(p).unwrap();
    g.add_period(Period(day(2025, 1, 27))).unwrap();
    let t = g.add_node(Node::Technician(1));
    let last_day = g.node_index(Node::Day(day(2025, 1, 26))).unwrap();
    let next_day = g.node_index(Node::Day(day(2025, 1, 27))).unwrap();
    let first_day = g.node_index(Node::Day(day(2025, 1, 13))).unwrap();
    let on_last = g.add_edge(EdgeType::Assign(None), vec![t, last_day]);
    let on_next = g.add_edge(EdgeType::Assign(None), vec![t, next_day]);
    let on_first = g.add_edge(EdgeType::Assign(None), vec![t, first_day]);
    let not_assign = g.add_edge(EdgeType::Available, vec![t, first_day]);
    let found = g.find_all_assignments_for_period(p).unwrap();
    assert_eq!(found, vec![on_last, on_first]);
    assert!(!found.contains(&on_next));
    assert!(!found.contains(&not_assign));
    assert_eq!(g.find_all_assignments_for_period(Period(day(2025, 1, 27))).unwrap(), vec![on_next]);
}

#[test]
fn skill_assignment_fresh_edges() {
    let mut g = ScheduleGraph::new();
    g.add_node(Node::Technician(1234));
    assert_eq!(g.add_assign_skill_to_worker(1234, Skill::MtnMech), Err(ScheduleGraphErrors::SkillMissing));
    assert_eq!(g.add_assign_skill_to_worker(99, Skill::MtnMech), Err(ScheduleGraphErrors::WorkerMissing));
    g.add_node(Node::Skill(Skill::MtnMech));
    assert_eq!(g.add_assign_skill_to_worker(1234, Skill::MtnMech), Ok(0));
    assert_eq!(g.add_assign_skill_to_worker(1234, Skill::MtnMech), Ok(1));
    assert_eq!(g.add_assign_skill_to_worker(1234, Skill::MtnMech), Ok(2));
    assert_eq!(g.hyperedges()[2], HyperEdge::new(EdgeType::HasSkill, vec![0, 1]));
}

#[test]
fn exclusion_errors() {
    let (mut g, _, _) = graph_with_work_order();
    let p = Period(day(2025, 1, 13));
    assert_eq!(g.add_exclusion(&1122334499, &p), Err(ScheduleGraphErrors::WorkOrderMissing));
    assert_eq!(g.add_exclusion(&1122334455, &Period(day(2025, 3, 1))), Err(ScheduleGraphErrors::PeriodMissing));
}

#[test]
fn technician_links_skills_and_availability() {
    let (mut g, _, _) = graph_with_work_order();
    let nine = TimeOfDay::from_hms_opt(9, 0, 0).unwrap();
    let five = TimeOfDay::from_hms_opt(17, 0, 0).unwrap();
    let interval = (DateTime::new(day(2025, 1, 14), nine), DateTime::new(day(2025, 1, 15), five));
    let outside = (DateTime::new(day(2025, 3, 1), nine), DateTime::new(day(2025, 3, 1), five));

    let missing_skill = Technician::new(5, vec![interval], vec![Skill::MtnElec]);
    assert_eq!(g.add_technician(missing_skill), Err(ScheduleGraphErrors::SkillMissing));
    let missing_day = Technician::new(5, vec![outside], vec![Skill::MtnMech]);
    assert_eq!(g.add_technician(missing_day), Err(ScheduleGraphErrors::DayMissing));
    let nodes = g.nodes().len();
    let edges = g.hyperedges().len();
    assert_eq!(g.nodes().len(), nodes);

    let t = g.add_technician(Technician::new(5, vec![interval, interval], vec![Skill::MtnMech, Skill::MtnMech])).unwrap();
    assert_eq!(t, nodes);
    assert_eq!(g.nodes()[t], Node::Technician(5));
    let skill = g.node_index(Node::Skill(Skill::MtnMech)).unwrap();
    let d14 = g.node_index(Node::Day(day(2025, 1, 14))).unwrap();
    let d15 = g.node_index(Node::Day(day(2025, 1, 15))).unwrap();
    assert_eq!(g.hyperedges().len(), edges + 2);
    assert_eq!(g.hyperedges()[edges], HyperEdge::new(EdgeType::HasSkill, vec![t, skill]));
    assert_eq!(g.hyperedges()[edges + 1], HyperEdge::new(EdgeType::Available, vec![t, d14, d15]));
    assert_eq!(g.add_technician(Technician::new(5, vec![], vec![])), Err(ScheduleGraphErrors::WorkerDuplicate));
}

#[test]
fn activity_assignment() {
    let (mut g, _, w) = graph_with_work_order();
    g.add_technician(Technician::new(3, vec![], vec![])).unwrap();
    let t = g.node_index(Node::Technician(3)).unwrap();
    let nine = TimeOfDay::from_hms_opt(9, 0, 0).unwrap();
    let noon = TimeOfDay::from_hms_opt(12, 0, 0).unwrap();
    assert_eq!(
        g.add_assignment_activity(4, 1122334455, 20, vec![], (nine, noon)),
        Err(ScheduleGraphErrors::WorkerMissing)
    );
    assert_eq!(
        g.add_assignment_activity(3, 1122334400, 20, vec![], (nine, noon)),
        Err(ScheduleGraphErrors::WorkOrderMissing)
    );
    assert_eq!(
        g.add_assignment_activity(3, 1122334455, 25, vec![], (nine, noon)),
        Err(ScheduleGraphErrors::ActivityMissing)
    );
    assert_eq!(
        g.add_assignment_activity(3, 1122334455, 20, vec![day(2025, 1, 14), day(2025, 5, 1)], (nine, noon)),
        Err(ScheduleGraphErrors::DayMissing)
    );
    let e = g.add_assignment_activity(3, 1122334455, 20, vec![day(2025, 1, 14)], (nine, noon)).unwrap();
    assert_eq!(g.hyperedges()[e], HyperEdge::new(EdgeType::Assign(Some((nine, noon))), vec![t, w + 2]));
    assert!(g.incidence_list()[w + 2].contains(&e));
}

#[test]
fn default_graph_is_empty() {
    let g = ScheduleGraph::default();
    assert!(g.nodes().is_empty());
    assert!(g.hyperedges().is_empty());
    assert!(g.incidence_list().is_empty());
    assert_eq!(g.node_index(Node::Activity(10)), None);
}
