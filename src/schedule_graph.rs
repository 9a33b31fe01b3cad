//! The scheduling hypergraph: an append-only arena of nodes and typed
//! hyperedges, with an index from each domain key to its node and, for each
//! node, the list of hyperedges that touch it.

use crate::calendar::Date;
use crate::calendar::Period;
use crate::calendar::PERIOD_DAYS;
use crate::calendar::DateTime;
use crate::calendar::TimeOfDay;
use crate::technician::Technician;
use crate::work_order::Activity;
use crate::work_order::ActivityNumber;
use crate::work_order::ActivityRelation;
use crate::work_order::WorkOrder;
use crate::work_order::WorkOrderNumber;
use std::collections::BTreeMap;
use std::collections::HashMap;
use vstd::prelude::*;

verus! {

broadcast use {
    vstd::std_specs::hash::group_hash_axioms,
    vstd::std_specs::btree::group_btree_axioms,
    vstd::laws_cmp::group_laws_cmp,
};

pub type NodeIndex = usize;

pub type EdgeIndex = usize;

pub type TechnicianId = usize;

pub type StartTime = TimeOfDay;

pub type FinishTime = TimeOfDay;

/// Why an operation on the graph failed; a failed operation leaves the graph
/// as it was.
#[derive(Clone, Copy, Debug, PartialEq, Eq, Structural, PartialOrd, Ord, Hash)]
pub enum ScheduleGraphErrors {
    ActivityMissing,
    DayMissing,
    PeriodDuplicate,
    PeriodMissing,
    SkillMissing,
    WorkOrderActivityMissingSkills,
    WorkOrderDuplicate,
    WorkOrderMissing,
    WorkerMissing,
    WorkerDuplicate,
}

/// The trades that an activity can require and a technician can have.
#[derive(Clone, Copy, Debug, PartialEq, Eq, Structural, PartialOrd, Ord, Hash)]
pub enum Skill {
    MtnMech,
    MtnElec,
}

/// An entity of the problem instance.
#[derive(Clone, Copy, Debug, PartialEq, Eq, Structural, PartialOrd, Ord, Hash)]
pub enum Node {
    Technician(TechnicianId),
    WorkOrder(WorkOrderNumber),
    Activity(ActivityNumber),
    Period(Period),
    Skill(Skill),
    Day(Date),
}

/// The kind of relation that a hyperedge records.
#[derive(Clone, Copy, Debug, PartialEq, Eq, PartialOrd, Ord, Hash)]
pub enum EdgeType {
    /// An assignment, with the time of day it starts and finishes where it has one.
    Assign(Option<(StartTime, FinishTime)>),
    Available,
    Exclude,
    BasicStart,
    Contains,
    Requires,
    StartStart,
    FinishStart,
    /// A technician has a skill.
    HasSkill,
}

/// A typed relation over an ordered list of nodes.
#[derive(Clone, Debug, PartialEq, Eq, PartialOrd, Ord)]
pub struct HyperEdge {
    edge_type: EdgeType,
    nodes: Vec<NodeIndex>,
}

/// What a hyperedge holds.
pub struct EdgeView {
    pub kind: EdgeType,
    pub nodes: Seq<NodeIndex>,
}

impl View for HyperEdge {
    type V = EdgeView;

    closed spec fn view(&self) -> EdgeView {
        EdgeView { kind: self.edge_type, nodes: self.nodes@ }
    }
}

impl HyperEdge {
    pub fn new(edge_type: EdgeType, nodes: Vec<NodeIndex>) -> (r: HyperEdge)
        ensures
            r@ == (EdgeView { kind: edge_type, nodes: nodes@ }),
    {
        HyperEdge { edge_type, nodes }
    }

    pub fn edge_type(&self) -> (r: EdgeType)
        ensures
            r == self@.kind,
    {
        self.edge_type
    }

    pub fn nodes(&self) -> (r: &Vec<NodeIndex>)
        ensures
            r@ == self@.nodes,
    {
        &self.nodes
    }
}

/// How often `x` occurs in `s`.
pub open spec fn count_in(s: Seq<NodeIndex>, x: int) -> nat
    decreases s.len(),
{
    if s.len() == 0 {
        0
    } else {
        count_in(s.drop_last(), x) + if s.last() == x { 1nat } else { 0nat }
    }
}

/// `n` copies of the edge index `e`.
pub open spec fn repeat_edge(e: EdgeIndex, n: nat) -> Seq<EdgeIndex> {
    Seq::new(n, |_k: int| e)
}

/// The edges that touch node `i`, in the order they were added, an edge
/// listed once for each time it names the node.
pub open spec fn incident_edges(edges: Seq<EdgeView>, i: int) -> Seq<EdgeIndex>
    decreases edges.len(),
{
    if edges.len() == 0 {
        Seq::empty()
    } else {
        incident_edges(edges.drop_last(), i) + repeat_edge(
            (edges.len() - 1) as EdgeIndex,
            count_in(edges.last().nodes, i),
        )
    }
}

/// Nodes of every kind but `Activity` are identified by their key.
pub open spec fn is_keyed(n: Node) -> bool {
    !(n is Activity)
}

/// The whole graph: the node arena, the edges, and each node's incidence list.
pub struct GraphView {
    pub nodes: Seq<Node>,
    pub edges: Seq<EdgeView>,
    pub incidence: Seq<Seq<EdgeIndex>>,
}

impl GraphView {
    pub open spec fn has_node(self, n: Node) -> bool {
        exists|i: int| 0 <= i < self.nodes.len() && self.nodes[i] == n
    }

    /// The index of a node that is in the graph.
    pub open spec fn index_of(self, n: Node) -> int {
        choose|i: int| 0 <= i < self.nodes.len() && self.nodes[i] == n
    }

    /// Whether `r` is what a lookup of `n` must give: the index of `n` where `n`
    /// is keyed and in the graph, and nothing otherwise.
    pub open spec fn locates(self, n: Node, r: Option<NodeIndex>) -> bool {
        match r {
            Some(i) => {
                &&& is_keyed(n)
                &&& i < self.nodes.len()
                &&& self.nodes[i as int] == n
                &&& forall|j: int| 0 <= j < self.nodes.len() && #[trigger] self.nodes[j] == n ==> j == i
            },
            None => !(is_keyed(n) && self.has_node(n)),
        }
    }

    /// Every edge names nodes of the arena.
    pub open spec fn edges_in_arena(self) -> bool {
        forall|e: int, k: int|
            0 <= e < self.edges.len() && 0 <= k < self.edges[e].nodes.len() ==> #[trigger] self.edges[e].nodes[k]
                < self.nodes.len()
    }

    /// No keyed node occurs twice.
    pub open spec fn keys_unique(self) -> bool {
        forall|i: int, j: int|
            0 <= i < self.nodes.len() && 0 <= j < self.nodes.len() && #[trigger] self.nodes[i]
                == #[trigger] self.nodes[j] && is_keyed(self.nodes[i]) ==> i == j
    }

    pub open spec fn wf(self) -> bool {
        &&& self.nodes.len() <= usize::MAX
        &&& self.edges.len() <= usize::MAX
        &&& self.edges_in_arena()
        &&& self.keys_unique()
        &&& self.incidence.len() == self.nodes.len()
        &&& forall|i: int| 0 <= i < self.nodes.len() ==> #[trigger] self.incidence[i] == incident_edges(self.edges, i)
        &&& forall|i: int, k: int|
            0 <= i < self.incidence.len() && 0 <= k < self.incidence[i].len() ==> #[trigger] self.incidence[i][k]
                < self.edges.len()
    }

    /// The graph with one more node, touched by no edge yet.
    pub open spec fn push_node(self, n: Node) -> GraphView {
        GraphView { nodes: self.nodes.push(n), edges: self.edges, incidence: self.incidence.push(Seq::empty()) }
    }

    /// The graph with one more edge, listed with each node it names.
    pub open spec fn push_edge(self, kind: EdgeType, nodes: Seq<NodeIndex>) -> GraphView {
        GraphView {
            nodes: self.nodes,
            edges: self.edges.push(EdgeView { kind, nodes }),
            incidence: Seq::new(
                self.incidence.len(),
                |i: int| self.incidence[i] + repeat_edge(self.edges.len() as EdgeIndex, count_in(nodes, i)),
            ),
        }
    }
}

/// The graph with each day `start .. start + k` that it lacks added, in
/// date order.
pub open spec fn with_days(g: GraphView, start: int, k: nat) -> GraphView
    decreases k,
{
    if k == 0 {
        g
    } else {
        let h = with_days(g, start, (k - 1) as nat);
        let d = Node::Day(Date { days_from_ce: (start + k - 1) as i32 });
        if h.has_node(d) {
            h
        } else {
            h.push_node(d)
        }
    }
}

/// What `add_period` does: the graph it leaves and what it returns.
pub open spec fn period_step(g: GraphView, p: Period) -> (GraphView, Result<NodeIndex, ScheduleGraphErrors>) {
    if g.has_node(Node::Period(p)) {
        (g, Err(ScheduleGraphErrors::PeriodDuplicate))
    } else {
        let h = with_days(g, p.first_day(), PERIOD_DAYS as nat);
        (h.push_node(Node::Period(p)), Ok(h.nodes.len() as NodeIndex))
    }
}

fn precedence_edge_type(r: &ActivityRelation) -> (k: Option<EdgeType>)
    ensures
        k == precedence_kind(*r),
{
    match r {
        ActivityRelation::StartStart => Some(EdgeType::StartStart),
        ActivityRelation::FinishStart => Some(EdgeType::FinishStart),
        ActivityRelation::Postpone(_) => None,
    }
}

proof fn lemma_push_node_has(g: GraphView, n: Node, x: Node)
    ensures
        g.push_node(n).has_node(x) <==> (g.has_node(x) || x == n),
{
    let h = g.push_node(n);
    if g.has_node(x) {
        let i = choose|i: int| 0 <= i < g.nodes.len() && g.nodes[i] == x;
        assert(h.nodes[i] == x);
    }
    if x == n {
        assert(h.nodes[g.nodes.len() as int] == x);
    }
    if h.has_node(x) {
        let i = choose|i: int| 0 <= i < h.nodes.len() && h.nodes[i] == x;
        if i < g.nodes.len() {
            assert(g.nodes[i] == x);
        }
    }
}

/// Adding days keeps keyed nodes unique, adds only days, and leaves every day
/// of the range present.
proof fn lemma_with_days(g: GraphView, start: int, k: nat)
    requires
        g.keys_unique(),
        i32::MIN <= start,
        start + k - 1 <= i32::MAX,
    ensures
        with_days(g, start, k).keys_unique(),
        forall|x: Node| !(x is Day) ==> (#[trigger] with_days(g, start, k).has_node(x) <==> g.has_node(x)),
        forall|j: int| 0 <= j < k ==> #[trigger] with_days(g, start, k).has_node(Node::Day(Date { days_from_ce: (start + j) as i32 })),
    decreases k,
{
    if k > 0 {
        let h = with_days(g, start, (k - 1) as nat);
        lemma_with_days(g, start, (k - 1) as nat);
        let d = Node::Day(Date { days_from_ce: (start + k - 1) as i32 });
        if !h.has_node(d) {
            lemma_push_node_keys(h, d);
            assert forall|x: Node| !(x is Day) implies (#[trigger] h.push_node(d).has_node(x) <==> g.has_node(x)) by {
                lemma_push_node_has(h, d, x);
            }
            assert forall|j: int| 0 <= j < k implies #[trigger] h.push_node(d).has_node(Node::Day(Date { days_from_ce: (start + j) as i32 })) by {
                lemma_push_node_has(h, d, Node::Day(Date { days_from_ce: (start + j) as i32 }));
            }
        }
    }
}

/// The edge kind that records a relation between neighbouring activities. A
/// postponement carries a time delta that no edge type holds, so it has none.
pub open spec fn precedence_kind(r: ActivityRelation) -> Option<EdgeType> {
    match r {
        ActivityRelation::StartStart => Some(EdgeType::StartStart),
        ActivityRelation::FinishStart => Some(EdgeType::FinishStart),
        ActivityRelation::Postpone(_) => None,
    }
}

/// The graph with the activities `acts[0..k]` of the work order at node `w`
/// added: for each, its node, a `Contains` edge from the work order, a
/// `Requires` edge to its skill's node and, from the second on, a precedence
/// edge from the activity before it, of the kind that `rels` gives for that
/// pair (`rels[i]` relates activities `i` and `i + 1`).
pub open spec fn with_activities(
    g: GraphView,
    w: NodeIndex,
    acts: Seq<Activity>,
    rels: Seq<ActivityRelation>,
    k: nat,
) -> GraphView
    decreases k,
{
    if k == 0 {
        g
    } else {
        let h = with_activities(g, w, acts, rels, (k - 1) as nat);
        let s = h.index_of(Node::Skill(acts[k - 1].spec_skill())) as NodeIndex;
        let a = h.nodes.len() as NodeIndex;
        let h1 = h.push_node(Node::Activity(acts[k - 1].spec_number())).push_edge(
            EdgeType::Contains,
            seq![w, a],
        ).push_edge(EdgeType::Requires, seq![a, s]);
        if k > 1 {
            match precedence_kind(rels[k - 2]) {
                Some(kind) => h1.push_edge(kind, seq![(a - 1) as NodeIndex, a]),
                None => h1,
            }
        } else {
            h1
        }
    }
}

/// Every activity's skill is a node of the graph.
pub open spec fn skills_present(g: GraphView, acts: Seq<Activity>) -> bool {
    forall|k: int| 0 <= k < acts.len() ==> g.has_node(Node::Skill(#[trigger] acts[k].spec_skill()))
}

/// What `add_work_order` does: the graph it leaves and what it returns.
pub open spec fn work_order_step(
    g: GraphView,
    number: WorkOrderNumber,
    start: Date,
    acts: Seq<Activity>,
    rels: Seq<ActivityRelation>,
) -> (GraphView,
    Result<NodeIndex, ScheduleGraphErrors>,
) {
    if !skills_present(g, acts) {
        (g, Err(ScheduleGraphErrors::WorkOrderActivityMissingSkills))
    } else if !g.has_node(Node::Day(start)) {
        (g, Err(ScheduleGraphErrors::DayMissing))
    } else if g.has_node(Node::WorkOrder(number)) {
        (g, Err(ScheduleGraphErrors::WorkOrderDuplicate))
    } else {
        let w = g.nodes.len() as NodeIndex;
        let g1 = g.push_node(Node::WorkOrder(number)).push_edge(
            EdgeType::BasicStart,
            seq![w, g.index_of(Node::Day(start)) as NodeIndex],
        );
        (with_activities(g1, w, acts, rels, acts.len()), Ok(w))
    }
}

/// The graph with a `HasSkill` edge from the technician at node `t` to the
/// node of each of `skills[0..k]`, in order.
pub open spec fn with_skill_edges(g: GraphView, t: NodeIndex, skills: Seq<Skill>, k: nat) -> GraphView
    decreases k,
{
    if k == 0 {
        g
    } else {
        let h = with_skill_edges(g, t, skills, (k - 1) as nat);
        h.push_edge(EdgeType::HasSkill, seq![t, h.index_of(Node::Skill(skills[k - 1])) as NodeIndex])
    }
}

/// The graph with an `Available` edge from the technician at node `t` to the
/// day nodes of the start and finish of each of `intervals[0..k]`, in order.
pub open spec fn with_availability_edges(
    g: GraphView,
    t: NodeIndex,
    intervals: Seq<(DateTime, DateTime)>,
    k: nat,
) -> GraphView
    decreases k,
{
    if k == 0 {
        g
    } else {
        let h = with_availability_edges(g, t, intervals, (k - 1) as nat);
        let (start, finish) = intervals[k - 1];
        h.push_edge(
            EdgeType::Available,
            seq![
                t,
                h.index_of(Node::Day(start.date)) as NodeIndex,
                h.index_of(Node::Day(finish.date)) as NodeIndex,
            ],
        )
    }
}

/// Every skill is a node of the graph.
pub open spec fn skills_registered(g: GraphView, skills: Seq<Skill>) -> bool {
    forall|k: int| 0 <= k < skills.len() ==> g.has_node(Node::Skill(#[trigger] skills[k]))
}

/// The start and finish date of every interval are day nodes of the graph.
pub open spec fn intervals_registered(g: GraphView, intervals: Seq<(DateTime, DateTime)>) -> bool {
    forall|k: int|
        0 <= k < intervals.len() ==> g.has_node(Node::Day((#[trigger] intervals[k]).0.date)) && g.has_node(
            Node::Day(intervals[k].1.date),
        )
}

/// What `add_technician` does.
pub open spec fn technician_step(
    g: GraphView,
    id: TechnicianId,
    skills: Seq<Skill>,
    intervals: Seq<(DateTime, DateTime)>,
) -> (GraphView, Result<NodeIndex, ScheduleGraphErrors>) {
    if g.has_node(Node::Technician(id)) {
        (g, Err(ScheduleGraphErrors::WorkerDuplicate))
    } else if !skills_registered(g, skills) {
        (g, Err(ScheduleGraphErrors::SkillMissing))
    } else if !intervals_registered(g, intervals) {
        (g, Err(ScheduleGraphErrors::DayMissing))
    } else {
        let t = g.nodes.len() as NodeIndex;
        let g1 = with_skill_edges(g.push_node(Node::Technician(id)), t, skills, skills.len());
        (with_availability_edges(g1, t, intervals, intervals.len()), Ok(t))
    }
}

/// What `add_assignment_work_order` does.
pub open spec fn assign_work_order_step(g: GraphView, worker: TechnicianId, work_order: WorkOrderNumber, period: Period) -> (
    GraphView,
    Result<EdgeIndex, ScheduleGraphErrors>,
) {
    if !g.has_node(Node::Technician(worker)) {
        (g, Err(ScheduleGraphErrors::WorkerMissing))
    } else if !g.has_node(Node::WorkOrder(work_order)) {
        (g, Err(ScheduleGraphErrors::WorkOrderMissing))
    } else if !g.has_node(Node::Period(period)) {
        (g, Err(ScheduleGraphErrors::PeriodMissing))
    } else {
        (
            g.push_edge(
                EdgeType::Assign(None),
                seq![
                    g.index_of(Node::Technician(worker)) as NodeIndex,
                    g.index_of(Node::WorkOrder(work_order)) as NodeIndex,
                    g.index_of(Node::Period(period)) as NodeIndex,
                ],
            ),
            Ok(g.edges.len() as EdgeIndex),
        )
    }
}

/// What `add_assign_skill_to_worker` does.
pub open spec fn skill_to_worker_step(g: GraphView, worker: TechnicianId, skill: Skill) -> (
    GraphView,
    Result<EdgeIndex, ScheduleGraphErrors>,
) {
    if !g.has_node(Node::Technician(worker)) {
        (g, Err(ScheduleGraphErrors::WorkerMissing))
    } else if !g.has_node(Node::Skill(skill)) {
        (g, Err(ScheduleGraphErrors::SkillMissing))
    } else {
        (
            g.push_edge(
                EdgeType::HasSkill,
                seq![g.index_of(Node::Technician(worker)) as NodeIndex, g.index_of(Node::Skill(skill)) as NodeIndex],
            ),
            Ok(g.edges.len() as EdgeIndex),
        )
    }
}

/// What `add_exclusion` does.
pub open spec fn exclusion_step(g: GraphView, work_order: WorkOrderNumber, period: Period) -> (
    GraphView,
    Result<EdgeIndex, ScheduleGraphErrors>,
) {
    if !g.has_node(Node::WorkOrder(work_order)) {
        (g, Err(ScheduleGraphErrors::WorkOrderMissing))
    } else if !g.has_node(Node::Period(period)) {
        (g, Err(ScheduleGraphErrors::PeriodMissing))
    } else {
        (
            g.push_edge(
                EdgeType::Exclude,
                seq![
                    g.index_of(Node::WorkOrder(work_order)) as NodeIndex,
                    g.index_of(Node::Period(period)) as NodeIndex,
                ],
            ),
            Ok(g.edges.len() as EdgeIndex),
        )
    }
}

/// The activity node named by the first of the edges `es` that is a
/// `Contains` edge whose second node is `Activity(number)`.
pub open spec fn find_contained(g: GraphView, es: Seq<EdgeIndex>, number: ActivityNumber) -> Option<NodeIndex>
    decreases es.len(),
{
    if es.len() == 0 {
        None
    } else {
        let e = g.edges[es[0] as int];
        if e.kind is Contains && e.nodes.len() >= 2 && g.nodes[e.nodes[1] as int] == Node::Activity(number) {
            Some(e.nodes[1])
        } else {
            find_contained(g, es.drop_first(), number)
        }
    }
}

/// Every date is a day node of the graph.
pub open spec fn days_present(g: GraphView, days: Seq<Date>) -> bool {
    forall|k: int| 0 <= k < days.len() ==> g.has_node(Node::Day(#[trigger] days[k]))
}

/// What `add_assignment_activity` does. The activity is looked for among the
/// edges that touch the work order, in the order they were added.
pub open spec fn assign_activity_step(
    g: GraphView,
    worker: TechnicianId,
    work_order: WorkOrderNumber,
    activity: ActivityNumber,
    days: Seq<Date>,
    times: (StartTime, FinishTime),
) -> (GraphView, Result<EdgeIndex, ScheduleGraphErrors>) {
    let found = find_contained(g, g.incidence[g.index_of(Node::WorkOrder(work_order))], activity);
    if !g.has_node(Node::Technician(worker)) {
        (g, Err(ScheduleGraphErrors::WorkerMissing))
    } else if !g.has_node(Node::WorkOrder(work_order)) {
        (g, Err(ScheduleGraphErrors::WorkOrderMissing))
    } else if found is None {
        (g, Err(ScheduleGraphErrors::ActivityMissing))
    } else if !days_present(g, days) {
        (g, Err(ScheduleGraphErrors::DayMissing))
    } else {
        (
            g.push_edge(
                EdgeType::Assign(Some(times)),
                seq![g.index_of(Node::Technician(worker)) as NodeIndex, found->Some_0],
            ),
            Ok(g.edges.len() as EdgeIndex),
        )
    }
}

proof fn lemma_contained_in_arena(g: GraphView, es: Seq<EdgeIndex>, number: ActivityNumber)
    requires
        g.wf(),
        forall|k: int| 0 <= k < es.len() ==> es[k] < g.edges.len(),
    ensures
        find_contained(g, es, number) matches Some(a) ==> a < g.nodes.len(),
    decreases es.len(),
{
    if es.len() > 0 {
        assert(g.edges_in_arena());
        let e = g.edges[es[0] as int];
        if e.kind is Contains && e.nodes.len() >= 2 {
            assert(e.nodes[1] < g.nodes.len());
        }
        lemma_contained_in_arena(g, es.drop_first(), number);
    }
}

/// A node that places an assignment in the period: the period's own node, or
/// the node of one of its days.
pub open spec fn node_in_period(n: Node, p: Period) -> bool {
    match n {
        Node::Period(q) => q == p,
        Node::Day(d) => p.spans(d),
        _ => false,
    }
}

/// The edge names a node that places it in the period.
pub open spec fn touches_period(g: GraphView, e: EdgeView, p: Period) -> bool {
    exists|k: int| 0 <= k < e.nodes.len() && node_in_period(g.nodes[#[trigger] e.nodes[k] as int], p)
}

/// The `Assign` edges among the first `n` that touch the period, in
/// ascending order of index.
pub open spec fn assignments_in(g: GraphView, p: Period, n: nat) -> Seq<EdgeIndex>
    decreases n,
{
    if n == 0 {
        Seq::empty()
    } else {
        let prev = assignments_in(g, p, (n - 1) as nat);
        let e = g.edges[n - 1];
        if e.kind is Assign && touches_period(g, e, p) {
            prev.push((n - 1) as EdgeIndex)
        } else {
            prev
        }
    }
}

proof fn lemma_assignments_below(g: GraphView, p: Period, n: nat)
    requires
        n <= usize::MAX,
    ensures
        forall|k: int| 0 <= k < assignments_in(g, p, n).len() ==> #[trigger] assignments_in(g, p, n)[k] < n,
    decreases n,
{
    if n > 0 {
        lemma_assignments_below(g, p, (n - 1) as nat);
        let prev = assignments_in(g, p, (n - 1) as nat);
        assert forall|k: int| 0 <= k < assignments_in(g, p, n).len() implies #[trigger] assignments_in(g, p, n)[k] < n by {
            if k < prev.len() {
                assert(assignments_in(g, p, n)[k] == prev[k]);
            }
        }
    }
}

/// Appending an edge changes nothing in what the earlier edges give.
proof fn lemma_assignments_prefix(g: GraphView, kind: EdgeType, nodes: Seq<NodeIndex>, p: Period, n: nat)
    requires
        n <= g.edges.len(),
    ensures
        assignments_in(g.push_edge(kind, nodes), p, n) == assignments_in(g, p, n),
    decreases n,
{
    if n > 0 {
        lemma_assignments_prefix(g, kind, nodes, p, (n - 1) as nat);
        assert(g.push_edge(kind, nodes).edges[n - 1] == g.edges[n - 1]);
    }
}

/// Once `add_assignment_work_order` has assigned a registered technician to a
/// registered work order in a registered period, the new edge is among the
/// period's assignments exactly once: it comes last, after the ones that were
/// there before, all of which have lower indices.
pub proof fn lemma_assignment_found_once(g: GraphView, worker: TechnicianId, work_order: WorkOrderNumber, period: Period)
    requires
        g.wf(),
        g.has_node(Node::Technician(worker)),
        g.has_node(Node::WorkOrder(work_order)),
        g.has_node(Node::Period(period)),
    ensures
        ({
            let (g1, r) = assign_work_order_step(g, worker, work_order, period);
            let before = assignments_in(g, period, g.edges.len());
            &&& r == Ok::<EdgeIndex, ScheduleGraphErrors>(g.edges.len() as EdgeIndex)
            &&& assignments_in(g1, period, g1.edges.len()) == before.push(g.edges.len() as EdgeIndex)
            &&& forall|k: int| 0 <= k < before.len() ==> #[trigger] before[k] < g.edges.len()
        }),
{
    let (g1, r) = assign_work_order_step(g, worker, work_order, period);
    let ns = seq![
        g.index_of(Node::Technician(worker)) as NodeIndex,
        g.index_of(Node::WorkOrder(work_order)) as NodeIndex,
        g.index_of(Node::Period(period)) as NodeIndex,
    ];
    lemma_assignments_prefix(g, EdgeType::Assign(None), ns, period, g.edges.len());
    lemma_assignments_below(g, period, g.edges.len());
    let pi = g.index_of(Node::Period(period));
    assert(g.nodes[pi] == Node::Period(period));
    assert(g1.edges[g.edges.len() as int].nodes[2] == pi as NodeIndex);
    assert(node_in_period(g1.nodes[g1.edges[g.edges.len() as int].nodes[2] as int], period));
    assert(touches_period(g1, g1.edges[g.edges.len() as int], period));
}

/// For a registered technician, `add_assign_skill_to_worker` fails with
/// `SkillMissing` exactly when the skill is not a node, and otherwise succeeds
/// with a fresh edge index, whatever `HasSkill` edges the technician has.
pub proof fn lemma_skill_assignment(g: GraphView, worker: TechnicianId, skill: Skill)
    requires
        g.wf(),
        g.has_node(Node::Technician(worker)),
    ensures
        skill_to_worker_step(g, worker, skill).1 == Err::<EdgeIndex, ScheduleGraphErrors>(ScheduleGraphErrors::SkillMissing)
            <==> !g.has_node(Node::Skill(skill)),
        g.has_node(Node::Skill(skill)) ==> ({
            let (g1, r) = skill_to_worker_step(g, worker, skill);
            &&& r == Ok::<EdgeIndex, ScheduleGraphErrors>(g.edges.len() as EdgeIndex)
            &&& g1.edges.len() == g.edges.len() + 1
            &&& g1.edges.last().kind == EdgeType::HasSkill
        }),
{
}

/// Once `add_period` has registered a period, each of its fourteen days, both
/// ends included, is a `Day` node, and no date is a `Day` node twice.
pub proof fn lemma_period_registers_its_days(g: GraphView, p: Period)
    requires
        g.wf(),
        p.wf(),
        period_step(g, p).1 is Ok,
    ensures
        forall|d: Date| p.spans(d) ==> #[trigger] period_step(g, p).0.has_node(Node::Day(d)),
        forall|i: int, j: int|
            0 <= i < period_step(g, p).0.nodes.len() && 0 <= j < period_step(g, p).0.nodes.len()
                && period_step(g, p).0.nodes[i] is Day && #[trigger] period_step(g, p).0.nodes[i]
                == #[trigger] period_step(g, p).0.nodes[j] ==> i == j,
{
    let h = with_days(g, p.first_day(), PERIOD_DAYS as nat);
    lemma_with_days(g, p.first_day(), PERIOD_DAYS as nat);
    assert(!h.has_node(Node::Period(p)));
    lemma_push_node_keys(h, Node::Period(p));
    assert forall|d: Date| p.spans(d) implies #[trigger] period_step(g, p).0.has_node(Node::Day(d)) by {
        let j = d.days_from_ce - p.first_day();
        assert(Date { days_from_ce: (p.first_day() + j) as i32 } == d);
        assert(h.has_node(Node::Day(Date { days_from_ce: (p.first_day() + j) as i32 })));
        lemma_push_node_has(h, Node::Period(p), Node::Day(d));
    }
}

/// Registering a period that is already there fails with `PeriodDuplicate`
/// and leaves the graph as it was: a second `add_period` of the same period
/// changes nothing.
pub proof fn lemma_period_twice(g: GraphView, p: Period)
    requires
        g.wf(),
        p.wf(),
    ensures
        ({
            let g1 = period_step(g, p).0;
            &&& period_step(g1, p).1 == Err::<NodeIndex, ScheduleGraphErrors>(ScheduleGraphErrors::PeriodDuplicate)
            &&& period_step(g1, p).0 == g1
        }),
{
    if !g.has_node(Node::Period(p)) {
        let h = with_days(g, p.first_day(), PERIOD_DAYS as nat);
        lemma_push_node_has(h, Node::Period(p), Node::Period(p));
    }
}

proof fn lemma_index_of(g: GraphView, n: Node, i: int)
    requires
        g.keys_unique(),
        is_keyed(n),
        0 <= i < g.nodes.len(),
        g.nodes[i] == n,
    ensures
        g.has_node(n),
        g.index_of(n) == i,
{
    let j = choose|j: int| 0 <= j < g.nodes.len() && g.nodes[j] == n;
    assert(g.nodes[j] == g.nodes[i]);
}

proof fn lemma_count_absent(s: Seq<NodeIndex>, x: int)
    requires
        forall|k: int| 0 <= k < s.len() ==> s[k] < x,
    ensures
        count_in(s, x) == 0,
    decreases s.len(),
{
    if s.len() > 0 {
        lemma_count_absent(s.drop_last(), x);
    }
}

proof fn lemma_no_incident_edges(edges: Seq<EdgeView>, x: int)
    requires
        forall|e: int, k: int| 0 <= e < edges.len() && 0 <= k < edges[e].nodes.len() ==> #[trigger] edges[e].nodes[k] < x,
    ensures
        incident_edges(edges, x) == Seq::<EdgeIndex>::empty(),
    decreases edges.len(),
{
    if edges.len() > 0 {
        let front = edges.drop_last();
        assert forall|e: int, k: int| 0 <= e < front.len() && 0 <= k < front[e].nodes.len() implies #[trigger] front[e].nodes[k]
            < x by {
            assert(front[e] == edges[e]);
        }
        lemma_no_incident_edges(front, x);
        let last = edges.last();
        assert forall|k: int| 0 <= k < last.nodes.len() implies last.nodes[k] < x by {
            assert(edges[edges.len() - 1].nodes[k] < x);
        }
        lemma_count_absent(last.nodes, x);
        assert(repeat_edge((edges.len() - 1) as EdgeIndex, 0) =~= Seq::<EdgeIndex>::empty());
        assert(incident_edges(front, x) + Seq::<EdgeIndex>::empty() =~= Seq::<EdgeIndex>::empty());
    }
}

/// Adding a node that is new by its key keeps keyed nodes unique.
proof fn lemma_push_node_keys(g: GraphView, n: Node)
    requires
        g.keys_unique(),
        !(is_keyed(n) && g.has_node(n)),
    ensures
        g.push_node(n).keys_unique(),
{
    let h = g.push_node(n);
    let x = g.nodes.len() as int;
    assert forall|i: int, j: int|
        0 <= i < h.nodes.len() && 0 <= j < h.nodes.len() && #[trigger] h.nodes[i] == #[trigger] h.nodes[j]
            && is_keyed(h.nodes[i]) implies i == j by {
        if i < x && j < x {
            assert(g.nodes[i] == g.nodes[j]);
        } else if i < x {
            assert(g.nodes[i] == n);
        } else if j < x {
            assert(g.nodes[j] == n);
        }
    }
}

/// Adding a node that is new by its key keeps the graph well formed.
proof fn lemma_push_node_wf(g: GraphView, n: Node)
    requires
        g.wf(),
        g.nodes.len() < usize::MAX,
        !(is_keyed(n) && g.has_node(n)),
    ensures
        g.push_node(n).wf(),
{
    let h = g.push_node(n);
    let x = g.nodes.len() as int;
    assert(g.edges_in_arena());
    assert forall|e: int, k: int| 0 <= e < g.edges.len() && 0 <= k < g.edges[e].nodes.len() implies #[trigger] g.edges[e].nodes[k]
        < x by {}
    lemma_no_incident_edges(g.edges, x);
    lemma_push_node_keys(g, n);
    assert forall|i: int| 0 <= i < h.nodes.len() implies #[trigger] h.incidence[i] == incident_edges(h.edges, i) by {
        if i < x {
            assert(h.incidence[i] == g.incidence[i]);
        }
    }
}

/// Adding an edge over nodes of the arena keeps the graph well formed.
proof fn lemma_push_edge_wf(g: GraphView, kind: EdgeType, nodes: Seq<NodeIndex>)
    requires
        g.wf(),
        g.edges.len() < usize::MAX,
        forall|k: int| 0 <= k < nodes.len() ==> nodes[k] < g.nodes.len(),
    ensures
        g.push_edge(kind, nodes).wf(),
{
    let h = g.push_edge(kind, nodes);
    let e = g.edges.len();
    assert(h.edges.drop_last() =~= g.edges);
    assert forall|f: int, k: int| 0 <= f < h.edges.len() && 0 <= k < h.edges[f].nodes.len() implies #[trigger] h.edges[f].nodes[k]
        < h.nodes.len() by {
        if f < e {
            assert(h.edges[f] == g.edges[f]);
        }
    }
    assert forall|i: int| 0 <= i < h.nodes.len() implies #[trigger] h.incidence[i] == incident_edges(h.edges, i) by {
        assert(g.incidence[i] == incident_edges(g.edges, i));
    }
    assert forall|i: int, k: int| 0 <= i < h.incidence.len() && 0 <= k < h.incidence[i].len() implies #[trigger] h.incidence[i][k]
        < h.edges.len() by {
        if k < g.incidence[i].len() {
            assert(h.incidence[i][k] == g.incidence[i][k]);
        }
    }
}

proof fn lemma_count_distinct(s: Seq<NodeIndex>, x: int)
    requires
        s.no_duplicates(),
    ensures
        count_in(s, x) == if s.contains(x as NodeIndex) && 0 <= x <= usize::MAX { 1nat } else { 0nat },
    decreases s.len(),
{
    if s.len() > 0 {
        let front = s.drop_last();
        assert forall|i: int, j: int| 0 <= i < front.len() && 0 <= j < front.len() && i != j implies front[i] != front[j] by {
            assert(front[i] == s[i] && front[j] == s[j]);
        }
        lemma_count_distinct(front, x);
        if s.last() == x {
            if front.contains(x as NodeIndex) {
                let k = choose|k: int| 0 <= k < front.len() && front[k] == x as NodeIndex;
                assert(s[k] == s[s.len() - 1]);
            }
            assert(s[s.len() - 1] == x as NodeIndex);
        } else {
            if s.contains(x as NodeIndex) && 0 <= x <= usize::MAX {
                let k = choose|k: int| 0 <= k < s.len() && s[k] == x as NodeIndex;
                assert(front[k] == x as NodeIndex);
            }
            if front.contains(x as NodeIndex) {
                let k = choose|k: int| 0 <= k < front.len() && front[k] == x as NodeIndex;
                assert(s[k] == x as NodeIndex);
            }
        }
    }
}

/// For an edge that names each of its nodes once, adding it appends its index
/// once to the list of each of its nodes and leaves every other list alone.
pub proof fn lemma_push_edge_incidence(g: GraphView, kind: EdgeType, nodes: Seq<NodeIndex>)
    requires
        g.wf(),
        nodes.no_duplicates(),
    ensures
        forall|i: int|
            0 <= i < g.incidence.len() ==> #[trigger] g.push_edge(kind, nodes).incidence[i] == if nodes.contains(
                i as NodeIndex,
            ) {
                g.incidence[i].push(g.edges.len() as EdgeIndex)
            } else {
                g.incidence[i]
            },
{
    assert forall|i: int| 0 <= i < g.incidence.len() implies #[trigger] g.push_edge(kind, nodes).incidence[i] == if nodes.contains(
        i as NodeIndex,
    ) {
        g.incidence[i].push(g.edges.len() as EdgeIndex)
    } else {
        g.incidence[i]
    } by {
        lemma_count_distinct(nodes, i);
        let e = g.edges.len() as EdgeIndex;
        if nodes.contains(i as NodeIndex) {
            assert(repeat_edge(e, 1) =~= seq![e]);
            assert(g.incidence[i] + seq![e] =~= g.incidence[i].push(e));
        } else {
            assert(g.incidence[i] + repeat_edge(e, 0) =~= g.incidence[i]);
        }
    }
}

proof fn lemma_count_step(s: Seq<NodeIndex>, k: int, x: int)
    requires
        0 <= k < s.len(),
    ensures
        count_in(s.take(k + 1), x) == count_in(s.take(k), x) + if s[k] == x { 1nat } else { 0nat },
{
    assert(s.take(k + 1).drop_last() =~= s.take(k));
}

/// The problem-instance graph.
///
/// Nodes and edges are only ever appended; an index, once given out, names the
/// same node or edge for good.
pub struct ScheduleGraph {
    nodes: Vec<Node>,
    hyperedges: Vec<HyperEdge>,
    incidence_list: Vec<Vec<EdgeIndex>>,
    worker_indices: HashMap<TechnicianId, NodeIndex>,
    work_order_indices: HashMap<WorkOrderNumber, NodeIndex>,
    /// Keyed by the day number of the period's start date.
    period_indices: HashMap<i32, NodeIndex>,
    /// A list of pairs, not a map: lookups in a `HashMap` keyed by `Skill`
    /// could not be proved, as `Skill`'s `Hash` and `Eq` are derived.
    skill_indices: Vec<(Skill, NodeIndex)>,
    /// Keyed by day number, so in date order.
    day_indices: BTreeMap<i32, NodeIndex>,
}

impl View for ScheduleGraph {
    type V = GraphView;

    closed spec fn view(&self) -> GraphView {
        GraphView {
            nodes: self.nodes@,
            edges: self.hyperedges@.map_values(|h: HyperEdge| h@),
            incidence: self.incidence_list@.map_values(|v: Vec<EdgeIndex>| v@),
        }
    }
}

impl ScheduleGraph {
    spec fn places(&self, i: NodeIndex, n: Node) -> bool {
        i < self.nodes@.len() && self.nodes@[i as int] == n
    }

    /// Each index table maps a key to the node that carries it, and every
    /// keyed node is in its table.
    pub closed spec fn indices_agree(&self) -> bool {
        &&& forall|k: TechnicianId| #[trigger]
            self.worker_indices@.contains_key(k) ==> self.places(self.worker_indices@[k], Node::Technician(k))
        &&& forall|k: WorkOrderNumber| #[trigger]
            self.work_order_indices@.contains_key(k) ==> self.places(self.work_order_indices@[k], Node::WorkOrder(k))
        &&& forall|k: i32| #[trigger]
            self.period_indices@.contains_key(k) ==> self.places(
                self.period_indices@[k],
                Node::Period(Period(Date { days_from_ce: k })),
            )
        &&& forall|k: i32| #[trigger]
            self.day_indices@.contains_key(k) ==> self.places(self.day_indices@[k], Node::Day(Date { days_from_ce: k }))
        &&& forall|j: int|
            0 <= j < self.skill_indices@.len() ==> self.places(
                #[trigger] self.skill_indices@[j].1,
                Node::Skill(self.skill_indices@[j].0),
            )
        &&& forall|i: int|
            0 <= i < self.nodes@.len() ==> match #[trigger] self.nodes@[i] {
                Node::Technician(k) => self.worker_indices@.contains_key(k),
                Node::WorkOrder(k) => self.work_order_indices@.contains_key(k),
                Node::Period(p) => self.period_indices@.contains_key(p.0.days_from_ce),
                Node::Day(d) => self.day_indices@.contains_key(d.days_from_ce),
                Node::Skill(s) => exists|j: int| 0 <= j < self.skill_indices@.len() && #[trigger] self.skill_indices@[j].0 == s,
                Node::Activity(_) => true,
            }
    }

    /// The graph is well formed and its index tables agree with its nodes.
    pub open spec fn wf(&self) -> bool {
        &&& self@.wf()
        &&& self.indices_agree()
    }

    /// An empty graph.
    pub fn new() -> (r: Self)
        ensures
            r.wf(),
            r@.wf(),
            r@.nodes.len() == 0,
            r@.edges.len() == 0,
            r@.incidence.len() == 0,
    {
        let r = Self {
            nodes: Vec::new(),
            hyperedges: Vec::new(),
            incidence_list: Vec::new(),
            worker_indices: HashMap::new(),
            work_order_indices: HashMap::new(),
            period_indices: HashMap::new(),
            skill_indices: Vec::new(),
            day_indices: BTreeMap::new(),
        };
        assert(r@.incidence =~= Seq::<Seq<EdgeIndex>>::empty());
        r
    }

    /// The nodes, by index.
    pub fn nodes(&self) -> (r: &Vec<Node>)
        ensures
            r@ == self@.nodes,
    {
        &self.nodes
    }

    /// The hyperedges, by index.
    pub fn hyperedges(&self) -> (r: &Vec<HyperEdge>)
        ensures
            r@.map_values(|h: HyperEdge| h@) == self@.edges,
    {
        &self.hyperedges
    }

    /// For each node, the edges that touch it, in the order they were added.
    pub fn incidence_list(&self) -> (r: &Vec<Vec<EdgeIndex>>)
        ensures
            r@.map_values(|v: Vec<EdgeIndex>| v@) == self@.incidence,
    {
        &self.incidence_list
    }

    fn worker_node(&self, id: TechnicianId) -> (r: Option<NodeIndex>)
        requires
            self.wf(),
        ensures
            self@.locates(Node::Technician(id), r),
    {
        match self.worker_indices.get(&id) {
            Some(i) => Some(*i),
            None => {
                proof {
                    if self@.has_node(Node::Technician(id)) {
                        let i = choose|i: int| 0 <= i < self@.nodes.len() && self@.nodes[i] == Node::Technician(id);
                        assert(self.nodes@[i] == Node::Technician(id));
                    }
                }
                None
            },
        }
    }

    fn work_order_node(&self, number: WorkOrderNumber) -> (r: Option<NodeIndex>)
        requires
            self.wf(),
        ensures
            self@.locates(Node::WorkOrder(number), r),
    {
        match self.work_order_indices.get(&number) {
            Some(i) => Some(*i),
            None => {
                proof {
                    if self@.has_node(Node::WorkOrder(number)) {
                        let i = choose|i: int| 0 <= i < self@.nodes.len() && self@.nodes[i] == Node::WorkOrder(number);
                        assert(self.nodes@[i] == Node::WorkOrder(number));
                    }
                }
                None
            },
        }
    }

    fn period_node(&self, period: Period) -> (r: Option<NodeIndex>)
        requires
            self.wf(),
        ensures
            self@.locates(Node::Period(period), r),
    {
        match self.period_indices.get(&period.0.days_from_ce) {
            Some(i) => Some(*i),
            None => {
                proof {
                    if self@.has_node(Node::Period(period)) {
                        let i = choose|i: int| 0 <= i < self@.nodes.len() && self@.nodes[i] == Node::Period(period);
                        assert(self.nodes@[i] == Node::Period(period));
                    }
                }
                None
            },
        }
    }

    fn day_node(&self, day: Date) -> (r: Option<NodeIndex>)
        requires
            self.wf(),
        ensures
            self@.locates(Node::Day(day), r),
    {
        match self.day_indices.get(&day.days_from_ce) {
            Some(i) => Some(*i),
            None => {
                proof {
                    if self@.has_node(Node::Day(day)) {
                        let i = choose|i: int| 0 <= i < self@.nodes.len() && self@.nodes[i] == Node::Day(day);
                        assert(self.nodes@[i] == Node::Day(day));
                    }
                }
                None
            },
        }
    }

    fn skill_node(&self, skill: Skill) -> (r: Option<NodeIndex>)
        requires
            self.wf(),
        ensures
            self@.locates(Node::Skill(skill), r),
    {
        let mut j: usize = 0;
        while j < self.skill_indices.len()
            invariant
                self.wf(),
                0 <= j <= self.skill_indices@.len(),
                forall|m: int| 0 <= m < j ==> (#[trigger] self.skill_indices@[m]).0 != skill,
            decreases self.skill_indices@.len() - j,
        {
            if self.skill_indices[j].0 == skill {
                return Some(self.skill_indices[j].1);
            }
            j += 1;
        }
        proof {
            if self@.has_node(Node::Skill(skill)) {
                let i = choose|i: int| 0 <= i < self@.nodes.len() && self@.nodes[i] == Node::Skill(skill);
                assert(self.nodes@[i] == Node::Skill(skill));
            }
        }
        None
    }

    /// The index of a keyed node; `None` for a node that is not in the graph
    /// and for every activity node.
    pub fn node_index(&self, node: Node) -> (r: Option<NodeIndex>)
        requires
            self.wf(),
        ensures
            self@.locates(node, r),
    {
        match node {
            Node::Technician(id) => self.worker_node(id),
            Node::WorkOrder(number) => self.work_order_node(number),
            Node::Activity(_) => None,
            Node::Period(period) => self.period_node(period),
            Node::Skill(skill) => self.skill_node(skill),
            Node::Day(day) => self.day_node(day),
        }
    }

    /// Registers a period: first each of its fourteen days that is not a node
    /// yet, in date order, then the period itself, whose index it returns.
    /// The period must be valid: its last day has a day number.
    pub fn add_period(&mut self, period: Period) -> (r: Result<NodeIndex, ScheduleGraphErrors>)
        requires
            old(self).wf(),
            period.wf(),
        ensures
            final(self).wf(),
            final(self)@.wf(),
            (final(self)@, r) == period_step(old(self)@, period),
            final(self)@.has_node(Node::Period(period)),
            r is Ok ==> forall|d: Date| period.spans(d) ==> #[trigger] final(self)@.has_node(Node::Day(d)),
    {
        if self.period_node(period).is_some() {
            return Err(ScheduleGraphErrors::PeriodDuplicate);
        }
        let ghost g = old(self)@;
        let start = period.0.days_from_ce as i64;
        let mut k: u32 = 0;
        while k < PERIOD_DAYS
            invariant
                self.wf(),
                k <= PERIOD_DAYS,
                start == period.first_day(),
                period.last_day() <= i32::MAX,
                !g.has_node(Node::Period(period)),
                self@ == with_days(g, start as int, k as nat),
            decreases PERIOD_DAYS - k,
        {
            let day = Date { days_from_ce: (start + k as i64) as i32 };
            if self.day_node(day).is_none() {
                self.add_node(Node::Day(day));
            }
            k += 1;
        }
        proof {
            lemma_with_days(g, start as int, PERIOD_DAYS as nat);
        }
        let node_id = self.add_node(Node::Period(period));
        proof {
            lemma_period_registers_its_days(g, period);
            assert(self@.nodes[node_id as int] == Node::Period(period));
        }
        Ok(node_id)
    }

    /// Registers a work order: its node, a `BasicStart` edge to the day node of
    /// its basic start date, then each activity in order (see
    /// `with_activities`). Fails, changing nothing, where an activity's skill
    /// is not a node, where the basic start date is not a day node, or where
    /// the work order is already there, checked in that order.
    pub fn add_work_order(&mut self, work_order: &WorkOrder) -> (r: Result<NodeIndex, ScheduleGraphErrors>)
        requires
            old(self).wf(),
        ensures
            final(self).wf(),
            final(self)@.wf(),
            (final(self)@, r) == work_order_step(
                old(self)@,
                work_order.spec_number(),
                work_order.spec_basic_start_date(),
                work_order.spec_activities(),
                work_order.spec_relations(),
            ),
            (r is Ok || r == Err::<NodeIndex, ScheduleGraphErrors>(ScheduleGraphErrors::WorkOrderDuplicate))
                ==> final(self)@.has_node(Node::WorkOrder(work_order.spec_number())),
            r matches Ok(w) ==> w < final(self)@.nodes.len() && final(self)@.nodes[w as int] == Node::WorkOrder(work_order.spec_number()),
    {
        let ghost g = old(self)@;
        let activities = work_order.activities();
        let ghost acts = activities@;
        let mut i: usize = 0;
        while i < activities.len()
            invariant
                self.wf(),
                self@ == g,
                i <= acts.len(),
                activities@ == acts,
                acts == work_order.spec_activities(),
                forall|k: int| 0 <= k < i ==> self@.has_node(Node::Skill(#[trigger] acts[k].spec_skill())),
            decreases acts.len() - i,
        {
            if self.skill_node(activities[i].skill()).is_none() {
                assert(!skills_present(self@, acts) && acts[i as int] == acts[i as int]);
                return Err(ScheduleGraphErrors::WorkOrderActivityMissingSkills);
            }
            i += 1;
        }
        let day_node = match self.day_node(work_order.basic_start_date()) {
            Some(d) => d,
            None => {
                return Err(ScheduleGraphErrors::DayMissing);
            },
        };
        if self.work_order_node(work_order.number()).is_some() {
            return Err(ScheduleGraphErrors::WorkOrderDuplicate);
        }
        proof {
            lemma_index_of(g, Node::Day(work_order.spec_basic_start_date()), day_node as int);
        }
        let work_order_node = self.add_node(Node::WorkOrder(work_order.number()));
        let basic_start = vec![work_order_node, day_node];
        assert(basic_start@ =~= seq![work_order_node, g.index_of(Node::Day(work_order.spec_basic_start_date())) as NodeIndex]);
        self.add_edge(EdgeType::BasicStart, basic_start);
        let ghost g1 = self@;
        proof {
            assert forall|k: int| 0 <= k < acts.len() implies self@.has_node(Node::Skill(#[trigger] acts[k].spec_skill())) by {
                lemma_push_node_has(g, Node::WorkOrder(work_order.spec_number()), Node::Skill(acts[k].spec_skill()));
            }
        }
        let relations = work_order.activities_relations();
        let mut previous_activity_node: usize = 0;
        let mut j: usize = 0;
        while j < activities.len()
            invariant
                self.wf(),
                j <= acts.len(),
                activities@ == acts,
                acts == work_order.spec_activities(),
                relations@.len() == acts.len(),
                relations@ == work_order.spec_relations(),
                work_order_node < self@.nodes.len(),
                self@.nodes[work_order_node as int] == Node::WorkOrder(work_order.spec_number()),
                j > 0 ==> previous_activity_node == self@.nodes.len() - 1,
                self@ == with_activities(g1, work_order_node, acts, relations@, j as nat),
                forall|k: int| 0 <= k < acts.len() ==> self@.has_node(Node::Skill(#[trigger] acts[k].spec_skill())),
            decreases acts.len() - j,
        {
            let activity = &activities[j];
            let ghost h = self@;
            let skill_node = self.skill_node(activity.skill()).unwrap();
            proof {
                assert(self@.has_node(Node::Skill(acts[j as int].spec_skill())));
                lemma_index_of(h, Node::Skill(acts[j as int].spec_skill()), skill_node as int);
            }
            let activity_node = self.add_node(Node::Activity(activity.number()));
            let contains = vec![work_order_node, activity_node];
            assert(contains@ =~= seq![work_order_node, activity_node]);
            self.add_edge(EdgeType::Contains, contains);
            let requirement = vec![activity_node, skill_node];
            assert(requirement@ =~= seq![activity_node, skill_node]);
            self.add_edge(EdgeType::Requires, requirement);
            if j != 0 {
                if let Some(kind) = precedence_edge_type(&relations[j - 1]) {
                    let precedence = vec![previous_activity_node, activity_node];
                    assert(precedence@ =~= seq![previous_activity_node, activity_node]);
                    self.add_edge(kind, precedence);
                }
            }
            proof {
                assert forall|k: int| 0 <= k < acts.len() implies self@.has_node(Node::Skill(#[trigger] acts[k].spec_skill())) by {
                    lemma_push_node_has(h, Node::Activity(acts[j as int].spec_number()), Node::Skill(acts[k].spec_skill()));
                }
            }
            previous_activity_node = activity_node;
            j += 1;
        }
        proof {
            assert(self@.nodes[work_order_node as int] == Node::WorkOrder(work_order.spec_number()));
        }
        Ok(work_order_node)
    }

    /// Registers a technician: its node, a `HasSkill` edge to each of its
    /// skills, then an `Available` edge to the start and finish day of each of
    /// its availability intervals. Fails, changing nothing, where the
    /// technician is already there, where a skill is not a node, or where a
    /// start or finish date is not a day node, checked in that order.
    pub fn add_technician(&mut self, technician: Technician) -> (r: Result<NodeIndex, ScheduleGraphErrors>)
        requires
            old(self).wf(),
        ensures
            final(self).wf(),
            final(self)@.wf(),
            (final(self)@, r) == technician_step(
                old(self)@,
                technician.spec_id(),
                technician.spec_skills(),
                technician.spec_availabilities(),
            ),
            final(self)@.has_node(Node::Technician(technician.spec_id())) <==> (r is Ok || r
                == Err::<NodeIndex, ScheduleGraphErrors>(ScheduleGraphErrors::WorkerDuplicate)),
            r matches Ok(t) ==> t < final(self)@.nodes.len() && final(self)@.nodes[t as int] == Node::Technician(technician.spec_id()),
    {
        let ghost g = old(self)@;
        if self.worker_node(technician.id()).is_some() {
            return Err(ScheduleGraphErrors::WorkerDuplicate);
        }
        let skills = technician.skills();
        let intervals = technician.availabilities();
        let mut i: usize = 0;
        while i < skills.len()
            invariant
                self.wf(),
                self@ == g,
                skills@ == technician.spec_skills(),
                !g.has_node(Node::Technician(technician.spec_id())),
                i <= skills@.len(),
                forall|k: int| 0 <= k < i ==> self@.has_node(Node::Skill(#[trigger] skills@[k])),
            decreases skills@.len() - i,
        {
            if self.skill_node(skills[i]).is_none() {
                assert(!skills_registered(self@, skills@) && skills@[i as int] == skills@[i as int]);
                return Err(ScheduleGraphErrors::SkillMissing);
            }
            i += 1;
        }
        let mut i: usize = 0;
        while i < intervals.len()
            invariant
                self.wf(),
                self@ == g,
                skills@ == technician.spec_skills(),
                intervals@ == technician.spec_availabilities(),
                !g.has_node(Node::Technician(technician.spec_id())),
                skills_registered(g, skills@),
                i <= intervals@.len(),
                forall|k: int|
                    0 <= k < i ==> self@.has_node(Node::Day((#[trigger] intervals@[k]).0.date)) && self@.has_node(
                        Node::Day(intervals@[k].1.date),
                    ),
            decreases intervals@.len() - i,
        {
            if self.day_node(intervals[i].0.date).is_none() || self.day_node(intervals[i].1.date).is_none() {
                assert(!intervals_registered(self@, intervals@) && intervals@[i as int] == intervals@[i as int]);
                return Err(ScheduleGraphErrors::DayMissing);
            }
            i += 1;
        }
        let technician_node = self.add_node(Node::Technician(technician.id()));
        let ghost g1 = self@;
        proof {
            assert forall|k: int| 0 <= k < skills@.len() implies self@.has_node(Node::Skill(#[trigger] skills@[k])) by {
                lemma_push_node_has(g, Node::Technician(technician.spec_id()), Node::Skill(skills@[k]));
            }
            assert forall|k: int| 0 <= k < intervals@.len() implies self@.has_node(Node::Day((#[trigger] intervals@[k]).0.date))
                && self@.has_node(Node::Day(intervals@[k].1.date)) by {
                lemma_push_node_has(g, Node::Technician(technician.spec_id()), Node::Day(intervals@[k].0.date));
                lemma_push_node_has(g, Node::Technician(technician.spec_id()), Node::Day(intervals@[k].1.date));
            }
        }
        let mut j: usize = 0;
        while j < skills.len()
            invariant
                self.wf(),
                j <= skills@.len(),
                technician_node < self@.nodes.len(),
                self@.nodes == g1.nodes,
                self@ == with_skill_edges(g1, technician_node, skills@, j as nat),
                skills_registered(g1, skills@),
            decreases skills@.len() - j,
        {
            let ghost h = self@;
            assert(h.has_node(Node::Skill(skills@[j as int])));
            let skill_node = self.skill_node(skills[j]).unwrap();
            proof {
                lemma_index_of(h, Node::Skill(skills@[j as int]), skill_node as int);
            }
            let members = vec![technician_node, skill_node];
            assert(members@ =~= seq![technician_node, skill_node]);
            self.add_edge(EdgeType::HasSkill, members);
            j += 1;
        }
        let ghost g2 = self@;
        let mut j: usize = 0;
        while j < intervals.len()
            invariant
                self.wf(),
                j <= intervals@.len(),
                technician_node < self@.nodes.len(),
                self@.nodes == g1.nodes,
                self@ == with_availability_edges(g2, technician_node, intervals@, j as nat),
                intervals_registered(g1, intervals@),
            decreases intervals@.len() - j,
        {
            let ghost h = self@;
            assert(h.has_node(Node::Day(intervals@[j as int].0.date)));
            assert(h.has_node(Node::Day(intervals@[j as int].1.date)));
            let start_node = self.day_node(intervals[j].0.date).unwrap();
            let finish_node = self.day_node(intervals[j].1.date).unwrap();
            proof {
                lemma_index_of(h, Node::Day(intervals@[j as int].0.date), start_node as int);
                lemma_index_of(h, Node::Day(intervals@[j as int].1.date), finish_node as int);
            }
            let members = vec![technician_node, start_node, finish_node];
            assert(members@ =~= seq![technician_node, start_node, finish_node]);
            self.add_edge(EdgeType::Available, members);
            j += 1;
        }
        proof {
            assert(self@.nodes[technician_node as int] == Node::Technician(technician.spec_id()));
        }
        Ok(technician_node)
    }

    /// Records an assignment of a technician to a work order in a period: an
    /// `Assign` edge with no time of day over the three nodes.
    pub fn add_assignment_work_order(&mut self, worker: TechnicianId, work_order: WorkOrderNumber, date: Period) -> (r:
        Result<EdgeIndex, ScheduleGraphErrors>)
        requires
            old(self).wf(),
        ensures
            final(self).wf(),
            final(self)@.wf(),
            (final(self)@, r) == assign_work_order_step(old(self)@, worker, work_order, date),
    {
        let ghost g = old(self)@;
        let worker = match self.worker_node(worker) {
            Some(i) => i,
            None => return Err(ScheduleGraphErrors::WorkerMissing),
        };
        let work_order = match self.work_order_node(work_order) {
            Some(i) => i,
            None => return Err(ScheduleGraphErrors::WorkOrderMissing),
        };
        let date = match self.period_node(date) {
            Some(i) => i,
            None => return Err(ScheduleGraphErrors::PeriodMissing),
        };
        proof {
            lemma_index_of(g, g.nodes[worker as int], worker as int);
            lemma_index_of(g, g.nodes[work_order as int], work_order as int);
            lemma_index_of(g, g.nodes[date as int], date as int);
        }
        let members = vec![worker, work_order, date];
        assert(members@ =~= seq![worker, work_order, date]);
        Ok(self.add_edge(EdgeType::Assign(None), members))
    }

    /// Records that a technician has a skill: a `HasSkill` edge, added however
    /// many the technician has already.
    pub fn add_assign_skill_to_worker(&mut self, worker: TechnicianId, skill: Skill) -> (r: Result<EdgeIndex, ScheduleGraphErrors>)
        requires
            old(self).wf(),
        ensures
            final(self).wf(),
            final(self)@.wf(),
            (final(self)@, r) == skill_to_worker_step(old(self)@, worker, skill),
    {
        let ghost g = old(self)@;
        let worker = match self.worker_node(worker) {
            Some(i) => i,
            None => return Err(ScheduleGraphErrors::WorkerMissing),
        };
        let skill = match self.skill_node(skill) {
            Some(i) => i,
            None => return Err(ScheduleGraphErrors::SkillMissing),
        };
        proof {
            lemma_index_of(g, g.nodes[worker as int], worker as int);
            lemma_index_of(g, g.nodes[skill as int], skill as int);
        }
        let members = vec![worker, skill];
        assert(members@ =~= seq![worker, skill]);
        Ok(self.add_edge(EdgeType::HasSkill, members))
    }

    /// Records that a work order must not be scheduled in a period: an
    /// `Exclude` edge from the work order to the period.
    pub fn add_exclusion(&mut self, work_order_number: &WorkOrderNumber, period: &Period) -> (r: Result<EdgeIndex, ScheduleGraphErrors>)
        requires
            old(self).wf(),
        ensures
            final(self).wf(),
            final(self)@.wf(),
            (final(self)@, r) == exclusion_step(old(self)@, *work_order_number, *period),
    {
        let ghost g = old(self)@;
        let work_order = match self.work_order_node(*work_order_number) {
            Some(i) => i,
            None => return Err(ScheduleGraphErrors::WorkOrderMissing),
        };
        let period = match self.period_node(*period) {
            Some(i) => i,
            None => return Err(ScheduleGraphErrors::PeriodMissing),
        };
        proof {
            lemma_index_of(g, g.nodes[work_order as int], work_order as int);
            lemma_index_of(g, g.nodes[period as int], period as int);
        }
        let members = vec![work_order, period];
        assert(members@ =~= seq![work_order, period]);
        Ok(self.add_edge(EdgeType::Exclude, members))
    }

    fn contained_activity(&self, work_order_node: NodeIndex, activity_number: ActivityNumber) -> (r: Option<NodeIndex>)
        requires
            self.wf(),
            work_order_node < self@.nodes.len(),
        ensures
            r == find_contained(self@, self@.incidence[work_order_node as int], activity_number),
    {
        let incident = &self.incidence_list[work_order_node];
        let ghost es = incident@;
        assert(es == self@.incidence[work_order_node as int]);
        assert(es.subrange(0, es.len() as int) =~= es);
        let mut k: usize = 0;
        while k < incident.len()
            invariant
                self.wf(),
                incident@ == es,
                es == self@.incidence[work_order_node as int],
                work_order_node < self@.nodes.len(),
                k <= es.len(),
                find_contained(self@, es, activity_number) == find_contained(self@, es.subrange(k as int, es.len() as int), activity_number),
            decreases es.len() - k,
        {
            let ghost rest = es.subrange(k as int, es.len() as int);
            assert(rest[0] == es[k as int]);
            assert(rest.drop_first() =~= es.subrange(k + 1, es.len() as int));
            let e = incident[k];
            assert(e < self@.edges.len());
            let edge = &self.hyperedges[e];
            assert(edge@ == self@.edges[e as int]);
            if matches!(edge.edge_type, EdgeType::Contains) && edge.nodes.len() >= 2 {
                assert(self@.edges_in_arena());
                assert(self@.edges[e as int].nodes[1] < self@.nodes.len());
                if self.nodes[edge.nodes[1]] == Node::Activity(activity_number) {
                    return Some(edge.nodes[1]);
                }
            }
            k += 1;
        }
        None
    }

    /// Records an assignment of a technician to one activity of a work order,
    /// with its start and finish time of day: an `Assign` edge over the
    /// technician and the activity. Each of `days` must be a registered day,
    /// though the edge does not name them.
    pub fn add_assignment_activity(
        &mut self,
        worker: TechnicianId,
        work_order_number: WorkOrderNumber,
        activity_number: ActivityNumber,
        days: Vec<Date>,
        start_and_finish_time: (StartTime, FinishTime),
    ) -> (r: Result<EdgeIndex, ScheduleGraphErrors>)
        requires
            old(self).wf(),
        ensures
            final(self).wf(),
            final(self)@.wf(),
            (final(self)@, r) == assign_activity_step(
                old(self)@,
                worker,
                work_order_number,
                activity_number,
                days@,
                start_and_finish_time,
            ),
    {
        let ghost g = old(self)@;
        let worker_node_id = match self.worker_node(worker) {
            Some(i) => i,
            None => return Err(ScheduleGraphErrors::WorkerMissing),
        };
        let work_order_node_id = match self.work_order_node(work_order_number) {
            Some(i) => i,
            None => return Err(ScheduleGraphErrors::WorkOrderMissing),
        };
        proof {
            lemma_index_of(g, g.nodes[worker_node_id as int], worker_node_id as int);
            lemma_index_of(g, g.nodes[work_order_node_id as int], work_order_node_id as int);
        }
        let activity_node_id = match self.contained_activity(work_order_node_id, activity_number) {
            Some(i) => i,
            None => return Err(ScheduleGraphErrors::ActivityMissing),
        };
        let mut k: usize = 0;
        while k < days.len()
            invariant
                self.wf(),
                self@ == g,
                g.has_node(Node::Technician(worker)),
                g.has_node(Node::WorkOrder(work_order_number)),
                g.index_of(Node::WorkOrder(work_order_number)) == work_order_node_id,
                find_contained(g, g.incidence[work_order_node_id as int], activity_number) == Some(activity_node_id),
                k <= days@.len(),
                forall|m: int| 0 <= m < k ==> self@.has_node(Node::Day(#[trigger] days@[m])),
            decreases days@.len() - k,
        {
            if self.day_node(days[k]).is_none() {
                assert(!days_present(self@, days@) && days@[k as int] == days@[k as int]);
                return Err(ScheduleGraphErrors::DayMissing);
            }
            k += 1;
        }
        proof {
            assert(self@.edges_in_arena());
            let es = g.incidence[work_order_node_id as int];
            lemma_contained_in_arena(g, es, activity_number);
        }
        let members = vec![worker_node_id, activity_node_id];
        assert(members@ =~= seq![worker_node_id, activity_node_id]);
        Ok(self.add_edge(EdgeType::Assign(Some(start_and_finish_time)), members))
    }

    fn node_in_period(&self, i: NodeIndex, period: Period) -> (r: bool)
        requires
            i < self@.nodes.len(),
        ensures
            r == node_in_period(self@.nodes[i as int], period),
    {
        match self.nodes[i] {
            Node::Period(p) => p == period,
            Node::Day(d) => period.contains_date(d),
            _ => false,
        }
    }

    fn edge_touches_period(&self, e: EdgeIndex, period: Period) -> (r: bool)
        requires
            self.wf(),
            e < self@.edges.len(),
        ensures
            r == touches_period(self@, self@.edges[e as int], period),
    {
        let nodes = &self.hyperedges[e].nodes;
        let ghost ev = self@.edges[e as int];
        assert(nodes@ == ev.nodes);
        let mut k: usize = 0;
        while k < nodes.len()
            invariant
                self.wf(),
                nodes@ == ev.nodes,
                ev == self@.edges[e as int],
                e < self@.edges.len(),
                k <= nodes@.len(),
                forall|m: int| 0 <= m < k ==> !node_in_period(self@.nodes[#[trigger] ev.nodes[m] as int], period),
            decreases nodes@.len() - k,
        {
            assert(self@.edges_in_arena());
            assert(ev.nodes[k as int] < self@.nodes.len());
            if self.node_in_period(nodes[k], period) {
                return true;
            }
            k += 1;
        }
        false
    }

    /// The `Assign` edges that name the period's node or the node of one of
    /// its fourteen days, in ascending order of index. Fails where the period
    /// is not registered.
    pub fn find_all_assignments_for_period(&self, period_start_date: Period) -> (r: Result<Vec<EdgeIndex>, ScheduleGraphErrors>)
        requires
            self.wf(),
        ensures
            r is Err <==> !self@.has_node(Node::Period(period_start_date)),
            r matches Err(e) ==> e == ScheduleGraphErrors::PeriodMissing,
            r matches Ok(v) ==> v@ == assignments_in(self@, period_start_date, self@.edges.len()),
    {
        if self.period_node(period_start_date).is_none() {
            return Err(ScheduleGraphErrors::PeriodMissing);
        }
        let mut edges: Vec<EdgeIndex> = Vec::new();
        let mut e: usize = 0;
        while e < self.hyperedges.len()
            invariant
                self.wf(),
                e <= self@.edges.len(),
                edges@ == assignments_in(self@, period_start_date, e as nat),
            decreases self@.edges.len() - e,
        {
            assert(self.hyperedges@[e as int]@ == self@.edges[e as int]);
            if matches!(self.hyperedges[e].edge_type, EdgeType::Assign(_)) && self.edge_touches_period(e, period_start_date) {
                edges.push(e);
            }
            e += 1;
        }
        Ok(edges)
    }

    /// Appends a node and enters its key in the matching index table. This is
    /// the raw insertion under the `add_*` operations: it links nothing. It is
    /// how a skill is registered, and lets a graph be built node by node.
    ///
    /// A keyed node must not be in the graph yet.
    pub fn add_node(&mut self, node: Node) -> (r: NodeIndex)
        requires
            old(self).wf(),
            !(is_keyed(node) && old(self)@.has_node(node)),
        ensures
            final(self).wf(),
            final(self)@.wf(),
            final(self)@ == old(self)@.push_node(node),
            r == old(self)@.nodes.len(),
            final(self)@.nodes[r as int] == node,
    {
        let node_index = self.nodes.len();
        match node {
            Node::Technician(worker) => {
                self.worker_indices.insert(worker, node_index);
            },
            Node::WorkOrder(work_order) => {
                self.work_order_indices.insert(work_order, node_index);
            },
            Node::Period(period) => {
                self.period_indices.insert(period.0.days_from_ce, node_index);
            },
            Node::Skill(skill) => {
                self.skill_indices.push((skill, node_index));
            },
            Node::Activity(_) => {},
            Node::Day(date) => {
                self.day_indices.insert(date.days_from_ce, node_index);
            },
        }
        self.incidence_list.push(Vec::new());
        self.nodes.push(node);
        proof {
            let g = old(self)@;
            assert(self@.nodes =~= g.nodes.push(node));
            assert(self@.edges =~= g.edges);
            assert(self@.incidence =~= g.incidence.push(Seq::empty()));
            assert(self.nodes@.len() == self.nodes.len());
            lemma_push_node_wf(g, node);
            let n0 = old(self).nodes@.len() as int;
            assert forall|i: int| 0 <= i < self.nodes@.len() implies match #[trigger] self.nodes@[i] {
                Node::Technician(k) => self.worker_indices@.contains_key(k),
                Node::WorkOrder(k) => self.work_order_indices@.contains_key(k),
                Node::Period(p) => self.period_indices@.contains_key(p.0.days_from_ce),
                Node::Day(d) => self.day_indices@.contains_key(d.days_from_ce),
                Node::Skill(s) => exists|j: int| 0 <= j < self.skill_indices@.len() && #[trigger] self.skill_indices@[j].0 == s,
                Node::Activity(_) => true,
            } by {
                if i < n0 {
                    assert(self.nodes@[i] == old(self).nodes@[i]);
                    if let Node::Skill(s) = self.nodes@[i] {
                        let j = choose|j: int| 0 <= j < old(self).skill_indices@.len() && #[trigger] old(self).skill_indices@[j].0 == s;
                        assert(self.skill_indices@[j] == old(self).skill_indices@[j]);
                    }
                } else {
                    if let Node::Skill(s) = node {
                        assert(self.skill_indices@[self.skill_indices@.len() - 1].0 == s);
                    }
                }
            }
            assert forall|j: int| 0 <= j < self.skill_indices@.len() implies self.places(
                #[trigger] self.skill_indices@[j].1,
                Node::Skill(self.skill_indices@[j].0),
            ) by {
                if j < old(self).skill_indices@.len() {
                    assert(self.skill_indices@[j] == old(self).skill_indices@[j]);
                    assert(old(self).places(old(self).skill_indices@[j].1, Node::Skill(old(self).skill_indices@[j].0)));
                }
            }
        }
        node_index
    }

    /// Appends an edge over nodes of the arena and lists it with each of them.
    /// This is the raw insertion under the `add_*` operations: it checks no
    /// domain rule.
    pub fn add_edge(&mut self, edge_type: EdgeType, nodes: Vec<NodeIndex>) -> (r: EdgeIndex)
        requires
            old(self).wf(),
            forall|k: int| 0 <= k < nodes@.len() ==> nodes@[k] < old(self)@.nodes.len(),
        ensures
            final(self).wf(),
            final(self)@.wf(),
            final(self)@ == old(self)@.push_edge(edge_type, nodes@),
            r == old(self)@.edges.len(),
            nodes@.no_duplicates() ==> forall|i: int|
                0 <= i < old(self)@.incidence.len() ==> #[trigger] final(self)@.incidence[i] == if nodes@.contains(
                    i as NodeIndex,
                ) {
                    old(self)@.incidence[i].push(r)
                } else {
                    old(self)@.incidence[i]
                },
    {
        let edge_index = self.hyperedges.len();
        let ghost g = old(self)@;
        let mut k: usize = 0;
        while k < nodes.len()
            invariant
                0 <= k <= nodes@.len(),
                edge_index == g.edges.len(),
                g == old(self)@,
                g.wf(),
                forall|m: int| 0 <= m < nodes@.len() ==> nodes@[m] < g.nodes.len(),
                self.nodes == old(self).nodes,
                self.hyperedges == old(self).hyperedges,
                self.worker_indices == old(self).worker_indices,
                self.work_order_indices == old(self).work_order_indices,
                self.period_indices == old(self).period_indices,
                self.skill_indices == old(self).skill_indices,
                self.day_indices == old(self).day_indices,
                self.incidence_list@.len() == g.incidence.len(),
                forall|i: int|
                    0 <= i < g.incidence.len() ==> #[trigger] self.incidence_list@[i]@ == g.incidence[i] + repeat_edge(
                        edge_index,
                        count_in(nodes@.take(k as int), i),
                    ),
            decreases nodes@.len() - k,
        {
            let n = nodes[k];
            self.incidence_list[n].push(edge_index);
            proof {
                assert forall|i: int| 0 <= i < g.incidence.len() implies #[trigger] self.incidence_list@[i]@
                    == g.incidence[i] + repeat_edge(edge_index, count_in(nodes@.take(k + 1), i)) by {
                    lemma_count_step(nodes@, k as int, i);
                    let c = count_in(nodes@.take(k as int), i);
                    if i == n {
                        assert(repeat_edge(edge_index, c + 1) =~= repeat_edge(edge_index, c).push(edge_index));
                        assert(g.incidence[i] + repeat_edge(edge_index, c + 1) =~= (g.incidence[i] + repeat_edge(edge_index, c)).push(edge_index));
                    }
                }
            }
            k += 1;
        }
        let ghost node_seq = nodes@;
        assert(node_seq.take(node_seq.len() as int) =~= node_seq);
        self.hyperedges.push(HyperEdge { edge_type, nodes });
        proof {
            let h = g.push_edge(edge_type, node_seq);
            assert(self@.edges =~= h.edges);
            assert(self@.incidence =~= h.incidence);
            assert(self.hyperedges@.len() == self.hyperedges.len());
            lemma_push_edge_wf(g, edge_type, node_seq);
            if node_seq.no_duplicates() {
                lemma_push_edge_incidence(g, edge_type, node_seq);
            }
        }
        edge_index
    }
}

impl Default for ScheduleGraph {
    fn default() -> (r: Self)
        ensures
            r.wf(),
            r@.wf(),
            r@.nodes.len() == 0,
            r@.edges.len() == 0,
            r@.incidence.len() == 0,
    {
        Self::new()
    }
}

} // verus!
