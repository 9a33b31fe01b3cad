//! The capacity ledger that a strategic planner reads and writes: what each
//! technician can give per period and skill, and what each work order asks.

use crate::calendar::Period;
use crate::schedule_graph::Skill;
use crate::schedule_graph::TechnicianId;
use crate::work_order::WorkOrderNumber;
use std::collections::HashMap;
use std::collections::HashSet;
use vstd::prelude::*;

verus! {

/// An amount of work, in hours.
pub type Work = u64;

/// The planner's inputs: a record per work order, the capacity on hand, the
/// periods that are locked, and the known periods in order.
#[derive(Debug)]
pub struct StrategicParameters {
    pub strategic_work_order_parameters: HashMap<WorkOrderNumber, WorkOrderParameter>,
    pub strategic_capacity: StrategicResources,
    pub period_locks: HashSet<Period>,
    pub strategic_periods: Vec<Period>,
}

/// What a work order asks of the plan: a period it is locked in, if any (its
/// assignment must be that period), periods it must avoid, the latest period
/// it may go in, its priority weight, and the hours it needs per skill.
#[derive(Debug, PartialEq)]
pub struct WorkOrderParameter {
    pub locked_in_period: Option<Period>,
    pub excluded_periods: HashSet<Period>,
    pub latest_period: Period,
    pub weight: i64,
    pub work_load: HashMap<Skill, Work>,
}

/// Per period, per technician, the capacity on hand.
#[derive(Default, Debug, Clone, PartialEq)]
pub struct StrategicResources(pub HashMap<Period, HashMap<TechnicianId, OperationalResource>>);

/// One technician's capacity in a period: hours in all, and hours per skill.
#[derive(Clone, PartialEq, Debug, Default)]
pub struct OperationalResource {
    pub id: TechnicianId,
    pub total_hours: Work,
    pub skill_hours: HashMap<Skill, Work>,
}

} // verus!
