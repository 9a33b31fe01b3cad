//! A domain hypergraph for maintenance scheduling: technicians, work orders,
//! activities, skills, calendar days and planning periods, with the typed
//! relations between them, checked as they are inserted.

pub mod calendar;
pub mod schedule_graph;
pub mod technician;
pub mod work_order;
pub mod strategic;
