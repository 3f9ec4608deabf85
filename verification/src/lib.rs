//! Ruin half of a ruin-and-recreate metaheuristic for vehicle routing
//! problems: strategies that remove jobs from a feasible solution and hand
//! them to an external recreate phase through the required pool.

pub mod model;
pub mod random;
pub mod adjusted_string_removal;
pub mod worst_jobs_removal;
pub mod breaks;
pub mod decipher;
pub mod ruin;
