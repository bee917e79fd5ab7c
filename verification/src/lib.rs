pub mod laws;
pub mod model;
pub mod nonpreemptive;
pub mod preemptive;
pub mod process;
pub mod queue;
pub mod report;
pub mod sorting;
