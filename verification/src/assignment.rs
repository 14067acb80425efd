pub mod assignment;
pub mod assignments;
pub mod single_assignment;
