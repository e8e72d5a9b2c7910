pub mod problem2;
pub mod problem3;
pub mod problem4;
