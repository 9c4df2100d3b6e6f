//! An in-memory roster of employees and their departments.
//!
//! The library keeps a table that maps each employee name to the department
//! the employee currently belongs to, validates new assignments against fixed
//! reference lists, and answers membership queries with lexicographically
//! sorted results.

pub mod laws;
pub mod menu;
pub mod ops;
pub mod order;
pub mod seed;
pub mod table;
pub mod text;
