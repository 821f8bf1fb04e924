//! An exact solver for the symmetric travelling salesperson problem, with
//! the containers, the fixed-point arithmetic and the instance-file scanner
//! it rests on.

pub mod distance;
pub mod edge;
pub mod held_karp;
pub mod instance;
pub mod matrix;
pub mod matrix_sym;
pub mod node;
pub mod parser;
pub mod tsp_lib_spec;
