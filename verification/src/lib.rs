//! A minimal computation-graph front end.
//!
//! The library lets a caller declare named parameter and input values, compose
//! them into an arithmetic expression DAG with explicit subexpression sharing,
//! validate that every input referenced inside the DAG belongs to the owning
//! function, and linearize the DAG into a dependency-respecting execution
//! order.

pub mod alg;
pub mod cc;
