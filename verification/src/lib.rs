//! The logic of a small container runtime: what it asks of the kernel, in which
//! order, with which values, and what it makes of the answers.
//!
//! [`container`] holds both halves of a container's life as machines that name
//! one step at a time; [`cgroups`], [`filesystem`] and [`namespaces`] hold the
//! steps; [`action`] holds what steps and answers are made of. [`text`],
//! [`bignat`], [`float`] and [`literal`] are what reading sizes and fractions
//! takes. The remaining modules state what holds of all of it.
pub mod action;
pub mod bignat;
pub mod cgroups;
pub mod child_laws;
pub mod container;
pub mod cpu_laws;
pub mod filesystem;
pub mod float;
pub mod literal;
pub mod literal_laws;
pub mod namespaces;
pub mod number_laws;
pub mod run_laws;
pub mod size_laws;
pub mod step_laws;
pub mod text;
pub mod text_laws;
pub mod view_laws;
