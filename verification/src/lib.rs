//! Exact measurement of what a cycle count reveals about a secret.
//!
//! A sweep maps secrets to cycle counts. Secrets with the same count cannot be
//! told apart, so the count splits them into classes, and how much it reveals is
//! arithmetic on the weights of those classes. Weights are naturals; quantities in
//! bits are fixed-point numbers.

pub mod natural;
pub mod binary_log;

pub mod partition;
pub mod partition_laws;
pub mod leakage;
pub mod laws;

pub mod buckets;
pub mod frontier;
pub mod padding_laws;

pub mod convexity;
pub mod scale;
pub mod batch_laws;
pub mod batch_lists;

pub mod text;
pub mod text_laws;
pub mod reading;
pub mod weight;
pub mod weight_laws;
pub mod csv;
pub mod csv_laws;
pub mod sweep_laws;
pub mod message_laws;

pub mod options;
pub mod options_laws;
pub mod report;
pub mod report_laws;
pub mod table_laws;
pub mod selftest;
pub mod selftest_laws;
pub mod check_laws;
