//! Commission-report engine: splits each sales invoice's value into dated
//! installments according to its payment-interval terms, computes a commission
//! per installment, and groups the installments into chronologically ordered
//! calendar-month buckets.

pub mod date;
pub mod interval;
pub mod allocate;
pub mod aggregate;
pub mod report;
pub mod text;
