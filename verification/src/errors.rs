//! Error types of the analytics engine.
//!
//! Aggregators never fail for "not found": absence is an explicit empty or
//! optional value. These types exist for callers that compose the engine with
//! loading and persistence collaborators.

use vstd::prelude::*;

verus! {

/// Errors of the data-preparation layer.
#[derive(Debug, PartialEq, Eq, Structural, Clone, Copy)]
pub enum DataPreparerError {
    /// No data to prepare.
    NoData,
    /// A call message carried an unusable duration.
    InvalidCallsArray { id: i64 },
}

/// Errors raised while generating a statistic.
#[derive(Debug)]
pub enum StatisticError {
    FailedToGenStat(String),
    FailedToGetData(DataPreparerError),
}

/// Error of the storage collaborator.
#[derive(Debug, PartialEq, Eq, Structural, Clone, Copy)]
pub enum StorageError {
    Save,
}

/// Error of the report-output collaborator.
#[derive(Debug, PartialEq, Eq, Structural, Clone, Copy)]
pub enum DataError {
    Save,
}

} // verus!
