use vstd::prelude::*;

verus! {

/// Failures of the upstream sources and of the durable store.
#[derive(Debug, Clone, PartialEq, Eq)]
pub enum AppError {
    /// The chain node could not be reached or the call failed.
    RpcError(String),
    /// The market-data endpoint could not be reached.
    ApiError(String),
    /// A malformed address or an unparseable upstream payload.
    ParseError(String),
    /// The durable store could not be reached or the query failed.
    DbError(String),
}

impl AppError {
    /// A human-readable description of the error.
    pub fn message(&self) -> (r: String)
        ensures
            r@ == match self {
                AppError::RpcError(m) => m@,
                AppError::ApiError(m) => m@,
                AppError::ParseError(m) => m@,
                AppError::DbError(m) => m@,
            },
    {
        match self {
            AppError::RpcError(m) => m.clone(),
            AppError::ApiError(m) => m.clone(),
            AppError::ParseError(m) => m.clone(),
            AppError::DbError(m) => m.clone(),
        }
    }
}

} // verus!
