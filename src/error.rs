//! Domain errors and how they appear on the wire.
use vstd::prelude::*;

verus! {

pub const MSG_NOT_ENOUGH_DATA: &'static str = "Not enough data to calculate stats";

pub const MSG_EMPTY_BATCH: &'static str = "Cannot add an empty batch of values";

pub const MSG_BATCH_TOO_LARGE: &'static str = "Batch size cannot exceed 10000 values.";

pub const MSG_NEGATIVE_PRICES: &'static str = "Negative trading prices are not allowed";

pub const MSG_SYMBOL_CAP: &'static str = "Maximum number of unique symbols (10) reached.";

pub const MSG_BAD_EXPONENT: &'static str = "exponent must be an integer between 1 and 8";

pub const STATUS_BAD_REQUEST: u16 = 400;

pub const STATUS_NOT_FOUND: u16 = 404;

#[derive(Debug, PartialEq, Eq)]
pub enum AppError {
    /// A query named a symbol that was never ingested; holds the symbol.
    SymbolNotFound(String),
    /// A query found no samples to summarize.
    NotEnoughData,
    /// A request broke a rule; holds the reason.
    BadRequest(String),
}

/// `e` is a `BadRequest` with reason `msg`.
pub open spec fn is_bad_request(e: AppError, msg: Seq<char>) -> bool {
    e is BadRequest && e->BadRequest_0@ == msg
}

pub open spec fn status_of(e: AppError) -> u16 {
    match e {
        AppError::SymbolNotFound(_) => STATUS_NOT_FOUND,
        _ => STATUS_BAD_REQUEST,
    }
}

pub open spec fn message_of(e: AppError) -> Seq<char> {
    match e {
        AppError::SymbolNotFound(s) => s@,
        AppError::NotEnoughData => MSG_NOT_ENOUGH_DATA@,
        AppError::BadRequest(m) => m@,
    }
}

/// A `BadRequest` carrying `msg`.
pub fn bad_request(msg: &str) -> (e: AppError)
    ensures
        is_bad_request(e, msg@),
{
    AppError::BadRequest(msg.to_owned())
}

impl AppError {
    /// HTTP status of the error: 404 for an unknown symbol, 400 otherwise.
    pub fn status_code(&self) -> (r: u16)
        ensures
            r == status_of(*self),
    {
        match self {
            AppError::SymbolNotFound(_) => STATUS_NOT_FOUND,
            _ => STATUS_BAD_REQUEST,
        }
    }

    /// Text of the `error` field of the response body.
    pub fn message(&self) -> (r: String)
        ensures
            r@ == message_of(*self),
    {
        match self {
            AppError::SymbolNotFound(s) => s.clone(),
            AppError::NotEnoughData => MSG_NOT_ENOUGH_DATA.to_owned(),
            AppError::BadRequest(m) => m.clone(),
        }
    }
}

} // verus!
