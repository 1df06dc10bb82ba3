use vstd::prelude::*;

pub mod api;
pub mod db;
pub mod models;
pub mod outline;
pub mod order;
pub mod parser;
pub mod surfacer;
pub mod text;
pub mod topics;

verus! {

/// The error kinds surfaced by the library's operations.
#[derive(Debug, Clone)]
pub enum PatinaError {
    DatabaseError(String),
    NetworkError(String),
    ParseError(String),
    NotFound,
    InvalidUrl(String),
    IoError(String),
    FeedAlreadyExists(String),
}

impl PatinaError {
    /// A short, human-readable description of the error.
    pub fn message(&self) -> (r: String)
        ensures
            (match self {
                PatinaError::NotFound => r@ == "not found"@,
                _ => true,
            }),
    {
        match self {
            PatinaError::DatabaseError(s) => s.clone(),
            PatinaError::NetworkError(s) => s.clone(),
            PatinaError::ParseError(s) => s.clone(),
            PatinaError::NotFound => "not found".to_owned(),
            PatinaError::InvalidUrl(s) => s.clone(),
            PatinaError::IoError(s) => s.clone(),
            PatinaError::FeedAlreadyExists(s) => s.clone(),
        }
    }
}

} // verus!
