use vstd::prelude::*;

verus! {

/// Why an operation on the store did not succeed.
#[derive(Debug, Clone, PartialEq, Eq)]
pub enum PasteError {
    /// No record is stored under this id.
    NotFound(u64),
    /// The supplied content is blank, or too long to be stored.
    InvalidInput(String),
    /// An encoded record would exceed the bound on a record's size.
    Oversize,
    /// The stored bytes for this id do not decode as a record.
    CorruptRecord(u64),
    /// The id space or the address space of the store is exhausted.
    StoreFull,
    /// The bytes handed to the store do not hold a store.
    BadLayout,
}

impl PasteError {
    pub fn not_found(id: u64) -> (r: PasteError)
        ensures
            r == PasteError::NotFound(id),
    {
        PasteError::NotFound(id)
    }

    pub fn invalid_input(msg: &str) -> (r: PasteError)
        ensures
            r matches PasteError::InvalidInput(m) && m@ == msg@,
    {
        PasteError::InvalidInput(msg.to_string())
    }
}

} // verus!
