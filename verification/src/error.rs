//! The ways in which an operation on the store fails.

use vstd::prelude::*;

verus! {

/// Why an operation on the store failed. Callers tell the failures apart by
/// the variant; the texts are for people.
#[derive(Debug, PartialEq, Eq)]
pub enum StoreError {
    /// The storage underneath the store failed; the text is its own report.
    /// No operation of this library fails so: the variant is for the caller
    /// that persists the store.
    Storage(String),
    /// The list already holds a restaurant of that name.
    DuplicateName,
    /// The list holds no restaurant of that name.
    NotFound,
    /// The category holds no restaurant to choose from.
    NoCandidates,
}

impl Clone for StoreError {
    fn clone(&self) -> (copy: Self)
        ensures
            copy == *self,
    {
        match self {
            StoreError::Storage(report) => StoreError::Storage(report.clone()),
            StoreError::DuplicateName => StoreError::DuplicateName,
            StoreError::NotFound => StoreError::NotFound,
            StoreError::NoCandidates => StoreError::NoCandidates,
        }
    }
}

impl StoreError {
    /// The text of [`to_string`](Self::to_string).
    pub open spec fn message(self) -> Seq<char> {
        match self {
            StoreError::Storage(report) => report@,
            StoreError::DuplicateName => "UNIQUE constraint failed: lunch_list.restaurants"@,
            StoreError::NotFound => "Restaurant not found"@,
            StoreError::NoCandidates => "Query returned no rows"@,
        }
    }

    /// The text of [`user_message`](Self::user_message) for a failure that
    /// concerns the restaurant `name`.
    pub open spec fn user_text(self, name: Seq<char>) -> Seq<char> {
        match self {
            StoreError::Storage(report) => report@,
            StoreError::DuplicateName => "Restaurant '"@ + name + "' already exists"@,
            StoreError::NotFound => "Restaurant '"@ + name + "' not found"@,
            StoreError::NoCandidates => "No restaurants found!"@,
        }
    }

    /// A terse description of the failure, worded as a relational store
    /// words it, so that logs read the same whether the failure was found
    /// here or by the storage underneath.
    pub fn to_string(&self) -> (text: String)
        ensures
            text@ == self.message(),
    {
        match self {
            StoreError::Storage(report) => report.clone(),
            StoreError::DuplicateName => String::from_str(
                "UNIQUE constraint failed: lunch_list.restaurants",
            ),
            StoreError::NotFound => String::from_str("Restaurant not found"),
            StoreError::NoCandidates => String::from_str("Query returned no rows"),
        }
    }

    /// What to tell the user who asked for something to be done with the
    /// restaurant `name`, or for a roll, and got this failure. A storage
    /// failure is passed on word for word.
    pub fn user_message(&self, name: &str) -> (text: String)
        ensures
            text@ == self.user_text(name@),
    {
        match self {
            StoreError::Storage(report) => report.clone(),
            StoreError::DuplicateName => String::from_str("Restaurant '").concat(name).concat(
                "' already exists",
            ),
            StoreError::NotFound => String::from_str("Restaurant '").concat(name).concat(
                "' not found",
            ),
            StoreError::NoCandidates => String::from_str("No restaurants found!"),
        }
    }
}

} // verus!
