use vstd::prelude::*;
use vstd::string::StringExecFns;

verus! {

/// The text of [`ValidationError::message`].
pub open spec fn validation_message(e: ValidationError) -> Seq<char> {
    "The title is empty"@
}

/// A value object was rejected at construction.
#[derive(Debug, Clone)]
pub enum ValidationError {
    EmptyTitle,
}

impl ValidationError {
    /// Human-readable description of the error.
    pub fn message(&self) -> (r: String)
        ensures
            r@ == validation_message(*self),
    {
        match self {
            ValidationError::EmptyTitle => String::from_str("The title is empty"),
        }
    }
}

/// The text of [`DomainError::message`].
pub open spec fn domain_message(e: DomainError) -> Seq<char> {
    match e {
        DomainError::ValidationError(inner) => "Validation error: "@ + validation_message(inner),
        DomainError::AlreadyCompleted => "Already completed"@,
        DomainError::InvalidStateTransition => "Invalid state transition"@,
    }
}

/// A state transition or a wrapped validation failed.
#[derive(Debug, Clone)]
pub enum DomainError {
    ValidationError(ValidationError),
    AlreadyCompleted,
    InvalidStateTransition,
}

impl DomainError {
    /// Human-readable description of the error.
    pub fn message(&self) -> (r: String)
        ensures
            r@ == domain_message(*self),
    {
        match self {
            DomainError::ValidationError(inner) => {
                let mut s = String::from_str("Validation error: ");
                let m = inner.message();
                s.append(m.as_str());
                s
            },
            DomainError::AlreadyCompleted => String::from_str("Already completed"),
            DomainError::InvalidStateTransition => String::from_str("Invalid state transition"),
        }
    }
}


/// The text of [`CommandError::message`].
pub open spec fn command_message(e: CommandError) -> Seq<char> {
    match e {
        CommandError::NotFound(id) => "No task found for ID "@ + crate::codec::dec_str(id as int),
        CommandError::Domain(inner) => domain_message(inner),
    }
}

/// What a command reports when it fails: the identifier was not stored
/// (a user-facing condition of its own), or a domain rule refused the
/// operation.
#[derive(Debug, Clone)]
pub enum CommandError {
    NotFound(u32),
    Domain(DomainError),
}

impl CommandError {
    /// Human-readable description of the error.
    pub fn message(&self) -> (r: String)
        ensures
            r@ == command_message(*self),
    {
        match self {
            CommandError::NotFound(id) => {
                let mut s = String::from_str("No task found for ID ");
                let num = crate::codec::render_u32(*id);
                s.append(num.as_str());
                s
            },
            CommandError::Domain(inner) => inner.message(),
        }
    }
}

} // verus!
