use vstd::prelude::*;

verus! {

/// Failures that abort a run of a program.
#[derive(Debug, Clone, Copy, PartialEq, Eq, Structural)]
pub enum ProgramError {
    /// A program counter pointed outside its program.
    PcOutOfBounds,
    /// The input stream was exhausted, or the output sink refused a byte.
    Eof,
    /// A tape cell could not be reached: the pointer left the tape on the left,
    /// or the tape would grow past its size limit.
    MemoryError,
    /// A debugger command line could not be understood.
    BadCommand,
    /// The bytes written by a program do not form valid UTF-8 text.
    InvalidOutput,
    /// A run was stopped after its step budget was spent.
    StepLimit,
}

impl ProgramError {
    /// The human-readable message for this error.
    pub fn message(&self) -> (r: String)
        ensures
            r@ == error_message(*self),
    {
        match self {
            ProgramError::PcOutOfBounds => String::from_str("Program Counter out of bounds"),
            ProgramError::Eof => String::from_str("Eof"),
            ProgramError::MemoryError => String::from_str("Memory Error"),
            ProgramError::BadCommand => String::from_str("Bad Command"),
            ProgramError::InvalidOutput => String::from_str("Invalid UTF-8 output"),
            ProgramError::StepLimit => String::from_str("Step limit reached"),
        }
    }
}

/// The message text of each error.
pub open spec fn error_message(e: ProgramError) -> Seq<char> {
    match e {
        ProgramError::PcOutOfBounds => "Program Counter out of bounds"@,
        ProgramError::Eof => "Eof"@,
        ProgramError::MemoryError => "Memory Error"@,
        ProgramError::BadCommand => "Bad Command"@,
        ProgramError::InvalidOutput => "Invalid UTF-8 output"@,
        ProgramError::StepLimit => "Step limit reached"@,
    }
}

/// The result of an operation that can abort a run.
pub type ProgramResult<T> = Result<T, ProgramError>;

} // verus!
