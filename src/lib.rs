pub mod error;
pub mod interpreter;
pub mod program;
pub mod stepper;
pub mod storage;
pub mod text;

pub use error::{ProgramError, ProgramResult};
pub use interpreter::Interpreter;
pub use program::{ByteInput, Command, Program, RunInstance, StepResult};
pub use stepper::{DebugCommand, Normal, Stepper};
pub use storage::Storage;
