use vstd::prelude::*;
use crate::error::{ProgramError, ProgramResult};
use crate::program::{parse_spec, ByteInput, Data, Machine, Program};
use crate::stepper::{run_spec, Normal, RunEnd};
use crate::storage::Storage;
use crate::text::{decode_utf8, utf8_text};

verus! {

/// The number of steps after which a run is given up.
pub const MAX_STEPS: u64 = 0xffff_ffff_ffff_ffff;

/// The state a run of a program starts from: its root frame, the current
/// tape, the given input and no output.
pub open spec fn start_machine(storage: &Storage, input: Seq<u8>) -> Machine {
    Machine {
        stack: seq![0usize],
        data: Data { tape: storage.tape(), ptr: storage.ptr(), input, output: Seq::empty() },
    }
}

/// The text a finished run produced, or the error it ended with.
pub open spec fn run_result(end: RunEnd) -> Result<Seq<char>, ProgramError> {
    match end {
        RunEnd::Finished(m) => match utf8_text(m.data.output) {
            Some(t) => Ok(t),
            None => Err(ProgramError::InvalidOutput),
        },
        RunEnd::Failed(e, _) => Err(e),
        RunEnd::OutOfSteps(_) => Err(ProgramError::StepLimit),
    }
}

/// The machine state at the end of a run.
pub open spec fn end_machine(end: RunEnd) -> Machine {
    match end {
        RunEnd::Finished(m) => m,
        RunEnd::Failed(_, m) => m,
        RunEnd::OutOfSteps(m) => m,
    }
}

/// A parsed program together with the tape it runs on.
pub struct Interpreter {
    program: Program,
    storage: Storage,
}

impl Interpreter {
    /// The parsed program.
    pub closed spec fn program(&self) -> Program {
        self.program
    }

    /// The tape.
    pub closed spec fn storage(&self) -> Storage {
        self.storage
    }

    /// The tape.
    pub fn memory(&self) -> (r: &Storage)
        ensures
            *r == self.storage(),
    {
        &self.storage
    }

    /// Parses `code` and sets up an empty tape.
    pub fn new(code: Vec<u8>) -> (r: Interpreter)
        ensures
            r.program().ops() == parse_spec(code@),
            r.storage().tape() == Seq::<u8>::empty(),
            r.storage().ptr() == 0,
    {
        Interpreter { program: Program::parse(code.as_slice()), storage: Storage::new() }
    }

    /// Runs the program to its end on `input` and returns what it wrote, as
    /// text. The tape keeps its state for a later run.
    pub fn run(&mut self, input: Vec<u8>) -> (r: ProgramResult<String>)
        ensures
            final(self).program() == old(self).program(),
            ({
                let end = run_spec(
                    old(self).program(),
                    start_machine(&old(self).storage(), input@),
                    MAX_STEPS as nat,
                );
                &&& final(self).storage().tape() == end_machine(end).data.tape
                &&& final(self).storage().ptr() == end_machine(end).data.ptr
                &&& match run_result(end) {
                    Ok(t) => r is Ok && r->Ok_0@ == t,
                    Err(e) => r == Err::<String, ProgramError>(e),
                }
            }),
    {
        let mut input = ByteInput::new(input);
        let mut output: Vec<u8> = Vec::new();
        let mut instance = self.program.run();
        assert(instance.machine(&self.storage, &input, output@) == start_machine(
            &old(self).storage(),
            input.remaining(),
        ));
        let mut stepper = Normal;
        let done = stepper.run_to_end(&mut instance, &mut self.storage, &mut input, &mut output, MAX_STEPS);
        match done {
            Ok(()) => match decode_utf8(output) {
                Some(text) => Ok(text),
                None => Err(ProgramError::InvalidOutput),
            },
            Err(e) => Err(e),
        }
    }
}

} // verus!
