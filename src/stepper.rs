use vstd::prelude::*;
use vstd::string::*;
use crate::error::{ProgramError, ProgramResult};
use crate::program::{step_spec, ByteInput, Machine, Outcome, Program, RunInstance, StepResult};
use crate::storage::Storage;

verus! {

/// How a run driven for at most a number of steps ends.
pub enum RunEnd {
    /// No frame is left.
    Finished(Machine),
    /// A step failed; the state is the one the failing step started from.
    Failed(ProgramError, Machine),
    /// The step budget was spent before the run ended.
    OutOfSteps(Machine),
}

/// Runs `root` from `m` for at most `fuel` steps.
pub open spec fn run_spec(root: Program, m: Machine, fuel: nat) -> RunEnd
    decreases fuel,
{
    match step_spec(root, m) {
        None => RunEnd::Finished(m),
        Some(o) => if fuel == 0 {
            RunEnd::OutOfSteps(m)
        } else {
            match o {
                Outcome::Fail(e) => RunEnd::Failed(e, m),
                Outcome::Step(_, m2) => run_spec(root, m2, (fuel - 1) as nat),
            }
        },
    }
}

/// A debugger directive: what to do until the next pause.
#[derive(Debug, Clone, Copy, PartialEq, Eq, Structural)]
pub enum DebugCommand {
    Run(usize),
    RunToEnd,
    RunToEndWithoutBreak,
    RunLoopIteration,
    RunToAfterLoop,
    Step,
    Break,
}

/// Whether `c` is an ASCII decimal digit.
pub open spec fn is_digit(c: char) -> bool {
    '0' <= c && c <= '9'
}

/// The number that a string of decimal digits denotes.
pub open spec fn digits_value(s: Seq<char>) -> nat
    decreases s.len(),
{
    if s.len() == 0 {
        0
    } else {
        digits_value(s.drop_last()) * 10 + (s.last() as u32 - 48) as nat
    }
}

/// The debugger command that a trimmed line denotes.
pub open spec fn command_of(s: Seq<char>) -> Result<DebugCommand, ProgramError> {
    if s.len() == 0 {
        Err(ProgramError::BadCommand)
    } else if s[0] == 's' {
        Ok(DebugCommand::Step)
    } else if s[0] != 'r' {
        Err(ProgramError::BadCommand)
    } else if s.len() == 1 || s[1] == 'e' {
        Ok(DebugCommand::RunToEnd)
    } else if s[1] == 'l' {
        if s.len() >= 3 && s[2] == 'e' {
            Ok(DebugCommand::RunToAfterLoop)
        } else if s.len() >= 3 && s[2] == 'i' {
            Ok(DebugCommand::RunLoopIteration)
        } else {
            Err(ProgramError::BadCommand)
        }
    } else if (forall|i: int| 1 <= i < s.len() ==> is_digit(#[trigger] s[i])) && digits_value(
        s.drop_first(),
    ) <= usize::MAX {
        Ok(DebugCommand::Run(digits_value(s.drop_first()) as usize))
    } else {
        Err(ProgramError::BadCommand)
    }
}

/// The value of a digit string does not drop when digits are appended.
proof fn lemma_digits_value_grows(s: Seq<char>, i: int, j: int)
    requires
        0 <= i <= j <= s.len(),
        forall|k: int| 0 <= k < s.len() ==> is_digit(#[trigger] s[k]),
    ensures
        digits_value(s.subrange(0, i)) <= digits_value(s.subrange(0, j)),
    decreases j - i,
{
    if j > i {
        lemma_digits_value_grows(s, i, j - 1);
        assert(s.subrange(0, j).drop_last() =~= s.subrange(0, j - 1));
        assert(is_digit(s[j - 1]));
    }
}

// The line that `str::trim` gives for `s`.
pub uninterp spec fn trimmed(s: Seq<char>) -> Seq<char>;

/// Relies on `str::trim`: the line without its leading and trailing whitespace.
#[verifier::external_body]
fn trim_line(s: &str) -> (r: &str)
    ensures
        r@ == trimmed(s@),
{
    s.trim()
}

impl DebugCommand {
    /// Parses one line of debugger input.
    pub fn parse(line: &str) -> (r: ProgramResult<DebugCommand>)
        ensures
            r == command_of(trimmed(line@)),
    {
        Self::parse_trimmed(trim_line(line))
    }

    /// Parses a line that has already been trimmed.
    pub fn parse_trimmed(s: &str) -> (r: ProgramResult<DebugCommand>)
        ensures
            r == command_of(s@),
    {
        let len = s.unicode_len();
        if len == 0 {
            return Err(ProgramError::BadCommand);
        }
        let c0 = s.get_char(0);
        if c0 == 's' {
            return Ok(DebugCommand::Step);
        }
        if c0 != 'r' {
            return Err(ProgramError::BadCommand);
        }
        if len == 1 {
            return Ok(DebugCommand::RunToEnd);
        }
        let c1 = s.get_char(1);
        if c1 == 'e' {
            return Ok(DebugCommand::RunToEnd);
        }
        if c1 == 'l' {
            if len >= 3 {
                let c2 = s.get_char(2);
                if c2 == 'e' {
                    return Ok(DebugCommand::RunToAfterLoop);
                } else if c2 == 'i' {
                    return Ok(DebugCommand::RunLoopIteration);
                }
            }
            return Err(ProgramError::BadCommand);
        }
        let ghost rest = s@.drop_first();
        let mut value: usize = 0;
        let mut i: usize = 1;
        while i < len
            invariant
                1 <= i <= len,
                len == s@.len(),
                len >= 2,
                s@[0] == 'r',
                s@[1] != 'e',
                s@[1] != 'l',
                rest == s@.drop_first(),
                forall|k: int| 1 <= k < i ==> is_digit(#[trigger] s@[k]),
                value == digits_value(rest.subrange(0, i - 1)),
            decreases len - i,
        {
            let c = s.get_char(i);
            if !('0' <= c && c <= '9') {
                return Err(ProgramError::BadCommand);
            }
            let d = (c as u32 - 48) as usize;
            assert(rest.subrange(0, i as int).drop_last() =~= rest.subrange(0, i - 1));
            if value > (usize::MAX - d) / 10 {
                proof {
                    assert(value * 10 + d > usize::MAX) by (nonlinear_arith)
                        requires
                            value > (usize::MAX - d) / 10,
                            d <= 9,
                    ;
                    if forall|k: int| 1 <= k < s@.len() ==> is_digit(#[trigger] s@[k]) {
                        assert forall|k: int| 0 <= k < rest.len() implies is_digit(#[trigger] rest[k]) by {
                            assert(rest[k] == s@[k + 1]);
                        }
                        lemma_digits_value_grows(rest, i as int, rest.len() as int);
                        assert(rest.subrange(0, rest.len() as int) =~= rest);
                    }
                }
                return Err(ProgramError::BadCommand);
            }
            assert(value * 10 + d <= usize::MAX) by (nonlinear_arith)
                requires
                    value <= (usize::MAX - d) / 10,
                    d <= 9,
            ;
            value = value * 10 + d;
            i = i + 1;
        }
        assert(rest.subrange(0, rest.len() as int) =~= rest);
        Ok(DebugCommand::Run(value))
    }
}

/// The mode after a step has been observed in `mode`, and whether the run
/// pauses there for an operator command. A breakpoint forces a pause unless
/// the mode runs to the end without breaking.
pub open spec fn debug_transition(mode: DebugCommand, step: StepResult) -> (DebugCommand, bool) {
    let m = if step == StepResult::Debugger && mode != DebugCommand::RunToEndWithoutBreak {
        DebugCommand::Break
    } else {
        mode
    };
    match m {
        DebugCommand::Run(n) => if n <= 1 {
            (DebugCommand::Break, false)
        } else {
            (DebugCommand::Run((n - 1) as usize), false)
        },
        DebugCommand::RunLoopIteration => if step == StepResult::LoopIteration {
            (DebugCommand::Break, false)
        } else {
            (m, false)
        },
        DebugCommand::RunToAfterLoop => if step == StepResult::LoopEnd {
            (DebugCommand::Break, false)
        } else {
            (m, false)
        },
        DebugCommand::RunToEnd | DebugCommand::RunToEndWithoutBreak => (m, false),
        DebugCommand::Step | DebugCommand::Break => (m, true),
    }
}

/// A way of driving a run: after each step it decides whether the run
/// pauses for an operator command.
pub trait Stepper: Sized {
    /// The state after observing `step`, and whether the run pauses.
    spec fn observed(&self, step: StepResult) -> (Self, bool);

    /// The state after the operator supplied `command` at a pause.
    spec fn resumed(&self, command: DebugCommand) -> Self;

    /// The state a run starts in.
    spec fn initial() -> Self;

    fn new() -> (r: Self)
        ensures
            r == Self::initial(),
    ;

    /// Takes in what a step reported; returns whether the run pauses here.
    fn observe(&mut self, step: StepResult) -> (pause: bool)
        ensures
            (*final(self), pause) == old(self).observed(step),
    ;

    /// Takes the operator command that ends a pause.
    fn resume(&mut self, command: DebugCommand)
        ensures
            *final(self) == old(self).resumed(command),
    ;
}

/// Runs to the end without ever pausing.
pub struct Normal;

/// Pauses for operator commands, starting in the `Break` mode.
pub struct Debug {
    /// The current mode.
    pub state: DebugCommand,
}

impl Stepper for Normal {
    open spec fn observed(&self, step: StepResult) -> (Self, bool) {
        (Normal, false)
    }

    open spec fn resumed(&self, command: DebugCommand) -> Self {
        Normal
    }

    open spec fn initial() -> Self {
        Normal
    }

    fn new() -> Self {
        Normal
    }

    fn observe(&mut self, step: StepResult) -> (pause: bool) {
        false
    }

    fn resume(&mut self, command: DebugCommand) {
    }
}

impl Normal {
    /// Drives `instance` until no frame is left, a step fails, or
    /// `max_steps` steps have been taken.
    pub fn run_to_end(
        &mut self,
        instance: &mut RunInstance,
        storage: &mut Storage,
        input: &mut ByteInput,
        output: &mut Vec<u8>,
        max_steps: u64,
    ) -> (r: ProgramResult<()>)
        ensures
            final(instance).root() == old(instance).root(),
            ({
                let m2 = final(instance).machine(final(storage), final(input), final(output)@);
                match run_spec(
                    old(instance).root(),
                    old(instance).machine(old(storage), old(input), old(output)@),
                    max_steps as nat,
                ) {
                    RunEnd::Finished(m) => r == Ok::<(), ProgramError>(()) && m2 == m,
                    RunEnd::Failed(e, m) => r == Err::<(), ProgramError>(e) && m2 == m,
                    RunEnd::OutOfSteps(m) => r == Err::<(), ProgramError>(ProgramError::StepLimit)
                        && m2 == m,
                }
            }),
    {
        let ghost root = instance.root();
        let ghost end = run_spec(
            root,
            instance.machine(storage, input, output@),
            max_steps as nat,
        );
        let mut steps: u64 = 0;
        loop
            invariant
                steps <= max_steps,
                instance.root() == root,
                root == old(instance).root(),
                end == run_spec(
                    old(instance).root(),
                    old(instance).machine(old(storage), old(input), old(output)@),
                    max_steps as nat,
                ),
                run_spec(root, instance.machine(storage, input, output@), (max_steps - steps) as nat)
                    == end,
            decreases max_steps - steps,
        {
            if instance.is_done() {
                return Ok(());
            }
            if steps == max_steps {
                return Err(ProgramError::StepLimit);
            }
            match instance.next(storage, input, output) {
                None => {
                    return Ok(());
                },
                Some(Err(e)) => {
                    return Err(e);
                },
                Some(Ok(_)) => {},
            }
            steps = steps + 1;
        }
    }
}

impl Stepper for Debug {
    open spec fn observed(&self, step: StepResult) -> (Self, bool) {
        let (m, pause) = debug_transition(self.state, step);
        (Debug { state: m }, pause)
    }

    open spec fn resumed(&self, command: DebugCommand) -> Self {
        Debug { state: command }
    }

    open spec fn initial() -> Self {
        Debug { state: DebugCommand::Break }
    }

    fn new() -> Self {
        Debug { state: DebugCommand::Break }
    }

    fn observe(&mut self, step: StepResult) -> (pause: bool) {
        if step == StepResult::Debugger && self.state != DebugCommand::RunToEndWithoutBreak {
            self.state = DebugCommand::Break;
        }
        match self.state {
            DebugCommand::Run(n) => {
                if n <= 1 {
                    self.state = DebugCommand::Break;
                } else {
                    self.state = DebugCommand::Run(n - 1);
                }
                false
            },
            DebugCommand::RunLoopIteration => {
                if step == StepResult::LoopIteration {
                    self.state = DebugCommand::Break;
                }
                false
            },
            DebugCommand::RunToAfterLoop => {
                if step == StepResult::LoopEnd {
                    self.state = DebugCommand::Break;
                }
                false
            },
            DebugCommand::RunToEnd | DebugCommand::RunToEndWithoutBreak => false,
            DebugCommand::Step | DebugCommand::Break => true,
        }
    }

    fn resume(&mut self, command: DebugCommand) {
        self.state = command;
    }
}

} // verus!
