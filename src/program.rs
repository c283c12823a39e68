use vstd::prelude::*;
use crate::error::{ProgramError, ProgramResult};
use crate::storage::{cell_of, grown, Storage, SANITY_LIMIT};

verus! {

/// One instruction of a program.
pub enum Command {
    Plus,
    Minus,
    Right,
    Left,
    Input,
    Output,
    Loop(Program),
    Debugger,
}

/// The shape of a command, as a mathematical tree.
pub enum Op {
    Plus,
    Minus,
    Right,
    Left,
    Input,
    Output,
    Loop(Seq<Op>),
    Debugger,
}

/// What a single step reports.
#[derive(Debug, Clone, Copy, PartialEq, Eq, Structural)]
pub enum StepResult {
    Continue,
    Debugger,
    LoopIteration,
    LoopEnd,
}

/// A parsed program: an ordered sequence of commands.
pub struct Program {
    commands: Vec<Command>,
}

/// The tree of a command.
pub closed spec fn op_of(c: Command) -> Op
    decreases c, 0nat,
{
    match c {
        Command::Plus => Op::Plus,
        Command::Minus => Op::Minus,
        Command::Right => Op::Right,
        Command::Left => Op::Left,
        Command::Input => Op::Input,
        Command::Output => Op::Output,
        Command::Loop(p) => Op::Loop(ops_upto(p.commands@, p.commands@.len())),
        Command::Debugger => Op::Debugger,
    }
}

/// The trees of the first `n` commands of `s`.
pub closed spec fn ops_upto(s: Seq<Command>, n: nat) -> Seq<Op>
    decreases s, n,
{
    if n == 0 || n > s.len() {
        Seq::empty()
    } else {
        ops_upto(s, (n - 1) as nat).push(op_of(s[n - 1]))
    }
}

/// The single-character command that a source byte stands for, if any
/// (brackets are handled by the parser itself).
pub open spec fn op_of_byte(b: u8) -> Option<Op> {
    if b == 43 {
        Some(Op::Plus)
    } else if b == 45 {
        Some(Op::Minus)
    } else if b == 62 {
        Some(Op::Right)
    } else if b == 60 {
        Some(Op::Left)
    } else if b == 44 {
        Some(Op::Input)
    } else if b == 46 {
        Some(Op::Output)
    } else if b == 35 {
        Some(Op::Debugger)
    } else {
        None
    }
}

/// Parses one nesting level of `src` from `pos`: the commands of the level and
/// the position just after it. A level ends at a `]` (which it consumes) or at
/// the end of the source; `[` opens a nested level; other bytes are ignored.
pub open spec fn parse_level(src: Seq<u8>, pos: nat) -> (Seq<Op>, nat)
    decreases src.len() - pos,
{
    if pos >= src.len() {
        (Seq::empty(), src.len())
    } else if src[pos as int] == 93 {
        (Seq::empty(), pos + 1)
    } else if src[pos as int] == 91 {
        let (inner, after) = parse_level(src, pos + 1);
        if after <= pos || after > src.len() {
            (Seq::empty(), after)
        } else {
            let (rest, end) = parse_level(src, after);
            (seq![Op::Loop(inner)] + rest, end)
        }
    } else {
        let (rest, end) = parse_level(src, pos + 1);
        match op_of_byte(src[pos as int]) {
            Some(op) => (seq![op] + rest, end),
            None => (rest, end),
        }
    }
}

/// The program that a source parses to.
pub open spec fn parse_spec(src: Seq<u8>) -> Seq<Op> {
    parse_level(src, 0).0
}

/// A level always ends after where it starts, and within the source.
pub proof fn lemma_parse_level_end(src: Seq<u8>, pos: nat)
    requires
        pos <= src.len(),
    ensures
        pos < parse_level(src, pos).1 <= src.len() || (pos == src.len() && parse_level(src, pos).1 == pos),
    decreases src.len() - pos,
{
    if pos < src.len() {
        if src[pos as int] == 91 {
            lemma_parse_level_end(src, pos + 1);
            let after = parse_level(src, pos + 1).1;
            if after > pos && after <= src.len() {
                lemma_parse_level_end(src, after);
            }
        } else if src[pos as int] != 93 {
            lemma_parse_level_end(src, pos + 1);
        }
    }
}

/// The trees of a prefix do not depend on what follows it.
proof fn lemma_ops_upto_prefix(s: Seq<Command>, t: Seq<Command>, n: nat)
    requires
        n <= s.len(),
        n <= t.len(),
        s.subrange(0, n as int) == t.subrange(0, n as int),
    ensures
        ops_upto(s, n) == ops_upto(t, n),
    decreases n,
{
    if n > 0 {
        assert(s[n - 1] == s.subrange(0, n as int)[n - 1]);
        assert(t[n - 1] == t.subrange(0, n as int)[n - 1]);
        assert(s.subrange(0, n - 1) == s.subrange(0, n as int).subrange(0, n - 1));
        assert(t.subrange(0, n - 1) == t.subrange(0, n as int).subrange(0, n - 1));
        lemma_ops_upto_prefix(s, t, (n - 1) as nat);
    }
}

impl Program {
    /// The commands of the program.
    pub closed spec fn commands(&self) -> Seq<Command> {
        self.commands@
    }

    /// The program as a sequence of command trees.
    pub open spec fn ops(&self) -> Seq<Op> {
        ops_upto(self.commands(), self.commands().len())
    }

    /// The number of commands at the top level of the program.
    pub fn len(&self) -> (r: usize)
        ensures
            r == self.commands().len(),
    {
        self.commands.len()
    }

    /// Parses source bytes into a program.
    pub fn parse(input: &[u8]) -> (r: Program)
        ensures
            r.ops() == parse_spec(input@),
    {
        let (p, _end) = Self::parse_internal(input, 0);
        p
    }

    fn parse_internal(input: &[u8], start: usize) -> (r: (Program, usize))
        requires
            start <= input@.len(),
        ensures
            r.0.ops() == parse_level(input@, start as nat).0,
            r.1 == parse_level(input@, start as nat).1,
        decreases input@.len() - start,
    {
        let mut commands: Vec<Command> = Vec::new();
        let mut pos: usize = start;
        let ghost src = input@;
        loop
            invariant
                start <= pos <= src.len(),
                src == input@,
                ops_upto(commands@, commands@.len()) + parse_level(src, pos as nat).0
                    == parse_level(src, start as nat).0,
                parse_level(src, pos as nat).1 == parse_level(src, start as nat).1,
            decreases src.len() - pos,
        {
            if pos >= input.len() {
                assert(ops_upto(commands@, commands@.len()) =~= parse_level(src, start as nat).0);
                return (Program { commands }, pos);
            }
            let chr = input[pos];
            if chr == 93 {
                assert(ops_upto(commands@, commands@.len()) =~= parse_level(src, start as nat).0);
                return (Program { commands }, pos + 1);
            }
            let ghost before = commands@;
            let ghost tail = parse_level(src, pos as nat).0;
            if chr == 91 {
                let (inner, after) = Self::parse_internal(input, pos + 1);
                proof { lemma_parse_level_end(src, (pos + 1) as nat); }
                commands.push(Command::Loop(inner));
                pos = after;
            } else {
                let cmd = if chr == 43 {
                    Some(Command::Plus)
                } else if chr == 45 {
                    Some(Command::Minus)
                } else if chr == 62 {
                    Some(Command::Right)
                } else if chr == 60 {
                    Some(Command::Left)
                } else if chr == 44 {
                    Some(Command::Input)
                } else if chr == 46 {
                    Some(Command::Output)
                } else if chr == 35 {
                    Some(Command::Debugger)
                } else {
                    None
                };
                match cmd {
                    Some(c) => {
                        commands.push(c);
                    },
                    None => {},
                }
                pos = pos + 1;
            }
            proof {
                if commands@.len() > before.len() {
                    assert(commands@.subrange(0, before.len() as int) =~= before);
                    assert(before.subrange(0, before.len() as int) =~= before);
                    lemma_ops_upto_prefix(commands@, before, before.len());
                    assert(ops_upto(commands@, commands@.len()) == ops_upto(before, before.len()).push(
                        op_of(commands@.last()),
                    ));
                    assert(tail =~= seq![op_of(commands@.last())] + parse_level(src, pos as nat).0);
                    assert(ops_upto(commands@, commands@.len()) + parse_level(src, pos as nat).0
                        =~= ops_upto(before, before.len()) + tail);
                } else {
                    assert(commands@ == before);
                }
            }
        }
    }
}


/// The program input a run reads from, one byte at a time.
pub struct ByteInput {
    bytes: Vec<u8>,
    pos: usize,
}

impl ByteInput {
    /// The bytes not read yet.
    pub closed spec fn remaining(&self) -> Seq<u8> {
        if self.pos <= self.bytes@.len() {
            self.bytes@.subrange(self.pos as int, self.bytes@.len() as int)
        } else {
            Seq::empty()
        }
    }

    /// An input that yields `bytes` in order.
    pub fn new(bytes: Vec<u8>) -> (r: ByteInput)
        ensures
            r.remaining() == bytes@,
    {
        let r = ByteInput { bytes, pos: 0 };
        assert(r.remaining() =~= r.bytes@);
        r
    }

    /// Whether every byte has been read.
    pub fn is_exhausted(&self) -> (r: bool)
        ensures
            r == (self.remaining().len() == 0),
    {
        self.pos >= self.bytes.len()
    }

    /// Takes the next byte, or `None` once the input is exhausted.
    pub fn next_byte(&mut self) -> (r: Option<u8>)
        ensures
            old(self).remaining().len() == 0 ==> r is None && final(self).remaining() == old(
                self,
            ).remaining(),
            old(self).remaining().len() > 0 ==> r == Some(old(self).remaining()[0])
                && final(self).remaining() == old(self).remaining().drop_first(),
    {
        if self.pos < self.bytes.len() {
            let b = self.bytes[self.pos];
            self.pos = self.pos + 1;
            assert(final(self).remaining() =~= old(self).remaining().drop_first());
            Some(b)
        } else {
            None
        }
    }
}

/// Everything a run reads and changes besides its frame stack.
pub struct Data {
    pub tape: Seq<u8>,
    pub ptr: nat,
    pub input: Seq<u8>,
    pub output: Seq<u8>,
}

/// The whole state of a run: the program counters of the active frames,
/// outermost first, and the data.
pub struct Machine {
    pub stack: Seq<usize>,
    pub data: Data,
}

/// What an attempted step does.
pub enum Outcome {
    Step(StepResult, Machine),
    Fail(ProgramError),
}

/// The data of a run, read off its parts.
pub open spec fn data_of(storage: &Storage, input: &ByteInput, output: Seq<u8>) -> Data {
    Data { tape: storage.tape(), ptr: storage.ptr(), input: input.remaining(), output }
}

/// The current cell of the data.
pub open spec fn current_cell(d: Data) -> u8 {
    cell_of(d.tape, d.ptr as int)
}

/// The data once its current cell has been created.
pub open spec fn touched(d: Data) -> Data {
    Data { tape: grown(d.tape, d.ptr as int), ..d }
}

/// The data with the current cell set to `v`.
pub open spec fn written(d: Data, v: u8) -> Data {
    Data { tape: grown(d.tape, d.ptr as int).update(d.ptr as int, v), ..d }
}

/// What a command does to the data. Loops and breakpoints leave it alone.
/// Reaching a cell past the size limit, or moving the pointer off the tape,
/// is a `MemoryError`; reading from an exhausted input is an `Eof`.
pub open spec fn command_effect(c: Command, d: Data) -> Result<Data, ProgramError> {
    match c {
        Command::Plus => if d.ptr > SANITY_LIMIT {
            Err(ProgramError::MemoryError)
        } else {
            Ok(written(d, ((current_cell(d) + 1) % 256) as u8))
        },
        Command::Minus => if d.ptr > SANITY_LIMIT {
            Err(ProgramError::MemoryError)
        } else {
            Ok(written(d, ((current_cell(d) + 255) % 256) as u8))
        },
        Command::Right => if d.ptr >= usize::MAX {
            Err(ProgramError::MemoryError)
        } else {
            Ok(Data { ptr: d.ptr + 1, ..d })
        },
        Command::Left => if d.ptr == 0 {
            Err(ProgramError::MemoryError)
        } else {
            Ok(Data { ptr: (d.ptr - 1) as nat, ..d })
        },
        Command::Input => if d.input.len() == 0 {
            Err(ProgramError::Eof)
        } else if d.ptr > SANITY_LIMIT {
            Err(ProgramError::MemoryError)
        } else {
            Ok(Data { input: d.input.drop_first(), ..written(d, d.input[0]) })
        },
        Command::Output => if d.ptr > SANITY_LIMIT {
            Err(ProgramError::MemoryError)
        } else {
            Ok(Data { output: d.output.push(current_cell(d)), ..touched(d) })
        },
        _ => Ok(d),
    }
}

/// The program run by the frame whose enclosing frames have program counters
/// `path`: the root for the outermost frame, and the body of the loop that the
/// enclosing frame's counter points at for the others.
pub open spec fn frame_program(root: Program, path: Seq<usize>) -> Option<Program>
    decreases path.len(),
{
    if path.len() == 0 {
        Some(root)
    } else {
        match frame_program(root, path.drop_last()) {
            Some(p) => if path.last() < p.commands().len() {
                match p.commands()[path.last() as int] {
                    Command::Loop(sub) => Some(sub),
                    _ => None,
                }
            } else {
                None
            },
            None => None,
        }
    }
}

/// The stack with the innermost program counter moved to the next command.
pub open spec fn advanced(stack: Seq<usize>) -> Seq<usize> {
    stack.update(stack.len() - 1, (stack.last() + 1) as usize)
}

/// One step of the innermost frame, which runs `p` at counter `pc`.
pub open spec fn frame_step(p: Program, pc: usize, m: Machine) -> Outcome {
    if pc >= p.commands().len() {
        if m.data.ptr > SANITY_LIMIT {
            Outcome::Fail(ProgramError::MemoryError)
        } else {
            let res = if current_cell(m.data) == 0 {
                StepResult::LoopEnd
            } else {
                StepResult::LoopIteration
            };
            Outcome::Step(res, Machine { stack: m.stack.drop_last(), data: touched(m.data) })
        }
    } else {
        match p.commands()[pc as int] {
            Command::Loop(_) => if m.data.ptr > SANITY_LIMIT {
                Outcome::Fail(ProgramError::MemoryError)
            } else if current_cell(m.data) == 0 {
                Outcome::Step(
                    StepResult::Continue,
                    Machine { stack: advanced(m.stack), data: touched(m.data) },
                )
            } else {
                Outcome::Step(
                    StepResult::Continue,
                    Machine { stack: m.stack.push(0), data: touched(m.data) },
                )
            },
            Command::Debugger => Outcome::Step(
                StepResult::Debugger,
                Machine { stack: advanced(m.stack), ..m },
            ),
            c => match command_effect(c, m.data) {
                Err(e) => Outcome::Fail(e),
                Ok(d) => Outcome::Step(StepResult::Continue, Machine { stack: advanced(m.stack), data: d }),
            },
        }
    }
}

/// One step of a run of `root` from `m`; `None` once no frame is left.
pub open spec fn step_spec(root: Program, m: Machine) -> Option<Outcome> {
    if m.stack.len() == 0 {
        None
    } else {
        match frame_program(root, m.stack.drop_last()) {
            None => Some(Outcome::Fail(ProgramError::PcOutOfBounds)),
            Some(p) => Some(frame_step(p, m.stack.last(), m)),
        }
    }
}

/// Once a path fails to name a loop body, every longer path fails too.
proof fn lemma_frame_none_extends(root: Program, path: Seq<usize>, i: int, j: int)
    requires
        0 <= i <= j <= path.len(),
        frame_program(root, path.subrange(0, i)) is None,
    ensures
        frame_program(root, path.subrange(0, j)) is None,
    decreases j - i,
{
    if j > i {
        lemma_frame_none_extends(root, path, i, j - 1);
        assert(path.subrange(0, j).drop_last() =~= path.subrange(0, j - 1));
    }
}

/// What `Program::step` reports.
enum ProgramStepResult<'a> {
    Continue,
    Debugger,
    LoopEnter(&'a Program),
    LoopEnd,
}

impl Program {
    /// Runs the command at `pc`, or reports the end of the program.
    fn step(&self, pc: usize, storage: &mut Storage, input: &mut ByteInput, output: &mut Vec<u8>) -> (r:
        ProgramResult<ProgramStepResult<'_>>)
        ensures
            pc >= self.commands().len() ==> (r matches Ok(ProgramStepResult::LoopEnd)),
            pc < self.commands().len() ==> match self.commands()[pc as int] {
                Command::Loop(sub) => (r matches Ok(ProgramStepResult::LoopEnter(q)) && *q == sub),
                Command::Debugger => (r matches Ok(ProgramStepResult::Debugger)),
                c => match command_effect(c, data_of(old(storage), old(input), old(output)@)) {
                    Err(e) => r == Err::<ProgramStepResult<'_>, ProgramError>(e),
                    Ok(d) => (r matches Ok(ProgramStepResult::Continue)) && data_of(
                        final(storage),
                        final(input),
                        final(output)@,
                    ) == d,
                },
            },
            (r matches Ok(ProgramStepResult::Continue)) || r is Err ==> pc < self.commands().len(),
            !(r matches Ok(ProgramStepResult::Continue)) ==> data_of(
                final(storage),
                final(input),
                final(output)@,
            ) == data_of(old(storage), old(input), old(output)@),
    {
        if pc >= self.commands.len() {
            return Ok(ProgramStepResult::LoopEnd);
        }
        match &self.commands[pc] {
            Command::Input => {
                if input.is_exhausted() {
                    return Err(ProgramError::Eof);
                }
                if storage.pointer() > SANITY_LIMIT {
                    return Err(ProgramError::MemoryError);
                }
                match input.next_byte() {
                    Some(b) => {
                        storage.set(b);
                        Ok(ProgramStepResult::Continue)
                    },
                    None => Err(ProgramError::Eof),
                }
            },
            Command::Output => {
                if storage.pointer() > SANITY_LIMIT {
                    return Err(ProgramError::MemoryError);
                }
                let val = *storage.get();
                output.push(val);
                Ok(ProgramStepResult::Continue)
            },
            Command::Loop(prog) => Ok(ProgramStepResult::LoopEnter(prog)),
            Command::Debugger => Ok(ProgramStepResult::Debugger),
            cmd => {
                let ptr = storage.pointer();
                let blocked = match cmd {
                    Command::Right => ptr == usize::MAX,
                    Command::Left => ptr == 0,
                    _ => ptr > SANITY_LIMIT,
                };
                if blocked {
                    return Err(ProgramError::MemoryError);
                }
                storage.command(cmd);
                Ok(ProgramStepResult::Continue)
            },
        }
    }
}

/// A run of a program in progress: a stack of frames, each a program counter
/// into the program of that frame (see `frame_program`).
pub struct RunInstance<'a> {
    program: &'a Program,
    stack: Vec<usize>,
}

impl Program {
    /// Starts a run at the first command of the program.
    pub fn run(&self) -> (r: RunInstance<'_>)
        ensures
            r.root() == *self,
            r.stack() == seq![0usize],
    {
        let mut stack: Vec<usize> = Vec::new();
        stack.push(0);
        RunInstance { program: self, stack }
    }
}

impl<'a> RunInstance<'a> {
    /// The program being run.
    pub closed spec fn root(&self) -> Program {
        *self.program
    }

    /// The program counters of the active frames, outermost first.
    pub closed spec fn stack(&self) -> Seq<usize> {
        self.stack@
    }

    /// The state of the run, with the parts it acts on.
    pub open spec fn machine(&self, storage: &Storage, input: &ByteInput, output: Seq<u8>) -> Machine {
        Machine { stack: self.stack(), data: data_of(storage, input, output) }
    }

    /// Whether no frame is left.
    pub fn is_done(&self) -> (r: bool)
        ensures
            r == (self.stack().len() == 0),
    {
        self.stack.len() == 0
    }

    /// Takes one step; `None` once the run is over. A step that fails leaves
    /// everything as it was.
    pub fn next(&mut self, storage: &mut Storage, input: &mut ByteInput, output: &mut Vec<u8>) -> (r:
        Option<ProgramResult<StepResult>>)
        ensures
            final(self).root() == old(self).root(),
            ({
                let m = old(self).machine(old(storage), old(input), old(output)@);
                let m2 = final(self).machine(final(storage), final(input), final(output)@);
                match step_spec(old(self).root(), m) {
                    None => r is None && m2 == m,
                    Some(Outcome::Fail(e)) => r == Some(Err::<StepResult, ProgramError>(e)) && m2 == m,
                    Some(Outcome::Step(res, n)) => r == Some(Ok::<StepResult, ProgramError>(res)) && m2 == n,
                }
            }),
    {
        let n = self.stack.len();
        if n == 0 {
            return None;
        }
        let ghost root = *self.program;
        let ghost st = self.stack@;
        let mut p: &Program = self.program;
        let mut i: usize = 0;
        while i < n - 1
            invariant
                0 <= i <= n - 1,
                n == st.len(),
                st == self.stack@,
                root == *self.program,
                frame_program(root, st.subrange(0, i as int)) == Some(*p),
            decreases n - 1 - i,
        {
            let pc = self.stack[i];
            assert(st.subrange(0, i + 1).drop_last() =~= st.subrange(0, i as int));
            if pc < p.commands.len() {
                match &p.commands[pc] {
                    Command::Loop(sub) => {
                        p = sub;
                    },
                    _ => {
                        proof { lemma_frame_none_extends(root, st, i + 1, n - 1); }
                        assert(st.subrange(0, n - 1) =~= st.drop_last());
                        return Some(Err(ProgramError::PcOutOfBounds));
                    },
                }
            } else {
                proof { lemma_frame_none_extends(root, st, i + 1, n - 1); }
                assert(st.subrange(0, n - 1) =~= st.drop_last());
                return Some(Err(ProgramError::PcOutOfBounds));
            }
            i = i + 1;
        }
        assert(st.subrange(0, n - 1) =~= st.drop_last());
        let pc = self.stack[n - 1];
        let plen = p.len();
        match p.step(pc, storage, input, output) {
            Ok(ProgramStepResult::Continue) => {
                self.stack.set(n - 1, pc + 1);
                Some(Ok(StepResult::Continue))
            },
            Ok(ProgramStepResult::LoopEnd) => {
                if storage.pointer() > SANITY_LIMIT {
                    return Some(Err(ProgramError::MemoryError));
                }
                self.stack.pop();
                let result = if *storage.get() == 0 {
                    StepResult::LoopEnd
                } else {
                    StepResult::LoopIteration
                };
                assert(self.stack@ =~= st.drop_last());
                Some(Ok(result))
            },
            Ok(ProgramStepResult::LoopEnter(sub)) => {
                if storage.pointer() > SANITY_LIMIT {
                    return Some(Err(ProgramError::MemoryError));
                }
                if *storage.get() == 0 {
                    self.stack.set(n - 1, pc + 1);
                } else {
                    self.stack.push(0);
                }
                Some(Ok(StepResult::Continue))
            },
            Ok(ProgramStepResult::Debugger) => {
                self.stack.set(n - 1, pc + 1);
                Some(Ok(StepResult::Debugger))
            },
            Err(e) => Some(Err(e)),
        }
    }
}

/// Command `c` applied `n` times to the data.
pub open spec fn repeat_effect(c: Command, d: Data, n: nat) -> Result<Data, ProgramError>
    decreases n,
{
    if n == 0 {
        Ok(d)
    } else {
        match repeat_effect(c, d, (n - 1) as nat) {
            Ok(d1) => command_effect(c, d1),
            Err(e) => Err(e),
        }
    }
}

proof fn lemma_plus_repeated(d: Data, k: nat)
    requires
        d.ptr <= SANITY_LIMIT,
    ensures
        repeat_effect(Command::Plus, d, k) is Ok,
        repeat_effect(Command::Plus, d, k)->Ok_0.ptr == d.ptr,
        repeat_effect(Command::Plus, d, k)->Ok_0.input == d.input,
        repeat_effect(Command::Plus, d, k)->Ok_0.output == d.output,
        current_cell(repeat_effect(Command::Plus, d, k)->Ok_0) == (current_cell(d) + k) % 256,
        forall|j: int|
            j != d.ptr ==> #[trigger] cell_of(repeat_effect(Command::Plus, d, k)->Ok_0.tape, j)
                == cell_of(d.tape, j),
    decreases k,
{
    if k > 0 {
        lemma_plus_repeated(d, (k - 1) as nat);
        let dk = repeat_effect(Command::Plus, d, (k - 1) as nat)->Ok_0;
        crate::storage::lemma_grown(dk.tape, dk.ptr as int);
        let t = grown(dk.tape, dk.ptr as int);
        assert forall|j: int| j != d.ptr implies #[trigger] cell_of(
            t.update(dk.ptr as int, ((current_cell(dk) + 1) % 256) as u8),
            j,
        ) == cell_of(d.tape, j) by {
            assert(cell_of(t, j) == cell_of(dk.tape, j));
        }
        assert(((current_cell(d) + (k - 1)) % 256 + 1) % 256 == (current_cell(d) + k) % 256);
    }
}

/// Adding one to the current cell 256 times gives every cell back its value
/// and leaves the pointer, input and output as they were.
pub proof fn lemma_plus_wraps(d: Data)
    requires
        d.ptr <= SANITY_LIMIT,
    ensures
        repeat_effect(Command::Plus, d, 256) is Ok,
        repeat_effect(Command::Plus, d, 256)->Ok_0.ptr == d.ptr,
        repeat_effect(Command::Plus, d, 256)->Ok_0.input == d.input,
        repeat_effect(Command::Plus, d, 256)->Ok_0.output == d.output,
        forall|j: int|
            #[trigger] cell_of(repeat_effect(Command::Plus, d, 256)->Ok_0.tape, j) == cell_of(d.tape, j),
{
    lemma_plus_repeated(d, 256);
}

/// Subtracting one from a cell that holds zero gives 255.
pub proof fn lemma_minus_on_zero(d: Data)
    requires
        d.ptr <= SANITY_LIMIT,
        current_cell(d) == 0,
    ensures
        command_effect(Command::Minus, d) is Ok,
        current_cell(command_effect(Command::Minus, d)->Ok_0) == 255,
{
    crate::storage::lemma_grown(d.tape, d.ptr as int);
}

/// A loop reached while the current cell is zero is passed over in a single
/// step that reports `Continue`: none of its body runs, the frame moves to
/// the next command and no cell value changes.
pub proof fn lemma_loop_skip(root: Program, m: Machine, p: Program)
    requires
        m.stack.len() > 0,
        frame_program(root, m.stack.drop_last()) == Some(p),
        m.stack.last() < p.commands().len(),
        p.commands()[m.stack.last() as int] is Loop,
        m.data.ptr <= SANITY_LIMIT,
        current_cell(m.data) == 0,
    ensures
        step_spec(root, m) == Some(
            Outcome::Step(StepResult::Continue, Machine { stack: advanced(m.stack), data: touched(m.data) }),
        ),
        advanced(m.stack).len() == m.stack.len(),
        advanced(m.stack).last() == m.stack.last() + 1,
        forall|j: int| #[trigger] cell_of(touched(m.data).tape, j) == cell_of(m.data.tape, j),
{
    crate::storage::lemma_grown(m.data.tape, m.data.ptr as int);
    assert(p.commands.len() == p.commands().len());
}

/// When the body of a loop has run to its end, the step leaves the body's
/// frame and reports `LoopEnd` if the current cell is zero and
/// `LoopIteration` otherwise; the enclosing frame still points at the loop,
/// so the following step enters the body again exactly when the cell is not
/// zero, and passes over the loop otherwise.
pub proof fn lemma_loop_exit(root: Program, m: Machine, p: Program)
    requires
        m.stack.len() > 1,
        frame_program(root, m.stack.drop_last()) == Some(p),
        m.stack.last() >= p.commands().len(),
        m.data.ptr <= SANITY_LIMIT,
    ensures
        ({
            let next = Machine { stack: m.stack.drop_last(), data: touched(m.data) };
            &&& step_spec(root, m) == Some(
                Outcome::Step(
                    if current_cell(m.data) == 0 {
                        StepResult::LoopEnd
                    } else {
                        StepResult::LoopIteration
                    },
                    next,
                ),
            )
            &&& step_spec(root, next) == Some(
                if current_cell(m.data) == 0 {
                    Outcome::Step(
                        StepResult::Continue,
                        Machine { stack: advanced(next.stack), data: touched(next.data) },
                    )
                } else {
                    Outcome::Step(
                        StepResult::Continue,
                        Machine { stack: next.stack.push(0), data: touched(next.data) },
                    )
                },
            )
        }),
{
    let next = Machine { stack: m.stack.drop_last(), data: touched(m.data) };
    crate::storage::lemma_grown(m.data.tape, m.data.ptr as int);
    crate::storage::lemma_grown(next.data.tape, next.data.ptr as int);
    assert(grown(next.data.tape, next.data.ptr as int) == next.data.tape);
    assert(touched(next.data) == next.data);
    let parent = frame_program(root, m.stack.drop_last().drop_last());
    assert(parent is Some);
    assert(m.stack.drop_last().last() < parent->Some_0.commands().len());
    assert(parent->Some_0.commands()[m.stack.drop_last().last() as int] is Loop);
}

/// An `Input` command met once the input is exhausted fails with `Eof`, and
/// the run ends there with the output it had.
pub proof fn lemma_input_eof(root: Program, m: Machine, p: Program, fuel: nat)
    requires
        m.stack.len() > 0,
        frame_program(root, m.stack.drop_last()) == Some(p),
        m.stack.last() < p.commands().len(),
        p.commands()[m.stack.last() as int] is Input,
        m.data.input.len() == 0,
        fuel > 0,
    ensures
        step_spec(root, m) == Some(Outcome::Fail(ProgramError::Eof)),
        crate::stepper::run_spec(root, m, fuel) == crate::stepper::RunEnd::Failed(ProgramError::Eof, m),
{
}

/// Whether a source byte means something to the parser.
pub open spec fn is_significant(b: u8) -> bool {
    op_of_byte(b) is Some || b == 91 || b == 93
}

proof fn lemma_ops_upto_len(s: Seq<Command>, n: nat)
    requires
        n <= s.len(),
    ensures
        ops_upto(s, n).len() == n,
    decreases n,
{
    if n > 0 {
        lemma_ops_upto_len(s, (n - 1) as nat);
    }
}

proof fn lemma_parse_ignored(src: Seq<u8>, pos: nat)
    requires
        pos <= src.len(),
        forall|i: int| 0 <= i < src.len() ==> !is_significant(#[trigger] src[i]),
    ensures
        parse_level(src, pos) == (Seq::<Op>::empty(), src.len()),
    decreases src.len() - pos,
{
    if pos < src.len() {
        assert(!is_significant(src[pos as int]));
        lemma_parse_ignored(src, pos + 1);
    }
}

/// A source made only of characters that mean nothing to the parser (a
/// comment) parses to the empty program; a run of it finishes after a single
/// step, writes nothing, reads nothing, and leaves the pointer and every cell
/// value as they were.
pub proof fn lemma_comment_only(src: Seq<u8>, p: Program, tape: Seq<u8>, ptr: nat, input: Seq<u8>, fuel: nat)
    requires
        forall|i: int| 0 <= i < src.len() ==> !is_significant(#[trigger] src[i]),
        p.ops() == parse_spec(src),
        ptr <= SANITY_LIMIT,
        fuel > 0,
    ensures
        parse_spec(src) == Seq::<Op>::empty(),
        ({
            let start = Machine {
                stack: seq![0usize],
                data: Data { tape, ptr, input, output: Seq::empty() },
            };
            let end = crate::stepper::run_spec(p, start, fuel);
            &&& end is Finished
            &&& end->Finished_0.stack.len() == 0
            &&& end->Finished_0.data.output == Seq::<u8>::empty()
            &&& end->Finished_0.data.input == input
            &&& end->Finished_0.data.ptr == ptr
            &&& forall|j: int| #[trigger] cell_of(end->Finished_0.data.tape, j) == cell_of(tape, j)
        }),
{
    lemma_parse_ignored(src, 0);
    lemma_ops_upto_len(p.commands(), p.commands().len());
    let start = Machine { stack: seq![0usize], data: Data { tape, ptr, input, output: Seq::empty() } };
    let next = Machine { stack: Seq::empty(), data: touched(start.data) };
    assert(start.stack.drop_last() =~= Seq::<usize>::empty());
    assert(start.stack.drop_last() =~= next.stack);
    assert(step_spec(p, next) is None);
    assert(crate::stepper::run_spec(p, next, (fuel - 1) as nat) == crate::stepper::RunEnd::Finished(next));
    crate::storage::lemma_grown(tape, ptr as int);
}

/// What the first `n` steps of a run of `root` from `m` report, stopping
/// early where a step fails or no frame is left.
pub open spec fn step_results(root: Program, m: Machine, n: nat) -> Seq<StepResult>
    decreases n,
{
    if n == 0 {
        Seq::empty()
    } else {
        match step_spec(root, m) {
            Some(Outcome::Step(r, m2)) => seq![r] + step_results(root, m2, (n - 1) as nat),
            _ => Seq::empty(),
        }
    }
}

/// The state after the first `n` steps of a run of `root` from `m`,
/// stopping early where a step fails or no frame is left.
pub open spec fn state_after(root: Program, m: Machine, n: nat) -> Machine
    decreases n,
{
    if n == 0 {
        m
    } else {
        match step_spec(root, m) {
            Some(Outcome::Step(_, m2)) => state_after(root, m2, (n - 1) as nat),
            _ => m,
        }
    }
}

/// What a loop whose body is a single `-` reports while it counts a cell
/// down from `k`: three steps per pass (enter, decrement, end of body), the
/// last step of each pass `LoopIteration`, except the last pass, which ends
/// in `LoopEnd`.
pub open spec fn countdown_results(k: nat) -> Seq<StepResult>
    decreases k,
{
    if k <= 1 {
        seq![StepResult::Continue, StepResult::Continue, StepResult::LoopEnd]
    } else {
        seq![StepResult::Continue, StepResult::Continue, StepResult::LoopIteration]
            + countdown_results((k - 1) as nat)
    }
}

/// A loop whose body decrements the current cell, entered with the cell at
/// `k > 0`, runs `k` passes: it reports `LoopIteration` at the end of every
/// pass but the last and exactly one `LoopEnd`, at the end of the pass that
/// brings the cell to zero. It then stands where it started, with the cell at
/// zero, and its next step passes over the loop.
pub proof fn lemma_countdown_loop(root: Program, m: Machine, p: Program, sub: Program)
    requires
        m.stack.len() > 0,
        frame_program(root, m.stack.drop_last()) == Some(p),
        m.stack.last() < p.commands().len(),
        p.commands()[m.stack.last() as int] == Command::Loop(sub),
        sub.commands().len() == 1,
        sub.commands()[0] is Minus,
        m.data.ptr <= SANITY_LIMIT,
        current_cell(m.data) > 0,
    ensures
        ({
            let k = current_cell(m.data) as nat;
            let end = state_after(root, m, 3 * k);
            &&& step_results(root, m, 3 * k) == countdown_results(k)
            &&& end.stack == m.stack
            &&& end.data.ptr == m.data.ptr
            &&& end.data.input == m.data.input
            &&& end.data.output == m.data.output
            &&& current_cell(end.data) == 0
            &&& forall|j: int| j != m.data.ptr ==> #[trigger] cell_of(end.data.tape, j) == cell_of(m.data.tape, j)
            &&& step_spec(root, end) == Some(
                Outcome::Step(
                    StepResult::Continue,
                    Machine { stack: advanced(m.stack), data: touched(end.data) },
                ),
            )
        }),
    decreases current_cell(m.data),
{
    let k = current_cell(m.data) as nat;
    let d1 = touched(m.data);
    crate::storage::lemma_grown(m.data.tape, m.data.ptr as int);
    let m1 = Machine { stack: m.stack.push(0), data: d1 };
    assert(m1.stack.drop_last() =~= m.stack);
    assert(step_spec(root, m) == Some(Outcome::Step(StepResult::Continue, m1)));
    assert(frame_program(root, m.stack) == Some(sub));
    let d2 = written(d1, ((current_cell(d1) + 255) % 256) as u8);
    crate::storage::lemma_grown(d1.tape, d1.ptr as int);
    assert(grown(d1.tape, d1.ptr as int) == d1.tape);
    let m2 = Machine { stack: advanced(m1.stack), data: d2 };
    assert(advanced(m1.stack) =~= m.stack.push(1));
    assert(m2.stack.drop_last() =~= m.stack);
    assert(step_spec(root, m1) == Some(Outcome::Step(StepResult::Continue, m2)));
    assert(current_cell(d2) == k - 1);
    crate::storage::lemma_grown(d2.tape, d2.ptr as int);
    assert(grown(d2.tape, d2.ptr as int) == d2.tape);
    let m3 = Machine { stack: m.stack, data: d2 };
    assert(touched(d2) == d2);
    let r3 = if k == 1 {
        StepResult::LoopEnd
    } else {
        StepResult::LoopIteration
    };
    assert(step_spec(root, m2) == Some(Outcome::Step(r3, m3)));
    let n = (3 * k - 3) as nat;
    assert(step_results(root, m2, n + 1) == seq![r3] + step_results(root, m3, n));
    assert(step_results(root, m1, n + 2) == seq![StepResult::Continue] + step_results(root, m2, n + 1));
    assert(step_results(root, m, n + 3) == seq![StepResult::Continue] + step_results(root, m1, n + 2));
    assert(n + 3 == 3 * k);
    assert(step_results(root, m, 3 * k) =~= seq![StepResult::Continue, StepResult::Continue, r3]
        + step_results(root, m3, n));
    assert(state_after(root, m2, n + 1) == state_after(root, m3, n));
    assert(state_after(root, m1, n + 2) == state_after(root, m2, n + 1));
    assert(state_after(root, m, n + 3) == state_after(root, m1, n + 2));
    assert(state_after(root, m, 3 * k) == state_after(root, m3, n));
    assert forall|j: int| j != m.data.ptr implies #[trigger] cell_of(d2.tape, j) == cell_of(m.data.tape, j) by {
        assert(cell_of(d1.tape, j) == cell_of(m.data.tape, j));
    }
    if k == 1 {
        assert(step_results(root, m3, 0) =~= Seq::<StepResult>::empty());
        assert(step_results(root, m, 3 * k) =~= countdown_results(k));
        lemma_loop_skip(root, m3, p);
    } else {
        lemma_countdown_loop(root, m3, p, sub);
        assert((3 * k - 3) as nat == 3 * ((k - 1) as nat));
        assert(step_results(root, m, 3 * k) =~= countdown_results(k));
    }
}

} // verus!
