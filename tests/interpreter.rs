use bf_interpreter::program::ByteInput;
use bf_interpreter::stepper::{DebugCommand, Normal, Stepper};
use bf_interpreter::{Interpreter, Program, ProgramError, StepResult, Storage};

fn trace(code: &[u8], input: Vec<u8>) -> (Vec<Result<StepResult, ProgramError>>, Vec<u8>) {
    let program = Program::parse(code);
    let mut storage = Storage::new();
    let mut input = ByteInput::new(input);
    let mut output = Vec::new();
    let mut instance = program.run();
    let mut steps = Vec::new();
    while let Some(step) = instance.next(&mut storage, &mut input, &mut output) {
        let failed = step.is_err();
        steps.push(step);
        if failed {
            break;
        }
    }
    (steps, output)
}

#[test]
fn test_works() {
    let input = b"+[-[<<[+[--->]-[<<<]]]>>>-]>-.---.>..>.<<<<-.<+.>>>>>.>.<<.<-.";
    let mut interpreter = Interpreter::new(input.to_vec());
    let output = interpreter.run(Vec::new()).expect("Failed to run");
    assert_eq!(output, "hello world");
}

#[test]
fn comment_only_source_is_empty_and_silent() {
    let code = b"this text has no commands at all".to_vec();
    assert_eq!(Program::parse(&code).len(), 0);
    let mut interpreter = Interpreter::new(code);
    let output = interpreter.run(b"xyz".to_vec()).expect("comment runs");
    assert_eq!(output, "");
    assert_eq!(interpreter.memory().pointer(), 0);
    assert_eq!(interpreter.memory().cell(0), 0);
    let (steps, out) = trace(b"just words", Vec::new());
    assert_eq!(steps, vec![Ok(StepResult::LoopEnd)]);
    assert!(out.is_empty());
}

#[test]
fn plus_wraps_after_256() {
    let mut storage = Storage::new();
    storage.set(17);
    for _ in 0..256 {
        storage.inc_mem();
    }
    assert_eq!(*storage.get(), 17);
    let mut fresh = Storage::new();
    fresh.dec_mem();
    assert_eq!(*fresh.get(), 255);
}

#[test]
fn plus_program_wraps() {
    let mut code = vec![b'+'; 256];
    code.extend_from_slice(b"+.");
    let (_, out) = trace(&code, Vec::new());
    assert_eq!(out, vec![1]);
    let (_, out) = trace(b"-.", Vec::new());
    assert_eq!(out, vec![255]);
}

#[test]
fn loop_on_zero_is_skipped() {
    let (steps, out) = trace(b"[+.]", Vec::new());
    assert_eq!(steps, vec![Ok(StepResult::Continue), Ok(StepResult::LoopEnd)]);
    assert!(out.is_empty());
}

#[test]
fn loop_reports_iterations_then_one_end() {
    let (steps, _) = trace(b"+++[-]", Vec::new());
    let c = Ok(StepResult::Continue);
    let expected = vec![
        c.clone(), c.clone(), c.clone(),
        c.clone(), c.clone(), Ok(StepResult::LoopIteration),
        c.clone(), c.clone(), Ok(StepResult::LoopIteration),
        c.clone(), c.clone(), Ok(StepResult::LoopEnd),
        c.clone(),
        Ok(StepResult::LoopEnd),
    ];
    assert_eq!(steps, expected);
}

#[test]
fn input_past_end_fails_with_eof() {
    let (steps, out) = trace(b"+.,.", Vec::new());
    assert_eq!(steps.last(), Some(&Err(ProgramError::Eof)));
    assert_eq!(out, vec![1]);
    let mut interpreter = Interpreter::new(b",.".to_vec());
    assert_eq!(interpreter.run(Vec::new()), Err(ProgramError::Eof));
}

#[test]
fn input_is_echoed() {
    let mut interpreter = Interpreter::new(b",.,.".to_vec());
    assert_eq!(interpreter.run(b"ok".to_vec()), Ok("ok".to_string()));
}

#[test]
fn unmatched_brackets_are_permissive() {
    assert_eq!(Program::parse(b"++]+++").len(), 2);
    assert_eq!(Program::parse(b"+[+++").len(), 2);
    let mut interpreter = Interpreter::new(b"+++++ +++++ [>+++++ ++<-]>--.".to_vec());
    assert_eq!(interpreter.run(Vec::new()), Ok("D".to_string()));
}

#[test]
fn pointer_left_of_zero_is_memory_error() {
    let mut interpreter = Interpreter::new(b"<".to_vec());
    assert_eq!(interpreter.run(Vec::new()), Err(ProgramError::MemoryError));
}

#[test]
fn tape_limit_is_memory_error() {
    let mut code = vec![b'>'; 4097];
    code.push(b'+');
    let mut interpreter = Interpreter::new(code);
    assert_eq!(interpreter.run(Vec::new()), Err(ProgramError::MemoryError));
    let mut code = vec![b'>'; 4096];
    code.extend_from_slice(b"+++++ +++++ .");
    let mut interpreter = Interpreter::new(code);
    assert_eq!(interpreter.run(Vec::new()), Ok("\n".to_string()));
    assert_eq!(interpreter.memory().len(), 4097);
}

#[test]
fn invalid_utf8_output_is_reported() {
    let mut interpreter = Interpreter::new(b"-.".to_vec());
    assert_eq!(interpreter.run(Vec::new()), Err(ProgramError::InvalidOutput));
}

#[test]
fn endless_loop_hits_step_limit() {
    let program = Program::parse(b"+[]");
    let mut storage = Storage::new();
    let mut input = ByteInput::new(Vec::new());
    let mut output = Vec::new();
    let mut instance = program.run();
    let mut normal = Normal::new();
    let r = normal.run_to_end(&mut instance, &mut storage, &mut input, &mut output, 50);
    assert_eq!(r, Err(ProgramError::StepLimit));
    assert!(!instance.is_done());
}

#[test]
fn run_to_end_finishes() {
    let program = Program::parse(b"++.");
    let mut storage = Storage::new();
    let mut input = ByteInput::new(Vec::new());
    let mut output = Vec::new();
    let mut instance = program.run();
    let mut normal = Normal::new();
    let r = normal.run_to_end(&mut instance, &mut storage, &mut input, &mut output, 100);
    assert_eq!(r, Ok(()));
    assert!(instance.is_done());
    assert_eq!(output, vec![2]);
}

#[test]
fn debugger_grammar() {
    assert_eq!(DebugCommand::parse("r5"), Ok(DebugCommand::Run(5)));
    assert_eq!(DebugCommand::parse("rli"), Ok(DebugCommand::RunLoopIteration));
    assert_eq!(DebugCommand::parse("x"), Err(ProgramError::BadCommand));
    assert_eq!(DebugCommand::parse(""), Err(ProgramError::BadCommand));
}

#[test]
fn debugger_grammar_more() {
    assert_eq!(DebugCommand::parse("r"), Ok(DebugCommand::RunToEnd));
    assert_eq!(DebugCommand::parse("re"), Ok(DebugCommand::RunToEnd));
    assert_eq!(DebugCommand::parse("rle"), Ok(DebugCommand::RunToAfterLoop));
    assert_eq!(DebugCommand::parse("rl"), Err(ProgramError::BadCommand));
    assert_eq!(DebugCommand::parse("rlx"), Err(ProgramError::BadCommand));
    assert_eq!(DebugCommand::parse("s"), Ok(DebugCommand::Step));
    assert_eq!(DebugCommand::parse("  r12 \n"), Ok(DebugCommand::Run(12)));
    assert_eq!(DebugCommand::parse("\ts\n"), Ok(DebugCommand::Step));
    assert_eq!(DebugCommand::parse("r5x"), Err(ProgramError::BadCommand));
    assert_eq!(DebugCommand::parse("rx"), Err(ProgramError::BadCommand));
    assert_eq!(
        DebugCommand::parse("r99999999999999999999999"),
        Err(ProgramError::BadCommand)
    );
    assert_eq!(DebugCommand::parse_trimmed(" s"), Err(ProgramError::BadCommand));
}

#[test]
fn debug_stepper_modes() {
    let mut d = bf_interpreter::stepper::Debug::new();
    assert_eq!(d.state, DebugCommand::Break);
    assert!(d.observe(StepResult::Continue));
    d.resume(DebugCommand::Run(2));
    assert!(!d.observe(StepResult::Continue));
    assert_eq!(d.state, DebugCommand::Run(1));
    assert!(!d.observe(StepResult::Continue));
    assert_eq!(d.state, DebugCommand::Break);
    assert!(d.observe(StepResult::Continue));

    d.resume(DebugCommand::RunLoopIteration);
    assert!(!d.observe(StepResult::LoopEnd));
    assert!(!d.observe(StepResult::LoopIteration));
    assert_eq!(d.state, DebugCommand::Break);

    d.resume(DebugCommand::RunToAfterLoop);
    assert!(!d.observe(StepResult::LoopIteration));
    assert!(!d.observe(StepResult::LoopEnd));
    assert_eq!(d.state, DebugCommand::Break);

    d.resume(DebugCommand::RunToEnd);
    assert!(!d.observe(StepResult::Continue));
    assert!(d.observe(StepResult::Debugger));

    d.resume(DebugCommand::RunToEndWithoutBreak);
    assert!(!d.observe(StepResult::Debugger));
    assert_eq!(d.state, DebugCommand::RunToEndWithoutBreak);

    let mut n = Normal::new();
    assert!(!n.observe(StepResult::Debugger));
}

#[test]
fn breakpoint_step_is_reported() {
    let (steps, _) = trace(b"#", Vec::new());
    assert_eq!(steps, vec![Ok(StepResult::Debugger), Ok(StepResult::LoopEnd)]);
}

#[test]
fn storage_rendering() {
    let mut storage = Storage::new();
    storage.get();
    assert_eq!(storage.render(), "[Storage size=1 ptr=0]\n> 0   \n  0   ");
    let mut wide = Storage::new();
    for _ in 0..15 {
        wide.inc_ptr();
    }
    wide.set(200);
    let text = wide.render();
    assert!(text.starts_with("[Storage size=16 ptr=15]\n"));
    assert!(text.contains("> 15  "));
    assert!(text.contains(" 200  "));
    assert!(!text.contains(" 4   "));
    assert_eq!(storage.render_bytes(), storage.render().into_bytes());
}

#[test]
fn storage_growth() {
    let mut storage = Storage::new();
    assert_eq!(storage.len(), 0);
    storage.inc_ptr();
    storage.inc_ptr();
    assert_eq!(storage.len(), 0);
    assert_eq!(*storage.get(), 0);
    assert_eq!(storage.len(), 3);
    *storage.get_mut() = 9;
    storage.dec_ptr();
    storage.inc_mem();
    assert_eq!(storage.cell(1), 1);
    assert_eq!(storage.cell(2), 9);
    assert_eq!(storage.cell(100), 0);
}

#[test]
fn error_messages() {
    assert_eq!(ProgramError::Eof.message(), "Eof");
    assert_eq!(ProgramError::BadCommand.message(), "Bad Command");
    assert_eq!(ProgramError::PcOutOfBounds.message(), "Program Counter out of bounds");
    assert_eq!(ProgramError::MemoryError.message(), "Memory Error");
}
