use concordevm::codec::{i64_to_bytes, u64_of_bytes};
use concordevm::fault::Fault;
use concordevm::instructions::Instruction;
use concordevm::interp::Program;
use concordevm::memory::Memory;
use concordevm::scheduler::{CoroutineId, RunOutcome, Scheduler};

const FUEL: u64 = 100_000;

fn run_program(instructions: Vec<Instruction>) -> Result<Vec<u8>, Fault> {
    let mut scheduler = Scheduler::new();
    match scheduler.run(Program::new(instructions, 0), FUEL)? {
        RunOutcome::Done(payload) => Ok(payload),
        other => panic!("the program did not finish: {:?}", other),
    }
}

fn decode_i64(bytes: &[u8]) -> i64 {
    let mut eight = [0u8; 8];
    eight.copy_from_slice(bytes);
    i64::from_le_bytes(eight)
}

#[test]
fn basic_arithmetic() {
    let mut scheduler = Scheduler::new();
    let instructions = vec![
        Instruction::MemExtend(24),
        Instruction::WriteInt(0, 1),
        Instruction::WriteInt(8, 2),
        Instruction::Add(0, 8, 16),
    ];
    let outcome = scheduler.run(Program::new(instructions, 0), FUEL).unwrap();
    assert!(matches!(outcome, RunOutcome::Done(_)));
    // the root coroutine is retained, so its final memory can be checked
    let memory: &Memory = scheduler.inspect_memory(CoroutineId(1)).unwrap();
    assert_eq!(memory.read_int(16).unwrap(), 3i64);
}

#[test]
fn arithmetic_program_returns_sum() {
    let payload = run_program(vec![
        Instruction::MemExtend(1024),
        Instruction::WriteInt(0, 1),
        Instruction::WriteInt(8, 2),
        Instruction::Add(0, 8, 16),
        Instruction::Ret(16, 8),
    ])
    .unwrap();
    assert_eq!(payload.len(), 8);
    assert_eq!(decode_i64(&payload), 3i64);
}

#[test]
fn branch_program_takes_greater_path() {
    let payload = run_program(vec![
        Instruction::MemExtend(1024),
        Instruction::WriteInt(0, 5),
        Instruction::WriteInt(8, 3),
        Instruction::CompareGreater(0, 8, 16),
        Instruction::JumpIfTrue(7, 16),
        Instruction::WriteInt(24, 100),
        Instruction::Ret(24, 8),
        Instruction::WriteInt(24, 200),
        Instruction::Ret(24, 8),
    ])
    .unwrap();
    assert_eq!(decode_i64(&payload), 200i64);
}

#[test]
fn spawn_and_await_doubles_argument() {
    // the parent writes an argument, forks a child at its entry counter,
    // awaits the child's result future and returns the delivered payload;
    // the child doubles the 8 argument bytes it finds at address zero
    let parent_arg: i64 = 21;
    let payload = run_program(vec![
        // parent, entered at 0
        Instruction::MemExtend(128),
        Instruction::WriteInt(0, parent_arg),
        Instruction::CreateCoroutine(5, 0, 8, 32),
        Instruction::Await(32, 64),
        Instruction::Ret(64, 8),
        // child, entered at 5; its memory holds the 8 argument bytes
        Instruction::MemExtend(16),
        Instruction::Add(0, 0, 8),
        Instruction::Ret(8, 8),
    ])
    .unwrap();
    assert_eq!(decode_i64(&payload), 42i64);
}

#[test]
fn string_round_trip_through_ret() {
    let payload = run_program(vec![
        Instruction::MemExtend(64),
        Instruction::WriteString(0, String::from("Hello, world!")),
        Instruction::Ret(0, 13),
    ])
    .unwrap();
    assert_eq!(payload, b"Hello, world!".to_vec());
}

#[test]
fn division_by_zero_is_reported() {
    let fault = run_program(vec![
        Instruction::MemExtend(24),
        Instruction::WriteInt(0, 10),
        Instruction::WriteInt(8, 0),
        Instruction::Div(0, 8, 16),
    ])
    .unwrap_err();
    assert_eq!(fault, Fault::DivisionByZero);
}

#[test]
fn awaiting_unknown_future_is_reported() {
    // the only work is an await of future id 999, which was never created
    let fault = run_program(vec![
        Instruction::MemExtend(16),
        Instruction::WriteInt(0, 999),
        Instruction::Await(0, 8),
    ])
    .unwrap_err();
    assert_eq!(fault, Fault::MissingFuture);
}

#[test]
fn mutual_wait_is_a_deadlock() {
    // the root's result future always gets id 1; a child that awaits it while
    // the root awaits the child leaves nothing runnable
    let fault = run_program(vec![
        // root, entered at 0
        Instruction::MemExtend(64),
        Instruction::CreateCoroutine(4, 0, 0, 8),
        Instruction::Await(8, 16),
        Instruction::Ret(16, 8),
        // child, entered at 4: awaits the root's own result future
        Instruction::MemExtend(16),
        Instruction::WriteInt(0, 1),
        Instruction::Await(0, 8),
    ])
    .unwrap_err();
    assert_eq!(fault, Fault::Deadlock);
}

#[test]
fn fuel_runs_out_on_a_spinning_program() {
    let mut scheduler = Scheduler::new();
    let outcome = scheduler
        .run(Program::new(vec![Instruction::Jump(0)], 0), 10)
        .unwrap();
    assert!(matches!(outcome, RunOutcome::OutOfFuel));
}

#[test]
fn empty_program_finishes_with_empty_payload() {
    let payload = run_program(vec![]).unwrap();
    assert_eq!(payload, Vec::<u8>::new());
}

#[test]
fn spawned_future_ids_increase() {
    let mut scheduler = Scheduler::new();
    let code = Program::new(vec![Instruction::NoOp], 0);
    let first = scheduler.spawn_coro(code.fork(0), 0, Vec::new());
    let second = scheduler.spawn_coro(code.fork(0), 0, Vec::new());
    let third = scheduler.spawn_coro(code, 0, Vec::new());
    assert!(first < second);
    assert!(second < third);
    // id zero is never handed out
    assert!(first > 0);
}

#[test]
fn ready_queue_is_fifo() {
    let mut scheduler = Scheduler::new();
    let code = Program::new(vec![Instruction::NoOp], 0);
    scheduler.spawn_coro(code.fork(0), 0, Vec::new());
    scheduler.spawn_coro(code.fork(0), 5, Vec::new());
    scheduler.spawn_coro(code, -3, Vec::new());
    // the least recently enqueued runs first, whatever the priorities say
    let first = scheduler.get_next_runnable().unwrap();
    let second = scheduler.get_next_runnable().unwrap();
    let third = scheduler.get_next_runnable().unwrap();
    assert_eq!(first.id, CoroutineId(1));
    assert_eq!(second.id, CoroutineId(2));
    assert_eq!(third.id, CoroutineId(3));
    assert!(scheduler.get_next_runnable().is_none());
}

#[test]
fn completion_delivers_before_resumption() {
    let mut scheduler = Scheduler::new();
    let code = Program::new(vec![Instruction::NoOp], 0);
    let producer_fid = scheduler.spawn_coro(code.fork(0), 0, Vec::new());
    scheduler.spawn_coro(code, 0, vec![0; 16]);
    let waiter = CoroutineId(2);
    scheduler.await_future(waiter, producer_fid, 4).unwrap();
    scheduler.complete_future(producer_fid, vec![7, 8, 9]).unwrap();
    // the payload stands in the waiter's memory before it runs again
    let memory = scheduler.inspect_memory(waiter).unwrap();
    assert_eq!(memory.read_bytes(4, 3).unwrap(), vec![7, 8, 9]);
}

#[test]
fn completing_twice_is_a_double_complete() {
    let mut scheduler = Scheduler::new();
    let code = Program::new(vec![Instruction::NoOp], 0);
    let fid = scheduler.spawn_coro(code, 0, Vec::new());
    scheduler.complete_future(fid, vec![1]).unwrap();
    assert_eq!(
        scheduler.complete_future(fid, vec![2]),
        Err(Fault::DoubleComplete)
    );
}

#[test]
fn completing_unknown_future_is_missing() {
    let mut scheduler = Scheduler::new();
    assert_eq!(
        scheduler.complete_future(40, vec![1]),
        Err(Fault::MissingFuture)
    );
}

#[test]
fn awaiting_cancelled_future_faults() {
    let mut scheduler = Scheduler::new();
    let code = Program::new(vec![Instruction::NoOp], 0);
    let fid = scheduler.spawn_coro(code.fork(0), 0, Vec::new());
    scheduler.spawn_coro(code, 0, vec![0; 8]);
    scheduler.cancel_future(fid).unwrap();
    assert_eq!(
        scheduler.await_future(CoroutineId(2), fid, 0),
        Err(Fault::Cancelled)
    );
    // a cancelled future can be completed no more
    assert_eq!(scheduler.cancel_future(fid), Err(Fault::DoubleComplete));
}

#[test]
fn awaiting_complete_future_delivers_immediately() {
    let mut scheduler = Scheduler::new();
    let code = Program::new(vec![Instruction::NoOp], 0);
    let fid = scheduler.spawn_coro(code.fork(0), 0, Vec::new());
    scheduler.spawn_coro(code, 0, vec![0; 8]);
    scheduler.complete_future(fid, vec![5, 6]).unwrap();
    scheduler.await_future(CoroutineId(2), fid, 1).unwrap();
    let memory = scheduler.inspect_memory(CoroutineId(2)).unwrap();
    assert_eq!(memory.read_bytes(0, 8).unwrap(), vec![0, 5, 6, 0, 0, 0, 0, 0]);
}

#[test]
fn delete_future_refuses_awaited_futures() {
    let mut scheduler = Scheduler::new();
    let code = Program::new(vec![Instruction::NoOp], 0);
    let fid = scheduler.spawn_coro(code.fork(0), 0, Vec::new());
    scheduler.spawn_coro(code, 0, vec![0; 8]);
    scheduler.await_future(CoroutineId(2), fid, 0).unwrap();
    assert!(!scheduler.delete_future(fid));
    assert!(!scheduler.delete_future(999));
    // a fresh, unawaited future can go
    let mut other = Scheduler::new();
    let lone = other.spawn_coro(Program::new(vec![], 0), 0, Vec::new());
    assert!(other.delete_future(lone));
}

#[test]
fn spawn_writes_arguments_at_address_zero() {
    let mut scheduler = Scheduler::new();
    let code = Program::new(vec![Instruction::NoOp], 0);
    scheduler.spawn_coro(code, 7, vec![9, 8, 7]);
    let memory = scheduler.inspect_memory(CoroutineId(1)).unwrap();
    assert_eq!(memory.capacity(), 3);
    assert_eq!(memory.dump(), vec![9, 8, 7]);
}

#[test]
fn created_coroutine_id_is_written_back() {
    // the parent learns the child's future id through memory
    let mut scheduler = Scheduler::new();
    let instructions = vec![
        Instruction::MemExtend(64),
        Instruction::CreateCoroutine(3, 0, 0, 16),
        Instruction::Ret(16, 8),
        Instruction::Ret(0, 0),
    ];
    let outcome = scheduler.run(Program::new(instructions, 0), FUEL).unwrap();
    match outcome {
        RunOutcome::Done(payload) => {
            // the root future has id 1, so the child's future got id 2
            assert_eq!(u64_of_bytes(&payload), 2);
        },
        other => panic!("the program did not finish: {:?}", other),
    }
}

#[test]
fn external_completion_unblocks_a_run() {
    // the root awaits its child's future while the child waits forever, so
    // the scheduler blocks; an outside completion of the awaited future lets
    // a later resume finish the run
    let mut scheduler = Scheduler::new();
    let program = Program::new(
        vec![
            // root, entered at 0; the child's future gets id 2
            Instruction::MemExtend(64),
            Instruction::CreateCoroutine(4, 0, 0, 8),
            Instruction::Await(8, 16),
            Instruction::Ret(16, 8),
            // child, entered at 4: waits forever on the root's future
            Instruction::MemExtend(16),
            Instruction::WriteInt(0, 1),
            Instruction::Await(0, 8),
        ],
        0,
    );
    scheduler.spawn_coro(program, 0, Vec::new());
    let root = CoroutineId(1);
    let outcome = scheduler.resume(root, FUEL).unwrap();
    assert!(matches!(outcome, RunOutcome::Blocked));
    scheduler.complete_future(2, i64_to_bytes(77)).unwrap();
    match scheduler.resume(root, FUEL).unwrap() {
        RunOutcome::Done(payload) => assert_eq!(decode_i64(&payload), 77),
        other => panic!("the run did not finish: {:?}", other),
    }
}

#[test]
fn a_run_continues_after_out_of_fuel() {
    let mut scheduler = Scheduler::new();
    let program = Program::new(
        vec![
            Instruction::MemExtend(1024),
            Instruction::WriteInt(0, 1),
            Instruction::WriteInt(8, 2),
            Instruction::Add(0, 8, 16),
            Instruction::Ret(16, 8),
        ],
        0,
    );
    let outcome = scheduler.run(program, 2).unwrap();
    assert!(matches!(outcome, RunOutcome::OutOfFuel));
    match scheduler.resume(CoroutineId(1), FUEL).unwrap() {
        RunOutcome::Done(payload) => assert_eq!(decode_i64(&payload), 3),
        other => panic!("the run did not finish: {:?}", other),
    }
}

#[test]
fn fault_descriptions() {
    assert_eq!(Fault::Deadlock.describe(), "deadlock");
    assert_eq!(Fault::DivisionByZero.describe(), "division by zero");
    assert_eq!(Fault::OutOfBounds.describe(), "out of bounds");
    assert_eq!(Fault::TypeParse.describe(), "type parse error");
    assert_eq!(Fault::MissingFuture.describe(), "missing future");
    assert_eq!(Fault::DoubleComplete.describe(), "double completion of a future");
    assert_eq!(Fault::Cancelled.describe(), "future cancelled");
}

#[test]
fn write_int_payload_matches_codec() {
    // the same integer encoded by the codec and by the interpreter
    let payload = run_program(vec![
        Instruction::MemExtend(8),
        Instruction::WriteInt(0, -99),
        Instruction::Ret(0, 8),
    ])
    .unwrap();
    assert_eq!(payload, i64_to_bytes(-99));
}
