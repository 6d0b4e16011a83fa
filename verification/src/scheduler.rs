//! The cooperative scheduler: coroutines, futures, the ready queue, and the
//! run loop that drives interpreter cycles and dispatches interrupts.
//!
//! The scheduler owns every coroutine and every future by id. Ids are
//! allocated by bumping a per-kind counter before handing the id out, so id
//! `0` is never issued and stands for "none". The ready queue is strictly
//! FIFO: the next coroutine to run is the least recently enqueued. Priority
//! is carried on coroutines but is advisory; the default policy ignores it.
//!
//! A coroutine that awaits suspends on exactly one future at a time; the
//! future records it as a dependant. Completing a future writes the payload
//! into every dependant's memory at its declared address, empties their
//! pending set and enqueues them, all before any of them runs again.

use crate::fault::Fault;
use crate::instructions::{Instruction, Interrupt};
use crate::interp::{cycle, spec_step, Program};
use crate::memory::{spec_in_bounds, spec_write_bytes, Memory};
use std::collections::{HashMap, VecDeque};
use vstd::prelude::*;

verus! {

broadcast use vstd::std_specs::hash::group_hash_axioms;

/// The lifecycle of a future: a single-assignment cell of bytes.
#[derive(Clone, Copy, Debug, PartialEq, Eq, Structural)]
pub enum FutureState {
    /// Created, not yet completed.
    Waiting,
    /// Holds its final byte payload.
    Complete,
    /// Abandoned; it will never hold a value.
    Cancelled,
}

/// The lifecycle of a coroutine.
#[derive(Clone, Copy, Debug, PartialEq, Eq, Structural)]
pub enum CoroutineState {
    /// In the ready queue, waiting for a turn.
    Runnable,
    /// Waiting on a future.
    Suspended,
    /// Handed to the driver; not in the scheduler's table.
    Running,
    /// Returned; its result future carries the payload.
    Finished,
    /// Terminated without a result.
    Cancelled,
}

/// The identity of a coroutine.
#[derive(Clone, Copy, Debug, PartialEq, Eq, Hash, Structural)]
pub struct CoroutineId(pub u64);

/// What a drive of the scheduler ended with, short of a fault.
#[derive(Debug)]
pub enum RunOutcome {
    /// The root coroutine returned this payload.
    Done(Vec<u8>),
    /// Nothing is runnable; only an outside completion or cancellation can
    /// make progress.
    Blocked,
    /// The budget of interpreter cycles ran out before the root returned.
    OutOfFuel,
}

/// A single-assignment cell holding a byte payload, with the coroutines
/// awaiting it.
pub struct Future {
    /// This future's id in the scheduler's table.
    pub id: u64,
    /// Where the future stands in its lifecycle.
    pub state: FutureState,
    /// Ids of the coroutines suspended on this future.
    pub dependants: Vec<u64>,
    /// The payload, once complete.
    pub value: Option<Vec<u8>>,
}

/// The mathematical shape of a future.
#[verifier::ext_equal]
pub struct FutureModel {
    /// The future's id.
    pub id: u64,
    /// Where the future stands in its lifecycle.
    pub state: FutureState,
    /// Ids of the coroutines suspended on it, oldest first.
    pub dependants: Seq<u64>,
    /// The payload, once complete.
    pub value: Option<Seq<u8>>,
}

impl View for Future {
    type V = FutureModel;

    open spec fn view(&self) -> FutureModel {
        FutureModel {
            id: self.id,
            state: self.state,
            dependants: self.dependants@,
            value: match self.value {
                Some(v) => Some(v@),
                None => None,
            },
        }
    }
}

/// A cooperative task: a private linear memory and a program handle with its
/// own program counter.
pub struct Coroutine {
    /// This coroutine's id in the scheduler's table.
    pub id: CoroutineId,
    /// Advisory priority; the default FIFO policy ignores it.
    pub priority: i32,
    /// Where the coroutine stands in its lifecycle.
    pub state: CoroutineState,
    /// The future this coroutine awaits, mapped to the address at which the
    /// payload is to be delivered. At most one entry at a time.
    pub depends_on: HashMap<u64, usize>,
    /// The result future completed with this coroutine's `Ret` payload.
    pub dependant: Option<u64>,
    /// The coroutine's private linear memory.
    pub memory: Memory,
    /// The shared program and this coroutine's program counter.
    pub program: Program,
}

/// The mathematical shape of a coroutine.
#[verifier::ext_equal]
pub struct CoroutineModel {
    /// The coroutine's id.
    pub id: u64,
    /// Advisory priority.
    pub priority: i32,
    /// Where the coroutine stands in its lifecycle.
    pub state: CoroutineState,
    /// The awaited future, mapped to the delivery address.
    pub depends_on: Map<u64, usize>,
    /// The coroutine's result future.
    pub dependant: Option<u64>,
    /// The bytes of the coroutine's memory.
    pub mem: Seq<u8>,
    /// The shared instructions.
    pub code: Seq<Instruction>,
    /// The program counter.
    pub pc: usize,
}

impl View for Coroutine {
    type V = CoroutineModel;

    open spec fn view(&self) -> CoroutineModel {
        CoroutineModel {
            id: self.id.0,
            priority: self.priority,
            state: self.state,
            depends_on: self.depends_on@,
            dependant: self.dependant,
            mem: self.memory@,
            code: self.program.code@,
            pc: self.program.pc,
        }
    }
}

/// The mathematical shape of the whole scheduler.
#[verifier::ext_equal]
pub struct SchedulerModel {
    /// Every live coroutine, by id.
    pub coroutines: Map<u64, CoroutineModel>,
    /// Every live future, by id.
    pub futures: Map<u64, FutureModel>,
    /// The FIFO ready queue of runnable coroutine ids, oldest first.
    pub ready: Seq<u64>,
    /// The last coroutine id handed out; ids start at one.
    pub next_coroutine_id: u64,
    /// The last future id handed out; ids start at one.
    pub next_future_id: u64,
}

/// The scheduler: a table of coroutines, a table of futures, a FIFO ready
/// queue and two monotonically increasing id counters.
pub struct Scheduler {
    coroutines: HashMap<u64, Coroutine>,
    futures: HashMap<u64, Future>,
    ready: VecDeque<u64>,
    next_coroutine_id: u64,
    next_future_id: u64,
}

impl View for Scheduler {
    type V = SchedulerModel;

    closed spec fn view(&self) -> SchedulerModel {
        SchedulerModel {
            coroutines: Map::new(
                |k: u64| self.coroutines@.contains_key(k),
                |k: u64| self.coroutines@[k]@,
            ),
            futures: Map::new(
                |k: u64| self.futures@.contains_key(k),
                |k: u64| self.futures@[k]@,
            ),
            ready: self.ready@,
            next_coroutine_id: self.next_coroutine_id,
            next_future_id: self.next_future_id,
        }
    }
}

impl SchedulerModel {
    /// The scheduler's invariant, preserved by every operation.
    ///
    /// The ready queue names runnable coroutines, once each, and every
    /// runnable coroutine is queued; a suspended coroutine awaits exactly one
    /// future, which lists it as a dependant; a future's dependants are
    /// exactly such suspended coroutines; only waiting futures have
    /// dependants; a complete future holds a value; every id was issued by
    /// the matching counter.
    pub open spec fn wf(self) -> bool {
        &&& forall|i: int|
            0 <= i < self.ready.len() ==> self.coroutines.contains_key(#[trigger] self.ready[i])
                && self.coroutines[self.ready[i]].state == CoroutineState::Runnable
        &&& forall|i: int, j: int| 0 <= i < j < self.ready.len() ==> self.ready[i] != self.ready[j]
        &&& forall|id: u64|
            #[trigger] self.coroutines.contains_key(id) ==> {
                let c = self.coroutines[id];
                &&& c.id == id
                &&& 1 <= id <= self.next_coroutine_id
                &&& c.state != CoroutineState::Running
                &&& (c.state == CoroutineState::Runnable ==> self.ready.contains(id))
                &&& (c.state == CoroutineState::Suspended ==> exists|fid: u64|
                    c.depends_on.dom() =~= set![fid])
                &&& (c.state != CoroutineState::Suspended ==> c.depends_on.dom() =~= Set::empty())
                &&& forall|fid: u64|
                    #[trigger] c.depends_on.contains_key(fid) ==> self.futures.contains_key(fid)
                        && self.futures[fid].dependants.contains(id) && self.futures[fid].state
                        == FutureState::Waiting
            }
        &&& forall|fid: u64|
            #[trigger] self.futures.contains_key(fid) ==> {
                let f = self.futures[fid];
                &&& f.id == fid
                &&& 1 <= fid <= self.next_future_id
                &&& (f.state == FutureState::Complete ==> f.value is Some)
                &&& (f.state != FutureState::Waiting ==> f.dependants.len() == 0)
                &&& forall|i: int, j: int|
                    0 <= i < j < f.dependants.len() ==> f.dependants[i] != f.dependants[j]
                &&& forall|i: int|
                    0 <= i < f.dependants.len() ==> {
                        let cid = #[trigger] f.dependants[i];
                        &&& self.coroutines.contains_key(cid)
                        &&& self.coroutines[cid].state == CoroutineState::Suspended
                        &&& self.coroutines[cid].depends_on.dom() =~= set![fid]
                        &&& self.coroutines[cid].depends_on.contains_key(fid)
                    }
            }
    }
}

impl Scheduler {
    /// A fresh scheduler: no coroutines, no futures, nothing ready.
    pub fn new() -> (r: Scheduler)
        ensures
            r@.coroutines =~= Map::empty(),
            r@.futures =~= Map::empty(),
            r@.ready =~= Seq::<u64>::empty(),
            r@.next_coroutine_id == 0,
            r@.next_future_id == 0,
            r@.wf(),
    {
        let s = Scheduler {
            coroutines: HashMap::new(),
            futures: HashMap::new(),
            ready: VecDeque::new(),
            next_coroutine_id: 0,
            next_future_id: 0,
        };
        proof {
            assert(s@.coroutines =~= Map::empty());
            assert(s@.futures =~= Map::empty());
        }
        s
    }

    /// True when both id counters can still issue a fresh id.
    pub fn ids_available(&self) -> (r: bool)
        ensures
            r == (self@.next_coroutine_id < u64::MAX && self@.next_future_id < u64::MAX),
    {
        self.next_coroutine_id < u64::MAX && self.next_future_id < u64::MAX
    }

    /// Spawn a coroutine: allocate its id and a result future's id, give it a
    /// fresh memory holding exactly the argument bytes at address zero, mark
    /// it runnable and enqueue it. Returns the result future's id, the only
    /// handle through which the caller observes the outcome.
    pub fn spawn_coro(&mut self, program: Program, priority: i32, args: Vec<u8>) -> (r: u64)
        requires
            old(self)@.wf(),
            old(self)@.next_coroutine_id < u64::MAX,
            old(self)@.next_future_id < u64::MAX,
        ensures
            final(self)@.wf(),
            ({
                let (m, fid) = spec_spawn(old(self)@, program.code@, program.pc, priority, args@);
                final(self)@ == m && r == fid
            }),
    {
        let ghost m0 = self@;
        let cid: u64 = self.next_coroutine_id + 1;
        let fid: u64 = self.next_future_id + 1;
        self.next_coroutine_id = cid;
        self.next_future_id = fid;

        let mut memory = Memory::with_capacity(args.len());
        memory.extend(args.len());
        let wrote = memory.write_bytes(0, args.as_slice());
        proof {
            assert(wrote is Ok);
            assert(memory@ =~= args@);
        }

        let coroutine = Coroutine {
            id: CoroutineId(cid),
            priority,
            state: CoroutineState::Runnable,
            depends_on: HashMap::new(),
            dependant: Some(fid),
            memory,
            program,
        };
        let future = Future {
            id: fid,
            state: FutureState::Waiting,
            dependants: Vec::new(),
            value: None,
        };
        let ghost cm = coroutine@;
        let ghost fm = future@;
        self.coroutines.insert(cid, coroutine);
        self.futures.insert(fid, future);
        self.ready.push_back(cid);

        proof {
            assert(cm.depends_on =~= Map::empty());
            assert(fm.dependants =~= Seq::empty());
            assert(self@.coroutines =~= m0.coroutines.insert(cid, cm));
            assert(self@.futures =~= m0.futures.insert(fid, fm));
            assert(self@ =~= spec_spawn(m0, cm.code, cm.pc, priority, args@).0);
            lemma_spawn_wf(m0, cm.code, cm.pc, priority, args@);
        }
        fid
    }

    /// Hand a coroutine the driver holds back to the scheduler: it is marked
    /// runnable and joins the back of the ready queue, becoming the most
    /// recently enqueued.
    pub fn yield_coroutine(&mut self, coroutine: Coroutine)
        requires
            old(self)@.wf(),
            !old(self)@.coroutines.contains_key(coroutine@.id),
            1 <= coroutine@.id <= old(self)@.next_coroutine_id,
            coroutine@.depends_on.dom() =~= Set::<u64>::empty(),
        ensures
            final(self)@.wf(),
            final(self)@.coroutines == old(self)@.coroutines.insert(
                coroutine@.id,
                CoroutineModel { state: CoroutineState::Runnable, ..coroutine@ },
            ),
            final(self)@.ready == old(self)@.ready.push(coroutine@.id),
            final(self)@.futures == old(self)@.futures,
            final(self)@.next_coroutine_id == old(self)@.next_coroutine_id,
            final(self)@.next_future_id == old(self)@.next_future_id,
    {
        let ghost m0 = self@;
        let ghost cm = coroutine@;
        let cid = coroutine.id.0;
        let mut c = coroutine;
        c.state = CoroutineState::Runnable;
        self.coroutines.insert(cid, c);
        self.ready.push_back(cid);
        proof {
            let m1 = self@;
            let newc = CoroutineModel { state: CoroutineState::Runnable, ..cm };
            assert(m1.coroutines =~= m0.coroutines.insert(cid, newc));
            assert(m1.ready =~= m0.ready.push(cid));
            assert(m1.futures =~= m0.futures);
            lemma_enqueue_wf(m0, newc);
        }
    }

    /// Pop the least recently enqueued runnable coroutine, hand it to the
    /// driver marked `Running`, and take it out of the table. Returns nothing
    /// when the ready queue is empty.
    pub fn get_next_runnable(&mut self) -> (r: Option<Coroutine>)
        requires
            old(self)@.wf(),
        ensures
            final(self)@.wf(),
            match r {
                None => old(self)@.ready.len() == 0 && final(self)@ == old(self)@,
                Some(c) => {
                    let cid = old(self)@.ready[0];
                    &&& old(self)@.ready.len() > 0
                    &&& c@ == CoroutineModel {
                        state: CoroutineState::Running,
                        ..old(self)@.coroutines[cid]
                    }
                    &&& c@.id == cid
                    &&& final(self)@.coroutines == old(self)@.coroutines.remove(cid)
                    &&& final(self)@.ready == old(self)@.ready.drop_first()
                    &&& final(self)@.futures == old(self)@.futures
                    &&& final(self)@.next_coroutine_id == old(self)@.next_coroutine_id
                    &&& final(self)@.next_future_id == old(self)@.next_future_id
                },
            },
    {
        let ghost m0 = self@;
        match self.ready.pop_front() {
            None => {
                proof {
                    assert(self@ =~= m0);
                }
                None
            },
            Some(cid) => {
                let taken = self.coroutines.remove(&cid);
                let mut c = match taken {
                    Some(c) => c,
                    None => {
                        proof {
                            assert(false);
                        }
                        unreached()
                    },
                };
                c.state = CoroutineState::Running;
                proof {
                    let m1 = self@;
                    assert(m1.coroutines =~= m0.coroutines.remove(cid));
                    assert(m1.ready =~= m0.ready.drop_first());
                    assert(m1.futures =~= m0.futures);
                    lemma_dequeue_wf(m0);
                }
                Some(c)
            },
        }
    }

    /// Await a future: the coroutine suspends on it until it completes. When
    /// the future is already complete, its payload is delivered immediately
    /// and the coroutine stays runnable (the fast path). Awaiting an unknown
    /// future is a `MissingFuture` fault, awaiting a cancelled one a
    /// `Cancelled` fault, and a delivery that would run past the coroutine's
    /// memory an `OutOfBounds` fault; a fault leaves the scheduler unchanged.
    pub fn await_future(&mut self, coro_id: CoroutineId, fid: u64, write_addr: usize) -> (r:
        Result<(), Fault>)
        requires
            old(self)@.wf(),
            old(self)@.coroutines.contains_key(coro_id.0),
            old(self)@.coroutines[coro_id.0].state == CoroutineState::Runnable,
        ensures
            final(self)@.wf(),
            match r {
                Ok(()) => {
                    ||| (old(self)@.futures.contains_key(fid) && old(self)@.futures[fid].state
                        == FutureState::Waiting && final(self)@ == spec_await_suspend(
                        old(self)@,
                        coro_id.0,
                        fid,
                        write_addr,
                    ))
                    ||| (old(self)@.futures.contains_key(fid) && old(self)@.futures[fid].state
                        == FutureState::Complete && spec_in_bounds(
                        old(self)@.coroutines[coro_id.0].mem.len() as int,
                        write_addr as int,
                        old(self)@.futures[fid].value->Some_0.len() as int,
                    ) && final(self)@ == spec_await_fast(old(self)@, coro_id.0, fid, write_addr))
                },
                Err(f) => final(self)@ == old(self)@ && {
                    ||| (f == Fault::MissingFuture && !old(self)@.futures.contains_key(fid))
                    ||| (f == Fault::Cancelled && old(self)@.futures.contains_key(fid) && old(self)@.futures[fid].state == FutureState::Cancelled)
                    ||| (f == Fault::OutOfBounds && old(self)@.futures.contains_key(fid) && old(self)@.futures[fid].state == FutureState::Complete && !spec_in_bounds(
                        old(self)@.coroutines[coro_id.0].mem.len() as int,
                        write_addr as int,
                        old(self)@.futures[fid].value->Some_0.len() as int,
                    ))
                },
            },
    {
        let ghost m0 = self@;
        let cid = coro_id.0;
        let state = match self.futures.get(&fid) {
            None => {
                return Err(Fault::MissingFuture);
            },
            Some(f) => f.state,
        };
        match state {
            FutureState::Cancelled => Err(Fault::Cancelled),
            FutureState::Complete => {
                let mut c = self.coroutines.remove(&cid).unwrap();
                let ghost c0 = c@;
                let fut = self.futures.get(&fid).unwrap();
                let wrote = match &fut.value {
                    Some(data) => c.memory.write_bytes(write_addr, data.as_slice()),
                    None => {
                        proof {
                            assert(m0.futures.contains_key(fid));
                            assert(m0.futures[fid] == fut@);
                            assert(m0.futures[fid].state == FutureState::Complete);
                            assert(m0.futures[fid].value is Some);
                            assert(false);
                        }
                        unreached()
                    },
                };
                self.coroutines.insert(cid, c);
                match wrote {
                    Ok(()) => {
                        proof {
                            assert(self@.coroutines =~= m0.coroutines.insert(
                                cid,
                                CoroutineModel {
                                    mem: spec_write_bytes(
                                        c0.mem,
                                        write_addr as int,
                                        m0.futures[fid].value->Some_0,
                                    ),
                                    ..c0
                                },
                            ));
                            assert(self@.futures =~= m0.futures);
                            assert(self@ =~= spec_await_fast(m0, cid, fid, write_addr));
                            lemma_await_fast_wf(m0, cid, fid, write_addr);
                        }
                        Ok(())
                    },
                    Err(fault) => {
                        proof {
                            assert(self@.coroutines =~= m0.coroutines);
                            assert(self@ =~= m0);
                        }
                        Err(fault)
                    },
                }
            },
            FutureState::Waiting => {
                let idx = find_ready_index(&self.ready, cid);
                self.ready.remove(idx);
                let mut c = self.coroutines.remove(&cid).unwrap();
                let ghost c0 = c@;
                c.state = CoroutineState::Suspended;
                c.depends_on.insert(fid, write_addr);
                self.coroutines.insert(cid, c);
                let mut fut = self.futures.remove(&fid).unwrap();
                let ghost f0 = fut@;
                fut.dependants.push(cid);
                self.futures.insert(fid, fut);
                proof {
                    assert(m0.ready.contains(cid));
                    assert(m0.ready[m0.ready.index_of(cid)] == cid);
                    assert(idx as int == m0.ready.index_of(cid));
                    assert(self@.ready =~= m0.ready.remove(idx as int));
                    assert(self@.coroutines =~= m0.coroutines.insert(
                        cid,
                        CoroutineModel {
                            state: CoroutineState::Suspended,
                            depends_on: c0.depends_on.insert(fid, write_addr),
                            ..c0
                        },
                    ));
                    assert(self@.futures =~= m0.futures.insert(
                        fid,
                        FutureModel { dependants: f0.dependants.push(cid), ..f0 },
                    ));
                    assert(self@ =~= spec_await_suspend(m0, cid, fid, write_addr));
                    lemma_await_suspend_wf(m0, cid, fid, write_addr);
                }
                Ok(())
            },
        }
    }

    /// Complete a waiting future with a byte payload. The payload is written
    /// into every dependant's memory at its declared address, every dependant
    /// becomes runnable and joins the back of the ready queue in await order,
    /// and the future keeps the value for later awaits — all before any
    /// dependant runs again. Completing an unknown future is a
    /// `MissingFuture` fault, completing one twice a `DoubleComplete` fault,
    /// and a delivery past some dependant's memory an `OutOfBounds` fault; a
    /// fault leaves the scheduler unchanged.
    pub fn complete_future(&mut self, fid: u64, value: Vec<u8>) -> (r: Result<(), Fault>)
        requires
            old(self)@.wf(),
        ensures
            final(self)@.wf(),
            match r {
                Ok(()) => old(self)@.futures.contains_key(fid) && old(self)@.futures[fid].state
                    == FutureState::Waiting && spec_can_deliver(old(self)@, fid, value@)
                    && final(self)@ == spec_complete(old(self)@, fid, value@),
                Err(f) => final(self)@ == old(self)@ && {
                    ||| (f == Fault::MissingFuture && !old(self)@.futures.contains_key(fid))
                    ||| (f == Fault::DoubleComplete && old(self)@.futures.contains_key(fid) && old(self)@.futures[fid].state != FutureState::Waiting)
                    ||| (f == Fault::OutOfBounds && old(self)@.futures.contains_key(fid) && old(self)@.futures[fid].state == FutureState::Waiting && !spec_can_deliver(
                        old(self)@,
                        fid,
                        value@,
                    ))
                },
            },
    {
        let ghost m0 = self@;
        let mut fut = match self.futures.remove(&fid) {
            None => {
                proof {
                    assert(self@.futures =~= m0.futures);
                    assert(self@ =~= m0);
                }
                return Err(Fault::MissingFuture);
            },
            Some(f) => f,
        };
        let ghost f0 = fut@;
        match fut.state {
            FutureState::Waiting => {},
            _ => {
                self.futures.insert(fid, fut);
                proof {
                    assert(self@.futures =~= m0.futures);
                    assert(self@ =~= m0);
                }
                return Err(Fault::DoubleComplete);
            },
        }

        // First pass: every delivery must fit, or nothing changes.
        let n = fut.dependants.len();
        let mut i: usize = 0;
        while i < n
            invariant
                m0 == old(self)@,
                m0.wf(),
                m0.futures.contains_key(fid),
                m0.futures[fid] == f0,
                f0.state == FutureState::Waiting,
                fut@ == f0,
                n == f0.dependants.len(),
                i <= n,
                self@.futures == m0.futures.remove(fid),
                self@.coroutines == m0.coroutines,
                self@.ready == m0.ready,
                self@.next_coroutine_id == m0.next_coroutine_id,
                self@.next_future_id == m0.next_future_id,
                forall|j: int|
                    0 <= j < i ==> {
                        let c = m0.coroutines[#[trigger] f0.dependants[j]];
                        spec_in_bounds(
                            c.mem.len() as int,
                            c.depends_on[fid] as int,
                            value@.len() as int,
                        )
                    },
            decreases n - i,
        {
            let cid = fut.dependants[i];
            proof {
                assert(f0.dependants[i as int] == cid);
                assert(m0.coroutines.contains_key(cid));
                assert(m0.coroutines[cid].depends_on.contains_key(fid));
                assert(self@.coroutines.dom().contains(cid));
                assert(self.coroutines@.contains_key(cid));
            }
            let c = self.coroutines.get(&cid).unwrap();
            proof {
                assert(c@ == self@.coroutines[cid]);
                assert(c@ == m0.coroutines[cid]);
            }
            let waddr = *c.depends_on.get(&fid).unwrap();
            if value.len() > c.memory.capacity() || waddr > c.memory.capacity() - value.len() {
                let ghost m_in = self@;
                self.futures.insert(fid, fut);
                proof {
                    assert(self@.futures =~= m_in.futures.insert(fid, f0));
                    assert(self@.futures =~= m0.futures);
                    assert(self@ =~= m0);
                    assert(!spec_in_bounds(
                        m0.coroutines[cid].mem.len() as int,
                        m0.coroutines[cid].depends_on[fid] as int,
                        value@.len() as int,
                    ));
                    assert(!spec_can_deliver(m0, fid, value@));
                }
                return Err(Fault::OutOfBounds);
            }
            i = i + 1;
        }
        proof {
            assert(spec_can_deliver(m0, fid, value@));
        }

        // Second pass: deliver to each dependant and wake it, in await order.
        let ghost deps = f0.dependants;
        let mut i: usize = 0;
        while i < n
            invariant
                m0 == old(self)@,
                m0.wf(),
                m0.futures.contains_key(fid),
                m0.futures[fid] == f0,
                f0.state == FutureState::Waiting,
                fut@ == f0,
                deps == f0.dependants,
                n == deps.len(),
                i <= n,
                spec_can_deliver(m0, fid, value@),
                self@.futures == m0.futures.remove(fid),
                self@.ready == m0.ready + deps.take(i as int),
                self@.coroutines == Map::new(
                    |k: u64| m0.coroutines.contains_key(k),
                    |k: u64|
                        if deps.take(i as int).contains(k) {
                            spec_deliver(m0.coroutines[k], fid, value@)
                        } else {
                            m0.coroutines[k]
                        },
                ),
                self@.next_coroutine_id == m0.next_coroutine_id,
                self@.next_future_id == m0.next_future_id,
            decreases n - i,
        {
            let cid = fut.dependants[i];
            proof {
                assert(deps[i as int] == cid);
                assert(m0.coroutines.contains_key(cid));
                assert(m0.coroutines[cid].depends_on.contains_key(fid));
                assert forall|j: int| 0 <= j < i implies deps[j] != cid by {
                    assert(deps[j] != deps[i as int]);
                }
                assert(!deps.take(i as int).contains(cid));
                assert(self@.coroutines.dom().contains(cid));
                assert(self.coroutines@.contains_key(cid));
                assert(self@.coroutines[cid] == m0.coroutines[cid]);
            }
            let ghost m_in = self@;
            let mut c = self.coroutines.remove(&cid).unwrap();
            let ghost c0 = c@;
            let waddr = match c.depends_on.remove(&fid) {
                Some(w) => w,
                None => {
                    proof {
                        assert(false);
                    }
                    unreached()
                },
            };
            let wrote = c.memory.write_bytes(waddr, value.as_slice());
            proof {
                assert(c0 == m0.coroutines[cid]);
                assert(spec_in_bounds(c0.mem.len() as int, waddr as int, value@.len() as int));
                assert(wrote is Ok);
            }
            c.state = CoroutineState::Runnable;
            self.coroutines.insert(cid, c);
            self.ready.push_back(cid);
            i = i + 1;
            proof {
                let i0 = i as int - 1;
                assert(deps.take(i as int) =~= deps.take(i0).push(cid));
                assert(self@.ready =~= m0.ready + deps.take(i as int));
                assert(c@ == spec_deliver(m0.coroutines[cid], fid, value@));
                assert(self@.coroutines =~= m_in.coroutines.remove(cid).insert(cid, c@));
                assert(self@.coroutines =~= m_in.coroutines.insert(cid, c@));
                assert forall|k: u64| #[trigger] deps.take(i as int).contains(k) implies deps.take(
                    i0,
                ).contains(k) || k == cid by {
                    let j = choose|j: int| 0 <= j < i && deps.take(i as int)[j] == k;
                    if j < i0 {
                        assert(deps.take(i0)[j] == k);
                    }
                }
                assert forall|k: u64| #[trigger] deps.take(i0).contains(k) implies deps.take(
                    i as int,
                ).contains(k) by {
                    let j = choose|j: int| 0 <= j < i0 && #[trigger] deps.take(i0)[j] == k;
                    assert(deps.take(i as int)[j] == k);
                }
                assert forall|k: u64| #[trigger] m0.coroutines.contains_key(k)
                    implies m_in.coroutines.insert(cid, c@)[k] == (if deps.take(
                    i as int,
                ).contains(k) {
                    spec_deliver(m0.coroutines[k], fid, value@)
                } else {
                    m0.coroutines[k]
                }) by {
                    if k == cid {
                        assert(deps.take(i as int)[i0] == cid);
                        assert(deps.take(i as int).contains(k));
                        assert(m_in.coroutines.insert(cid, c@)[k] == c@);
                    } else {
                        assert(m_in.coroutines.insert(cid, c@)[k] == m_in.coroutines[k]);
                        assert(m_in.coroutines[k] == (if deps.take(i0).contains(k) {
                            spec_deliver(m0.coroutines[k], fid, value@)
                        } else {
                            m0.coroutines[k]
                        }));
                    }
                }
                assert(self@.coroutines =~= Map::new(
                    |k: u64| m0.coroutines.contains_key(k),
                    |k: u64|
                        if deps.take(i as int).contains(k) {
                            spec_deliver(m0.coroutines[k], fid, value@)
                        } else {
                            m0.coroutines[k]
                        },
                ));
            }
        }

        let ghost m_in = self@;
        let ghost newf = FutureModel {
            id: fid,
            state: FutureState::Complete,
            dependants: Seq::<u64>::empty(),
            value: Some(value@),
        };
        fut.state = FutureState::Complete;
        fut.value = Some(value);
        fut.dependants = Vec::new();
        proof {
            assert(f0.id == fid);
            assert(fut@ =~= newf);
        }
        self.futures.insert(fid, fut);
        proof {
            assert(deps.take(n as int) =~= deps);
            assert(self@.futures =~= m_in.futures.insert(fid, newf));
            assert(self@.futures =~= m0.futures.insert(fid, newf));
            assert(self@ =~= spec_complete(m0, fid, value@));
            lemma_complete_wf(m0, fid, value@);
        }
        Ok(())
    }

    /// Cancel a waiting future: it will never hold a value. Every dependant
    /// is terminated as `Cancelled` — a cancelled coroutine never runs again
    /// and never completes its own result future. Cancelling an unknown
    /// future is a `MissingFuture` fault and cancelling one that is no longer
    /// waiting a `DoubleComplete` fault; a fault leaves the scheduler
    /// unchanged.
    pub fn cancel_future(&mut self, fid: u64) -> (r: Result<(), Fault>)
        requires
            old(self)@.wf(),
        ensures
            final(self)@.wf(),
            match r {
                Ok(()) => old(self)@.futures.contains_key(fid) && old(self)@.futures[fid].state
                    == FutureState::Waiting && final(self)@ == spec_cancel(old(self)@, fid),
                Err(f) => final(self)@ == old(self)@ && {
                    ||| (f == Fault::MissingFuture && !old(self)@.futures.contains_key(fid))
                    ||| (f == Fault::DoubleComplete && old(self)@.futures.contains_key(fid) && old(self)@.futures[fid].state != FutureState::Waiting)
                },
            },
    {
        let ghost m0 = self@;
        let mut fut = match self.futures.remove(&fid) {
            None => {
                proof {
                    assert(self@.futures =~= m0.futures);
                    assert(self@ =~= m0);
                }
                return Err(Fault::MissingFuture);
            },
            Some(f) => f,
        };
        let ghost f0 = fut@;
        match fut.state {
            FutureState::Waiting => {},
            _ => {
                self.futures.insert(fid, fut);
                proof {
                    assert(self@.futures =~= m0.futures);
                    assert(self@ =~= m0);
                }
                return Err(Fault::DoubleComplete);
            },
        }

        let ghost deps = f0.dependants;
        let n = fut.dependants.len();
        let mut i: usize = 0;
        while i < n
            invariant
                m0 == old(self)@,
                m0.wf(),
                m0.futures.contains_key(fid),
                m0.futures[fid] == f0,
                f0.state == FutureState::Waiting,
                fut@ == f0,
                deps == f0.dependants,
                n == deps.len(),
                i <= n,
                self@.futures == m0.futures.remove(fid),
                self@.ready == m0.ready,
                self@.coroutines == Map::new(
                    |k: u64| m0.coroutines.contains_key(k),
                    |k: u64|
                        if deps.take(i as int).contains(k) {
                            spec_cancel_coroutine(m0.coroutines[k], fid)
                        } else {
                            m0.coroutines[k]
                        },
                ),
                self@.next_coroutine_id == m0.next_coroutine_id,
                self@.next_future_id == m0.next_future_id,
            decreases n - i,
        {
            let cid = fut.dependants[i];
            proof {
                assert(deps[i as int] == cid);
                assert(m0.coroutines.contains_key(cid));
                assert(m0.coroutines[cid].depends_on.contains_key(fid));
                assert forall|j: int| 0 <= j < i implies deps[j] != cid by {
                    assert(deps[j] != deps[i as int]);
                }
                assert(!deps.take(i as int).contains(cid));
                assert(self@.coroutines.dom().contains(cid));
                assert(self.coroutines@.contains_key(cid));
                assert(self@.coroutines[cid] == m0.coroutines[cid]);
            }
            let ghost m_in = self@;
            let mut c = self.coroutines.remove(&cid).unwrap();
            c.depends_on.remove(&fid);
            c.state = CoroutineState::Cancelled;
            self.coroutines.insert(cid, c);
            i = i + 1;
            proof {
                let i0 = i as int - 1;
                assert(deps.take(i as int) =~= deps.take(i0).push(cid));
                assert(c@ == spec_cancel_coroutine(m0.coroutines[cid], fid));
                assert(self@.coroutines =~= m_in.coroutines.remove(cid).insert(cid, c@));
                assert(self@.coroutines =~= m_in.coroutines.insert(cid, c@));
                assert forall|k: u64| #[trigger] deps.take(i as int).contains(k) implies deps.take(
                    i0,
                ).contains(k) || k == cid by {
                    let j = choose|j: int| 0 <= j < i && deps.take(i as int)[j] == k;
                    if j < i0 {
                        assert(deps.take(i0)[j] == k);
                    }
                }
                assert forall|k: u64| #[trigger] deps.take(i0).contains(k) implies deps.take(
                    i as int,
                ).contains(k) by {
                    let j = choose|j: int| 0 <= j < i0 && #[trigger] deps.take(i0)[j] == k;
                    assert(deps.take(i as int)[j] == k);
                }
                assert forall|k: u64| #[trigger] m0.coroutines.contains_key(k)
                    implies m_in.coroutines.insert(cid, c@)[k] == (if deps.take(
                    i as int,
                ).contains(k) {
                    spec_cancel_coroutine(m0.coroutines[k], fid)
                } else {
                    m0.coroutines[k]
                }) by {
                    if k == cid {
                        assert(deps.take(i as int)[i0] == cid);
                        assert(deps.take(i as int).contains(k));
                        assert(m_in.coroutines.insert(cid, c@)[k] == c@);
                    } else {
                        assert(m_in.coroutines.insert(cid, c@)[k] == m_in.coroutines[k]);
                        assert(m_in.coroutines[k] == (if deps.take(i0).contains(k) {
                            spec_cancel_coroutine(m0.coroutines[k], fid)
                        } else {
                            m0.coroutines[k]
                        }));
                    }
                }
                assert(self@.coroutines =~= Map::new(
                    |k: u64| m0.coroutines.contains_key(k),
                    |k: u64|
                        if deps.take(i as int).contains(k) {
                            spec_cancel_coroutine(m0.coroutines[k], fid)
                        } else {
                            m0.coroutines[k]
                        },
                ));
            }
        }

        let ghost m_in = self@;
        let ghost newf = FutureModel {
            id: fid,
            state: FutureState::Cancelled,
            dependants: Seq::<u64>::empty(),
            value: f0.value,
        };
        fut.state = FutureState::Cancelled;
        fut.dependants = Vec::new();
        proof {
            assert(f0.id == fid);
            assert(fut@ =~= newf);
        }
        self.futures.insert(fid, fut);
        proof {
            assert(deps.take(n as int) =~= deps);
            assert(self@.futures =~= m_in.futures.insert(fid, newf));
            assert(self@.futures =~= m0.futures.insert(fid, newf));
            assert(self@ =~= spec_cancel(m0, fid));
            lemma_cancel_wf(m0, fid);
        }
        Ok(())
    }

    /// Drop a future from the table. A future that coroutines still await is
    /// kept — deleting it would strand them — and so is an id that is not in
    /// the table; the call then returns `false`.
    pub fn delete_future(&mut self, fid: u64) -> (r: bool)
        requires
            old(self)@.wf(),
        ensures
            final(self)@.wf(),
            r == (old(self)@.futures.contains_key(fid) && old(self)@.futures[fid].dependants.len()
                == 0),
            r ==> final(self)@ == (SchedulerModel {
                futures: old(self)@.futures.remove(fid),
                ..old(self)@
            }),
            !r ==> final(self)@ == old(self)@,
    {
        let ghost m0 = self@;
        let can_delete = match self.futures.get(&fid) {
            None => false,
            Some(f) => f.dependants.len() == 0,
        };
        if !can_delete {
            return false;
        }
        self.futures.remove(&fid);
        proof {
            assert(self@.futures =~= m0.futures.remove(fid));
            assert(self@ =~= (SchedulerModel { futures: m0.futures.remove(fid), ..m0 }));
            lemma_delete_wf(m0, fid);
        }
        true
    }

    /// Bootstrap and drive a whole program: spawn a root coroutine with empty
    /// arguments and run until it returns, within a budget of interpreter
    /// cycles. A drained ready queue before the root returns means nothing
    /// inside the scheduler can make progress: with no external completion
    /// source that is a deadlock, reported as a fault rather than a hang.
    pub fn run(&mut self, program: Program, fuel: u64) -> (r: Result<RunOutcome, Fault>)
        requires
            old(self)@.wf(),
            old(self)@.next_coroutine_id < u64::MAX,
            old(self)@.next_future_id < u64::MAX,
        ensures
            final(self)@.wf(),
            ({
                let root = (old(self)@.next_coroutine_id + 1) as u64;
                let spawned = spec_spawn(old(self)@, program.code@, program.pc, 0, Seq::empty());
                let meaning = spec_resume(spawned.0, None, root, fuel as nat);
                match r {
                    Ok(RunOutcome::Done(payload)) => meaning == RunModel::Done(
                        final(self)@,
                        payload@,
                    ) && final(self)@.coroutines.contains_key(root)
                        && final(self)@.coroutines[root].state == CoroutineState::Finished,
                    Ok(RunOutcome::OutOfFuel) => meaning == RunModel::OutOfFuel(final(self)@),
                    Ok(RunOutcome::Blocked) => false,
                    Err(f) => meaning == RunModel::Faulted(f) || (f == Fault::Deadlock && meaning
                        == RunModel::Blocked(final(self)@)),
                }
            }),
    {
        let root = CoroutineId(self.next_coroutine_id + 1);
        let ghost m0 = self@;
        let empty_args: Vec<u8> = Vec::new();
        proof {
            assert(empty_args@ =~= Seq::<u8>::empty());
        }
        self.spawn_coro(program, 0, empty_args);
        proof {
            assert(self@ == spec_spawn(m0, program.code@, program.pc, 0, Seq::empty()).0);
        }
        match self.resume(root, fuel) {
            Ok(RunOutcome::Blocked) => Err(Fault::Deadlock),
            outcome => outcome,
        }
    }

    /// Finish a coroutine the driver holds: its result future is completed
    /// with the returned bytes, waking everything that awaits it, and the
    /// coroutine itself is dropped, releasing its memory. The faults are
    /// those of [`Scheduler::complete_future`].
    pub fn finish_coroutine(&mut self, coroutine: Coroutine, result: Vec<u8>) -> (r: Result<
        (),
        Fault,
    >)
        requires
            old(self)@.wf(),
            !old(self)@.coroutines.contains_key(coroutine@.id),
            coroutine@.dependant is Some,
        ensures
            final(self)@.wf(),
            ({
                let fid = coroutine@.dependant->Some_0;
                match r {
                    Ok(()) => old(self)@.futures.contains_key(fid) && old(self)@.futures[fid].state
                        == FutureState::Waiting && spec_can_deliver(old(self)@, fid, result@)
                        && final(self)@ == spec_complete(old(self)@, fid, result@),
                    Err(f) => final(self)@ == old(self)@ && {
                        ||| (f == Fault::MissingFuture && !old(self)@.futures.contains_key(fid))
                        ||| (f == Fault::DoubleComplete && old(self)@.futures.contains_key(fid)
                            && old(self)@.futures[fid].state != FutureState::Waiting)
                        ||| (f == Fault::OutOfBounds && old(self)@.futures.contains_key(fid) && old(self)@.futures[fid].state == FutureState::Waiting && !spec_can_deliver(
                            old(self)@,
                            fid,
                            result@,
                        ))
                    },
                }
            }),
    {
        let fid = match coroutine.dependant {
            Some(fid) => fid,
            None => {
                proof {
                    assert(false);
                }
                unreached()
            },
        };
        self.complete_future(fid, result)
    }

    /// Drive the scheduler until the coroutine named `root` returns, the
    /// ready queue drains, or the budget of interpreter cycles runs out.
    ///
    /// `Done` carries the root's return payload; the root coroutine is
    /// retained, `Finished`, so its final memory can be inspected. `Blocked`
    /// means nothing is runnable: whatever remains suspended waits on
    /// completions that only an outside source can provide, so the caller
    /// should complete or cancel futures and resume again, or give up.
    /// `OutOfFuel` means the budget ran out first; the running coroutine
    /// rejoins the back of the ready queue, and resuming again continues the
    /// run. Any fault ends the run and is returned.
    /// Dispatch an await interrupt raised by the held coroutine: step it past
    /// the consumed instruction, requeue it and suspend it on the future (or
    /// deliver at once from a complete one).
    #[verifier::spinoff_prover]
    fn handle_await(&mut self, coroutine: Coroutine, fid: u64, write_addr: usize, root: CoroutineId) -> (r:
        Result<(), Fault>)
        requires
            old(self)@.wf(),
            !old(self)@.coroutines.contains_key(coroutine@.id),
            1 <= coroutine@.id <= old(self)@.next_coroutine_id,
            coroutine@.depends_on.dom() =~= Set::<u64>::empty(),
            coroutine@.pc < coroutine@.code.len(),
        ensures
            final(self)@.wf(),
            match r {
                Ok(()) => spec_dispatch(
                    old(self)@,
                    coroutine@,
                    Interrupt::Await(fid, write_addr),
                    root.0,
                ) == Ok::<(SchedulerModel, Option<CoroutineModel>, Option<Seq<u8>>), Fault>(
                    (final(self)@, None, None),
                ),
                Err(f) => spec_dispatch(
                    old(self)@,
                    coroutine@,
                    Interrupt::Await(fid, write_addr),
                    root.0,
                ) == Err::<(SchedulerModel, Option<CoroutineModel>, Option<Seq<u8>>), Fault>(f),
            },
    {
        let ghost m1 = self@;
        let ghost c1 = coroutine@;
        let mut c = coroutine;
        // the await is consumed: step past it before suspending
        let n = c.program.len();
        proof {
            assert(c.program.pc < n);
        }
        c.program.pc = c.program.pc + 1;
        let ghost c2 = CoroutineModel { pc: (c1.pc + 1) as usize, ..c1 };
        proof {
            assert(c@ == c2);
        }
        let cid = c.id;
        self.yield_coroutine(c);
        proof {
            assert(self@ =~= spec_enqueue(m1, c2));
        }
        self.await_future(cid, fid, write_addr)
    }

    /// Dispatch a fork interrupt raised by the held coroutine: read the
    /// argument bytes, spawn the child on the shared code at the requested
    /// entry, write the child's result future id back, and step the parent
    /// past the consumed instruction. The parent keeps running.
    #[verifier::spinoff_prover]
    fn handle_create(
        &mut self,
        coroutine: Coroutine,
        entry: usize,
        arg_addr: usize,
        arg_len: usize,
        out_addr: usize,
        root: CoroutineId,
    ) -> (r: Result<Coroutine, Fault>)
        requires
            old(self)@.wf(),
            !old(self)@.coroutines.contains_key(coroutine@.id),
            1 <= coroutine@.id <= old(self)@.next_coroutine_id,
            coroutine@.depends_on.dom() =~= Set::<u64>::empty(),
            coroutine@.pc < coroutine@.code.len(),
        ensures
            final(self)@.wf(),
            match r {
                Ok(c2) => spec_dispatch(
                    old(self)@,
                    coroutine@,
                    Interrupt::CreateCoroutine(entry, arg_addr, arg_len, out_addr),
                    root.0,
                ) == Ok::<(SchedulerModel, Option<CoroutineModel>, Option<Seq<u8>>), Fault>(
                    (final(self)@, Some(c2@), None),
                ) && !final(self)@.coroutines.contains_key(c2@.id) && 1 <= c2@.id
                    && c2@.id <= final(self)@.next_coroutine_id && c2@.depends_on.dom()
                    =~= Set::<u64>::empty(),
                Err(f) => spec_dispatch(
                    old(self)@,
                    coroutine@,
                    Interrupt::CreateCoroutine(entry, arg_addr, arg_len, out_addr),
                    root.0,
                ) == Err::<(SchedulerModel, Option<CoroutineModel>, Option<Seq<u8>>), Fault>(f),
            },
    {
        let ghost m1 = self@;
        let ghost c1 = coroutine@;
        let mut c = coroutine;
        let args = match c.memory.read_bytes(arg_addr, arg_len) {
            Ok(args) => args,
            Err(fault) => {
                return Err(fault);
            },
        };
        if !self.ids_available() {
            return Err(Fault::OutOfBounds);
        }
        let ghost spawned = spec_spawn(m1, c1.code, entry, c1.priority, args@);
        let child = c.program.fork(entry);
        let fid = self.spawn_coro(child, c.priority, args);
        proof {
            assert(self@ == spawned.0);
            assert(fid == spawned.1);
        }
        match c.memory.write_uint(out_addr, fid) {
            Ok(()) => {},
            Err(fault) => {
                return Err(fault);
            },
        }
        let n = c.program.len();
        proof {
            assert(c.program.pc < n);
        }
        c.program.pc = c.program.pc + 1;
        proof {
            let c2 = CoroutineModel {
                mem: spec_write_bytes(
                    c1.mem,
                    out_addr as int,
                    crate::codec::spec_u64_bytes(spawned.1),
                ),
                pc: (c1.pc + 1) as usize,
                ..c1
            };
            assert(c@ == c2);
            assert(!spawned.0.coroutines.contains_key(c2.id));
        }
        Ok(c)
    }

    #[verifier::rlimit(100)]
    #[verifier::spinoff_prover]
    pub fn resume(&mut self, root: CoroutineId, fuel: u64) -> (r: Result<RunOutcome, Fault>)
        requires
            old(self)@.wf(),
        ensures
            final(self)@.wf(),
            spec_resume(old(self)@, None, root.0, fuel as nat) == (match r {
                Ok(RunOutcome::Done(payload)) => RunModel::Done(final(self)@, payload@),
                Ok(RunOutcome::Blocked) => RunModel::Blocked(final(self)@),
                Ok(RunOutcome::OutOfFuel) => RunModel::OutOfFuel(final(self)@),
                Err(f) => RunModel::Faulted(f),
            }),
            match r {
                Ok(RunOutcome::Blocked) => final(self)@.ready.len() == 0,
                Ok(RunOutcome::Done(_)) => final(self)@.coroutines.contains_key(root.0) && final(self)@.coroutines[root.0].state == CoroutineState::Finished,
                _ => true,
            },
    {
        let ghost m0 = self@;
        let mut remaining = fuel;
        let mut current: Option<Coroutine> = None;
        loop
            invariant
                m0 == old(self)@,
                self@.wf(),
                spec_resume(m0, None, root.0, fuel as nat) == spec_resume(
                    self@,
                    match current {
                        Some(c) => Some(c@),
                        None => None::<CoroutineModel>,
                    },
                    root.0,
                    remaining as nat,
                ),
                match current {
                    None => true,
                    Some(c) => !self@.coroutines.contains_key(c@.id) && 1 <= c@.id
                        && c@.id <= self@.next_coroutine_id && c@.depends_on.dom()
                        =~= Set::<u64>::empty(),
                },
            decreases remaining,
        {
            let ghost m_iter = self@;
            let mut c: Coroutine = match current {
                Some(held) => held,
                None => {
                    match self.get_next_runnable() {
                        Some(popped) => {
                            proof {
                                lemma_resume_pick(m_iter, root.0, remaining as nat);
                                assert(self@ =~= (SchedulerModel {
                                    coroutines: m_iter.coroutines.remove(m_iter.ready[0]),
                                    ready: m_iter.ready.drop_first(),
                                    ..m_iter
                                }));
                                assert(popped@ =~= (CoroutineModel {
                                    state: CoroutineState::Running,
                                    ..m_iter.coroutines[m_iter.ready[0]]
                                }));
                            }
                            popped
                        },
                        None => {
                            proof {
                                assert(spec_resume(m_iter, None, root.0, remaining as nat)
                                    == RunModel::Blocked(m_iter));
                            }
                            return Ok(RunOutcome::Blocked);
                        },
                    }
                },
            };
            current = None;
            let ghost m1 = self@;
            let ghost cm = c@;
            proof {
                assert(spec_resume(m0, None, root.0, fuel as nat) == spec_resume(
                    m1,
                    Some(cm),
                    root.0,
                    remaining as nat,
                ));
            }
            if remaining == 0 {
                self.yield_coroutine(c);
                proof {
                    assert(self@ =~= spec_enqueue(m1, cm));
                    assert(spec_resume(m1, Some(cm), root.0, 0) == RunModel::OutOfFuel(
                        spec_enqueue(m1, cm),
                    ));
                }
                return Ok(RunOutcome::OutOfFuel);
            }
            let ghost rem0 = remaining as nat;
            remaining = remaining - 1;

            let interrupt = match cycle(&mut c.memory, &mut c.program) {
                Ok(interrupt) => interrupt,
                Err(fault) => {
                    proof {
                        assert(spec_cycle(cm) == Err::<(CoroutineModel, Interrupt), Fault>(
                            fault,
                        ));
                        lemma_resume_unfold(m1, cm, root.0, rem0);
                    }
                    return Err(fault);
                },
            };
            let ghost c1 = c@;
            proof {
                if cm.pc < cm.code.len() {
                    lemma_step_no_eof(cm.mem, cm.code[cm.pc as int], cm.pc as int);
                }
                assert(spec_cycle(cm) == Ok::<(CoroutineModel, Interrupt), Fault>(
                    (c1, interrupt),
                ));
                lemma_resume_unfold(m1, cm, root.0, rem0);
            }
            match interrupt {
                Interrupt::Continue => {
                    proof {
                        assert(spec_dispatch(m1, c1, interrupt, root.0) == Ok::<
                            (SchedulerModel, Option<CoroutineModel>, Option<Seq<u8>>),
                            Fault,
                        >((m1, Some(c1), None)));
                    }
                    current = Some(c);
                },
                Interrupt::Await(fid, write_addr) => {
                    proof {
                        assert(c1.pc < c1.code.len());
                    }
                    match self.handle_await(c, fid, write_addr, root) {
                        Ok(()) => {},
                        Err(fault) => {
                            return Err(fault);
                        },
                    }
                },
                Interrupt::CreateCoroutine(entry, arg_addr, arg_len, out_addr) => {
                    proof {
                        assert(c1.pc < c1.code.len());
                    }
                    match self.handle_create(c, entry, arg_addr, arg_len, out_addr, root) {
                        Ok(kept) => {
                            current = Some(kept);
                        },
                        Err(fault) => {
                            return Err(fault);
                        },
                    }
                },
                Interrupt::Ret(addr, len) => {
                    match self.settle(c, addr, len, root) {
                        Ok(Some(payload)) => {
                            proof {
                                assert(spec_dispatch(m1, c1, interrupt, root.0) == Ok::<
                                    (SchedulerModel, Option<CoroutineModel>, Option<Seq<u8>>),
                                    Fault,
                                >((self@, None, Some(payload@))));
                            }
                            return Ok(RunOutcome::Done(payload));
                        },
                        Ok(None) => {
                            proof {
                                assert(spec_dispatch(m1, c1, interrupt, root.0) == Ok::<
                                    (SchedulerModel, Option<CoroutineModel>, Option<Seq<u8>>),
                                    Fault,
                                >((self@, None, None)));
                            }
                        },
                        Err(fault) => {
                            proof {
                                assert(spec_dispatch(m1, c1, interrupt, root.0) == Err::<
                                    (SchedulerModel, Option<CoroutineModel>, Option<Seq<u8>>),
                                    Fault,
                                >(fault));
                            }
                            return Err(fault);
                        },
                    }
                },
                Interrupt::Eof => {
                    match self.settle(c, 0, 0, root) {
                        Ok(Some(payload)) => {
                            proof {
                                assert(spec_dispatch(m1, c1, interrupt, root.0) == Ok::<
                                    (SchedulerModel, Option<CoroutineModel>, Option<Seq<u8>>),
                                    Fault,
                                >((self@, None, Some(payload@))));
                            }
                            return Ok(RunOutcome::Done(payload));
                        },
                        Ok(None) => {
                            proof {
                                assert(spec_dispatch(m1, c1, interrupt, root.0) == Ok::<
                                    (SchedulerModel, Option<CoroutineModel>, Option<Seq<u8>>),
                                    Fault,
                                >((self@, None, None)));
                            }
                        },
                        Err(fault) => {
                            proof {
                                assert(spec_dispatch(m1, c1, interrupt, root.0) == Err::<
                                    (SchedulerModel, Option<CoroutineModel>, Option<Seq<u8>>),
                                    Fault,
                                >(fault));
                            }
                            return Err(fault);
                        },
                    }
                },
                Interrupt::DeleteFuture(fid) => {
                    self.delete_future(fid);
                    proof {
                        assert(spec_dispatch(m1, c1, interrupt, root.0) == Ok::<
                            (SchedulerModel, Option<CoroutineModel>, Option<Seq<u8>>),
                            Fault,
                        >((self@, Some(c1), None)));
                    }
                    current = Some(c);
                },
            }
        }
    }

    /// Handle a returning coroutine: read its payload at `[addr, addr+len)`,
    /// complete its result future, and either retain it finished (the root,
    /// whose payload is handed back) or drop it.
    fn settle(&mut self, coroutine: Coroutine, addr: usize, len: usize, root: CoroutineId) -> (r:
        Result<Option<Vec<u8>>, Fault>)
        requires
            old(self)@.wf(),
            !old(self)@.coroutines.contains_key(coroutine@.id),
            1 <= coroutine@.id <= old(self)@.next_coroutine_id,
            coroutine@.depends_on.dom() =~= Set::<u64>::empty(),
        ensures
            final(self)@.wf(),
            match r {
                Ok(Some(payload)) => coroutine@.id == root.0 && spec_settle(
                    old(self)@,
                    coroutine@,
                    addr,
                    len,
                    root.0,
                ) == Ok::<(SchedulerModel, Option<Seq<u8>>), Fault>(
                    (final(self)@, Some(payload@)),
                ) && final(self)@.coroutines.contains_key(root.0)
                    && final(self)@.coroutines[root.0].state == CoroutineState::Finished,
                Ok(None) => coroutine@.id != root.0 && spec_settle(
                    old(self)@,
                    coroutine@,
                    addr,
                    len,
                    root.0,
                ) == Ok::<(SchedulerModel, Option<Seq<u8>>), Fault>((final(self)@, None)),
                Err(f) => spec_settle(old(self)@, coroutine@, addr, len, root.0) == Err::<
                    (SchedulerModel, Option<Seq<u8>>),
                    Fault,
                >(f),
            },
    {
        let mut c = coroutine;
        let payload = match c.memory.read_bytes(addr, len) {
            Ok(payload) => payload,
            Err(fault) => {
                return Err(fault);
            },
        };
        if c.id.0 == root.0 {
            // complete the root's result future when it is still waiting
            let complete_it = match c.dependant {
                Some(fid) => match self.futures.get(&fid) {
                    Some(f) => matches!(f.state, FutureState::Waiting),
                    None => false,
                },
                None => false,
            };
            if complete_it {
                let fid = match c.dependant {
                    Some(fid) => fid,
                    None => {
                        proof {
                            assert(false);
                        }
                        unreached()
                    },
                };
                let again = match c.memory.read_bytes(addr, len) {
                    Ok(again) => again,
                    Err(fault) => {
                        return Err(fault);
                    },
                };
                match self.complete_future(fid, again) {
                    Ok(()) => {},
                    Err(fault) => {
                        return Err(fault);
                    },
                }
            }
            self.insert_finished(c);
            Ok(Some(payload))
        } else {
            match c.dependant {
                Some(fid) => match self.complete_future(fid, payload) {
                    Ok(()) => Ok(None),
                    Err(fault) => Err(fault),
                },
                None => Ok(None),
            }
        }
    }

    /// The memory of a coroutine still in the table, for inspection.
    pub fn inspect_memory(&self, coro_id: CoroutineId) -> (r: Option<&Memory>)
        ensures
            match r {
                Some(mem) => self@.coroutines.contains_key(coro_id.0) && mem@
                    == self@.coroutines[coro_id.0].mem,
                None => !self@.coroutines.contains_key(coro_id.0),
            },
    {
        match self.coroutines.get(&coro_id.0) {
            Some(c) => Some(&c.memory),
            None => None,
        }
    }

    /// Put a coroutine the driver holds back into the table as `Finished`,
    /// retaining it so its final memory can be inspected.
    fn insert_finished(&mut self, coroutine: Coroutine)
        requires
            old(self)@.wf(),
            !old(self)@.coroutines.contains_key(coroutine@.id),
            1 <= coroutine@.id <= old(self)@.next_coroutine_id,
            coroutine@.depends_on.dom() =~= Set::<u64>::empty(),
        ensures
            final(self)@.wf(),
            final(self)@.coroutines == old(self)@.coroutines.insert(
                coroutine@.id,
                CoroutineModel { state: CoroutineState::Finished, ..coroutine@ },
            ),
            final(self)@.futures == old(self)@.futures,
            final(self)@.ready == old(self)@.ready,
            final(self)@.next_coroutine_id == old(self)@.next_coroutine_id,
            final(self)@.next_future_id == old(self)@.next_future_id,
    {
        let ghost m0 = self@;
        let ghost cm = coroutine@;
        let cid = coroutine.id.0;
        let mut c = coroutine;
        c.state = CoroutineState::Finished;
        self.coroutines.insert(cid, c);
        proof {
            let newc = CoroutineModel { state: CoroutineState::Finished, ..cm };
            assert(self@.coroutines =~= m0.coroutines.insert(cid, newc));
            assert(self@.futures =~= m0.futures);
            lemma_insert_finished_wf(m0, newc);
        }
    }
}

/// Removing a future that nothing awaits preserves the invariant.
proof fn lemma_delete_wf(m: SchedulerModel, fid: u64)
    requires
        m.wf(),
        m.futures.contains_key(fid),
        m.futures[fid].dependants.len() == 0,
    ensures
        (SchedulerModel { futures: m.futures.remove(fid), ..m }).wf(),
{
    let m1 = SchedulerModel { futures: m.futures.remove(fid), ..m };
    assert forall|id: u64| #[trigger] m1.coroutines.contains_key(id) implies {
        let c = m1.coroutines[id];
        forall|fid2: u64|
            #[trigger] c.depends_on.contains_key(fid2) ==> m1.futures.contains_key(fid2)
                && m1.futures[fid2].dependants.contains(id) && m1.futures[fid2].state
                == FutureState::Waiting
    } by {
        let c = m1.coroutines[id];
        assert forall|fid2: u64| #[trigger] c.depends_on.contains_key(fid2)
            implies m1.futures.contains_key(fid2) && m1.futures[fid2].dependants.contains(id)
            && m1.futures[fid2].state == FutureState::Waiting by {
            assert(m.coroutines.contains_key(id));
            assert(m.futures.contains_key(fid2));
            assert(m.futures[fid2].dependants.contains(id));
            assert(fid2 != fid);
        }
    }
    assert forall|fid2: u64| #[trigger] m1.futures.contains_key(fid2) implies {
        let f = m1.futures[fid2];
        forall|i: int|
            0 <= i < f.dependants.len() ==> {
                let did = #[trigger] f.dependants[i];
                &&& m1.coroutines.contains_key(did)
                &&& m1.coroutines[did].state == CoroutineState::Suspended
                &&& m1.coroutines[did].depends_on.dom() =~= set![fid2]
                &&& m1.coroutines[did].depends_on.contains_key(fid2)
            }
    } by {
        assert(m.futures.contains_key(fid2));
        assert(m1.futures[fid2] == m.futures[fid2]);
    }
}

/// Retaining a finished coroutine preserves the invariant.
proof fn lemma_insert_finished_wf(m: SchedulerModel, c: CoroutineModel)
    requires
        m.wf(),
        !m.coroutines.contains_key(c.id),
        1 <= c.id <= m.next_coroutine_id,
        c.state == CoroutineState::Finished,
        c.depends_on.dom() =~= Set::<u64>::empty(),
    ensures
        (SchedulerModel { coroutines: m.coroutines.insert(c.id, c), ..m }).wf(),
{
    let m1 = SchedulerModel { coroutines: m.coroutines.insert(c.id, c), ..m };
    assert forall|i: int| 0 <= i < m1.ready.len() implies m1.coroutines.contains_key(
        #[trigger] m1.ready[i],
    ) && m1.coroutines[m1.ready[i]].state == CoroutineState::Runnable by {
        assert(m.coroutines.contains_key(m.ready[i]));
    }
    assert forall|id: u64| #[trigger] m1.coroutines.contains_key(id) implies {
        let cc = m1.coroutines[id];
        &&& (cc.state == CoroutineState::Runnable ==> m1.ready.contains(id))
        &&& forall|fid: u64|
            #[trigger] cc.depends_on.contains_key(fid) ==> m1.futures.contains_key(fid)
                && m1.futures[fid].dependants.contains(id) && m1.futures[fid].state
                == FutureState::Waiting
    } by {
        let cc = m1.coroutines[id];
        if id == c.id {
            assert forall|fid: u64| #[trigger] cc.depends_on.contains_key(fid)
                implies m1.futures.contains_key(fid) && m1.futures[fid].dependants.contains(id)
                && m1.futures[fid].state == FutureState::Waiting by {
                assert(cc.depends_on.dom().contains(fid));
                assert(false);
            }
        } else {
            assert(m.coroutines.contains_key(id));
        }
    }
    assert forall|fid: u64| #[trigger] m1.futures.contains_key(fid) implies {
        let f = m1.futures[fid];
        forall|i: int|
            0 <= i < f.dependants.len() ==> {
                let did = #[trigger] f.dependants[i];
                &&& m1.coroutines.contains_key(did)
                &&& m1.coroutines[did].state == CoroutineState::Suspended
                &&& m1.coroutines[did].depends_on.dom() =~= set![fid]
                &&& m1.coroutines[did].depends_on.contains_key(fid)
            }
    } by {
        let f = m1.futures[fid];
        assert forall|i: int| 0 <= i < f.dependants.len() implies {
            let did = #[trigger] f.dependants[i];
            &&& m1.coroutines.contains_key(did)
            &&& m1.coroutines[did].state == CoroutineState::Suspended
            &&& m1.coroutines[did].depends_on.dom() =~= set![fid]
            &&& m1.coroutines[did].depends_on.contains_key(fid)
        } by {
            assert(m.futures.contains_key(fid));
            let did = f.dependants[i];
            assert(m.coroutines.contains_key(did));
            assert(did != c.id);
        }
    }
}

/// A dependant of a cancelled future: terminated, with nothing pending.
pub open spec fn spec_cancel_coroutine(c: CoroutineModel, fid: u64) -> CoroutineModel
    recommends
        c.depends_on.contains_key(fid),
{
    CoroutineModel {
        state: CoroutineState::Cancelled,
        depends_on: c.depends_on.remove(fid),
        ..c
    }
}

/// The model after cancelling a waiting future: every dependant is
/// terminated, and the future keeps no dependants and never gains a value.
pub open spec fn spec_cancel(m: SchedulerModel, fid: u64) -> SchedulerModel
    recommends
        m.futures.contains_key(fid),
        m.futures[fid].state == FutureState::Waiting,
{
    let deps = m.futures[fid].dependants;
    SchedulerModel {
        coroutines: Map::new(
            |k: u64| m.coroutines.contains_key(k),
            |k: u64|
                if deps.contains(k) {
                    spec_cancel_coroutine(m.coroutines[k], fid)
                } else {
                    m.coroutines[k]
                },
        ),
        futures: m.futures.insert(
            fid,
            FutureModel {
                id: fid,
                state: FutureState::Cancelled,
                dependants: Seq::empty(),
                value: m.futures[fid].value,
            },
        ),
        ..m
    }
}

/// Cancelling a waiting future preserves the invariant.
proof fn lemma_cancel_wf(m: SchedulerModel, fid: u64)
    requires
        m.wf(),
        m.futures.contains_key(fid),
        m.futures[fid].state == FutureState::Waiting,
    ensures
        spec_cancel(m, fid).wf(),
{
    let deps = m.futures[fid].dependants;
    let m1 = spec_cancel(m, fid);

    assert forall|id: u64| m.ready.contains(id) implies !deps.contains(id) by {
        let k = choose|k: int| 0 <= k < m.ready.len() && m.ready[k] == id;
        if deps.contains(id) {
            let j = choose|j: int| 0 <= j < deps.len() && deps[j] == id;
            assert(m.coroutines[id].state == CoroutineState::Suspended);
            assert(m.coroutines[m.ready[k]].state == CoroutineState::Runnable);
        }
    }
    assert forall|i: int| 0 <= i < m1.ready.len() implies m1.coroutines.contains_key(
        #[trigger] m1.ready[i],
    ) && m1.coroutines[m1.ready[i]].state == CoroutineState::Runnable by {
        let id = m.ready[i];
        assert(m.coroutines.contains_key(id));
        assert(m.ready.contains(id));
        assert(!deps.contains(id));
    }
    assert forall|id: u64| #[trigger] m1.coroutines.contains_key(id) implies {
        let c = m1.coroutines[id];
        &&& c.id == id
        &&& 1 <= id <= m1.next_coroutine_id
        &&& c.state != CoroutineState::Running
        &&& (c.state == CoroutineState::Runnable ==> m1.ready.contains(id))
        &&& (c.state == CoroutineState::Suspended ==> exists|fid2: u64|
            c.depends_on.dom() =~= set![fid2])
        &&& (c.state != CoroutineState::Suspended ==> c.depends_on.dom() =~= Set::empty())
        &&& forall|fid2: u64|
            #[trigger] c.depends_on.contains_key(fid2) ==> m1.futures.contains_key(fid2)
                && m1.futures[fid2].dependants.contains(id) && m1.futures[fid2].state
                == FutureState::Waiting
    } by {
        let c = m1.coroutines[id];
        assert(m.coroutines.contains_key(id));
        let c0 = m.coroutines[id];
        if deps.contains(id) {
            let j = choose|j: int| 0 <= j < deps.len() && deps[j] == id;
            assert(c0.state == CoroutineState::Suspended);
            assert(c0.depends_on.dom() =~= set![fid]);
            assert(c == spec_cancel_coroutine(c0, fid));
            assert(c.depends_on.dom() =~= Set::empty());
            assert forall|fid2: u64| #[trigger] c.depends_on.contains_key(fid2)
                implies m1.futures.contains_key(fid2) && m1.futures[fid2].dependants.contains(id)
                && m1.futures[fid2].state == FutureState::Waiting by {
                assert(c.depends_on.dom().contains(fid2));
                assert(false);
            }
        } else {
            assert(c == c0);
            if c.state == CoroutineState::Runnable {
                let k = choose|k: int| 0 <= k < m.ready.len() && m.ready[k] == id;
                assert(m.ready.contains(id));
                assert(m1.ready.contains(id));
            }
            assert forall|fid2: u64| #[trigger] c.depends_on.contains_key(fid2)
                implies m1.futures.contains_key(fid2) && m1.futures[fid2].dependants.contains(id)
                && m1.futures[fid2].state == FutureState::Waiting by {
                assert(m.futures.contains_key(fid2));
                assert(m.futures[fid2].dependants.contains(id));
                if fid2 == fid {
                    assert(deps.contains(id));
                    assert(false);
                }
                assert(m1.futures[fid2] == m.futures[fid2]);
            }
        }
    }
    assert forall|fid2: u64| #[trigger] m1.futures.contains_key(fid2) implies {
        let f = m1.futures[fid2];
        &&& f.id == fid2
        &&& 1 <= fid2 <= m1.next_future_id
        &&& (f.state == FutureState::Complete ==> f.value is Some)
        &&& (f.state != FutureState::Waiting ==> f.dependants.len() == 0)
        &&& (forall|i: int, j: int|
            0 <= i < j < f.dependants.len() ==> f.dependants[i] != f.dependants[j])
        &&& forall|i: int|
            0 <= i < f.dependants.len() ==> {
                let did = #[trigger] f.dependants[i];
                &&& m1.coroutines.contains_key(did)
                &&& m1.coroutines[did].state == CoroutineState::Suspended
                &&& m1.coroutines[did].depends_on.dom() =~= set![fid2]
                &&& m1.coroutines[did].depends_on.contains_key(fid2)
            }
    } by {
        let f = m1.futures[fid2];
        if fid2 != fid {
            assert(m.futures.contains_key(fid2));
            assert(f == m.futures[fid2]);
            assert forall|i: int| 0 <= i < f.dependants.len() implies {
                let did = #[trigger] f.dependants[i];
                &&& m1.coroutines.contains_key(did)
                &&& m1.coroutines[did].state == CoroutineState::Suspended
                &&& m1.coroutines[did].depends_on.dom() =~= set![fid2]
                &&& m1.coroutines[did].depends_on.contains_key(fid2)
            } by {
                let did = f.dependants[i];
                assert(m.coroutines.contains_key(did));
                assert(m.coroutines[did].state == CoroutineState::Suspended);
                assert(m.coroutines[did].depends_on.dom() =~= set![fid2]);
                if deps.contains(did) {
                    assert(m.coroutines[did].depends_on.dom() =~= set![fid]);
                    assert(m.coroutines[did].depends_on.contains_key(fid2));
                    assert(set![fid2].contains(fid2));
                    assert(fid2 == fid);
                    assert(false);
                }
                assert(m1.coroutines[did] == m.coroutines[did]);
            }
        }
    }
}

/// A dependant after delivery: the payload stands in its memory at the
/// declared address, the pending entry is gone, and it is runnable again.
pub open spec fn spec_deliver(c: CoroutineModel, fid: u64, val: Seq<u8>) -> CoroutineModel
    recommends
        c.depends_on.contains_key(fid),
{
    CoroutineModel {
        state: CoroutineState::Runnable,
        depends_on: c.depends_on.remove(fid),
        mem: spec_write_bytes(c.mem, c.depends_on[fid] as int, val),
        ..c
    }
}

/// True when every dependant's delivery of `val` fits within its memory.
pub open spec fn spec_can_deliver(m: SchedulerModel, fid: u64, val: Seq<u8>) -> bool
    recommends
        m.futures.contains_key(fid),
{
    forall|i: int|
        0 <= i < m.futures[fid].dependants.len() ==> {
            let c = m.coroutines[#[trigger] m.futures[fid].dependants[i]];
            spec_in_bounds(c.mem.len() as int, c.depends_on[fid] as int, val.len() as int)
        }
}

/// The model after completing a waiting future with payload `val`: the value
/// is delivered to every dependant, all of them join the back of the ready
/// queue in their await order, and the future holds the value with no
/// dependants left.
pub open spec fn spec_complete(m: SchedulerModel, fid: u64, val: Seq<u8>) -> SchedulerModel
    recommends
        m.futures.contains_key(fid),
        m.futures[fid].state == FutureState::Waiting,
{
    let deps = m.futures[fid].dependants;
    SchedulerModel {
        coroutines: Map::new(
            |k: u64| m.coroutines.contains_key(k),
            |k: u64|
                if deps.contains(k) {
                    spec_deliver(m.coroutines[k], fid, val)
                } else {
                    m.coroutines[k]
                },
        ),
        futures: m.futures.insert(
            fid,
            FutureModel {
                id: fid,
                state: FutureState::Complete,
                dependants: Seq::empty(),
                value: Some(val),
            },
        ),
        ready: m.ready + deps,
        ..m
    }
}

/// The index of the first occurrence of `cid` in the ready queue.
fn find_ready_index(ready: &VecDeque<u64>, cid: u64) -> (r: usize)
    requires
        ready@.contains(cid),
    ensures
        r < ready@.len(),
        ready@[r as int] == cid,
        forall|j: int| 0 <= j < r ==> ready@[j] != cid,
{
    let mut idx: usize = 0;
    while idx < ready.len()
        invariant
            idx <= ready@.len(),
            ready@.contains(cid),
            forall|j: int| 0 <= j < idx ==> ready@[j] != cid,
        decreases ready@.len() - idx,
    {
        if ready[idx] == cid {
            return idx;
        }
        idx = idx + 1;
    }
    proof {
        let k = choose|k: int| 0 <= k < ready@.len() && ready@[k] == cid;
        assert(false);
    }
    unreached()
}

/// The model after a runnable coroutine suspends on a waiting future: the
/// coroutine leaves the ready queue, records the future and the delivery
/// address, and the future records the coroutine as its newest dependant.
pub open spec fn spec_await_suspend(
    m: SchedulerModel,
    cid: u64,
    fid: u64,
    write_addr: usize,
) -> SchedulerModel
    recommends
        m.coroutines.contains_key(cid),
        m.futures.contains_key(fid),
{
    let c = m.coroutines[cid];
    let f = m.futures[fid];
    SchedulerModel {
        coroutines: m.coroutines.insert(
            cid,
            CoroutineModel {
                state: CoroutineState::Suspended,
                depends_on: c.depends_on.insert(fid, write_addr),
                ..c
            },
        ),
        futures: m.futures.insert(fid, FutureModel { dependants: f.dependants.push(cid), ..f }),
        ready: m.ready.remove(m.ready.index_of(cid)),
        ..m
    }
}

/// The model after a complete future's payload is delivered to a runnable
/// coroutine at `write_addr` (the fast path of an await).
pub open spec fn spec_await_fast(
    m: SchedulerModel,
    cid: u64,
    fid: u64,
    write_addr: usize,
) -> SchedulerModel
    recommends
        m.coroutines.contains_key(cid),
        m.futures.contains_key(fid),
        m.futures[fid].value is Some,
{
    let c = m.coroutines[cid];
    SchedulerModel {
        coroutines: m.coroutines.insert(
            cid,
            CoroutineModel {
                mem: spec_write_bytes(c.mem, write_addr as int, m.futures[fid].value->Some_0),
                ..c
            },
        ),
        ..m
    }
}

/// The model after spawning from model `m`: a fresh runnable coroutine whose
/// memory holds exactly `args` at address zero, and a fresh waiting result
/// future; both counters step by one. The new future's id is returned.
pub open spec fn spec_spawn(
    m: SchedulerModel,
    code: Seq<Instruction>,
    entry: usize,
    priority: i32,
    args: Seq<u8>,
) -> (SchedulerModel, u64)
    recommends
        m.next_coroutine_id < u64::MAX,
        m.next_future_id < u64::MAX,
{
    let cid = (m.next_coroutine_id + 1) as u64;
    let fid = (m.next_future_id + 1) as u64;
    let c = CoroutineModel {
        id: cid,
        priority,
        state: CoroutineState::Runnable,
        depends_on: Map::empty(),
        dependant: Some(fid),
        mem: args,
        code,
        pc: entry,
    };
    let f = FutureModel { id: fid, state: FutureState::Waiting, dependants: Seq::empty(), value: None };
    (
        SchedulerModel {
            coroutines: m.coroutines.insert(cid, c),
            futures: m.futures.insert(fid, f),
            ready: m.ready.push(cid),
            next_coroutine_id: cid,
            next_future_id: fid,
        },
        fid,
    )
}

/// Spawning preserves the invariant.
proof fn lemma_spawn_wf(
    m: SchedulerModel,
    code: Seq<Instruction>,
    entry: usize,
    priority: i32,
    args: Seq<u8>,
)
    requires
        m.wf(),
        m.next_coroutine_id < u64::MAX,
        m.next_future_id < u64::MAX,
    ensures
        spec_spawn(m, code, entry, priority, args).0.wf(),
{
    let cid = (m.next_coroutine_id + 1) as u64;
    let fid = (m.next_future_id + 1) as u64;
    let c = CoroutineModel {
        id: cid,
        priority,
        state: CoroutineState::Runnable,
        depends_on: Map::empty(),
        dependant: Some(fid),
        mem: args,
        code,
        pc: entry,
    };
    let f = FutureModel {
        id: fid,
        state: FutureState::Waiting,
        dependants: Seq::empty(),
        value: None,
    };
    let mf = SchedulerModel {
        futures: m.futures.insert(fid, f),
        next_coroutine_id: cid,
        next_future_id: fid,
        ..m
    };
    assert forall|id: u64| #[trigger] mf.coroutines.contains_key(id) implies {
        let cc = mf.coroutines[id];
        forall|fid2: u64|
            #[trigger] cc.depends_on.contains_key(fid2) ==> mf.futures.contains_key(fid2)
                && mf.futures[fid2].dependants.contains(id) && mf.futures[fid2].state
                == FutureState::Waiting
    } by {
        let cc = mf.coroutines[id];
        assert forall|fid2: u64| #[trigger] cc.depends_on.contains_key(fid2)
            implies mf.futures.contains_key(fid2) && mf.futures[fid2].dependants.contains(id)
            && mf.futures[fid2].state == FutureState::Waiting by {
            assert(m.coroutines.contains_key(id));
            assert(m.futures.contains_key(fid2));
            assert(fid2 <= m.next_future_id);
            assert(mf.futures[fid2] == m.futures[fid2]);
        }
    }
    assert(mf.wf());
    assert(!mf.coroutines.contains_key(cid));
    lemma_enqueue_wf(mf, c);
    let m1 = spec_spawn(m, code, entry, priority, args).0;
    assert(m1 =~= (SchedulerModel {
        coroutines: mf.coroutines.insert(cid, c),
        ready: mf.ready.push(cid),
        ..mf
    }));
}

/// Enqueueing a fresh runnable coroutine preserves the invariant.
proof fn lemma_enqueue_wf(m: SchedulerModel, c: CoroutineModel)
    requires
        m.wf(),
        !m.coroutines.contains_key(c.id),
        1 <= c.id <= m.next_coroutine_id,
        c.state == CoroutineState::Runnable,
        c.depends_on.dom() =~= Set::<u64>::empty(),
    ensures
        (SchedulerModel {
            coroutines: m.coroutines.insert(c.id, c),
            ready: m.ready.push(c.id),
            ..m
        }).wf(),
{
    let m1 = SchedulerModel {
        coroutines: m.coroutines.insert(c.id, c),
        ready: m.ready.push(c.id),
        ..m
    };
    assert forall|i: int| 0 <= i < m1.ready.len() implies m1.coroutines.contains_key(
        #[trigger] m1.ready[i],
    ) && m1.coroutines[m1.ready[i]].state == CoroutineState::Runnable by {
        if i < m.ready.len() {
            assert(m.coroutines.contains_key(m.ready[i]));
        }
    }
    assert forall|i: int, j: int| 0 <= i < j < m1.ready.len() implies m1.ready[i]
        != m1.ready[j] by {
        if j == m1.ready.len() - 1 && i < m.ready.len() {
            assert(m.coroutines.contains_key(m.ready[i]));
        }
    }
    assert forall|id: u64| #[trigger] m1.coroutines.contains_key(id) implies {
        let cc = m1.coroutines[id];
        &&& (cc.state == CoroutineState::Runnable ==> m1.ready.contains(id))
        &&& forall|fid: u64|
            #[trigger] cc.depends_on.contains_key(fid) ==> m1.futures.contains_key(fid)
                && m1.futures[fid].dependants.contains(id) && m1.futures[fid].state
                == FutureState::Waiting
    } by {
        let cc = m1.coroutines[id];
        if id == c.id {
            assert(m1.ready[m1.ready.len() - 1] == c.id);
            assert(m1.ready.contains(id));
            assert forall|fid: u64| #[trigger] cc.depends_on.contains_key(fid)
                implies m1.futures.contains_key(fid) && m1.futures[fid].dependants.contains(id)
                && m1.futures[fid].state == FutureState::Waiting by {
                assert(cc.depends_on.dom().contains(fid));
                assert(false);
            }
        } else {
            assert(m.coroutines.contains_key(id));
            if cc.state == CoroutineState::Runnable {
                let k = choose|k: int| 0 <= k < m.ready.len() && m.ready[k] == id;
                assert(m.ready.contains(id));
                assert(m1.ready[k] == id);
                assert(m1.ready.contains(id));
            }
        }
    }
    assert forall|fid: u64| #[trigger] m1.futures.contains_key(fid) implies {
        let f = m1.futures[fid];
        forall|i: int|
            0 <= i < f.dependants.len() ==> {
                let did = #[trigger] f.dependants[i];
                &&& m1.coroutines.contains_key(did)
                &&& m1.coroutines[did].state == CoroutineState::Suspended
                &&& m1.coroutines[did].depends_on.dom() =~= set![fid]
                &&& m1.coroutines[did].depends_on.contains_key(fid)
            }
    } by {
        let f = m1.futures[fid];
        assert forall|i: int| 0 <= i < f.dependants.len() implies {
            let did = #[trigger] f.dependants[i];
            &&& m1.coroutines.contains_key(did)
            &&& m1.coroutines[did].state == CoroutineState::Suspended
            &&& m1.coroutines[did].depends_on.dom() =~= set![fid]
            &&& m1.coroutines[did].depends_on.contains_key(fid)
        } by {
            assert(m.futures.contains_key(fid));
            let did = f.dependants[i];
            assert(m.coroutines.contains_key(did));
            assert(did != c.id);
        }
    }
}

/// Popping the queue's head out of the table preserves the invariant.
proof fn lemma_dequeue_wf(m: SchedulerModel)
    requires
        m.wf(),
        m.ready.len() > 0,
    ensures
        (SchedulerModel {
            coroutines: m.coroutines.remove(m.ready[0]),
            ready: m.ready.drop_first(),
            ..m
        }).wf(),
{
    let cid = m.ready[0];
    let m1 = SchedulerModel {
        coroutines: m.coroutines.remove(cid),
        ready: m.ready.drop_first(),
        ..m
    };
    assert(m.coroutines.contains_key(cid));
    assert(m.coroutines[cid].state == CoroutineState::Runnable);
    assert forall|id: u64| #[trigger] m1.coroutines.contains_key(id) implies {
        let c = m1.coroutines[id];
        &&& c.id == id
        &&& 1 <= id <= m1.next_coroutine_id
        &&& c.state != CoroutineState::Running
        &&& (c.state == CoroutineState::Runnable ==> m1.ready.contains(id))
        &&& (c.state == CoroutineState::Suspended ==> exists|fid: u64|
            c.depends_on.dom() =~= set![fid])
        &&& (c.state != CoroutineState::Suspended ==> c.depends_on.dom() =~= Set::empty())
        &&& forall|fid: u64|
            #[trigger] c.depends_on.contains_key(fid) ==> m1.futures.contains_key(fid)
                && m1.futures[fid].dependants.contains(id) && m1.futures[fid].state
                == FutureState::Waiting
    } by {
        let c = m1.coroutines[id];
        assert(m.coroutines.contains_key(id));
        if c.state == CoroutineState::Runnable {
            let k = choose|k: int| 0 <= k < m.ready.len() && m.ready[k] == id;
            assert(m.ready.contains(id));
            assert(m.ready[k] == id);
            assert(k != 0);
            assert(m1.ready[k - 1] == id);
            assert(m1.ready.contains(id));
        }
    }
    assert forall|fid: u64| #[trigger] m1.futures.contains_key(fid) implies {
        let f = m1.futures[fid];
        forall|i: int|
            0 <= i < f.dependants.len() ==> {
                let did = #[trigger] f.dependants[i];
                &&& m1.coroutines.contains_key(did)
                &&& m1.coroutines[did].state == CoroutineState::Suspended
                &&& m1.coroutines[did].depends_on.dom() =~= set![fid]
                &&& m1.coroutines[did].depends_on.contains_key(fid)
            }
    } by {
        let f = m1.futures[fid];
        assert(m.futures.contains_key(fid));
        assert forall|i: int| 0 <= i < f.dependants.len() implies {
            let did = #[trigger] f.dependants[i];
            &&& m1.coroutines.contains_key(did)
            &&& m1.coroutines[did].state == CoroutineState::Suspended
            &&& m1.coroutines[did].depends_on.dom() =~= set![fid]
            &&& m1.coroutines[did].depends_on.contains_key(fid)
        } by {
            let did = f.dependants[i];
            assert(m.coroutines.contains_key(did));
            assert(m.coroutines[did].state == CoroutineState::Suspended);
            assert(did != cid);
        }
    }
}

/// Delivering a complete future's payload to a runnable coroutine preserves
/// the invariant: only that coroutine's memory changes.
proof fn lemma_await_fast_wf(m: SchedulerModel, cid: u64, fid: u64, write_addr: usize)
    requires
        m.wf(),
        m.coroutines.contains_key(cid),
        m.coroutines[cid].state == CoroutineState::Runnable,
        m.futures.contains_key(fid),
        m.futures[fid].value is Some,
    ensures
        spec_await_fast(m, cid, fid, write_addr).wf(),
{
    let m1 = spec_await_fast(m, cid, fid, write_addr);
    assert forall|i: int| 0 <= i < m1.ready.len() implies m1.coroutines.contains_key(
        #[trigger] m1.ready[i],
    ) && m1.coroutines[m1.ready[i]].state == CoroutineState::Runnable by {
        assert(m.coroutines.contains_key(m.ready[i]));
    }
    assert forall|id: u64| #[trigger] m1.coroutines.contains_key(id) implies {
        let c = m1.coroutines[id];
        &&& c.id == id
        &&& 1 <= id <= m1.next_coroutine_id
        &&& c.state != CoroutineState::Running
        &&& (c.state == CoroutineState::Runnable ==> m1.ready.contains(id))
        &&& (c.state == CoroutineState::Suspended ==> exists|fid2: u64|
            c.depends_on.dom() =~= set![fid2])
        &&& (c.state != CoroutineState::Suspended ==> c.depends_on.dom() =~= Set::empty())
        &&& forall|fid2: u64|
            #[trigger] c.depends_on.contains_key(fid2) ==> m1.futures.contains_key(fid2)
                && m1.futures[fid2].dependants.contains(id) && m1.futures[fid2].state
                == FutureState::Waiting
    } by {
        assert(m.coroutines.contains_key(id));
        if id == cid {
            assert(m1.coroutines[id].depends_on =~= m.coroutines[id].depends_on);
        }
    }
    assert forall|fid2: u64| #[trigger] m1.futures.contains_key(fid2) implies {
        let f = m1.futures[fid2];
        forall|i: int|
            0 <= i < f.dependants.len() ==> {
                let did = #[trigger] f.dependants[i];
                &&& m1.coroutines.contains_key(did)
                &&& m1.coroutines[did].state == CoroutineState::Suspended
                &&& m1.coroutines[did].depends_on.dom() =~= set![fid2]
                &&& m1.coroutines[did].depends_on.contains_key(fid2)
            }
    } by {
        let f = m1.futures[fid2];
        assert(m.futures.contains_key(fid2));
        assert forall|i: int| 0 <= i < f.dependants.len() implies {
            let did = #[trigger] f.dependants[i];
            &&& m1.coroutines.contains_key(did)
            &&& m1.coroutines[did].state == CoroutineState::Suspended
            &&& m1.coroutines[did].depends_on.dom() =~= set![fid2]
            &&& m1.coroutines[did].depends_on.contains_key(fid2)
        } by {
            let did = f.dependants[i];
            assert(m.coroutines.contains_key(did));
            assert(m.coroutines[did].state == CoroutineState::Suspended);
            assert(did != cid);
        }
    }
}

/// Suspending a runnable coroutine on a waiting future preserves the
/// invariant.
proof fn lemma_await_suspend_wf(m: SchedulerModel, cid: u64, fid: u64, write_addr: usize)
    requires
        m.wf(),
        m.coroutines.contains_key(cid),
        m.coroutines[cid].state == CoroutineState::Runnable,
        m.futures.contains_key(fid),
        m.futures[fid].state == FutureState::Waiting,
    ensures
        spec_await_suspend(m, cid, fid, write_addr).wf(),
{
    let m1 = spec_await_suspend(m, cid, fid, write_addr);
    let idx = m.ready.index_of(cid);
    assert(m.ready.contains(cid));
    assert(0 <= idx < m.ready.len() && m.ready[idx] == cid);
    assert(m1.ready =~= m.ready.remove(idx));
    assert(m.coroutines[cid].depends_on.dom() =~= Set::empty());
    assert(m1.coroutines[cid].depends_on.dom() =~= set![fid]);

    // the ready queue without `cid` still names runnable coroutines, once each
    assert forall|i: int| 0 <= i < m1.ready.len() implies m1.coroutines.contains_key(
        #[trigger] m1.ready[i],
    ) && m1.coroutines[m1.ready[i]].state == CoroutineState::Runnable by {
        let orig: int = if i < idx {
            i
        } else {
            i + 1
        };
        assert(m1.ready[i] == m.ready[orig]);
        assert(m.coroutines.contains_key(m.ready[orig]));
        assert(m.ready[orig] != cid);
    }
    assert forall|i: int, j: int| 0 <= i < j < m1.ready.len() implies m1.ready[i]
        != m1.ready[j] by {
        let oi: int = if i < idx {
            i
        } else {
            i + 1
        };
        let oj: int = if j < idx {
            j
        } else {
            j + 1
        };
        assert(m1.ready[i] == m.ready[oi]);
        assert(m1.ready[j] == m.ready[oj]);
    }
    assert forall|id: u64| #[trigger] m1.coroutines.contains_key(id) implies {
        let c = m1.coroutines[id];
        &&& c.id == id
        &&& 1 <= id <= m1.next_coroutine_id
        &&& c.state != CoroutineState::Running
        &&& (c.state == CoroutineState::Runnable ==> m1.ready.contains(id))
        &&& (c.state == CoroutineState::Suspended ==> exists|fid2: u64|
            c.depends_on.dom() =~= set![fid2])
        &&& (c.state != CoroutineState::Suspended ==> c.depends_on.dom() =~= Set::empty())
        &&& forall|fid2: u64|
            #[trigger] c.depends_on.contains_key(fid2) ==> m1.futures.contains_key(fid2)
                && m1.futures[fid2].dependants.contains(id) && m1.futures[fid2].state
                == FutureState::Waiting
    } by {
        let c = m1.coroutines[id];
        assert(m.coroutines.contains_key(id));
        if id == cid {
            assert(c.depends_on.dom() =~= set![fid]);
            assert forall|fid2: u64| #[trigger] c.depends_on.contains_key(fid2)
                implies m1.futures.contains_key(fid2) && m1.futures[fid2].dependants.contains(id)
                && m1.futures[fid2].state == FutureState::Waiting by {
                assert(c.depends_on.dom().contains(fid2));
                assert(fid2 == fid);
                let deps = m1.futures[fid].dependants;
                assert(deps[deps.len() - 1] == cid);
                assert(deps.contains(cid));
            }
        } else {
            if c.state == CoroutineState::Runnable {
                let k = choose|k: int| 0 <= k < m.ready.len() && m.ready[k] == id;
                assert(m.ready.contains(id));
                assert(k != idx);
                if k < idx {
                    assert(m1.ready[k] == id);
                } else {
                    assert(m1.ready[k - 1] == id);
                }
                assert(m1.ready.contains(id));
            }
            assert forall|fid2: u64| #[trigger] c.depends_on.contains_key(fid2)
                implies m1.futures.contains_key(fid2) && m1.futures[fid2].dependants.contains(id)
                && m1.futures[fid2].state == FutureState::Waiting by {
                assert(m.futures.contains_key(fid2));
                assert(m.futures[fid2].dependants.contains(id));
                if fid2 == fid {
                    let deps0 = m.futures[fid].dependants;
                    let k = choose|k: int| 0 <= k < deps0.len() && deps0[k] == id;
                    assert(m1.futures[fid].dependants[k] == id);
                    assert(m1.futures[fid].dependants.contains(id));
                }
            }
        }
    }
    assert forall|fid2: u64| #[trigger] m1.futures.contains_key(fid2) implies {
        let f = m1.futures[fid2];
        &&& f.id == fid2
        &&& 1 <= fid2 <= m1.next_future_id
        &&& (f.state == FutureState::Complete ==> f.value is Some)
        &&& (f.state != FutureState::Waiting ==> f.dependants.len() == 0)
        &&& (forall|i: int, j: int|
            0 <= i < j < f.dependants.len() ==> f.dependants[i] != f.dependants[j])
        &&& forall|i: int|
            0 <= i < f.dependants.len() ==> {
                let did = #[trigger] f.dependants[i];
                &&& m1.coroutines.contains_key(did)
                &&& m1.coroutines[did].state == CoroutineState::Suspended
                &&& m1.coroutines[did].depends_on.dom() =~= set![fid2]
                &&& m1.coroutines[did].depends_on.contains_key(fid2)
            }
    } by {
        let f = m1.futures[fid2];
        assert(m.futures.contains_key(fid2));
        let f0 = m.futures[fid2];
        if fid2 == fid {
            assert(f.dependants =~= f0.dependants.push(cid));
            assert forall|i: int, j: int| 0 <= i < j < f.dependants.len() implies f.dependants[i]
                != f.dependants[j] by {
                if j == f.dependants.len() - 1 {
                    assert(m.coroutines[f0.dependants[i]].state == CoroutineState::Suspended);
                }
            }
            assert forall|i: int| 0 <= i < f.dependants.len() implies {
                let did = #[trigger] f.dependants[i];
                &&& m1.coroutines.contains_key(did)
                &&& m1.coroutines[did].state == CoroutineState::Suspended
                &&& m1.coroutines[did].depends_on.dom() =~= set![fid2]
                &&& m1.coroutines[did].depends_on.contains_key(fid2)
            } by {
                let did = f.dependants[i];
                if i < f0.dependants.len() {
                    assert(m.coroutines[did].state == CoroutineState::Suspended);
                    assert(did != cid);
                } else {
                    assert(did == cid);
                }
            }
        } else {
            assert forall|i: int| 0 <= i < f.dependants.len() implies {
                let did = #[trigger] f.dependants[i];
                &&& m1.coroutines.contains_key(did)
                &&& m1.coroutines[did].state == CoroutineState::Suspended
                &&& m1.coroutines[did].depends_on.dom() =~= set![fid2]
                &&& m1.coroutines[did].depends_on.contains_key(fid2)
            } by {
                let did = f.dependants[i];
                assert(m.coroutines.contains_key(did));
                assert(m.coroutines[did].state == CoroutineState::Suspended);
                assert(did != cid);
            }
        }
    }
}

/// The model after a held coroutine rejoins the scheduler runnable, at the
/// back of the ready queue.
pub open spec fn spec_enqueue(m: SchedulerModel, c: CoroutineModel) -> SchedulerModel {
    SchedulerModel {
        coroutines: m.coroutines.insert(
            c.id,
            CoroutineModel { state: CoroutineState::Runnable, ..c },
        ),
        ready: m.ready.push(c.id),
        ..m
    }
}

/// What settling a returning coroutine leaves behind: the scheduler and, for
/// the root, the payload handed to the caller; or the fault that ended the
/// run. The payload is the returning coroutine's bytes at `[addr, addr+len)`;
/// the root is retained finished after its result future is completed (when
/// it still waits), while any other coroutine completes its result future and
/// is dropped.
pub open spec fn spec_settle(
    m: SchedulerModel,
    c: CoroutineModel,
    addr: usize,
    len: usize,
    root: u64,
) -> Result<(SchedulerModel, Option<Seq<u8>>), Fault> {
    if !spec_in_bounds(c.mem.len() as int, addr as int, len as int) {
        Err(Fault::OutOfBounds)
    } else {
        let payload = c.mem.subrange(addr as int, addr + len);
        if c.id == root {
            let complete_it = c.dependant matches Some(fid) && m.futures.contains_key(fid)
                && m.futures[fid].state == FutureState::Waiting;
            if complete_it && !spec_can_deliver(m, c.dependant->Some_0, payload) {
                Err(Fault::OutOfBounds)
            } else {
                let m1 = if complete_it {
                    spec_complete(m, c.dependant->Some_0, payload)
                } else {
                    m
                };
                let m2 = SchedulerModel {
                    coroutines: m1.coroutines.insert(
                        c.id,
                        CoroutineModel { state: CoroutineState::Finished, ..c },
                    ),
                    ..m1
                };
                Ok((m2, Some(payload)))
            }
        } else {
            match c.dependant {
                Some(fid) => {
                    if !m.futures.contains_key(fid) {
                        Err(Fault::MissingFuture)
                    } else if m.futures[fid].state != FutureState::Waiting {
                        Err(Fault::DoubleComplete)
                    } else if !spec_can_deliver(m, fid, payload) {
                        Err(Fault::OutOfBounds)
                    } else {
                        Ok((spec_complete(m, fid, payload), None))
                    }
                },
                None => Ok((m, None)),
            }
        }
    }
}

/// What a whole drive of the scheduler ends with, in the model.
pub enum RunModel {
    /// The root returned this payload, leaving this scheduler.
    Done(SchedulerModel, Seq<u8>),
    /// Nothing was runnable, leaving this scheduler.
    Blocked(SchedulerModel),
    /// The cycle budget ran out, leaving this scheduler.
    OutOfFuel(SchedulerModel),
    /// The run ended with this fault.
    Faulted(Fault),
}

/// The meaning of one fetch-decode-execute cycle on a coroutine, at the
/// model level: the coroutine afterwards and the interrupt it raised, or the
/// fault. A counter past the end of the code raises end-of-code and changes
/// nothing.
pub open spec fn spec_cycle(c: CoroutineModel) -> Result<(CoroutineModel, Interrupt), Fault> {
    if c.pc >= c.code.len() {
        Ok((c, Interrupt::Eof))
    } else {
        match spec_step(c.mem, c.code[c.pc as int], c.pc as int) {
            Err(f) => Err(f),
            Ok(st) => Ok(
                (CoroutineModel { mem: st.mem, pc: st.pc as usize, ..c }, st.interrupt),
            ),
        }
    }
}

/// The meaning of dispatching one interrupt raised by the held coroutine
/// `c`: the scheduler afterwards, the coroutine the driver goes on holding
/// (if any), and the root's payload when the run is over; or the fault that
/// ends the run.
///
/// `Continue` keeps the coroutine running; an await steps past the consumed
/// instruction, requeues the coroutine and suspends it on the future — or
/// delivers at once from a complete one; a fork spawns the child and writes
/// the new future id back; a return or the end of the code settles the
/// coroutine; a delete drops the future when nothing awaits it.
pub open spec fn spec_dispatch(
    m: SchedulerModel,
    c: CoroutineModel,
    interrupt: Interrupt,
    root: u64,
) -> Result<(SchedulerModel, Option<CoroutineModel>, Option<Seq<u8>>), Fault> {
    match interrupt {
        Interrupt::Continue => Ok((m, Some(c), None)),
        Interrupt::Eof => match spec_settle(m, c, 0, 0, root) {
            Err(f) => Err(f),
            Ok((m2, payload)) => Ok((m2, None, payload)),
        },
        Interrupt::Ret(addr, len) => match spec_settle(m, c, addr, len, root) {
            Err(f) => Err(f),
            Ok((m2, payload)) => Ok((m2, None, payload)),
        },
        Interrupt::Await(fid, write_addr) => {
            let c2 = CoroutineModel { pc: (c.pc + 1) as usize, ..c };
            let enq = spec_enqueue(m, c2);
            if !enq.futures.contains_key(fid) {
                Err(Fault::MissingFuture)
            } else if enq.futures[fid].state == FutureState::Cancelled {
                Err(Fault::Cancelled)
            } else if enq.futures[fid].state == FutureState::Waiting {
                Ok((spec_await_suspend(enq, c2.id, fid, write_addr), None, None))
            } else if spec_in_bounds(
                c2.mem.len() as int,
                write_addr as int,
                enq.futures[fid].value->Some_0.len() as int,
            ) {
                Ok((spec_await_fast(enq, c2.id, fid, write_addr), None, None))
            } else {
                Err(Fault::OutOfBounds)
            }
        },
        Interrupt::CreateCoroutine(entry, arg_addr, arg_len, out_addr) => {
            if !spec_in_bounds(c.mem.len() as int, arg_addr as int, arg_len as int) {
                Err(Fault::OutOfBounds)
            } else if !(m.next_coroutine_id < u64::MAX && m.next_future_id < u64::MAX) {
                Err(Fault::OutOfBounds)
            } else {
                let args = c.mem.subrange(arg_addr as int, arg_addr + arg_len);
                let spawned = spec_spawn(m, c.code, entry, c.priority, args);
                if !spec_in_bounds(c.mem.len() as int, out_addr as int, 8) {
                    Err(Fault::OutOfBounds)
                } else {
                    let c2 = CoroutineModel {
                        mem: spec_write_bytes(
                            c.mem,
                            out_addr as int,
                            crate::codec::spec_u64_bytes(spawned.1),
                        ),
                        pc: (c.pc + 1) as usize,
                        ..c
                    };
                    Ok((spawned.0, Some(c2), None))
                }
            }
        },
        Interrupt::DeleteFuture(fid) => {
            let m2 = if m.futures.contains_key(fid) && m.futures[fid].dependants.len() == 0 {
                SchedulerModel { futures: m.futures.remove(fid), ..m }
            } else {
                m
            };
            Ok((m2, Some(c), None))
        },
    }
}

/// The meaning of [`Scheduler::resume`]: drive the scheduler from model `m`,
/// the driver holding `cur`, for at most `fuel` interpreter cycles.
///
/// Each round picks the held coroutine or pops the queue's head; with the
/// budget spent the picked coroutine rejoins the queue; otherwise one
/// [`spec_cycle`] runs and its interrupt is dispatched by [`spec_dispatch`].
pub open spec fn spec_resume(
    m: SchedulerModel,
    cur: Option<CoroutineModel>,
    root: u64,
    fuel: nat,
) -> RunModel
    decreases fuel,
{
    if cur is None && m.ready.len() == 0 {
        RunModel::Blocked(m)
    } else {
        let picked = if cur is Some {
            (m, cur->Some_0)
        } else {
            (
                SchedulerModel {
                    coroutines: m.coroutines.remove(m.ready[0]),
                    ready: m.ready.drop_first(),
                    ..m
                },
                CoroutineModel { state: CoroutineState::Running, ..m.coroutines[m.ready[0]] },
            )
        };
        let m1 = picked.0;
        let c = picked.1;
        if fuel == 0 {
            RunModel::OutOfFuel(spec_enqueue(m1, c))
        } else {
            match spec_cycle(c) {
                Err(f) => RunModel::Faulted(f),
                Ok((c1, interrupt)) => match spec_dispatch(m1, c1, interrupt, root) {
                    Err(f) => RunModel::Faulted(f),
                    Ok((m2, _, Some(payload))) => RunModel::Done(m2, payload),
                    Ok((m2, cur2, None)) => spec_resume(m2, cur2, root, (fuel - 1) as nat),
                },
            }
        }
    }
}

/// One unfolding of [`spec_resume`] with a held coroutine and fuel to spend.
proof fn lemma_resume_unfold(m: SchedulerModel, c: CoroutineModel, root: u64, fuel: nat)
    requires
        fuel > 0,
    ensures
        spec_resume(m, Some(c), root, fuel) == (match spec_cycle(c) {
            Err(f) => RunModel::Faulted(f),
            Ok((c1, interrupt)) => match spec_dispatch(m, c1, interrupt, root) {
                Err(f) => RunModel::Faulted(f),
                Ok((m2, _, Some(payload))) => RunModel::Done(m2, payload),
                Ok((m2, cur2, None)) => spec_resume(m2, cur2, root, (fuel - 1) as nat),
            },
        }),
{
}


/// Popping the queue's head into the driver's hand does not change what a
/// drive of the scheduler means.
proof fn lemma_resume_pick(m: SchedulerModel, root: u64, fuel: nat)
    requires
        m.ready.len() > 0,
    ensures
        spec_resume(m, None, root, fuel) == spec_resume(
            SchedulerModel {
                coroutines: m.coroutines.remove(m.ready[0]),
                ready: m.ready.drop_first(),
                ..m
            },
            Some(CoroutineModel { state: CoroutineState::Running, ..m.coroutines[m.ready[0]] }),
            root,
            fuel,
        ),
{
}

/// An interpreter step never raises the end-of-code interrupt — that comes
/// from the fetch alone — and a step that defers to the scheduler (an await,
/// a fork, a return) leaves the counter and the memory untouched.
proof fn lemma_step_no_eof(m: Seq<u8>, instr: Instruction, pc: int)
    requires
        spec_step(m, instr, pc) is Ok,
    ensures
        ({
            let st = spec_step(m, instr, pc)->Ok_0;
            &&& st.interrupt != Interrupt::Eof
            &&& (st.interrupt matches Interrupt::Await(..) ==> st.pc == pc && st.mem == m)
            &&& (st.interrupt matches Interrupt::CreateCoroutine(..) ==> st.pc == pc && st.mem
                == m)
            &&& (st.interrupt matches Interrupt::Ret(..) ==> st.pc == pc && st.mem == m)
        }),
{
}

/// Await delivery: when a waiting future is completed with a payload, every
/// coroutine that awaited it goes from suspended to runnable exactly once —
/// it was not in the ready queue and joins it behind everything already
/// enqueued — with the payload standing in its memory at the address it
/// declared, and nothing left pending, all before it runs any further
/// instruction.
pub proof fn lemma_complete_delivers(m: SchedulerModel, fid: u64, val: Seq<u8>, cid: u64)
    requires
        m.wf(),
        m.futures.contains_key(fid),
        m.futures[fid].state == FutureState::Waiting,
        spec_can_deliver(m, fid, val),
        m.futures[fid].dependants.contains(cid),
    ensures
        ({
            let m1 = spec_complete(m, fid, val);
            let waddr = m.coroutines[cid].depends_on[fid] as int;
            &&& m.coroutines.contains_key(cid)
            &&& m.coroutines[cid].state == CoroutineState::Suspended
            &&& m1.coroutines[cid].state == CoroutineState::Runnable
            &&& m1.coroutines[cid].mem.len() == m.coroutines[cid].mem.len()
            &&& m1.coroutines[cid].mem.subrange(waddr, waddr + val.len() as int) == val
            &&& m1.coroutines[cid].depends_on.dom() =~= Set::<u64>::empty()
            &&& !m.ready.contains(cid)
            &&& m1.ready == m.ready + m.futures[fid].dependants
            &&& m1.ready.contains(cid)
        }),
{
    let deps = m.futures[fid].dependants;
    let m1 = spec_complete(m, fid, val);
    let j = choose|j: int| 0 <= j < deps.len() && deps[j] == cid;
    assert(m.coroutines.contains_key(cid));
    assert(m.coroutines[cid].state == CoroutineState::Suspended);
    assert(m.coroutines[cid].depends_on.dom() =~= set![fid]);
    let c0 = m.coroutines[cid];
    let waddr = c0.depends_on[fid] as int;
    assert(spec_in_bounds(c0.mem.len() as int, waddr, val.len() as int));
    assert(m1.coroutines[cid] == spec_deliver(c0, fid, val));
    assert(m1.coroutines[cid].mem.subrange(waddr, waddr + val.len() as int) =~= val);
    assert(m1.coroutines[cid].depends_on.dom() =~= Set::<u64>::empty());
    if m.ready.contains(cid) {
        let k = choose|k: int| 0 <= k < m.ready.len() && m.ready[k] == cid;
        assert(m.coroutines[m.ready[k]].state == CoroutineState::Runnable);
        assert(false);
    }
    assert(m1.ready[m.ready.len() + j] == cid);
    assert(m1.ready.contains(cid));
}

/// FIFO fairness: enqueueing appends, so a newly runnable coroutine stands
/// behind every coroutine enqueued before it, and the next coroutine handed
/// out is the queue's head — the least recently enqueued.
pub proof fn lemma_fifo_order(m: SchedulerModel, c: CoroutineModel)
    ensures
        spec_enqueue(m, c).ready == m.ready.push(c.id),
        spec_enqueue(m, c).ready.last() == c.id,
        m.ready.len() > 0 ==> spec_enqueue(m, c).ready[0] == m.ready[0],
{
}

/// Monotonic ids: two successive spawns return strictly increasing future
/// ids, and every spawn leaves both id counters strictly above where they
/// stood, so no id is ever issued twice.
pub proof fn lemma_spawn_ids_monotonic(
    m: SchedulerModel,
    code1: Seq<Instruction>,
    entry1: usize,
    priority1: i32,
    args1: Seq<u8>,
    code2: Seq<Instruction>,
    entry2: usize,
    priority2: i32,
    args2: Seq<u8>,
)
    requires
        m.next_coroutine_id + 2 <= u64::MAX,
        m.next_future_id + 2 <= u64::MAX,
    ensures
        ({
            let (m1, fid1) = spec_spawn(m, code1, entry1, priority1, args1);
            let (m2, fid2) = spec_spawn(m1, code2, entry2, priority2, args2);
            &&& fid1 < fid2
            &&& m.next_future_id < fid1
            &&& m.next_future_id < m1.next_future_id < m2.next_future_id
            &&& m.next_coroutine_id < m1.next_coroutine_id < m2.next_coroutine_id
        }),
{
}

/// Completing a waiting future whose deliveries all fit preserves the
/// invariant.
proof fn lemma_complete_wf(m: SchedulerModel, fid: u64, val: Seq<u8>)
    requires
        m.wf(),
        m.futures.contains_key(fid),
        m.futures[fid].state == FutureState::Waiting,
        spec_can_deliver(m, fid, val),
    ensures
        spec_complete(m, fid, val).wf(),
{
    let deps = m.futures[fid].dependants;
    let m1 = spec_complete(m, fid, val);

    // a coroutine in the old ready queue is runnable, hence not a dependant
    assert forall|id: u64| m.ready.contains(id) implies !deps.contains(id) by {
        let k = choose|k: int| 0 <= k < m.ready.len() && m.ready[k] == id;
        if deps.contains(id) {
            let j = choose|j: int| 0 <= j < deps.len() && deps[j] == id;
            assert(m.coroutines[id].state == CoroutineState::Suspended);
            assert(m.coroutines[m.ready[k]].state == CoroutineState::Runnable);
        }
    }

    assert forall|i: int| 0 <= i < m1.ready.len() implies m1.coroutines.contains_key(
        #[trigger] m1.ready[i],
    ) && m1.coroutines[m1.ready[i]].state == CoroutineState::Runnable by {
        if i < m.ready.len() {
            let id = m.ready[i];
            assert(m.coroutines.contains_key(id));
            assert(m.ready.contains(id));
            assert(!deps.contains(id));
        } else {
            let id = deps[i - m.ready.len()];
            assert(deps.contains(id));
            assert(m.coroutines.contains_key(id));
        }
    }
    assert forall|i: int, j: int| 0 <= i < j < m1.ready.len() implies m1.ready[i]
        != m1.ready[j] by {
        let rlen = m.ready.len() as int;
        if i < rlen && j >= rlen {
            assert(m.ready.contains(m.ready[i]));
            assert(deps[j - rlen] == m1.ready[j]);
            assert(deps.contains(deps[j - rlen]));
        }
    }
    assert forall|id: u64| #[trigger] m1.coroutines.contains_key(id) implies {
        let c = m1.coroutines[id];
        &&& c.id == id
        &&& 1 <= id <= m1.next_coroutine_id
        &&& c.state != CoroutineState::Running
        &&& (c.state == CoroutineState::Runnable ==> m1.ready.contains(id))
        &&& (c.state == CoroutineState::Suspended ==> exists|fid2: u64|
            c.depends_on.dom() =~= set![fid2])
        &&& (c.state != CoroutineState::Suspended ==> c.depends_on.dom() =~= Set::empty())
        &&& forall|fid2: u64|
            #[trigger] c.depends_on.contains_key(fid2) ==> m1.futures.contains_key(fid2)
                && m1.futures[fid2].dependants.contains(id) && m1.futures[fid2].state
                == FutureState::Waiting
    } by {
        let c = m1.coroutines[id];
        assert(m.coroutines.contains_key(id));
        let c0 = m.coroutines[id];
        if deps.contains(id) {
            let j = choose|j: int| 0 <= j < deps.len() && deps[j] == id;
            assert(c0.state == CoroutineState::Suspended);
            assert(c0.depends_on.dom() =~= set![fid]);
            assert(c == spec_deliver(c0, fid, val));
            assert(c.depends_on.dom() =~= Set::empty());
            assert(m1.ready[m.ready.len() + j] == id);
            assert(m1.ready.contains(id));
            assert forall|fid2: u64| #[trigger] c.depends_on.contains_key(fid2)
                implies m1.futures.contains_key(fid2) && m1.futures[fid2].dependants.contains(id)
                && m1.futures[fid2].state == FutureState::Waiting by {
                assert(c.depends_on.dom().contains(fid2));
                assert(false);
            }
        } else {
            assert(c == c0);
            if c.state == CoroutineState::Runnable {
                let k = choose|k: int| 0 <= k < m.ready.len() && m.ready[k] == id;
                assert(m.ready.contains(id));
                assert(m1.ready[k] == id);
                assert(m1.ready.contains(id));
            }
            assert forall|fid2: u64| #[trigger] c.depends_on.contains_key(fid2)
                implies m1.futures.contains_key(fid2) && m1.futures[fid2].dependants.contains(id)
                && m1.futures[fid2].state == FutureState::Waiting by {
                assert(m.futures.contains_key(fid2));
                assert(m.futures[fid2].dependants.contains(id));
                if fid2 == fid {
                    assert(deps.contains(id));
                    assert(false);
                }
                assert(m1.futures[fid2] == m.futures[fid2]);
            }
        }
    }
    assert forall|fid2: u64| #[trigger] m1.futures.contains_key(fid2) implies {
        let f = m1.futures[fid2];
        &&& f.id == fid2
        &&& 1 <= fid2 <= m1.next_future_id
        &&& (f.state == FutureState::Complete ==> f.value is Some)
        &&& (f.state != FutureState::Waiting ==> f.dependants.len() == 0)
        &&& (forall|i: int, j: int|
            0 <= i < j < f.dependants.len() ==> f.dependants[i] != f.dependants[j])
        &&& forall|i: int|
            0 <= i < f.dependants.len() ==> {
                let did = #[trigger] f.dependants[i];
                &&& m1.coroutines.contains_key(did)
                &&& m1.coroutines[did].state == CoroutineState::Suspended
                &&& m1.coroutines[did].depends_on.dom() =~= set![fid2]
                &&& m1.coroutines[did].depends_on.contains_key(fid2)
            }
    } by {
        let f = m1.futures[fid2];
        if fid2 != fid {
            assert(m.futures.contains_key(fid2));
            assert(f == m.futures[fid2]);
            assert forall|i: int| 0 <= i < f.dependants.len() implies {
                let did = #[trigger] f.dependants[i];
                &&& m1.coroutines.contains_key(did)
                &&& m1.coroutines[did].state == CoroutineState::Suspended
                &&& m1.coroutines[did].depends_on.dom() =~= set![fid2]
                &&& m1.coroutines[did].depends_on.contains_key(fid2)
            } by {
                let did = f.dependants[i];
                assert(m.coroutines.contains_key(did));
                assert(m.coroutines[did].state == CoroutineState::Suspended);
                assert(m.coroutines[did].depends_on.dom() =~= set![fid2]);
                if deps.contains(did) {
                    assert(m.coroutines[did].depends_on.dom() =~= set![fid]);
                    assert(m.coroutines[did].depends_on.contains_key(fid2));
                    assert(set![fid2].contains(fid2));
                    assert(fid2 == fid);
                    assert(false);
                }
                assert(m1.coroutines[did] == m.coroutines[did]);
            }
        }
    }
}

} // verus!
