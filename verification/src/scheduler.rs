use vstd::prelude::*;
use crate::bytes::{zeroes, splice, le64_bytes, put_le64, put_bytes};

verus! {

/// The saved stack pointer of a task that is not running.
#[derive(Clone, Copy)]
pub struct Context {
    pub rsp: u64,
}

/// Where a task stands.
#[derive(Clone, Copy, PartialEq, Eq, Structural)]
pub enum TaskState {
    Ready,
    Running,
    Finished,
}

/// Bytes of stack each task gets.
pub const STACK_SIZE: usize = 0x1_0000;

/// A kernel task: its number, saved context, state and stack.
pub struct Task {
    pub id: usize,
    pub context: Context,
    pub state: TaskState,
    pub stack: Vec<u8>,
}

/// Top of a stack whose first byte is at `base`: its end, rounded down to 16 bytes.
pub open spec fn stack_top(base: int) -> int {
    (base + STACK_SIZE) / 16 * 16
}

/// The first frame of a task, as the first switch to it pops it: six saved registers (zero),
/// then the entry point to return to, then the exit routine the entry point returns to.
pub open spec fn first_frame(entry: u64, exit: u64) -> Seq<u8> {
    Seq::new(48, |i: int| 0u8) + le64_bytes(entry) + le64_bytes(exit)
}

impl Task {
    /// A ready task `id` on `stack` (whose first byte is at address `base`), laid out so that
    /// the first switch to it starts `entry`, and `exit` runs when `entry` returns: the first
    /// frame sits just below the 16-byte aligned top, and the saved stack pointer points at it.
    pub fn new(id: usize, entry: u64, exit: u64, stack: Vec<u8>, base: u64) -> (r: Task)
        requires
            stack@.len() == STACK_SIZE,
            base + STACK_SIZE <= u64::MAX,
        ensures
            r.id == id,
            r.state == TaskState::Ready,
            r.context.rsp == stack_top(base as int) - 64,
            r.stack@ == splice(stack@, stack_top(base as int) - base - 64, first_frame(entry, exit)),
    {
        let mut stack = stack;
        let top = (base + STACK_SIZE as u64) / 16 * 16;
        let off = (top - base) as usize;
        assert(off >= STACK_SIZE - 15 && off <= STACK_SIZE);
        let mut frame = zeroes(64);
        put_le64(&mut frame, 48, entry);
        put_le64(&mut frame, 56, exit);
        assert(frame@ =~= first_frame(entry, exit));
        put_bytes(&mut stack, off - 64, frame.as_slice());
        Task { id, context: Context { rsp: top - 64 }, state: TaskState::Ready, stack }
    }
}

/// The task list, the running task and whether switching has started.
pub struct Scheduler {
    pub tasks: Vec<Task>,
    pub current: usize,
    pub started: bool,
}

impl Scheduler {
    /// No tasks; not started.
    pub fn new() -> (r: Scheduler)
        ensures
            r.tasks@.len() == 0,
            r.current == 0,
            !r.started,
    {
        Scheduler { tasks: Vec::new(), current: 0, started: false }
    }

    /// Adds a task numbered by its position (see `Task::new`).
    pub fn add_task(&mut self, entry: u64, exit: u64, stack: Vec<u8>, base: u64)
        requires
            stack@.len() == STACK_SIZE,
            base + STACK_SIZE <= u64::MAX,
        ensures
            final(self).tasks@.len() == old(self).tasks@.len() + 1,
            forall|i: int| 0 <= i < old(self).tasks@.len() ==> final(self).tasks@[i] == old(self).tasks@[i],
            ({
                let t = final(self).tasks@.last();
                &&& t.id == old(self).tasks@.len()
                &&& t.state == TaskState::Ready
                &&& t.context.rsp == stack_top(base as int) - 64
                &&& t.stack@ == splice(stack@, stack_top(base as int) - base - 64, first_frame(entry, exit))
            }),
            final(self).current == old(self).current,
            final(self).started == old(self).started,
    {
        let id = self.tasks.len();
        self.tasks.push(Task::new(id, entry, exit, stack, base));
    }

    /// Whether the running task is one of the tasks.
    pub open spec fn wf(&self) -> bool {
        self.started ==> self.current < self.tasks@.len()
    }
}

/// The switch a timer tick makes: once started and with two tasks or more, the running task
/// becomes ready and the next one (round robin) runs. Returns the tasks to switch from and
/// to; `None` when there is no scheduler, it has not started, or there is only one task.
pub fn schedule(sched: &mut Option<Scheduler>) -> (r: Option<(usize, usize)>)
    requires
        match *old(sched) {
            Some(s) => s.wf(),
            None => true,
        },
    ensures
        match *old(sched) {
            None => r is None && *final(sched) == *old(sched),
            Some(s) => if !s.started || s.tasks@.len() < 2 {
                r is None && *final(sched) == *old(sched)
            } else {
                let prev = s.current as int;
                let next = (s.current + 1) % s.tasks@.len() as int;
                &&& r == Some((prev as usize, next as usize))
                &&& *final(sched) matches Some(t)
                &&& t.wf()
                &&& t.current == next
                &&& t.started
                &&& t.tasks@.len() == s.tasks@.len()
                &&& t.tasks@[prev].state == TaskState::Ready
                &&& t.tasks@[next].state == TaskState::Running
                &&& forall|i: int| 0 <= i < s.tasks@.len() ==> {
                    let a = #[trigger] t.tasks@[i];
                    let b = s.tasks@[i];
                    &&& a.id == b.id
                    &&& a.context == b.context
                    &&& a.stack == b.stack
                    &&& (i != prev && i != next ==> a.state == b.state)
                }
            },
        },
{
    match sched {
        None => None,
        Some(s) => {
            if !s.started || s.tasks.len() < 2 {
                return None;
            }
            let prev = s.current;
            let next = (s.current + 1) % s.tasks.len();
            proof {
                if s.current + 1 < s.tasks@.len() {
                    vstd::arithmetic::div_mod::lemma_small_mod((s.current + 1) as nat, s.tasks@.len());
                } else {
                    vstd::arithmetic::div_mod::lemma_mod_self_0(s.tasks@.len() as int);
                }
            }
            if prev == next {
                return None;
            }
            s.tasks[prev].state = TaskState::Ready;
            s.tasks[next].state = TaskState::Running;
            s.current = next;
            Some((prev, next))
        },
    }
}

/// Starts switching: the first task runs. Returns the task to switch to; `None` when there is
/// no scheduler or no task.
pub fn start(sched: &mut Option<Scheduler>) -> (r: Option<usize>)
    ensures
        match *old(sched) {
            None => r is None && *final(sched) == *old(sched),
            Some(s) => if s.tasks@.len() == 0 {
                r is None && *final(sched) == *old(sched)
            } else {
                &&& r == Some(0usize)
                &&& *final(sched) matches Some(t)
                &&& t.wf()
                &&& t.started
                &&& t.current == 0
                &&& t.tasks@.len() == s.tasks@.len()
                &&& t.tasks@[0].state == TaskState::Running
                &&& forall|i: int| 0 <= i < s.tasks@.len() ==> {
                    let a = #[trigger] t.tasks@[i];
                    let b = s.tasks@[i];
                    &&& a.id == b.id
                    &&& a.context == b.context
                    &&& a.stack == b.stack
                    &&& (i != 0 ==> a.state == b.state)
                }
            },
        },
{
    match sched {
        None => None,
        Some(s) => {
            if s.tasks.len() == 0 {
                return None;
            }
            s.started = true;
            s.current = 0;
            s.tasks[0].state = TaskState::Running;
            Some(0)
        },
    }
}

/// Adds a task to the scheduler, when there is one.
pub fn spawn(sched: &mut Option<Scheduler>, entry: u64, exit: u64, stack: Vec<u8>, base: u64)
    requires
        stack@.len() == STACK_SIZE,
        base + STACK_SIZE <= u64::MAX,
    ensures
        match *old(sched) {
            None => *final(sched) is None,
            Some(s) => match *final(sched) {
                Some(t) => t.tasks@.len() == s.tasks@.len() + 1 && t.tasks@.last().id == s.tasks@.len()
                    && t.tasks@.last().state == TaskState::Ready && t.current == s.current && t.started == s.started,
                None => false,
            },
        },
{
    match sched {
        Some(s) => s.add_task(entry, exit, stack, base),
        None => {},
    }
}

} // verus!
