use vstd::prelude::*;

verus! {

/// The registers saved for a user process.
#[derive(Clone, Copy)]
pub struct Registers {
    pub rax: u64,
    pub rbx: u64,
    pub rcx: u64,
    pub rdx: u64,
    pub rsi: u64,
    pub rdi: u64,
    pub rbp: u64,
    pub r8: u64,
    pub r9: u64,
    pub r10: u64,
    pub r11: u64,
    pub r12: u64,
    pub r13: u64,
    pub r14: u64,
    pub r15: u64,
    pub rip: u64,
    pub cs: u64,
    pub rflags: u64,
    pub rsp: u64,
    pub ss: u64,
}

impl Registers {
    /// Every register zero.
    pub fn zeroed() -> (r: Registers)
        ensures
            r == Registers::zeroed_spec(),
    {
        Registers {
            rax: 0,
            rbx: 0,
            rcx: 0,
            rdx: 0,
            rsi: 0,
            rdi: 0,
            rbp: 0,
            r8: 0,
            r9: 0,
            r10: 0,
            r11: 0,
            r12: 0,
            r13: 0,
            r14: 0,
            r15: 0,
            rip: 0,
            cs: 0,
            rflags: 0,
            rsp: 0,
            ss: 0,
        }
    }
}

/// Where a process stands.
#[derive(Clone, Copy, PartialEq, Eq, Structural)]
pub enum ProcessState {
    Ready,
    Running,
    Blocked,
    Dead,
}

/// A user process: its number, name, address space (the frame of its top page table), kernel
/// stack, saved registers and state.
pub struct Process {
    pub pid: u64,
    pub name: Vec<u8>,
    pub cr3: u64,
    pub kernel_stack_top: u64,
    pub context: Registers,
    pub state: ProcessState,
}

impl Process {
    /// A ready process that starts at `entry_point` on `user_stack` in user mode: code and
    /// stack segments are the user selectors with privilege level 3, interrupts are enabled
    /// (flags 0x202), every other register is zero.
    pub fn new(pid: u64, name: Vec<u8>, cr3: u64, kstack_top: u64, entry_point: u64, user_stack: u64, user_code: u16, user_data: u16) -> (r: Process)
        ensures
            r.pid == pid && r.name == name && r.cr3 == cr3 && r.kernel_stack_top == kstack_top,
            r.state == ProcessState::Ready,
            r.context == (Registers {
                rip: entry_point,
                rsp: user_stack,
                cs: (user_code | 3) as u64,
                ss: (user_data | 3) as u64,
                rflags: 0x202,
                ..Registers::zeroed_spec()
            }),
    {
        let mut context = Registers::zeroed();
        context.cs = (user_code | 3) as u64;
        context.ss = (user_data | 3) as u64;
        context.rip = entry_point;
        context.rsp = user_stack;
        context.rflags = 0x202;
        Process { pid, name, cr3, kernel_stack_top: kstack_top, context, state: ProcessState::Ready }
    }
}

impl Registers {
    /// Every register zero.
    pub open spec fn zeroed_spec() -> Registers {
        Registers {
            rax: 0,
            rbx: 0,
            rcx: 0,
            rdx: 0,
            rsi: 0,
            rdi: 0,
            rbp: 0,
            r8: 0,
            r9: 0,
            r10: 0,
            r11: 0,
            r12: 0,
            r13: 0,
            r14: 0,
            r15: 0,
            rip: 0,
            cs: 0,
            rflags: 0,
            rsp: 0,
            ss: 0,
        }
    }
}

} // verus!
