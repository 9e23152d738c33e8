use vstd::prelude::*;

verus! {

/// Entries in each submission and completion queue.
pub const QUEUE_SIZE: usize = 64;

/// A submission queue entry: a 64-byte NVMe command.
#[derive(Clone, Copy)]
pub struct SqEntry {
    pub opcode: u8,
    pub flags: u8,
    pub command_id: u16,
    pub nsid: u32,
    pub metadata: u64,
    pub prp1: u64,
    pub prp2: u64,
    pub cdw10: u32,
    pub cdw11: u32,
    pub cdw12: u32,
    pub cdw13: u32,
    pub cdw14: u32,
    pub cdw15: u32,
}

impl SqEntry {
    /// The all-zero command.
    pub fn zeroed() -> (r: SqEntry)
        ensures
            r.opcode == 0 && r.flags == 0 && r.command_id == 0 && r.nsid == 0 && r.metadata == 0
                && r.prp1 == 0 && r.prp2 == 0 && r.cdw10 == 0 && r.cdw11 == 0 && r.cdw12 == 0
                && r.cdw13 == 0 && r.cdw14 == 0 && r.cdw15 == 0,
    {
        SqEntry {
            opcode: 0,
            flags: 0,
            command_id: 0,
            nsid: 0,
            metadata: 0,
            prp1: 0,
            prp2: 0,
            cdw10: 0,
            cdw11: 0,
            cdw12: 0,
            cdw13: 0,
            cdw14: 0,
            cdw15: 0,
        }
    }
}

/// An NVMe controller in use: its registers, the admin and I/O queue pairs with where the
/// driver stands in them, the last command identifier used, and the namespace's geometry.
pub struct NvmeDevice {
    pub bar0: u64,
    pub doorbell_stride: u64,
    pub admin_sq: u64,
    pub admin_cq: u64,
    pub admin_sq_tail: usize,
    pub admin_cq_head: usize,
    pub admin_phase: bool,
    pub io_sq: u64,
    pub io_cq: u64,
    pub io_sq_tail: usize,
    pub io_cq_head: usize,
    pub io_phase: bool,
    pub command_id: u16,
    pub block_size: u32,
    pub block_count: u64,
}

/// Where a queue stands: the next slot to fill (submission) or to read (completion) lies
/// in the queue.
pub open spec fn queues_ok(d: &NvmeDevice) -> bool {
    &&& d.admin_sq_tail < QUEUE_SIZE
    &&& d.admin_cq_head < QUEUE_SIZE
    &&& d.io_sq_tail < QUEUE_SIZE
    &&& d.io_cq_head < QUEUE_SIZE
}

/// The outcome of looking at the completion entry at the head of a queue: not posted yet,
/// or posted with the controller's status (0 success) and result.
#[derive(Clone, Copy, PartialEq, Eq, Structural)]
pub enum Completion {
    Pending,
    Done { status: u16, result: u32 },
}

/// Reading completion entry with status field `status` and result `result` at queue head
/// `head` expecting phase `phase`: the entry is posted when its phase bit matches; then the
/// head moves on (wrapping to 0, where the expected phase flips) and its status code (bits
/// 1 to 11) is given.
pub open spec fn complete_spec(head: usize, phase: bool, status: u16, result: u32) -> (usize, bool, Completion) {
    if ((status % 2) == 1) == phase {
        let nh = ((head + 1) % QUEUE_SIZE as int) as usize;
        (nh, if nh == 0 { !phase } else { phase }, Completion::Done { status: ((status / 2) % 0x800) as u16, result })
    } else {
        (head, phase, Completion::Pending)
    }
}

/// Reads the completion entry at the head of a queue: see `complete_spec`.
pub fn complete(head: usize, phase: bool, status: u16, result: u32) -> (r: (usize, bool, Completion))
    requires
        head < QUEUE_SIZE,
    ensures
        r == complete_spec(head, phase, status, result),
        r.0 < QUEUE_SIZE,
{
    let entry_phase = status % 2 == 1;
    if entry_phase == phase {
        let code: u16 = (status / 2) % 0x800;
        let nh = (head + 1) % QUEUE_SIZE;
        let np = if nh == 0 { !phase } else { phase };
        (nh, np, Completion::Done { status: code, result })
    } else {
        (head, phase, Completion::Pending)
    }
}

/// How the pages of a transfer are described to the controller: the first page, then the
/// second page or, past two pages, a list of the others (which the caller fills); refused
/// for an empty transfer or one of more than 513 pages.
pub open spec fn prp_spec(pages: Seq<u64>) -> Result<(u64, Option<u64>, bool), &'static str> {
    if pages.len() > 513 {
        Err("transfer too large")
    } else if pages.len() == 0 {
        Err("empty page list")
    } else if pages.len() == 1 {
        Ok((pages[0], Some(0u64), false))
    } else if pages.len() == 2 {
        Ok((pages[0], Some(pages[1]), false))
    } else {
        Ok((pages[0], None, true))
    }
}

/// The first PRP entry, the second one (none when it must point to a list) and whether a
/// list of the pages after the first is needed: see `prp_spec`.
pub fn prp_plan(pages: &[u64]) -> (r: Result<(u64, Option<u64>, bool), &'static str>)
    ensures
        r == prp_spec(pages@),
{
    if pages.len() > 513 {
        return Err("transfer too large");
    }
    match pages.len() {
        0 => Err("empty page list"),
        1 => Ok((pages[0], Some(0u64), false)),
        2 => Ok((pages[0], Some(pages[1]), false)),
        _ => Ok((pages[0], None, true)),
    }
}

/// The read (`write` false, opcode 2) or write (opcode 1) command for `block_count` blocks
/// from `lba` of namespace 1, with data pointers `prp1` and `prp2`.
pub fn io_command(write: bool, lba: u64, block_count: u16, prp1: u64, prp2: u64) -> (r: SqEntry)
    requires
        block_count >= 1,
    ensures
        r.opcode == (if write { 1u8 } else { 2u8 }),
        r.nsid == 1,
        r.prp1 == prp1,
        r.prp2 == prp2,
        r.cdw10 == lba % 0x1_0000_0000,
        r.cdw11 == lba / 0x1_0000_0000,
        r.cdw12 == block_count - 1,
        r.flags == 0 && r.command_id == 0 && r.metadata == 0 && r.cdw13 == 0 && r.cdw14 == 0 && r.cdw15 == 0,
{
    let mut cmd = SqEntry::zeroed();
    cmd.opcode = if write { 1 } else { 2 };
    cmd.nsid = 1;
    cmd.prp1 = prp1;
    cmd.prp2 = prp2;
    cmd.cdw10 = (lba % 0x1_0000_0000) as u32;
    cmd.cdw11 = (lba / 0x1_0000_0000) as u32;
    cmd.cdw12 = (block_count - 1) as u32;
    cmd
}

impl NvmeDevice {
    /// The doorbell register of submission queue `qid`.
    pub fn sq_doorbell(&self, qid: u64) -> (r: u64)
        requires
            qid <= 0xFFFF,
            self.bar0 + 0x1000 + (2 * qid + 1) * self.doorbell_stride <= u64::MAX,
        ensures
            r == self.bar0 + 0x1000 + 2 * qid * self.doorbell_stride,
    {
        assert(2 * qid * self.doorbell_stride <= (2 * qid + 1) * self.doorbell_stride) by (nonlinear_arith);
        self.bar0 + 0x1000 + (2 * qid) * self.doorbell_stride
    }

    /// The doorbell register of completion queue `qid`.
    pub fn cq_doorbell(&self, qid: u64) -> (r: u64)
        requires
            qid <= 0xFFFF,
            self.bar0 + 0x1000 + (2 * qid + 1) * self.doorbell_stride <= u64::MAX,
        ensures
            r == self.bar0 + 0x1000 + (2 * qid + 1) * self.doorbell_stride,
    {
        self.bar0 + 0x1000 + (2 * qid + 1) * self.doorbell_stride
    }

    /// Takes the next command identifier (wrapping) and the slot of the admin (`io` false) or
    /// I/O submission queue it goes in; the queue's tail moves on, wrapping at its end.
    pub fn submit(&mut self, io: bool) -> (r: (u16, usize))
        requires
            queues_ok(old(self)),
        ensures
            queues_ok(final(self)),
            final(self).command_id == (old(self).command_id + 1) % 0x1_0000,
            r.0 == final(self).command_id,
            io ==> r.1 == old(self).io_sq_tail && final(self).io_sq_tail == (old(self).io_sq_tail + 1) % QUEUE_SIZE as int
                && final(self).admin_sq_tail == old(self).admin_sq_tail,
            !io ==> r.1 == old(self).admin_sq_tail && final(self).admin_sq_tail == (old(self).admin_sq_tail + 1) % QUEUE_SIZE as int
                && final(self).io_sq_tail == old(self).io_sq_tail,
            final(self).admin_cq_head == old(self).admin_cq_head && final(self).io_cq_head == old(self).io_cq_head,
            final(self).admin_phase == old(self).admin_phase && final(self).io_phase == old(self).io_phase,
    {
        self.command_id = self.command_id.wrapping_add(1);
        if io {
            let slot = self.io_sq_tail;
            self.io_sq_tail = (self.io_sq_tail + 1) % QUEUE_SIZE;
            (self.command_id, slot)
        } else {
            let slot = self.admin_sq_tail;
            self.admin_sq_tail = (self.admin_sq_tail + 1) % QUEUE_SIZE;
            (self.command_id, slot)
        }
    }
}

} // verus!
