use vstd::prelude::*;

verus! {

/// TRBs in a ring; the last one links back to the first.
pub const RING_TRBS: usize = 256;
/// TRB type of a link TRB.
pub const TRB_LINK: u32 = 6;
/// TRB control bit: cycle.
pub const TRB_C: u32 = 1;
/// TRB control bit: toggle cycle (link TRBs).
pub const TRB_TC: u32 = 2;

/// A transfer request block: a parameter, a status word and a control word.
#[derive(Clone, Copy)]
pub struct Trb {
    pub param: u64,
    pub status: u32,
    pub control: u32,
}

impl Trb {
    /// The TRB type (control bits 10..16).
    pub fn ttype(&self) -> (r: u32)
        ensures
            r == (self.control >> 10u32) & 0x3F,
    {
        (self.control >> 10u32) & 0x3F
    }

    /// The completion code (status bits 24..32).
    pub fn cc(&self) -> (r: u32)
        ensures
            r == (self.status >> 24u32) & 0xFF,
    {
        (self.status >> 24u32) & 0xFF
    }

    /// The slot (control bits 24..32).
    pub fn slot_id(&self) -> (r: u32)
        ensures
            r == (self.control >> 24u32) & 0xFF,
    {
        (self.control >> 24u32) & 0xFF
    }

    /// The endpoint (control bits 16..21).
    pub fn ep_id(&self) -> (r: u32)
        ensures
            r == (self.control >> 16u32) & 0x1F,
    {
        (self.control >> 16u32) & 0x1F
    }

    /// The bytes not transferred (status bits 0..24).
    pub fn resid(&self) -> (r: u32)
        ensures
            r == self.status & 0x00FF_FFFF,
    {
        self.status & 0x00FF_FFFF
    }
}

/// A producer ring in a page at `base`: the next slot to fill and the producer cycle state.
pub struct Ring {
    pub base: u64,
    pub enq: usize,
    pub cycle: bool,
}

/// The control word of the link TRB at the end of a ring: link type, toggle cycle, and the
/// cycle bit given.
pub open spec fn link_control(cycle: bool) -> u32 {
    (TRB_LINK << 10u32) | TRB_TC | (if cycle { TRB_C } else { 0 })
}

/// Where a TRB goes and what the producer writes: its address, its control word with the
/// cycle bit, and, when the ring wraps, the link TRB's new control word.
pub struct RingPush {
    pub addr: u64,
    pub control: u32,
    pub link: Option<u32>,
}

impl Ring {
    /// A fresh ring in the page at `base`: first slot, cycle state 1. The page must be zeroed
    /// and its last TRB made a link back to `base` (`link_control(true)`).
    pub fn new(base: u64) -> (r: Ring)
        ensures
            r.base == base,
            r.enq == 0,
            r.cycle,
    {
        Ring { base, enq: 0, cycle: true }
    }

    /// Back to the first slot with cycle state 1.
    pub fn reset(&mut self)
        ensures
            final(self).base == old(self).base,
            final(self).enq == 0,
            final(self).cycle,
    {
        self.enq = 0;
        self.cycle = true;
    }

    /// The slots usable for TRBs: all but the link TRB.
    pub open spec fn wf(&self) -> bool {
        self.enq < RING_TRBS - 1 && self.base + RING_TRBS * 16 <= u64::MAX
    }

    /// Places a TRB with control word `control`: it goes in the current slot with the current
    /// cycle bit; the ring moves on, and after the last usable slot the link TRB gets the
    /// current cycle bit, the cycle state flips and the ring starts over.
    pub fn push(&mut self, control: u32) -> (r: RingPush)
        requires
            old(self).wf(),
        ensures
            final(self).wf(),
            final(self).base == old(self).base,
            r.addr == old(self).base + old(self).enq * 16,
            r.control == control | (if old(self).cycle { TRB_C } else { 0 }),
            old(self).enq + 1 == RING_TRBS - 1 ==> r.link == Some(link_control(old(self).cycle))
                && final(self).enq == 0 && final(self).cycle == !old(self).cycle,
            old(self).enq + 1 < RING_TRBS - 1 ==> r.link is None && final(self).enq == old(self).enq + 1
                && final(self).cycle == old(self).cycle,
    {
        let addr = self.base + (self.enq * 16) as u64;
        let c = if self.cycle { TRB_C } else { 0 };
        let ctl = control | c;
        self.enq = self.enq + 1;
        if self.enq == RING_TRBS - 1 {
            let link = (TRB_LINK << 10u32) | TRB_TC | c;
            self.cycle = !self.cycle;
            self.enq = 0;
            return RingPush { addr, control: ctl, link: Some(link) };
        }
        RingPush { addr, control: ctl, link: None }
    }
}

/// The consumer side of an event ring: the next slot to read and the consumer cycle state.
pub struct EventRing {
    pub base: u64,
    pub deq: usize,
    pub cycle: bool,
    pub erdp: u64,
}

impl EventRing {
    /// Whether the slots stay inside the ring's page.
    pub open spec fn wf(&self) -> bool {
        self.deq < RING_TRBS && self.base + RING_TRBS * 16 <= u64::MAX
    }

    /// Address of the slot to read next.
    pub fn slot_addr(&self) -> (r: u64)
        requires
            self.wf(),
        ensures
            r == self.base + self.deq * 16,
    {
        self.base + (self.deq * 16) as u64
    }

    /// Takes the event whose control word is `control` if its cycle bit matches the consumer
    /// cycle state: the ring moves on (wrapping and flipping the state after the last slot)
    /// and the value to write to the dequeue pointer register is returned (the next slot's
    /// address with the busy bit); `None`, with nothing changed, when the slot holds no new
    /// event.
    pub fn consume(&mut self, control: u32) -> (r: Option<u64>)
        requires
            old(self).wf(),
        ensures
            final(self).wf(),
            final(self).base == old(self).base,
            final(self).erdp == old(self).erdp,
            ((control & 1) == 1) != old(self).cycle ==> r is None && *final(self) == *old(self),
            ((control & 1) == 1) == old(self).cycle ==> {
                let wrap = old(self).deq + 1 == RING_TRBS;
                &&& final(self).deq == (if wrap { 0 } else { old(self).deq + 1 })
                &&& final(self).cycle == (if wrap { !old(self).cycle } else { old(self).cycle })
                &&& r == Some(((old(self).base + final(self).deq * 16) as u64 & !0xFu64) | 8u64)
            },
    {
        if ((control & 1) == 1) != self.cycle {
            return None;
        }
        self.deq = self.deq + 1;
        if self.deq == RING_TRBS {
            self.deq = 0;
            self.cycle = !self.cycle;
        }
        let next = self.base + (self.deq * 16) as u64;
        Some((next & !0xFu64) | 8u64)
    }
}

/// The default maximum packet size of endpoint 0 for a port speed: 64 at high speed (3),
/// 512 at super speed (4), 8 otherwise.
pub fn ep0_max_for(speed: u8) -> (r: u16)
    ensures
        r == (if speed == 3 { 64u16 } else if speed == 4 { 512u16 } else { 8u16 }),
{
    match speed {
        3 => 64,
        4 => 512,
        _ => 8,
    }
}

/// The largest `k` with `2^k <= bi` (for `bi` at least 1).
pub open spec fn floor_log2(bi: nat) -> nat
    decreases bi,
{
    if bi < 2 {
        0
    } else {
        1 + floor_log2(bi / 2)
    }
}

/// The endpoint interval field for an interrupt endpoint: at full and low speed (1, 2) the
/// polling interval in frames turned into a power of two of 125 us units (`log2 + 3`); at
/// other speeds the exponent given, less one. An interval of 0 counts as 1.
pub fn interval_for(speed: u8, b_interval: u8) -> (r: u8)
    ensures
        ({
            let bi: nat = if b_interval == 0 { 1 } else { b_interval as nat };
            r == (if speed == 1 || speed == 2 { (floor_log2(bi) + 3) as u8 } else { (bi - 1) as u8 })
        }),
{
    let bi: u32 = if b_interval == 0 { 1 } else { b_interval as u32 };
    if speed == 1 || speed == 2 {
        let mut log: u32 = 0;
        let mut rest: u32 = bi;
        while rest >= 2
            invariant
                1 <= rest <= bi <= 255,
                log <= 8,
                floor_log2(bi as nat) == log + floor_log2(rest as nat),
            decreases rest,
        {
            proof {
                lemma_log_bound(bi as nat);
            }
            rest = rest / 2;
            log = log + 1;
        }
        (log + 3) as u8
    } else {
        (bi - 1) as u8
    }
}

proof fn lemma_log_mono(a: nat, b: nat)
    requires
        a <= b,
    ensures
        floor_log2(a) <= floor_log2(b),
    decreases b,
{
    if a >= 2 {
        lemma_log_mono(a / 2, b / 2);
    }
}

proof fn lemma_log_bound(n: nat)
    requires
        n <= 255,
    ensures
        floor_log2(n) <= 7,
{
    lemma_log_mono(n, 255);
    assert(floor_log2(255) == 7) by {
        reveal_with_fuel(floor_log2, 9);
    }
}

} // verus!
