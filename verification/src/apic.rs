use vstd::prelude::*;

verus! {

/// Offset of the I/O APIC's register-select window.
pub const IOREGSEL: usize = 0x00;
/// Offset of the I/O APIC's data window.
pub const IOWIN: usize = 0x10;
/// First redirection-table register of the I/O APIC.
pub const IOREDTBL: u32 = 0x10;

/// Local APIC registers.
pub const LAPIC_EOI: usize = 0x00B0;
pub const LAPIC_SPURIOUS: usize = 0x00F0;
pub const LAPIC_TIMER: usize = 0x0320;
pub const LAPIC_TIMER_DIV: usize = 0x03E0;
pub const LAPIC_TIMER_INIT: usize = 0x0380;

/// An I/O APIC at a (mapped) base address.
pub struct IoApic {
    pub base_addr: usize,
}

impl IoApic {
    /// The I/O APIC at `base_addr`.
    pub fn new(base_addr: usize) -> (r: Self)
        ensures
            r.base_addr == base_addr,
    {
        IoApic { base_addr }
    }

    /// Addresses of the register-select and data windows.
    pub fn windows(&self) -> (r: (usize, usize))
        requires
            self.base_addr + IOWIN <= usize::MAX,
        ensures
            r.0 == self.base_addr + IOREGSEL && r.1 == self.base_addr + IOWIN,
    {
        (self.base_addr + IOREGSEL, self.base_addr + IOWIN)
    }

    /// The register writes that route interrupt line `irq` to `vector`: the entry's high
    /// half (destination) is cleared first, then its low half takes the vector (fixed
    /// delivery, unmasked).
    pub fn route(&self, irq: u32, vector: u8) -> (r: [(u32, u32); 2])
        requires
            IOREDTBL + irq * 2 + 1 <= u32::MAX,
        ensures
            r@ == seq![((IOREDTBL + irq * 2 + 1) as u32, 0u32), ((IOREDTBL + irq * 2) as u32, vector as u32)],
    {
        let low_reg = IOREDTBL + irq * 2;
        let high_reg = low_reg + 1;
        let r = [(high_reg, 0u32), (low_reg, vector as u32)];
        assert(r@ =~= seq![((IOREDTBL + irq * 2 + 1) as u32, 0u32), ((IOREDTBL + irq * 2) as u32, vector as u32)]);
        r
    }
}

/// The port writes that remap and then mask both legacy interrupt controllers: start the
/// initialisation, set the vector bases (0x20, 0x28), the cascade wiring and 8086 mode, then
/// mask every line.
pub fn disable_pic_writes() -> (r: [(u16, u8); 10])
    ensures
        r@ == seq![(0x20u16, 0x11u8), (0xA0u16, 0x11u8), (0x21u16, 0x20u8), (0xA1u16, 0x28u8),
            (0x21u16, 0x04u8), (0xA1u16, 0x02u8), (0x21u16, 0x01u8), (0xA1u16, 0x01u8),
            (0x21u16, 0xFFu8), (0xA1u16, 0xFFu8)],
{
    let r = [(0x20u16, 0x11u8), (0xA0u16, 0x11u8), (0x21u16, 0x20u8), (0xA1u16, 0x28u8),
        (0x21u16, 0x04u8), (0xA1u16, 0x02u8), (0x21u16, 0x01u8), (0xA1u16, 0x01u8),
        (0x21u16, 0xFFu8), (0xA1u16, 0xFFu8)];
    assert(r@ =~= seq![(0x20u16, 0x11u8), (0xA0u16, 0x11u8), (0x21u16, 0x20u8), (0xA1u16, 0x28u8),
        (0x21u16, 0x04u8), (0xA1u16, 0x02u8), (0x21u16, 0x01u8), (0xA1u16, 0x01u8),
        (0x21u16, 0xFFu8), (0xA1u16, 0xFFu8)]);
    r
}

/// A local APIC at a (mapped) base address.
pub struct Lapic {
    pub base_addr: usize,
}

impl Lapic {
    /// The local APIC at `base_addr`.
    pub fn new(base_addr: usize) -> (r: Self)
        ensures
            r.base_addr == base_addr,
    {
        Lapic { base_addr }
    }

    /// Address of register `reg`.
    pub fn reg_addr(&self, reg: usize) -> (r: usize)
        requires
            self.base_addr + reg <= usize::MAX,
        ensures
            r == self.base_addr + reg,
    {
        self.base_addr + reg
    }

    /// The spurious-vector register value that enables the APIC: the enable bit and vector
    /// 0xFF set on what it held.
    pub fn enable_value(spurious: u32) -> (r: u32)
        ensures
            r == (spurious | 0x100u32) | 0xFFu32,
    {
        spurious | 0x100 | 0xFF
    }

    /// The register writes that acknowledge an interrupt.
    pub fn eoi_write() -> (r: (usize, u32))
        ensures
            r == (LAPIC_EOI, 0u32),
    {
        (LAPIC_EOI, 0)
    }

    /// The register writes that start the timer: divide by 16, periodic mode on vector 0x20,
    /// then the initial count.
    pub fn timer_writes(initial_count: u32) -> (r: [(usize, u32); 3])
        ensures
            r@ == seq![(LAPIC_TIMER_DIV, 3u32), (LAPIC_TIMER, 0x20020u32), (LAPIC_TIMER_INIT, initial_count)],
    {
        let r = [(LAPIC_TIMER_DIV, 3u32), (LAPIC_TIMER, 0x20020u32), (LAPIC_TIMER_INIT, initial_count)];
        assert(r@ =~= seq![(LAPIC_TIMER_DIV, 3u32), (LAPIC_TIMER, 0x20020u32), (LAPIC_TIMER_INIT, initial_count)]);
        r
    }
}

} // verus!
