use vstd::prelude::*;

verus! {

/// What the kernel takes from the ACPI tables: the local and I/O APIC addresses, the number
/// of processors, the PCI configuration area, the PM1a and PM1b control ports, and the DSDT.
pub struct AcpiInfo {
    pub local_apic_addr: u64,
    pub io_apic_addr: u64,
    pub cpu_count: usize,
    pub pci_config_addr: u64,
    pub pm1a_cnt_blk: u16,
    pub pm1b_cnt_blk: u16,
    pub dsdt: Vec<u8>,
}

impl AcpiInfo {
    /// What powering off through the S5 sleep state needs: the PM1a and PM1b control ports
    /// and the DSDT, when there is a PM1a port and a DSDT.
    pub fn s5_info(&self) -> (r: Option<(u16, u16, &[u8])>)
        ensures
            self.pm1a_cnt_blk != 0 && self.dsdt@.len() > 0 ==> (r matches Some((a, b, d))
                && a == self.pm1a_cnt_blk && b == self.pm1b_cnt_blk && d@ == self.dsdt@),
            !(self.pm1a_cnt_blk != 0 && self.dsdt@.len() > 0) ==> r is None,
    {
        if self.pm1a_cnt_blk != 0 && self.dsdt.len() > 0 {
            Some((self.pm1a_cnt_blk, self.pm1b_cnt_blk, self.dsdt.as_slice()))
        } else {
            None
        }
    }
}

/// Timer ticks between two frames of the boot animation.
pub const ANIM_TICK_BOL: u64 = 80;

/// The kernel's tick counts: all timer ticks, and the ticks of the boot animation while it
/// runs.
pub struct Ticks {
    pub sys_ticks: u64,
    pub anim_active: bool,
    pub anim_tick: u64,
}

/// One timer tick: the tick count goes up (wrapping); while the boot animation runs its own
/// count goes up too, and every `ANIM_TICK_BOL`th of its ticks (counted before the increment)
/// gives `true`, the next frame being due.
pub fn boot_anim_irq_tick(t: &mut Ticks) -> (r: bool)
    ensures
        final(t).sys_ticks == (old(t).sys_ticks + 1) % 0x1_0000_0000_0000_0000,
        final(t).anim_active == old(t).anim_active,
        !old(t).anim_active ==> !r && final(t).anim_tick == old(t).anim_tick,
        old(t).anim_active ==> final(t).anim_tick == (old(t).anim_tick + 1) % 0x1_0000_0000_0000_0000
            && r == (old(t).anim_tick % ANIM_TICK_BOL == 0),
{
    t.sys_ticks = t.sys_ticks.wrapping_add(1);
    if !t.anim_active {
        return false;
    }
    let prev = t.anim_tick;
    t.anim_tick = t.anim_tick.wrapping_add(1);
    prev % ANIM_TICK_BOL == 0
}

} // verus!
