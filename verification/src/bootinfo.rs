use vstd::prelude::*;

verus! {

/// The linear framebuffer the boot loader set up: its address, size in pixels, and pixels
/// per scan line.
#[derive(Clone, Copy)]
pub struct Framebuffer {
    pub base: u64,
    pub width: u64,
    pub height: u64,
    pub stride: u64,
}

/// A memory region as the boot loader reports it: first byte, length in pages, and whether
/// it is usable (1).
#[derive(Clone, Copy)]
pub struct MemoryRegion {
    pub start: u64,
    pub page_count: u64,
    pub usable: u64,
}

/// What the boot loader hands the kernel: the framebuffer, where the memory map is and how
/// many regions it has, the ACPI root pointer, and whether to start the installer.
#[derive(Clone, Copy)]
pub struct BootInfo {
    pub framebuffer: Framebuffer,
    pub memory_regions: u64,
    pub memory_region_count: u64,
    pub rsdp_addr: u64,
    pub rpe_mode: u64,
}

impl BootInfo {
    /// Whether the installer is to be started.
    pub fn is_rpe(&self) -> (r: bool)
        ensures
            r == (self.rpe_mode != 0),
    {
        self.rpe_mode != 0
    }
}

} // verus!
