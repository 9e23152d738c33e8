use vstd::prelude::*;

verus! {

/// A function found on the PCI bus, with its identification and class codes.
#[derive(Clone, Copy)]
pub struct PciDevice {
    pub bus: u8,
    pub device: u8,
    pub function: u8,
    pub vendor_id: u16,
    pub device_id: u16,
    pub class: u8,
    pub subclass: u8,
    pub prog_if: u8,
}

/// The name shown for a class and subclass.
pub open spec fn class_label(class: u8, subclass: u8) -> Seq<char> {
    if class == 0x01 && subclass == 0x06 {
        "SATA Controller (AHCI)"@
    } else if class == 0x01 && subclass == 0x08 {
        "NVMe Controller"@
    } else if class == 0x01 && subclass == 0x01 {
        "IDE Controller"@
    } else if class == 0x01 {
        "Storage Controller"@
    } else if class == 0x02 {
        "Network Controller"@
    } else if class == 0x03 {
        "Display Controller"@
    } else if class == 0x0C && subclass == 0x03 {
        "USB Controller"@
    } else if class == 0x06 {
        "Bridge"@
    } else {
        "Diger"@
    }
}

/// Human-readable name of a PCI class and subclass.
pub fn class_name(class: u8, subclass: u8) -> (r: &'static str)
    ensures
        r@ == class_label(class, subclass),
{
    match (class, subclass) {
        (0x01, 0x06) => "SATA Controller (AHCI)",
        (0x01, 0x08) => "NVMe Controller",
        (0x01, 0x01) => "IDE Controller",
        (0x01, _) => "Storage Controller",
        (0x02, _) => "Network Controller",
        (0x03, _) => "Display Controller",
        (0x0C, 0x03) => "USB Controller",
        (0x06, _) => "Bridge",
        _ => "Diger",
    }
}

/// Address of a configuration register in the memory-mapped (ECAM) configuration space whose
/// base is `base`.
pub fn config_addr(base: u64, bus: u8, dev: u8, func: u8, offset: u16) -> (r: u64)
    requires
        base + 0x2000_0000 <= u64::MAX,
    ensures
        r == base + bus as int * 0x10_0000 + dev as int * 0x8000 + func as int * 0x1000 + offset,
{
    let b = (bus as u64) << 20u64;
    let d = (dev as u64) << 15u64;
    let f = (func as u64) << 12u64;
    assert(b == bus as u64 * 0x10_0000 && d == dev as u64 * 0x8000 && f == func as u64 * 0x1000)
        by (bit_vector)
        requires
            b == (bus as u64) << 20u64,
            d == (dev as u64) << 15u64,
            f == (func as u64) << 12u64,
    ;
    assert(b <= 0xFF * 0x10_0000 && d <= 0xFF * 0x8000 && f <= 0xFF * 0x1000);
    base + b + d + f + offset as u64
}

/// Whether a BAR register describes a 64-bit memory BAR (type bits 2..1 are `10`).
pub open spec fn bar_is_64(low: u32) -> bool {
    (low / 2) % 4 == 2
}

/// The base address a BAR gives: its low register (and, for a 64-bit BAR, the next register
/// as the high half) with the four flag bits cleared.
pub fn bar_address(low: u32, high: u32) -> (r: u64)
    ensures
        r == if bar_is_64(low) {
            (high as int * 0x1_0000_0000 + low as int) - (low as int % 16)
        } else {
            low as int - (low as int % 16)
        },
{
    let wide = (low & 0b110) == 0b100;
    assert(wide == ((low / 2) % 4 == 2)) by (bit_vector)
        requires
            wide == ((low & 0b110) == 0b100),
    ;
    if wide {
        let v = (((high as u64) << 32u64) | (low as u64)) & !0xFu64;
        assert(v == (high as u64 * 0x1_0000_0000 + low as u64) - (low as u64 % 16)) by (bit_vector)
            requires
                v == (((high as u64) << 32u64) | (low as u64)) & !0xFu64,
        ;
        v
    } else {
        let v = (low as u64) & !0xFu64;
        assert(v == low as u64 - (low as u64 % 16)) by (bit_vector)
            requires
                v == (low as u64) & !0xFu64,
        ;
        v
    }
}

} // verus!
