use vstd::prelude::*;

verus! {

/// What the CPU reported about an exception.
pub struct ExceptionInfo {
    pub vector: u8,
    pub error_code: u64,
    pub address: u64,
}

/// The name of an exception vector.
pub open spec fn vector_label(vector: u8) -> Seq<char> {
    if vector == 0 {
        "Divide By Zero"@
    } else if vector == 1 {
        "Debug"@
    } else if vector == 2 {
        "Non-Maskable Interrupt"@
    } else if vector == 3 {
        "Breakpoint"@
    } else if vector == 4 {
        "Overflow"@
    } else if vector == 5 {
        "Bound Range Exceeded"@
    } else if vector == 6 {
        "Invalid Opcode"@
    } else if vector == 7 {
        "Device Not Available"@
    } else if vector == 8 {
        "Double Fault"@
    } else if vector == 10 {
        "Invalid TSS"@
    } else if vector == 11 {
        "Segment Not Present"@
    } else if vector == 12 {
        "Stack Segment Fault"@
    } else if vector == 13 {
        "General Protection Fault"@
    } else if vector == 14 {
        "Page Fault"@
    } else if vector == 16 {
        "x87 Floating Point"@
    } else if vector == 17 {
        "Alignment Check"@
    } else if vector == 18 {
        "Machine Check"@
    } else if vector == 19 {
        "SIMD Floating Point"@
    } else {
        "Unknown Exception"@
    }
}

/// Name of the CPU exception with number `vector`.
pub fn vector_name(vector: u8) -> (r: &'static str)
    ensures
        r@ == vector_label(vector),
{
    match vector {
        0 => "Divide By Zero",
        1 => "Debug",
        2 => "Non-Maskable Interrupt",
        3 => "Breakpoint",
        4 => "Overflow",
        5 => "Bound Range Exceeded",
        6 => "Invalid Opcode",
        7 => "Device Not Available",
        8 => "Double Fault",
        10 => "Invalid TSS",
        11 => "Segment Not Present",
        12 => "Stack Segment Fault",
        13 => "General Protection Fault",
        14 => "Page Fault",
        16 => "x87 Floating Point",
        17 => "Alignment Check",
        18 => "Machine Check",
        19 => "SIMD Floating Point",
        _ => "Unknown Exception",
    }
}

} // verus!
