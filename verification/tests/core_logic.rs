use rusty_os::bootmenu::{Menu, MenuKey, MenuOutcome};
use rusty_os::bytes::{bytes_eq_ignore_case, get_le32, put_le32};
use rusty_os::dualboot::{name_text, path_text, plan_entries, BootPath, EntryName, VolumeProbe};
use rusty_os::elf::{load_plan, parse_header};
use rusty_os::panic_info::vector_name;
use rusty_os::pci::{bar_address, class_name, config_addr};
use rusty_os::power::find_s5;
use rusty_os::rtc::{bcd_to_bin, days_in_month, is_leap, local_time};
use rusty_os::syscall::{decode_syscall, setting_value, BufferCall, Syscall};
use rusty_os::text::{parse_u32_range, push_decimal, push_decimal64};

#[test]
fn le32_round_trip() {
    let mut b = vec![0u8; 8];
    put_le32(&mut b, 2, 0xA1B2C3D4);
    assert_eq!(b, vec![0, 0, 0xD4, 0xC3, 0xB2, 0xA1, 0, 0]);
    assert_eq!(get_le32(&b, 2), 0xA1B2C3D4);
}

#[test]
fn ignore_case_compare() {
    assert!(bytes_eq_ignore_case(b"RsYs", b"rsys"));
    assert!(!bytes_eq_ignore_case(b"RSYS", b"RSY"));
    assert!(!bytes_eq_ignore_case(b"RSYS", b"RSYT"));
}

#[test]
fn decimal_text() {
    let mut out = b"n=".to_vec();
    push_decimal(&mut out, 40213);
    assert_eq!(out, b"n=40213".to_vec());
    let mut z = Vec::new();
    push_decimal64(&mut z, 0);
    assert_eq!(z, b"0".to_vec());
    assert_eq!(parse_u32_range(b"x4096y", 1, 5), Some(4096));
    assert_eq!(parse_u32_range(b"4294967296", 0, 10), None);
    assert_eq!(parse_u32_range(b"12a", 0, 3), None);
}

#[test]
fn clock_conversion() {
    assert_eq!(bcd_to_bin(0x59), 59);
    assert!(is_leap(2000));
    assert!(!is_leap(1900));
    assert!(is_leap(2024));
    assert_eq!(days_in_month(2, 2023), 28);
    assert_eq!(days_in_month(2, 2024), 29);
    assert_eq!(days_in_month(13, 2024), 30);
    // 31 Dec 2023 22:15:30 UTC, BCD registers: three hours ahead is 1 Jan 2024 01:15:30.
    let r = local_time((0x30, 0x15, 0x22, 0x31, 0x12, 0x23), 0);
    assert_eq!(r, (1, 15, 30, 1, 1, 24));
    // Binary registers (status bit 2 set): 10:05:07 on 3 Mar 2025 becomes 13:05:07.
    let r = local_time((7, 5, 10, 3, 3, 25), 0x04);
    assert_eq!(r, (13, 5, 7, 3, 3, 25));
}

#[test]
fn syscall_numbers() {
    assert!(decode_syscall(1, 0, 0) == Syscall::Exit);
    assert!(decode_syscall(5, 1, 0) == Syscall::Power { reboot: true });
    assert!(decode_syscall(5, 0, 0) == Syscall::Power { reboot: false });
    assert!(decode_syscall(7, 0x1_0000_00FF, 0) == Syscall::SetDesktopColor { color: 0xFF });
    assert!(decode_syscall(19, 5, 6) == Syscall::Buffer { call: BufferCall::PlayFile, ptr: 5, len: 6 });
    assert!(decode_syscall(8, 1, 2) == Syscall::Buffer { call: BufferCall::ListDir, ptr: 1, len: 2 });
    assert!(decode_syscall(99, 0, 0) == Syscall::Unknown);
    assert_eq!(setting_value((10, 20, 30), 1), 20);
    assert_eq!(setting_value((10, 20, 30), 3), 0);
}

#[test]
fn exception_names() {
    assert_eq!(vector_name(14), "Page Fault");
    assert_eq!(vector_name(9), "Unknown Exception");
}

#[test]
fn pci_helpers() {
    assert_eq!(class_name(0x01, 0x06), "SATA Controller (AHCI)");
    assert_eq!(class_name(0x01, 0x07), "Storage Controller");
    assert_eq!(config_addr(0xE000_0000, 1, 2, 3, 0x10), 0xE000_0000 + 0x10_0000 + 0x1_0000 + 0x3000 + 0x10);
    assert_eq!(bar_address(0xFEBF_1004, 0x1), 0x1_FEBF_1000);
    assert_eq!(bar_address(0xFEBF_1001, 0x1), 0xFEBF_1000);
}

#[test]
fn s5_package() {
    let d: Vec<u8> = vec![0, 0, b'_', b'S', b'5', b'_', 0x12, 0x06, 0x04, 0x0A, 0x05, 0x07, 0, 0, 0];
    assert_eq!(find_s5(&d), Some((5, 7)));
    let none: Vec<u8> = vec![0u8; 20];
    assert_eq!(find_s5(&none), None);
}

fn elf_header() -> [u8; 64] {
    let mut h = [0u8; 64];
    h[0] = 0x7f;
    h[1] = b'E';
    h[2] = b'L';
    h[3] = b'F';
    h[4] = 2;
    h[18] = 0x3e;
    h[24..32].copy_from_slice(&0x10_0000u64.to_le_bytes());
    h[32..40].copy_from_slice(&64u64.to_le_bytes());
    h[54..56].copy_from_slice(&56u16.to_le_bytes());
    h[56..58].copy_from_slice(&2u16.to_le_bytes());
    h
}

#[test]
fn elf_header_fields() {
    let h = elf_header();
    let e = parse_header(&h).unwrap();
    assert_eq!(e.entry, 0x10_0000);
    assert_eq!(e.phoff, 64);
    assert_eq!(e.phentsize, 56);
    assert_eq!(e.phnum, 2);
    let mut bad = h;
    bad[18] = 0x28;
    assert!(parse_header(&bad).is_none());
    let mut bad = h;
    bad[4] = 1;
    assert!(parse_header(&bad).is_none());
}

#[test]
fn elf_load_plan() {
    let mut t = vec![0u8; 112];
    t[0..4].copy_from_slice(&1u32.to_le_bytes());
    t[8..16].copy_from_slice(&0x1000u64.to_le_bytes());
    t[24..32].copy_from_slice(&0x20_0123u64.to_le_bytes());
    t[32..40].copy_from_slice(&0x10u64.to_le_bytes());
    t[40..48].copy_from_slice(&0x2000u64.to_le_bytes());
    t[56..60].copy_from_slice(&2u32.to_le_bytes());
    let plan = load_plan(&t, 56, 2);
    assert_eq!(plan.len(), 1);
    let s = plan[0];
    assert_eq!(s.offset, 0x1000);
    assert_eq!(s.paddr, 0x20_0123);
    assert_eq!(s.filesz, 0x10);
    assert_eq!(s.memsz, 0x2000);
    assert_eq!(s.page_base, 0x20_0000);
    assert_eq!(s.pages, 3);
}

fn probe(volume: usize) -> VolumeProbe {
    VolumeProbe {
        volume,
        is_boot: false,
        kernel_elf: false,
        rsys_kernel: false,
        windows: false,
        ubuntu: false,
        generic_efi: false,
    }
}

#[test]
fn boot_entries_order() {
    let vols = vec![
        VolumeProbe { rsys_kernel: true, ..probe(0) },
        VolumeProbe { is_boot: true, kernel_elf: true, ..probe(1) },
        VolumeProbe { windows: true, generic_efi: true, ..probe(2) },
        VolumeProbe { generic_efi: true, ..probe(3) },
        VolumeProbe { generic_efi: true, ubuntu: true, ..probe(4) },
        VolumeProbe { generic_efi: true, ..probe(5) },
        VolumeProbe { rsys_kernel: true, windows: true, ..probe(6) },
        VolumeProbe { is_boot: true, windows: true, ..probe(7) },
    ];
    let es = plan_entries(&vols);
    let got: Vec<(EntryName, BootPath, usize)> = es.iter().map(|e| (e.name, e.path, e.volume)).collect();
    let want = vec![
        (EntryName::RustyOs, BootPath::KernelElf, 1),
        (EntryName::RustyDisk(1), BootPath::RsysKernel, 0),
        (EntryName::Windows, BootPath::Windows, 2),
        (EntryName::UefiOs(1), BootPath::GenericEfi, 3),
        (EntryName::Ubuntu, BootPath::Ubuntu, 4),
        (EntryName::UefiOs(2), BootPath::GenericEfi, 5),
        (EntryName::RustyDisk(2), BootPath::RsysKernel, 6),
    ];
    assert!(got == want);
    assert!(plan_entries(&[]).is_empty());
}

#[test]
fn boot_entry_texts() {
    assert_eq!(name_text(EntryName::RustyDisk(2)), b"Rusty OS - Yerel Disk 2".to_vec());
    assert_eq!(name_text(EntryName::UefiOs(11)), b"UEFI Operating System 11".to_vec());
    assert_eq!(name_text(EntryName::RustyOs), b"Rusty OS".to_vec());
    assert_eq!(path_text(BootPath::RsysKernel), "RSYS\\KERNEL.ELF");
    assert_eq!(path_text(BootPath::Windows), "EFI\\Microsoft\\Boot\\bootmgfw.efi");
}

#[test]
fn boot_menu_times_out_on_first_entry() {
    let mut m = Menu::new(3);
    for _ in 0..199 {
        let o = m.idle();
        assert!(matches!(o, MenuOutcome::Continue { .. }));
    }
    assert!(m.idle() == MenuOutcome::Boot(0));
}

#[test]
fn boot_menu_keys() {
    let mut m = Menu::new(2);
    assert!(m.key(MenuKey::Down) == MenuOutcome::Continue { entries: true, countdown: true });
    assert_eq!(m.sel, 1);
    assert!(m.countdown.is_none());
    assert!(m.key(MenuKey::Down) == MenuOutcome::Continue { entries: true, countdown: false });
    assert!(m.tool_focus);
    assert!(m.key(MenuKey::Enter) == MenuOutcome::Memtest);
    assert!(m.key(MenuKey::Escape) == MenuOutcome::Continue { entries: true, countdown: false });
    assert!(m.key(MenuKey::Enter) == MenuOutcome::Boot(1));
    // Once a key was pressed the countdown is gone: idling never starts anything.
    for _ in 0..400 {
        assert!(m.idle() == MenuOutcome::Continue { entries: false, countdown: false });
    }
}
