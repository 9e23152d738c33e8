
use rusty_os::block::BlockDevice;
use rusty_os::memdisk::MemDisk;
use rusty_os::console::{bottom_bar, clear_all, clear_row, entry, text, title_bar, ConsoleOp, TextColor};
use rusty_os::gpt::{classify, decode_name, esp_of, mount_fat_smart, read_disk, FS_FAT};
use rusty_os::install::{install, plan, Progress};
use rusty_os::offset::PartitionDevice;


struct Quiet;

impl Progress for Quiet {
    fn report(&mut self, _step: usize, _pct: u32) {}
}

const EFI_GUID: [u8; 16] = [0x28, 0x73, 0x2A, 0xC1, 0x1F, 0xF8, 0xD2, 0x11, 0xBA, 0x4B, 0x00, 0xA0, 0xC9, 0x3E, 0xC9, 0x3B];
const MSDATA_GUID: [u8; 16] = [0xA2, 0xA0, 0xD0, 0xEB, 0xE5, 0xB9, 0x33, 0x44, 0x87, 0xC0, 0x68, 0xB6, 0xB7, 0x26, 0x99, 0xC7];

fn gpt_entry(guid: &[u8; 16], first: u64, last: u64, name: &str) -> Vec<u8> {
    let mut e = vec![0u8; 128];
    e[0..16].copy_from_slice(guid);
    e[32..40].copy_from_slice(&first.to_le_bytes());
    e[40..48].copy_from_slice(&last.to_le_bytes());
    for (i, c) in name.encode_utf16().enumerate() {
        e[56 + 2 * i..58 + 2 * i].copy_from_slice(&c.to_le_bytes());
    }
    e
}

/// A disk with a GUID partition table: an EFI system partition at 40, a data partition at
/// 2048 holding an installed system.
fn gpt_disk() -> MemDisk {
    let total: u64 = 2048 + 131072 + 64;
    let mut d = MemDisk::new(total);
    let mut hdr = vec![0u8; 512];
    hdr[0..8].copy_from_slice(b"EFI PART");
    hdr[72..80].copy_from_slice(&2u64.to_le_bytes());
    hdr[80..84].copy_from_slice(&4u32.to_le_bytes());
    hdr[84..88].copy_from_slice(&128u32.to_le_bytes());
    d.write_block(1, &hdr).unwrap();
    let mut ents = vec![0u8; 512];
    ents[0..128].copy_from_slice(&gpt_entry(&EFI_GUID, 40, 2047, "EFI system"));
    ents[128..256].copy_from_slice(&gpt_entry(&MSDATA_GUID, 2048, 2048 + 131071, "Rusty"));
    d.write_block(2, &ents).unwrap();
    let mut part = PartitionDevice::new(1, 2048, 131072, d);
    let boot = vec![1u8; 2000];
    let kernel = vec![2u8; 5000];
    let core = vec![3u8; 2000];
    install::<PartitionDevice<MemDisk>, MemDisk, Quiet>(&mut part, 131072, None, &boot, &kernel, &core, &mut Quiet)
        .unwrap();
    part.disk
}

#[test]
fn gpt_layout_lists_partitions() {
    let mut d = gpt_disk();
    let total = d.count;
    let layout = read_disk(&mut d, total);
    assert!(layout.has_gpt);
    assert_eq!(layout.partitions.len(), 2);
    let p = &layout.partitions[1];
    assert_eq!((p.index, p.first_lba, p.last_lba, p.sectors), (2, 2048, 2048 + 131071, 131072));
    assert_eq!(p.name, b"Rusty".to_vec());
    assert_eq!(p.fs_kind, FS_FAT);
    assert_eq!((p.label, p.protected), ("FAT32 (bos)", false));
    assert_eq!(layout.partitions[0].label, "EFI Sistem");
    assert_eq!(esp_of(&layout), Some((40, 2008)));
}

#[test]
fn mount_finds_labelled_partition() {
    let d = gpt_disk();
    let total = d.count;
    let fs = match mount_fat_smart(1, 512, total, d) {
        Ok(fs) => fs,
        Err(_) => panic!("no system volume"),
    };
    assert_eq!(fs.dev.start_lba, 2048);
    assert_eq!(fs.dev.sectors, 131072);
    assert_eq!(fs.fat.fat_size_sectors, plan(131072).fat_size);
    assert!(mount_fat_smart(1, 4096, total, fs.dev.disk).is_err());
}

#[test]
fn mount_whole_disk_without_table() {
    let mut d = MemDisk::new(131072);
    install::<MemDisk, MemDisk, Quiet>(&mut d, 131072, None, &vec![1u8; 2000], &vec![2u8; 5000], &vec![3u8; 2000], &mut Quiet)
        .unwrap();
    let fs = match mount_fat_smart(0, 512, 131072, d) {
        Ok(fs) => fs,
        Err(_) => panic!("no volume"),
    };
    assert_eq!((fs.dev.start_lba, fs.dev.sectors), (0, 131072));
    let blank = MemDisk::new(100);
    assert!(mount_fat_smart(0, 512, 100, blank).is_err());
}

#[test]
fn partition_names_and_types() {
    let raw: Vec<u8> = vec![b'A', 0, 0xE9, 0, b'b', 0, 0, 0, b'c', 0];
    assert_eq!(decode_name(&raw), b"A?b".to_vec());
    assert_eq!(classify(&EFI_GUID, 0), ("EFI Sistem", true));
    assert_eq!(classify(&MSDATA_GUID, 2), ("Windows (NTFS)", true));
    assert_eq!(classify(&MSDATA_GUID, 3), ("Bos (Basic)", false));
    assert_eq!(classify(&[7u8; 16], 1), ("Bilinmeyen", true));
}

fn put_of(op: &ConsoleOp) -> Option<(usize, usize, Vec<u8>)> {
    match op {
        ConsoleOp::Put { col, row, text } => Some((*col, *row, text.clone())),
        _ => None,
    }
}

fn is_color(op: &ConsoleOp, f: TextColor, b: TextColor) -> bool {
    matches!(op, ConsoleOp::SetColor { fg, bg } if *fg == f && *bg == b)
}

#[test]
fn console_bars() {
    let t = title_bar(80, 1, b"Rusty Boot Manager");
    assert_eq!(t.len(), 4);
    assert!(is_color(&t[0], TextColor::Black, TextColor::LightGray));
    assert_eq!(put_of(&t[1]), Some((1, 1, vec![b' '; 78])));
    assert_eq!(put_of(&t[2]), Some((31, 1, b"Rusty Boot Manager".to_vec())));
    assert!(is_color(&t[3], TextColor::LightGray, TextColor::Black));

    let b = bottom_bar(80, 23, b"ENTER=Select", b"TAB=Menu", b"ESC=Cancel");
    assert_eq!(put_of(&b[2]), Some((3, 23, b"ENTER=Select".to_vec())));
    assert_eq!(put_of(&b[3]), Some((36, 23, b"TAB=Menu".to_vec())));
    assert_eq!(put_of(&b[4]), Some((67, 23, b"ESC=Cancel".to_vec())));

    let e = entry(80, 6, b"Rusty OS", true);
    assert_eq!(put_of(&e[3]), Some((75, 6, b">".to_vec())));
    let e = entry(80, 6, b"Rusty OS", false);
    assert_eq!(e.len(), 4);
    assert_eq!(put_of(&e[2]), Some((5, 6, b"Rusty OS".to_vec())));

    let narrow = title_bar(1, 0, b"abc");
    assert_eq!(put_of(&narrow[1]), Some((1, 0, Vec::new())));
    assert_eq!(put_of(&narrow[2]), Some((1, 0, b"abc".to_vec())));

    assert_eq!(put_of(&clear_row(10, 4)[1]), Some((0, 4, vec![b' '; 10])));
    assert!(matches!(clear_all()[1], ConsoleOp::Clear));
    assert_eq!(put_of(&text(2, 3, b"hi")[1]), Some((2, 3, b"hi".to_vec())));
}
