
use rusty_os::block::BlockDevice;
use rusty_os::memdisk::MemDisk;
use rusty_os::esp::install_bootloader;
use rusty_os::fat32::{DirEntry, Fat32};
use rusty_os::file::{File, SeekFrom};
use rusty_os::vfs::Fat32Node;
use rusty_os::fsops::{find_named, walk_dir};
use rusty_os::install::{build_boot_sector, build_fsinfo, install, plan, Fmt, Progress};
use rusty_os::recovery::{check, repair, Missing};
use rusty_os::regdisk::{find_reg_cluster, load, padded_registry, save, set_u32};
use rusty_os::registry::{RegData, Registry};


struct Steps {
    seen: Vec<(usize, u32)>,
}

impl Progress for Steps {
    fn report(&mut self, step: usize, pct: u32) {
        self.seen.push((step, pct));
    }
}

const SECTORS: u32 = 131072;

fn payloads() -> (Vec<u8>, Vec<u8>, Vec<u8>) {
    let boot: Vec<u8> = (0..3000u32).map(|i| (i % 251) as u8).collect();
    let kernel: Vec<u8> = (0..9000u32).map(|i| (i % 253) as u8).collect();
    let core: Vec<u8> = (0..5000u32).map(|i| (i % 241) as u8).collect();
    (boot, kernel, core)
}

fn installed() -> MemDisk {
    let mut d = MemDisk::new(SECTORS as u64);
    let (boot, kernel, core) = payloads();
    let mut p = Steps { seen: Vec::new() };
    install::<MemDisk, MemDisk, Steps>(&mut d, SECTORS, None, &boot, &kernel, &core, &mut p).unwrap();
    assert_eq!(p.seen.last(), Some(&(4, 100)));
    d
}

fn entry<'a>(es: &'a Vec<DirEntry>, name: &[u8], kind: u8) -> &'a DirEntry {
    let i = find_named(es, name, kind).expect("entry present");
    &es[i]
}

fn read_in(fat: &Fat32, d: &mut MemDisk, dir: &[u8], name: &[u8]) -> Option<Vec<u8>> {
    let c = walk_dir(fat, d, dir).ok()?;
    let es = fat.list_dir(d, c).ok()?;
    let i = find_named(&es, name, 2)?;
    fat.read_file(d, &es[i]).ok()
}

#[test]
fn installed_volume_mounts_with_planned_geometry() {
    let mut d = installed();
    let g = plan(SECTORS);
    assert_eq!(d.block(0), build_boot_sector(&g));
    assert_eq!(d.block(6), build_boot_sector(&g));
    assert_eq!(d.block(1), build_fsinfo());
    assert_eq!(d.block(7), build_fsinfo());
    let fat = Fat32::new(&mut d).unwrap();
    assert_eq!(fat.bytes_per_sector, 512);
    assert_eq!(fat.sectors_per_cluster, g.spc);
    assert_eq!(fat.num_fats, 2);
    assert_eq!(fat.fat_size_sectors, g.fat_size);
    assert_eq!(fat.root_cluster, 2);
    assert_eq!(fat.fat_start_lba, 32);
    assert_eq!(fat.data_start_lba, g.data_start);
}

#[test]
fn plan_picks_cluster_size() {
    assert_eq!(plan(131072).spc, 8);
    assert_eq!(plan(0x0030_0000).spc, 16);
    assert_eq!(plan(100).total_sectors, 8192);
    let g = plan(131072);
    assert_eq!((g.fat_size, g.data_start, g.total_sectors), (128, 288, 131072));
}

#[test]
fn installed_files_read_back() {
    let mut d = installed();
    let (boot, kernel, core) = payloads();
    let fat = Fat32::new(&mut d).unwrap();
    let root = fat.list_root(&mut d).unwrap();
    assert!(entry(&root, b"rsys", 1).is_dir);
    assert!(entry(&root, b"APPS", 1).is_dir);
    let k = entry(&root, b"kernel.elf", 2);
    assert_eq!(k.size as usize, kernel.len());
    assert_eq!(fat.read_file(&mut d, k).unwrap(), kernel);
    assert_eq!(read_in(&fat, &mut d, b"RSYS", b"CORE.BIN"), Some(core));
    assert_eq!(read_in(&fat, &mut d, b"RSYS", b"KERNEL.ELF"), Some(kernel));
    assert_eq!(read_in(&fat, &mut d, b"EFI/BOOT", b"BOOTX64.EFI"), Some(boot));
    assert!(walk_dir(&fat, &mut d, b"EFI/NOPE").is_err());
}

#[test]
fn install_refuses_small_payloads() {
    let mut d = MemDisk::new(SECTORS as u64);
    let (boot, _kernel, core) = payloads();
    let mut p = Steps { seen: Vec::new() };
    let small = vec![1u8; 100];
    assert!(install::<MemDisk, MemDisk, Steps>(&mut d, SECTORS, None, &boot, &small, &core, &mut p).is_err());
    assert!(d.blocks.is_empty());
}

#[test]
fn registry_loads_from_installed_volume() {
    let mut d = installed();
    let fat = Fat32::new(&mut d).unwrap();
    let mut reg = Registry::new();
    let c = load(&mut reg, &fat, &mut d).unwrap();
    assert_eq!(find_reg_cluster(&fat, &mut d), Ok(c));
    assert!(matches!(reg.get(b"Sistem/Ad"), Some(RegData::Str(s)) if s == b"Rusty OS".to_vec()));
    assert_eq!(reg.get_u32(b"Sistem/Masaustu/Renk", 0), 5249032);
    assert_eq!(reg.get_u32(b"Sistem/Yok", 77), 77);
}

#[test]
fn registry_save_then_load_gives_same_entries() {
    let mut d = installed();
    let fat = Fat32::new(&mut d).unwrap();
    let mut reg = Registry::new();
    let mut cluster = load(&mut reg, &fat, &mut d).unwrap();
    let cache = set_u32(&mut reg, b"Sistem/Masaustu/Renk", 0x123456, &fat, &mut d, &mut cluster);
    assert_eq!(cache.0, 0x123456);
    reg.set(b"Kullanicilar/User/Yetki", RegData::U32(1));
    save(&reg, &fat, &mut d, &mut cluster).unwrap();
    let mut again = Registry::new();
    load(&mut again, &fat, &mut d).unwrap();
    assert_eq!(again.serialize(), reg.serialize());
    assert_eq!(again.get_u32(b"Sistem/Masaustu/Renk", 0), 0x123456);
    let text = padded_registry(&reg).unwrap();
    assert_eq!(text.len(), 4096);
    assert_eq!(text[4095], b'\n');
}

#[test]
fn fresh_install_misses_nothing() {
    let mut d = installed();
    let fat = Fat32::new(&mut d).unwrap();
    assert!(check(&fat, &mut d).is_empty());
}

#[test]
fn empty_volume_misses_both_system_files() {
    let mut d = MemDisk::new(SECTORS as u64);
    let f = Fmt::new(plan(SECTORS));
    f.format(&mut d, &mut Steps { seen: Vec::new() }).unwrap();
    let fat = Fat32::new(&mut d).unwrap();
    let m = check(&fat, &mut d);
    assert!(m == vec![Missing::Registry, Missing::CoreBin]);
}

#[test]
fn repair_restores_missing_files() {
    let mut d = MemDisk::new(SECTORS as u64);
    let f = Fmt::new(plan(SECTORS));
    f.format(&mut d, &mut Steps { seen: Vec::new() }).unwrap();
    let fat = Fat32::new(&mut d).unwrap();
    let reg_text = vec![b'\n'; 4096];
    let core: Vec<u8> = (0..7000u32).map(|i| (i % 199) as u8).collect();
    assert!(repair(&[Missing::Registry, Missing::CoreBin], &fat, &mut d, &reg_text, &core));
    assert!(check(&fat, &mut d).is_empty());
    assert_eq!(read_in(&fat, &mut d, b"RSYS", b"CORE.BIN"), Some(core));
    assert_eq!(read_in(&fat, &mut d, b"rsys", b"registry.dat"), Some(reg_text));
}

#[test]
fn repair_of_user_folders_reports_long_names() {
    let mut d = MemDisk::new(SECTORS as u64);
    let f = Fmt::new(plan(SECTORS));
    f.format(&mut d, &mut Steps { seen: Vec::new() }).unwrap();
    let fat = Fat32::new(&mut d).unwrap();
    // "Documents" and "Downloads" have no 8.3 name, so those two folders cannot be made.
    assert!(!repair(&[Missing::DirDesktop], &fat, &mut d, b"", b""));
    assert!(walk_dir(&fat, &mut d, b"RSYS").is_ok());
    assert!(walk_dir(&fat, &mut d, b"Users/Shared").is_ok());
    assert!(walk_dir(&fat, &mut d, b"Users/User/Desktop").is_ok());
    assert!(walk_dir(&fat, &mut d, b"Users/User/Documents").is_err());
}

#[test]
fn repair_replaces_an_existing_file() {
    let mut d = installed();
    let fat = Fat32::new(&mut d).unwrap();
    let core: Vec<u8> = vec![7u8; 1500];
    assert!(repair(&[Missing::CoreBin], &fat, &mut d, b"", &core));
    assert_eq!(read_in(&fat, &mut d, b"RSYS", b"CORE.BIN"), Some(core));
    let rsys = walk_dir(&fat, &mut d, b"RSYS").unwrap();
    let es = fat.list_dir(&mut d, rsys).unwrap();
    let n = es.iter().filter(|e| e.name.eq_ignore_ascii_case(b"CORE.BIN")).count();
    assert_eq!(n, 1);
}

#[test]
fn repair_without_core_image_fails() {
    let mut d = installed();
    let fat = Fat32::new(&mut d).unwrap();
    assert!(!repair(&[Missing::CoreBin], &fat, &mut d, b"", &[]));
}

#[test]
fn repair_with_nothing_missing_writes_nothing() {
    let mut d = installed();
    let fat = Fat32::new(&mut d).unwrap();
    let before = d.blocks.clone();
    assert!(repair(&[], &fat, &mut d, b"", b"core"));
    assert!(d.blocks == before);
}

#[test]
fn small_volume_is_no_system_partition() {
    let mut d = MemDisk::new(SECTORS as u64);
    let f = Fmt::new(plan(SECTORS));
    f.format(&mut d, &mut Steps { seen: Vec::new() }).unwrap();
    assert_eq!(install_bootloader(&mut d, b"boot"), Err("ESP: FAT32 is invalid (low cluster number)"));
}

#[test]
fn bootloader_goes_to_both_paths() {
    // An EFI system partition must have at least 65525 clusters.
    let mut d = MemDisk::new(600_000);
    let f = Fmt::new(plan(600_000));
    f.format(&mut d, &mut Steps { seen: Vec::new() }).unwrap();
    let boot: Vec<u8> = (0..2500u32).map(|i| (i % 97) as u8).collect();
    assert_eq!(install_bootloader(&mut d, &boot), Ok(true));
    let fat = Fat32::new(&mut d).unwrap();
    assert_eq!(read_in(&fat, &mut d, b"EFI/RUSTY", b"BOOTX64.EFI"), Some(boot.clone()));
    assert_eq!(read_in(&fat, &mut d, b"EFI/BOOT", b"BOOTX64.EFI"), Some(boot.clone()));
    // A second run finds the fallback there and leaves it.
    assert_eq!(install_bootloader(&mut d, &boot), Ok(false));
    assert!(install_bootloader(&mut d, &[]).is_err());
}

#[test]
fn file_seek_goes_by_the_node_size() {
    let node = Fat32Node {
        entry: DirEntry { name: b"A.TXT".to_vec(), is_dir: false, size: 10, first_cluster: 5, parent_cluster: 2 },
    };
    let mut f = File::new(node, true, false);
    assert_eq!(f.seek::<MemDisk>(SeekFrom::End(-3)), Ok(7));
    assert_eq!(f.seek::<MemDisk>(SeekFrom::Start(11)), Err("Invalid seek offset value"));
    assert_eq!(f.offset, 7);
    assert_eq!(f.seek::<MemDisk>(SeekFrom::Current(-7)), Ok(0));
    assert_eq!(f.seek::<MemDisk>(SeekFrom::End(0)), Ok(10));
}

#[test]
fn repair_rewrites_the_registry_alone() {
    let mut d = installed();
    let fat = Fat32::new(&mut d).unwrap();
    let reg_text = b"[HKLM]\nKey=1\n".to_vec();
    assert!(repair(&[Missing::Registry], &fat, &mut d, &reg_text, b""));
    assert_eq!(read_in(&fat, &mut d, b"RSYS", b"REGISTRY.DAT"), Some(reg_text));
}
