use rusty_os::ahci::{find_port, transfer_plan, SIG_ATA};
use rusty_os::audio::{is_audio_group, pcm_lengths, play_len, subordinate_nodes, OutputPath};
use rusty_os::bootinfo::MemoryRegion;
use rusty_os::event::{Event, EventQueue};
use rusty_os::keyboard::KeyboardState;
use rusty_os::mouse::{cursor_mask, CursorOverlay, MouseState};
use rusty_os::nvme::{complete, prp_plan, Completion};
use rusty_os::pfa::{alloc_page, free_page, BuddyAllocator};
use rusty_os::renderer::Renderer;
use rusty_os::usb_storage::{build_cbw, capacity_geometry, check_csw, parse_capacity, rw10_cdb, CBW_SIG, CSW_SIG};
use rusty_os::vmm::{map_flags, table_indices, PTE_NO_EXECUTE, PTE_PRESENT, PTE_USER, PTE_WRITABLE};

fn key(c: u32) -> Event {
    Event { kind: 1, data1: c as i32, data2: 0, data3: 0 }
}

#[test]
fn event_queue_is_first_in_first_out() {
    let mut q = EventQueue::new();
    assert!(q.pop().is_none());
    q.push(key(1));
    q.push(key(2));
    q.push(key(3));
    assert_eq!(q.pop().unwrap().data1, 1);
    assert_eq!(q.pop().unwrap().data1, 2);
    q.push(key(4));
    assert_eq!(q.pop().unwrap().data1, 3);
    assert_eq!(q.pop().unwrap().data1, 4);
    assert!(q.pop().is_none());
}

#[test]
fn event_queue_drops_oldest_when_full() {
    let mut q = EventQueue::new();
    for i in 0..256u32 {
        q.push(key(i));
    }
    // 255 fit; the 256th push dropped event 0.
    assert_eq!(q.pop().unwrap().data1, 1);
    let mut n = 1;
    while q.pop().is_some() {
        n += 1;
    }
    assert_eq!(n, 255);
}

#[test]
fn keyboard_shift_and_caps() {
    let mut k = KeyboardState::new();
    assert_eq!(k.handle_scancode(0x1E).unwrap().data1, 'a' as i32);
    assert!(k.handle_scancode(0x2A).is_none());
    assert_eq!(k.handle_scancode(0x1E).unwrap().data1, 'A' as i32);
    assert_eq!(k.handle_scancode(0x02).unwrap().data1, '!' as i32);
    assert!(k.handle_scancode(0xAA).is_none());
    assert!(k.handle_scancode(0x3A).is_none());
    assert_eq!(k.handle_scancode(0x1E).unwrap().data1, 'A' as i32);
    assert_eq!(k.handle_scancode(0x02).unwrap().data1, '1' as i32);
    assert!(k.handle_scancode(0x9E).is_none());
}

#[test]
fn mouse_packet_moves_and_clamps() {
    let mut m = MouseState::new();
    assert!(m.handle_interrupt(0x00).is_none());
    assert!(m.handle_interrupt(0x09).is_none());
    assert!(m.handle_interrupt(10).is_none());
    let e = m.handle_interrupt(5).unwrap();
    assert_eq!((e.kind, e.data1, e.data2, e.data3), (2, 410, 295, 1));
    assert_eq!(m.color, 0x0000FF00);
    // A large negative x movement stops at the left edge.
    m.handle_interrupt(0x18);
    m.handle_interrupt(0x00);
    let e = m.handle_interrupt(0).unwrap();
    assert_eq!(e.data1, 154);
    for _ in 0..3 {
        m.handle_interrupt(0x18);
        m.handle_interrupt(0x00);
        m.handle_interrupt(0);
    }
    assert_eq!(m.x, 0);
    assert_eq!(m.color, 0x00FFFFFF);
}

#[test]
fn page_allocator_alloc_free_restores_count() {
    let mut pfa = BuddyAllocator::new();
    let regions = [MemoryRegion { start: 0x10_0000, page_count: 1024, usable: 1 }];
    pfa.init_regions(&regions);
    assert_eq!(pfa.total_memory, 1024 * 4096);
    assert_eq!(pfa.free_memory, 1024 * 4096);
    let a = alloc_page(&mut pfa).unwrap();
    assert_eq!(a % 4096, 0);
    assert!(a >= 0x10_0000 && a < 0x10_0000 + 1024 * 4096);
    assert_eq!(pfa.free_memory, 1023 * 4096);
    free_page(&mut pfa, a);
    assert_eq!(pfa.free_memory, 1024 * 4096);
    assert_eq!(pfa.total_memory, 1024 * 4096);
    // The region was cut into aligned blocks: 1 MiB at 1 MiB, 2 MiB at 2 MiB, 1 MiB at 4 MiB.
    assert_eq!(pfa.alloc_pages(9), Some(0x20_0000));
    assert!(pfa.alloc_pages(9).is_none());
    assert!(pfa.alloc_pages(10).is_none());
    assert!(pfa.alloc_pages(30).is_none());
}

#[test]
fn page_allocator_skips_low_memory() {
    let mut pfa = BuddyAllocator::new();
    let regions = [
        MemoryRegion { start: 0, page_count: 16, usable: 1 },
        MemoryRegion { start: 0x20_0000, page_count: 8, usable: 0 },
    ];
    pfa.init_regions(&regions);
    assert_eq!(pfa.free_memory, 0);
    assert!(alloc_page(&mut pfa).is_none());
}

#[test]
fn page_table_indices_and_flags() {
    let v: u64 = (3 << 39) | (5 << 30) | (7 << 21) | (9 << 12) | 0x123;
    assert_eq!(table_indices(v), (3, 5, 7, 9));
    assert_eq!(map_flags(true, true, false, false), PTE_PRESENT | PTE_WRITABLE | PTE_USER | PTE_NO_EXECUTE);
    assert_eq!(map_flags(false, false, true, true), PTE_PRESENT | 0x10 | 0x8);
}

#[test]
fn nvme_completion_phase() {
    match complete(5, true, 0x0003, 7) {
        (6, true, Completion::Done { status: 1, result: 7 }) => {},
        _ => panic!("posted entry not taken"),
    }
    assert!(matches!(complete(5, true, 0x0002, 7), (5, true, Completion::Pending)));
    assert!(matches!(complete(63, false, 0, 0), (0, true, Completion::Done { status: 0, result: 0 })));
}

#[test]
fn nvme_prp_plan() {
    assert_eq!(prp_plan(&[0x1000]), Ok((0x1000, Some(0), false)));
    assert_eq!(prp_plan(&[0x1000, 0x5000]), Ok((0x1000, Some(0x5000), false)));
    assert_eq!(prp_plan(&[1, 2, 3]), Ok((1, None, true)));
    assert_eq!(prp_plan(&[]), Err("empty page list"));
    assert_eq!(prp_plan(&vec![0u64; 514]), Err("transfer too large"));
}

#[test]
fn usb_command_wrappers() {
    let cb = rw10_cdb(false, 0x0102_0304, 0x0506);
    assert_eq!(cb, [0x28, 0, 1, 2, 3, 4, 0, 5, 6, 0]);
    assert_eq!(rw10_cdb(true, 0, 1)[0], 0x2A);
    let w = build_cbw(9, 512, true, 0, &cb).unwrap();
    assert_eq!(w.len(), 31);
    assert_eq!(&w[0..4], &CBW_SIG.to_le_bytes());
    assert_eq!(&w[4..8], &9u32.to_le_bytes());
    assert_eq!(&w[8..12], &512u32.to_le_bytes());
    assert_eq!((w[12], w[13], w[14]), (0x80, 0, 10));
    assert_eq!(&w[15..25], &cb);
    assert!(build_cbw(1, 0, false, 0, &[]).is_err());
    assert!(build_cbw(1, 0, false, 0, &[0u8; 17]).is_err());

    let mut csw = vec![0u8; 13];
    csw[0..4].copy_from_slice(&CSW_SIG.to_le_bytes());
    csw[4..8].copy_from_slice(&9u32.to_le_bytes());
    assert_eq!(check_csw(&csw, 9), Ok(()));
    assert_eq!(check_csw(&csw, 8), Err("CSW tag is invalid"));
    csw[12] = 1;
    assert_eq!(check_csw(&csw, 9), Err("SCSI command failed"));
    csw[12] = 2;
    assert_eq!(check_csw(&csw, 9), Err("SCSI physe error"));
    csw[0] = 0;
    assert_eq!(check_csw(&csw, 9), Err("CSW signature is invalid"));

    let cap = [0, 0, 0x0F, 0xFF, 0, 0, 2, 0];
    assert_eq!(parse_capacity(&cap), (0x0FFF, 512));
    assert_eq!(capacity_geometry(0x0FFF, 512), Some((512, 0x1000)));
    assert_eq!(capacity_geometry(0x0FFF, 256), None);
}

#[test]
fn ahci_transfer_and_port_choice() {
    assert_eq!(transfer_plan(0, 512), Ok(None));
    assert_eq!(transfer_plan(4096, 512), Ok(Some((8, 1))));
    assert_eq!(transfer_plan(4097 + 511, 512), Ok(Some((9, 2))));
    assert_eq!(transfer_plan(100, 512), Err("buffer not aligned to block size"));
    assert_eq!(transfer_plan(513 * 4096, 512), Err("transfer too large"));
    let mut ssts = vec![0u32; 32];
    let mut sigs = vec![0u32; 32];
    ssts[1] = 0x113;
    sigs[1] = 0xEB14_0101;
    ssts[4] = 0x113;
    sigs[4] = SIG_ATA;
    ssts[6] = 0x113;
    sigs[6] = SIG_ATA;
    assert_eq!(find_port(0xFF, &ssts, &sigs), Some(4));
    assert_eq!(find_port(0x40, &ssts, &sigs), Some(6));
    assert_eq!(find_port(0x0F, &ssts, &sigs), None);
}

#[test]
fn audio_lengths() {
    assert_eq!(pcm_lengths(1000, 0x10_0000), Some((1000, 17408)));
    assert_eq!(pcm_lengths(1003, 8192), Some((1000, 8192)));
    assert_eq!(pcm_lengths(3, 8192), None);
    assert_eq!(pcm_lengths(100, 0), None);
    assert_eq!(play_len(100, 20000), 100);
    assert_eq!(play_len(10000, 20000), 20000 - 16384);
    assert_eq!(play_len(10, 100), 0);
}

fn surface() -> Renderer {
    Renderer::new(40, 30, 48)
}

fn px(r: &Renderer, x: usize, y: usize) -> u32 {
    r.get_pixel(x, y)
}

#[test]
fn renderer_rectangles_and_lines() {
    let mut r = surface();
    r.fill_rect(2, 3, 4, 2, 0xAA);
    assert_eq!(px(&r, 2, 3), 0xAA);
    assert_eq!(px(&r, 5, 4), 0xAA);
    assert_eq!(px(&r, 6, 4), 0);
    assert_eq!(px(&r, 2, 5), 0);
    r.fill_rect(38, 28, 10, 10, 0xBB);
    assert_eq!(px(&r, 39, 29), 0xBB);
    assert_eq!(px(&r, 100, 100), 0);
    r.draw_line(0, 0, 9, 5, 0xCC);
    assert_eq!(px(&r, 0, 0), 0xCC);
    assert_eq!(px(&r, 9, 5), 0xCC);
    assert_eq!(px(&r, 0, 5), 0);
    r.clear(0x11);
    assert_eq!(px(&r, 20, 20), 0x11);
    assert_eq!(r.cursor(), (0, 0));
}

#[test]
fn cursor_draws_and_restores_background() {
    let mut r = surface();
    r.fill_rect(0, 0, 40, 30, 0x55);
    let mask = cursor_mask();
    assert_eq!(mask.len(), 228);
    let mut c = CursorOverlay::new();
    let pos = c.render(&mut r, 100, -4, 0xFFFFFF);
    assert_eq!(pos, (28, 0));
    // Top-left cell is frame (black), the one below-right is filled.
    assert_eq!(px(&r, 28, 0), 0);
    assert_eq!(px(&r, 29, 1), 0xFFFFFF);
    // A transparent cell keeps the background.
    assert_eq!(px(&r, 39, 0), 0x55);
    let pos = c.render(&mut r, 3, 5, 0x00FF00);
    assert_eq!(pos, (3, 5));
    // The old position shows the background again.
    assert_eq!(px(&r, 28, 0), 0x55);
    assert_eq!(px(&r, 29, 1), 0x55);
    assert_eq!(px(&r, 4, 6), 0x00FF00);
}

#[test]
fn codec_output_path_choice() {
    assert_eq!(subordinate_nodes(0x0002_0005, 32), Some((2, 5)));
    assert_eq!(subordinate_nodes(0x0002_0000, 32), None);
    assert_eq!(subordinate_nodes(0x0002_0041, 64), None);
    assert!(is_audio_group(0x101));
    assert!(!is_audio_group(0x102));
    let mut p = OutputPath::new();
    // An input converter (type 1) is skipped; the first output converter is taken.
    p.see_widget(2, 0x0010_0000, 0, 0);
    assert!(p.dac.is_none());
    p.see_widget(3, 0x0000_0001, 0, 0);
    assert_eq!(p.dac, Some(3));
    p.see_widget(4, 0x0000_0001, 0, 0);
    assert_eq!(p.dac, Some(3));
    // A pin that cannot output, then one with no physical connection, then a usable one.
    assert!(p.asks_pin_caps(0x0040_0000));
    p.see_widget(5, 0x0040_0000, 0x0000_0020, 0);
    assert!(!OutputPath::asks_config(0x20));
    p.see_widget(6, 0x0040_0000, 0x0000_0010, 0x4000_0000);
    assert!(p.pin.is_none());
    p.see_widget(7, 0x0040_0000, 0x0000_0010, 0x9000_0000);
    assert_eq!(p.found(), Some((3, 7)));
    assert!(!p.asks_pin_caps(0x0040_0000));
}

#[test]
fn event_queue_keeps_the_newest_on_overflow() {
    let mut q = EventQueue::new();
    for i in 0..300u32 {
        q.push(key(i));
    }
    for i in 45..300u32 {
        assert_eq!(q.pop().unwrap().data1, i as i32);
    }
    assert!(q.pop().is_none());
}

#[test]
fn page_allocator_grants_again_after_free() {
    let mut pfa = BuddyAllocator::new();
    let regions = [MemoryRegion { start: 0x10_0000, page_count: 1, usable: 1 }];
    pfa.init_regions(&regions);
    let a = pfa.alloc_pages(0).unwrap();
    assert!(pfa.alloc_pages(0).is_none());
    pfa.free_pages(a, 0);
    assert_eq!(pfa.alloc_pages(0), Some(a));
}

#[test]
fn page_allocator_init_takes_whole_pages_of_each_region() {
    let mut pfa = BuddyAllocator::new();
    let regions = [
        MemoryRegion { start: 0x10_0800, page_count: 4, usable: 1 },
        MemoryRegion { start: 0x40_0000, page_count: 2, usable: 1 },
        MemoryRegion { start: 0x80_0000, page_count: 9, usable: 0 },
    ];
    rusty_os::pfa::init(&mut pfa, &regions);
    assert_eq!(pfa.total_memory, 5 * 4096);
    assert_eq!(pfa.free_memory, 5 * 4096);
}

#[test]
fn page_allocator_never_grants_a_byte_twice() {
    let mut pfa = BuddyAllocator::new();
    let regions = [MemoryRegion { start: 0x10_0000, page_count: 64, usable: 1 }];
    pfa.init_regions(&regions);
    let a = pfa.alloc_pages(2).unwrap();
    let b = pfa.alloc_pages(3).unwrap();
    assert!(a + 4 * 4096 <= b || b + 8 * 4096 <= a);
    let c = pfa.alloc_pages(0).unwrap();
    assert!(c + 4096 <= a || a + 4 * 4096 <= c);
    assert!(c + 4096 <= b || b + 8 * 4096 <= c);
}
