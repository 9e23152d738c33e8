use rusty_os::bootanim::{anim_pixel, boot_anim_frame};
use rusty_os::event::EventQueue;
use rusty_os::mouse::MouseState;

#[test]
fn anim_after_last_frame_leaves_buffer() {
    let mut buf = vec![7u32; 40000];
    boot_anim_frame(101, &mut buf);
    assert!(buf.iter().all(|&p| p == 7));
}

#[test]
fn anim_r_frame_pixels() {
    let mut buf = vec![7u32; 40000];
    boot_anim_frame(70, &mut buf);
    // row 0 of the R: the top bit is clear, the next one set
    assert_eq!(buf[52 * 200 + 52], 0);
    assert_eq!(buf[52 * 200 + 58], 0x00FF_DD66);
    // row 7 is orange, row 9 red with green 150 - 15
    assert_eq!(anim_pixel(70, 58, 52 + 7 * 6), 0x00FF_AA00);
    assert_eq!(anim_pixel(70, 58, 52 + 9 * 6), (255 << 16) | (135 << 8));
    assert_eq!(buf[0], 0);
}

#[test]
fn anim_disc_frame() {
    assert_eq!(anim_pixel(60, 100, 100), 0x00FF_FFFF);
    assert_eq!(anim_pixel(60, 115, 100), 0x00FF_FFFF);
    assert_eq!(anim_pixel(60, 116, 100), 0);
}

#[test]
fn anim_first_frame_orbs() {
    // frame 0: radius 70; orb 0 at (100 + 70, 100), orb 1 at (100, 170)
    assert_eq!(anim_pixel(0, 170, 100), 0x00FF8C00);
    assert_eq!(anim_pixel(0, 100, 170), 0x00FFD700);
    assert_eq!(anim_pixel(0, 30, 100), 0x008B0000);
    assert_eq!(anim_pixel(0, 100, 30), 0x00E0E0E0);
    assert_eq!(anim_pixel(0, 100, 100), 0);
}

#[test]
fn mouse_packet_keeps_flags() {
    let mut m = MouseState::new();
    assert!(m.handle_interrupt(0x39).is_none());
    assert!(m.handle_interrupt(0xFF).is_none());
    let e = m.handle_interrupt(0xFE).unwrap();
    assert_eq!((e.kind, e.data1, e.data2, e.data3), (2, 399, 302, 1));
}

#[test]
fn events_come_out_in_order() {
    let mut q = EventQueue::new();
    let mut m = MouseState::new();
    m.handle_interrupt(0x09);
    m.handle_interrupt(1);
    let a = m.handle_interrupt(1).unwrap();
    m.handle_interrupt(0x09);
    m.handle_interrupt(2);
    let b = m.handle_interrupt(2).unwrap();
    q.push(a);
    q.push(b);
    assert_eq!(q.pop().map(|e| (e.data1, e.data2)), Some((a.data1, a.data2)));
    assert_eq!(q.pop().map(|e| (e.data1, e.data2)), Some((b.data1, b.data2)));
    assert!(q.pop().is_none());
}
