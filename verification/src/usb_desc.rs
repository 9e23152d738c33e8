use vstd::prelude::*;
use crate::bytes::{le16, get_le16};

verus! {

/// The interface class of a HID device.
pub const CLS_HID: u8 = 3;
/// The interface class of a mass-storage device.
pub const CLS_MSC: u8 = 8;

/// What a configuration descriptor offers the driver: the configuration's value, the kind
/// of device it is driven as (a HID boot device, a bulk-only mass-storage device, or 0 for
/// neither), the interface (-1 for none), the HID protocol, the HID interrupt-in endpoint with
/// its packet size and interval, and the mass-storage bulk-in and bulk-out endpoints with
/// their packet sizes.
#[derive(Clone, Copy, PartialEq, Eq, Structural)]
pub struct ConfigInfo {
    pub cfg_value: u8,
    pub mode: u8,
    pub iface: i32,
    pub proto: u8,
    pub ep_int_addr: u8,
    pub ep_int_mps: u16,
    pub ep_int_iv: u8,
    pub ep_in: u8,
    pub ep_in_mps: u16,
    pub ep_out: u8,
    pub ep_out_mps: u16,
    pub cur: u8,
}

/// The state before any descriptor is read.
pub open spec fn start_info(cfg_value: u8) -> ConfigInfo {
    ConfigInfo {
        cfg_value,
        mode: 0,
        iface: -1i32,
        proto: 0,
        ep_int_addr: 0,
        ep_int_mps: 0,
        ep_int_iv: 10,
        ep_in: 0,
        ep_in_mps: 0,
        ep_out: 0,
        ep_out_mps: 0,
        cur: 0,
    }
}

/// What the descriptor at `i` of the first `end` bytes of `cfg` adds to `st`. An interface
/// descriptor of a HID boot keyboard or mouse is taken when nothing is taken yet, and a boot
/// mouse is preferred over a keyboard (its endpoint found anew); a bulk-only SCSI
/// mass-storage interface is taken when nothing is. An endpoint descriptor after a taken
/// interface gives the first interrupt-in endpoint of a HID interface, or the first bulk-in
/// and bulk-out endpoints of a mass-storage one. Other descriptors add nothing.
pub open spec fn desc_step(cfg: Seq<u8>, end: int, i: int, st: ConfigInfo) -> ConfigInfo {
    let dtype = cfg[i + 1];
    if dtype == 0x04 && i + 9 <= end {
        let icls = cfg[i + 5];
        let isub = cfg[i + 6];
        let iprot = cfg[i + 7];
        if icls == CLS_HID && isub == 0x01 && (iprot == 1 || iprot == 2) {
            if st.mode == 0 || iprot == 2 {
                ConfigInfo {
                    cur: CLS_HID,
                    mode: CLS_HID,
                    iface: cfg[i + 2] as i32,
                    proto: iprot,
                    ep_int_addr: if iprot == 2 { 0 } else { st.ep_int_addr },
                    ep_int_mps: if iprot == 2 { 0 } else { st.ep_int_mps },
                    ..st
                }
            } else {
                ConfigInfo { cur: 0, ..st }
            }
        } else if icls == CLS_MSC && isub == 0x06 && iprot == 0x50 {
            if st.mode == 0 {
                ConfigInfo { cur: CLS_MSC, mode: CLS_MSC, iface: cfg[i + 2] as i32, ..st }
            } else {
                ConfigInfo { cur: 0, ..st }
            }
        } else {
            ConfigInfo { cur: 0, ..st }
        }
    } else if dtype == 0x05 && i + 7 <= end && st.cur != 0 {
        let addr = cfg[i + 2];
        let attr = cfg[i + 3] % 4;
        let mps = (le16(cfg, i + 4) % 0x800) as u16;
        if st.cur == CLS_HID && attr == 3 && addr >= 0x80 && st.ep_int_addr == 0 {
            ConfigInfo { ep_int_addr: addr, ep_int_mps: mps, ep_int_iv: cfg[i + 6], ..st }
        } else if st.cur == CLS_MSC && attr == 2 {
            if addr >= 0x80 {
                if st.ep_in == 0 { ConfigInfo { ep_in: addr, ep_in_mps: mps, ..st } } else { st }
            } else {
                if st.ep_out == 0 { ConfigInfo { ep_out: addr, ep_out_mps: mps, ..st } } else { st }
            }
        } else {
            st
        }
    } else {
        st
    }
}

/// What the descriptors from `i` on, up to byte `end` of `cfg`, add to `st`: each in turn,
/// each as long as its length byte says, until a descriptor of length zero or the end.
pub open spec fn parse_from(cfg: Seq<u8>, end: int, i: int, st: ConfigInfo) -> ConfigInfo
    decreases end + 0x100 - i,
{
    let d = cfg[i] as int;
    if i < 0 || i + 1 >= end || d <= 0 {
        st
    } else {
        parse_from(cfg, end, i + d, desc_step(cfg, end, i, st))
    }
}

/// What the first `end` bytes of the configuration descriptor `cfg` offer: see
/// `desc_step` and `parse_from`.
pub fn parse_config(cfg: &[u8], end: usize) -> (r: ConfigInfo)
    requires
        6 <= end <= cfg@.len(),
        end <= 0x1_0000,
    ensures
        r == parse_from(cfg@, end as int, 0, start_info(cfg@[5])),
{
    let mut st = ConfigInfo {
        cfg_value: cfg[5],
        mode: 0,
        iface: -1,
        proto: 0,
        ep_int_addr: 0,
        ep_int_mps: 0,
        ep_int_iv: 10,
        ep_in: 0,
        ep_in_mps: 0,
        ep_out: 0,
        ep_out_mps: 0,
        cur: 0,
    };
    let mut i: usize = 0;
    while i + 1 < end
        invariant
            end <= cfg@.len(),
            end <= 0x1_0000,
            i <= end + 0x100,
            parse_from(cfg@, end as int, i as int, st) == parse_from(cfg@, end as int, 0, start_info(cfg@[5])),
        ensures
            parse_from(cfg@, end as int, i as int, st) == st,
            parse_from(cfg@, end as int, i as int, st) == parse_from(cfg@, end as int, 0, start_info(cfg@[5])),
        decreases end + 0x100 - i,
    {
        let dlen = cfg[i] as usize;
        if dlen == 0 {
            assert(parse_from(cfg@, end as int, i as int, st) == st);
            break;
        }
        let dtype = cfg[i + 1];
        let ghost before = st;
        if dtype == 0x04 && i + 9 <= end {
            let icls = cfg[i + 5];
            let isub = cfg[i + 6];
            let iprot = cfg[i + 7];
            st.cur = 0;
            if icls == CLS_HID && isub == 0x01 && (iprot == 1 || iprot == 2) {
                if st.mode == 0 || iprot == 2 {
                    st.cur = CLS_HID;
                    st.mode = CLS_HID;
                    st.iface = cfg[i + 2] as i32;
                    st.proto = iprot;
                    if iprot == 2 {
                        st.ep_int_addr = 0;
                        st.ep_int_mps = 0;
                    }
                }
            } else if icls == CLS_MSC && isub == 0x06 && iprot == 0x50 {
                if st.mode == 0 {
                    st.cur = CLS_MSC;
                    st.mode = CLS_MSC;
                    st.iface = cfg[i + 2] as i32;
                }
            }
        } else if dtype == 0x05 && i + 7 <= end && st.cur != 0 {
            let addr = cfg[i + 2];
            let attr = cfg[i + 3] % 4;
            let mps: u16 = get_le16(cfg, i + 4) % 0x800;
            if st.cur == CLS_HID && attr == 3 && addr >= 0x80 && st.ep_int_addr == 0 {
                st.ep_int_addr = addr;
                st.ep_int_mps = mps;
                st.ep_int_iv = cfg[i + 6];
            } else if st.cur == CLS_MSC && attr == 2 {
                if addr >= 0x80 {
                    if st.ep_in == 0 {
                        st.ep_in = addr;
                        st.ep_in_mps = mps;
                    }
                } else {
                    if st.ep_out == 0 {
                        st.ep_out = addr;
                        st.ep_out_mps = mps;
                    }
                }
            }
        }
        assert(st == desc_step(cfg@, end as int, i as int, before));
        i = i + dlen;
    }
    st
}

/// The endpoint-0 packet size a device descriptor's byte 7 (`d7`) gives at speed `speed`: a
/// power of two at SuperSpeed (speed 4), the byte itself otherwise; an exponent past 15 gives
/// none (0).
pub open spec fn ep0_mps_spec(speed: u8, d7: u8) -> u16 {
    if speed == 4 {
        if d7 < 16 { (1u16 << d7) } else { 0 }
    } else {
        d7 as u16
    }
}

/// The endpoint-0 packet size a device descriptor gives: see `ep0_mps_spec`.
pub fn ep0_mps(speed: u8, d7: u8) -> (r: u16)
    ensures
        r == ep0_mps_spec(speed, d7),
{
    if speed == 4 {
        if d7 < 16 { 1u16 << d7 } else { 0 }
    } else {
        d7 as u16
    }
}

/// The device context index of endpoint address `addr`: twice its number, plus one for an
/// IN endpoint.
pub fn endpoint_dci(addr: u8) -> (r: u8)
    ensures
        r == (addr % 16) * 2 + (if addr >= 0x80 { 1int } else { 0int }),
{
    let num: u8 = addr % 16;
    if addr >= 0x80 { num * 2 + 1 } else { num * 2 }
}

} // verus!
