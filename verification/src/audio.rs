use vstd::prelude::*;
use crate::pci::PciDevice;

verus! {

/// A byte buffer to be placed on a 128-byte boundary (for DMA descriptor lists).
pub struct Aligned<const N: usize>(pub [u8; N]);

/// Bytes of silence played after the samples.
pub const TAIL: usize = 16384;

/// Physical ranges the sample buffer must not touch.
pub open spec fn denied(pstart: int, pend: int) -> bool {
    (pstart < 0x0042_0000 && pend > 0) || (pstart < 0x0110_0000 && pend > 0x0100_0000)
}

/// Whether the physical range `pstart..pend` stays clear of the ranges the buffer must not
/// touch (the first 4.125 MiB and 16..17 MiB).
pub fn run_ok(pstart: u64, pend: u64) -> (r: bool)
    ensures
        r == !denied(pstart as int, pend as int),
{
    let deny: [(u64, u64); 2] = [(0x0000_0000, 0x0042_0000), (0x0100_0000, 0x0110_0000)];
    let mut i: usize = 0;
    while i < 2
        invariant
            i <= 2,
            deny@ == seq![(0x0000_0000u64, 0x0042_0000u64), (0x0100_0000u64, 0x0110_0000u64)],
            forall|k: int| 0 <= k < i ==> !(pstart < deny@[k].1 && pend > deny@[k].0),
        decreases 2 - i,
    {
        let (ds, de) = deny[i];
        if pstart < de && pend > ds {
            return false;
        }
        i = i + 1;
    }
    true
}

/// The lengths `play_pcm` uses for `len` bytes of samples in a buffer of `cap` bytes: the
/// samples (whole frames of four bytes, at most the buffer) and the bytes played, which add
/// the silent tail, rounded up to 128 bytes, within the buffer (rounded down to 128) and at
/// least a page. `None` when there is no buffer or nothing to play.
pub open spec fn pcm_lengths_spec(len: int, cap: int) -> Option<(int, int)> {
    if cap == 0 {
        None
    } else {
        let l0 = (if len < cap { len } else { cap }) / 4 * 4;
        if l0 == 0 {
            None
        } else {
            let t1 = (l0 + TAIL + 127) / 128 * 128;
            let t2 = if t1 > cap { cap / 128 * 128 } else { t1 };
            let total = if t2 < 4096 { 4096 } else { t2 };
            Some((if l0 < total { l0 } else { total }, total))
        }
    }
}

/// The sample and play lengths of `play_pcm` (see `pcm_lengths_spec`).
pub fn pcm_lengths(len: usize, cap: usize) -> (r: Option<(usize, usize)>)
    requires
        cap <= usize::MAX - TAIL - 128,
    ensures
        match r {
            Some((l, t)) => pcm_lengths_spec(len as int, cap as int) == Some((l as int, t as int)),
            None => pcm_lengths_spec(len as int, cap as int) is None,
        },
{
    if cap == 0 {
        return None;
    }
    let l0 = (if len < cap { len } else { cap }) / 4 * 4;
    if l0 == 0 {
        return None;
    }
    let mut total = (l0 + TAIL + 127) / 128 * 128;
    if total > cap {
        total = cap / 128 * 128;
    }
    if total < 4096 {
        total = 4096;
    }
    Some((if l0 < total { l0 } else { total }, total))
}

/// How many bytes `play` copies into a buffer of `cap` bytes: the data, leaving room for the
/// silent tail; 0 when there is no room.
pub fn play_len(data_len: usize, cap: usize) -> (r: usize)
    ensures
        r == (if cap <= TAIL { 0 } else if data_len < cap - TAIL { data_len as int } else { cap - TAIL }),
{
    if cap <= TAIL {
        return 0;
    }
    if data_len < cap - TAIL { data_len } else { cap - TAIL }
}

/// A codec command with a 12-bit verb and an 8-bit payload.
pub fn verb12(cad: u32, nid: u32, verb: u32, pl: u32) -> (r: u32)
    ensures
        r == (cad << 28u32) | (nid << 20u32) | ((verb & 0xFFF) << 8u32) | (pl & 0xFF),
{
    (cad << 28u32) | (nid << 20u32) | ((verb & 0xFFF) << 8u32) | (pl & 0xFF)
}

/// A codec command with a 4-bit verb and a 16-bit payload.
pub fn verb4(cad: u32, nid: u32, verb: u32, pl: u32) -> (r: u32)
    ensures
        r == (cad << 28u32) | (nid << 20u32) | ((verb & 0xF) << 16u32) | (pl & 0xFFFF),
{
    (cad << 28u32) | (nid << 20u32) | ((verb & 0xF) << 16u32) | (pl & 0xFFFF)
}

/// An Intel HD Audio controller: its registers, its output stream descriptor, the codec,
/// converter and pin in use, and the playback state.
pub struct Hda {
    pub mmio: u64,
    pub sd: u64,
    pub cad: u32,
    pub dac: u32,
    pub pin: u32,
    pub playing: bool,
    pub total: u32,
    pub prev: u32,
}

impl Hda {
    /// A controller at `mmio`, not set up yet.
    pub fn new(mmio: u64) -> (r: Hda)
        ensures
            r.mmio == mmio,
            r.sd == 0 && r.cad == 0 && r.dac == 0 && r.pin == 0,
            !r.playing && r.total == 0 && r.prev == 0,
    {
        Hda { mmio, sd: 0, cad: 0, dac: 0, pin: 0, playing: false, total: 0, prev: 0 }
    }

    /// Whether a sound is playing.
    pub fn is_playing(&self) -> (r: bool)
        ensures
            r == self.playing,
    {
        self.playing
    }

    /// The playback state after a stop.
    pub fn stop(&mut self)
        ensures
            !final(self).playing,
            final(self).total == 0,
            final(self).prev == old(self).prev,
            final(self).mmio == old(self).mmio && final(self).sd == old(self).sd,
    {
        self.playing = false;
        self.total = 0;
    }

    /// End detection on a timer tick, given the stream's link position `lpib`: playback
    /// stops when the position went back (one round is over) or is within 8 KiB of the
    /// end; otherwise the position is remembered. Returns whether it stopped.
    pub fn tick(&mut self, lpib: u32) -> (stopped: bool)
        ensures
            final(self).mmio == old(self).mmio && final(self).sd == old(self).sd,
            !old(self).playing || old(self).total == 0 ==> !stopped && *final(self) == *old(self),
            old(self).playing && old(self).total != 0 ==> {
                &&& stopped == (lpib < old(self).prev || lpib + 8192 >= old(self).total)
                &&& stopped ==> !final(self).playing && final(self).total == 0
                &&& !stopped ==> final(self).prev == lpib && final(self).playing && final(self).total
                    == old(self).total
            },
    {
        if !self.playing || self.total == 0 {
            return false;
        }
        if lpib < self.prev {
            self.stop();
            return true;
        }
        if lpib as u64 + 8192 >= self.total as u64 {
            self.stop();
            return true;
        }
        self.prev = lpib;
        false
    }
}

/// The register block of an HDA controller from its BAR0: none for an I/O BAR or an empty
/// one; otherwise its address bits.
pub fn hda_mmio(bar0: u32) -> (r: Option<u64>)
    ensures
        bar0 & 1 != 0 ==> r is None,
        bar0 & 1 == 0 ==> r == (if bar0 & 0xFFFF_FFF0 == 0 { None } else { Some((bar0 & 0xFFFF_FFF0) as u64) }),
{
    if bar0 & 1 != 0 {
        return None;
    }
    let mmio = (bar0 & 0xFFFF_FFF0) as u64;
    if mmio == 0 {
        return None;
    }
    Some(mmio)
}

/// The first output stream descriptor: after the input ones (bits 8..12 of the capabilities
/// word count them), none when there is no output stream (bits 12..16).
pub fn stream_base(mmio: u64, gcap: u16) -> (r: Option<u64>)
    requires
        mmio + 0x80 + 15 * 0x20 <= u64::MAX,
    ensures
        (gcap / 0x1000) % 16 == 0 ==> r is None,
        (gcap / 0x1000) % 16 != 0 ==> r == Some((mmio + 0x80 + ((gcap / 0x100) % 16) * 0x20) as u64),
{
    let iss = ((gcap / 0x100) % 16) as u64;
    let oss = ((gcap / 0x1000) % 16) as u64;
    if oss == 0 {
        return None;
    }
    Some(mmio + 0x80 + iss * 0x20)
}

/// An AC'97 controller: its mixer and bus-master port bases.
pub struct Ac97 {
    pub nam: u16,
    pub nabm: u16,
}

/// The AC'97 controller whose BARs are `bar0` and `bar1` (port bases, low two bits clear).
pub fn ac97_from_bars(bar0: u32, bar1: u32) -> (r: Ac97)
    ensures
        r.nam == (bar0 / 4 * 4) as u16,
        r.nabm == (bar1 / 4 * 4) as u16,
{
    Ac97 { nam: (bar0 / 4 * 4) as u16, nabm: (bar1 / 4 * 4) as u16 }
}

/// Index of the first device of `class` and `subclass`.
pub fn find_class(devices: &[PciDevice], class: u8, subclass: u8) -> (r: Option<usize>)
    ensures
        match r {
            Some(i) => i < devices@.len() && devices@[i as int].class == class && devices@[i as int].subclass == subclass
                && forall|j: int| 0 <= j < i ==> !(devices@[j].class == class && devices@[j].subclass == subclass),
            None => forall|j: int| 0 <= j < devices@.len() ==> !(devices@[j].class == class && devices@[j].subclass == subclass),
        },
{
    let mut i: usize = 0;
    while i < devices.len()
        invariant
            i <= devices@.len(),
            forall|j: int| 0 <= j < i ==> !(devices@[j].class == class && devices@[j].subclass == subclass),
        decreases devices@.len() - i,
    {
        if devices[i].class == class && devices[i].subclass == subclass {
            return Some(i);
        }
        i = i + 1;
    }
    None
}

/// The AC'97 controller (class 4, subclass 1) among `devices`, from its BARs `bars(i)`.
pub fn ac97_init(devices: &[PciDevice], bars: &[(u32, u32)]) -> (r: Option<(usize, Ac97)>)
    requires
        bars@.len() == devices@.len(),
    ensures
        match r {
            Some((i, a)) => i < devices@.len() && devices@[i as int].class == 4 && devices@[i as int].subclass == 1
                && forall|j: int| 0 <= j < i ==> !(devices@[j].class == 4 && devices@[j].subclass == 1)
                && a.nam == (bars@[i as int].0 / 4 * 4) as u16 && a.nabm == (bars@[i as int].1 / 4 * 4) as u16,
            None => forall|j: int| 0 <= j < devices@.len() ==> !(devices@[j].class == 4 && devices@[j].subclass == 1),
        },
{
    match find_class(devices, 0x04, 0x01) {
        Some(i) => {
            let (b0, b1) = bars[i];
            Some((i, ac97_from_bars(b0, b1)))
        },
        None => None,
    }
}

/// Samples a buffer descriptor can hold.
pub const MAX_PER_DESC: usize = 0xFFFE;

/// The AC'97 buffer descriptors for `len` bytes of 16-bit samples at `phys`: the even part of
/// `len` cut into pieces of at most 0xFFFE samples, at most 32 of them; each gives the
/// piece's address, its sample count, and the interrupt-on-completion flag.
pub open spec fn bdl_entry(phys: int, samples: int, k: int) -> (u32, u16, u16) {
    let off = k * MAX_PER_DESC;
    let chunk = if samples - off < MAX_PER_DESC { samples - off } else { MAX_PER_DESC as int };
    ((phys + off * 2) as u32, chunk as u16, 0x8000u16)
}

/// Number of descriptors for `samples` samples.
pub open spec fn bdl_count(samples: int) -> int {
    let n = (samples + MAX_PER_DESC - 1) / MAX_PER_DESC as int;
    if n < 32 { n } else { 32 }
}

/// The buffer descriptors `play_pcm` writes (see `bdl_entry`).
pub fn ac97_bdl(phys: u32, len: usize) -> (r: Vec<(u32, u16, u16)>)
    requires
        phys + len <= u32::MAX,
    ensures
        r@.len() == bdl_count((len / 2) as int),
        forall|k: int| 0 <= k < r@.len() ==> #[trigger] r@[k] == bdl_entry(phys as int, (len / 2) as int, k),
{
    let total = len / 2;
    let mut remaining = total;
    let mut off: usize = 0;
    let mut n: usize = 0;
    let mut out: Vec<(u32, u16, u16)> = Vec::new();
    while remaining > 0 && n < 32
        invariant
            phys + len <= u32::MAX,
            total == len / 2,
            n <= 32,
            out@.len() == n,
            off + remaining == total,
            remaining > 0 ==> off == n * MAX_PER_DESC,
            remaining == 0 ==> n == bdl_count(total as int),
            remaining > 0 ==> n <= bdl_count(total as int) && (n < bdl_count(total as int) || n == 32),
            forall|k: int| 0 <= k < n ==> #[trigger] out@[k] == bdl_entry(phys as int, total as int, k),
        decreases remaining,
    {
        let chunk = if remaining < MAX_PER_DESC { remaining } else { MAX_PER_DESC };
        out.push(((phys as usize + off * 2) as u32, chunk as u16, 0x8000u16));
        proof {
            assert(out@[n as int] == bdl_entry(phys as int, total as int, n as int));
        }
        off = off + chunk;
        remaining = remaining - chunk;
        n = n + 1;
        proof {
            assert(n * MAX_PER_DESC == (n - 1) * MAX_PER_DESC + MAX_PER_DESC) by (nonlinear_arith);
            if remaining == 0 {
                assert((total + MAX_PER_DESC - 1) / MAX_PER_DESC as int == n) by (nonlinear_arith)
                    requires
                        total == (n - 1) * MAX_PER_DESC + chunk,
                        0 < chunk <= MAX_PER_DESC,
                ;
            } else {
                assert((total + MAX_PER_DESC - 1) / MAX_PER_DESC as int > n) by (nonlinear_arith)
                    requires
                        total == n * MAX_PER_DESC + remaining,
                        remaining > 0,
                ;
            }
        }
    }
    out
}

/// The sound device in use.
pub enum AudioDev {
    Absent,
    Hda(Hda),
    Ac97(Ac97),
}

/// Whether there is a sound device.
pub fn present(dev: &AudioDev) -> (r: bool)
    ensures
        r == !(dev is Absent),
{
    match dev {
        AudioDev::Absent => false,
        _ => true,
    }
}

} // verus!

verus! {

/// The first node and the node count that a "subordinate node count" answer gives (bits
/// 16..24 and 0..8).
pub open spec fn node_range(sub: u32) -> (u32, u32) {
    (((sub / 0x1_0000) % 0x100) as u32, (sub % 0x100) as u32)
}

/// The nodes a codec search visits below a node whose subordinate count answer is `sub`:
/// none when the count is 0 or above `limit` (32 function groups, 64 widgets).
pub fn subordinate_nodes(sub: u32, limit: u32) -> (r: Option<(u32, u32)>)
    ensures
        r == (if node_range(sub).1 == 0 || node_range(sub).1 > limit { None } else { Some(node_range(sub)) }),
{
    let start = (sub / 0x1_0000) % 0x100;
    let count = sub % 0x100;
    if count == 0 || count > limit {
        None
    } else {
        Some((start, count))
    }
}

/// Whether a function group type answer names an audio function group.
pub fn is_audio_group(ty: u32) -> (r: bool)
    ensures
        r == (ty % 0x100 == 1),
{
    ty % 0x100 == 1
}

/// The widget type of an audio widget capabilities answer (bits 20..24): 0 an output
/// converter, 4 a pin.
pub open spec fn widget_type(caps: u32) -> u32 {
    ((caps / 0x10_0000) % 16) as u32
}

/// The output converter and output pin found so far in a codec.
pub struct OutputPath {
    pub dac: Option<u32>,
    pub pin: Option<u32>,
}

/// The search state after widget `nid`: the first output converter is taken as the DAC; the
/// first pin that can output (bit 4 of its pin capabilities) and whose configuration does not
/// say "no physical connection" (bits 30..32 equal to 1) is taken as the pin.
pub open spec fn path_after(dac: Option<u32>, pin: Option<u32>, nid: u32, caps: u32, pin_caps: u32, config: u32) -> (
    Option<u32>,
    Option<u32>,
) {
    if widget_type(caps) == 0 && dac is None {
        (Some(nid), pin)
    } else if widget_type(caps) == 4 && pin is None && (pin_caps / 16) % 2 == 1 && config / 0x4000_0000 != 1 {
        (dac, Some(nid))
    } else {
        (dac, pin)
    }
}

impl OutputPath {
    /// Nothing found yet.
    pub fn new() -> (r: OutputPath)
        ensures
            r.dac is None && r.pin is None,
    {
        OutputPath { dac: None, pin: None }
    }

    /// Whether a widget with capabilities `caps` is a pin to be asked for its pin
    /// capabilities.
    pub fn asks_pin_caps(&self, caps: u32) -> (r: bool)
        ensures
            r == (widget_type(caps) == 4 && self.pin is None),
    {
        (caps / 0x10_0000) % 16 == 4 && self.pin.is_none()
    }

    /// Whether a pin with pin capabilities `pin_caps` is to be asked for its configuration:
    /// it can output.
    pub fn asks_config(pin_caps: u32) -> (r: bool)
        ensures
            r == ((pin_caps / 16) % 2 == 1),
    {
        (pin_caps / 16) % 2 == 1
    }

    /// Takes widget `nid` into account (see `path_after`); `pin_caps` and `config` only
    /// matter when they were asked for.
    pub fn see_widget(&mut self, nid: u32, caps: u32, pin_caps: u32, config: u32)
        ensures
            (final(self).dac, final(self).pin) == path_after(old(self).dac, old(self).pin, nid, caps, pin_caps, config),
    {
        let wt = (caps / 0x10_0000) % 16;
        if wt == 0 && self.dac.is_none() {
            self.dac = Some(nid);
        } else if wt == 4 && self.pin.is_none() && (pin_caps / 16) % 2 == 1 && config / 0x4000_0000 != 1 {
            self.pin = Some(nid);
        }
    }

    /// The converter and pin, once both are found.
    pub fn found(&self) -> (r: Option<(u32, u32)>)
        ensures
            r == match (self.dac, self.pin) {
                (Some(d), Some(p)) => Some((d, p)),
                _ => None,
            },
    {
        match (self.dac, self.pin) {
            (Some(d), Some(p)) => Some((d, p)),
            _ => None,
        }
    }
}

} // verus!
