use vstd::prelude::*;

verus! {

/// Port register: interrupt status.
pub const PORT_IS: u64 = 0x10;
/// Port register: command and status.
pub const PORT_CMD: u64 = 0x18;
/// Port register: task file data.
pub const PORT_TFD: u64 = 0x20;
/// Port register: device signature.
pub const PORT_SIG: u64 = 0x24;
/// Port register: SATA status.
pub const PORT_SSTS: u64 = 0x28;
/// Port register: command issue.
pub const PORT_CI: u64 = 0x38;
/// The signature of an ATA disk.
pub const SIG_ATA: u32 = 0x0000_0101;

/// A command list header.
#[derive(Clone, Copy)]
pub struct CmdHeader {
    pub flags: u16,
    pub prdtl: u16,
    pub prdbc: u32,
    pub ctba: u32,
    pub ctba_upper: u32,
}

/// A host-to-device register FIS.
#[derive(Clone, Copy)]
pub struct FisRegH2D {
    pub fis_type: u8,
    pub pmport_c: u8,
    pub command: u8,
    pub featurel: u8,
    pub lba0: u8,
    pub lba1: u8,
    pub lba2: u8,
    pub device: u8,
    pub lba3: u8,
    pub lba4: u8,
    pub lba5: u8,
    pub featureh: u8,
    pub countl: u8,
    pub counth: u8,
    pub icc: u8,
    pub control: u8,
}

/// A physical region descriptor: one page of a transfer.
#[derive(Clone, Copy)]
pub struct PrdtEntry {
    pub dba: u32,
    pub dba_upper: u32,
    pub dbc: u32,
}

/// An AHCI port in use: the controller's registers, the port, its command list, received-FIS
/// and command-table pages, and the disk's geometry.
pub struct AhciDevice {
    pub abar: u64,
    pub port: u32,
    pub clb: u64,
    pub fb: u64,
    pub ctba: u64,
    pub block_size: u32,
    pub block_count: u64,
}

/// The command for a transfer of `count` blocks from `lba` over `pages`: a header (FIS of
/// five dwords, the write flag, one descriptor per page, the command table at `ctba`), a
/// READ or WRITE DMA EXT FIS in LBA mode, and a descriptor per page covering up to 4096 of
/// the transfer's bytes (`count` blocks of `block_size`), the byte count stored less one.
pub struct AhciCommand {
    pub header: CmdHeader,
    pub fis: FisRegH2D,
    pub prdt: Vec<PrdtEntry>,
}

/// The bytes of a transfer of `count` blocks of `bs` bytes left for page `i` on.
pub open spec fn bytes_left(count: u16, bs: u32, i: int) -> int {
    let total = count as int * bs as int;
    if total - 4096 * i > 0 { total - 4096 * i } else { 0 }
}

impl AhciDevice {
    /// The address of the port register at `offset`.
    pub fn port_reg(&self, offset: u64) -> (r: u64)
        requires
            self.abar + 0x100 + self.port * 0x80 + offset <= u64::MAX,
        ensures
            r == self.abar + 0x100 + self.port * 0x80 + offset,
    {
        self.abar + 0x100 + (self.port as u64) * 0x80 + offset
    }

    /// The command that transfers `count` blocks from `lba` to (`write` false) or from the
    /// physical pages `pages`: see `AhciCommand`.
    pub fn build_command(&self, lba: u64, pages: &[u64], count: u16, write: bool) -> (r: AhciCommand)
        requires
            pages@.len() <= 0xFFFF,
            count as int * self.block_size as int <= u32::MAX,
        ensures
            r.header.flags == (if write { 0x45u16 } else { 0x05u16 }),
            r.header.prdtl == pages@.len(),
            r.header.prdbc == 0,
            r.header.ctba == self.ctba % 0x1_0000_0000,
            r.header.ctba_upper == self.ctba / 0x1_0000_0000,
            r.fis.fis_type == 0x27,
            r.fis.pmport_c == 0x80,
            r.fis.command == (if write { 0x35u8 } else { 0x25u8 }),
            r.fis.device == 0x40,
            r.fis.lba0 == lba % 0x100,
            r.fis.lba1 == (lba / 0x100) % 0x100,
            r.fis.lba2 == (lba / 0x1_0000) % 0x100,
            r.fis.lba3 == (lba / 0x100_0000) % 0x100,
            r.fis.lba4 == (lba / 0x1_0000_0000) % 0x100,
            r.fis.lba5 == (lba / 0x100_0000_0000) % 0x100,
            r.fis.countl == count % 0x100,
            r.fis.counth == count / 0x100,
            r.fis.featurel == 0 && r.fis.featureh == 0 && r.fis.icc == 0 && r.fis.control == 0,
            r.prdt@.len() == pages@.len(),
            forall|i: int| 0 <= i < pages@.len() ==> {
                let n = if bytes_left(count, self.block_size, i) < 4096 { bytes_left(count, self.block_size, i) } else { 4096 };
                &&& (#[trigger] r.prdt@[i]).dba == pages@[i] % 0x1_0000_0000
                &&& r.prdt@[i].dba_upper == pages@[i] / 0x1_0000_0000
                &&& r.prdt@[i].dbc == (if n == 0 { 0x3F_FFFF } else { (n - 1) % 0x40_0000 })
            },
    {
        let header = CmdHeader {
            flags: if write { 0x45 } else { 0x05 },
            prdtl: pages.len() as u16,
            prdbc: 0,
            ctba: (self.ctba % 0x1_0000_0000) as u32,
            ctba_upper: (self.ctba / 0x1_0000_0000) as u32,
        };
        let fis = FisRegH2D {
            fis_type: 0x27,
            pmport_c: 0x80,
            command: if write { 0x35 } else { 0x25 },
            featurel: 0,
            lba0: (lba % 0x100) as u8,
            lba1: ((lba / 0x100) % 0x100) as u8,
            lba2: ((lba / 0x1_0000) % 0x100) as u8,
            device: 0x40,
            lba3: ((lba / 0x100_0000) % 0x100) as u8,
            lba4: ((lba / 0x1_0000_0000) % 0x100) as u8,
            lba5: ((lba / 0x100_0000_0000) % 0x100) as u8,
            featureh: 0,
            countl: (count % 0x100) as u8,
            counth: (count / 0x100) as u8,
            icc: 0,
            control: 0,
        };
        let mut remaining: u32 = count as u32 * self.block_size;
        let mut prdt: Vec<PrdtEntry> = Vec::new();
        let mut i: usize = 0;
        while i < pages.len()
            invariant
                i <= pages@.len(),
                prdt@.len() == i,
                count as int * self.block_size as int <= u32::MAX,
                remaining == bytes_left(count, self.block_size, i as int),
                forall|k: int| 0 <= k < i ==> {
                    let n = if bytes_left(count, self.block_size, k) < 4096 { bytes_left(count, self.block_size, k) } else { 4096 };
                    &&& (#[trigger] prdt@[k]).dba == pages@[k] % 0x1_0000_0000
                    &&& prdt@[k].dba_upper == pages@[k] / 0x1_0000_0000
                    &&& prdt@[k].dbc == (if n == 0 { 0x3F_FFFF } else { (n - 1) % 0x40_0000 })
                },
            decreases pages@.len() - i,
        {
            let n: u32 = if remaining < 4096 { remaining } else { 4096 };
            let dbc: u32 = if n == 0 { 0x3F_FFFF } else { (n - 1) % 0x40_0000 };
            let page = pages[i];
            prdt.push(PrdtEntry { dba: (page % 0x1_0000_0000) as u32, dba_upper: (page / 0x1_0000_0000) as u32, dbc });
            remaining = remaining - n;
            i = i + 1;
        }
        AhciCommand { header, fis, prdt }
    }
}

/// How a buffer of `len` bytes is moved in blocks of `bs` bytes: the block count (cut to 16
/// bits) and the number of 4096-byte pages; nothing for an empty buffer; refused when the
/// buffer is not a whole number of blocks or needs more than 512 pages.
pub open spec fn transfer_spec(len: usize, bs: u32) -> Result<Option<(u16, usize)>, &'static str> {
    if (len as int) % (bs as int) != 0 {
        Err("buffer not aligned to block size")
    } else if len == 0 {
        Ok(None)
    } else if (len as int + 4095) / 4096 > 512 {
        Err("transfer too large")
    } else {
        Ok(Some(((len / (bs as usize)) as u16, ((len as int + 4095) / 4096) as usize)))
    }
}

/// How a buffer of `len` bytes is moved in blocks of `bs` bytes: see `transfer_spec`.
pub fn transfer_plan(len: usize, bs: u32) -> (r: Result<Option<(u16, usize)>, &'static str>)
    requires
        bs > 0,
    ensures
        r == transfer_spec(len, bs),
{
    let b: usize = bs as usize;
    if len % b != 0 {
        return Err("buffer not aligned to block size");
    }
    if len == 0 {
        return Ok(None);
    }
    let pages: usize = len / 4096 + (if len % 4096 == 0 { 0 } else { 1 });
    assert(pages == (len + 4095) / 4096);
    if pages > 512 {
        return Err("transfer too large");
    }
    Ok(Some((#[verifier::truncate] ((len / b) as u16), pages)))
}

/// Whether port `port` is implemented by a controller whose implemented-ports register
/// reads `pi`.
pub open spec fn port_implemented(pi: u32, port: u32) -> bool {
    (pi >> port) & 1 != 0
}

/// Whether a port whose SATA status reads `ssts` and signature reads `sig` holds a working
/// ATA disk: a device is present with the link up, in the active power state, and it signs as
/// an ATA disk.
pub open spec fn port_ready(ssts: u32, sig: u32) -> bool {
    (ssts & 0x0F) == 3 && ((ssts >> 8) & 0x0F) == 1 && sig == SIG_ATA
}

/// The first implemented port of the 32 that holds a working ATA disk, given the ports'
/// SATA status and signature registers.
pub fn find_port(pi: u32, ssts: &[u32], sigs: &[u32]) -> (r: Option<u32>)
    requires
        ssts@.len() == 32,
        sigs@.len() == 32,
    ensures
        match r {
            Some(p) => p < 32 && port_implemented(pi, p) && port_ready(ssts@[p as int], sigs@[p as int])
                && forall|q: u32| q < p ==> !(port_implemented(pi, q) && port_ready(ssts@[q as int], sigs@[q as int])),
            None => forall|q: u32| q < 32 ==> !(port_implemented(pi, q) && port_ready(ssts@[q as int], sigs@[q as int])),
        },
{
    let mut port: u32 = 0;
    while port < 32
        invariant
            port <= 32,
            ssts@.len() == 32,
            sigs@.len() == 32,
            forall|q: u32| q < port ==> !(port_implemented(pi, q) && port_ready(ssts@[q as int], sigs@[q as int])),
        decreases 32 - port,
    {
        let s = ssts[port as usize];
        let g = sigs[port as usize];
        if (pi >> port) & 1 != 0 && (s & 0x0F) == 3 && ((s >> 8) & 0x0F) == 1 && g == SIG_ATA {
            return Some(port);
        }
        port = port + 1;
    }
    None
}

} // verus!
