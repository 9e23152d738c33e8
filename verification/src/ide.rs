use vstd::prelude::*;
use crate::pci::PciDevice;

verus! {

/// I/O ports of the primary channel in compatibility mode.
pub const ATA_PRIMARY_IO: u16 = 0x1F0;
/// Control port of the primary channel in compatibility mode.
pub const ATA_PRIMARY_CTRL: u16 = 0x3F6;
/// I/O ports of the secondary channel in compatibility mode.
pub const ATA_SECONDARY_IO: u16 = 0x170;
/// Control port of the secondary channel in compatibility mode.
pub const ATA_SECONDARY_CTRL: u16 = 0x376;

/// Status bit: busy.
pub const ATA_SR_BSY: u8 = 0x80;
/// Status bit: drive fault.
pub const ATA_SR_DF: u8 = 0x20;
/// Status bit: data request.
pub const ATA_SR_DRQ: u8 = 0x08;
/// Status bit: error.
pub const ATA_SR_ERR: u8 = 0x01;

/// One of the two ATA channels.
#[derive(Clone, Copy, PartialEq, Eq, Structural)]
pub enum IdeChannel {
    Primary,
    Secondary,
}

/// The drive on a channel.
#[derive(Clone, Copy, PartialEq, Eq, Structural)]
pub enum IdeDriveType {
    Master,
    Slave,
}

/// The ATA commands the driver sends.
#[derive(Clone, Copy, PartialEq, Eq, Structural)]
pub enum IdeCommand {
    ReadPio,
    ReadPioExt,
    WritePio,
    WritePioExt,
    CacheFlush,
    CacheFlushExt,
    Identify,
    IdentifyPacket,
}

impl IdeCommand {
    /// The command's opcode.
    pub fn code(self) -> (r: u8)
        ensures
            r == match self {
                IdeCommand::ReadPio => 0x20u8,
                IdeCommand::ReadPioExt => 0x24u8,
                IdeCommand::WritePio => 0x30u8,
                IdeCommand::WritePioExt => 0x34u8,
                IdeCommand::CacheFlush => 0xE7u8,
                IdeCommand::CacheFlushExt => 0xEAu8,
                IdeCommand::Identify => 0xECu8,
                IdeCommand::IdentifyPacket => 0xA1u8,
            },
    {
        match self {
            IdeCommand::ReadPio => 0x20,
            IdeCommand::ReadPioExt => 0x24,
            IdeCommand::WritePio => 0x30,
            IdeCommand::WritePioExt => 0x34,
            IdeCommand::CacheFlush => 0xE7,
            IdeCommand::CacheFlushExt => 0xEA,
            IdeCommand::Identify => 0xEC,
            IdeCommand::IdentifyPacket => 0xA1,
        }
    }
}

/// Why a drive operation failed.
#[derive(Clone, Copy, PartialEq, Eq, Structural)]
pub enum IdeError {
    DeviceNotFound,
    BusyTimeout,
    DataRequestTimeout,
    DriveFault,
    CommandAborted,
    BufferTooSmall,
    InvalidLba,
}

/// The ports of a channel.
#[derive(Clone, Copy)]
pub struct IdeChannelRegisters {
    pub io_base: u16,
    pub ctrl_base: u16,
    pub bus_master_base: u16,
}

/// A drive: where it is, its ports, and what identification found.
pub struct IdeDrive {
    pub channel: IdeChannel,
    pub drive_type: IdeDriveType,
    pub regs: IdeChannelRegisters,
    pub exists: bool,
    pub is_atapi: bool,
    pub block_size: u32,
    pub block_count: u64,
    pub model_name: [u8; 40],
}

/// The four drives of a controller, those found.
pub struct IdeController {
    pub primary_master: Option<IdeDrive>,
    pub primary_slave: Option<IdeDrive>,
    pub secondary_master: Option<IdeDrive>,
    pub secondary_slave: Option<IdeDrive>,
}

/// A drive seen as a block device.
#[derive(Clone, Copy)]
pub struct IdeBlockDevice {
    pub channel: IdeChannel,
    pub drive_type: IdeDriveType,
}

impl IdeDrive {
    /// A drive not identified yet: not found, 512-byte blocks, no blocks, blank model.
    pub fn new(channel: IdeChannel, drive_type: IdeDriveType, regs: IdeChannelRegisters) -> (r: Self)
        ensures
            r.channel == channel,
            r.drive_type == drive_type,
            r.regs == regs,
            !r.exists,
            !r.is_atapi,
            r.block_size == 512,
            r.block_count == 0,
            forall|i: int| 0 <= i < 40 ==> r.model_name@[i] == 0,
    {
        IdeDrive {
            channel,
            drive_type,
            regs,
            exists: false,
            is_atapi: false,
            block_size: 512,
            block_count: 0,
            model_name: [0u8; 40],
        }
    }

    /// The drive-select byte for an LBA28 transfer: LBA mode, the drive bit, and bits 24..28
    /// of `lba`.
    pub fn select_byte(&self, lba: u64) -> (r: u8)
        ensures
            r == 0xE0 + (if self.drive_type == IdeDriveType::Slave { 0x10int } else { 0 }) + (lba / 0x100_0000) % 16,
    {
        let bit: u8 = match self.drive_type {
            IdeDriveType::Master => 0,
            IdeDriveType::Slave => 1,
        };
        let hi = ((lba >> 24u64) & 0x0F) as u8;
        assert(hi == (lba / 0x100_0000) % 16) by (bit_vector)
            requires
                hi == ((lba >> 24u64) & 0x0F) as u8,
        ;
        0xE0 + bit * 16 + hi
    }
}

/// The LBA registers' bytes for `lba`: bits 0..8, 8..16, 16..24.
pub fn lba_bytes(lba: u64) -> (r: (u8, u8, u8))
    ensures
        r.0 == lba % 0x100,
        r.1 == (lba / 0x100) % 0x100,
        r.2 == (lba / 0x1_0000) % 0x100,
{
    ((lba % 0x100) as u8, ((lba / 0x100) % 0x100) as u8, ((lba / 0x1_0000) % 0x100) as u8)
}

/// What identification data gives: the LBA28 block count (words 60 and 61) and the model
/// name (words 27..=46, each word high byte first).
pub open spec fn identified_count(w: Seq<u16>) -> u64 {
    (w[61] as int * 0x1_0000 + w[60] as int) as u64
}

/// The model name byte `i` of identification data.
pub open spec fn model_byte(w: Seq<u16>, i: int) -> u8 {
    if i % 2 == 0 {
        (w[27 + i / 2] / 0x100) as u8
    } else {
        (w[27 + i / 2] % 0x100) as u8
    }
}

/// Reads the block count and model name out of identification data, as `identify` does.
pub fn parse_identify(w: &[u16]) -> (r: (u64, [u8; 40]))
    requires
        w@.len() == 256,
    ensures
        r.0 == identified_count(w@),
        forall|i: int| 0 <= i < 40 ==> r.1@[i] == model_byte(w@, i),
{
    let count = (w[61] as u64) * 0x1_0000 + (w[60] as u64);
    let mut name = [0u8; 40];
    let mut k: usize = 0;
    while k < 20
        invariant
            w@.len() == 256,
            k <= 20,
            forall|i: int| 0 <= i < 2 * k ==> name@[i] == model_byte(w@, i),
        decreases 20 - k,
    {
        let word = w[27 + k];
        name[2 * k] = (word / 0x100) as u8;
        name[2 * k + 1] = (word % 0x100) as u8;
        k = k + 1;
    }
    (count, name)
}

/// The ports of both channels: compatibility ports unless the programming interface puts the
/// channel in native mode (bit 0 primary, bit 2 secondary), where they come from the BARs
/// (0 and 1 primary, 2 and 3 secondary) with their low two bits cleared.
pub fn channel_regs(prog_if: u8, bars: [u32; 4]) -> (r: (IdeChannelRegisters, IdeChannelRegisters))
    ensures
        prog_if % 2 == 0 ==> r.0.io_base == ATA_PRIMARY_IO && r.0.ctrl_base == ATA_PRIMARY_CTRL,
        prog_if % 2 == 1 ==> r.0.io_base == (bars@[0] / 4 * 4) as u16 && r.0.ctrl_base == (bars@[1] / 4 * 4) as u16,
        (prog_if / 4) % 2 == 0 ==> r.1.io_base == ATA_SECONDARY_IO && r.1.ctrl_base == ATA_SECONDARY_CTRL,
        (prog_if / 4) % 2 == 1 ==> r.1.io_base == (bars@[2] / 4 * 4) as u16 && r.1.ctrl_base == (bars@[3] / 4
            * 4) as u16,
        r.0.bus_master_base == 0 && r.1.bus_master_base == 0,
{
    let p0 = prog_if & 0x01;
    let p2 = prog_if & 0x04;
    assert(p0 == prog_if % 2 && (p2 == 0) == ((prog_if / 4) % 2 == 0)) by (bit_vector)
        requires
            p0 == prog_if & 0x01,
            p2 == prog_if & 0x04,
    ;
    let primary = if p0 == 0 {
        IdeChannelRegisters { io_base: ATA_PRIMARY_IO, ctrl_base: ATA_PRIMARY_CTRL, bus_master_base: 0 }
    } else {
        IdeChannelRegisters {
            io_base: (bars[0] / 4 * 4) as u16,
            ctrl_base: (bars[1] / 4 * 4) as u16,
            bus_master_base: 0,
        }
    };
    let secondary = if p2 == 0 {
        IdeChannelRegisters { io_base: ATA_SECONDARY_IO, ctrl_base: ATA_SECONDARY_CTRL, bus_master_base: 0 }
    } else {
        IdeChannelRegisters {
            io_base: (bars[2] / 4 * 4) as u16,
            ctrl_base: (bars[3] / 4 * 4) as u16,
            bus_master_base: 0,
        }
    };
    (primary, secondary)
}

/// What one status read while waiting for data tells: a fault or error ends the wait with a
/// drive fault, a data request ends it successfully, anything else goes on waiting.
pub fn drq_status(status: u8) -> (r: Option<Result<(), IdeError>>)
    ensures
        (status & (ATA_SR_ERR | ATA_SR_DF)) != 0 ==> r == Some(Err::<(), IdeError>(IdeError::DriveFault)),
        (status & (ATA_SR_ERR | ATA_SR_DF)) == 0 && (status & ATA_SR_DRQ) != 0 ==> r == Some(Ok::<(), IdeError>(())),
        (status & (ATA_SR_ERR | ATA_SR_DF)) == 0 && (status & ATA_SR_DRQ) == 0 ==> r is None,
{
    if (status & (ATA_SR_ERR | ATA_SR_DF)) != 0 {
        return Some(Err(IdeError::DriveFault));
    }
    if (status & ATA_SR_DRQ) != 0 {
        return Some(Ok(()));
    }
    None
}

/// The size and count of the first of two drives that exists.
pub open spec fn master_info(pm: Option<IdeDrive>, sm: Option<IdeDrive>) -> Option<(u32, u64)> {
    match pm {
        Some(d) if d.exists => Some((d.block_size, d.block_count)),
        _ => match sm {
            Some(d) if d.exists => Some((d.block_size, d.block_count)),
            _ => None,
        },
    }
}

impl IdeController {
    /// No drives.
    pub fn new() -> (r: Self)
        ensures
            r.primary_master is None,
            r.primary_slave is None,
            r.secondary_master is None,
            r.secondary_slave is None,
    {
        IdeController { primary_master: None, primary_slave: None, secondary_master: None, secondary_slave: None }
    }

    /// The drive at `channel` and `drive_type`, when it was found.
    pub open spec fn drive_at(&self, channel: IdeChannel, drive_type: IdeDriveType) -> Option<IdeDrive> {
        match (channel, drive_type) {
            (IdeChannel::Primary, IdeDriveType::Master) => self.primary_master,
            (IdeChannel::Primary, IdeDriveType::Slave) => self.primary_slave,
            (IdeChannel::Secondary, IdeDriveType::Master) => self.secondary_master,
            (IdeChannel::Secondary, IdeDriveType::Slave) => self.secondary_slave,
        }
    }

    /// The drive at `channel` and `drive_type`, when it was found.
    pub fn get_drive(&self, channel: IdeChannel, drive_type: IdeDriveType) -> (r: Option<&IdeDrive>)
        ensures
            match self.drive_at(channel, drive_type) {
                Some(d) => r == Some(&d),
                None => r is None,
            },
    {
        match (channel, drive_type) {
            (IdeChannel::Primary, IdeDriveType::Master) => self.primary_master.as_ref(),
            (IdeChannel::Primary, IdeDriveType::Slave) => self.primary_slave.as_ref(),
            (IdeChannel::Secondary, IdeDriveType::Master) => self.secondary_master.as_ref(),
            (IdeChannel::Secondary, IdeDriveType::Slave) => self.secondary_slave.as_ref(),
        }
    }

    /// Keeps the drive `d` at its place when identification found it.
    pub fn install(&mut self, d: IdeDrive)
        ensures
            d.exists ==> final(self).drive_at(d.channel, d.drive_type) == Some(d),
            forall|c: IdeChannel, t: IdeDriveType|
                (c != d.channel || t != d.drive_type || !d.exists) ==> #[trigger] final(self).drive_at(c, t)
                    == old(self).drive_at(c, t),
    {
        if !d.exists {
            return;
        }
        match (d.channel, d.drive_type) {
            (IdeChannel::Primary, IdeDriveType::Master) => self.primary_master = Some(d),
            (IdeChannel::Primary, IdeDriveType::Slave) => self.primary_slave = Some(d),
            (IdeChannel::Secondary, IdeDriveType::Master) => self.secondary_master = Some(d),
            (IdeChannel::Secondary, IdeDriveType::Slave) => self.secondary_slave = Some(d),
        }
    }

    /// Block size and count of the first master drive found (primary, then secondary).
    pub fn info(&self) -> (r: Option<(u32, u64)>)
        ensures
            r == master_info(
                self.drive_at(IdeChannel::Primary, IdeDriveType::Master),
                self.drive_at(IdeChannel::Secondary, IdeDriveType::Master),
            ),
    {
        if let Some(d) = self.get_drive(IdeChannel::Primary, IdeDriveType::Master) {
            if d.exists {
                return Some((d.block_size, d.block_count));
            }
        }
        if let Some(d) = self.get_drive(IdeChannel::Secondary, IdeDriveType::Master) {
            if d.exists {
                return Some((d.block_size, d.block_count));
            }
        }
        None
    }
}

/// Index of the first IDE controller (class 1, subclass 1) among `devices`.
pub fn find_ide(devices: &[PciDevice]) -> (r: Option<usize>)
    ensures
        match r {
            Some(i) => i < devices@.len() && devices@[i as int].class == 1 && devices@[i as int].subclass == 1
                && forall|j: int| 0 <= j < i ==> !(devices@[j].class == 1 && devices@[j].subclass == 1),
            None => forall|j: int| 0 <= j < devices@.len() ==> !(devices@[j].class == 1 && devices@[j].subclass == 1),
        },
{
    let mut i: usize = 0;
    while i < devices.len()
        invariant
            i <= devices@.len(),
            forall|j: int| 0 <= j < i ==> !(devices@[j].class == 1 && devices@[j].subclass == 1),
        decreases devices@.len() - i,
    {
        if devices[i].class == 0x01 && devices[i].subclass == 0x01 {
            return Some(i);
        }
        i = i + 1;
    }
    None
}

} // verus!
