use vstd::prelude::*;
use vstd::string::StringSliceAdditionalSpecFns;
use crate::bytes::copy_of;
use crate::text::{decimal, push_decimal64};

verus! {

/// The file a boot entry starts.
#[derive(Clone, Copy, PartialEq, Eq, Structural)]
pub enum BootPath {
    /// `kernel.elf` at the root of the volume.
    KernelElf,
    /// `RSYS\KERNEL.ELF`, the kernel of an installed system.
    RsysKernel,
    /// `EFI\Microsoft\Boot\bootmgfw.efi`.
    Windows,
    /// `EFI\ubuntu\grubx64.efi`.
    Ubuntu,
    /// `EFI\BOOT\BOOTX64.EFI`.
    GenericEfi,
}

/// The name a boot entry is shown under; the numbers count installed systems and other
/// UEFI systems from 1.
#[derive(Clone, Copy, PartialEq, Eq, Structural)]
pub enum EntryName {
    RustyOs,
    RustyDisk(u64),
    Windows,
    Ubuntu,
    UefiOs(u64),
}

/// A boot entry: what it is called, what it starts and on which volume.
#[derive(Clone, Copy)]
pub struct PlannedEntry {
    pub name: EntryName,
    pub path: BootPath,
    pub volume: usize,
}

/// What was found on one volume: whether it is the volume the boot manager was started
/// from, and which of the known boot files it holds.
#[derive(Clone, Copy)]
pub struct VolumeProbe {
    pub volume: usize,
    pub is_boot: bool,
    pub kernel_elf: bool,
    pub rsys_kernel: bool,
    pub windows: bool,
    pub ubuntu: bool,
    pub generic_efi: bool,
}

/// Whether a boot path starts this system's kernel.
pub open spec fn is_rusty(p: BootPath) -> bool {
    p is KernelElf || p is RsysKernel
}

/// The entries found so far and the counts of installed systems and other UEFI systems.
pub struct ScanState {
    pub entries: Seq<PlannedEntry>,
    pub rusty: nat,
    pub efi: nat,
}

/// One volume's contribution: a kernel at the root gives "Rusty OS" (first in the list when
/// the volume is the boot volume), else an installed kernel gives a numbered entry; a volume
/// with neither that is not the boot volume gives its Windows, Ubuntu or generic UEFI
/// loader, in that order of preference.
pub open spec fn scan_step(st: ScanState, v: VolumeProbe) -> ScanState {
    let e1 = PlannedEntry { name: EntryName::RustyOs, path: BootPath::KernelElf, volume: v.volume };
    let e2 = PlannedEntry {
        name: EntryName::RustyDisk((st.rusty + 1) as u64),
        path: BootPath::RsysKernel,
        volume: v.volume,
    };
    let st1 = if v.kernel_elf {
        ScanState {
            entries: if v.is_boot { seq![e1] + st.entries } else { st.entries.push(e1) },
            ..st
        }
    } else if v.rsys_kernel {
        ScanState { entries: st.entries.push(e2), rusty: st.rusty + 1, ..st }
    } else {
        st
    };
    if v.is_boot || v.kernel_elf || v.rsys_kernel {
        st1
    } else if v.windows {
        ScanState {
            entries: st1.entries.push(PlannedEntry { name: EntryName::Windows, path: BootPath::Windows, volume: v.volume }),
            ..st1
        }
    } else if v.ubuntu {
        ScanState {
            entries: st1.entries.push(PlannedEntry { name: EntryName::Ubuntu, path: BootPath::Ubuntu, volume: v.volume }),
            ..st1
        }
    } else if v.generic_efi {
        ScanState {
            entries: st1.entries.push(
                PlannedEntry {
                    name: EntryName::UefiOs((st1.efi + 1) as u64),
                    path: BootPath::GenericEfi,
                    volume: v.volume,
                },
            ),
            efi: st1.efi + 1,
            ..st1
        }
    } else {
        st1
    }
}

/// The result of scanning the volumes `vols` in order.
pub open spec fn scan_spec(vols: Seq<VolumeProbe>) -> ScanState
    decreases vols.len(),
{
    if vols.len() == 0 {
        ScanState { entries: Seq::empty(), rusty: 0, efi: 0 }
    } else {
        scan_step(scan_spec(vols.drop_last()), vols.last())
    }
}

proof fn lemma_scan_counts(vols: Seq<VolumeProbe>)
    ensures
        scan_spec(vols).rusty <= vols.len(),
        scan_spec(vols).efi <= vols.len(),
    decreases vols.len(),
{
    if vols.len() > 0 {
        lemma_scan_counts(vols.drop_last());
    }
}

/// The boot entries for the volumes `vols`, probed in order (see `scan_step`).
pub fn plan_entries(vols: &[VolumeProbe]) -> (r: Vec<PlannedEntry>)
    ensures
        r@ == scan_spec(vols@).entries,
{
    let mut out: Vec<PlannedEntry> = Vec::new();
    let mut rusty: usize = 0;
    let mut efi: usize = 0;
    let mut i: usize = 0;
    while i < vols.len()
        invariant
            i <= vols@.len(),
            out@ == scan_spec(vols@.subrange(0, i as int)).entries,
            rusty == scan_spec(vols@.subrange(0, i as int)).rusty,
            efi == scan_spec(vols@.subrange(0, i as int)).efi,
        decreases vols@.len() - i,
    {
        let v = vols[i];
        proof {
            let p = vols@.subrange(0, i + 1);
            assert(p.drop_last() =~= vols@.subrange(0, i as int));
            assert(p.last() == v);
            lemma_scan_counts(vols@.subrange(0, i as int));
        }
        let mut has_rusty = false;
        if v.kernel_elf {
            has_rusty = true;
            let e = PlannedEntry { name: EntryName::RustyOs, path: BootPath::KernelElf, volume: v.volume };
            if v.is_boot {
                out.insert(0, e);
                assert(out@ =~= seq![e] + scan_spec(vols@.subrange(0, i as int)).entries);
            } else {
                out.push(e);
            }
        } else if v.rsys_kernel {
            has_rusty = true;
            rusty = rusty + 1;
            out.push(PlannedEntry { name: EntryName::RustyDisk(rusty as u64), path: BootPath::RsysKernel, volume: v.volume });
        }
        if !(v.is_boot || has_rusty) {
            if v.windows {
                out.push(PlannedEntry { name: EntryName::Windows, path: BootPath::Windows, volume: v.volume });
            } else if v.ubuntu {
                out.push(PlannedEntry { name: EntryName::Ubuntu, path: BootPath::Ubuntu, volume: v.volume });
            } else if v.generic_efi {
                efi = efi + 1;
                out.push(PlannedEntry { name: EntryName::UefiOs(efi as u64), path: BootPath::GenericEfi, volume: v.volume });
            }
        }
        i = i + 1;
    }
    assert(vols@.subrange(0, vols@.len() as int) =~= vols@);
    out
}

/// The text of an entry name.
pub open spec fn name_spec(n: EntryName) -> Seq<u8> {
    match n {
        EntryName::RustyOs => "Rusty OS".spec_bytes(),
        EntryName::RustyDisk(k) => "Rusty OS - Yerel Disk ".spec_bytes() + decimal(k as nat),
        EntryName::Windows => "Microsoft Windows".spec_bytes(),
        EntryName::Ubuntu => "Ubuntu".spec_bytes(),
        EntryName::UefiOs(k) => "UEFI Operating System ".spec_bytes() + decimal(k as nat),
    }
}

/// The text an entry is shown under.
pub fn name_text(n: EntryName) -> (r: Vec<u8>)
    ensures
        r@ == name_spec(n),
{
    match n {
        EntryName::RustyOs => copy_of("Rusty OS".as_bytes()),
        EntryName::RustyDisk(k) => {
            let mut t = copy_of("Rusty OS - Yerel Disk ".as_bytes());
            push_decimal64(&mut t, k);
            t
        },
        EntryName::Windows => copy_of("Microsoft Windows".as_bytes()),
        EntryName::Ubuntu => copy_of("Ubuntu".as_bytes()),
        EntryName::UefiOs(k) => {
            let mut t = copy_of("UEFI Operating System ".as_bytes());
            push_decimal64(&mut t, k);
            t
        },
    }
}

/// The path of the file a boot path names, as the boot manager opens it.
pub fn path_text(p: BootPath) -> (r: &'static str)
    ensures
        r@ == match p {
            BootPath::KernelElf => "kernel.elf"@,
            BootPath::RsysKernel => "RSYS\\KERNEL.ELF"@,
            BootPath::Windows => "EFI\\Microsoft\\Boot\\bootmgfw.efi"@,
            BootPath::Ubuntu => "EFI\\ubuntu\\grubx64.efi"@,
            BootPath::GenericEfi => "EFI\\BOOT\\BOOTX64.EFI"@,
        },
{
    match p {
        BootPath::KernelElf => "kernel.elf",
        BootPath::RsysKernel => "RSYS\\KERNEL.ELF",
        BootPath::Windows => "EFI\\Microsoft\\Boot\\bootmgfw.efi",
        BootPath::Ubuntu => "EFI\\ubuntu\\grubx64.efi",
        BootPath::GenericEfi => "EFI\\BOOT\\BOOTX64.EFI",
    }
}

} // verus!
