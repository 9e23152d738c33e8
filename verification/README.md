# rusty_os

The logic of the Rusty OS kernel, boot manager and installer as a library whose behaviour
is stated in `requires` / `ensures` contracts and proved by Verus.

## Layout

- `src/` — the verified library, one module per part of the system:
  - storage: `block` (the block-device model every driver and file system is stated over),
    `memdisk`, `gpt`, `fat32`, `fat32_laws`, `fsops` (the file system calls), `esp`,
    `install`, `recovery`, `regdisk`, `vfs`, `file`, and `dir_frame`, `recovery_frame`,
    `esp_frame` (what the writers keep of a directory and of the free clusters);
  - memory: `pfa` (the buddy page allocator), `vmm` (mapping plans);
  - input and devices: `event`, `keyboard`, `mouse`, `hid`, `xhci`, `usb_desc`, `ahci`,
    `nvme`, `ide`, `audio`, `pci`, `acpi`, `apic`;
  - system: `registry`, `registry_laws`, `syscall`, `scheduler`, `process`, `elf`,
    `bootinfo`, `bootmenu`, `dualboot`, `rpe`, `setup_ui`, `renderer`, `bootanim`,
    `console`, `text`, `bytes`.
- `tests/` — tests of the library on concrete values, run against the compiled crate.
- `app/` — the parts that touch the machine (UEFI entry, I/O-port and MMIO access, drivers'
  register work), calling into the library for every decision.

## What is proved

Each public function states what it returns and what it does to the device or state it
is given; the laws that span several functions (a registry read gives back what was
written, a file written reads back as its data, a freed page block can be allocated
again, the event queue keeps the newest events, and others) are public proof functions.
