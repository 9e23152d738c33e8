pub mod bytes;
pub mod rtc;
pub mod block;
pub mod fat32;
pub mod fat32_laws;
pub mod text;
pub mod registry;
pub mod registry_laws;
pub mod pci;
pub mod power;
pub mod panic_info;
pub mod event;
pub mod keyboard;
pub mod mouse;
pub mod hid;
pub mod fsops;
pub mod dir_frame;
pub mod pfa;
pub mod scheduler;
pub mod vmm;
pub mod offset;
pub mod vfs;
pub mod file;
pub mod ide;
pub mod apic;
pub mod xhci;
pub mod audio;
pub mod bootinfo;
pub mod process;
pub mod renderer;
pub mod gpt;
pub mod recovery;
pub mod recovery_frame;
pub mod install;
pub mod esp;
pub mod esp_frame;
pub mod syscall;
pub mod rpe;
pub mod setup_ui;
pub mod nvme;
pub mod ahci;
pub mod usb_storage;
pub mod usb_desc;
pub mod bootmenu;
pub mod regdisk;
pub mod acpi;
pub mod elf;
pub mod dualboot;
pub mod console;
pub mod bootanim;
pub mod memdisk;
