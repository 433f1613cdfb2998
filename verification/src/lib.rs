//! nexec-lgc: the boot configuration language, the boot menu logic and the
//! on-disk formats (MBR, FAT32) of a legacy BIOS boot manager.

pub mod text;
pub mod config;
pub mod keyboard;
pub mod menu;
pub mod ports;
pub mod disk;
pub mod fat;
pub mod chain;
pub mod lookup;
pub mod boot;
pub mod kernel;
pub mod vga;
pub mod draw;
pub mod flow;
pub mod detect;
pub mod cli;
pub mod allocator;
pub mod acpi;
pub mod fatwrite;
