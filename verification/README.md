# nexec-lgc

A legacy BIOS boot manager for x86 Linux and Windows, with a companion
command-line tool. The decisions of both are written in Verus and proved
against their contracts; the port I/O, the screen memory, the file system
calls of the host and the command line live in `app/`.

## Layout

- `src/` — the verified library:
  - `text`: strings as character sequences: trimming, searching, splitting,
    decimal numbers, UTF-8.
  - `config`: the main configuration file, entry files and Boot Loader
    Specification entries.
  - `boot`: loading the configuration from the partition, boot counters
    (`name+N.conf`), backups of the entry files.
  - `menu`: the boot menu: merging, ordering, hiding exhausted entries, keys,
    the countdown.
  - `flow`: the boot manager's main loop, as a machine that asks for one
    action at a time.
  - `vga`, `draw`: the text screen (one code page 437 cell per character)
    and what the menus draw on it.
  - `keyboard`: scan codes to key events (characters through `pc-keyboard`).
  - `ports`, `disk`: ATA registers, sector transfers driven one port access at
    a time, the MBR.
  - `fat`, `chain`, `lookup`: FAT32 boot sector, cluster chains, paths and
    directory listings with their long names, as machines that ask for
    sectors.
  - `fatwrite`: changes to a FAT32 volume: free clusters, linking and
    freeing chains, long-name and 8.3 records, aliases, creating and
    deleting entries.
  - `detect`: finding Windows, kernels and unified kernel images on the
    partition.
  - `kernel`: the Linux boot protocol: command line, setup header, initramfs,
    load plan.
  - `acpi`: finding the RSDP, the FADT and the `\_S5` sleep type, and the
    port writes that power the machine off.
  - `allocator`: the bump allocator's arithmetic.
  - `cli`: what the command-line tool computes: entry files, boot counters,
    the generated configuration, kernel options, install, MBR backup and
    status plans.
- `tests/` — tests on concrete values.
- `app/` — the command-line program and the bootloader's I/O around the
  library.

Laws that relate several functions are public proof functions named `law_*`.
