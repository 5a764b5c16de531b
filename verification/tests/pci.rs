use vibeos::pci::{
    bar_map_allowed, cf8_addr, class_name, decode_bar, device_id, ecam_off, ecam_phys, enable_mem_master, enumerate,
    friendly_name, present, probe_bar, read16, read8, read_function, vendor_id, walk_caps, write16, write_command,
    write_lspci_line, BarKind, Traced, Bdf, CapSet, CfgIo, FuncInfo, CAP_MSI, CAP_MSIX, CAP_PCIE, CAP_PM, CAP_VENDOR,
    CFG_BAR0, CFG_CAP_PTR, CFG_COMMAND, CFG_DEVICE, CFG_HEADER_TYPE, CFG_IRQ_LINE, CFG_IRQ_PIN, CFG_REVID_CLASS,
    CFG_SEC_BUS, CFG_STATUS, CFG_VENDOR, CMD_MASTER, CMD_MEM, HEADER_BRIDGE, HEADER_DEVICE, HEADER_MULTI,
    MAX_BAR_MAP, STATUS_CAPS,
};

struct Fake {
    slots: [Option<Slot>; 16],
}

struct Slot {
    bdf: Bdf,
    data: [u8; 256],
    /// Writable mask per BAR dword. 0 = unimplemented.
    bar_rw: [u32; 6],
}

impl Fake {
    fn new() -> Self {
        Self { slots: std::array::from_fn(|_| None) }
    }

    fn slot_mut(&mut self, bdf: Bdf) -> &mut Slot {
        let found = self.slots.iter().position(|s| matches!(s, Some(sl) if sl.bdf == bdf));
        let i = match found {
            Some(i) => i,
            None => {
                let free = self.slots.iter().position(|s| s.is_none()).expect("fake bus full");
                self.slots[free] = Some(Slot { bdf, data: [0xFF; 256], bar_rw: [0; 6] });
                free
            }
        };
        self.slots[i].as_mut().unwrap()
    }

    fn put16(&mut self, bdf: Bdf, off: u16, v: u16) {
        let s = self.slot_mut(bdf);
        let o = off as usize;
        s.data[o] = v as u8;
        s.data[o + 1] = (v >> 8) as u8;
    }

    fn put8(&mut self, bdf: Bdf, off: u16, v: u8) {
        self.slot_mut(bdf).data[off as usize] = v;
    }

    fn put32(&mut self, bdf: Bdf, off: u16, v: u32) {
        let s = self.slot_mut(bdf);
        let o = (off as usize) & !3;
        s.data[o..o + 4].copy_from_slice(&v.to_le_bytes());
    }

    fn device(&mut self, bdf: Bdf, vendor: u16, device: u16, class: u8, subclass: u8) {
        self.put16(bdf, CFG_VENDOR, vendor);
        self.put16(bdf, CFG_DEVICE, device);
        self.put8(bdf, CFG_HEADER_TYPE, HEADER_DEVICE);
        self.put32(bdf, CFG_REVID_CLASS, (class as u32) << 24 | (subclass as u32) << 16);
        self.put16(bdf, CFG_STATUS, 0);
        self.put16(bdf, CFG_COMMAND, 0);
        self.put8(bdf, CFG_IRQ_PIN, 0);
        self.put8(bdf, CFG_IRQ_LINE, 0);
        for i in 0..6 {
            self.put32(bdf, CFG_BAR0 + i * 4, 0);
        }
    }

    fn set_bar32(&mut self, bdf: Bdf, index: u8, addr: u32, size: u32, io: bool) {
        let s = self.slot_mut(bdf);
        let i = index as usize;
        let flags = if io { 1u32 } else { 0 };
        s.bar_rw[i] = if io { !(size.wrapping_sub(1)) & !0x3 } else { !(size.wrapping_sub(1)) & !0xF };
        let o = (CFG_BAR0 as usize) + i * 4;
        let raw = (addr & s.bar_rw[i]) | flags;
        s.data[o..o + 4].copy_from_slice(&raw.to_le_bytes());
    }

    fn set_bar64(&mut self, bdf: Bdf, index: u8, addr: u64, size: u64) {
        let s = self.slot_mut(bdf);
        let i = index as usize;
        let mask = !(size.wrapping_sub(1));
        s.bar_rw[i] = (mask as u32) & !0xF;
        s.bar_rw[i + 1] = (mask >> 32) as u32;
        let lo = (addr as u32 & !0xF) | 0x4; // 64-bit mem
        let hi = (addr >> 32) as u32;
        let o = (CFG_BAR0 as usize) + i * 4;
        s.data[o..o + 4].copy_from_slice(&lo.to_le_bytes());
        s.data[o + 4..o + 8].copy_from_slice(&hi.to_le_bytes());
    }
}

impl CfgIo for Fake {
    fn read32(&mut self, bdf: Bdf, offset: u16) -> u32 {
        let off = (offset as usize) & !3;
        for sl in self.slots.iter().flatten() {
            if sl.bdf == bdf && off + 4 <= 256 {
                return u32::from_le_bytes(sl.data[off..off + 4].try_into().unwrap());
            }
        }
        0xFFFF_FFFF
    }

    fn write32(&mut self, bdf: Bdf, offset: u16, value: u32) {
        let off = (offset as usize) & !3;
        for sl in self.slots.iter_mut().flatten() {
            if sl.bdf != bdf || off + 4 > 256 {
                continue;
            }
            if (CFG_BAR0 as usize..CFG_BAR0 as usize + 24).contains(&off) {
                let i = (off - CFG_BAR0 as usize) / 4;
                let rw = sl.bar_rw[i];
                let cur = u32::from_le_bytes(sl.data[off..off + 4].try_into().unwrap());
                let flags = if i + 1 < 6 && sl.bar_rw[i + 1] != 0 && i % 2 == 0 {
                    cur & 0xF
                } else if cur & 1 != 0 {
                    cur & 0x3
                } else {
                    cur & 0xF
                };
                let stored = (value & rw) | flags;
                sl.data[off..off + 4].copy_from_slice(&stored.to_le_bytes());
                return;
            }
            sl.data[off..off + 4].copy_from_slice(&value.to_le_bytes());
            return;
        }
    }
}

#[test]
fn cf8_sets_enable_and_fields() {
    let a = cf8_addr(1, 2, 3, 0x12);
    assert_eq!(a & 0x8000_0000, 0x8000_0000);
    assert_eq!((a >> 16) & 0xFF, 1);
    assert_eq!((a >> 11) & 0x1F, 2);
    assert_eq!((a >> 8) & 0x7, 3);
    assert_eq!(a & 0xFC, 0x10);
    assert_eq!(cf8_addr(0, 0, 0, 0), 0x8000_0000);
}

#[test]
fn ecam_offset_and_window() {
    assert_eq!(ecam_off(0, 0, 0, 0), 0);
    assert_eq!(ecam_off(1, 2, 3, 0x10), (1 << 20) | (2 << 15) | (3 << 12) | 0x10);
    assert_eq!(ecam_phys(0xE000_0000, 0, 0xFF, 1, 0, 0, 0), Some(0xE000_0000 + (1 << 20)));
    assert_eq!(ecam_phys(0xE000_0000, 1, 3, 0, 0, 0, 0), None);
    assert_eq!(ecam_phys(0xB000_0000, 1, 3, 2, 0, 1, 4), Some(0xB000_0000 + ecam_off(1, 0, 1, 4)));
}

#[test]
fn config_rw_dword_and_16() {
    let mut f = Traced::new(Fake::new());
    let b = Bdf::new(0, 1, 0);
    f.io.device(b, 0x8086, 0x1237, 0x06, 0x00);
    assert_eq!(vendor_id(&mut f, b), 0x8086);
    assert_eq!(device_id(&mut f, b), 0x1237);
    f.io.write32(b, CFG_COMMAND, 0x0000_0007);
    assert_eq!(read16(&mut f, b, CFG_COMMAND), 7);
    write16(&mut f, b, CFG_COMMAND, 0x0006);
    assert_eq!(read16(&mut f, b, CFG_COMMAND), 6);
    assert_eq!(enable_mem_master(0), CMD_MEM | CMD_MASTER);
    f.io.put16(b, CFG_STATUS, 0xFFFF);
    write_command(&mut f, b, 0x0006);
    assert_eq!(read16(&mut f, b, CFG_COMMAND), 6);
    // High half written as 0 so RW1C STATUS bits are not cleared
    // by writing 1. Fake stores the dword as written.
    assert_eq!(read16(&mut f, b, CFG_STATUS), 0);
}

#[test]
fn bar_32_mem_size() {
    let (bar, wide) = decode_bar(0xF000_0000, 0, 0xFFFF_F000, 0);
    assert!(!wide);
    assert_eq!(bar.kind, BarKind::Mem32);
    assert_eq!(bar.addr, 0xF000_0000);
    assert_eq!(bar.size, 0x1000);
    assert!(bar_map_allowed(bar.size));
}

#[test]
fn bar_64_mem_size() {
    let (bar, wide) = decode_bar(0x4, 0x0000_0001, 0xFFFF_F004, 0xFFFF_FFFF);
    assert!(wide);
    assert_eq!(bar.kind, BarKind::Mem64);
    assert_eq!(bar.addr, 0x1_0000_0000);
    assert_eq!(bar.size, 0x1000);
}

#[test]
fn bar_io_size() {
    let (bar, wide) = decode_bar(0xC001, 0, 0xFFFF_FFFD, 0);
    assert!(!wide);
    assert_eq!(bar.kind, BarKind::Io);
    assert_eq!(bar.addr, 0xC000);
    assert_eq!(bar.size, 4);
}

#[test]
fn huge_bar_refused_for_map() {
    // 1 TiB 64-bit window.
    let size = 1u64 << 40;
    let mask = !(size - 1);
    let (bar, wide) = decode_bar(0x4, 0, mask as u32, (mask >> 32) as u32);
    assert!(wide);
    assert_eq!(bar.size, size);
    assert!(!bar_map_allowed(bar.size));
    assert!(bar_map_allowed(16 * 1024 * 1024));
    assert!(!bar_map_allowed(MAX_BAR_MAP + 1));
    assert!(!bar_map_allowed(0));
}

#[test]
fn probe_bar_restores_and_sizes() {
    let mut f = Traced::new(Fake::new());
    let b = Bdf::new(0, 2, 0);
    f.io.device(b, 0x1234, 0x1111, 0x03, 0x00);
    f.io.set_bar32(b, 0, 0xFD00_0000, 0x0100_0000, false);
    let orig = f.io.read32(b, CFG_BAR0);
    let (bar, wide) = probe_bar(&mut f, b, 0);
    assert!(!wide);
    assert_eq!(bar.kind, BarKind::Mem32);
    assert_eq!(bar.size, 0x0100_0000);
    assert_eq!(bar.addr, 0xFD00_0000);
    assert_eq!(f.io.read32(b, CFG_BAR0), orig);
    f.io.set_bar32(b, 1, 0xC000, 0x20, true);
    let (io, _) = probe_bar(&mut f, b, 1);
    assert_eq!(io.kind, BarKind::Io);
    assert_eq!(io.size, 0x20);
    assert_eq!(io.addr, 0xC000);
    f.io.set_bar64(b, 2, 0x12_0000_0000, 0x2000);
    let (b64, wide) = probe_bar(&mut f, b, 2);
    assert!(wide);
    assert_eq!(b64.kind, BarKind::Mem64);
    assert_eq!(b64.size, 0x2000);
    assert_eq!(b64.addr, 0x12_0000_0000);
}

#[test]
fn cap_walk_records_ids() {
    let mut f = Traced::new(Fake::new());
    let b = Bdf::new(0, 3, 0);
    f.io.device(b, 0x8086, 0x100e, 0x02, 0x00);
    f.io.put16(b, CFG_STATUS, STATUS_CAPS);
    f.io.put8(b, CFG_CAP_PTR, 0x40);
    // 0x40: PM, next 0x50
    f.io.put8(b, 0x40, CAP_PM);
    f.io.put8(b, 0x41, 0x50);
    // 0x50: MSI, next 0x60
    f.io.put8(b, 0x50, CAP_MSI);
    f.io.put8(b, 0x51, 0x60);
    // 0x60: MSI-X, next 0x70
    f.io.put8(b, 0x60, CAP_MSIX);
    f.io.put8(b, 0x61, 0x70);
    // 0x70: PCIe, next 0
    f.io.put8(b, 0x70, CAP_PCIE);
    f.io.put8(b, 0x71, 0);
    let c = walk_caps(&mut f, b);
    assert_eq!(c.pm, Some(0x40));
    assert_eq!(c.msi, Some(0x50));
    assert_eq!(c.msix, Some(0x60));
    assert_eq!(c.pcie, Some(0x70));
    let mut empty = Traced::new(Fake::new());
    empty.io.device(b, 0x8086, 0x1237, 0x06, 0x00);
    assert_eq!(walk_caps(&mut empty, b), CapSet::default());
}

#[test]
fn enumerate_follows_bridge() {
    let mut f = Traced::new(Fake::new());
    let host = Bdf::new(0, 0, 0);
    let br = Bdf::new(0, 1, 0);
    let leaf = Bdf::new(1, 0, 0);
    f.io.device(host, 0x8086, 0x1237, 0x06, 0x00);
    f.io.device(br, 0x8086, 0x2448, 0x06, 0x04);
    f.io.put8(br, CFG_HEADER_TYPE, HEADER_BRIDGE);
    f.io.put8(br, CFG_SEC_BUS, 1);
    f.io.device(leaf, 0x8086, 0x100e, 0x02, 0x00);
    let mut out = [FuncInfo::empty(); 8];
    let n = enumerate(&mut f, 0, &mut out);
    assert_eq!(n, 3);
    assert_eq!(out[0].device, 0x1237);
    assert_eq!(out[1].device, 0x2448);
    assert!(out[1].is_bridge());
    assert_eq!(out[2].bdf.bus, 1);
    assert_eq!(out[2].device, 0x100e);
    // BAR probe must not smash type-1 bus numbers.
    assert_eq!(read8(&mut f, br, CFG_SEC_BUS), 1);
}

#[test]
fn enumerate_skips_empty_and_unnumbered_bridge() {
    let mut f = Traced::new(Fake::new());
    let host = Bdf::new(0, 0, 0);
    let br = Bdf::new(0, 1, 0);
    f.io.device(host, 0x8086, 0x1237, 0x06, 0x00);
    f.io.device(br, 0x8086, 0x2448, 0x06, 0x04);
    f.io.put8(br, CFG_HEADER_TYPE, HEADER_BRIDGE);
    f.io.put8(br, CFG_SEC_BUS, 0);
    let mut out = [FuncInfo::empty(); 8];
    let n = enumerate(&mut f, 0, &mut out);
    assert_eq!(n, 2);
}

#[test]
fn multifunction_scans_other_fns() {
    let mut f = Traced::new(Fake::new());
    let a = Bdf::new(0, 1, 0);
    let b = Bdf::new(0, 1, 1);
    f.io.device(a, 0x8086, 0x7000, 0x06, 0x01);
    f.io.put8(a, CFG_HEADER_TYPE, HEADER_DEVICE | HEADER_MULTI);
    f.io.device(b, 0x8086, 0x7010, 0x01, 0x01);
    f.io.put8(b, CFG_HEADER_TYPE, HEADER_DEVICE | HEADER_MULTI);
    let mut out = [FuncInfo::empty(); 8];
    let n = enumerate(&mut f, 0, &mut out);
    assert_eq!(n, 2);
    assert_eq!(out[0].device, 0x7000);
    assert_eq!(out[1].device, 0x7010);
    assert_eq!(out[1].bdf.function, 1);
}

#[test]
fn missing_vendor_is_absent() {
    let mut f = Traced::new(Fake::new());
    assert!(!present(&mut f, Bdf::new(0, 7, 0)));
    assert!(read_function(&mut f, Bdf::new(0, 7, 0)).is_none());
}

#[test]
fn class_and_friendly_names() {
    assert_eq!(class_name(0x06, 0x00), "host bridge");
    assert_eq!(class_name(0x06, 0x01), "isa bridge");
    assert_eq!(class_name(0x01, 0x01), "ide");
    assert_eq!(class_name(0x03, 0x00), "vga");
    assert_eq!(class_name(0x02, 0x00), "ethernet");
    assert_eq!(class_name(0x99, 0x00), "device");
    assert_eq!(friendly_name(0x8086, 0x1237), Some("440FX"));
    assert_eq!(friendly_name(0x1234, 0x1111), Some("bochs"));
    assert_eq!(friendly_name(0x8086, 0x100e), Some("e1000"));
    assert_eq!(friendly_name(0x0000, 0x0000), None);
    let mut info = FuncInfo::empty();
    info.bdf = Bdf::new(0, 2, 0);
    info.vendor = 0x1234;
    info.device = 0x1111;
    info.class = 0x03;
    info.subclass = 0x00;
    let mut out = Vec::new();
    write_lspci_line(&mut out, &info);
    let s = String::from_utf8(out).unwrap();
    assert!(s.contains("00:02.0"));
    assert!(s.contains("1234:1111"));
    assert!(s.contains("vga"));
    assert!(s.contains("bochs"));
    assert_eq!(BarKind::Io.name(), "io");
    assert!(BarKind::Mem64.is_mem());
    assert!(!BarKind::Io.is_mem());
}

#[test]
fn cap_walk_stops_on_loop() {
    let mut f = Traced::new(Fake::new());
    let b = Bdf::new(0, 4, 0);
    f.io.device(b, 0x8086, 0x1237, 0x06, 0x00);
    f.io.put16(b, CFG_STATUS, STATUS_CAPS);
    f.io.put8(b, CFG_CAP_PTR, 0x40);
    f.io.put8(b, 0x40, CAP_VENDOR);
    f.io.put8(b, 0x41, 0x40);
    let c = walk_caps(&mut f, b);
    assert_eq!(c.vendor, Some(0x40));
}

#[test]
fn lspci_line_exact_text() {
    let mut info = FuncInfo::empty();
    info.bdf = Bdf::new(0x1a, 0x1f, 7);
    info.vendor = 0x8086;
    info.device = 0x100e;
    info.class = 0x02;
    let mut out = Vec::new();
    write_lspci_line(&mut out, &info);
    assert_eq!(String::from_utf8(out).unwrap(), "1a:1f.7 8086:100e ethernet [e1000]");
    assert_eq!(String::from_utf8(Bdf::new(0, 0, 0).fmt()).unwrap(), "00:00.0");
}

#[test]
fn capset_record_keeps_first_vendor() {
    let c = CapSet::empty().record(CAP_VENDOR, 0x40).record(CAP_VENDOR, 0x50).record(CAP_PM, 0x60);
    assert_eq!(c.vendor, Some(0x40));
    assert_eq!(c.pm, Some(0x60));
    assert_eq!(c.msi, None);
}
