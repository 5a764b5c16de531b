use vibeos::part::{
    crc32_ieee, entries_crc, gpt_sig, gpt_type_name, guid_basic, guid_bios_boot, guid_efi, guid_linux, guid_lvm,
    guid_swap, guid_unused, is_extended, map_child_lba, mbr_type_name, pack_ebr, pack_gpt_entry, pack_gpt_header,
    pack_mbr, pack_protective_mbr, parse, parse_image, write_mbr_entry, BlockError, GptHeaderInfo, ImageReader,
    PartError, PartKind, TableOrigin, GPT_ENTRY_SIZE, MBR_EXTENDED, MBR_EXTENDED_LBA, MBR_FAT32_LBA, MBR_LINUX,
    MBR_PROTECTIVE,
};

fn disk(n: usize) -> Vec<u8> {
    vec![0u8; n]
}

fn put(disk: &mut [u8], lba: u64, sec: &[u8]) {
    let o = lba as usize * 512;
    disk[o..o + 512].copy_from_slice(sec);
}

#[test]
fn crc32_known() {
    assert_eq!(crc32_ieee(b"123456789"), 0xCBF4_3926);
    assert_eq!(crc32_ieee(b""), 0);
}

#[test]
fn child_lba_clip() {
    assert_eq!(map_child_lba(100, 50, 0, 10).unwrap(), 100);
    assert_eq!(map_child_lba(100, 50, 40, 10).unwrap(), 140);
    assert_eq!(map_child_lba(100, 50, 41, 10), Err(BlockError::Inval));
    assert_eq!(map_child_lba(100, 50, 50, 1), Err(BlockError::Inval));
    assert_eq!(map_child_lba(u64::MAX - 5, 10, 6, 1), Err(BlockError::Inval));
    assert_eq!(map_child_lba(100, 50, 0, 0), Err(BlockError::Inval));
}

#[test]
fn guid_names() {
    assert_eq!(gpt_type_name(&guid_efi()), "efi");
    assert_eq!(gpt_type_name(&guid_linux()), "linux");
    assert_eq!(gpt_type_name(&guid_swap()), "swap");
    assert_eq!(gpt_type_name(&guid_basic()), "basic");
    assert_eq!(gpt_type_name(&guid_lvm()), "lvm");
    assert_eq!(gpt_type_name(&guid_bios_boot()), "bios");
    assert_eq!(gpt_type_name(&guid_unused()), "unused");
    assert_eq!(mbr_type_name(MBR_LINUX), "linux");
    assert_eq!(mbr_type_name(MBR_PROTECTIVE), "protective");
    assert_eq!(mbr_type_name(MBR_EXTENDED_LBA), "extended");
}

#[test]
fn mbr_primaries() {
    let mut d = disk(64 * 512);
    let mut mbr = [0u8; 512];
    pack_mbr(&mut mbr, &[(MBR_LINUX, 8, 16), (MBR_FAT32_LBA, 32, 16), (0, 0, 0), (0, 0, 0)]);
    put(&mut d, 0, &mbr);
    let t = parse_image(&d, 512).unwrap();
    assert_eq!(t.origin, TableOrigin::Mbr);
    assert_eq!(t.n, 2);
    assert_eq!(t.parts[0].start_lba, 8);
    assert_eq!(t.parts[0].nsectors, 16);
    assert_eq!(t.parts[0].index, 1);
    assert_eq!(t.parts[1].start_lba, 32);
    assert_eq!(
        mbr_type_name(match t.parts[0].kind {
            PartKind::Mbr { sys } => sys,
            PartKind::Gpt { .. } => panic!("gpt"),
        }),
        "linux"
    );
}

#[test]
fn mbr_extended_logical() {
    let mut d = disk(256 * 512);
    let mut mbr = [0u8; 512];
    pack_mbr(&mut mbr, &[(MBR_LINUX, 8, 16), (MBR_EXTENDED, 40, 80), (0, 0, 0), (0, 0, 0)]);
    put(&mut d, 0, &mbr);
    let mut e1 = [0u8; 512];
    pack_ebr(&mut e1, MBR_LINUX, 1, 16, 32, 24);
    put(&mut d, 40, &e1);
    let mut e2 = [0u8; 512];
    pack_ebr(&mut e2, MBR_LINUX, 1, 16, 0, 0);
    put(&mut d, 72, &e2);
    let t = parse_image(&d, 512).unwrap();
    assert_eq!(t.n, 3);
    assert_eq!(t.parts[0].start_lba, 8);
    assert_eq!(t.parts[1].start_lba, 41);
    assert_eq!(t.parts[1].nsectors, 16);
    assert_eq!(t.parts[2].start_lba, 73);
    assert_eq!(t.parts[2].index, 3);
}

#[test]
fn mbr_corrupt_next_lba_fails_safe() {
    let mut d = disk(128 * 512);
    let mut mbr = [0u8; 512];
    pack_mbr(&mut mbr, &[(MBR_EXTENDED, 8, 40), (0, 0, 0), (0, 0, 0), (0, 0, 0)]);
    put(&mut d, 0, &mbr);
    let mut e1 = [0u8; 512];
    pack_ebr(&mut e1, MBR_LINUX, 1, 8, 0, 0);
    // next-LBA past the disk
    write_mbr_entry(&mut e1, 1, MBR_EXTENDED, 10_000, 8);
    put(&mut d, 8, &e1);
    let t = parse_image(&d, 512).unwrap();
    assert_eq!(t.n, 1);
    assert_eq!(t.parts[0].start_lba, 9);
}

#[test]
fn mbr_ebr_cycle_bounded() {
    let mut d = disk(64 * 512);
    let mut mbr = [0u8; 512];
    pack_mbr(&mut mbr, &[(MBR_EXTENDED, 8, 32), (0, 0, 0), (0, 0, 0), (0, 0, 0)]);
    put(&mut d, 0, &mbr);
    let mut e1 = [0u8; 512];
    pack_ebr(&mut e1, MBR_LINUX, 1, 4, 0, 0);
    write_mbr_entry(&mut e1, 1, MBR_EXTENDED, 0, 8); // next = ext_start + 0 = 8 (self)
    put(&mut d, 8, &e1);
    let t = parse_image(&d, 512).unwrap();
    assert_eq!(t.n, 1);
}

fn gpt_disk(nsect: u64, parts: &[([u8; 16], u64, u64, &str)]) -> Vec<u8> {
    let mut d = disk(nsect as usize * 512);
    let nent = 128u32;
    let esz = GPT_ENTRY_SIZE;
    let elen = nent as usize * esz as usize;
    let mut entries = vec![0u8; elen];
    let mut i = 0usize;
    while i < parts.len() {
        let (guid, first, last, name) = parts[i];
        let mut uniq = [0u8; 16];
        uniq[0] = (i as u8) + 1;
        pack_gpt_entry(&mut entries[i * esz as usize..], &guid, &uniq, first, last, name);
        i += 1;
    }
    let ecrc = entries_crc(&entries);
    let mut guid = [0u8; 16];
    guid[0] = 0x11;
    let first_usable = 34u64;
    let last_usable = nsect - 34;
    let mut ph = [0u8; 512];
    pack_gpt_header(
        &mut ph,
        &GptHeaderInfo {
            my_lba: 1,
            alt_lba: nsect - 1,
            first_usable,
            last_usable,
            disk_guid: guid,
            part_lba: 2,
            part_count: nent,
            part_size: esz,
            entries_crc: ecrc,
        },
    );
    let mut bh = [0u8; 512];
    pack_gpt_header(
        &mut bh,
        &GptHeaderInfo {
            my_lba: nsect - 1,
            alt_lba: 1,
            first_usable,
            last_usable,
            disk_guid: guid,
            part_lba: nsect - 33,
            part_count: nent,
            part_size: esz,
            entries_crc: ecrc,
        },
    );
    let mut pmbr = [0u8; 512];
    pack_protective_mbr(&mut pmbr, nsect);
    put(&mut d, 0, &pmbr);
    put(&mut d, 1, &ph);
    let mut s = 0usize;
    while s < 32 {
        put(&mut d, 2 + s as u64, &entries[s * 512..s * 512 + 512]);
        s += 1;
    }
    s = 0;
    while s < 32 {
        put(&mut d, nsect - 33 + s as u64, &entries[s * 512..s * 512 + 512]);
        s += 1;
    }
    put(&mut d, nsect - 1, &bh);
    d
}

#[test]
fn gpt_roundtrip_and_types() {
    let d = gpt_disk(1024, &[(guid_efi(), 34, 97, "EFI"), (guid_linux(), 98, 500, "Linux")]);
    let t = parse_image(&d, 512).unwrap();
    assert_eq!(t.origin, TableOrigin::Gpt { used_backup: false });
    assert_eq!(t.n, 2);
    assert_eq!(t.parts[0].start_lba, 34);
    assert_eq!(t.parts[0].nsectors, 64);
    match t.parts[0].kind {
        PartKind::Gpt { type_guid } => assert_eq!(gpt_type_name(&type_guid), "efi"),
        PartKind::Mbr { .. } => panic!("mbr"),
    }
    match t.parts[1].kind {
        PartKind::Gpt { type_guid } => assert_eq!(gpt_type_name(&type_guid), "linux"),
        PartKind::Mbr { .. } => panic!("mbr"),
    }
    // protective 0xEE is not a child
    let mut saw_ee = false;
    let mut i = 0usize;
    while i < t.n {
        if let PartKind::Mbr { sys } = t.parts[i].kind {
            if sys == MBR_PROTECTIVE {
                saw_ee = true;
            }
        }
        i += 1;
    }
    assert!(!saw_ee);
}

#[test]
fn gpt_bad_primary_crc_uses_backup() {
    let mut d = gpt_disk(1024, &[(guid_linux(), 34, 200, "L")]);
    d[512 + 16] ^= 0xFF;
    let t = parse_image(&d, 512).unwrap();
    assert_eq!(t.origin, TableOrigin::Gpt { used_backup: true });
    assert_eq!(t.n, 1);
    assert_eq!(t.parts[0].nsectors, 167);
}

#[test]
fn gpt_bad_entry_crc_uses_backup() {
    let mut d = gpt_disk(1024, &[(guid_linux(), 34, 80, "L")]);
    // smash primary entry array, leave backup
    d[2 * 512] ^= 0xA5;
    let t = parse_image(&d, 512).unwrap();
    assert_eq!(t.origin, TableOrigin::Gpt { used_backup: true });
    assert_eq!(t.n, 1);
}

#[test]
fn gpt_both_headers_bad() {
    let mut d = gpt_disk(1024, &[(guid_linux(), 34, 80, "L")]);
    d[512 + 16] ^= 0xFF;
    let last = d.len() - 512;
    d[last + 16] ^= 0xFF;
    assert_eq!(parse_image(&d, 512), Err(PartError::BadCrc));
}

#[test]
fn truncated_table() {
    let d = vec![0u8; 200];
    assert!(matches!(
        parse_image(&d, 512),
        Err(PartError::Empty) | Err(PartError::Truncated) | Err(PartError::Invalid)
    ));
    let mut mbr = disk(512);
    pack_mbr(&mut mbr, &[(MBR_LINUX, 8, 16), (0, 0, 0), (0, 0, 0), (0, 0, 0)]);
    // table claims partitions past the truncated image
    assert_eq!(parse_image(&mbr, 512).unwrap().n, 0);
}

#[test]
fn protective_mbr_alone_is_not_the_disk() {
    let mut d = disk(64 * 512);
    let mut mbr = [0u8; 512];
    pack_protective_mbr(&mut mbr, 64);
    put(&mut d, 0, &mbr);
    // no GPT headers -> error, not a 0xEE child
    assert_eq!(parse_image(&d, 512), Err(PartError::BadCrc));
}

#[test]
fn empty_is_empty() {
    let d = disk(32 * 512);
    assert_eq!(parse_image(&d, 512), Err(PartError::Empty));
}

#[test]
fn error_strings() {
    assert_eq!(PartError::BadCrc.as_str(), "bad crc");
    assert_eq!(PartError::Truncated.as_str(), "truncated");
}

#[test]
fn parse_through_a_sector_reader() {
    let d = gpt_disk(1024, &[(guid_linux(), 34, 200, "L")]);
    let mut reader = ImageReader { disk: &d, sector_size: 512 };
    let mut sector = vec![0u8; 512];
    let mut scratch = vec![0u8; 128 * 128];
    let t = parse(1024, 512, &mut reader, &mut sector, &mut scratch).unwrap();
    assert_eq!(t.n, 1);
    assert_eq!(t.parts[0].start_lba, 34);
    assert_eq!(t.parts[0].nsectors, 167);
    assert_eq!(parse(1024, 0, &mut reader, &mut sector, &mut scratch), Err(PartError::Invalid));
}

#[test]
fn signature_and_extended_kinds() {
    assert_eq!(&gpt_sig(), b"EFI PART");
    assert!(is_extended(MBR_EXTENDED));
    assert!(is_extended(MBR_EXTENDED_LBA));
    assert!(!is_extended(MBR_LINUX));
}

#[test]
fn parse_early_errors_touch_nothing() {
    let d = gpt_disk(1024, &[(guid_linux(), 34, 200, "L")]);
    let mut reader = ImageReader { disk: &d, sector_size: 512 };
    let mut sector = vec![0xA5u8; 512];
    let mut scratch = vec![0x5Au8; 64];
    assert_eq!(parse(1024, 0, &mut reader, &mut sector, &mut scratch), Err(PartError::Invalid));
    assert_eq!(parse(1024, 1024, &mut reader, &mut sector, &mut scratch), Err(PartError::Invalid));
    assert_eq!(parse(0, 512, &mut reader, &mut sector, &mut scratch), Err(PartError::Empty));
    assert!(sector.iter().all(|&b| b == 0xA5));
    assert!(scratch.iter().all(|&b| b == 0x5A));
}
