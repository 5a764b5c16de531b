use vibeos::part::{guid_efi, guid_linux, parse_image, BlockError, PartKind, TableOrigin, MBR_LINUX};
use vibeos::part_init::{
    blank_scan_next, count, device, find_name, flush, info, live, name_for, ram0_mbr_sectors, read,
    register_table, shell_lines, type_str, vda_gpt_sectors, ParentDisk, Registry, SectorWrite,
};

fn apply(disk: &mut [u8], writes: &[SectorWrite]) {
    for w in writes {
        let o = w.lba as usize * 512;
        disk[o..o + 512].copy_from_slice(&w.data);
    }
}

#[test]
fn ram0_stamp_parses_to_three_linux_children() {
    let writes = ram0_mbr_sectors();
    assert_eq!(writes.len(), 3);
    assert_eq!(writes[0].lba, 0);
    assert_eq!(writes[1].lba, 120);
    assert_eq!(writes[2].lba, 160);
    let mut disk = vec![0u8; 200 * 512];
    apply(&mut disk, &writes);
    let t = parse_image(&disk, 512).unwrap();
    assert_eq!(t.origin, TableOrigin::Mbr);
    assert_eq!(t.n, 3);
    assert_eq!((t.parts[0].start_lba, t.parts[0].nsectors), (80, 32));
    assert_eq!((t.parts[1].start_lba, t.parts[1].nsectors), (121, 24));
    assert_eq!((t.parts[2].start_lba, t.parts[2].nsectors), (161, 24));
    for i in 0..3 {
        assert_eq!(t.parts[i].kind, PartKind::Mbr { sys: MBR_LINUX });
    }
}

#[test]
fn vda_stamp_parses_to_efi_and_linux() {
    let cap: u64 = 2048;
    let writes = vda_gpt_sectors(cap, 512).unwrap();
    assert_eq!(writes.len(), 67);
    assert_eq!(writes[0].lba, 0);
    assert_eq!(writes[1].lba, 1);
    assert_eq!(writes[2].lba, 2);
    assert_eq!(writes[33].lba, 33);
    assert_eq!(writes[34].lba, cap - 33);
    assert_eq!(writes[65].lba, cap - 2);
    assert_eq!(writes[66].lba, cap - 1);
    let mut disk = vec![0u8; cap as usize * 512];
    apply(&mut disk, &writes);
    let t = parse_image(&disk, 512).unwrap();
    assert_eq!(t.origin, TableOrigin::Gpt { used_backup: false });
    assert_eq!(t.n, 2);
    assert_eq!((t.parts[0].start_lba, t.parts[0].nsectors), (256, 128));
    assert_eq!((t.parts[1].start_lba, t.parts[1].nsectors), (512, cap - 34 - 512 + 1));
    assert_eq!(t.parts[0].kind, PartKind::Gpt { type_guid: guid_efi() });
    assert_eq!(t.parts[1].kind, PartKind::Gpt { type_guid: guid_linux() });
}

#[test]
fn vda_stamp_backup_alone_still_parses() {
    let cap: u64 = 1024;
    let writes = vda_gpt_sectors(cap, 512).unwrap();
    let mut disk = vec![0u8; cap as usize * 512];
    apply(&mut disk, &writes);
    for b in &mut disk[512..1024] {
        *b = 0;
    }
    let t = parse_image(&disk, 512).unwrap();
    assert_eq!(t.origin, TableOrigin::Gpt { used_backup: true });
    assert_eq!(t.n, 2);
}

#[test]
fn vda_stamp_refuses_odd_disks() {
    assert_eq!(vda_gpt_sectors(1023, 512).err(), Some(BlockError::Inval));
    assert_eq!(vda_gpt_sectors(4096, 4096).err(), Some(BlockError::Inval));
    assert!(vda_gpt_sectors(1024, 512).is_ok());
}

#[test]
fn blank_scan_skips_the_middle() {
    assert_eq!(blank_scan_next(0, 1024), 1);
    assert_eq!(blank_scan_next(32, 1024), 33);
    assert_eq!(blank_scan_next(33, 1024), 991);
    assert_eq!(blank_scan_next(991, 1024), 992);
    assert_eq!(blank_scan_next(1023, 1024), 1024);
    assert_eq!(blank_scan_next(33, 67), 34);
    assert_eq!(blank_scan_next(33, 68), 35);
}

fn ram0_table() -> vibeos::part::Table {
    let writes = ram0_mbr_sectors();
    let mut disk = vec![0u8; 200 * 512];
    apply(&mut disk, &writes);
    parse_image(&disk, 512).unwrap()
}

fn vda_table(cap: u64) -> vibeos::part::Table {
    let writes = vda_gpt_sectors(cap, 512).unwrap();
    let mut disk = vec![0u8; cap as usize * 512];
    apply(&mut disk, &writes);
    parse_image(&disk, 512).unwrap()
}

#[test]
fn registry_names_children_per_parent() {
    let mut reg = Registry::new();
    assert!(!live(&reg));
    assert_eq!(register_table(&mut reg, ParentDisk::Ram0, 512, &ram0_table()), 3);
    assert_eq!(register_table(&mut reg, ParentDisk::Vda, 512, &vda_table(2048)), 2);
    reg.set_live();
    assert!(live(&reg));
    assert_eq!(count(&reg), 5);
    assert_eq!(info(&reg, 0).map(|x| (x.0, x.1, x.2)), Some(("ram0p1", 32, 512)));
    assert_eq!(info(&reg, 2).map(|x| (x.0, x.1, x.2)), Some(("ram0p3", 24, 512)));
    assert_eq!(info(&reg, 3).map(|x| (x.0, x.1)), Some(("vdap1", 128)));
    assert_eq!(info(&reg, 4).map(|x| (x.0, x.1)), Some(("vdap2", 2048 - 34 - 512 + 1)));
    assert!(info(&reg, 5).is_none());
    assert_eq!(find_name(&reg, "vdap2"), Some(4));
    assert_eq!(find_name(&reg, "ram0p2"), Some(1));
    assert_eq!(find_name(&reg, "vdap3"), None);
    assert_eq!(name_for(ParentDisk::Vda, 3), Some("vdap4"));
    assert_eq!(name_for(ParentDisk::Vda, 4), None);
    assert_eq!(name_for(ParentDisk::Ram0, 4), Some("ram0p5"));
}

#[test]
fn child_requests_map_onto_the_parent() {
    let mut reg = Registry::new();
    register_table(&mut reg, ParentDisk::Ram0, 512, &ram0_table());
    assert_eq!(read(&reg, 0, 0, 512), Ok((ParentDisk::Ram0, 80)));
    assert_eq!(vibeos::part_init::write(&reg, 1, 23, 512), Ok((ParentDisk::Ram0, 144)));
    assert_eq!(read(&reg, 1, 23, 1024), Err(BlockError::Inval));
    assert_eq!(read(&reg, 0, 0, 100), Err(BlockError::Inval));
    assert_eq!(read(&reg, 0, 0, 0), Err(BlockError::Inval));
    assert_eq!(read(&reg, 7, 0, 512), Err(BlockError::Failed));
    assert_eq!(flush(&reg, 2), Ok(ParentDisk::Ram0));
    assert_eq!(flush(&reg, 3), Err(BlockError::Failed));
    assert_eq!(device(&reg, 2), Some(2));
    assert_eq!(device(&reg, 3), None);
}

#[test]
fn shell_lines_print_one_line_per_child() {
    let mut reg = Registry::new();
    register_table(&mut reg, ParentDisk::Vda, 512, &vda_table(1024));
    let text = String::from_utf8(shell_lines(&reg)).unwrap();
    assert_eq!(
        text,
        "vibeOS: blk: vdap1 512 128 sectors ready efi\nvibeOS: blk: vdap2 512 479 sectors ready linux\n"
    );
    assert_eq!(type_str(PartKind::Mbr { sys: MBR_LINUX }), "linux");
}

#[test]
fn registry_stops_at_sixteen_children() {
    let mut reg = Registry::new();
    let t = ram0_table();
    let mut total = 0;
    for _ in 0..6 {
        total += register_table(&mut reg, ParentDisk::Ram0, 512, &t);
    }
    assert_eq!(total, 16);
    assert_eq!(count(&reg), 16);
    assert_eq!(register_table(&mut reg, ParentDisk::Vda, 512, &t), 0);
}
