use vibeos::pci::{Bar, BarKind, FuncInfo};
use vibeos::pci_init::{bar_plans, BarPlan};

#[test]
fn display_bar0_stays_write_back() {
    let mut info = FuncInfo::empty();
    info.class = 0x03;
    info.subclass = 0x00;
    info.bars[0] = Bar { kind: BarKind::Mem32, prefetchable: true, addr: 0xFD00_0000, size: 0x100_0000 };
    info.bars[1] = Bar { kind: BarKind::Io, prefetchable: false, addr: 0xC000, size: 0x20 };
    info.bars[2] = Bar { kind: BarKind::Mem64, prefetchable: false, addr: 0xFE00_0000, size: 0x1000 };
    info.bars[3] = Bar { kind: BarKind::Mem64, prefetchable: true, addr: 0x80_0000_0000, size: 0x4000_0000 };
    info.bars[4] = Bar { kind: BarKind::Mem32, prefetchable: false, addr: 0, size: 0x1000 };
    let p = bar_plans(&info);
    assert_eq!(p[0], BarPlan::MapIt { addr: 0xFD00_0000, size: 0x100_0000, keep_wb: true });
    assert_eq!(p[1], BarPlan::Skip);
    assert_eq!(p[2], BarPlan::MapIt { addr: 0xFE00_0000, size: 0x1000, keep_wb: false });
    assert_eq!(p[3], BarPlan::TooBig);
    assert_eq!(p[4], BarPlan::Skip);
    assert_eq!(p[5], BarPlan::Skip);
}

#[test]
fn other_classes_map_uncached() {
    let mut info = FuncInfo::empty();
    info.class = 0x01;
    info.bars[0] = Bar { kind: BarKind::Mem32, prefetchable: false, addr: 0xFEB0_0000, size: 0x1000 };
    assert_eq!(bar_plans(&info)[0], BarPlan::MapIt { addr: 0xFEB0_0000, size: 0x1000, keep_wb: false });
}
