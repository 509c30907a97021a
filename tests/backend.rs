use ubootenv::backend::{backend_kind, erase_span, plan_nand_blocks, BackendKind};

#[test]
fn backend_kinds() {
    assert_eq!(backend_kind(b"/dev/ubi0_1", false), BackendKind::UbiVolume);
    assert_eq!(backend_kind(b"/dev/mtd3", true), BackendKind::NandSkipBadBlocks);
    assert_eq!(backend_kind(b"/dev/mtd3", false), BackendKind::RawBlock);
    assert_eq!(backend_kind(b"/dev/mmcblk0", true), BackendKind::RawBlock);
    assert_eq!(backend_kind(b"/dev", true), BackendKind::RawBlock);
}

#[test]
fn erase_spans() {
    assert_eq!(erase_span(0x0, 0x4000, 0x10000), Some((0, 0x10000)));
    assert_eq!(erase_span(0x12000, 0x4000, 0x10000), Some((0x10000, 0x20000)));
    assert_eq!(erase_span(0xe000, 0x4000, 0x10000), Some((0, 0x20000)));
    assert_eq!(erase_span(0x10000, 0x10000, 0x10000), Some((0x10000, 0x20000)));
    assert_eq!(erase_span(u64::MAX - 4, 4, 16), None);
    assert_eq!(erase_span(u64::MAX, 1, 1), None);
    assert_eq!(erase_span(u64::MAX - 1, 1, 1), Some((u64::MAX - 1, u64::MAX)));
}

#[test]
fn nand_block_plan() {
    assert_eq!(plan_nand_blocks(&vec![false, true, false, false], 2), Some(vec![0, 2]));
    assert_eq!(plan_nand_blocks(&vec![true, true, false], 1), Some(vec![2]));
    assert_eq!(plan_nand_blocks(&vec![true, false], 2), None);
    assert_eq!(plan_nand_blocks(&vec![], 0), Some(vec![]));
}
