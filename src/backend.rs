//! What the storage backends need decided before any device is touched:
//! the kind of a device, and the erase blocks that cover a region.
use vstd::prelude::*;

verus! {

#[derive(Clone, Copy, Debug, PartialEq, Eq, Structural)]
pub enum BackendKind {
    /// A block device or NOR flash written in place.
    RawBlock,
    /// NAND flash, whose bad blocks are skipped.
    NandSkipBadBlocks,
    /// A UBI volume, updated as a whole.
    UbiVolume,
}

pub open spec fn has_prefix(s: Seq<u8>, p: Seq<u8>) -> bool {
    s.len() >= p.len() && s.subrange(0, p.len() as int) == p
}

pub open spec fn ubi_prefix() -> Seq<u8> {
    seq![47u8, 100, 101, 118, 47, 117, 98, 105]
}

pub open spec fn mtd_prefix() -> Seq<u8> {
    seq![47u8, 100, 101, 118, 47, 109, 116, 100]
}

/// The backend of a device: a UBI volume under `/dev/ubi`, NAND for an MTD
/// device under `/dev/mtd` that reports NAND, else a raw device.
pub open spec fn backend_kind_spec(path: Seq<u8>, mtd_is_nand: bool) -> BackendKind {
    if has_prefix(path, ubi_prefix()) {
        BackendKind::UbiVolume
    } else if has_prefix(path, mtd_prefix()) && mtd_is_nand {
        BackendKind::NandSkipBadBlocks
    } else {
        BackendKind::RawBlock
    }
}

fn starts_with(s: &[u8], p: &[u8]) -> (r: bool)
    ensures
        r == has_prefix(s@, p@),
{
    if s.len() < p.len() {
        return false;
    }
    let mut i: usize = 0;
    while i < p.len()
        invariant
            p@.len() <= s@.len(),
            0 <= i <= p@.len(),
            forall|m: int| 0 <= m < i ==> s@[m] == p@[m],
        decreases p@.len() - i,
    {
        if s[i] != p[i] {
            assert(s@.subrange(0, p@.len() as int)[i as int] != p@[i as int]);
            return false;
        }
        i = i + 1;
    }
    assert(s@.subrange(0, p@.len() as int) =~= p@);
    true
}

pub fn backend_kind(path: &[u8], mtd_is_nand: bool) -> (r: BackendKind)
    ensures
        r == backend_kind_spec(path@, mtd_is_nand),
{
    let ubi: [u8; 8] = [47, 100, 101, 118, 47, 117, 98, 105];
    let mtd: [u8; 8] = [47, 100, 101, 118, 47, 109, 116, 100];
    assert(ubi@ =~= ubi_prefix());
    assert(mtd@ =~= mtd_prefix());
    if starts_with(path, ubi.as_slice()) {
        BackendKind::UbiVolume
    } else if mtd_is_nand && starts_with(path, mtd.as_slice()) {
        BackendKind::NandSkipBadBlocks
    } else {
        BackendKind::RawBlock
    }
}

/// The erase blocks that cover `[offset, offset + len)`: from the start of
/// the block holding `offset` to the end of the block holding the last byte.
pub open spec fn erase_span_spec(offset: int, len: int, erase: int) -> (int, int) {
    let n = offset + len;
    (offset / erase * erase, (n / erase + if n % erase == 0 { 0int } else { 1int }) * erase)
}

/// The byte range to erase before writing `len` bytes at `offset`, or
/// `None` if its end does not fit in 64 bits.
pub fn erase_span(offset: u64, len: u64, erase: u64) -> (r: Option<(u64, u64)>)
    requires
        erase > 0,
    ensures
        match r {
            Some((s, e)) => (s as int, e as int) == erase_span_spec(offset as int, len as int, erase as int),
            None => erase_span_spec(offset as int, len as int, erase as int).1 > u64::MAX as int,
        },
{
    let ghost e = erase as int;
    let q = offset / erase;
    proof {
        assert(q * e <= offset as int) by (nonlinear_arith)
            requires e > 0, q == offset as int / e;
    }
    let start = q * erase;
    if offset > u64::MAX - len {
        proof {
            let n: int = offset + len;
            assert((n / e + if n % e == 0 { 0int } else { 1int }) * e >= n) by (nonlinear_arith)
                requires e > 0, n >= 0;
        }
        return None;
    }
    let n = offset + len;
    let blocks: u64 = if n % erase == 0 { n / erase } else {
        proof {
            assert(n as int / e < n as int) by (nonlinear_arith)
                requires e > 1, n > 0;
        }
        n / erase + 1
    };
    if blocks > u64::MAX / erase {
        proof {
            let m: int = u64::MAX as int;
            assert(blocks * e > m) by (nonlinear_arith)
                requires e > 0, blocks > m / e, m >= 0;
        }
        return None;
    }
    proof {
        let m: int = u64::MAX as int;
        assert(blocks * e <= m) by (nonlinear_arith)
            requires e > 0, blocks <= m / e, m >= 0;
    }
    Some((start, blocks * erase))
}

/// The blocks that a NAND region uses, from block `i` on: the first good
/// ones after those in `acc`, until `needed` are found; `None` if the
/// blocks run out first.
pub open spec fn good_blocks_from(bad: Seq<bool>, i: int, needed: nat, acc: Seq<usize>) -> Option<Seq<usize>>
    decreases bad.len() - i,
{
    if acc.len() >= needed {
        Some(acc)
    } else if i < 0 || i >= bad.len() {
        None
    } else if bad[i] {
        good_blocks_from(bad, i + 1, needed, acc)
    } else {
        good_blocks_from(bad, i + 1, needed, acc.push(i as usize))
    }
}

/// Picks, in order, the first `needed` blocks not marked bad: where a NAND
/// region is read from and written to, bad blocks skipped.
pub fn plan_nand_blocks(bad: &Vec<bool>, needed: usize) -> (r: Option<Vec<usize>>)
    ensures
        match r {
            Some(v) => good_blocks_from(bad@, 0, needed as nat, Seq::empty()) == Some(v@),
            None => good_blocks_from(bad@, 0, needed as nat, Seq::empty()) is None,
        },
{
    let mut out: Vec<usize> = Vec::new();
    let mut i: usize = 0;
    while out.len() < needed
        invariant
            0 <= i <= bad@.len(),
            good_blocks_from(bad@, i as int, needed as nat, out@) == good_blocks_from(bad@, 0, needed as nat, Seq::empty()),
        decreases bad@.len() - i,
    {
        if i >= bad.len() {
            return None;
        }
        if !bad[i] {
            out.push(i);
        }
        i = i + 1;
    }
    Some(out)
}

} // verus!
