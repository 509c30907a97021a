//! The environment blob: a CRC-32 header, an optional flag byte, then
//! `name=value` records each ended by NUL, the list ended by an empty record.
use vstd::prelude::*;
use crate::bytes::{copy_range, push_range};
use crate::table::{
    EntryView, VarTable, EQ_SIGN, has_name, lemma_set_keeps_wf,
    tbl_set, valid_name, valid_value, wf_table,
};

verus! {

/// What CRC-32 (IEEE, as zlib computes it) gives for the bytes.
pub uninterp spec fn crc32_of(data: Seq<u8>) -> u32;

/// Relies on crc32fast::hash: the CRC-32 (IEEE) of `data`, which depends on
/// the bytes alone.
#[verifier::external_body]
fn crc32(data: &[u8]) -> (r: u32)
    ensures
        r == crc32_of(data@),
{
    crc32fast::hash(data)
}

#[derive(Clone, Copy, Debug, PartialEq, Eq, Structural)]
pub enum EncodeError {
    /// The records and their terminator do not fit in the region.
    Overflow,
}

#[derive(Clone, Copy, Debug, PartialEq, Eq, Structural)]
pub enum DecodeError {
    /// The blob is shorter than its header.
    Truncated,
    /// The stored checksum differs from the payload's.
    ChecksumMismatch,
    /// A record has no `=`, or nothing before it.
    InvalidEntry,
}

/// Bytes taken by the header: the checksum, and the flag in redundant mode.
pub open spec fn header_size(redundant: bool) -> nat {
    if redundant { 5 } else { 4 }
}

pub fn header_len(redundant: bool) -> (r: usize)
    ensures
        r == header_size(redundant),
{
    if redundant { 5 } else { 4 }
}

/// One record: `name=value` and a NUL.
pub open spec fn record(e: EntryView) -> Seq<u8> {
    e.0 + seq![EQ_SIGN] + e.1 + seq![0u8]
}

/// All records of a table, in order, without the terminating empty record.
pub open spec fn records(t: Seq<EntryView>) -> Seq<u8>
    decreases t.len(),
{
    if t.len() == 0 {
        Seq::empty()
    } else {
        records(t.drop_last()) + record(t.last())
    }
}

pub open spec fn zeros(n: nat) -> Seq<u8> {
    Seq::new(n, |i: int| 0u8)
}

/// The table's records and the terminating NUL fit in `size` bytes.
pub open spec fn fits(t: Seq<EntryView>, size: nat) -> bool {
    records(t).len() + 1 <= size
}

/// The payload of `size` bytes: the records, then NUL up to the end (the
/// first of which ends the list).
pub open spec fn payload_of(t: Seq<EntryView>, size: nat) -> Seq<u8> {
    records(t) + zeros((size - records(t).len()) as nat)
}

/// `x` as four bytes, least significant first.
pub open spec fn le_bytes(x: u32) -> Seq<u8> {
    seq![(x & 0xff) as u8, ((x >> 8u32) & 0xff) as u8, ((x >> 16u32) & 0xff) as u8, ((x >> 24u32) & 0xff) as u8]
}

/// The integer stored least significant byte first in `b[0..4]`.
pub open spec fn le_u32(b: Seq<u8>) -> u32 {
    (b[0] as u32) | ((b[1] as u32) << 8u32) | ((b[2] as u32) << 16u32) | ((b[3] as u32) << 24u32)
}

pub open spec fn flag_bytes(redundant: bool, flag: u8) -> Seq<u8> {
    if redundant { seq![flag] } else { Seq::empty() }
}

/// The blob of `env_size` bytes that holds `t`, or why there is none.
pub open spec fn encode_spec(t: Seq<EntryView>, env_size: nat, redundant: bool, flag: u8) -> Result<Seq<u8>, EncodeError> {
    if env_size >= header_size(redundant) && fits(t, (env_size - header_size(redundant)) as nat) {
        let p = payload_of(t, (env_size - header_size(redundant)) as nat);
        Ok(le_bytes(crc32_of(p)) + flag_bytes(redundant, flag) + p)
    } else {
        Err(EncodeError::Overflow)
    }
}

/// How many bytes from `i` on come before a NUL or the end.
pub open spec fn rec_len(p: Seq<u8>, i: int) -> nat
    decreases p.len() - i,
{
    if i < 0 || i >= p.len() || p[i] == 0 {
        0
    } else {
        1 + rec_len(p, i + 1)
    }
}

/// The first NUL at or after `i`, or the end.
pub open spec fn next_nul(p: Seq<u8>, i: int) -> int {
    i + rec_len(p, i)
}

/// The first `=` in `p[i..j]`, or `j`.
pub open spec fn next_eq(p: Seq<u8>, i: int, j: int) -> int
    decreases j - i,
{
    if i < 0 || i >= j || i >= p.len() {
        j
    } else if p[i] == EQ_SIGN {
        i
    } else {
        next_eq(p, i + 1, j)
    }
}

/// Parses the records from position `i` on into `acc`; a later record of a
/// name overrides an earlier one.
pub open spec fn parse_from(p: Seq<u8>, i: int, acc: Seq<EntryView>) -> Result<Seq<EntryView>, DecodeError>
    decreases p.len() + 1 - i
    via parse_from_decreases
{
    if i < 0 || i >= p.len() || p[i] == 0 {
        Ok(acc)
    } else {
        let j = next_nul(p, i);
        let k = next_eq(p, i, j);
        if k == j || k == i {
            Err(DecodeError::InvalidEntry)
        } else {
            parse_from(p, j + 1, tbl_set(acc, p.subrange(i, k), p.subrange(k + 1, j)))
        }
    }
}

#[via_fn]
proof fn parse_from_decreases(p: Seq<u8>, i: int, acc: Seq<EntryView>) {
    if !(i < 0 || i >= p.len() || p[i] == 0) {
        lemma_next_nul_bounds(p, i);
    }
}

/// The table that a payload holds.
pub open spec fn parse_spec(p: Seq<u8>) -> Result<Seq<EntryView>, DecodeError> {
    parse_from(p, 0, Seq::empty())
}

/// What decoding a blob gives, as the contracts see it.
pub type EntryViewResult = Result<(u8, Seq<EntryView>), DecodeError>;

/// What a blob decodes to: its flag (0 without one) and its table.
pub open spec fn decode_spec(b: Seq<u8>, redundant: bool) -> Result<(u8, Seq<EntryView>), DecodeError> {
    if b.len() < header_size(redundant) {
        Err(DecodeError::Truncated)
    } else {
        let p = b.subrange(header_size(redundant) as int, b.len() as int);
        if le_u32(b) != crc32_of(p) {
            Err(DecodeError::ChecksumMismatch)
        } else {
            match parse_spec(p) {
                Ok(t) => Ok((if redundant { b[4] } else { 0u8 }, t)),
                Err(e) => Err(e),
            }
        }
    }
}

pub proof fn lemma_next_nul_bounds(p: Seq<u8>, i: int)
    requires
        0 <= i <= p.len(),
    ensures
        i <= next_nul(p, i) <= p.len(),
        next_nul(p, i) < p.len() ==> p[next_nul(p, i)] == 0,
    decreases p.len() - i,
{
    if i < p.len() && p[i] != 0 {
        lemma_next_nul_bounds(p, i + 1);
    }
}

proof fn lemma_next_nul_at(p: Seq<u8>, i: int, j: int)
    requires
        0 <= i <= j < p.len(),
        p[j] == 0,
        forall|m: int| i <= m < j ==> p[m] != 0,
    ensures
        next_nul(p, i) == j,
    decreases j - i,
{
    if i < j {
        lemma_next_nul_at(p, i + 1, j);
    }
}

proof fn lemma_next_eq_at(p: Seq<u8>, i: int, k: int, j: int)
    requires
        0 <= i <= k < j <= p.len(),
        p[k] == EQ_SIGN,
        forall|m: int| i <= m < k ==> p[m] != EQ_SIGN,
    ensures
        next_eq(p, i, j) == k,
    decreases k - i,
{
    if i < k {
        lemma_next_eq_at(p, i + 1, k, j);
    }
}

pub proof fn lemma_records_step(t: Seq<EntryView>, k: int)
    requires
        0 <= k < t.len(),
    ensures
        records(t.take(k + 1)) == records(t.take(k)) + record(t[k]),
{
    assert(t.take(k + 1).drop_last() =~= t.take(k));
}

/// The records of a prefix of a table begin the records of the table.
pub proof fn lemma_records_prefix(t: Seq<EntryView>, k: int)
    requires
        0 <= k <= t.len(),
    ensures
        records(t.take(k)).len() <= records(t).len(),
        records(t).subrange(0, records(t.take(k)).len() as int) == records(t.take(k)),
    decreases t.len(),
{
    if k == t.len() {
        assert(t.take(k) =~= t);
        assert(records(t).subrange(0, records(t).len() as int) =~= records(t));
    } else {
        let s = t.drop_last();
        lemma_records_prefix(s, k);
        assert(s.take(k) =~= t.take(k));
        let a = records(t.take(k));
        assert(records(t).subrange(0, a.len() as int) =~= records(s).subrange(0, a.len() as int));
    }
}

/// A payload made from a well-formed table that fits parses back to it.
proof fn lemma_parse_payload(t: Seq<EntryView>, size: nat, k: int)
    requires
        wf_table(t),
        fits(t, size),
        0 <= k <= t.len(),
    ensures
        parse_from(payload_of(t, size), records(t.take(k)).len() as int, t.take(k)) == Ok::<Seq<EntryView>, DecodeError>(t),
    decreases t.len() - k,
{
    let p = payload_of(t, size);
    let i = records(t.take(k)).len() as int;
    lemma_records_prefix(t, k);
    if k == t.len() {
        assert(t.take(k) =~= t);
        assert(p[i] == 0);
    } else {
        lemma_records_step(t, k);
        lemma_records_prefix(t, k + 1);
        let e = t[k];
        let rt = records(t);
        let r1 = records(t.take(k + 1));
        assert(valid_name(e.0) && valid_value(e.1));
        let kk = i + e.0.len();
        let j = kk + 1 + e.1.len();
        assert(r1.len() == j + 1);
        assert forall|m: int| i <= m <= j implies p[m] == #[trigger] record(e)[m - i] by {
            assert(rt.subrange(0, r1.len() as int)[m] == r1[m]);
        }
        assert(p[i] == record(e)[i - i]);
        assert(record(e)[0] == e.0[0]);
        assert forall|m: int| i <= m < j implies p[m] != 0 by {
            assert(p[m] == record(e)[m - i]);
            if m < kk {
                assert(record(e)[m - i] == e.0[m - i]);
            } else if m > kk {
                assert(record(e)[m - i] == e.1[m - kk - 1]);
            }
        }
        assert(p[j] == record(e)[j - i]);
        lemma_next_nul_at(p, i, j);
        assert forall|m: int| i <= m < kk implies p[m] != EQ_SIGN by {
            assert(p[m] == record(e)[m - i]);
            assert(record(e)[m - i] == e.0[m - i]);
        }
        assert(p[kk] == record(e)[kk - i]);
        lemma_next_eq_at(p, i, kk, j);
        assert(p.subrange(i, kk) =~= e.0) by {
            assert forall|m: int| 0 <= m < e.0.len() implies p.subrange(i, kk)[m] == e.0[m] by {
                assert(p[i + m] == record(e)[(i + m) - i]);
                assert(record(e)[m] == e.0[m]);
            }
        }
        assert(p.subrange(kk + 1, j) =~= e.1) by {
            assert forall|m: int| 0 <= m < e.1.len() implies p.subrange(kk + 1, j)[m] == e.1[m] by {
                assert(p[kk + 1 + m] == record(e)[(kk + 1 + m) - i]);
                assert(record(e)[e.0.len() + 1 + m] == e.1[m]);
            }
        }
        let pre = t.take(k);
        assert(!has_name(pre, e.0)) by {
            if has_name(pre, e.0) {
                let q = choose|q: int| 0 <= q < pre.len() && pre[q].0 == e.0;
                assert(t[q].0 == t[k].0);
            }
        }
        assert(tbl_set(pre, e.0, e.1) =~= t.take(k + 1));
        lemma_parse_payload(t, size, k + 1);
    }
}

/// The records of a well-formed table that fits, written into a payload,
/// parse back to the same table in the same order.
pub proof fn lemma_payload_round_trip(t: Seq<EntryView>, size: nat)
    requires
        wf_table(t),
        fits(t, size),
    ensures
        parse_spec(payload_of(t, size)) == Ok::<Seq<EntryView>, DecodeError>(t),
{
    lemma_parse_payload(t, size, 0);
    assert(records(t.take(0)) == records(Seq::<EntryView>::empty()));
    assert(t.take(0) =~= Seq::<EntryView>::empty());
}

} // verus!

verus! {

proof fn lemma_le_round_trip(x: u32, rest: Seq<u8>)
    ensures
        le_u32(le_bytes(x) + rest) == x,
{
    let b = le_bytes(x) + rest;
    assert(b[0] == (x & 0xff) as u8);
    assert(b[1] == ((x >> 8u32) & 0xff) as u8);
    assert(b[2] == ((x >> 16u32) & 0xff) as u8);
    assert(b[3] == ((x >> 24u32) & 0xff) as u8);
    let b0 = b[0];
    let b1 = b[1];
    let b2 = b[2];
    let b3 = b[3];
    assert((b0 as u32) | ((b1 as u32) << 8u32) | ((b2 as u32) << 16u32) | ((b3 as u32) << 24u32) == x) by (bit_vector)
        requires
            b0 == (x & 0xff) as u8,
            b1 == ((x >> 8u32) & 0xff) as u8,
            b2 == ((x >> 16u32) & 0xff) as u8,
            b3 == ((x >> 24u32) & 0xff) as u8,
    ;
}

fn push_le_u32(out: &mut Vec<u8>, x: u32)
    ensures
        final(out)@ == old(out)@ + le_bytes(x),
{
    out.push((x & 0xff) as u8);
    out.push(((x >> 8u32) & 0xff) as u8);
    out.push(((x >> 16u32) & 0xff) as u8);
    out.push(((x >> 24u32) & 0xff) as u8);
    assert(final(out)@ =~= old(out)@ + le_bytes(x));
}

fn read_le_u32(b: &[u8]) -> (r: u32)
    requires
        b@.len() >= 4,
    ensures
        r == le_u32(b@),
{
    (b[0] as u32) | ((b[1] as u32) << 8u32) | ((b[2] as u32) << 16u32) | ((b[3] as u32) << 24u32)
}

/// Writes the table's records into a payload of `size` bytes, padded with NUL.
pub fn serialize(t: &VarTable, size: usize) -> (r: Result<Vec<u8>, EncodeError>)
    ensures
        match r {
            Ok(p) => fits(t@, size as nat) && p@ == payload_of(t@, size as nat),
            Err(e) => !fits(t@, size as nat) && e == EncodeError::Overflow,
        },
{
    if size == 0 {
        return Err(EncodeError::Overflow);
    }
    let mut out: Vec<u8> = Vec::new();
    let mut k: usize = 0;
    proof {
        assert(t@.take(0) =~= Seq::<EntryView>::empty());
    }
    while k < t.entries.len()
        invariant
            0 <= k <= t@.len(),
            t@.len() == t.entries@.len(),
            out@ == records(t@.take(k as int)),
            out@.len() < size,
        decreases t.entries@.len() - k,
    {
        let name = t.entries[k].0.as_slice();
        let value = t.entries[k].1.as_slice();
        proof {
            lemma_records_step(t@, k as int);
        }
        let room = size - out.len();
        if !(name.len() < room && value.len() < room - name.len() && room - name.len() - value.len() > 2) {
            proof {
                lemma_records_prefix(t@, k + 1);
            }
            return Err(EncodeError::Overflow);
        }
        push_range(&mut out, name, 0, name.len());
        out.push(EQ_SIGN);
        push_range(&mut out, value, 0, value.len());
        out.push(0u8);
        k = k + 1;
        proof {
            assert(name@.subrange(0, name@.len() as int) =~= name@);
            assert(value@.subrange(0, value@.len() as int) =~= value@);
            assert(out@ =~= records(t@.take(k as int)));
        }
    }
    proof {
        assert(t@.take(k as int) =~= t@);
    }
    let ghost rec = out@;
    while out.len() < size
        invariant
            rec == records(t@),
            rec.len() <= out@.len() <= size,
            out@ == rec + zeros((out@.len() - rec.len()) as nat),
        decreases size - out@.len(),
    {
        out.push(0u8);
        assert(out@ =~= rec + zeros((out@.len() - rec.len()) as nat));
    }
    Ok(out)
}

/// The blob of `env_size` bytes that holds the table: checksum, flag in
/// redundant mode, then the payload.
pub fn encode(t: &VarTable, env_size: usize, redundant: bool, flag: u8) -> (r: Result<Vec<u8>, EncodeError>)
    ensures
        match r {
            Ok(b) => encode_spec(t@, env_size as nat, redundant, flag) == Ok::<Seq<u8>, EncodeError>(b@),
            Err(e) => encode_spec(t@, env_size as nat, redundant, flag) == Err::<Seq<u8>, EncodeError>(e),
        },
{
    let h = header_len(redundant);
    if env_size < h {
        return Err(EncodeError::Overflow);
    }
    match serialize(t, env_size - h) {
        Err(e) => Err(e),
        Ok(p) => {
            let crc = crc32(p.as_slice());
            let mut out: Vec<u8> = Vec::new();
            push_le_u32(&mut out, crc);
            if redundant {
                out.push(flag);
            }
            push_range(&mut out, p.as_slice(), 0, p.len());
            assert(p@.subrange(0, p@.len() as int) =~= p@);
            assert(out@ =~= le_bytes(crc) + flag_bytes(redundant, flag) + p@);
            Ok(out)
        },
    }
}

/// Parses a payload into a table: records up to the first empty one (or the
/// end), each split at its first `=`.
pub fn parse_payload(p: &[u8]) -> (r: Result<VarTable, DecodeError>)
    ensures
        match r {
            Ok(t) => parse_spec(p@) == Ok::<Seq<EntryView>, DecodeError>(t@) && wf_table(t@),
            Err(e) => parse_spec(p@) == Err::<Seq<EntryView>, DecodeError>(e),
        },
{
    let mut acc = VarTable::new();
    let mut i: usize = 0;
    while i < p.len()
        invariant
            0 <= i <= p@.len(),
            parse_from(p@, i as int, acc@) == parse_spec(p@),
            wf_table(acc@),
        decreases p@.len() - i,
    {
        if p[i] == 0 {
            return Ok(acc);
        }
        let mut j: usize = i;
        while j < p.len() && p[j] != 0
            invariant
                i <= j <= p@.len(),
                next_nul(p@, j as int) == next_nul(p@, i as int),
                forall|m: int| i <= m < j ==> p@[m] != 0,
            decreases p@.len() - j,
        {
            j = j + 1;
        }
        let mut k: usize = i;
        while k < j && p[k] != EQ_SIGN
            invariant
                i <= k <= j <= p@.len(),
                next_eq(p@, k as int, j as int) == next_eq(p@, i as int, j as int),
                forall|m: int| i <= m < k ==> p@[m] != EQ_SIGN,
            decreases j - k,
        {
            k = k + 1;
        }
        if k == j || k == i {
            return Err(DecodeError::InvalidEntry);
        }
        let name = copy_range(p, i, k);
        let value = copy_range(p, k + 1, j);
        proof {
            assert(next_nul(p@, j as int) == j);
            assert(next_eq(p@, k as int, j as int) == k);
            assert(valid_name(name@));
            assert(valid_value(value@));
            lemma_set_keeps_wf(acc@, name@, value@);
        }
        acc.set(name.as_slice(), value.as_slice());
        if j == p.len() {
            assert(parse_from(p@, j + 1, acc@) == Ok::<Seq<EntryView>, DecodeError>(acc@));
            return Ok(acc);
        }
        i = j + 1;
    }
    Ok(acc)
}

/// Checks a blob's checksum and parses its payload; gives its flag (0 when
/// there is none) and its table.
pub fn decode(b: &[u8], redundant: bool) -> (r: Result<(u8, VarTable), DecodeError>)
    ensures
        match r {
            Ok((f, t)) => decode_spec(b@, redundant) == Ok::<(u8, Seq<EntryView>), DecodeError>((f, t@)) && wf_table(t@),
            Err(e) => decode_spec(b@, redundant) == Err::<(u8, Seq<EntryView>), DecodeError>(e),
        },
{
    let h = header_len(redundant);
    if b.len() < h {
        return Err(DecodeError::Truncated);
    }
    let stored = read_le_u32(b);
    let p = copy_range(b, h, b.len());
    if stored != crc32(p.as_slice()) {
        return Err(DecodeError::ChecksumMismatch);
    }
    match parse_payload(p.as_slice()) {
        Ok(t) => {
            let f: u8 = if redundant { b[4] } else { 0u8 };
            Ok((f, t))
        },
        Err(e) => Err(e),
    }
}

/// A well-formed table that fits in the region comes back from its blob
/// unchanged and in order, together with the flag it was written with.
pub proof fn lemma_round_trip(t: Seq<EntryView>, env_size: nat, redundant: bool, flag: u8)
    requires
        wf_table(t),
        env_size >= header_size(redundant),
        fits(t, (env_size - header_size(redundant)) as nat),
    ensures
        encode_spec(t, env_size, redundant, flag) is Ok,
        decode_spec(encode_spec(t, env_size, redundant, flag)->Ok_0, redundant)
            == Ok::<(u8, Seq<EntryView>), DecodeError>((if redundant { flag } else { 0u8 }, t)),
{
    let h = header_size(redundant);
    let p = payload_of(t, (env_size - h) as nat);
    let b = le_bytes(crc32_of(p)) + flag_bytes(redundant, flag) + p;
    assert(b.subrange(h as int, b.len() as int) =~= p);
    lemma_le_round_trip(crc32_of(p), flag_bytes(redundant, flag) + p);
    assert(le_bytes(crc32_of(p)) + flag_bytes(redundant, flag) + p =~= le_bytes(crc32_of(p)) + (flag_bytes(redundant, flag) + p));
    lemma_payload_round_trip(t, (env_size - h) as nat);
}

/// A table whose records and terminator fill the payload exactly can be
/// encoded; one more byte of records and it cannot.
pub proof fn lemma_capacity_boundary(t: Seq<EntryView>, env_size: nat, redundant: bool, flag: u8)
    requires
        env_size >= header_size(redundant),
    ensures
        records(t).len() + 1 == env_size - header_size(redundant) ==> encode_spec(t, env_size, redundant, flag) is Ok,
        records(t).len() + 1 == env_size - header_size(redundant) + 1
            ==> encode_spec(t, env_size, redundant, flag) == Err::<Seq<u8>, EncodeError>(EncodeError::Overflow),
{
}

/// A blob whose payload was altered so that its checksum no longer agrees
/// with the stored one is rejected as corrupt.
pub proof fn lemma_altered_payload_rejected(b: Seq<u8>, redundant: bool, altered: Seq<u8>)
    requires
        b.len() >= header_size(redundant),
        decode_spec(b, redundant) is Ok,
        altered.len() == b.len(),
        altered.subrange(0, header_size(redundant) as int) == b.subrange(0, header_size(redundant) as int),
        crc32_of(altered.subrange(header_size(redundant) as int, altered.len() as int))
            != crc32_of(b.subrange(header_size(redundant) as int, b.len() as int)),
    ensures
        decode_spec(altered, redundant) == Err::<(u8, Seq<EntryView>), DecodeError>(DecodeError::ChecksumMismatch),
{
    let h = header_size(redundant) as int;
    assert(altered[0] == altered.subrange(0, h)[0]);
    assert(altered[1] == altered.subrange(0, h)[1]);
    assert(altered[2] == altered.subrange(0, h)[2]);
    assert(altered[3] == altered.subrange(0, h)[3]);
}

} // verus!

verus! {

/// Newline and NUL separate the entries of a plain environment file.
pub open spec fn is_text_sep(c: u8) -> bool {
    c == 0 || c == 10
}

/// Bytes from `i` on before a separator or the end.
pub open spec fn item_len(p: Seq<u8>, i: int) -> nat
    decreases p.len() - i,
{
    if i < 0 || i >= p.len() || is_text_sep(p[i]) {
        0
    } else {
        1 + item_len(p, i + 1)
    }
}

proof fn lemma_item_len_bound(p: Seq<u8>, i: int)
    requires
        0 <= i <= p.len(),
    ensures
        i + item_len(p, i) <= p.len(),
    decreases p.len() - i,
{
    if i < p.len() && !is_text_sep(p[i]) {
        lemma_item_len_bound(p, i + 1);
    }
}

/// Parses the entries of a plain environment file from `i` on into `acc`;
/// empty entries are skipped and a later entry of a name overrides.
pub open spec fn text_from(p: Seq<u8>, i: int, acc: Seq<EntryView>) -> Result<Seq<EntryView>, DecodeError>
    decreases p.len() - i
    via text_from_decreases
{
    if i < 0 || i >= p.len() {
        Ok(acc)
    } else if is_text_sep(p[i]) {
        text_from(p, i + 1, acc)
    } else {
        let j = i + item_len(p, i);
        let k = next_eq(p, i, j);
        if k == j || k == i {
            Err(DecodeError::InvalidEntry)
        } else {
            text_from(p, j, tbl_set(acc, p.subrange(i, k), p.subrange(k + 1, j)))
        }
    }
}

#[via_fn]
proof fn text_from_decreases(p: Seq<u8>, i: int, acc: Seq<EntryView>) {
    if 0 <= i < p.len() {
        lemma_item_len_bound(p, i);
    }
}

/// Parses a plain environment file: `name=value` entries separated by
/// newline or NUL, without a checksum.
pub fn parse_env_text(p: &[u8]) -> (r: Result<VarTable, DecodeError>)
    ensures
        match r {
            Ok(t) => text_from(p@, 0, Seq::empty()) == Ok::<Seq<EntryView>, DecodeError>(t@) && wf_table(t@),
            Err(e) => text_from(p@, 0, Seq::empty()) == Err::<Seq<EntryView>, DecodeError>(e),
        },
{
    let mut acc = VarTable::new();
    let mut i: usize = 0;
    while i < p.len()
        invariant
            0 <= i <= p@.len(),
            text_from(p@, i as int, acc@) == text_from(p@, 0, Seq::empty()),
            wf_table(acc@),
        decreases p@.len() - i,
    {
        if p[i] == 0 || p[i] == 10 {
            i = i + 1;
        } else {
            let mut j: usize = i;
            while j < p.len() && p[j] != 0 && p[j] != 10
                invariant
                    i <= j <= p@.len(),
                    j + item_len(p@, j as int) == i + item_len(p@, i as int),
                    forall|m: int| i <= m < j ==> !is_text_sep(p@[m]),
                decreases p@.len() - j,
            {
                j = j + 1;
            }
            let mut k: usize = i;
            while k < j && p[k] != EQ_SIGN
                invariant
                    i <= k <= j <= p@.len(),
                    next_eq(p@, k as int, j as int) == next_eq(p@, i as int, j as int),
                    forall|m: int| i <= m < k ==> p@[m] != EQ_SIGN,
                decreases j - k,
            {
                k = k + 1;
            }
            if k == j || k == i {
                return Err(DecodeError::InvalidEntry);
            }
            let name = copy_range(p, i, k);
            let value = copy_range(p, k + 1, j);
            proof {
                assert(item_len(p@, j as int) == 0);
                assert(next_eq(p@, k as int, j as int) == k);
                assert(valid_name(name@));
                assert(valid_value(value@));
                lemma_set_keeps_wf(acc@, name@, value@);
            }
            acc.set(name.as_slice(), value.as_slice());
            i = j;
        }
    }
    Ok(acc)
}

} // verus!
