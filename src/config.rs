//! The device configuration: one line per copy of the environment,
//! `<device> <offset> <env-size> [<erase-size> [<sectors>]]`, numbers in hex.
use vstd::prelude::*;
use crate::bytes::copy_range;

verus! {

#[derive(Clone, Copy, Debug, PartialEq, Eq, Structural)]
pub enum ConfigError {
    /// No descriptor, more than two, a wrong field count or a bad number.
    Malformed,
    /// The two copies declare different environment sizes.
    SizeMismatch,
}

/// Where one copy of the environment lives.
#[derive(Clone, Debug)]
pub struct DeviceDescriptor {
    pub path: Vec<u8>,
    pub offset: u64,
    pub env_size: u64,
    pub erase_size: Option<u64>,
    pub sectors: Option<u64>,
}

/// A descriptor as the contracts see it.
pub struct DescriptorView {
    pub path: Seq<u8>,
    pub offset: u64,
    pub env_size: u64,
    pub erase_size: Option<u64>,
    pub sectors: Option<u64>,
}

impl View for DeviceDescriptor {
    type V = DescriptorView;

    open spec fn view(&self) -> DescriptorView {
        DescriptorView {
            path: self.path@,
            offset: self.offset,
            env_size: self.env_size,
            erase_size: self.erase_size,
            sectors: self.sectors,
        }
    }
}

/// One or two descriptors; with two, the environment is kept redundantly.
#[derive(Clone, Debug)]
pub struct Config {
    pub devices: Vec<DeviceDescriptor>,
}

impl View for Config {
    type V = Seq<DescriptorView>;

    open spec fn view(&self) -> Seq<DescriptorView> {
        self.devices@.map_values(|d: DeviceDescriptor| d@)
    }
}

/// One or two descriptors, and the same size on both.
pub open spec fn wf_config(c: Seq<DescriptorView>) -> bool {
    &&& 1 <= c.len() <= 2
    &&& c.len() == 2 ==> c[0].env_size == c[1].env_size
}

pub open spec fn is_blank(c: u8) -> bool {
    c == 32 || c == 9 || c == 13
}

pub open spec fn hex_digit_spec(c: u8) -> Option<u8> {
    if 48 <= c <= 57 {
        Some((c - 48) as u8)
    } else if 97 <= c <= 102 {
        Some((c - 87) as u8)
    } else if 65 <= c <= 70 {
        Some((c - 55) as u8)
    } else {
        None
    }
}

/// The number that a string of hex digits spells.
pub open spec fn hex_value(d: Seq<u8>) -> nat
    decreases d.len(),
{
    if d.len() == 0 {
        0
    } else {
        16 * hex_value(d.drop_last()) + match hex_digit_spec(d.last()) {
            Some(v) => v as nat,
            None => 0,
        }
    }
}

pub open spec fn has_hex_prefix(s: Seq<u8>) -> bool {
    s.len() >= 2 && s[0] == 48 && (s[1] == 120 || s[1] == 88)
}

/// The digits of a hex number: all but its `0x`, if any.
pub open spec fn digits_part(s: Seq<u8>) -> Seq<u8> {
    if has_hex_prefix(s) { s.subrange(2, s.len() as int) } else { s }
}

pub open spec fn all_hex(d: Seq<u8>) -> bool {
    forall|i: int| 0 <= i < d.len() ==> hex_digit_spec(#[trigger] d[i]) is Some
}

/// A hex number with an optional `0x`: its value if it fits in 64 bits.
pub open spec fn hex_spec(s: Seq<u8>) -> Option<u64> {
    let d = digits_part(s);
    if d.len() == 0 || !all_hex(d) {
        None
    } else if hex_value(d) > u64::MAX {
        None
    } else {
        Some(hex_value(d) as u64)
    }
}

pub fn hex_digit(c: u8) -> (r: Option<u8>)
    ensures
        r == hex_digit_spec(c),
{
    if 48 <= c && c <= 57 {
        Some(c - 48)
    } else if 97 <= c && c <= 102 {
        Some(c - 87)
    } else if 65 <= c && c <= 70 {
        Some(c - 55)
    } else {
        None
    }
}

proof fn lemma_hex_monotone(d: Seq<u8>, m: int, n: int)
    requires
        0 <= m <= n <= d.len(),
    ensures
        hex_value(d.take(m)) <= hex_value(d.take(n)),
    decreases n - m,
{
    if m < n {
        lemma_hex_monotone(d, m, n - 1);
        assert(d.take(n).drop_last() =~= d.take(n - 1));
    }
}

/// Reads a hex number, with or without `0x`.
pub fn parse_hex(s: &[u8]) -> (r: Option<u64>)
    ensures
        r == hex_spec(s@),
{
    let start: usize = if s.len() >= 2 && s[0] == 48 && (s[1] == 120 || s[1] == 88) { 2 } else { 0 };
    let ghost d = s@.subrange(start as int, s@.len() as int);
    assert(d =~= digits_part(s@));
    if start == s.len() {
        return None;
    }
    let mut v: u64 = 0;
    let mut k: usize = start;
    assert(d.take(0) =~= Seq::<u8>::empty());
    while k < s.len()
        invariant
            start <= k <= s@.len(),
            d == s@.subrange(start as int, s@.len() as int),
            d == digits_part(s@),
            v == hex_value(d.take(k - start)),
            forall|i: int| 0 <= i < k - start ==> hex_digit_spec(#[trigger] d[i]) is Some,
        decreases s@.len() - k,
    {
        assert(d.take(k - start + 1).drop_last() =~= d.take(k - start));
        assert(d[k - start] == s@[k as int]);
        match hex_digit(s[k]) {
            None => {
                assert(hex_digit_spec(d[k - start]) is None);
                assert(!all_hex(d));
                return None;
            },
            Some(dg) => {
                if v > (u64::MAX - dg as u64) / 16 {
                    proof {
                        assert(16 * v + dg > u64::MAX) by (nonlinear_arith)
                            requires v > (u64::MAX - dg as u64) / 16, dg < 16;
                        let n = k - start + 1;
                        assert(d.take(n).last() == d[k - start]);
                        assert(hex_value(d.take(n)) == 16 * hex_value(d.take(n).drop_last()) + dg);
                        lemma_hex_monotone(d, n, d.len() as int);
                        assert(d.take(d.len() as int) =~= d);
                        assert(hex_value(d) > u64::MAX);
                    }
                    return None;
                }
                proof {
                    assert(16 * v + dg <= u64::MAX) by (nonlinear_arith)
                        requires v <= (u64::MAX - dg as u64) / 16, dg < 16;
                }
                v = 16 * v + dg as u64;
                assert(d.take(k - start + 1).last() == d[k - start]);
            },
        }
        k = k + 1;
    }
    assert(d.take(d.len() as int) =~= d);
    assert(d.len() == k - start);
    Some(v)
}

} // verus!

verus! {

/// Bytes from `i` on before a blank or the end.
pub open spec fn tok_len(s: Seq<u8>, i: int) -> nat
    decreases s.len() - i,
{
    if i < 0 || i >= s.len() || is_blank(s[i]) {
        0
    } else {
        1 + tok_len(s, i + 1)
    }
}

proof fn lemma_tok_len_bound(s: Seq<u8>, i: int)
    requires
        0 <= i <= s.len(),
    ensures
        i + tok_len(s, i) <= s.len(),
    decreases s.len() - i,
{
    if i < s.len() && !is_blank(s[i]) {
        lemma_tok_len_bound(s, i + 1);
    }
}

/// The blank-separated fields of `s` from `i` on, after those in `acc`.
pub open spec fn tokens_from(s: Seq<u8>, i: int, acc: Seq<Seq<u8>>) -> Seq<Seq<u8>>
    decreases s.len() - i
    via tokens_from_decreases
{
    if i < 0 || i >= s.len() {
        acc
    } else if is_blank(s[i]) {
        tokens_from(s, i + 1, acc)
    } else {
        let j = i + tok_len(s, i);
        tokens_from(s, j, acc.push(s.subrange(i, j)))
    }
}

#[via_fn]
proof fn tokens_from_decreases(s: Seq<u8>, i: int, acc: Seq<Seq<u8>>) {
    if 0 <= i < s.len() {
        lemma_tok_len_bound(s, i);
    }
}

/// Bytes from `i` on before a newline or the end.
pub open spec fn line_len(t: Seq<u8>, i: int) -> nat
    decreases t.len() - i,
{
    if i < 0 || i >= t.len() || t[i] == 10 {
        0
    } else {
        1 + line_len(t, i + 1)
    }
}

proof fn lemma_line_len_bound(t: Seq<u8>, i: int)
    requires
        0 <= i <= t.len(),
    ensures
        i + line_len(t, i) <= t.len(),
    decreases t.len() - i,
{
    if i < t.len() && t[i] != 10 {
        lemma_line_len_bound(t, i + 1);
    }
}

/// The descriptor that a line's fields give.
pub open spec fn descriptor_spec(f: Seq<Seq<u8>>) -> Result<DescriptorView, ConfigError> {
    if f.len() < 3 || f.len() > 5 {
        Err(ConfigError::Malformed)
    } else if hex_spec(f[1]) is None || hex_spec(f[2]) is None {
        Err(ConfigError::Malformed)
    } else if f.len() >= 4 && hex_spec(f[3]) is None {
        Err(ConfigError::Malformed)
    } else if f.len() == 5 && hex_spec(f[4]) is None {
        Err(ConfigError::Malformed)
    } else {
        Ok(DescriptorView {
            path: f[0],
            offset: hex_spec(f[1])->Some_0,
            env_size: hex_spec(f[2])->Some_0,
            erase_size: if f.len() >= 4 { hex_spec(f[3]) } else { None },
            sectors: if f.len() == 5 { hex_spec(f[4]) } else { None },
        })
    }
}

/// A line with no field, or whose first field begins with `#`, says nothing.
pub open spec fn ignored_line(f: Seq<Seq<u8>>) -> bool {
    f.len() == 0 || (f[0].len() > 0 && f[0][0] == 35)
}

/// The descriptors of the lines from `i` on, after those in `acc`.
pub open spec fn lines_from(t: Seq<u8>, i: int, acc: Seq<DescriptorView>) -> Result<Seq<DescriptorView>, ConfigError>
    decreases t.len() + 1 - i
    via lines_from_decreases
{
    if i < 0 || i >= t.len() {
        Ok(acc)
    } else {
        let j = i + line_len(t, i);
        let f = tokens_from(t.subrange(i, j), 0, Seq::empty());
        if ignored_line(f) {
            lines_from(t, j + 1, acc)
        } else {
            match descriptor_spec(f) {
                Ok(d) => lines_from(t, j + 1, acc.push(d)),
                Err(e) => Err(e),
            }
        }
    }
}

#[via_fn]
proof fn lines_from_decreases(t: Seq<u8>, i: int, acc: Seq<DescriptorView>) {
    if 0 <= i < t.len() {
        lemma_line_len_bound(t, i);
    }
}

/// The configuration that a text describes.
pub open spec fn config_spec(t: Seq<u8>) -> Result<Seq<DescriptorView>, ConfigError> {
    match lines_from(t, 0, Seq::empty()) {
        Err(e) => Err(e),
        Ok(ds) => if ds.len() == 0 || ds.len() > 2 {
            Err(ConfigError::Malformed)
        } else if ds.len() == 2 && ds[0].env_size != ds[1].env_size {
            Err(ConfigError::SizeMismatch)
        } else {
            Ok(ds)
        },
    }
}

pub open spec fn seqs_view(v: Seq<Vec<u8>>) -> Seq<Seq<u8>> {
    v.map_values(|x: Vec<u8>| x@)
}

pub fn is_blank_byte(c: u8) -> (r: bool)
    ensures
        r == is_blank(c),
{
    c == 32 || c == 9 || c == 13
}

/// Splits a line into its blank-separated fields.
pub fn tokens(s: &[u8]) -> (r: Vec<Vec<u8>>)
    ensures
        seqs_view(r@) == tokens_from(s@, 0, Seq::empty()),
{
    let mut out: Vec<Vec<u8>> = Vec::new();
    let mut i: usize = 0;
    assert(seqs_view(out@) =~= Seq::<Seq<u8>>::empty());
    while i < s.len()
        invariant
            0 <= i <= s@.len(),
            tokens_from(s@, i as int, seqs_view(out@)) == tokens_from(s@, 0, Seq::empty()),
        decreases s@.len() - i,
    {
        if is_blank_byte(s[i]) {
            i = i + 1;
        } else {
            let mut j: usize = i;
            while j < s.len() && !is_blank_byte(s[j])
                invariant
                    i <= j <= s@.len(),
                    j + tok_len(s@, j as int) == i + tok_len(s@, i as int),
                decreases s@.len() - j,
            {
                j = j + 1;
            }
            let w = copy_range(s, i, j);
            let ghost before = out@;
            out.push(w);
            assert(seqs_view(out@) =~= seqs_view(before).push(s@.subrange(i as int, j as int)));
            i = j;
        }
    }
    out
}

/// The descriptor that a line's fields give.
pub fn parse_descriptor(f: &Vec<Vec<u8>>) -> (r: Result<DeviceDescriptor, ConfigError>)
    ensures
        match r {
            Ok(d) => descriptor_spec(seqs_view(f@)) == Ok::<DescriptorView, ConfigError>(d@),
            Err(e) => descriptor_spec(seqs_view(f@)) == Err::<DescriptorView, ConfigError>(e),
        },
{
    if f.len() < 3 || f.len() > 5 {
        return Err(ConfigError::Malformed);
    }
    let offset = parse_hex(f[1].as_slice());
    let env_size = parse_hex(f[2].as_slice());
    let erase_size = if f.len() >= 4 { parse_hex(f[3].as_slice()) } else { None };
    let sectors = if f.len() == 5 { parse_hex(f[4].as_slice()) } else { None };
    match (offset, env_size) {
        (Some(o), Some(e)) => {
            if f.len() >= 4 && erase_size.is_none() {
                return Err(ConfigError::Malformed);
            }
            if f.len() == 5 && sectors.is_none() {
                return Err(ConfigError::Malformed);
            }
            let path = copy_range(f[0].as_slice(), 0, f[0].len());
            assert(path@ =~= f@[0]@);
            Ok(DeviceDescriptor { path, offset: o, env_size: e, erase_size, sectors })
        },
        _ => Err(ConfigError::Malformed),
    }
}

/// Reads a configuration: one descriptor per line, blank lines and lines
/// starting with `#` skipped.
pub fn parse_config(text: &[u8]) -> (r: Result<Config, ConfigError>)
    ensures
        match r {
            Ok(c) => config_spec(text@) == Ok::<Seq<DescriptorView>, ConfigError>(c@) && wf_config(c@),
            Err(e) => config_spec(text@) == Err::<Seq<DescriptorView>, ConfigError>(e),
        },
{
    let mut devices: Vec<DeviceDescriptor> = Vec::new();
    let mut i: usize = 0;
    let ghost acc0 = Seq::<DescriptorView>::empty();
    assert(devices@.map_values(|d: DeviceDescriptor| d@) =~= acc0);
    while i < text.len()
        invariant
            0 <= i <= text@.len(),
            lines_from(text@, i as int, devices@.map_values(|d: DeviceDescriptor| d@))
                == lines_from(text@, 0, Seq::empty()),
        decreases text@.len() - i,
    {
        let mut j: usize = i;
        while j < text.len() && text[j] != 10
            invariant
                i <= j <= text@.len(),
                j + line_len(text@, j as int) == i + line_len(text@, i as int),
            decreases text@.len() - j,
        {
            j = j + 1;
        }
        assert(line_len(text@, j as int) == 0);
        let line = copy_range(text, i, j);
        let f = tokens(line.as_slice());
        let ghost acc = devices@.map_values(|d: DeviceDescriptor| d@);
        let skip = f.len() == 0 || (f[0].len() > 0 && f[0][0] == 35);
        proof {
            assert(seqs_view(f@).len() == f@.len());
            if f@.len() > 0 {
                assert(seqs_view(f@)[0] == f@[0]@);
            }
        }
        if !skip {
            match parse_descriptor(&f) {
                Ok(d) => {
                    let ghost before = devices@;
                    devices.push(d);
                    assert(devices@.map_values(|d: DeviceDescriptor| d@)
                        =~= before.map_values(|d: DeviceDescriptor| d@).push(d@));
                },
                Err(e) => {
                    return Err(e);
                },
            }
        }
        proof {
            if skip {
                assert(ignored_line(seqs_view(f@)));
            } else {
                assert(!ignored_line(seqs_view(f@)));
            }
        }
        if j == text.len() {
            assert(lines_from(text@, j + 1, devices@.map_values(|d: DeviceDescriptor| d@))
                == lines_from(text@, j as int, devices@.map_values(|d: DeviceDescriptor| d@)));
            i = j;
        } else {
            i = j + 1;
        }
    }
    let c = Config { devices };
    if c.devices.len() == 0 || c.devices.len() > 2 {
        return Err(ConfigError::Malformed);
    }
    if c.devices.len() == 2 && c.devices[0].env_size != c.devices[1].env_size {
        return Err(ConfigError::SizeMismatch);
    }
    Ok(c)
}

} // verus!
