//! Choice between two redundant copies, and the flag that marks the newer one.
use vstd::prelude::*;
use crate::codec::{
    EntryViewResult, decode_spec, encode_spec, fits, header_size, lemma_round_trip,
};
use crate::table::{EntryView, wf_table};

verus! {

#[derive(Clone, Copy, Debug, PartialEq, Eq, Structural)]
pub enum StoreError {
    /// No configuration has been loaded.
    NotConfigured,
    /// The environment is not open.
    NotOpen,
    /// No copy decodes.
    NoValidEnvironment,
    /// Both copies decode and carry the same flag, so neither is newer.
    AmbiguousCopies,
    /// The variable is marked read-only.
    ReadOnly,
    /// The value is longer than the variable's limit.
    ValueTooLong,
    /// The name is empty or holds `=` or NUL.
    InvalidName,
    /// The value holds NUL.
    InvalidValue,
    /// No store is waiting for the outcome of its write.
    NoPendingStore,
}

/// `a` marks a newer copy than `b`: the higher flag wins, except that 0
/// follows 255.
pub open spec fn newer(a: u8, b: u8) -> bool {
    (a == 0 && b == 255) || (a > b && !(a == 255 && b == 0))
}

pub fn is_newer(a: u8, b: u8) -> (r: bool)
    ensures
        r == newer(a, b),
{
    (a == 0 && b == 255) || (a > b && !(a == 255 && b == 0))
}

/// The flag that the next store writes after `f`.
pub open spec fn next_flag_spec(f: u8) -> u8 {
    if f == 255 { 0 } else { (f + 1) as u8 }
}

pub fn next_flag(f: u8) -> (r: u8)
    ensures
        r == next_flag_spec(f),
        newer(r, f),
{
    if f == 255 { 0 } else { f + 1 }
}

/// Which copy to use, given the flag of each copy that decodes.
pub open spec fn select_spec(f0: Option<u8>, f1: Option<u8>) -> Result<usize, StoreError> {
    match (f0, f1) {
        (Some(a), Some(b)) => if newer(a, b) {
            Ok(0usize)
        } else if newer(b, a) {
            Ok(1usize)
        } else {
            Err(StoreError::AmbiguousCopies)
        },
        (Some(_), None) => Ok(0usize),
        (None, Some(_)) => Ok(1usize),
        (None, None) => Err(StoreError::NoValidEnvironment),
    }
}

pub fn select_copy(f0: Option<u8>, f1: Option<u8>) -> (r: Result<usize, StoreError>)
    ensures
        r == select_spec(f0, f1),
{
    match (f0, f1) {
        (Some(a), Some(b)) => {
            if is_newer(a, b) {
                Ok(0)
            } else if is_newer(b, a) {
                Ok(1)
            } else {
                Err(StoreError::AmbiguousCopies)
            }
        },
        (Some(_), None) => Ok(0),
        (None, Some(_)) => Ok(1),
        (None, None) => Err(StoreError::NoValidEnvironment),
    }
}

/// The flag of a copy that decodes.
pub open spec fn flag_of(d: EntryViewResult) -> Option<u8> {
    match d {
        Ok((f, _)) => Some(f),
        Err(_) => None,
    }
}

/// What opening gives for the copies read: the copy chosen, its flag and
/// its table.
pub open spec fn open_spec(copies: Seq<Seq<u8>>) -> Result<(usize, u8, Seq<EntryView>), StoreError> {
    if copies.len() == 1 {
        match decode_spec(copies[0], false) {
            Ok((f, t)) => Ok((0usize, f, t)),
            Err(_) => Err(StoreError::NoValidEnvironment),
        }
    } else {
        let d0 = decode_spec(copies[0], true);
        let d1 = decode_spec(copies[1], true);
        match select_spec(flag_of(d0), flag_of(d1)) {
            Ok(i) => {
                let d = if i == 0 { d0 } else { d1 };
                Ok((i, d->Ok_0.0, d->Ok_0.1))
            },
            Err(e) => Err(e),
        }
    }
}

/// A write to the inactive copy that fails, leaving it corrupt or as it
/// was, does not change what opening chooses: the active copy and its table.
pub proof fn lemma_failed_write_keeps_active(copies: Seq<Seq<u8>>, left: Seq<u8>)
    requires
        copies.len() == 2,
        open_spec(copies) is Ok,
        decode_spec(left, true) is Err || left == copies[1 - open_spec(copies)->Ok_0.0 as int],
    ensures
        open_spec(copies.update(1 - open_spec(copies)->Ok_0.0 as int, left)) == open_spec(copies),
{
    let a = open_spec(copies)->Ok_0.0 as int;
    let c = copies.update(1 - a, left);
    assert(c[a] == copies[a]);
    if left == copies[1 - a] {
        assert(c =~= copies);
    }
}

/// After a store writes the inactive copy with the next flag and the write
/// succeeds, opening chooses that copy and its new table, even though the
/// other copy still decodes.
pub proof fn lemma_store_then_open(copies: Seq<Seq<u8>>, t: Seq<EntryView>, env_size: nat)
    requires
        copies.len() == 2,
        open_spec(copies) is Ok,
        wf_table(t),
        env_size >= header_size(true),
        fits(t, (env_size - header_size(true)) as nat),
    ensures
        ({
            let (a, f, _) = open_spec(copies)->Ok_0;
            let b = encode_spec(t, env_size, true, next_flag_spec(f))->Ok_0;
            open_spec(copies.update(1 - a as int, b)) == Ok::<(usize, u8, Seq<EntryView>), StoreError>(
                ((1 - a) as usize, next_flag_spec(f), t),
            )
        }),
{
    let (a, f, _) = open_spec(copies)->Ok_0;
    let nf = next_flag_spec(f);
    lemma_round_trip(t, env_size, true, nf);
    let b = encode_spec(t, env_size, true, nf)->Ok_0;
    let c = copies.update(1 - a as int, b);
    assert(c[a as int] == copies[a as int]);
    assert(newer(nf, f));
}

} // verus!
