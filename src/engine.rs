//! The environment context: configuration, open, get, set, store, close.
//! Reading and writing the devices is left to the caller, who hands the
//! bytes read to `open` and reports the outcome of a write to `finish_store`.
use vstd::prelude::*;
use crate::bytes::bytes_eq;
use crate::codec::{DecodeError, EncodeError, decode, encode, encode_spec, parse_env_text, text_from};
use crate::config::{Config, ConfigError, DescriptorView, config_spec, parse_config, wf_config};
use crate::redundancy::{StoreError, next_flag, next_flag_spec, open_spec, select_copy};
use crate::table::{EntryView, VarTable, tbl_get, tbl_set, valid_name, valid_value, wf_table};

verus! {

#[derive(Clone, Copy, Debug, PartialEq, Eq, Structural)]
pub enum IoError {
    /// The device could not be opened.
    DeviceUnavailable,
    /// Fewer bytes than the environment's size could be read.
    ShortRead,
    /// Writing or erasing failed.
    WriteFailed,
}

#[derive(Clone, Copy, Debug, PartialEq, Eq, Structural)]
pub enum EnvError {
    Config(ConfigError),
    Io(IoError),
    Decode(DecodeError),
    Encode(EncodeError),
    Store(StoreError),
}

#[derive(Clone, Copy, Debug, PartialEq, Eq, Structural)]
pub enum EngineState {
    Uninitialized,
    ConfigLoaded,
    Opened,
    Closed,
}

/// Limits that the configuration sets on one variable.
#[derive(Clone, Debug)]
pub struct VarAttr {
    pub name: Vec<u8>,
    pub read_only: bool,
    pub max_len: Option<usize>,
}

/// A write that a store asks for: this blob to that device.
#[derive(Clone, Debug)]
pub struct StoreRequest {
    pub device: usize,
    pub blob: Vec<u8>,
}

pub type AttrView = (Seq<u8>, bool, Option<usize>);

/// The context as the contracts see it.
pub struct ContextView {
    pub state: EngineState,
    pub config: Option<Seq<DescriptorView>>,
    pub attrs: Seq<AttrView>,
    pub table: Seq<EntryView>,
    /// The copy that was opened and that a store replaces next.
    pub active: usize,
    pub active_flag: u8,
    /// The copy and flag of a store whose write has not been reported.
    pub pending: Option<(usize, u8)>,
}

pub struct UBootContext {
    state: EngineState,
    config: Option<Config>,
    attrs: Vec<VarAttr>,
    table: VarTable,
    active: usize,
    active_flag: u8,
    pending: Option<(usize, u8)>,
}

impl View for UBootContext {
    type V = ContextView;

    closed spec fn view(&self) -> ContextView {
        ContextView {
            state: self.state,
            config: match self.config {
                Some(c) => Some(c@),
                None => None,
            },
            attrs: self.attrs@.map_values(|a: VarAttr| (a.name@, a.read_only, a.max_len)),
            table: self.table@,
            active: self.active,
            active_flag: self.active_flag,
            pending: self.pending,
        }
    }
}

/// What holds of the context between calls.
pub open spec fn inv(v: ContextView) -> bool {
    &&& wf_table(v.table)
    &&& v.config is Some ==> wf_config(v.config->0) && v.active < v.config->0.len()
    &&& v.state == EngineState::ConfigLoaded ==> v.config is Some
    &&& v.pending is Some ==> v.config is Some && (v.pending->0).0 < v.config->0.len()
}

pub open spec fn is_redundant(c: Seq<DescriptorView>) -> bool {
    c.len() == 2
}

pub open spec fn read_only(attrs: Seq<AttrView>, n: Seq<u8>) -> bool {
    exists|i: int| 0 <= i < attrs.len() && (#[trigger] attrs[i]).0 == n && attrs[i].1
}

pub open spec fn too_long(attrs: Seq<AttrView>, n: Seq<u8>, len: nat) -> bool {
    exists|i: int| 0 <= i < attrs.len() && (#[trigger] attrs[i]).0 == n && attrs[i].2 is Some && len > attrs[i].2->0
}

/// The view with a new state, table, active copy and flag, and nothing pending.
pub open spec fn with_table(v: ContextView, s: EngineState, t: Seq<EntryView>, a: usize, f: u8) -> ContextView {
    ContextView { state: s, config: v.config, attrs: v.attrs, table: t, active: a, active_flag: f, pending: None }
}

pub open spec fn read_view(r: Result<Vec<u8>, IoError>) -> Result<Seq<u8>, IoError> {
    match r {
        Ok(b) => Ok(b@),
        Err(e) => Err(e),
    }
}

/// What opening gives, from the bytes read from each configured device.
pub open spec fn open_outcome(v: ContextView, reads: Seq<Result<Seq<u8>, IoError>>) -> Result<(usize, u8, Seq<EntryView>), EnvError> {
    if v.config is None {
        Err(EnvError::Store(StoreError::NotConfigured))
    } else {
        let c = v.config->0;
        let n = c[0].env_size;
        if reads.len() != c.len() {
            Err(EnvError::Io(IoError::DeviceUnavailable))
        } else if reads[0] is Err {
            Err(EnvError::Io(reads[0]->Err_0))
        } else if reads.len() == 2 && reads[1] is Err {
            Err(EnvError::Io(reads[1]->Err_0))
        } else if reads[0]->Ok_0.len() != n || (reads.len() == 2 && reads[1]->Ok_0.len() != n) {
            Err(EnvError::Io(IoError::ShortRead))
        } else {
            let copies = if reads.len() == 1 {
                seq![reads[0]->Ok_0]
            } else {
                seq![reads[0]->Ok_0, reads[1]->Ok_0]
            };
            match open_spec(copies) {
                Ok(x) => Ok(x),
                Err(e) => Err(EnvError::Store(e)),
            }
        }
    }
}

/// Why a set is refused, if it is.
pub open spec fn set_refusal(v: ContextView, n: Seq<u8>, val: Seq<u8>) -> Option<StoreError> {
    if v.state != EngineState::Opened {
        Some(StoreError::NotOpen)
    } else if !valid_name(n) {
        Some(StoreError::InvalidName)
    } else if !valid_value(val) {
        Some(StoreError::InvalidValue)
    } else if read_only(v.attrs, n) {
        Some(StoreError::ReadOnly)
    } else if too_long(v.attrs, n, val.len()) {
        Some(StoreError::ValueTooLong)
    } else {
        None
    }
}

/// The copy that a store writes, and the flag it writes there: in redundant
/// mode the inactive copy with the next flag.
pub open spec fn store_target(v: ContextView) -> (usize, u8) {
    if is_redundant(v.config->0) {
        ((1 - v.active) as usize, next_flag_spec(v.active_flag))
    } else {
        (0usize, 0u8)
    }
}

/// What a store writes, or why it writes nothing.
pub open spec fn store_outcome(v: ContextView) -> Result<Seq<u8>, EnvError> {
    if v.state != EngineState::Opened {
        Err(EnvError::Store(StoreError::NotOpen))
    } else if v.config is None {
        Err(EnvError::Store(StoreError::NotConfigured))
    } else if v.config->0[0].env_size > usize::MAX {
        Err(EnvError::Encode(EncodeError::Overflow))
    } else {
        match encode_spec(v.table, v.config->0[0].env_size as nat, is_redundant(v.config->0), store_target(v).1) {
            Ok(b) => Ok(b),
            Err(e) => Err(EnvError::Encode(e)),
        }
    }
}

impl UBootContext {
    /// A context with no configuration and no variable limits.
    pub fn initialize() -> (r: UBootContext)
        ensures
            inv(r@),
            r@.state == EngineState::Uninitialized,
            r@.config is None,
            r@.attrs.len() == 0,
            r@.table.len() == 0,
            r@.pending is None,
    {
        Self::initialize_with_attributes(Vec::new())
    }

    /// A context with no configuration and the given variable limits, which
    /// stay as they are for the context's life.
    pub fn initialize_with_attributes(attrs: Vec<VarAttr>) -> (r: UBootContext)
        ensures
            inv(r@),
            r@.state == EngineState::Uninitialized,
            r@.config is None,
            r@.attrs == attrs@.map_values(|a: VarAttr| (a.name@, a.read_only, a.max_len)),
            r@.table.len() == 0,
            r@.pending is None,
    {
        UBootContext {
            state: EngineState::Uninitialized,
            config: None,
            attrs,
            table: VarTable::new(),
            active: 0,
            active_flag: 0,
            pending: None,
        }
    }

    pub fn state(&self) -> (r: EngineState)
        ensures
            r == self@.state,
    {
        self.state
    }

    /// The configuration, once one is loaded.
    pub fn config(&self) -> (r: Option<&Config>)
        ensures
            match r {
                Some(c) => self@.config == Some(c@),
                None => self@.config is None,
            },
    {
        match &self.config {
            Some(c) => Some(c),
            None => None,
        }
    }

    /// Loads the configuration from its text. On success the context holds
    /// it, with an empty table; on failure nothing changes.
    pub fn read_config(&mut self, text: &[u8]) -> (r: Result<(), EnvError>)
        requires
            inv(old(self)@),
        ensures
            inv(final(self)@),
            match config_spec(text@) {
                Ok(c) => r is Ok && final(self)@ == (ContextView {
                    config: Some(c),
                    ..with_table(old(self)@, EngineState::ConfigLoaded, Seq::empty(), 0, 0)
                }),
                Err(e) => r == Err::<(), EnvError>(EnvError::Config(e)) && final(self)@ == old(self)@,
            },
    {
        match parse_config(text) {
            Ok(c) => {
                self.config = Some(c);
                self.state = EngineState::ConfigLoaded;
                self.table = VarTable::new();
                self.active = 0;
                self.active_flag = 0;
                self.pending = None;
                Ok(())
            },
            Err(e) => Err(EnvError::Config(e)),
        }
    }

    /// Opens the environment from the bytes read from each configured
    /// device, in configuration order: decodes them and, with two copies,
    /// chooses the valid one or the newer of two valid ones.
    pub fn open(&mut self, reads: &Vec<Result<Vec<u8>, IoError>>) -> (r: Result<(), EnvError>)
        requires
            inv(old(self)@),
        ensures
            inv(final(self)@),
            match open_outcome(old(self)@, reads@.map_values(|x: Result<Vec<u8>, IoError>| read_view(x))) {
                Ok((a, f, t)) => r is Ok && final(self)@ == with_table(old(self)@, EngineState::Opened, t, a, f),
                Err(e) => r == Err::<(), EnvError>(e) && final(self)@ == old(self)@,
            },
    {
        let ghost rv = reads@.map_values(|x: Result<Vec<u8>, IoError>| read_view(x));
        let n: u64;
        let count: usize;
        match &self.config {
            None => {
                return Err(EnvError::Store(StoreError::NotConfigured));
            },
            Some(c) => {
                n = c.devices[0].env_size;
                count = c.devices.len();
            },
        }
        if reads.len() != count {
            return Err(EnvError::Io(IoError::DeviceUnavailable));
        }
        assert(rv[0] == read_view(reads@[0]));
        let b0: &Vec<u8> = match &reads[0] {
            Ok(b) => b,
            Err(e) => {
                return Err(EnvError::Io(*e));
            },
        };
        if count == 1 {
            if b0.len() as u64 != n {
                return Err(EnvError::Io(IoError::ShortRead));
            }
            proof {
                assert(seq![rv[0]->Ok_0] =~= seq![b0@]);
            }
            match decode(b0.as_slice(), false) {
                Ok((f, t)) => {
                    self.table = t;
                    self.active = 0;
                    self.active_flag = f;
                    self.state = EngineState::Opened;
                    self.pending = None;
                    Ok(())
                },
                Err(_) => Err(EnvError::Store(StoreError::NoValidEnvironment)),
            }
        } else {
            assert(rv[1] == read_view(reads@[1]));
            let b1: &Vec<u8> = match &reads[1] {
                Ok(b) => b,
                Err(e) => {
                    return Err(EnvError::Io(*e));
                },
            };
            if b0.len() as u64 != n || b1.len() as u64 != n {
                return Err(EnvError::Io(IoError::ShortRead));
            }
            let d0 = decode(b0.as_slice(), true);
            let d1 = decode(b1.as_slice(), true);
            let f0: Option<u8> = match &d0 {
                Ok((f, _)) => Some(*f),
                Err(_) => None,
            };
            let f1: Option<u8> = match &d1 {
                Ok((f, _)) => Some(*f),
                Err(_) => None,
            };
            proof {
                assert(seq![rv[0]->Ok_0, rv[1]->Ok_0] =~= seq![b0@, b1@]);
            }
            match select_copy(f0, f1) {
                Err(e) => Err(EnvError::Store(e)),
                Ok(i) => {
                    let chosen = if i == 0 { d0 } else { d1 };
                    match chosen {
                        Ok((f, t)) => {
                            self.table = t;
                            self.active = i;
                            self.active_flag = f;
                            self.state = EngineState::Opened;
                            self.pending = None;
                            Ok(())
                        },
                        Err(_) => Err(EnvError::Store(StoreError::NoValidEnvironment)),
                    }
                },
            }
        }
    }

    /// Loads a plain environment file into the table and opens the context,
    /// without any device; on failure nothing changes.
    pub fn load_file(&mut self, text: &[u8]) -> (r: Result<(), EnvError>)
        requires
            inv(old(self)@),
        ensures
            inv(final(self)@),
            match text_from(text@, 0, Seq::empty()) {
                Ok(t) => r is Ok && final(self)@ == with_table(old(self)@, EngineState::Opened, t, 0, 0),
                Err(e) => r == Err::<(), EnvError>(EnvError::Decode(e)) && final(self)@ == old(self)@,
            },
    {
        match parse_env_text(text) {
            Ok(t) => {
                self.table = t;
                self.active = 0;
                self.active_flag = 0;
                self.state = EngineState::Opened;
                self.pending = None;
                Ok(())
            },
            Err(e) => Err(EnvError::Decode(e)),
        }
    }

    /// The value of a variable, `None` if it is not set.
    pub fn get_env(&self, name: &[u8]) -> (r: Result<Option<Vec<u8>>, EnvError>)
        requires
            inv(self@),
        ensures
            self@.state != EngineState::Opened ==> r == Err::<Option<Vec<u8>>, EnvError>(EnvError::Store(StoreError::NotOpen)),
            self@.state == EngineState::Opened ==> match r {
                Ok(Some(v)) => tbl_get(self@.table, name@) == Some(v@),
                Ok(None) => tbl_get(self@.table, name@) is None,
                Err(_) => false,
            },
    {
        if self.state != EngineState::Opened {
            return Err(EnvError::Store(StoreError::NotOpen));
        }
        Ok(self.table.get(name))
    }

    fn attr_refusal(&self, name: &[u8], value_len: usize) -> (r: Option<StoreError>)
        ensures
            r == (if read_only(self@.attrs, name@) {
                Some(StoreError::ReadOnly)
            } else if too_long(self@.attrs, name@, value_len as nat) {
                Some(StoreError::ValueTooLong)
            } else {
                None
            }),
    {
        let ghost av = self@.attrs;
        let mut ro = false;
        let mut tl = false;
        let mut i: usize = 0;
        while i < self.attrs.len()
            invariant
                0 <= i <= self.attrs@.len(),
                av == self@.attrs,
                av.len() == self.attrs@.len(),
                ro == exists|m: int| 0 <= m < i && (#[trigger] av[m]).0 == name@ && av[m].1,
                tl == exists|m: int| 0 <= m < i && (#[trigger] av[m]).0 == name@ && av[m].2 is Some && value_len > av[m].2->0,
            decreases self.attrs@.len() - i,
        {
            let a = &self.attrs[i];
            assert(av[i as int] == (a.name@, a.read_only, a.max_len));
            if bytes_eq(a.name.as_slice(), name) {
                if a.read_only {
                    ro = true;
                }
                match a.max_len {
                    Some(m) => {
                        if value_len > m {
                            tl = true;
                        }
                    },
                    None => {},
                }
            }
            i = i + 1;
        }
        if ro {
            Some(StoreError::ReadOnly)
        } else if tl {
            Some(StoreError::ValueTooLong)
        } else {
            None
        }
    }

    /// Sets a variable in the table. Refused, with nothing changed, when the
    /// context is not open, the name or value is not allowed, or the
    /// variable's limits forbid it.
    pub fn set_env(&mut self, name: &[u8], value: &[u8]) -> (r: Result<(), EnvError>)
        requires
            inv(old(self)@),
        ensures
            inv(final(self)@),
            match set_refusal(old(self)@, name@, value@) {
                Some(e) => r == Err::<(), EnvError>(EnvError::Store(e)) && final(self)@ == old(self)@,
                None => r is Ok && final(self)@ == (ContextView {
                    table: tbl_set(old(self)@.table, name@, value@),
                    ..old(self)@
                }),
            },
    {
        if self.state != EngineState::Opened {
            return Err(EnvError::Store(StoreError::NotOpen));
        }
        if !check_name(name) {
            return Err(EnvError::Store(StoreError::InvalidName));
        }
        if !check_value(value) {
            return Err(EnvError::Store(StoreError::InvalidValue));
        }
        match self.attr_refusal(name, value.len()) {
            Some(e) => Err(EnvError::Store(e)),
            None => {
                proof {
                    crate::table::lemma_set_keeps_wf(self.table@, name@, value@);
                }
                self.table.set(name, value);
                Ok(())
            },
        }
    }

    /// Encodes the table for the copy that a store replaces (in redundant
    /// mode the inactive one, with the next flag) and asks for it to be
    /// written; the table itself is not changed.
    pub fn env_store(&mut self) -> (r: Result<StoreRequest, EnvError>)
        requires
            inv(old(self)@),
        ensures
            inv(final(self)@),
            match store_outcome(old(self)@) {
                Ok(b) => r matches Ok(req) && req.device == store_target(old(self)@).0 && req.blob@ == b
                    && final(self)@ == (ContextView { pending: Some(store_target(old(self)@)), ..old(self)@ }),
                Err(e) => r == Err::<StoreRequest, EnvError>(e) && final(self)@ == old(self)@,
            },
    {
        if self.state != EngineState::Opened {
            return Err(EnvError::Store(StoreError::NotOpen));
        }
        let (n, redundant): (u64, bool) = match &self.config {
            None => {
                return Err(EnvError::Store(StoreError::NotConfigured));
            },
            Some(c) => (c.devices[0].env_size, c.devices.len() == 2),
        };
        if n > usize::MAX as u64 {
            return Err(EnvError::Encode(EncodeError::Overflow));
        }
        let (device, flag): (usize, u8) = if redundant {
            (1 - self.active, next_flag(self.active_flag))
        } else {
            (0, 0)
        };
        match encode(&self.table, n as usize, redundant, flag) {
            Ok(blob) => {
                self.pending = Some((device, flag));
                Ok(StoreRequest { device, blob })
            },
            Err(e) => Err(EnvError::Encode(e)),
        }
    }

    /// Takes the outcome of the write that `env_store` asked for. After a
    /// successful write the copy written becomes the active one; after a
    /// failed one the active copy stays as it was.
    pub fn finish_store(&mut self, outcome: Result<(), IoError>) -> (r: Result<(), EnvError>)
        requires
            inv(old(self)@),
        ensures
            inv(final(self)@),
            match old(self)@.pending {
                None => r == Err::<(), EnvError>(EnvError::Store(StoreError::NoPendingStore))
                    && final(self)@ == old(self)@,
                Some((d, f)) => match outcome {
                    Ok(()) => r is Ok && final(self)@ == (ContextView {
                        active: d,
                        active_flag: f,
                        pending: None,
                        ..old(self)@
                    }),
                    Err(_) => r == Err::<(), EnvError>(EnvError::Io(IoError::WriteFailed))
                        && final(self)@ == (ContextView { pending: None, ..old(self)@ }),
                },
            },
    {
        match self.pending {
            None => Err(EnvError::Store(StoreError::NoPendingStore)),
            Some((d, f)) => {
                self.pending = None;
                match outcome {
                    Ok(()) => {
                        self.active = d;
                        self.active_flag = f;
                        Ok(())
                    },
                    Err(_) => Err(EnvError::Io(IoError::WriteFailed)),
                }
            },
        }
    }

    /// Closes the context: the table is dropped and nothing stays pending.
    /// Closing twice is the same as closing once.
    pub fn close(&mut self)
        requires
            inv(old(self)@),
        ensures
            inv(final(self)@),
            final(self)@ == with_table(old(self)@, EngineState::Closed, Seq::empty(), old(self)@.active, old(self)@.active_flag),
    {
        self.state = EngineState::Closed;
        self.table = VarTable::new();
        self.pending = None;
    }
}

/// A name is non-empty and holds neither `=` nor NUL.
pub fn check_name(name: &[u8]) -> (r: bool)
    ensures
        r == valid_name(name@),
{
    if name.len() == 0 {
        return false;
    }
    let mut i: usize = 0;
    while i < name.len()
        invariant
            0 <= i <= name@.len(),
            forall|m: int| 0 <= m < i ==> name@[m] != 61u8 && name@[m] != 0,
        decreases name@.len() - i,
    {
        if name[i] == 61 || name[i] == 0 {
            return false;
        }
        i = i + 1;
    }
    true
}

/// A value holds no NUL.
pub fn check_value(value: &[u8]) -> (r: bool)
    ensures
        r == valid_value(value@),
{
    let mut i: usize = 0;
    while i < value.len()
        invariant
            0 <= i <= value@.len(),
            forall|m: int| 0 <= m < i ==> value@[m] != 0,
        decreases value@.len() - i,
    {
        if value[i] == 0 {
            return false;
        }
        i = i + 1;
    }
    true
}

} // verus!
