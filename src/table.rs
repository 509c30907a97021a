//! The in-memory variable table: names mapped to values, in insertion order.
use vstd::prelude::*;
use crate::bytes::{bytes_eq, copy_range};

verus! {

/// An entry as the contracts see it: a name and a value.
pub type EntryView = (Seq<u8>, Seq<u8>);

/// The byte `=`, which separates a name from its value.
pub const EQ_SIGN: u8 = 61;

/// A name is non-empty and holds neither `=` nor NUL.
pub open spec fn valid_name(n: Seq<u8>) -> bool {
    &&& n.len() > 0
    &&& forall|i: int| 0 <= i < n.len() ==> n[i] != EQ_SIGN && n[i] != 0
}

/// A value holds no NUL.
pub open spec fn valid_value(v: Seq<u8>) -> bool {
    forall|i: int| 0 <= i < v.len() ==> v[i] != 0
}

pub open spec fn names_unique(t: Seq<EntryView>) -> bool {
    forall|i: int, j: int| 0 <= i < j < t.len() ==> t[i].0 != t[j].0
}

/// Every entry well formed and no name twice.
pub open spec fn wf_table(t: Seq<EntryView>) -> bool {
    &&& names_unique(t)
    &&& forall|i: int| 0 <= i < t.len() ==> valid_name(#[trigger] t[i].0) && valid_value(t[i].1)
}

pub open spec fn has_name(t: Seq<EntryView>, n: Seq<u8>) -> bool {
    exists|i: int| 0 <= i < t.len() && t[i].0 == n
}

pub open spec fn index_of(t: Seq<EntryView>, n: Seq<u8>) -> int {
    choose|i: int| 0 <= i < t.len() && t[i].0 == n
}

/// The value stored under `n`, if any.
pub open spec fn tbl_get(t: Seq<EntryView>, n: Seq<u8>) -> Option<Seq<u8>> {
    if has_name(t, n) {
        Some(t[index_of(t, n)].1)
    } else {
        None
    }
}

/// The table after `n` is set to `v`: overwritten in place, or appended.
pub open spec fn tbl_set(t: Seq<EntryView>, n: Seq<u8>, v: Seq<u8>) -> Seq<EntryView> {
    if has_name(t, n) {
        t.update(index_of(t, n), (n, v))
    } else {
        t.push((n, v))
    }
}

pub proof fn lemma_index_unique(t: Seq<EntryView>, n: Seq<u8>, i: int)
    requires
        names_unique(t),
        0 <= i < t.len(),
        t[i].0 == n,
    ensures
        has_name(t, n),
        index_of(t, n) == i,
{
    assert(has_name(t, n));
    let k = index_of(t, n);
    assert(t[k].0 == n);
}

pub proof fn lemma_set_keeps_unique(t: Seq<EntryView>, n: Seq<u8>, v: Seq<u8>)
    requires
        names_unique(t),
    ensures
        names_unique(tbl_set(t, n, v)),
        tbl_set(t, n, v).len() == if has_name(t, n) { t.len() } else { t.len() + 1 },
        tbl_get(tbl_set(t, n, v), n) == Some(v),
        forall|m: Seq<u8>| m != n ==> tbl_get(tbl_set(t, n, v), m) == tbl_get(t, m),
{
    let s = tbl_set(t, n, v);
    if has_name(t, n) {
        let k = index_of(t, n);
        assert(names_unique(s));
        lemma_index_unique(s, n, k);
        assert forall|m: Seq<u8>| m != n implies tbl_get(s, m) == tbl_get(t, m) by {
            if has_name(t, m) {
                lemma_index_unique(s, m, index_of(t, m));
            } else if has_name(s, m) {
                let j = index_of(s, m);
                assert(t[j].0 == m);
            }
        }
    } else {
        assert(names_unique(s));
        lemma_index_unique(s, n, t.len() as int);
        assert forall|m: Seq<u8>| m != n implies tbl_get(s, m) == tbl_get(t, m) by {
            if has_name(t, m) {
                lemma_index_unique(s, m, index_of(t, m));
            } else if has_name(s, m) {
                let j = index_of(s, m);
                assert(t[j].0 == m);
            }
        }
    }
}

pub proof fn lemma_set_keeps_wf(t: Seq<EntryView>, n: Seq<u8>, v: Seq<u8>)
    requires
        wf_table(t),
        valid_name(n),
        valid_value(v),
    ensures
        wf_table(tbl_set(t, n, v)),
{
    lemma_set_keeps_unique(t, n, v);
    let s = tbl_set(t, n, v);
    assert forall|i: int| 0 <= i < s.len() implies valid_name(#[trigger] s[i].0) && valid_value(s[i].1) by {
        if i < t.len() && s[i] == t[i] {
            assert(valid_name(t[i].0));
        }
    }
}

/// A table of variables. Its view is the sequence of (name, value) pairs.
#[derive(Clone, Debug)]
pub struct VarTable {
    pub entries: Vec<(Vec<u8>, Vec<u8>)>,
}

impl View for VarTable {
    type V = Seq<EntryView>;

    open spec fn view(&self) -> Seq<EntryView> {
        self.entries@.map_values(|e: (Vec<u8>, Vec<u8>)| (e.0@, e.1@))
    }
}

impl VarTable {
    pub fn new() -> (r: VarTable)
        ensures
            r@ == Seq::<EntryView>::empty(),
    {
        let r = VarTable { entries: Vec::new() };
        assert(r@ =~= Seq::<EntryView>::empty());
        r
    }

    pub fn len(&self) -> (r: usize)
        ensures
            r == self@.len(),
    {
        self.entries.len()
    }

    /// The position of `name`, if present.
    pub fn find(&self, name: &[u8]) -> (r: Option<usize>)
        ensures
            match r {
                Some(i) => i < self@.len() && self@[i as int].0 == name@,
                None => !has_name(self@, name@),
            },
    {
        let mut i: usize = 0;
        while i < self.entries.len()
            invariant
                0 <= i <= self@.len(),
                self@.len() == self.entries@.len(),
                forall|m: int| 0 <= m < i ==> self@[m].0 != name@,
            decreases self.entries@.len() - i,
        {
            if bytes_eq(self.entries[i].0.as_slice(), name) {
                return Some(i);
            }
            i = i + 1;
        }
        None
    }

    /// The value of `name`, if present.
    pub fn get(&self, name: &[u8]) -> (r: Option<Vec<u8>>)
        requires
            names_unique(self@),
        ensures
            match r {
                Some(v) => tbl_get(self@, name@) == Some(v@),
                None => tbl_get(self@, name@) is None,
            },
    {
        match self.find(name) {
            Some(i) => {
                proof { lemma_index_unique(self@, name@, i as int); }
                let v = copy_range(self.entries[i].1.as_slice(), 0, self.entries[i].1.len());
                assert(v@ =~= self@[i as int].1);
                Some(v)
            },
            None => None,
        }
    }

    /// Sets `name` to `value`, in place if the name is present, else at the end.
    pub fn set(&mut self, name: &[u8], value: &[u8])
        requires
            names_unique(old(self)@),
        ensures
            final(self)@ == tbl_set(old(self)@, name@, value@),
            names_unique(final(self)@),
    {
        let n = copy_range(name, 0, name.len());
        let v = copy_range(value, 0, value.len());
        assert(n@ =~= name@);
        assert(v@ =~= value@);
        proof { lemma_set_keeps_unique(self@, name@, value@); }
        match self.find(name) {
            Some(i) => {
                proof { lemma_index_unique(self@, name@, i as int); }
                self.entries.set(i, (n, v));
                assert(self@ =~= tbl_set(old(self)@, name@, value@));
            },
            None => {
                self.entries.push((n, v));
                assert(self@ =~= tbl_set(old(self)@, name@, value@));
            },
        }
    }
}

} // verus!
