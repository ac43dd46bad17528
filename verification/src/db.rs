//! The keyspace: a map of byte-string keys to entries with TTL
//! bookkeeping, plus the message stream that keeps the expiration
//! service in step with it.
//!
//! Deadlines are absolute instants in milliseconds on a monotonic clock
//! the caller reads; every operation that looks at a TTL takes the
//! current instant as an argument. Expiration handles are opaque tokens
//! minted here, counted up from zero, so a stale handle is never reused;
//! the service maps them to its own queue slots.

use vstd::prelude::*;

use crate::cmd::{ExpireBehaviour, SetBehaviour};
use crate::proto::{bytes_eq, clone_bytes, Value, ValueModel};

verus! {

/// A keyspace record: the stored value, an optional absolute deadline,
/// and the expiration-service token, present exactly when a deadline is.
pub struct Entry {
    pub value: Value,
    pub expires_at: Option<u64>,
    pub expiration_handle: Option<u64>,
}

/// Model of an entry.
pub ghost struct EntryModel {
    pub value: ValueModel,
    pub expires_at: Option<u64>,
    pub expiration_handle: Option<u64>,
}

impl View for Entry {
    type V = EntryModel;

    open spec fn view(&self) -> EntryModel {
        EntryModel {
            value: self.value@,
            expires_at: self.expires_at,
            expiration_handle: self.expiration_handle,
        }
    }
}

/// A message to the expiration service.
#[derive(Debug)]
pub enum ExpirationUpdate {
    /// Schedule `key` to be removed after `timeout` milliseconds, under
    /// a token the keyspace has already recorded.
    Insert { handle: u64, key: Vec<u8>, timeout: u64 },
    /// Rewrite the deadline behind an existing token.
    Reset { handle: u64, timeout: u64 },
    /// Cancel the deadline behind a token.
    Remove { handle: u64 },
}

/// Model of a message to the expiration service.
pub ghost enum UpdateModel {
    Insert { handle: u64, key: Seq<u8>, timeout: u64 },
    Reset { handle: u64, timeout: u64 },
    Remove { handle: u64 },
}

impl View for ExpirationUpdate {
    type V = UpdateModel;

    open spec fn view(&self) -> UpdateModel {
        match self {
            ExpirationUpdate::Insert { handle, key, timeout } => UpdateModel::Insert {
                handle: *handle,
                key: key@,
                timeout: *timeout,
            },
            ExpirationUpdate::Reset { handle, timeout } => UpdateModel::Reset {
                handle: *handle,
                timeout: *timeout,
            },
            ExpirationUpdate::Remove { handle } => UpdateModel::Remove { handle: *handle },
        }
    }
}

pub open spec fn updates_model(s: Seq<ExpirationUpdate>) -> Seq<UpdateModel> {
    s.map_values(|u: ExpirationUpdate| u@)
}

pub open spec fn keys_model(s: Seq<Vec<u8>>) -> Seq<Seq<u8>> {
    s.map_values(|k: Vec<u8>| k@)
}

/// The keyspace. Entries are held as an association list with unique
/// keys; the model is the map it spells out.
pub struct Db {
    pub entries: Vec<(Vec<u8>, Entry)>,
    pub next_handle: u64,
    pub pending: Vec<ExpirationUpdate>,
}

/// The map an association list spells out; a later binding of the same
/// key would win, and well-formedness rules repeated keys out.
pub open spec fn assoc_map(s: Seq<(Vec<u8>, Entry)>) -> Map<Seq<u8>, EntryModel>
    decreases s.len(),
{
    if s.len() == 0 {
        Map::empty()
    } else {
        assoc_map(s.drop_last()).insert(s.last().0@, s.last().1@)
    }
}

pub open spec fn keys_unique(s: Seq<(Vec<u8>, Entry)>) -> bool {
    forall|i: int, j: int| 0 <= i < j < s.len() ==> (#[trigger] s[i].0@) != (#[trigger] s[j].0@)
}

pub open spec fn entry_wf(e: EntryModel, bound: u64) -> bool {
    &&& (e.expires_at is Some <==> e.expiration_handle is Some)
    &&& (e.expiration_handle matches Some(h) ==> h < bound)
}

impl View for Db {
    type V = Map<Seq<u8>, EntryModel>;

    open spec fn view(&self) -> Map<Seq<u8>, EntryModel> {
        assoc_map(self.entries@)
    }
}

impl Db {
    /// Well-formedness: keys are unique, an entry has a handle exactly
    /// when it has a deadline, and every live handle was minted below
    /// the counter.
    pub open spec fn wf(self) -> bool {
        &&& keys_unique(self.entries@)
        &&& forall|i: int|
            0 <= i < self.entries@.len() ==> entry_wf(
                (#[trigger] self.entries@[i]).1@,
                self.next_handle,
            )
    }
}

/// An association map holds a key exactly when some slot carries it.
pub proof fn lemma_assoc_contains(s: Seq<(Vec<u8>, Entry)>, k: Seq<u8>)
    ensures
        assoc_map(s).contains_key(k) <==> exists|i: int|
            0 <= i < s.len() && (#[trigger] s[i].0@) == k,
    decreases s.len(),
{
    if s.len() > 0 {
        lemma_assoc_contains(s.drop_last(), k);
        if s.last().0@ == k {
            assert(s[s.len() - 1].0@ == k);
        } else {
            if assoc_map(s).contains_key(k) {
                let i = choose|i: int| 0 <= i < s.drop_last().len() && (#[trigger] s.drop_last()[i].0@) == k;
                assert(s[i].0@ == k);
            }
            if exists|i: int| 0 <= i < s.len() && (#[trigger] s[i].0@) == k {
                let i = choose|i: int| 0 <= i < s.len() && (#[trigger] s[i].0@) == k;
                assert(i < s.len() - 1);
                assert(s.drop_last()[i].0@ == k);
            }
        }
    }
}

/// With unique keys, the association map answers the slot's entry.
pub proof fn lemma_assoc_index(s: Seq<(Vec<u8>, Entry)>, i: int)
    requires
        keys_unique(s),
        0 <= i < s.len(),
    ensures
        assoc_map(s).contains_key(s[i].0@),
        assoc_map(s)[s[i].0@] == s[i].1@,
    decreases s.len(),
{
    if i == s.len() - 1 {
    } else {
        assert(s[i].0@ != s.last().0@);
        assert(s.drop_last()[i] == s[i]);
        lemma_assoc_index(s.drop_last(), i);
    }
}

/// Replacing a slot under the same key view updates the map in place.
pub proof fn lemma_assoc_update(s: Seq<(Vec<u8>, Entry)>, i: int, p: (Vec<u8>, Entry))
    requires
        keys_unique(s),
        0 <= i < s.len(),
        p.0@ == s[i].0@,
    ensures
        assoc_map(s.update(i, p)) == assoc_map(s).insert(p.0@, p.1@),
        keys_unique(s.update(i, p)),
    decreases s.len(),
{
    let t = s.update(i, p);
    assert forall|a: int, b: int| 0 <= a < b < t.len() implies (#[trigger] t[a].0@)
        != (#[trigger] t[b].0@) by {
        assert(s[a].0@ != s[b].0@);
    }
    if i == s.len() - 1 {
        assert(t.drop_last() =~= s.drop_last());
        assert(assoc_map(t) == assoc_map(s.drop_last()).insert(p.0@, p.1@));
        assert(assoc_map(s).insert(p.0@, p.1@) =~= assoc_map(s.drop_last()).insert(p.0@, p.1@));
    } else {
        assert(t.drop_last() =~= s.drop_last().update(i, p));
        assert(s.drop_last()[i] == s[i]);
        lemma_assoc_update(s.drop_last(), i, p);
        assert(t.last() == s.last());
        assert(s.last().0@ != p.0@);
        assert(assoc_map(t) =~= assoc_map(s).insert(p.0@, p.1@));
    }
}

/// Removing a slot removes its key from the map.
pub proof fn lemma_assoc_remove(s: Seq<(Vec<u8>, Entry)>, i: int)
    requires
        keys_unique(s),
        0 <= i < s.len(),
    ensures
        assoc_map(s.remove(i)) == assoc_map(s).remove(s[i].0@),
        keys_unique(s.remove(i)),
    decreases s.len(),
{
    let t = s.remove(i);
    assert forall|a: int, b: int| 0 <= a < b < t.len() implies (#[trigger] t[a].0@)
        != (#[trigger] t[b].0@) by {
        let sa = if a < i {
            a
        } else {
            a + 1
        };
        let sb = if b < i {
            b
        } else {
            b + 1
        };
        assert(t[a] == s[sa] && t[b] == s[sb]);
        assert(s[sa].0@ != s[sb].0@);
    }
    if i == s.len() - 1 {
        assert(t =~= s.drop_last());
        lemma_assoc_contains(s.drop_last(), s[i].0@);
        assert forall|j: int| 0 <= j < s.drop_last().len() implies (#[trigger] s.drop_last()[j].0@)
            != s[i].0@ by {
            assert(s.drop_last()[j] == s[j]);
            assert(s[j].0@ != s[i].0@);
        }
        assert(!assoc_map(s.drop_last()).contains_key(s[i].0@));
        assert(assoc_map(s.remove(i)) =~= assoc_map(s).remove(s[i].0@));
    } else {
        assert(t.drop_last() =~= s.drop_last().remove(i));
        assert(s.drop_last()[i] == s[i]);
        lemma_assoc_remove(s.drop_last(), i);
        assert(t.last() == s.last());
        assert(s.last().0@ != s[i].0@);
        assert(assoc_map(s.remove(i)) =~= assoc_map(s).remove(s[i].0@));
    }
}

/// A key is live at `now` when it is present and its deadline, if any,
/// has not passed.
pub open spec fn spec_live(m: Map<Seq<u8>, EntryModel>, k: Seq<u8>, now: u64) -> bool {
    m.contains_key(k) && match m[k].expires_at {
        Some(d) => now <= d,
        None => true,
    }
}

/// Remaining whole seconds before the deadline; `-1` without a TTL,
/// `-2` when the key is absent or past its deadline.
pub open spec fn spec_ttl(m: Map<Seq<u8>, EntryModel>, k: Seq<u8>, now: u64) -> int {
    if !m.contains_key(k) {
        -2
    } else {
        match m[k].expires_at {
            None => -1,
            Some(d) => if now > d {
                -2
            } else {
                (d - now) / 1000
            },
        }
    }
}

/// Remaining milliseconds, with the same `-1`/`-2` sentinels, capped at
/// the largest reply integer.
pub open spec fn spec_pttl(m: Map<Seq<u8>, EntryModel>, k: Seq<u8>, now: u64) -> int {
    if !m.contains_key(k) {
        -2
    } else {
        match m[k].expires_at {
            None => -1,
            Some(d) => if now > d {
                -2
            } else if d - now > i64::MAX {
                i64::MAX as int
            } else {
                d - now
            },
        }
    }
}

/// Law: the remaining TTL of a live timed key is a nonnegative count
/// that never grows as time passes.
pub proof fn lemma_ttl_monotonic(m: Map<Seq<u8>, EntryModel>, k: Seq<u8>, t1: u64, t2: u64)
    requires
        t1 <= t2,
    ensures
        spec_ttl(m, k, t2) <= spec_ttl(m, k, t1),
        spec_pttl(m, k, t2) <= spec_pttl(m, k, t1),
        spec_live(m, k, t2) && m[k].expires_at is Some ==> spec_ttl(m, k, t2) >= 0 && spec_pttl(
            m,
            k,
            t2,
        ) >= 0,
{
    if m.contains_key(k) {
        match m[k].expires_at {
            Some(d) => {
                if t2 <= d {
                    assert((d - t2) / 1000 <= (d - t1) / 1000) by (nonlinear_arith)
                        requires t1 <= t2 <= d;
                    assert((d - t2) / 1000 >= 0) by (nonlinear_arith)
                        requires t2 <= d;
                }
            },
            None => {},
        }
    }
}

/// Saturating addition on deadlines.
pub open spec fn sat_add(a: u64, b: u64) -> u64 {
    if a + b > u64::MAX {
        u64::MAX
    } else {
        (a + b) as u64
    }
}

/// Whether a `SET` with the given behaviour proceeds against `m`.
pub open spec fn spec_set_applies(
    m: Map<Seq<u8>, EntryModel>,
    k: Seq<u8>,
    behaviour: SetBehaviour,
) -> bool {
    match behaviour {
        SetBehaviour::Force => true,
        SetBehaviour::OnlyIfNotExists => !m.contains_key(k),
        SetBehaviour::OnlyIfExists => m.contains_key(k),
    }
}

/// What a `SET` does to the keyspace state: the map, the handle
/// counter and the queued messages after the write.
pub open spec fn spec_set_state(
    m0: Map<Seq<u8>, EntryModel>,
    next0: u64,
    pend0: Seq<UpdateModel>,
    k: Seq<u8>,
    v: ValueModel,
    expiry: Option<u64>,
    behaviour: SetBehaviour,
    keep_ttl: bool,
    now: u64,
) -> (Map<Seq<u8>, EntryModel>, u64, Seq<UpdateModel>) {
    let applied = spec_set_applies(m0, k, behaviour);
    let old_exp = if m0.contains_key(k) {
        m0[k].expires_at
    } else {
        None::<u64>
    };
    let old_h = if m0.contains_key(k) {
        m0[k].expiration_handle
    } else {
        None::<u64>
    };
    if !applied {
        (m0, next0, pend0)
    } else if keep_ttl {
        (
            m0.insert(k, (EntryModel { value: v, expires_at: old_exp, expiration_handle: old_h })),
            next0,
            pend0,
        )
    } else {
        match expiry {
            Some(d) => {
                let deadline = sat_add(now, d);
                match old_h {
                    Some(h) => (
                        m0.insert(
                            k,
                            (EntryModel {
                                value: v,
                                expires_at: Some(deadline),
                                expiration_handle: Some(h),
                            }),
                        ),
                        next0,
                        pend0.push((UpdateModel::Reset { handle: h, timeout: d })),
                    ),
                    None => (
                        m0.insert(
                            k,
                            (EntryModel {
                                value: v,
                                expires_at: Some(deadline),
                                expiration_handle: Some(next0),
                            }),
                        ),
                        (next0 + 1) as u64,
                        pend0.push((UpdateModel::Insert { handle: next0, key: k, timeout: d })),
                    ),
                }
            },
            None => (
                m0.insert(
                    k,
                    (EntryModel {
                        value: v,
                        expires_at: None::<u64>,
                        expiration_handle: None::<u64>,
                    }),
                ),
                next0,
                match old_h {
                    Some(h) => pend0.push((UpdateModel::Remove { handle: h })),
                    None => pend0,
                },
            ),
        }
    }
}

/// What an `EXPIRE` does to the keyspace state, and whether it
/// installed a deadline.
pub open spec fn spec_expire_state(
    m0: Map<Seq<u8>, EntryModel>,
    next0: u64,
    pend0: Seq<UpdateModel>,
    k: Seq<u8>,
    seconds: u64,
    behaviour: ExpireBehaviour,
    now: u64,
) -> (Map<Seq<u8>, EntryModel>, u64, Seq<UpdateModel>, bool) {
    let ms = sat_mul_1000(seconds);
    let deadline = sat_add(now, ms);
    if m0.contains_key(k) && spec_expire_applies(m0[k], deadline, behaviour) {
        match m0[k].expiration_handle {
            Some(h) => (
                m0.insert(
                    k,
                    (EntryModel {
                        value: m0[k].value,
                        expires_at: Some(deadline),
                        expiration_handle: Some(h),
                    }),
                ),
                next0,
                pend0.push((UpdateModel::Reset { handle: h, timeout: ms })),
                true,
            ),
            None => (
                m0.insert(
                    k,
                    (EntryModel {
                        value: m0[k].value,
                        expires_at: Some(deadline),
                        expiration_handle: Some(next0),
                    }),
                ),
                (next0 + 1) as u64,
                pend0.push((UpdateModel::Insert { handle: next0, key: k, timeout: ms })),
                true,
            ),
        }
    } else {
        (m0, next0, pend0, false)
    }
}

impl Db {
    /// A fresh, empty keyspace.
    pub fn new() -> (r: Db)
        ensures
            r.wf(),
            r@ == Map::<Seq<u8>, EntryModel>::empty(),
            r.pending@.len() == 0,
            r.next_handle == 0,
    {
        Db { entries: Vec::new(), next_handle: 0, pending: Vec::new() }
    }

    /// The slot of `key`, if any.
    fn find_index(&self, key: &[u8]) -> (r: Option<usize>)
        ensures
            match r {
                Some(i) => i < self.entries@.len() && self.entries@[i as int].0@ == key@,
                None => forall|i: int|
                    0 <= i < self.entries@.len() ==> (#[trigger] self.entries@[i].0@) != key@,
            },
    {
        let mut i: usize = 0;
        while i < self.entries.len()
            invariant
                i <= self.entries@.len(),
                forall|j: int| 0 <= j < i ==> (#[trigger] self.entries@[j].0@) != key@,
            decreases self.entries@.len() - i,
        {
            if bytes_eq(self.entries[i].0.as_slice(), key) {
                return Some(i);
            }
            i = i + 1;
        }
        None
    }

    /// A copy of the live value under `key`.
    pub fn get(&self, key: &[u8], now: u64) -> (r: Option<Value>)
        requires
            self.wf(),
        ensures
            match r {
                Some(v) => spec_live(self@, key@, now) && v@ == self@[key@].value,
                None => !spec_live(self@, key@, now),
            },
    {
        match self.find_index(key) {
            None => {
                proof {
                    lemma_assoc_contains(self.entries@, key@);
                }
                None
            },
            Some(i) => {
                proof {
                    lemma_assoc_index(self.entries@, i as int);
                }
                let live = match self.entries[i].1.expires_at {
                    Some(d) => now <= d,
                    None => true,
                };
                if live {
                    Some(self.entries[i].1.value.deep_clone())
                } else {
                    None
                }
            },
        }
    }

    /// Remove `key` without telling the expiration service; the service
    /// itself calls this when a deadline fires, having already dropped
    /// its queue slot.
    pub fn remove_raw(&mut self, key: &[u8])
        requires
            old(self).wf(),
        ensures
            final(self).wf(),
            final(self)@ == old(self)@.remove(key@),
            final(self).pending@ == old(self).pending@,
            final(self).next_handle == old(self).next_handle,
    {
        match self.find_index(key) {
            None => {
                proof {
                    lemma_assoc_contains(self.entries@, key@);
                    assert(self@ =~= self@.remove(key@));
                }
            },
            Some(i) => {
                proof {
                    lemma_assoc_remove(self.entries@, i as int);
                }
                let _ = self.entries.remove(i);
                proof {
                    assert forall|j: int| 0 <= j < self.entries@.len() implies entry_wf(
                        (#[trigger] self.entries@[j]).1@,
                        self.next_handle,
                    ) by {
                        if j < i {
                            assert(self.entries@[j] == old(self).entries@[j]);
                        } else {
                            assert(self.entries@[j] == old(self).entries@[j + 1]);
                        }
                    }
                }
            },
        }
    }

    /// Remaining TTL of `key` in whole seconds.
    pub fn ttl(&self, key: &[u8], now: u64) -> (r: i64)
        requires
            self.wf(),
        ensures
            r as int == spec_ttl(self@, key@, now),
    {
        match self.find_index(key) {
            None => {
                proof {
                    lemma_assoc_contains(self.entries@, key@);
                }
                -2
            },
            Some(i) => {
                proof {
                    lemma_assoc_index(self.entries@, i as int);
                }
                match self.entries[i].1.expires_at {
                    None => -1,
                    Some(d) => {
                        if now > d {
                            -2
                        } else {
                            ((d - now) / 1000) as i64
                        }
                    },
                }
            },
        }
    }

    /// Remaining TTL of `key` in milliseconds.
    pub fn pttl(&self, key: &[u8], now: u64) -> (r: i64)
        requires
            self.wf(),
        ensures
            r as int == spec_pttl(self@, key@, now),
    {
        match self.find_index(key) {
            None => {
                proof {
                    lemma_assoc_contains(self.entries@, key@);
                }
                -2
            },
            Some(i) => {
                proof {
                    lemma_assoc_index(self.entries@, i as int);
                }
                match self.entries[i].1.expires_at {
                    None => -1,
                    Some(d) => {
                        if now > d {
                            -2
                        } else if d - now > (i64::MAX as u64) {
                            i64::MAX
                        } else {
                            (d - now) as i64
                        }
                    },
                }
            },
        }
    }

    /// Hand the queued expiration messages over, in order.
    pub fn take_updates(&mut self) -> (r: Vec<ExpirationUpdate>)
        requires
            old(self).wf(),
        ensures
            final(self).wf(),
            r@ == old(self).pending@,
            final(self).pending@.len() == 0,
            final(self)@ == old(self)@,
            final(self).entries@ == old(self).entries@,
            final(self).next_handle == old(self).next_handle,
    {
        let mut out: Vec<ExpirationUpdate> = Vec::new();
        std::mem::swap(&mut out, &mut self.pending);
        out
    }
}


impl Db {
    /// Write `value` under `key` per the `SET` rules.
    ///
    /// The write proceeds when `behaviour` allows it against the current
    /// state of the key. When it proceeds, `keep_ttl` retains the prior
    /// deadline and handle; otherwise a given expiry (milliseconds from
    /// `now`) installs a deadline, resetting the existing handle in
    /// place or minting a fresh one, and no expiry clears any prior
    /// deadline and cancels its handle. Answers whether the write
    /// proceeded, and a copy of the prior value if one existed.
    pub fn set(
        &mut self,
        key: Vec<u8>,
        value: Value,
        expiry: Option<u64>,
        behaviour: SetBehaviour,
        keep_ttl: bool,
        now: u64,
    ) -> (r: (bool, Option<Value>))
        requires
            old(self).wf(),
            old(self).next_handle < u64::MAX,
        ensures
            final(self).wf(),
            old(self).next_handle <= final(self).next_handle,
            r.0 == spec_set_applies(old(self)@, key@, behaviour),
            (match r.1 {
                Some(p) => old(self)@.contains_key(key@) && p@ == old(self)@[key@].value,
                None => !old(self)@.contains_key(key@),
            }),
            ({
                let st = spec_set_state(
                    old(self)@,
                    old(self).next_handle,
                    updates_model(old(self).pending@),
                    key@,
                    value@,
                    expiry,
                    behaviour,
                    keep_ttl,
                    now,
                );
                final(self)@ == st.0 && final(self).next_handle == st.1 && updates_model(
                    final(self).pending@,
                ) == st.2
            }),
    {
        let idx = self.find_index(key.as_slice());
        proof {
            match idx {
                Some(i) => lemma_assoc_index(self.entries@, i as int),
                None => lemma_assoc_contains(self.entries@, key@),
            }
        }
        let prior: Option<Value> = match idx {
            Some(i) => Some(self.entries[i].1.value.deep_clone()),
            None => None,
        };
        let applied = match behaviour {
            SetBehaviour::Force => true,
            SetBehaviour::OnlyIfExists => idx.is_some(),
            SetBehaviour::OnlyIfNotExists => idx.is_none(),
        };
        if !applied {
            return (false, prior);
        }
        match idx {
            Some(i) => {
                let old_exp = self.entries[i].1.expires_at;
                let old_h = self.entries[i].1.expiration_handle;
                let new_exp: Option<u64>;
                let new_h: Option<u64>;
                if keep_ttl {
                    new_exp = old_exp;
                    new_h = old_h;
                } else {
                    match expiry {
                        Some(d) => {
                            let deadline = if now <= u64::MAX - d {
                                now + d
                            } else {
                                u64::MAX
                            };
                            match old_h {
                                Some(h) => {
                                    self.pending.push(
                                        ExpirationUpdate::Reset { handle: h, timeout: d },
                                    );
                                },
                                None => {
                                    let h = self.next_handle;
                                    self.next_handle = self.next_handle + 1;
                                    self.pending.push(
                                        ExpirationUpdate::Insert {
                                            handle: h,
                                            key: clone_bytes(&key),
                                            timeout: d,
                                        },
                                    );
                                },
                            }
                            new_exp = Some(deadline);
                            new_h = match old_h {
                                Some(h) => Some(h),
                                None => Some(self.next_handle - 1),
                            };
                        },
                        None => {
                            match old_h {
                                Some(h) => {
                                    self.pending.push(ExpirationUpdate::Remove { handle: h });
                                },
                                None => {},
                            }
                            new_exp = None;
                            new_h = None;
                        },
                    }
                }
                let ghost pre = self.entries@;
                let new_entry = Entry { value, expires_at: new_exp, expiration_handle: new_h };
                self.entries.set(i, (key, new_entry));
                proof {
                    lemma_assoc_update(pre, i as int, self.entries@[i as int]);
                    assert(updates_model(self.pending@) =~= updates_model(old(self).pending@)
                        + updates_model(self.pending@.skip(old(self).pending@.len() as int)));
                    assert forall|j: int| 0 <= j < self.entries@.len() implies entry_wf(
                        (#[trigger] self.entries@[j]).1@,
                        self.next_handle,
                    ) by {
                        if j != i {
                            assert(self.entries@[j] == pre[j]);
                            assert(entry_wf(pre[j].1@, old(self).next_handle));
                        }
                    }
                    assert(updates_model(self.pending@) =~= match (keep_ttl, expiry, old_h) {
                        (false, Some(d), Some(h)) => updates_model(old(self).pending@).push(
                            (UpdateModel::Reset { handle: h, timeout: d }),
                        ),
                        (false, Some(d), None) => updates_model(old(self).pending@).push(
                            (UpdateModel::Insert {
                                handle: old(self).next_handle,
                                key: key@,
                                timeout: d,
                            }),
                        ),
                        (false, None, Some(h)) => updates_model(old(self).pending@).push(
                            (UpdateModel::Remove { handle: h }),
                        ),
                        _ => updates_model(old(self).pending@),
                    });
                }
                (true, prior)
            },
            None => {
                let new_exp: Option<u64>;
                let new_h: Option<u64>;
                if keep_ttl {
                    new_exp = None;
                    new_h = None;
                } else {
                    match expiry {
                        Some(d) => {
                            let deadline = if now <= u64::MAX - d {
                                now + d
                            } else {
                                u64::MAX
                            };
                            let h = self.next_handle;
                            self.next_handle = self.next_handle + 1;
                            self.pending.push(
                                ExpirationUpdate::Insert {
                                    handle: h,
                                    key: clone_bytes(&key),
                                    timeout: d,
                                },
                            );
                            new_exp = Some(deadline);
                            new_h = Some(h);
                        },
                        None => {
                            new_exp = None;
                            new_h = None;
                        },
                    }
                }
                let ghost pre = self.entries@;
                let new_entry = Entry { value, expires_at: new_exp, expiration_handle: new_h };
                self.entries.push((key, new_entry));
                proof {
                    assert(self.entries@.drop_last() =~= pre);
                    assert forall|a: int, b: int| 0 <= a < b < self.entries@.len() implies (
                    #[trigger] self.entries@[a].0@) != (#[trigger] self.entries@[b].0@) by {
                        if b == self.entries@.len() - 1 {
                            assert(pre[a].0@ != key@);
                        } else {
                            assert(pre[a].0@ != pre[b].0@);
                        }
                    }
                    assert forall|j: int| 0 <= j < self.entries@.len() implies entry_wf(
                        (#[trigger] self.entries@[j]).1@,
                        self.next_handle,
                    ) by {
                        if j < self.entries@.len() - 1 {
                            assert(self.entries@[j] == pre[j]);
                            assert(entry_wf(pre[j].1@, old(self).next_handle));
                        }
                    }
                    assert(updates_model(self.pending@) =~= match (keep_ttl, expiry) {
                        (false, Some(d)) => updates_model(old(self).pending@).push(
                            (UpdateModel::Insert {
                                handle: old(self).next_handle,
                                key: key@,
                                timeout: d,
                            }),
                        ),
                        _ => updates_model(old(self).pending@),
                    });
                }
                (true, prior)
            },
        }
    }
}



/// What a bulk delete does: the keys, taken in order, that are present
/// when their turn comes are removed and counted, and the handle of
/// each removed entry is cancelled. Answers the final map, the count,
/// and the cancellation messages in order.
pub open spec fn spec_del(m: Map<Seq<u8>, EntryModel>, keys: Seq<Seq<u8>>) -> (
    Map<Seq<u8>, EntryModel>,
    int,
    Seq<UpdateModel>,
)
    decreases keys.len(),
{
    if keys.len() == 0 {
        (m, 0, Seq::empty())
    } else {
        let k = keys[0];
        if m.contains_key(k) {
            let head: Seq<UpdateModel> = match m[k].expiration_handle {
                Some(h) => seq![(UpdateModel::Remove { handle: h })],
                None => Seq::empty(),
            };
            let rest = spec_del(m.remove(k), keys.drop_first());
            (rest.0, rest.1 + 1, head + rest.2)
        } else {
            spec_del(m, keys.drop_first())
        }
    }
}

/// The domain of an association map is finite.
pub proof fn lemma_assoc_map_dom_finite(s: Seq<(Vec<u8>, Entry)>)
    ensures
        assoc_map(s).dom().finite(),
    decreases s.len(),
{
    if s.len() == 0 {
        broadcast use vstd::set::axiom_set_empty_finite;

        assert(assoc_map(s).dom() =~= Set::<Seq<u8>>::empty());
    } else {
        lemma_assoc_map_dom_finite(s.drop_last());
        vstd::set::axiom_set_insert_finite(assoc_map(s.drop_last()).dom(), s.last().0@);
        assert(assoc_map(s).dom() =~= assoc_map(s.drop_last()).dom().insert(s.last().0@));
    }
}

/// Law: a bulk delete removes exactly the listed keys, and its count
/// is the number of distinct listed keys present at call time --
/// repeated mentions of one key count once.
pub proof fn lemma_del_count(m: Map<Seq<u8>, EntryModel>, keys: Seq<Seq<u8>>)
    requires
        m.dom().finite(),
    ensures
        spec_del(m, keys).0 == m.remove_keys(keys.to_set()),
        spec_del(m, keys).1 == m.dom().intersect(keys.to_set()).len(),
    decreases keys.len(),
{
    if keys.len() == 0 {
        assert(keys.to_set() =~= Set::<Seq<u8>>::empty());
        assert(m.remove_keys(keys.to_set()) =~= m);
        broadcast use vstd::set::axiom_set_empty_len;

        assert(m.dom().intersect(keys.to_set()) =~= Set::<Seq<u8>>::empty());
    } else {
        let k = keys[0];
        let rest = keys.drop_first();
        assert forall|x: Seq<u8>|
            keys.to_set().contains(x) <==> (x == k || rest.to_set().contains(x)) by {
            if keys.to_set().contains(x) {
                let i = choose|i: int| 0 <= i < keys.len() && keys[i] == x;
                if i > 0 {
                    assert(rest[i - 1] == x);
                }
            }
            if rest.to_set().contains(x) {
                let i = choose|i: int| 0 <= i < rest.len() && rest[i] == x;
                assert(keys[i + 1] == x);
            }
            if x == k {
                assert(keys[0] == x);
            }
        }
        if m.contains_key(k) {
            vstd::set::axiom_set_remove_finite(m.dom(), k);
            assert(m.remove(k).dom() =~= m.dom().remove(k));
            lemma_del_count(m.remove(k), rest);
            assert(m.remove(k).remove_keys(rest.to_set()) =~= m.remove_keys(keys.to_set()));
            let a = m.dom().intersect(keys.to_set());
            let b = m.remove(k).dom().intersect(rest.to_set());
            assert(b =~= a.remove(k));
            assert(a.contains(k));
            vstd::set::axiom_set_intersect_finite(m.dom(), keys.to_set());
            vstd::set::axiom_set_remove_len(a, k);
        } else {
            lemma_del_count(m, rest);
            assert(m.remove_keys(rest.to_set()) =~= m.remove_keys(keys.to_set()));
            assert(m.dom().intersect(keys.to_set()) =~= m.dom().intersect(rest.to_set()));
        }
    }
}


/// Whether an `EXPIRE` with the given behaviour proceeds against the
/// entry's current deadline; a key without a deadline counts as living
/// forever for the greater/less comparisons.
pub open spec fn spec_expire_applies(
    e: EntryModel,
    deadline: u64,
    behaviour: ExpireBehaviour,
) -> bool {
    match behaviour {
        ExpireBehaviour::Force => true,
        ExpireBehaviour::OnlyIfNoExpiry => e.expires_at is None,
        ExpireBehaviour::OnlyIfExpiry => e.expires_at is Some,
        ExpireBehaviour::OnlyIfGreater => e.expires_at matches Some(d) && deadline > d,
        ExpireBehaviour::OnlyIfLess => match e.expires_at {
            Some(d) => deadline < d,
            None => true,
        },
    }
}

/// Saturating conversion of whole seconds to milliseconds.
pub open spec fn sat_mul_1000(s: u64) -> u64 {
    if s * 1000 > u64::MAX {
        u64::MAX
    } else {
        (s * 1000) as u64
    }
}

impl Db {
    /// Delete the given keys; answers how many of them existed.
    pub fn remove(&mut self, keys: Vec<Vec<u8>>) -> (r: usize)
        requires
            old(self).wf(),
        ensures
            final(self).wf(),
            ({
                let d = spec_del(old(self)@, keys_model(keys@));
                final(self)@ == d.0 && r == d.1 && updates_model(final(self).pending@)
                    == updates_model(old(self).pending@) + d.2
            }),
            final(self).next_handle == old(self).next_handle,
    {
        let ghost m0 = self@;
        let ghost km = keys_model(keys@);
        let ghost p0 = self.pending@;
        let mut count: usize = 0;
        let mut i: usize = 0;
        proof {
            assert(km.skip(0) =~= km);
            assert(updates_model(self.pending@.skip(p0.len() as int)) =~= Seq::<
                UpdateModel,
            >::empty());
        }
        while i < keys.len()
            invariant
                self.wf(),
                i <= keys@.len(),
                km == keys_model(keys@),
                count <= i,
                self.next_handle == old(self).next_handle,
                p0.is_prefix_of(self.pending@),
                spec_del(m0, km).0 == spec_del(self@, km.skip(i as int)).0,
                spec_del(m0, km).1 == count + spec_del(self@, km.skip(i as int)).1,
                spec_del(m0, km).2 == updates_model(self.pending@.skip(p0.len() as int))
                    + spec_del(self@, km.skip(i as int)).2,
            decreases keys@.len() - i,
        {
            let ghost pre = self@;
            let ghost rem = km.skip(i as int);
            proof {
                assert(rem[0] == km[i as int]);
                assert(rem.drop_first() =~= km.skip(i + 1));
            }
            match self.find_index(keys[i].as_slice()) {
                None => {
                    proof {
                        lemma_assoc_contains(self.entries@, km[i as int]);
                    }
                },
                Some(j) => {
                    proof {
                        lemma_assoc_index(self.entries@, j as int);
                        lemma_assoc_remove(self.entries@, j as int);
                    }
                    let ghost pre_entries = self.entries@;
                    let ghost pre_pending = self.pending@;
                    match self.entries[j].1.expiration_handle {
                        Some(h) => {
                            self.pending.push(ExpirationUpdate::Remove { handle: h });
                        },
                        None => {},
                    }
                    let _ = self.entries.remove(j);
                    count = count + 1;
                    proof {
                        assert forall|x: int| 0 <= x < self.entries@.len() implies entry_wf(
                            (#[trigger] self.entries@[x]).1@,
                            self.next_handle,
                        ) by {
                            if x < j {
                                assert(self.entries@[x] == pre_entries[x]);
                            } else {
                                assert(self.entries@[x] == pre_entries[x + 1]);
                            }
                        }
                        assert(self@ == pre.remove(km[i as int]));
                        assert(updates_model(self.pending@.skip(p0.len() as int)) =~= updates_model(
                            pre_pending.skip(p0.len() as int),
                        ) + (match pre[km[i as int]].expiration_handle {
                            Some(h) => seq![(UpdateModel::Remove { handle: h })],
                            None => Seq::<UpdateModel>::empty(),
                        }));
                    }
                },
            }
            i = i + 1;
            proof {
                assert(spec_del(m0, km).2 =~= updates_model(self.pending@.skip(p0.len() as int))
                    + spec_del(self@, km.skip(i as int)).2);
            }
        }
        proof {
            assert(km.skip(km.len() as int) =~= Seq::<Seq<u8>>::empty());
            assert(updates_model(self.pending@) =~= updates_model(p0) + updates_model(
                self.pending@.skip(p0.len() as int),
            ));
        }
        count
    }

    /// Install or rewrite the TTL of `key` per the `EXPIRE` rules;
    /// answers whether a new deadline was installed.
    pub fn set_expire(&mut self, key: &[u8], seconds: u64, behaviour: ExpireBehaviour, now: u64) -> (r:
        bool)
        requires
            old(self).wf(),
            old(self).next_handle < u64::MAX,
        ensures
            final(self).wf(),
            old(self).next_handle <= final(self).next_handle,
            ({
                let st = spec_expire_state(
                    old(self)@,
                    old(self).next_handle,
                    updates_model(old(self).pending@),
                    key@,
                    seconds,
                    behaviour,
                    now,
                );
                final(self)@ == st.0 && final(self).next_handle == st.1 && updates_model(
                    final(self).pending@,
                ) == st.2 && r == st.3
            }),
    {
        let ms = if seconds <= u64::MAX / 1000 {
            seconds * 1000
        } else {
            u64::MAX
        };
        proof {
            assert(seconds <= u64::MAX / 1000 <==> seconds * 1000 <= u64::MAX) by (nonlinear_arith);
        }
        let deadline = if now <= u64::MAX - ms {
            now + ms
        } else {
            u64::MAX
        };
        match self.find_index(key) {
            None => {
                proof {
                    lemma_assoc_contains(self.entries@, key@);
                }
                false
            },
            Some(i) => {
                proof {
                    lemma_assoc_index(self.entries@, i as int);
                }
                let applies = match behaviour {
                    ExpireBehaviour::Force => true,
                    ExpireBehaviour::OnlyIfNoExpiry => self.entries[i].1.expires_at.is_none(),
                    ExpireBehaviour::OnlyIfExpiry => self.entries[i].1.expires_at.is_some(),
                    ExpireBehaviour::OnlyIfGreater => match self.entries[i].1.expires_at {
                        Some(d) => deadline > d,
                        None => false,
                    },
                    ExpireBehaviour::OnlyIfLess => match self.entries[i].1.expires_at {
                        Some(d) => deadline < d,
                        None => true,
                    },
                };
                if !applies {
                    return false;
                }
                let old_h = self.entries[i].1.expiration_handle;
                let h: u64;
                match old_h {
                    Some(h0) => {
                        h = h0;
                        self.pending.push(ExpirationUpdate::Reset { handle: h0, timeout: ms });
                    },
                    None => {
                        h = self.next_handle;
                        self.next_handle = self.next_handle + 1;
                        self.pending.push(
                            ExpirationUpdate::Insert {
                                handle: h,
                                key: clone_bytes(&self.entries[i].0),
                                timeout: ms,
                            },
                        );
                    },
                }
                let ghost pre = self.entries@;
                let stored_key = clone_bytes(&self.entries[i].0);
                let value = self.entries[i].1.value.deep_clone();
                let new_entry = Entry {
                    value,
                    expires_at: Some(deadline),
                    expiration_handle: Some(h),
                };
                self.entries.set(i, (stored_key, new_entry));
                proof {
                    lemma_assoc_update(pre, i as int, self.entries@[i as int]);
                    assert forall|j: int| 0 <= j < self.entries@.len() implies entry_wf(
                        (#[trigger] self.entries@[j]).1@,
                        self.next_handle,
                    ) by {
                        if j != i {
                            assert(self.entries@[j] == pre[j]);
                            assert(entry_wf(pre[j].1@, old(self).next_handle));
                        }
                    }
                    assert(updates_model(self.pending@) =~= updates_model(old(self).pending@).push(
                        self.pending@.last()@,
                    ));
                }
                true
            },
        }
    }
}



/// Law: every handle live in a well-formed keyspace lies below the
/// counter, so the next handle minted is fresh: a stale handle is
/// never reused.
pub proof fn lemma_live_handles_below_counter(db: Db, k: Seq<u8>)
    requires
        db.wf(),
        db@.contains_key(k),
    ensures
        db@[k].expiration_handle matches Some(h) ==> h < db.next_handle,
{
    lemma_assoc_contains(db.entries@, k);
    let i = choose|i: int| 0 <= i < db.entries@.len() && (#[trigger] db.entries@[i].0@) == k;
    lemma_assoc_index(db.entries@, i);
}


} // verus!
