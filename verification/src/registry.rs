//! The guardian registry: storage model, one-time initialization, queries.
//!
//! The registry owns a lazily materialized name-to-slot table (a slot is
//! created on first use under a derived name and the same name always
//! resolves to the same slot afterwards) and the slots themselves. Each
//! account's record is spread over three slots — guardian list, threshold,
//! initialized flag — that a successful initialization writes as one unit;
//! every failed call leaves the registry exactly as it was.
//!
//! The two query families deliberately differ on an absent record:
//! `get_guardians` and `get_threshold` treat absence as the fault
//! `AccountNotFound`, while `is_guardian` and `has_guardians` treat it as a
//! valid negative answer fit for pre-flight checks.

use vstd::prelude::*;

use crate::errors::GuardianError;
use crate::keys::{
    guardians_key, guardians_name, initialized_key, initialized_name, lemma_names_injective,
    threshold_key, threshold_name,
};
use crate::types::{bytes_eq, AccountId, PublicKey};

verus! {

/// Fewest guardians a record may hold.
pub const MIN_GUARDIANS: usize = 2;

/// One value held by a storage slot. A freshly allocated slot holds `Empty`
/// until its first write; a typed read treats `Empty`, or a value of another
/// type, as absent.
pub enum StoredValue {
    Guardians(Vec<PublicKey>),
    Threshold(u32),
    Flag(bool),
    Empty,
}

/// A binding from a derived storage name to the slot it resolves to.
struct NamedKey {
    name: Vec<u8>,
    slot: usize,
}

/// The slot a name resolves to, scanning the bindings in registration order.
spec fn assoc_slot(keys: Seq<NamedKey>, name: Seq<u8>) -> Option<usize>
    decreases keys.len(),
{
    if keys.len() == 0 {
        None
    } else if keys.first().name@ == name {
        Some(keys.first().slot)
    } else {
        assoc_slot(keys.drop_first(), name)
    }
}

proof fn lemma_assoc_none(keys: Seq<NamedKey>, name: Seq<u8>)
    requires
        assoc_slot(keys, name) is None,
    ensures
        forall|i: int| 0 <= i < keys.len() ==> (#[trigger] keys[i]).name@ != name,
    decreases keys.len(),
{
    if keys.len() > 0 {
        lemma_assoc_none(keys.drop_first(), name);
        assert forall|i: int| 0 <= i < keys.len() implies (#[trigger] keys[i]).name@ != name by {
            if i > 0 {
                assert(keys.drop_first()[i - 1] == keys[i]);
            }
        }
    }
}

proof fn lemma_assoc_some_index(keys: Seq<NamedKey>, name: Seq<u8>, s: usize)
    requires
        assoc_slot(keys, name) == Some(s),
    ensures
        exists|i: int|
            0 <= i < keys.len() && (#[trigger] keys[i]).name@ == name && keys[i].slot == s,
    decreases keys.len(),
{
    if keys.len() == 0 {
    } else if keys.first().name@ == name {
        assert(keys[0].name@ == name && keys[0].slot == s);
    } else {
        lemma_assoc_some_index(keys.drop_first(), name, s);
        let i0 = choose|i: int|
            0 <= i < keys.drop_first().len() && (#[trigger] keys.drop_first()[i]).name@ == name
                && keys.drop_first()[i].slot == s;
        assert(keys.drop_first()[i0] == keys[i0 + 1]);
        assert(keys[i0 + 1].name@ == name && keys[i0 + 1].slot == s);
    }
}

proof fn lemma_assoc_push(keys: Seq<NamedKey>, nk: NamedKey, name: Seq<u8>)
    ensures
        assoc_slot(keys.push(nk), name) == (if assoc_slot(keys, name) is Some {
            assoc_slot(keys, name)
        } else if nk.name@ == name {
            Some(nk.slot)
        } else {
            None
        }),
    decreases keys.len(),
{
    let p = keys.push(nk);
    if keys.len() == 0 {
        assert(p.first() == nk);
        assert(assoc_slot(keys, name) is None);
        if nk.name@ == name {
            assert(assoc_slot(p, name) == Some(nk.slot));
        } else {
            assert(p.drop_first() =~= Seq::<NamedKey>::empty());
            assert(assoc_slot(p, name) == assoc_slot(p.drop_first(), name));
            assert(assoc_slot(p.drop_first(), name) is None);
        }
    } else {
        assert(p.first() == keys.first());
        assert forall|i: int|
            0 <= i < p.drop_first().len() implies p.drop_first()[i] == keys.drop_first().push(
            nk,
        )[i] by {
            assert(p.drop_first()[i] == p[i + 1]);
            if i + 1 < keys.len() {
                assert(p[i + 1] == keys[i + 1]);
                assert(keys.drop_first().push(nk)[i] == keys.drop_first()[i]);
                assert(keys.drop_first()[i] == keys[i + 1]);
            } else {
                assert(p[i + 1] == nk);
                assert(keys.drop_first().push(nk)[i] == nk);
            }
        }
        assert(p.drop_first() =~= keys.drop_first().push(nk));
        lemma_assoc_push(keys.drop_first(), nk, name);
        if keys.first().name@ == name {
            assert(assoc_slot(p, name) == Some(keys.first().slot));
            assert(assoc_slot(keys, name) == Some(keys.first().slot));
        } else {
            assert(assoc_slot(p, name) == assoc_slot(p.drop_first(), name));
            assert(assoc_slot(keys, name) == assoc_slot(keys.drop_first(), name));
        }
    }
}

/// The views of a sequence of public keys, element by element.
pub open spec fn keys_view(s: Seq<PublicKey>) -> Seq<Seq<u8>> {
    s.map_values(|k: PublicKey| k@)
}

/// Whether some key occurs twice in the list.
pub open spec fn has_duplicate(s: Seq<Seq<u8>>) -> bool {
    exists|i: int, j: int| 0 <= i < j < s.len() && s[i] == s[j]
}

/// The shape checks a supplied guardian setup must pass: enough guardians,
/// a threshold between one and the guardian count, and no duplicate key.
pub open spec fn valid_setup(guardians: Seq<Seq<u8>>, threshold: u32) -> bool {
    &&& guardians.len() >= MIN_GUARDIANS
    &&& 1 <= threshold
    &&& threshold <= guardians.len()
    &&& !has_duplicate(guardians)
}

proof fn lemma_assoc_distinct_slots(
    r: GuardianRegistry,
    n1: Seq<u8>,
    n2: Seq<u8>,
    s1: usize,
    s2: usize,
)
    requires
        r.wf(),
        n1 != n2,
        assoc_slot(r.named_keys@, n1) == Some(s1),
        assoc_slot(r.named_keys@, n2) == Some(s2),
    ensures
        s1 != s2,
{
    lemma_assoc_some_index(r.named_keys@, n1, s1);
    lemma_assoc_some_index(r.named_keys@, n2, s2);
    let i1 = choose|i: int|
        0 <= i < r.named_keys@.len() && (#[trigger] r.named_keys@[i]).name@ == n1
            && r.named_keys@[i].slot == s1;
    let i2 = choose|i: int|
        0 <= i < r.named_keys@.len() && (#[trigger] r.named_keys@[i]).name@ == n2
            && r.named_keys@[i].slot == s2;
    assert(i1 != i2);
}

/// Both registries agree on everything observable about this account.
pub open spec fn record_unchanged(
    pre: GuardianRegistry,
    post: GuardianRegistry,
    account: Seq<u8>,
) -> bool {
    &&& post.guardians_of(account) == pre.guardians_of(account)
    &&& post.threshold_of(account) == pre.threshold_of(account)
    &&& post.initialized_of(account) == pre.initialized_of(account)
}

/// What a successful initialization commits: the account's record holds
/// exactly the supplied guardians, in order, and the supplied threshold, the
/// account is marked initialized, and no other account's record changes.
pub open spec fn init_applied(
    pre: GuardianRegistry,
    post: GuardianRegistry,
    account: Seq<u8>,
    guardians: Seq<Seq<u8>>,
    threshold: u32,
) -> bool {
    &&& post.guardians_of(account) == Some(guardians)
    &&& post.threshold_of(account) == Some(threshold)
    &&& post.initialized_of(account)
    &&& forall|b: Seq<u8>| b != account ==> #[trigger] record_unchanged(pre, post, b)
}

pub struct GuardianRegistry {
    named_keys: Vec<NamedKey>,
    slots: Vec<StoredValue>,
}

impl GuardianRegistry {
    /// The registry's internal invariant: registered names are distinct, each
    /// name owns its own slot, and every registered slot exists.
    pub closed spec fn wf(self) -> bool {
        &&& forall|i: int, j: int|
            0 <= i < j < self.named_keys@.len() ==> (#[trigger] self.named_keys@[i]).name@ != (
            #[trigger] self.named_keys@[j]).name@
        &&& forall|i: int, j: int|
            0 <= i < j < self.named_keys@.len() ==> (#[trigger] self.named_keys@[i]).slot != (
            #[trigger] self.named_keys@[j]).slot
        &&& forall|i: int|
            0 <= i < self.named_keys@.len() ==> (#[trigger] self.named_keys@[i]).slot
                < self.slots@.len()
    }

    /// The value the store holds under a name, if the name is registered.
    pub closed spec fn value_at(self, name: Seq<u8>) -> Option<StoredValue> {
        match assoc_slot(self.named_keys@, name) {
            Some(s) => if s < self.slots@.len() {
                Some(self.slots@[s as int])
            } else {
                None
            },
            None => None,
        }
    }

    /// The guardian list committed for an account, as key views, if any.
    pub closed spec fn guardians_of(self, account: Seq<u8>) -> Option<Seq<Seq<u8>>> {
        match self.value_at(guardians_name(account)) {
            Some(StoredValue::Guardians(v)) => Some(keys_view(v@)),
            _ => None,
        }
    }

    /// The threshold committed for an account, if any.
    pub closed spec fn threshold_of(self, account: Seq<u8>) -> Option<u32> {
        match self.value_at(threshold_name(account)) {
            Some(StoredValue::Threshold(t)) => Some(t),
            _ => None,
        }
    }

    /// Whether an account's record has been committed. Absence reads as false.
    pub closed spec fn initialized_of(self, account: Seq<u8>) -> bool {
        match self.value_at(initialized_name(account)) {
            Some(StoredValue::Flag(b)) => b,
            _ => false,
        }
    }

    /// Whether an initialization call with these arguments would commit:
    /// the setup passes every shape check and the account is still free.
    pub open spec fn init_accepts(
        self,
        account: Seq<u8>,
        guardians: Seq<Seq<u8>>,
        threshold: u32,
    ) -> bool {
        valid_setup(guardians, threshold) && !self.initialized_of(account)
    }

    /// An empty registry: no account has any record.
    pub fn new() -> (r: GuardianRegistry)
        ensures
            r.wf(),
            forall|a: Seq<u8>| (#[trigger] r.guardians_of(a)) is None,
            forall|a: Seq<u8>| (#[trigger] r.threshold_of(a)) is None,
            forall|a: Seq<u8>| !(#[trigger] r.initialized_of(a)),
    {
        let r = GuardianRegistry { named_keys: Vec::new(), slots: Vec::new() };
        proof {
            assert(r.named_keys@.len() == 0);
            assert forall|a: Seq<u8>| (#[trigger] r.guardians_of(a)) is None by {
                assert(assoc_slot(r.named_keys@, guardians_name(a)) is None);
            }
            assert forall|a: Seq<u8>| (#[trigger] r.threshold_of(a)) is None by {
                assert(assoc_slot(r.named_keys@, threshold_name(a)) is None);
            }
            assert forall|a: Seq<u8>| !(#[trigger] r.initialized_of(a)) by {
                assert(assoc_slot(r.named_keys@, initialized_name(a)) is None);
            }
        }
        r
    }

    /// The slot registered under a name, if there is one.
    fn lookup(&self, name: &Vec<u8>) -> (r: Option<usize>)
        ensures
            r == assoc_slot(self.named_keys@, name@),
    {
        let n = self.named_keys.len();
        let mut i: usize = 0;
        proof {
            assert(self.named_keys@.skip(0) =~= self.named_keys@);
        }
        while i < n
            invariant
                i <= n,
                n == self.named_keys@.len(),
                assoc_slot(self.named_keys@, name@) == assoc_slot(
                    self.named_keys@.skip(i as int),
                    name@,
                ),
            decreases n - i,
        {
            let hit = bytes_eq(&self.named_keys[i].name, name);
            proof {
                let sk = self.named_keys@.skip(i as int);
                assert(sk.first() == self.named_keys@[i as int]);
                if !hit {
                    assert(sk.drop_first() =~= self.named_keys@.skip(i as int + 1));
                }
            }
            if hit {
                return Some(self.named_keys[i].slot);
            }
            i += 1;
        }
        proof {
            assert(self.named_keys@.skip(n as int) =~= Seq::<NamedKey>::empty());
        }
        None
    }

    /// Reads the value the store holds under a name, if the name is
    /// registered; the underlying read of an unregistered name is absent.
    fn read_from_storage(&self, name: &Vec<u8>) -> (r: Option<&StoredValue>)
        requires
            self.wf(),
        ensures
            match self.value_at(name@) {
                Some(v) => r matches Some(rv) && *rv == v,
                None => r is None,
            },
    {
        match self.lookup(name) {
            Some(s) => {
                proof {
                    lemma_assoc_some_index(self.named_keys@, name@, s);
                }
                Some(&self.slots[s])
            },
            None => None,
        }
    }

    /// Resolves a name to its slot, allocating a fresh empty slot and
    /// registering the binding if the name is new. Once created, the same
    /// name always yields the same slot.
    fn get_or_create_uref(&mut self, name: Vec<u8>) -> (s: usize)
        requires
            old(self).wf(),
        ensures
            final(self).wf(),
            s < final(self).slots@.len(),
            assoc_slot(final(self).named_keys@, name@) == Some(s),
            forall|n: Seq<u8>|
                n != name@ ==> #[trigger] assoc_slot(final(self).named_keys@, n) == assoc_slot(
                    old(self).named_keys@,
                    n,
                ),
            old(self).slots@.len() <= final(self).slots@.len(),
            forall|j: int|
                0 <= j < old(self).slots@.len() ==> final(self).slots@[j] == old(self).slots@[j],
            match assoc_slot(old(self).named_keys@, name@) {
                Some(s0) => s == s0 && *final(self) == *old(self),
                None => s == old(self).slots@.len() && final(self).slots@.len() == old(
                    self,
                ).slots@.len() + 1,
            },
    {
        let found = self.lookup(&name);
        match found {
            Some(s) => {
                proof {
                    lemma_assoc_some_index(self.named_keys@, name@, s);
                }
                s
            },
            None => {
                let s = self.slots.len();
                let ghost keys0 = self.named_keys@;
                let ghost slots0 = self.slots@;
                self.slots.push(StoredValue::Empty);
                let nk = NamedKey { name, slot: s };
                let ghost nkg = nk;
                self.named_keys.push(nk);
                proof {
                    assert(self.named_keys@ == keys0.push(nkg));
                    lemma_assoc_none(keys0, nkg.name@);
                    assert forall|i: int, j: int|
                        0 <= i < j < self.named_keys@.len() implies (#[trigger] self.named_keys@[i]).name@
                        != (#[trigger] self.named_keys@[j]).name@ by {
                        if j < keys0.len() {
                        } else {
                            assert(self.named_keys@[j] == nkg);
                            assert(keys0[i].name@ != nkg.name@);
                        }
                    }
                    assert forall|i: int, j: int|
                        0 <= i < j < self.named_keys@.len() implies (#[trigger] self.named_keys@[i]).slot
                        != (#[trigger] self.named_keys@[j]).slot by {
                        if j < keys0.len() {
                        } else {
                            assert(self.named_keys@[j] == nkg);
                            assert(keys0[i].slot < slots0.len());
                        }
                    }
                    assert forall|i: int|
                        0 <= i < self.named_keys@.len() implies (#[trigger] self.named_keys@[i]).slot
                        < self.slots@.len() by {
                        if i < keys0.len() {
                            assert(keys0[i].slot < slots0.len());
                        } else {
                            assert(self.named_keys@[i] == nkg);
                        }
                    }
                    lemma_assoc_push(keys0, nkg, nkg.name@);
                    assert forall|n2: Seq<u8>|
                        n2 != nkg.name@ implies #[trigger] assoc_slot(self.named_keys@, n2)
                        == assoc_slot(keys0, n2) by {
                        lemma_assoc_push(keys0, nkg, n2);
                    }
                }
                s
            },
        }
    }

    /// Copies a guardian list value for value.
    fn clone_keys(list: &Vec<PublicKey>) -> (r: Vec<PublicKey>)
        ensures
            keys_view(r@) == keys_view(list@),
    {
        let mut out: Vec<PublicKey> = Vec::new();
        let mut i: usize = 0;
        while i < list.len()
            invariant
                i <= list@.len(),
                out@.len() == i,
                forall|j: int| 0 <= j < i ==> (#[trigger] out@[j])@ == list@[j]@,
            decreases list@.len() - i,
        {
            let k = &list[i];
            out.push(k.clone());
            i += 1;
        }
        proof {
            assert(keys_view(out@) =~= keys_view(list@));
        }
        out
    }

    /// Linear membership scan over a guardian list.
    fn contains_key(list: &Vec<PublicKey>, key: &PublicKey) -> (r: bool)
        ensures
            r == keys_view(list@).contains(key@),
    {
        let mut i: usize = 0;
        while i < list.len()
            invariant
                i <= list@.len(),
                forall|j: int| 0 <= j < i ==> (#[trigger] list@[j])@ != key@,
            decreases list@.len() - i,
        {
            if list[i] == *key {
                proof {
                    assert(keys_view(list@)[i as int] == key@);
                }
                return true;
            }
            i += 1;
        }
        proof {
            if keys_view(list@).contains(key@) {
                let j = choose|j: int|
                    0 <= j < keys_view(list@).len() && keys_view(list@)[j] == key@;
                assert(list@[j]@ == key@);
            }
        }
        false
    }

    /// Entry point: the guardian list committed for an account, in the order
    /// it was supplied. Absence of a record is the fault `AccountNotFound`.
    pub fn get_guardians(&self, account: &AccountId) -> (r: Result<Vec<PublicKey>, GuardianError>)
        requires
            self.wf(),
        ensures
            match self.guardians_of(account@) {
                Some(g) => r matches Ok(v) && keys_view(v@) == g,
                None => r matches Err(GuardianError::AccountNotFound),
            },
    {
        let name = guardians_key(account);
        match self.read_from_storage(&name) {
            Some(v) => match v {
                StoredValue::Guardians(list) => Ok(Self::clone_keys(list)),
                _ => Err(GuardianError::AccountNotFound),
            },
            None => Err(GuardianError::AccountNotFound),
        }
    }

    /// Entry point: the recovery threshold committed for an account.
    /// Absence of a record is the fault `AccountNotFound`.
    pub fn get_threshold(&self, account: &AccountId) -> (r: Result<u32, GuardianError>)
        requires
            self.wf(),
        ensures
            match self.threshold_of(account@) {
                Some(t) => r matches Ok(rt) && rt == t,
                None => r matches Err(GuardianError::AccountNotFound),
            },
    {
        let name = threshold_key(account);
        match self.read_from_storage(&name) {
            Some(v) => match v {
                StoredValue::Threshold(t) => Ok(*t),
                _ => Err(GuardianError::AccountNotFound),
            },
            None => Err(GuardianError::AccountNotFound),
        }
    }

    /// Entry point: whether this key is one of the account's guardians.
    /// An account without a record simply has no guardians: never a fault.
    pub fn is_guardian(&self, account: &AccountId, key: &PublicKey) -> (r: bool)
        requires
            self.wf(),
        ensures
            r == match self.guardians_of(account@) {
                Some(g) => g.contains(key@),
                None => false,
            },
    {
        let name = guardians_key(account);
        match self.read_from_storage(&name) {
            Some(v) => match v {
                StoredValue::Guardians(list) => Self::contains_key(list, key),
                _ => false,
            },
            None => false,
        }
    }

    /// Entry point: one-time, validated creation of an account's guardian
    /// record. The checks run in a fixed order — guardian-count floor,
    /// threshold bounds, duplicate scan, already-initialized — and the first
    /// failing one decides the fault. On success the three fields are
    /// committed as one unit; on any fault the registry is left untouched.
    pub fn initialize_guardians(
        &mut self,
        account: &AccountId,
        guardians: Vec<PublicKey>,
        threshold: u32,
    ) -> (r: Result<(), GuardianError>)
        requires
            old(self).wf(),
        ensures
            final(self).wf(),
            keys_view(guardians@).len() < MIN_GUARDIANS ==> (r matches Err(
                GuardianError::InvalidGuardianSetup,
            )) && *final(self) == *old(self),
            keys_view(guardians@).len() >= MIN_GUARDIANS && !(1 <= threshold && threshold
                <= keys_view(guardians@).len()) ==> (r matches Err(
                GuardianError::InvalidThreshold,
            )) && *final(self) == *old(self),
            keys_view(guardians@).len() >= MIN_GUARDIANS && 1 <= threshold && threshold
                <= keys_view(guardians@).len() && has_duplicate(keys_view(guardians@)) ==> (
            r matches Err(GuardianError::InvalidGuardianSetup)) && *final(self) == *old(self),
            valid_setup(keys_view(guardians@), threshold) && old(self).initialized_of(account@)
                ==> (r matches Err(GuardianError::AlreadyInitialized)) && *final(self) == *old(
                self,
            ),
            old(self).init_accepts(account@, keys_view(guardians@), threshold) ==> (r matches Ok(
                (),
            )) && init_applied(
                *old(self),
                *final(self),
                account@,
                keys_view(guardians@),
                threshold,
            ),
    {
        let n = guardians.len();
        proof {
            assert(keys_view(guardians@).len() == n);
        }
        if n < MIN_GUARDIANS {
            return Err(GuardianError::InvalidGuardianSetup);
        }
        if threshold == 0 || (threshold as usize) > n {
            return Err(GuardianError::InvalidThreshold);
        }
        // reject any duplicate, scanning left to right
        let mut i: usize = 0;
        while i < n
            invariant
                i <= n,
                n == guardians@.len(),
                old(self).wf(),
                *self == *old(self),
                MIN_GUARDIANS <= n,
                1 <= threshold,
                threshold as int <= n,
                forall|p2: int, q2: int|
                    0 <= p2 < q2 < i ==> (#[trigger] guardians@[p2])@ != (
                    #[trigger] guardians@[q2])@,
            decreases n - i,
        {
            let mut j: usize = 0;
            while j < i
                invariant
                    j <= i,
                    i < n,
                    n == guardians@.len(),
                    old(self).wf(),
                    *self == *old(self),
                    MIN_GUARDIANS <= n,
                    1 <= threshold,
                    threshold as int <= n,
                    forall|q2: int|
                        0 <= q2 < j ==> (#[trigger] guardians@[q2])@ != guardians@[i as int]@,
                decreases i - j,
            {
                if guardians[j] == guardians[i] {
                    proof {
                        assert(keys_view(guardians@)[j as int] == keys_view(guardians@)[i as int]);
                        assert(has_duplicate(keys_view(guardians@)));
                    }
                    return Err(GuardianError::InvalidGuardianSetup);
                }
                j += 1;
            }
            i += 1;
        }
        proof {
            assert(!has_duplicate(keys_view(guardians@))) by {
                if has_duplicate(keys_view(guardians@)) {
                    let (p2, q2) = choose|p2: int, q2: int|
                        0 <= p2 < q2 < keys_view(guardians@).len() && keys_view(guardians@)[p2]
                            == keys_view(guardians@)[q2];
                    assert(guardians@[p2]@ == guardians@[q2]@);
                }
            }
        }
        // refuse a second initialization for this account
        let init_name = initialized_key(account);
        let already = match self.read_from_storage(&init_name) {
            Some(v) => match v {
                StoredValue::Flag(b) => *b,
                _ => false,
            },
            None => false,
        };
        proof {
            assert(already == old(self).initialized_of(account@));
        }
        if already {
            return Err(GuardianError::AlreadyInitialized);
        }
        // commit the record: guardian list, threshold and flag as one unit
        let gname = guardians_key(account);
        let tname = threshold_key(account);
        let ghost gname_v = gname@;
        let ghost tname_v = tname@;
        let ghost iname_v = init_name@;
        let ghost r0 = *self;
        proof {
            lemma_names_injective(account@, account@);
        }
        let gslot = self.get_or_create_uref(gname);
        let ghost r1 = *self;
        let tslot = self.get_or_create_uref(tname);
        let ghost r2 = *self;
        let fslot = self.get_or_create_uref(init_name);
        let ghost r3 = *self;
        proof {
            assert(assoc_slot(r2.named_keys@, gname_v) == assoc_slot(r1.named_keys@, gname_v));
            assert(assoc_slot(r3.named_keys@, gname_v) == assoc_slot(r2.named_keys@, gname_v));
            assert(assoc_slot(r3.named_keys@, tname_v) == assoc_slot(r2.named_keys@, tname_v));
            assert(assoc_slot(r3.named_keys@, gname_v) == Some(gslot));
            assert(assoc_slot(r3.named_keys@, tname_v) == Some(tslot));
            assert(assoc_slot(r3.named_keys@, iname_v) == Some(fslot));
            lemma_assoc_distinct_slots(r3, gname_v, tname_v, gslot, tslot);
            lemma_assoc_distinct_slots(r3, gname_v, iname_v, gslot, fslot);
            lemma_assoc_distinct_slots(r3, tname_v, iname_v, tslot, fslot);
            assert(gslot < r3.slots@.len());
            assert(tslot < r3.slots@.len());
            assert(fslot < r3.slots@.len());
        }
        let ghost gv = keys_view(guardians@);
        self.slots[gslot] = StoredValue::Guardians(guardians);
        self.slots[tslot] = StoredValue::Threshold(threshold);
        self.slots[fslot] = StoredValue::Flag(true);
        proof {
            let post = *self;
            assert(post.named_keys@ == r3.named_keys@);
            assert(post.slots@.len() == r3.slots@.len());
            assert(post.wf());
            // the account's own record now reads back as committed
            assert(post.slots@[gslot as int] matches StoredValue::Guardians(g) && keys_view(g@)
                == gv);
            assert(post.slots@[tslot as int] == StoredValue::Threshold(threshold));
            assert(post.slots@[fslot as int] == StoredValue::Flag(true));
            assert(post.guardians_of(account@) == Some(gv));
            assert(post.threshold_of(account@) == Some(threshold));
            assert(post.initialized_of(account@));
            // every other name still resolves to its old slot and old value
            assert forall|n2: Seq<u8>|
                n2 != gname_v && n2 != tname_v && n2 != iname_v implies post.value_at(n2)
                == r0.value_at(n2) by {
                assert(assoc_slot(r1.named_keys@, n2) == assoc_slot(r0.named_keys@, n2));
                assert(assoc_slot(r2.named_keys@, n2) == assoc_slot(r1.named_keys@, n2));
                assert(assoc_slot(r3.named_keys@, n2) == assoc_slot(r2.named_keys@, n2));
                match assoc_slot(r0.named_keys@, n2) {
                    Some(sb) => {
                        lemma_assoc_some_index(r0.named_keys@, n2, sb);
                        assert(sb < r0.slots@.len());
                        assert(r3.slots@[sb as int] == r0.slots@[sb as int]);
                        lemma_assoc_distinct_slots(r3, n2, gname_v, sb, gslot);
                        lemma_assoc_distinct_slots(r3, n2, tname_v, sb, tslot);
                        lemma_assoc_distinct_slots(r3, n2, iname_v, sb, fslot);
                        assert(post.slots@[sb as int] == r0.slots@[sb as int]);
                    },
                    None => {},
                }
            }
            // hence no other account's record changes at all
            assert forall|b: Seq<u8>| b != account@ implies #[trigger] record_unchanged(
                r0,
                post,
                b,
            ) by {
                lemma_names_injective(b, account@);
                lemma_names_injective(account@, b);
                assert(post.value_at(guardians_name(b)) == r0.value_at(guardians_name(b)));
                assert(post.value_at(threshold_name(b)) == r0.value_at(threshold_name(b)));
                assert(post.value_at(initialized_name(b)) == r0.value_at(initialized_name(b)));
            }
            assert(init_applied(r0, post, account@, gv, threshold));
        }
        Ok(())
    }

    /// Entry point: whether the account has a committed guardian record.
    /// An absent flag reads as false: never a fault.
    pub fn has_guardians(&self, account: &AccountId) -> (r: bool)
        requires
            self.wf(),
        ensures
            r == self.initialized_of(account@),
    {
        let name = initialized_key(account);
        match self.read_from_storage(&name) {
            Some(v) => match v {
                StoredValue::Flag(b) => *b,
                _ => false,
            },
            None => false,
        }
    }
}

/// Deployment entry point. Reserved for future registry-level setup;
/// deliberately a no-op today.
pub fn call() {
}

/// Law: idempotent lockout. Once an initialization has committed a record
/// for an account, the account stays marked initialized, so no later
/// initialization attempt for it is accepted — by the contract of
/// `initialize_guardians`, a later call whose arguments pass the shape
/// checks returns `AlreadyInitialized`, and every later call leaves the
/// registry unchanged — and the committed guardians and threshold remain
/// exactly the ones supplied first.
pub proof fn lemma_idempotent_lockout(
    pre: GuardianRegistry,
    post: GuardianRegistry,
    account: Seq<u8>,
    guardians: Seq<Seq<u8>>,
    threshold: u32,
    later_guardians: Seq<Seq<u8>>,
    later_threshold: u32,
)
    requires
        init_applied(pre, post, account, guardians, threshold),
    ensures
        !post.init_accepts(account, later_guardians, later_threshold),
        post.guardians_of(account) == Some(guardians),
        post.threshold_of(account) == Some(threshold),
{
}

/// Law: cross-account isolation. An initialization committed for one account
/// leaves every other account's record — guardian list, threshold and
/// initialized flag — exactly as it was; and each query's contract depends
/// only on the queried account's own record.
pub proof fn lemma_cross_account_isolation(
    pre: GuardianRegistry,
    post: GuardianRegistry,
    account: Seq<u8>,
    guardians: Seq<Seq<u8>>,
    threshold: u32,
    other: Seq<u8>,
)
    requires
        init_applied(pre, post, account, guardians, threshold),
        other != account,
    ensures
        post.guardians_of(other) == pre.guardians_of(other),
        post.threshold_of(other) == pre.threshold_of(other),
        post.initialized_of(other) == pre.initialized_of(other),
{
    assert(record_unchanged(pre, post, other));
}

} // verus!
