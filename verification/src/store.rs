//! The record store and its operations layer: create, look up, count, edit,
//! end, and vote, with per-record ownership and one-vote-per-caller rules.
//!
//! Each mutating operation is specified by a pure transition function over
//! the store's mathematical model (`Map<u64, RecordView>`); the executable
//! methods are proved to follow those transitions exactly, and the laws at
//! the bottom of the module are proved of the transitions themselves.

use vstd::prelude::*;
use crate::codec::{
    decode_product, encodable, encode_product, lemma_encode_decode, lemma_encode_len,
    lemma_encode_voted_push, spec_decode, spec_encode, MAX_VALUE_SIZE,
};
use crate::record::{CallerId, Choice, Product, ProductError, RecordView};
use crate::storage::{store_counter, store_entries, StableStore};

verus! {

/// A freshly created record: zero counters, no voters, the given owner.
pub open spec fn new_record(id: u64, description: Seq<u8>, owner: Seq<u8>, is_active: bool) -> RecordView {
    RecordView {
        id,
        description,
        approve: 0,
        reject: 0,
        pass: 0,
        is_active,
        voted: Seq::empty(),
        owner,
    }
}

/// The internal consistency of a stored record: the counters account for
/// exactly the voters, no caller appears twice among them, every part fits
/// its length prefix, and the serialized form fits the size bound.
pub open spec fn record_inv(v: RecordView) -> bool {
    &&& v.approve + v.reject + v.pass == v.voted.len()
    &&& v.voted.no_duplicates()
    &&& encodable(v)
    &&& spec_encode(v).len() <= MAX_VALUE_SIZE
}

/// A well-formed map entry: the bytes parse to a consistent record stored
/// under its own identifier, and are exactly that record's serialization.
pub open spec fn entry_wf(id: u64, bytes: Seq<u8>) -> bool {
    &&& spec_decode(bytes) is Some
    &&& spec_decode(bytes).unwrap().id == id
    &&& record_inv(spec_decode(bytes).unwrap())
    &&& spec_encode(spec_decode(bytes).unwrap()) == bytes
}

/// What `edit_product` does to the model: replaces description and activity
/// flag, preserving identifier, owner, counters and voters; owner-only.
pub open spec fn spec_edit(
    m: Map<u64, RecordView>,
    caller: Seq<u8>,
    id: u64,
    description: Seq<u8>,
    is_active: bool,
) -> (Map<u64, RecordView>, Result<(), ProductError>) {
    if !m.dom().contains(id) {
        (m, Err(ProductError::NoSuchProduct))
    } else if m[id].owner != caller {
        (m, Err(ProductError::AccessRejected))
    } else {
        let nv = RecordView { description: description, is_active: is_active, ..m[id] };
        if spec_encode(nv).len() > MAX_VALUE_SIZE {
            (m, Err(ProductError::UpdateFailed))
        } else {
            (m.insert(id, nv), Ok(()))
        }
    }
}

/// What `end_product` does to the model: forces `is_active` to false,
/// preserving everything else; owner-only, idempotent.
pub open spec fn spec_end(m: Map<u64, RecordView>, caller: Seq<u8>, id: u64) -> (
    Map<u64, RecordView>,
    Result<(), ProductError>,
) {
    if !m.dom().contains(id) {
        (m, Err(ProductError::NoSuchProduct))
    } else if m[id].owner != caller {
        (m, Err(ProductError::AccessRejected))
    } else {
        let nv = RecordView { is_active: false, ..m[id] };
        if spec_encode(nv).len() > MAX_VALUE_SIZE {
            (m, Err(ProductError::UpdateFailed))
        } else {
            (m.insert(id, nv), Ok(()))
        }
    }
}

/// What `vote` does to the model: exactly one counter incremented and the
/// caller appended to the voters. The duplicate-vote check comes before the
/// activity check: a caller who already voted on a now-inactive record gets
/// `AlreadyAdded`, not `ProductIsNotActive`.
pub open spec fn spec_vote(m: Map<u64, RecordView>, caller: Seq<u8>, id: u64, choice: Choice) -> (
    Map<u64, RecordView>,
    Result<(), ProductError>,
) {
    if !m.dom().contains(id) {
        (m, Err(ProductError::NoSuchProduct))
    } else if m[id].voted.contains(caller) {
        (m, Err(ProductError::AlreadyAdded))
    } else if !m[id].is_active {
        (m, Err(ProductError::ProductIsNotActive))
    } else {
        let v = m[id];
        let nv = RecordView {
            approve: if choice == Choice::Approve { (v.approve + 1) as u32 } else { v.approve },
            reject: if choice == Choice::Reject { (v.reject + 1) as u32 } else { v.reject },
            pass: if choice == Choice::Pass { (v.pass + 1) as u32 } else { v.pass },
            voted: v.voted.push(caller),
            ..v
        };
        if spec_encode(nv).len() > MAX_VALUE_SIZE {
            (m, Err(ProductError::UpdateFailed))
        } else {
            (m.insert(id, nv), Ok(()))
        }
    }
}

/// What `create_product` does to the model: a fresh record under the
/// counter's value and the counter advanced, or — when the record would
/// break the size bound or the identifier space is exhausted — nothing.
/// The third component is the issued identifier, if any.
pub open spec fn spec_create(
    m: Map<u64, RecordView>,
    counter: u64,
    caller: Seq<u8>,
    description: Seq<u8>,
    is_active: bool,
) -> (Map<u64, RecordView>, u64, Option<u64>) {
    let nv = new_record(counter, description, caller, is_active);
    if counter == u64::MAX || spec_encode(nv).len() > MAX_VALUE_SIZE {
        (m, counter, None)
    } else {
        (m.insert(counter, nv), (counter + 1) as u64, Some(counter))
    }
}

/// Whether the caller appears among the voters.
fn voted_contains(voted: &Vec<CallerId>, caller: &CallerId) -> (r: bool)
    ensures
        r == voted@.map_values(|c: CallerId| c@).contains(caller@),
{
    let ghost vs = voted@.map_values(|c: CallerId| c@);
    let n = voted.len();
    let mut i: usize = 0;
    while i < n
        invariant
            0 <= i <= n,
            n == voted@.len(),
            vs == voted@.map_values(|c: CallerId| c@),
            forall|j: int| 0 <= j < i ==> vs[j] != caller@,
        decreases n - i,
    {
        if voted[i].is_same(caller) {
            proof {
                assert(vs[i as int] == caller@);
            }
            return true;
        }
        i += 1;
    }
    proof {
        assert(!vs.contains(caller@));
    }
    false
}

/// Whether the voter list is free of duplicate callers.
fn voted_no_dups(voted: &Vec<CallerId>) -> (r: bool)
    ensures
        r == voted@.map_values(|c: CallerId| c@).no_duplicates(),
{
    let ghost vs = voted@.map_values(|c: CallerId| c@);
    let n = voted.len();
    let mut i: usize = 0;
    while i < n
        invariant
            0 <= i <= n,
            n == voted@.len(),
            vs == voted@.map_values(|c: CallerId| c@),
            forall|x: int, y: int| 0 <= x < y < i ==> vs[x] != vs[y],
        decreases n - i,
    {
        let mut j: usize = 0;
        while j < i
            invariant
                0 <= j <= i < n,
                n == voted@.len(),
                vs == voted@.map_values(|c: CallerId| c@),
                forall|x: int, y: int| 0 <= x < y < i ==> vs[x] != vs[y],
                forall|x: int| 0 <= x < j ==> vs[x] != vs[i as int],
            decreases i - j,
        {
            if voted[j].is_same(&voted[i]) {
                proof {
                    assert(vs[j as int] == vs[i as int]);
                    assert(!vs.no_duplicates());
                }
                return false;
            }
            j += 1;
        }
        i += 1;
    }
    proof {
        assert forall|a: int, b: int|
            0 <= a < vs.len() && 0 <= b < vs.len() && a != b implies vs[a] != vs[b] by {
            if a < b {
            } else {
            }
        }
    }
    true
}

/// Byte-for-byte equality of two byte vectors.
fn bytes_eq(a: &Vec<u8>, b: &Vec<u8>) -> (r: bool)
    ensures
        r == (a@ == b@),
{
    if a.len() != b.len() {
        proof {
            assert(a@ != b@);
        }
        return false;
    }
    let n = a.len();
    let mut i: usize = 0;
    while i < n
        invariant
            0 <= i <= n,
            n == a@.len() == b@.len(),
            forall|j: int| 0 <= j < i ==> a@[j] == b@[j],
        decreases n - i,
    {
        if a[i] != b[i] {
            proof {
                assert(a@[i as int] != b@[i as int]);
            }
            return false;
        }
        i += 1;
    }
    proof {
        assert(a@ =~= b@);
    }
    true
}

/// Validates one persisted entry during recovery: accepts exactly the
/// entries that parse to a record carrying its own key as identifier,
/// satisfy the record invariant, lie below the counter, and serialize back
/// to exactly the stored bytes.
fn check_entry(backing: &StableStore, id: u64, counter: u64) -> (ok: bool)
    requires
        store_entries(*backing).dom().contains(id),
    ensures
        ok == (entry_wf(id, store_entries(*backing)[id]) && id < counter),
{
    let ghost stored: Seq<u8> = store_entries(*backing)[id];
    if id >= counter {
        return false;
    }
    let bytes = match backing.get(id) {
        Some(b) => b,
        None => {
            proof {
                assert(false);
            }
            return false;
        },
    };
    let p = match decode_product(&bytes) {
        Some(p) => p,
        None => {
            return false;
        },
    };
    proof {
        assert(spec_decode(stored).unwrap() == p@);
        lemma_encode_len(p@);
    }
    if bytes.len() > MAX_VALUE_SIZE {
        proof {
            assert(!entry_wf(id, stored)) by {
                if spec_encode(p@) == stored && record_inv(p@) {
                    assert(false);
                }
            }
        }
        return false;
    }
    if p.id != id {
        return false;
    }
    if p.description.len() > MAX_VALUE_SIZE {
        proof {
            assert(!entry_wf(id, stored)) by {
                if record_inv(p@) {
                    assert(false);
                }
            }
        }
        return false;
    }
    if p.owner.bytes.len() > MAX_VALUE_SIZE {
        proof {
            assert(!entry_wf(id, stored)) by {
                if record_inv(p@) {
                    assert(false);
                }
            }
        }
        return false;
    }
    if p.voted.len() > MAX_VALUE_SIZE {
        proof {
            assert(!entry_wf(id, stored)) by {
                if record_inv(p@) {
                    assert(false);
                }
            }
        }
        return false;
    }
    let n = p.voted.len();
    let mut i: usize = 0;
    while i < n
        invariant
            0 <= i <= n,
            n == p@.voted.len(),
            stored == store_entries(*backing)[id],
            spec_decode(stored) == Some(p@),
            forall|j: int| 0 <= j < n ==> p.voted@[j]@ == p@.voted[j],
            forall|j: int| 0 <= j < i ==> (#[trigger] p@.voted[j]).len() <= MAX_VALUE_SIZE,
        decreases n - i,
    {
        if p.voted[i].bytes.len() > MAX_VALUE_SIZE {
            proof {
                lemma_encode_len(p@);
                assert(p@.voted[i as int].len() > MAX_VALUE_SIZE);
                assert(!entry_wf(id, stored)) by {
                    if record_inv(p@) {
                        assert(false);
                    }
                }
            }
            return false;
        }
        i += 1;
    }
    if !voted_no_dups(&p.voted) {
        proof {
            assert(!record_inv(p@));
        }
        return false;
    }
    let sum: u64 = p.approve as u64 + p.reject as u64 + p.pass as u64;
    if sum != p.voted.len() as u64 {
        proof {
            assert(!record_inv(p@));
        }
        return false;
    }
    proof {
        assert(encodable(p@));
    }
    let out = encode_product(&p);
    if !bytes_eq(&out, &bytes) {
        proof {
            assert(spec_encode(p@) != stored);
        }
        return false;
    }
    proof {
        assert(spec_encode(p@) == stored);
        assert(record_inv(p@));
        assert(entry_wf(id, stored));
    }
    true
}

/// The persistent product store: the identifier allocator and the record
/// map, together with the operations layer.
pub struct ProductStore {
    backing: StableStore,
}

impl ProductStore {
    /// The raw map entries: identifier to stored bytes.
    pub closed spec fn entries(self) -> Map<u64, Seq<u8>> {
        store_entries(self.backing)
    }

    /// The next identifier the allocator will hand out.
    pub closed spec fn id_counter(self) -> u64 {
        store_counter(self.backing)
    }

    /// The store's model: every stored record, by identifier.
    pub closed spec fn products(self) -> Map<u64, RecordView> {
        Map::new(
            |id: u64| self.entries().dom().contains(id),
            |id: u64| spec_decode(self.entries()[id]).unwrap(),
        )
    }

    /// Well-formedness: finitely many records, every entry parses back to
    /// the record it serializes, and every stored identifier was issued,
    /// i.e. lies below the counter.
    pub closed spec fn wf(self) -> bool {
        &&& self.entries().dom().finite()
        &&& forall|id: u64|
            self.entries().dom().contains(id) ==> entry_wf(id, #[trigger] self.entries()[id])
        &&& forall|id: u64| #[trigger] self.entries().dom().contains(id) ==> id < self.id_counter()
    }

    /// Starts an empty store: no records, counter at zero. This lays the
    /// backing memory out afresh, overwriting anything persisted there; to
    /// recover persisted state instead, use `open`.
    pub fn new() -> (s: ProductStore)
        ensures
            s.wf(),
            s.products() =~= Map::<u64, RecordView>::empty(),
            s.id_counter() == 0,
    {
        let s = ProductStore { backing: StableStore::fresh() };
        proof {
            assert(s.products() =~= Map::<u64, RecordView>::empty());
        }
        s
    }

    /// Wraps a recovered backing store after validating every persisted
    /// record. The result holds exactly the recovered entries and counter,
    /// and exists if and only if every entry parses to a consistent record,
    /// stored under its own identifier below the recovered counter, that
    /// serializes back to the stored bytes.
    pub fn attach(backing: StableStore) -> (r: Option<ProductStore>)
        requires
            store_entries(backing).dom().finite(),
        ensures
            r matches Some(s) ==> s.wf() && s.entries() == store_entries(backing)
                && s.id_counter() == store_counter(backing),
            r is Some <==> (forall|id: u64|
                store_entries(backing).dom().contains(id) ==> entry_wf(
                    id,
                    #[trigger] store_entries(backing)[id],
                ) && id < store_counter(backing)),
    {
        let counter = backing.counter_get();
        let ids = backing.keys();
        let s = ProductStore { backing };
        let n = ids.len();
        let mut i: usize = 0;
        while i < n
            invariant
                0 <= i <= n,
                n == ids@.len(),
                counter == s.id_counter(),
                s.entries() == store_entries(backing),
                s.id_counter() == store_counter(backing),
                s.entries().dom().finite(),
                forall|j: int|
                    0 <= j < ids@.len() ==> s.entries().dom().contains(#[trigger] ids@[j]),
                forall|k: u64| s.entries().dom().contains(k) ==> ids@.contains(k),
                forall|j: int|
                    0 <= j < i ==> entry_wf(#[trigger] ids@[j], s.entries()[ids@[j]]) && ids@[j]
                        < counter,
            decreases n - i,
        {
            if !check_entry(&s.backing, ids[i], counter) {
                proof {
                    assert(store_entries(backing).dom().contains(ids@[i as int]));
                    assert(!(entry_wf(ids@[i as int], store_entries(backing)[ids@[i as int]])
                        && ids@[i as int] < store_counter(backing)));
                }
                return None;
            }
            i += 1;
        }
        proof {
            assert forall|k: u64| s.entries().dom().contains(k) implies entry_wf(
                k,
                s.entries()[k],
            ) && k < s.id_counter() by {
                assert(ids@.contains(k));
                let j = choose|j: int| 0 <= j < ids@.len() && ids@[j] == k;
                assert(entry_wf(ids@[j], s.entries()[ids@[j]]));
            }
        }
        Some(s)
    }

    /// Re-opens the store on whatever the backing memory holds, validating
    /// every persisted record as `attach` states. Returns `None` — recovery
    /// is refused, nothing is modified — if any entry fails; on fresh
    /// (zero-length) memory the result is an empty store with the counter
    /// at zero.
    pub fn open() -> (r: Option<ProductStore>)
        ensures
            r matches Some(s) ==> s.wf(),
    {
        ProductStore::attach(StableStore::reopen())
    }

    /// The identifier the next successful create will be assigned.
    pub fn next_id(&self) -> (r: u64)
        ensures
            r == self.id_counter(),
    {
        self.backing.counter_get()
    }

    /// Point lookup of a stored record.
    pub fn get_product(&self, id: u64) -> (r: Option<Product>)
        requires
            self.wf(),
        ensures
            r is Some <==> self.products().dom().contains(id),
            r matches Some(p) ==> p@ == self.products()[id] && p.id == id,
    {
        match self.backing.get(id) {
            None => None,
            Some(bytes) => {
                match decode_product(&bytes) {
                    Some(p) => {
                        proof {
                            assert(entry_wf(id, self.entries()[id]));
                            assert(self.products()[id] == spec_decode(bytes@).unwrap());
                        }
                        Some(p)
                    },
                    None => {
                        proof {
                            assert(entry_wf(id, self.entries()[id]));
                            assert(false);
                        }
                        None
                    },
                }
            },
        }
    }

    /// The number of stored records.
    pub fn get_product_count(&self) -> (r: u64)
        requires
            self.wf(),
        ensures
            r as nat == self.products().dom().len(),
    {
        let r = self.backing.len();
        proof {
            assert(self.products().dom() =~= self.entries().dom());
        }
        r
    }

    /// Creates a record owned by the caller: a fresh identifier, the given
    /// description and activity flag, zero counters, no voters. Fails (with
    /// the store untouched) exactly when the record would exceed the
    /// serialized size bound.
    pub fn create_product(&mut self, caller: &CallerId, description: Vec<u8>, is_active: bool) -> (r:
        Result<Product, ProductError>)
        requires
            old(self).wf(),
            old(self).id_counter() < u64::MAX,
        ensures
            final(self).wf(),
            ({
                let nv = new_record(old(self).id_counter(), description@, caller@, is_active);
                match r {
                    Ok(p) => {
                        &&& p@ == nv
                        &&& p.id == old(self).id_counter()
                        &&& !old(self).products().dom().contains(p.id)
                        &&& final(self).products() =~= old(self).products().insert(p.id, nv)
                        &&& final(self).products().dom().len() == old(self).products().dom().len()
                            + 1
                        &&& final(self).id_counter() == old(self).id_counter() + 1
                    },
                    Err(e) => {
                        &&& e == ProductError::UpdateFailed
                        &&& final(self).products() =~= old(self).products()
                        &&& final(self).id_counter() == old(self).id_counter()
                    },
                }
            }),
            r is Err <==> spec_encode(
                new_record(old(self).id_counter(), description@, caller@, is_active),
            ).len() > MAX_VALUE_SIZE,
            final(self).products() =~= spec_create(
                old(self).products(),
                old(self).id_counter(),
                caller@,
                description@,
                is_active,
            ).0,
            final(self).id_counter() == spec_create(
                old(self).products(),
                old(self).id_counter(),
                caller@,
                description@,
                is_active,
            ).1,
            r is Ok <==> spec_create(
                old(self).products(),
                old(self).id_counter(),
                caller@,
                description@,
                is_active,
            ).2 is Some,
    {
        let ghost nv = new_record(old(self).id_counter(), description@, caller@, is_active);
        let id = self.backing.counter_get();
        if description.len() > MAX_VALUE_SIZE {
            proof {
                lemma_encode_len(nv);
            }
            return Err(ProductError::UpdateFailed);
        }
        if caller.bytes.len() > MAX_VALUE_SIZE {
            proof {
                lemma_encode_len(nv);
            }
            return Err(ProductError::UpdateFailed);
        }
        let p = Product {
            id,
            description,
            approve: 0,
            reject: 0,
            pass: 0,
            is_active,
            voted: Vec::new(),
            owner: caller.duplicate(),
        };
        proof {
            assert(p@.voted =~= nv.voted);
            assert(p@ == nv);
        }
        let bytes = encode_product(&p);
        if bytes.len() > MAX_VALUE_SIZE {
            return Err(ProductError::UpdateFailed);
        }
        self.backing.counter_set(id + 1);
        self.backing.insert(id, bytes);
        proof {
            lemma_encode_decode(nv);
            assert(final(self).products() =~= old(self).products().insert(id, nv));
            assert(old(self).products().dom() =~= old(self).entries().dom());
            assert(final(self).products().dom() =~= old(self).entries().dom().insert(id));
            vstd::set::axiom_set_insert_len(old(self).entries().dom(), id);
            assert forall|k: u64| final(self).entries().dom().contains(k) implies entry_wf(
                k,
                final(self).entries()[k],
            ) by {
                if k != id {
                    assert(entry_wf(k, old(self).entries()[k]));
                }
            }
        }
        Ok(p)
    }

    /// Replaces the record's description and activity flag; everything else
    /// — identifier, owner, counters, voters — is preserved. Owner-only.
    ///
    /// Note that the flag is replaced outright: an owner can set `is_active`
    /// back to true on an ended record, bypassing the one-way transition
    /// that `end_product` enforces.
    pub fn edit_product(
        &mut self,
        caller: &CallerId,
        id: u64,
        description: Vec<u8>,
        is_active: bool,
    ) -> (r: Result<(), ProductError>)
        requires
            old(self).wf(),
        ensures
            final(self).wf(),
            final(self).id_counter() == old(self).id_counter(),
            final(self).products() =~= spec_edit(
                old(self).products(),
                caller@,
                id,
                description@,
                is_active,
            ).0,
            r == spec_edit(old(self).products(), caller@, id, description@, is_active).1,
    {
        let got = self.backing.get(id);
        if got.is_none() {
            return Err(ProductError::NoSuchProduct);
        }
        let bytes = got.unwrap();
        proof {
            assert(entry_wf(id, self.entries()[id]));
        }
        let p = match decode_product(&bytes) {
            Some(p) => p,
            None => {
                proof {
                    assert(false);
                }
                return Err(ProductError::UpdateFailed);
            },
        };
        if !caller.is_same(&p.owner) {
            return Err(ProductError::AccessRejected);
        }
        let ghost nv = RecordView {
            description: description@,
            is_active: is_active,
            ..old(self).products()[id]
        };
        if description.len() > MAX_VALUE_SIZE {
            proof {
                lemma_encode_len(nv);
            }
            return Err(ProductError::UpdateFailed);
        }
        let np = Product {
            id: p.id,
            description,
            approve: p.approve,
            reject: p.reject,
            pass: p.pass,
            is_active,
            voted: p.voted,
            owner: p.owner,
        };
        proof {
            assert(np@ == nv);
        }
        let out = encode_product(&np);
        if out.len() > MAX_VALUE_SIZE {
            return Err(ProductError::UpdateFailed);
        }
        self.backing.insert(id, out);
        proof {
            lemma_encode_decode(nv);
            assert(final(self).products() =~= old(self).products().insert(id, nv));
            assert forall|k: u64| final(self).entries().dom().contains(k) implies entry_wf(
                k,
                final(self).entries()[k],
            ) by {
                if k != id {
                    assert(entry_wf(k, old(self).entries()[k]));
                }
            }
        }
        Ok(())
    }

    /// Forces the record out of the active state; everything else is
    /// preserved. Owner-only; ending an already-ended record succeeds.
    pub fn end_product(&mut self, caller: &CallerId, id: u64) -> (r: Result<(), ProductError>)
        requires
            old(self).wf(),
        ensures
            final(self).wf(),
            final(self).id_counter() == old(self).id_counter(),
            final(self).products() =~= spec_end(old(self).products(), caller@, id).0,
            r == spec_end(old(self).products(), caller@, id).1,
    {
        let got = self.backing.get(id);
        if got.is_none() {
            return Err(ProductError::NoSuchProduct);
        }
        let bytes = got.unwrap();
        proof {
            assert(entry_wf(id, self.entries()[id]));
        }
        let p = match decode_product(&bytes) {
            Some(p) => p,
            None => {
                proof {
                    assert(false);
                }
                return Err(ProductError::UpdateFailed);
            },
        };
        if !caller.is_same(&p.owner) {
            return Err(ProductError::AccessRejected);
        }
        let ghost nv = RecordView { is_active: false, ..old(self).products()[id] };
        let np = Product {
            id: p.id,
            description: p.description,
            approve: p.approve,
            reject: p.reject,
            pass: p.pass,
            is_active: false,
            voted: p.voted,
            owner: p.owner,
        };
        proof {
            assert(np@ == nv);
        }
        let out = encode_product(&np);
        if out.len() > MAX_VALUE_SIZE {
            return Err(ProductError::UpdateFailed);
        }
        self.backing.insert(id, out);
        proof {
            lemma_encode_decode(nv);
            assert(final(self).products() =~= old(self).products().insert(id, nv));
            assert forall|k: u64| final(self).entries().dom().contains(k) implies entry_wf(
                k,
                final(self).entries()[k],
            ) by {
                if k != id {
                    assert(entry_wf(k, old(self).entries()[k]));
                }
            }
        }
        Ok(())
    }

    /// Casts the caller's vote: exactly one counter is incremented and the
    /// caller is recorded, once per caller per record, only while active.
    pub fn vote(&mut self, caller: &CallerId, id: u64, choice: Choice) -> (r: Result<
        (),
        ProductError,
    >)
        requires
            old(self).wf(),
        ensures
            final(self).wf(),
            final(self).id_counter() == old(self).id_counter(),
            final(self).products() =~= spec_vote(old(self).products(), caller@, id, choice).0,
            r == spec_vote(old(self).products(), caller@, id, choice).1,
    {
        let got = self.backing.get(id);
        if got.is_none() {
            return Err(ProductError::NoSuchProduct);
        }
        let bytes = got.unwrap();
        proof {
            assert(entry_wf(id, self.entries()[id]));
        }
        let mut p = match decode_product(&bytes) {
            Some(p) => p,
            None => {
                proof {
                    assert(false);
                }
                return Err(ProductError::UpdateFailed);
            },
        };
        if voted_contains(&p.voted, caller) {
            return Err(ProductError::AlreadyAdded);
        }
        if !p.is_active {
            return Err(ProductError::ProductIsNotActive);
        }
        let ghost v = old(self).products()[id];
        let ghost nv = RecordView {
            approve: if choice == Choice::Approve { (v.approve + 1) as u32 } else { v.approve },
            reject: if choice == Choice::Reject { (v.reject + 1) as u32 } else { v.reject },
            pass: if choice == Choice::Pass { (v.pass + 1) as u32 } else { v.pass },
            voted: v.voted.push(caller@),
            ..v
        };
        proof {
            lemma_encode_len(v);
            assert(v.approve + v.reject + v.pass == v.voted.len());
            assert(4 * v.voted.len() <= MAX_VALUE_SIZE);
        }
        if caller.bytes.len() > MAX_VALUE_SIZE {
            proof {
                lemma_encode_voted_push(v.voted, caller@);
                assert(spec_encode(nv).len() > MAX_VALUE_SIZE);
            }
            return Err(ProductError::UpdateFailed);
        }
        match choice {
            Choice::Approve => {
                p.approve = p.approve + 1;
            },
            Choice::Reject => {
                p.reject = p.reject + 1;
            },
            Choice::Pass => {
                p.pass = p.pass + 1;
            },
        }
        p.voted.push(caller.duplicate());
        proof {
            assert(p@.voted =~= nv.voted);
            assert(p@ == nv);
        }
        let out = encode_product(&p);
        if out.len() > MAX_VALUE_SIZE {
            return Err(ProductError::UpdateFailed);
        }
        self.backing.insert(id, out);
        proof {
            lemma_encode_decode(nv);
            assert(!v.voted.contains(caller@));
            assert(nv.voted.no_duplicates()) by {
                assert forall|x: int, y: int|
                    0 <= x < nv.voted.len() && 0 <= y < nv.voted.len() && x
                        != y implies nv.voted[x] != nv.voted[y] by {
                    if x == v.voted.len() {
                        assert(nv.voted[x] == caller@);
                        assert(nv.voted[y] == v.voted[y]);
                        assert(v.voted[y] != caller@);
                    } else if y == v.voted.len() {
                        assert(nv.voted[y] == caller@);
                        assert(nv.voted[x] == v.voted[x]);
                        assert(v.voted[x] != caller@);
                    } else {
                        assert(nv.voted[x] == v.voted[x]);
                        assert(nv.voted[y] == v.voted[y]);
                    }
                }
            }
            assert(final(self).products() =~= old(self).products().insert(id, nv));
            assert forall|k: u64| final(self).entries().dom().contains(k) implies entry_wf(
                k,
                final(self).entries()[k],
            ) by {
                if k != id {
                    assert(entry_wf(k, old(self).entries()[k]));
                }
            }
        }
        Ok(())
    }
}

/// Every stored record satisfies the record invariant: its counters sum to
/// exactly its voter count, no caller appears twice among its voters, and
/// its serialized form fits the size bound.
pub proof fn lemma_stored_records_consistent(s: ProductStore)
    requires
        s.wf(),
    ensures
        forall|id: u64|
            #[trigger] s.products().dom().contains(id) ==> record_inv(s.products()[id]),
{
    assert forall|id: u64| #[trigger] s.products().dom().contains(id) implies record_inv(
        s.products()[id],
    ) by {
        assert(entry_wf(id, s.entries()[id]));
    }
}

/// Every stored identifier lies strictly below the allocator's counter: a
/// newly issued identifier is never one already in use, so identifiers are
/// strictly increasing over any sequence of creates and never reused.
pub proof fn lemma_ids_below_counter(s: ProductStore)
    requires
        s.wf(),
    ensures
        forall|id: u64| #[trigger] s.products().dom().contains(id) ==> id < s.id_counter(),
{
}

/// A second vote by the same caller on the same record is refused with
/// `AlreadyAdded`, whatever either choice was, and changes nothing.
pub proof fn lemma_vote_twice(
    m: Map<u64, RecordView>,
    caller: Seq<u8>,
    id: u64,
    first: Choice,
    second: Choice,
)
    requires
        spec_vote(m, caller, id, first).1 is Ok,
    ensures
        ({
            let m2 = spec_vote(m, caller, id, first).0;
            spec_vote(m2, caller, id, second) == (m2, Err::<(), ProductError>(
                ProductError::AlreadyAdded,
            ))
        }),
{
    let m2 = spec_vote(m, caller, id, first).0;
    assert(m2[id].voted[m2[id].voted.len() - 1] == caller);
    assert(m2[id].voted.contains(caller));
}

/// Ending a record a second time also succeeds and leaves it inactive and
/// otherwise unchanged: `end_product` is idempotent.
pub proof fn lemma_end_idempotent(m: Map<u64, RecordView>, caller: Seq<u8>, id: u64)
    requires
        spec_end(m, caller, id).1 is Ok,
    ensures
        ({
            let m2 = spec_end(m, caller, id).0;
            &&& m2[id].is_active == false
            &&& spec_end(m2, caller, id) == (m2, Ok::<(), ProductError>(()))
        }),
{
    let m2 = spec_end(m, caller, id).0;
    let nv = RecordView { is_active: false, ..m[id] };
    assert(m2[id] == nv);
    assert(RecordView { is_active: false, ..m2[id] } == nv);
    assert(m2.insert(id, nv) =~= m2);
}

/// Ending a record that is not one's own is refused with `AccessRejected`
/// and changes nothing; after the owner ends it, a vote by any caller who
/// has not already voted is refused with `ProductIsNotActive`.
pub proof fn lemma_end_access_then_vote(
    m: Map<u64, RecordView>,
    stranger: Seq<u8>,
    id: u64,
    voter: Seq<u8>,
    choice: Choice,
)
    requires
        m.dom().contains(id),
        m[id].owner != stranger,
    ensures
        spec_end(m, stranger, id) == (m, Err::<(), ProductError>(ProductError::AccessRejected)),
        ({
            let after = spec_end(m, m[id].owner, id);
            after.1 is Ok && !after.0[id].voted.contains(voter) ==> spec_vote(
                after.0,
                voter,
                id,
                choice,
            ) == (after.0, Err::<(), ProductError>(ProductError::ProductIsNotActive))
        }),
{
}


/// One create request: what a caller hands to `create_product`.
pub ghost struct CreateReq {
    pub caller: Seq<u8>,
    pub description: Seq<u8>,
    pub is_active: bool,
}

/// Folds a sequence of create requests over the model, collecting the
/// issued identifiers in order.
pub open spec fn run_creates(m: Map<u64, RecordView>, counter: u64, reqs: Seq<CreateReq>) -> (
    Map<u64, RecordView>,
    u64,
    Seq<u64>,
)
    decreases reqs.len(),
{
    if reqs.len() == 0 {
        (m, counter, Seq::empty())
    } else {
        let step = spec_create(
            m,
            counter,
            reqs[0].caller,
            reqs[0].description,
            reqs[0].is_active,
        );
        let rest = run_creates(step.0, step.1, reqs.drop_first());
        (
            rest.0,
            rest.1,
            match step.2 {
                Some(id) => seq![id] + rest.2,
                None => rest.2,
            },
        )
    }
}

/// Over any sequence of creates: the record count grows by exactly the
/// number of successful creates; the issued identifiers are each fresh —
/// never a key the store already held — and strictly increasing in order
/// of issue, so an identifier is never reused; and every stored identifier
/// stays below the counter, which never rewinds.
pub proof fn lemma_creates_law(m: Map<u64, RecordView>, counter: u64, reqs: Seq<CreateReq>)
    requires
        m.dom().finite(),
        forall|id: u64| #[trigger] m.dom().contains(id) ==> id < counter,
    ensures
        ({
            let after = run_creates(m, counter, reqs);
            &&& after.0.dom().finite()
            &&& after.0.dom().len() == m.dom().len() + after.2.len()
            &&& after.1 >= counter
            &&& forall|i: int| 0 <= i < after.2.len() ==> (#[trigger] after.2[i]) >= counter
            &&& forall|i: int|
                0 <= i < after.2.len() ==> !m.dom().contains(#[trigger] after.2[i])
            &&& forall|i: int, j: int| 0 <= i < j < after.2.len() ==> after.2[i] < after.2[j]
            &&& forall|id: u64| #[trigger] after.0.dom().contains(id) ==> id < after.1
        }),
    decreases reqs.len(),
{
    if reqs.len() == 0 {
    } else {
        let step = spec_create(m, counter, reqs[0].caller, reqs[0].description, reqs[0].is_active);
        let rest = run_creates(step.0, step.1, reqs.drop_first());
        let after = run_creates(m, counter, reqs);
        match step.2 {
            None => {
                lemma_creates_law(m, counter, reqs.drop_first());
            },
            Some(id) => {
                assert(id == counter);
                assert(!m.dom().contains(counter));
                vstd::set::axiom_set_insert_len(m.dom(), counter);
                assert(forall|k: u64| #[trigger] step.0.dom().contains(k) ==> k < step.1);
                lemma_creates_law(step.0, step.1, reqs.drop_first());
                assert(after.2 == seq![counter] + rest.2);
                assert(after.2[0] == counter);
                assert(forall|i: int| 1 <= i < after.2.len() ==> after.2[i] == rest.2[i - 1]);
                assert forall|i: int, j: int|
                    0 <= i < j < after.2.len() implies after.2[i] < after.2[j] by {
                    if i == 0 {
                        assert(rest.2[j - 1] >= step.1);
                    }
                }
                assert forall|i: int|
                    0 <= i < after.2.len() implies !m.dom().contains(#[trigger] after.2[i]) by {
                    if i > 0 {
                        assert(!step.0.dom().contains(rest.2[i - 1]));
                    }
                }
            },
        }
    }
}

} // verus!

