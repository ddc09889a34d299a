//! The record ("product") data model: caller identities, vote choices,
//! the error taxonomy, and the record itself with its mathematical view.

use vstd::prelude::*;

verus! {

/// An opaque authenticated caller identity, supplied by the hosting
/// environment. Only equality of the underlying bytes matters.
pub struct CallerId {
    pub bytes: Vec<u8>,
}

impl View for CallerId {
    type V = Seq<u8>;

    open spec fn view(&self) -> Seq<u8> {
        self.bytes@
    }
}

impl CallerId {
    /// Builds a caller identity from its raw bytes.
    pub fn new(bytes: Vec<u8>) -> (c: CallerId)
        ensures
            c@ == bytes@,
    {
        CallerId { bytes }
    }

    /// Byte-for-byte equality of two caller identities.
    pub fn is_same(&self, other: &CallerId) -> (r: bool)
        ensures
            r == (self@ == other@),
    {
        if self.bytes.len() != other.bytes.len() {
            proof {
                assert(self@ != other@);
            }
            return false;
        }
        let n = self.bytes.len();
        let mut i: usize = 0;
        while i < n
            invariant
                0 <= i <= n,
                n == self@.len() == other@.len(),
                forall|j: int| 0 <= j < i ==> self@[j] == other@[j],
            decreases n - i,
        {
            if self.bytes[i] != other.bytes[i] {
                proof {
                    assert(self@[i as int] != other@[i as int]);
                }
                return false;
            }
            i += 1;
        }
        proof {
            assert(self@ =~= other@);
        }
        true
    }

    /// A fresh copy of this identity holding the same bytes.
    pub fn duplicate(&self) -> (c: CallerId)
        ensures
            c@ == self@,
    {
        let n = self.bytes.len();
        let mut out: Vec<u8> = Vec::new();
        let mut i: usize = 0;
        while i < n
            invariant
                0 <= i <= n,
                n == self@.len(),
                out@ =~= self@.subrange(0, i as int),
            decreases n - i,
        {
            out.push(self.bytes[i]);
            i += 1;
        }
        proof {
            assert(out@ =~= self@);
        }
        CallerId { bytes: out }
    }
}

/// One of the three mutually exclusive vote choices.
#[derive(Clone, Copy, PartialEq, Eq, Structural, Debug)]
pub enum Choice {
    Approve,
    Reject,
    Pass,
}

/// The error taxonomy of the operations layer.
#[derive(Clone, Copy, PartialEq, Eq, Structural, Debug)]
pub enum ProductError {
    /// The caller has already cast a vote on this record.
    AlreadyAdded,
    /// A vote was attempted on a record whose `is_active` is false.
    ProductIsNotActive,
    /// No record is stored under the given identifier.
    NoSuchProduct,
    /// The caller is not the owner of the record.
    AccessRejected,
    /// The write-back could not be persisted (serialized size bound exceeded).
    UpdateFailed,
}

/// A votable record. `description` holds the free text as bytes; `voted`
/// is the set of caller identities that have already cast a vote.
pub struct Product {
    pub id: u64,
    pub description: Vec<u8>,
    pub approve: u32,
    pub reject: u32,
    pub pass: u32,
    pub is_active: bool,
    pub voted: Vec<CallerId>,
    pub owner: CallerId,
}

/// The mathematical model of a record: every field as a plain value.
pub ghost struct RecordView {
    pub id: u64,
    pub description: Seq<u8>,
    pub approve: u32,
    pub reject: u32,
    pub pass: u32,
    pub is_active: bool,
    pub voted: Seq<Seq<u8>>,
    pub owner: Seq<u8>,
}

impl View for Product {
    type V = RecordView;

    open spec fn view(&self) -> RecordView {
        RecordView {
            id: self.id,
            description: self.description@,
            approve: self.approve,
            reject: self.reject,
            pass: self.pass,
            is_active: self.is_active,
            voted: self.voted@.map_values(|c: CallerId| c@),
            owner: self.owner@,
        }
    }
}

} // verus!
