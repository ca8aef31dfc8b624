use vstd::prelude::*;
use crate::identifier::{Identifier, lex_lt, lemma_lex_transitive, lemma_lex_trichotomy, id_lt,
    id_eq};
use crate::wire::{spec_u64_to_be_bytes, spec_u64_from_be_bytes, lemma_u64_be_bytes_round_trip,
    push_u64_be, read_u64_be, push_bytes, suffix_to_vec};

verus! {

/// A Lamport time snapshot: a counter and the identifier of the process that
/// produced it. Immutable once produced.
#[derive(Debug, Clone, PartialEq, Eq)]
pub struct LamportTime(pub u64, pub Identifier);

/// The strict total order on Lamport times: counter first, owner identifier
/// (byte-lexicographic) as the tie-break.
pub open spec fn time_lt(c1: int, o1: Seq<u8>, c2: int, o2: Seq<u8>) -> bool {
    c1 < c2 || (c1 == c2 && lex_lt(o1, o2))
}

/// The reflexive closure of `time_lt`.
pub open spec fn time_le(c1: int, o1: Seq<u8>, c2: int, o2: Seq<u8>) -> bool {
    time_lt(c1, o1, c2, o2) || (c1 == c2 && o1 == o2)
}

/// The counter after the local clock at `(c, o)` witnesses the remote time
/// `(rc, ro)`: one past the remote counter when the remote time dominates in
/// the tie-broken total order, unchanged otherwise.
pub open spec fn spec_witness(c: int, o: Seq<u8>, rc: int, ro: Seq<u8>) -> int {
    if time_lt(c, o, rc, ro) {
        rc + 1
    } else {
        c
    }
}

/// Executable tie-broken comparison: does `a` sort at or before `b`?
pub fn lamport_le(a: &LamportTime, b: &LamportTime) -> (r: bool)
    ensures
        r == time_le(a.0 as int, a.1@, b.0 as int, b.1@),
{
    if a.0 < b.0 {
        true
    } else if a.0 > b.0 {
        false
    } else if id_lt(&a.1, &b.1) {
        true
    } else {
        id_eq(&a.1, &b.1)
    }
}

/// A Lamport (scalar logical) clock: a monotonically non-decreasing counter
/// owned by one process identifier, fixed at construction. The counter starts
/// at 1, which denotes "no events yet".
#[derive(Debug, Clone)]
pub struct LamportClock {
    counter: u64,
    id: Identifier,
}

/// The bytes of an encoded scalar clock: eight big-endian counter bytes,
/// then the raw owner identifier bytes.
pub open spec fn spec_scalar_encode(c: u64, id: Seq<u8>) -> Seq<u8> {
    spec_u64_to_be_bytes(c) + id
}

/// The scalar clock read back from bytes: fails exactly when fewer than eight
/// bytes are supplied; otherwise the first eight bytes are the big-endian
/// counter and whatever follows is taken verbatim as the owner identifier.
pub open spec fn spec_scalar_decode(d: Seq<u8>) -> Option<(u64, Seq<u8>)> {
    if d.len() < 8 {
        None
    } else {
        Some((spec_u64_from_be_bytes(d.take(8)), d.skip(8)))
    }
}

impl LamportClock {
    /// The current counter value.
    pub closed spec fn spec_counter(&self) -> u64 {
        self.counter
    }

    /// The bytes of the owning identifier.
    pub closed spec fn spec_owner(&self) -> Seq<u8> {
        self.id@
    }

    /// Creates a new Lamport clock with a fresh random owner identifier and
    /// the counter initialized to 1.
    pub fn new() -> (r: Self)
        ensures
            r.spec_counter() == 1,
            r.spec_owner().len() == 16,
    {
        LamportClock { counter: 1, id: Identifier::default() }
    }

    /// Creates a new Lamport clock owned by the given identifier, with the
    /// counter initialized to 1.
    pub fn with_new_identifier(id: Identifier) -> (r: Self)
        ensures
            r.spec_counter() == 1,
            r.spec_owner() == id@,
    {
        LamportClock { counter: 1, id }
    }

    /// Creates a new Lamport clock owned by an identifier built from the given
    /// bytes, with the counter initialized to 1.
    pub fn with_custom_identifier(bytes: Vec<u8>) -> (r: Self)
        ensures
            r.spec_counter() == 1,
            r.spec_owner() == bytes@,
    {
        LamportClock { counter: 1, id: Identifier::from_bytes(bytes) }
    }

    /// Returns the current value of the Lamport clock as a snapshot. No side
    /// effects.
    pub fn time(&self) -> (r: LamportTime)
        ensures
            r.0 == self.spec_counter(),
            r.1@ == self.spec_owner(),
    {
        LamportTime(self.counter, self.id.duplicate())
    }

    /// Increments the Lamport clock by one and returns the new value. Each
    /// call yields the next counter in a strictly increasing, gap-free
    /// sequence.
    pub fn increment(&mut self) -> (r: LamportTime)
        requires
            old(self).spec_counter() < u64::MAX,
        ensures
            final(self).spec_counter() == old(self).spec_counter() + 1,
            final(self).spec_owner() == old(self).spec_owner(),
            r.0 == final(self).spec_counter(),
            r.1@ == final(self).spec_owner(),
    {
        self.counter = self.counter + 1;
        LamportTime(self.counter, self.id.duplicate())
    }

    /// Folds a witnessed remote timestamp into the local clock: when the
    /// remote time dominates the local one in the tie-broken total order, the
    /// counter jumps to one past the remote counter; otherwise nothing
    /// changes. The counter never decreases.
    pub fn compare(&mut self, other_time: LamportTime)
        requires
            time_lt(
                old(self).spec_counter() as int,
                old(self).spec_owner(),
                other_time.0 as int,
                other_time.1@,
            ) ==> other_time.0 < u64::MAX,
        ensures
            final(self).spec_counter() as int == spec_witness(
                old(self).spec_counter() as int,
                old(self).spec_owner(),
                other_time.0 as int,
                other_time.1@,
            ),
            final(self).spec_owner() == old(self).spec_owner(),
            final(self).spec_counter() >= old(self).spec_counter(),
    {
        let current_time = self.time();
        if lamport_le(&other_time, &current_time) {
            proof {
                lemma_lex_trichotomy(self.spec_owner(), other_time.1@);
            }
        } else {
            proof {
                lemma_lex_trichotomy(self.spec_owner(), other_time.1@);
            }
            self.counter = other_time.0 + 1;
        }
    }

    /// Serializes the Lamport clock: eight big-endian counter bytes followed
    /// by the raw owner identifier bytes.
    pub fn to_bytes(&self) -> (r: Vec<u8>)
        ensures
            r@ == spec_scalar_encode(self.spec_counter(), self.spec_owner()),
    {
        let mut bytes: Vec<u8> = Vec::new();
        push_u64_be(&mut bytes, self.counter);
        push_bytes(&mut bytes, &self.id.0);
        proof {
            assert(Seq::<u8>::empty() + spec_u64_to_be_bytes(self.counter) =~= spec_u64_to_be_bytes(
                self.counter,
            ));
        }
        bytes
    }

    /// Deserializes a Lamport clock from bytes. Fails (returns no value)
    /// exactly when fewer than eight bytes are supplied; any byte suffix is
    /// accepted verbatim as the owner identifier.
    pub fn from_bytes(data: &[u8]) -> (r: Option<Self>)
        ensures
            r is Some <==> spec_scalar_decode(data@) is Some,
            r is Some ==> r->0.spec_counter() == (spec_scalar_decode(data@)->0).0,
            r is Some ==> r->0.spec_owner() == (spec_scalar_decode(data@)->0).1,
    {
        if data.len() < 8 {
            return None;
        }
        let count = read_u64_be(data, 0);
        let id = suffix_to_vec(data, 8);
        proof {
            assert(data@.subrange(0, 8) =~= data@.take(8));
        }
        Some(LamportClock { counter: count, id: Identifier(id) })
    }
}

/// Decoding an encoded scalar clock gives back exactly the counter and the
/// owner bytes that were encoded.
pub proof fn lemma_scalar_codec_round_trip(c: u64, id: Seq<u8>)
    ensures
        spec_scalar_decode(spec_scalar_encode(c, id)) == Some((c, id)),
{
    let e = spec_scalar_encode(c, id);
    assert(e.len() == 8 + id.len());
    assert(e.take(8) =~= spec_u64_to_be_bytes(c));
    assert(e.skip(8) =~= id);
    lemma_u64_be_bytes_round_trip(c);
}

/// Witnessing is idempotent once applied: after the clock has witnessed the
/// remote time `(rc, ro)`, witnessing the same remote time again, or any
/// older one `(rc2, ro2)`, never changes the counter.
pub proof fn lemma_witness_idempotent(
    c: int,
    o: Seq<u8>,
    rc: int,
    ro: Seq<u8>,
    rc2: int,
    ro2: Seq<u8>,
)
    requires
        time_le(rc2, ro2, rc, ro),
    ensures
        spec_witness(spec_witness(c, o, rc, ro), o, rc2, ro2) == spec_witness(c, o, rc, ro),
{
    let w = spec_witness(c, o, rc, ro);
    if time_lt(c, o, rc, ro) {
        assert(w == rc + 1);
        assert(!time_lt(w, o, rc2, ro2));
    } else {
        if time_lt(c, o, rc2, ro2) {
            if c == rc2 && rc2 == rc {
                if lex_lt(o, ro2) && lex_lt(ro2, ro) {
                    lemma_lex_transitive(o, ro2, ro);
                }
            }
            assert(time_lt(c, o, rc, ro));
        }
    }
}

} // verus!
