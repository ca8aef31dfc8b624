use vstd::prelude::*;
use crate::identifier::{Identifier, lex_lt, lemma_lex_trichotomy, lemma_lex_transitive, id_lt,
    id_eq};
use crate::wire::{spec_u64_to_be_bytes, spec_u64_from_be_bytes, lemma_u64_be_bytes_round_trip,
    push_u64_be, read_u64_be, push_bytes, range_to_vec};

verus! {

// ---------------------------------------------------------------------------
// The mathematical model: a vector-clock state is a sequence of
// (identifier bytes, counter) entries, kept strictly sorted by identifier so
// that every key appears at most once and equal map content means equal
// sequences.
// ---------------------------------------------------------------------------

/// Entries strictly ascending by identifier bytes: canonical form, no
/// duplicate keys.
pub open spec fn entries_sorted(s: Seq<(Seq<u8>, u64)>) -> bool {
    forall|i: int, j: int|
        0 <= i < j < s.len() ==> #[trigger] lex_lt(s[i].0, s[j].0)
}

/// The counter recorded for key `k`, if any.
pub open spec fn skey(s: Seq<(Seq<u8>, u64)>, k: Seq<u8>) -> Option<u64>
    decreases s.len(),
{
    if s.len() == 0 {
        None
    } else if s[0].0 == k {
        Some(s[0].1)
    } else {
        skey(s.drop_first(), k)
    }
}

/// The counter for key `k`, defaulting to 0 when absent: absent and
/// present-zero are equivalent for all comparisons.
pub open spec fn sval(s: Seq<(Seq<u8>, u64)>, k: Seq<u8>) -> u64 {
    match skey(s, k) {
        Some(v) => v,
        None => 0,
    }
}

/// The entry sequence a vector of (Identifier, counter) pairs stands for.
pub open spec fn entries_view(v: Seq<(Identifier, u64)>) -> Seq<(Seq<u8>, u64)> {
    v.map_values(|e: (Identifier, u64)| (e.0@, e.1))
}

proof fn lemma_drop_first_sorted(s: Seq<(Seq<u8>, u64)>)
    requires
        entries_sorted(s),
        s.len() > 0,
    ensures
        entries_sorted(s.drop_first()),
{
    assert forall|i: int, j: int| 0 <= i < j < s.drop_first().len() implies #[trigger] lex_lt(
        s.drop_first()[i].0,
        s.drop_first()[j].0,
    ) by {
        assert(s.drop_first()[i] == s[i + 1]);
        assert(s.drop_first()[j] == s[j + 1]);
        assert(lex_lt(s[i + 1].0, s[j + 1].0));
    }
}

/// In a sorted entry sequence, `skey` is exactly lookup by position: a key is
/// present iff some entry holds it, and then `skey` returns that entry's
/// counter.
pub proof fn lemma_skey_lookup(s: Seq<(Seq<u8>, u64)>, k: Seq<u8>)
    requires
        entries_sorted(s),
    ensures
        skey(s, k) is Some <==> exists|i: int| 0 <= i < s.len() && (#[trigger] s[i]).0 == k,
        forall|i: int| 0 <= i < s.len() && (#[trigger] s[i]).0 == k ==> skey(s, k) == Some(s[i].1),
    decreases s.len(),
{
    if s.len() == 0 {
    } else if s[0].0 == k {
        assert(s[0].0 == k);
        assert forall|i: int| 0 <= i < s.len() && (#[trigger] s[i]).0 == k implies skey(s, k)
            == Some(s[i].1) by {
            if i > 0 {
                assert(lex_lt(s[0].0, s[i].0));
                lemma_lex_trichotomy(s[0].0, s[i].0);
            }
        }
    } else {
        lemma_drop_first_sorted(s);
        lemma_skey_lookup(s.drop_first(), k);
        if skey(s, k) is Some {
            let i = choose|i: int|
                0 <= i < s.drop_first().len() && (#[trigger] s.drop_first()[i]).0 == k;
            assert(s[i + 1] == s.drop_first()[i]);
        }
        if exists|i: int| 0 <= i < s.len() && (#[trigger] s[i]).0 == k {
            let i = choose|i: int| 0 <= i < s.len() && (#[trigger] s[i]).0 == k;
            assert(i > 0);
            assert(s.drop_first()[i - 1] == s[i]);
        }
        assert forall|i: int| 0 <= i < s.len() && (#[trigger] s[i]).0 == k implies skey(s, k)
            == Some(s[i].1) by {
            assert(i > 0);
            assert(s.drop_first()[i - 1] == s[i]);
        }
    }
}

/// Two sorted entry sequences with the same lookup everywhere are the same
/// sequence: the sorted form is canonical.
pub proof fn lemma_sorted_canonical(a: Seq<(Seq<u8>, u64)>, b: Seq<(Seq<u8>, u64)>)
    requires
        entries_sorted(a),
        entries_sorted(b),
        forall|k: Seq<u8>| #[trigger] skey(a, k) == skey(b, k),
    ensures
        a == b,
    decreases a.len(),
{
    if a.len() == 0 {
        if b.len() > 0 {
            lemma_skey_lookup(b, b[0].0);
            lemma_skey_lookup(a, b[0].0);
            assert(skey(b, b[0].0) == Some(b[0].1));
            assert(false);
        }
        assert(a =~= b);
    } else if b.len() == 0 {
        lemma_skey_lookup(a, a[0].0);
        lemma_skey_lookup(b, a[0].0);
        assert(skey(a, a[0].0) == Some(a[0].1));
        assert(false);
    } else {
        // The two head keys are equal: each is the minimum key of its map.
        lemma_skey_lookup(a, a[0].0);
        lemma_skey_lookup(b, a[0].0);
        lemma_skey_lookup(a, b[0].0);
        lemma_skey_lookup(b, b[0].0);
        assert(skey(b, a[0].0) is Some);
        let ja = choose|i: int| 0 <= i < b.len() && (#[trigger] b[i]).0 == a[0].0;
        assert(skey(a, b[0].0) is Some);
        let jb = choose|i: int| 0 <= i < a.len() && (#[trigger] a[i]).0 == b[0].0;
        lemma_lex_trichotomy(a[0].0, b[0].0);
        if lex_lt(a[0].0, b[0].0) {
            if ja > 0 {
                assert(lex_lt(b[0].0, b[ja].0));
                lemma_lex_transitive(a[0].0, b[0].0, b[ja].0);
                lemma_lex_trichotomy(a[0].0, b[ja].0);
            }
            assert(false);
        }
        if lex_lt(b[0].0, a[0].0) {
            if jb > 0 {
                assert(lex_lt(a[0].0, a[jb].0));
                lemma_lex_transitive(b[0].0, a[0].0, a[jb].0);
                lemma_lex_trichotomy(b[0].0, a[jb].0);
            }
            assert(false);
        }
        assert(a[0].0 == b[0].0);
        assert(skey(a, a[0].0) == Some(a[0].1));
        assert(skey(b, b[0].0) == Some(b[0].1));
        assert(a[0].1 == b[0].1);
        assert(a[0] == b[0]);
        lemma_drop_first_sorted(a);
        lemma_drop_first_sorted(b);
        assert forall|k: Seq<u8>| #[trigger] skey(a.drop_first(), k) == skey(
            b.drop_first(),
            k,
        ) by {
            if k == a[0].0 {
                lemma_skey_lookup(a.drop_first(), k);
                lemma_skey_lookup(b.drop_first(), k);
                if skey(a.drop_first(), k) is Some {
                    let i = choose|i: int|
                        0 <= i < a.drop_first().len() && (#[trigger] a.drop_first()[i]).0 == k;
                    assert(a.drop_first()[i] == a[i + 1]);
                    assert(lex_lt(a[0].0, a[i + 1].0));
                    lemma_lex_trichotomy(a[0].0, a[i + 1].0);
                }
                if skey(b.drop_first(), k) is Some {
                    let i = choose|i: int|
                        0 <= i < b.drop_first().len() && (#[trigger] b.drop_first()[i]).0 == k;
                    assert(b.drop_first()[i] == b[i + 1]);
                    assert(lex_lt(b[0].0, b[i + 1].0));
                    lemma_lex_trichotomy(b[0].0, b[i + 1].0);
                }
            } else {
                assert(skey(a, k) == skey(a.drop_first(), k));
                assert(skey(b, k) == skey(b.drop_first(), k));
            }
        }
        lemma_sorted_canonical(a.drop_first(), b.drop_first());
        assert forall|i: int| 0 <= i < a.len() implies a[i] == b[i] by {
            if i > 0 {
                assert(a.drop_first()[i - 1] == a[i]);
                assert(b.drop_first()[i - 1] == b[i]);
            }
        }
        assert(a =~= b);
    }
}

// ---------------------------------------------------------------------------
// Comparison algebra.
// ---------------------------------------------------------------------------

/// Pointwise order on clock content: every counter of `a` is at or below the
/// corresponding counter of `b`, absent keys counting as 0.
pub open spec fn vc_leq(a: Seq<(Seq<u8>, u64)>, b: Seq<(Seq<u8>, u64)>) -> bool {
    forall|k: Seq<u8>| #[trigger] sval(a, k) <= sval(b, k)
}

/// The strict happened-before relation: `a` is pointwise at or below `b` and
/// differs from it somewhere.
pub open spec fn spec_happened_before(a: Seq<(Seq<u8>, u64)>, b: Seq<(Seq<u8>, u64)>) -> bool {
    vc_leq(a, b) && !vc_leq(b, a)
}

/// The result of comparing two vector-clock times under the causal partial
/// order: `Concurrent` reports "no ordering", not an error.
#[derive(Debug, Clone, Copy, PartialEq, Eq, Structural)]
pub enum ClockOrdering {
    Less,
    Greater,
    Equal,
    Concurrent,
}

/// The three-way-with-concurrency comparison of two clock contents.
pub open spec fn spec_compare(a: Seq<(Seq<u8>, u64)>, b: Seq<(Seq<u8>, u64)>) -> ClockOrdering {
    if vc_leq(a, b) && vc_leq(b, a) {
        ClockOrdering::Equal
    } else if vc_leq(a, b) {
        ClockOrdering::Less
    } else if vc_leq(b, a) {
        ClockOrdering::Greater
    } else {
        ClockOrdering::Concurrent
    }
}

/// The larger of two counters.
pub open spec fn max_val(x: u64, y: u64) -> u64 {
    if x >= y {
        x
    } else {
        y
    }
}

/// The lookup a merge of `a` and `b` produces: a key is present when it is
/// present in either, and its counter is the larger of the two (absent
/// counting as 0).
pub open spec fn spec_merge_lookup(
    a: Seq<(Seq<u8>, u64)>,
    b: Seq<(Seq<u8>, u64)>,
    k: Seq<u8>,
) -> Option<u64> {
    if skey(a, k) is Some || skey(b, k) is Some {
        Some(max_val(sval(a, k), sval(b, k)))
    } else {
        None
    }
}

// ---------------------------------------------------------------------------
// Executable helpers over sorted entry vectors.
// ---------------------------------------------------------------------------

fn find_pos(v: &Vec<(Identifier, u64)>, key: &Identifier) -> (p: usize)
    requires
        entries_sorted(entries_view(v@)),
    ensures
        p <= v@.len(),
        forall|i: int| 0 <= i < p ==> lex_lt((#[trigger] entries_view(v@)[i]).0, key@),
        p < v@.len() ==> !lex_lt(entries_view(v@)[p as int].0, key@),
{
    let mut p: usize = 0;
    while p < v.len()
        invariant
            p <= v@.len(),
            forall|i: int| 0 <= i < p ==> lex_lt((#[trigger] entries_view(v@)[i]).0, key@),
        ensures
            p <= v@.len(),
            forall|i: int| 0 <= i < p ==> lex_lt((#[trigger] entries_view(v@)[i]).0, key@),
            p < v@.len() ==> !lex_lt(entries_view(v@)[p as int].0, key@),
        decreases v@.len() - p,
    {
        if !id_lt(&v[p].0, key) {
            break;
        }
        p = p + 1;
    }
    p
}

fn get_val(v: &Vec<(Identifier, u64)>, key: &Identifier) -> (r: u64)
    requires
        entries_sorted(entries_view(v@)),
    ensures
        r == sval(entries_view(v@), key@),
{
    let ghost m = entries_view(v@);
    let mut i: usize = 0;
    while i < v.len()
        invariant
            i <= v@.len(),
            m == entries_view(v@),
            entries_sorted(m),
            forall|j: int| 0 <= j < i ==> (#[trigger] m[j]).0 != key@,
        decreases v@.len() - i,
    {
        if id_eq(&v[i].0, key) {
            proof {
                lemma_skey_lookup(m, key@);
                assert(m[i as int].0 == key@);
            }
            return v[i].1;
        }
        i = i + 1;
    }
    proof {
        lemma_skey_lookup(m, key@);
        if skey(m, key@) is Some {
            let j = choose|j: int| 0 <= j < m.len() && (#[trigger] m[j]).0 == key@;
            assert(false);
        }
    }
    0
}

/// Sets `key` to exactly `val`, inserting it at its sorted position when
/// absent; every other key keeps its lookup.
fn upsert(v: &mut Vec<(Identifier, u64)>, key: &Identifier, val: u64)
    requires
        entries_sorted(entries_view(old(v)@)),
    ensures
        entries_sorted(entries_view(final(v)@)),
        skey(entries_view(final(v)@), key@) == Some(val),
        forall|k: Seq<u8>| k != key@ ==> #[trigger] skey(entries_view(final(v)@), k) == skey(
            entries_view(old(v)@),
            k,
        ),
{
    let ghost a = entries_view(v@);
    let p = find_pos(v, key);
    let mut is_update = false;
    if p < v.len() {
        if id_eq(&v[p].0, key) {
            is_update = true;
        }
    }
    if is_update {
        v.set(p, (key.duplicate(), val));
        proof {
            let b = entries_view(v@);
            assert(b =~= a.update(p as int, (key@, val)));
            assert(a[p as int].0 == key@);
            assert forall|i: int, j: int| 0 <= i < j < b.len() implies #[trigger] lex_lt(
                b[i].0,
                b[j].0,
            ) by {
                assert(b[i].0 == a[i].0);
                assert(b[j].0 == a[j].0);
                assert(lex_lt(a[i].0, a[j].0));
            }
            lemma_skey_lookup(b, key@);
            assert(b[p as int].0 == key@);
            assert(skey(b, key@) == Some(val));
            assert forall|k: Seq<u8>| k != key@ implies #[trigger] skey(b, k) == skey(a, k) by {
                lemma_skey_lookup(a, k);
                lemma_skey_lookup(b, k);
                if skey(a, k) is Some {
                    let i = choose|i: int| 0 <= i < a.len() && (#[trigger] a[i]).0 == k;
                    assert(b[i].0 == k);
                    assert(i != p);
                    assert(skey(b, k) == Some(b[i].1));
                    assert(b[i].1 == a[i].1);
                } else {
                    if skey(b, k) is Some {
                        let i = choose|i: int| 0 <= i < b.len() && (#[trigger] b[i]).0 == k;
                        assert(i != p);
                        assert(a[i].0 == k);
                        assert(false);
                    }
                }
            }
        }
    } else {
        v.insert(p, (key.duplicate(), val));
        proof {
            let b = entries_view(v@);
            assert(b =~= a.insert(p as int, (key@, val)));
            assert(forall|i: int| 0 <= i < p ==> #[trigger] b[i] == a[i]);
            assert(b[p as int] == (key@, val));
            assert(forall|i: int| p < i < b.len() ==> #[trigger] b[i] == a[i - 1]);
            // key is strictly between its neighbours
            if p < a.len() {
                assert(a[p as int].0 != key@);
                lemma_lex_trichotomy(a[p as int].0, key@);
                assert(lex_lt(key@, a[p as int].0));
            }
            assert forall|i: int| p <= i < a.len() implies lex_lt(key@, (#[trigger] a[i]).0) by {
                if i > p {
                    assert(lex_lt(a[p as int].0, a[i].0));
                    lemma_lex_transitive(key@, a[p as int].0, a[i].0);
                }
            }
            assert forall|i: int, j: int| 0 <= i < j < b.len() implies #[trigger] lex_lt(
                b[i].0,
                b[j].0,
            ) by {
                if j < p {
                    assert(lex_lt(a[i].0, a[j].0));
                } else if j == p {
                    assert(b[i] == a[i]);
                    assert(lex_lt(a[i].0, key@));
                } else if i < p {
                    assert(lex_lt(a[i].0, a[j - 1].0));
                } else if i == p {
                    assert(lex_lt(key@, a[j - 1].0));
                } else {
                    assert(lex_lt(a[i - 1].0, a[j - 1].0));
                }
            }
            lemma_skey_lookup(b, key@);
            assert(b[p as int].0 == key@);
            assert(skey(b, key@) == Some(val));
            assert forall|k: Seq<u8>| k != key@ implies #[trigger] skey(b, k) == skey(a, k) by {
                lemma_skey_lookup(a, k);
                lemma_skey_lookup(b, k);
                if skey(a, k) is Some {
                    let i = choose|i: int| 0 <= i < a.len() && (#[trigger] a[i]).0 == k;
                    if i < p {
                        assert(b[i].0 == k);
                        assert(skey(b, k) == Some(b[i].1));
                        assert(b[i].1 == a[i].1);
                    } else {
                        assert(b[i + 1] == a[i]);
                        assert(b[i + 1].0 == k);
                        assert(skey(b, k) == Some(b[i + 1].1));
                    }
                } else {
                    if skey(b, k) is Some {
                        let i = choose|i: int| 0 <= i < b.len() && (#[trigger] b[i]).0 == k;
                        assert(i != p);
                        if i < p {
                            assert(a[i].0 == k);
                        } else {
                            assert(a[i - 1].0 == k);
                        }
                        assert(false);
                    }
                }
            }
        }
    }
}

fn leq_entries(a: &Vec<(Identifier, u64)>, b: &Vec<(Identifier, u64)>) -> (r: bool)
    requires
        entries_sorted(entries_view(a@)),
        entries_sorted(entries_view(b@)),
    ensures
        r == vc_leq(entries_view(a@), entries_view(b@)),
{
    let ghost ma = entries_view(a@);
    let ghost mb = entries_view(b@);
    let mut i: usize = 0;
    while i < a.len()
        invariant
            i <= a@.len(),
            ma == entries_view(a@),
            mb == entries_view(b@),
            entries_sorted(ma),
            entries_sorted(mb),
            forall|j: int| 0 <= j < i ==> (#[trigger] ma[j]).1 <= sval(mb, ma[j].0),
        decreases a@.len() - i,
    {
        let bv = get_val(b, &a[i].0);
        if a[i].1 > bv {
            proof {
                lemma_skey_lookup(ma, ma[i as int].0);
                assert(skey(ma, ma[i as int].0) == Some(ma[i as int].1));
                assert(sval(ma, ma[i as int].0) > sval(mb, ma[i as int].0));
            }
            return false;
        }
        i = i + 1;
    }
    proof {
        assert forall|k: Seq<u8>| #[trigger] sval(ma, k) <= sval(mb, k) by {
            lemma_skey_lookup(ma, k);
            if skey(ma, k) is Some {
                let j = choose|j: int| 0 <= j < ma.len() && (#[trigger] ma[j]).0 == k;
                assert(ma[j].1 <= sval(mb, ma[j].0));
            }
        }
    }
    true
}

fn copy_entries(v: &Vec<(Identifier, u64)>) -> (r: Vec<(Identifier, u64)>)
    ensures
        entries_view(r@) == entries_view(v@),
{
    let mut r: Vec<(Identifier, u64)> = Vec::new();
    let mut i: usize = 0;
    while i < v.len()
        invariant
            i <= v@.len(),
            r@.len() == i,
            entries_view(r@) == entries_view(v@).take(i as int),
        decreases v@.len() - i,
    {
        let ghost prev = r@;
        r.push((v[i].0.duplicate(), v[i].1));
        proof {
            assert(prev.len() == i);
            assert forall|j: int| 0 <= j < r@.len() implies #[trigger] entries_view(r@)[j]
                == entries_view(v@).take(i + 1)[j] by {
                if j < i {
                    assert(r@[j] == prev[j]);
                    assert(entries_view(prev)[j] == entries_view(v@).take(i as int)[j]);
                } else {
                    assert(r@[j] == (r@[i as int].0, v@[i as int].1));
                }
            }
            assert(entries_view(r@) =~= entries_view(v@).take(i + 1));
        }
        i = i + 1;
    }
    proof {
        assert(entries_view(v@).take(v@.len() as int) =~= entries_view(v@));
    }
    r
}

// ---------------------------------------------------------------------------
// Public types.
// ---------------------------------------------------------------------------

/// A seed list of known identifiers, each given counter 0 when the vector
/// clock is built from it.
#[derive(Debug, Clone)]
pub struct Vector {
    data: Vec<(Identifier, u64)>,
}

impl View for Vector {
    type V = Seq<(Seq<u8>, u64)>;

    closed spec fn view(&self) -> Seq<(Seq<u8>, u64)> {
        entries_view(self.data@)
    }
}

impl Vector {
    /// Canonical form: entries strictly sorted by identifier bytes.
    pub open spec fn wf(&self) -> bool {
        entries_sorted(self@)
    }

    /// Creates a new empty vector.
    pub fn new() -> (r: Self)
        ensures
            r.wf(),
            r@ == Seq::<(Seq<u8>, u64)>::empty(),
    {
        let r = Vector { data: Vec::new() };
        proof {
            assert(r@ =~= Seq::<(Seq<u8>, u64)>::empty());
        }
        r
    }

    /// Adds an identifier to the vector and initializes it to zero; every
    /// other identifier keeps its entry.
    pub fn add(&mut self, id: Identifier)
        requires
            old(self).wf(),
        ensures
            final(self).wf(),
            skey(final(self)@, id@) == Some(0u64),
            forall|k: Seq<u8>| k != id@ ==> #[trigger] skey(final(self)@, k) == skey(old(self)@, k),
    {
        upsert(&mut self.data, &id, 0);
    }
}

/// A vector clock: a mapping from process identifier to a monotonically
/// non-decreasing 64-bit counter. Entries only ever increase, through local
/// increments and merges with received snapshots. Not internally
/// synchronized: a single owner mutates it.
#[derive(Debug, Clone)]
pub struct VClock {
    vector: Vec<(Identifier, u64)>,
}

impl View for VClock {
    type V = Seq<(Seq<u8>, u64)>;

    closed spec fn view(&self) -> Seq<(Seq<u8>, u64)> {
        entries_view(self.vector@)
    }
}

impl VClock {
    /// Canonical form: entries strictly sorted by identifier bytes.
    pub open spec fn wf(&self) -> bool {
        entries_sorted(self@)
    }

    /// Creates a new empty vector clock.
    pub fn new() -> (r: Self)
        ensures
            r.wf(),
            r@ == Seq::<(Seq<u8>, u64)>::empty(),
    {
        let r = VClock { vector: Vec::new() };
        proof {
            assert(r@ =~= Seq::<(Seq<u8>, u64)>::empty());
        }
        r
    }

    /// Creates a new vector clock holding exactly the given seed vector's
    /// entries.
    pub fn with_vector(vector: Vector) -> (r: Self)
        requires
            vector.wf(),
        ensures
            r.wf(),
            r@ == vector@,
    {
        VClock { vector: vector.data }
    }

    /// Increments the counter for `node_id` by 1, creating the entry at 1
    /// when absent. Every other entry is untouched. This is the one way a
    /// process advances its own component.
    pub fn increment(&mut self, node_id: &Identifier)
        requires
            old(self).wf(),
            sval(old(self)@, node_id@) < u64::MAX,
        ensures
            final(self).wf(),
            skey(final(self)@, node_id@) == Some((sval(old(self)@, node_id@) + 1) as u64),
            forall|k: Seq<u8>| k != node_id@ ==> #[trigger] skey(final(self)@, k) == skey(
                old(self)@,
                k,
            ),
    {
        let cur = get_val(&self.vector, node_id);
        upsert(&mut self.vector, node_id, cur + 1);
    }

    /// Merges another vector clock into this one: every key present in either
    /// ends up present, at the larger of the two counters. No entry ever
    /// decreases.
    pub fn merge(&mut self, other: &VClock)
        requires
            old(self).wf(),
            other.wf(),
        ensures
            final(self).wf(),
            forall|k: Seq<u8>| #[trigger] skey(final(self)@, k) == spec_merge_lookup(
                old(self)@,
                other@,
                k,
            ),
            forall|k: Seq<u8>| #[trigger] sval(final(self)@, k) >= sval(old(self)@, k),
    {
        let ghost a = entries_view(self.vector@);
        let ghost bt = entries_view(other.vector@);
        let mut j: usize = 0;
        while j < other.vector.len()
            invariant
                j <= other.vector@.len(),
                bt == entries_view(other.vector@),
                bt.len() == other.vector@.len(),
                entries_sorted(bt),
                entries_sorted(entries_view(self.vector@)),
                forall|k: Seq<u8>| #[trigger] skey(entries_view(self.vector@), k)
                    == spec_merge_lookup(a, bt.take(j as int), k),
            decreases other.vector@.len() - j,
        {
            let ghost cur = entries_view(self.vector@);
            let e = &other.vector[j];
            let ghost k0 = bt[j as int].0;
            let cur_val = get_val(&self.vector, &e.0);
            let ov = e.1;
            let m = if cur_val >= ov {
                cur_val
            } else {
                ov
            };
            proof {
                assert(bt[j as int] == (e.0@, e.1));
                // take(j) holds no entry for k0: the key sits at j and keys are unique
                assert(entries_sorted(bt.take(j as int))) by {
                    assert(forall|x: int, y: int|
                        0 <= x < y < j ==> #[trigger] lex_lt(
                            bt.take(j as int)[x].0,
                            bt.take(j as int)[y].0,
                        ) == lex_lt(bt[x].0, bt[y].0));
                }
                lemma_skey_lookup(bt.take(j as int), k0);
                if skey(bt.take(j as int), k0) is Some {
                    let x = choose|x: int|
                        0 <= x < j && (#[trigger] bt.take(j as int)[x]).0 == k0;
                    assert(bt[x].0 == k0);
                    assert(lex_lt(bt[x].0, bt[j as int].0));
                    lemma_lex_trichotomy(bt[x].0, bt[j as int].0);
                    assert(false);
                }
                assert(sval(bt.take(j as int), k0) == 0);
                assert(skey(cur, k0) == spec_merge_lookup(a, bt.take(j as int), k0));
                assert(sval(cur, k0) == max_val(sval(a, k0), 0));
                assert(max_val(sval(a, k0), 0) == sval(a, k0));
                assert(cur_val == sval(a, k0));
                assert(m == max_val(sval(a, k0), ov));
            }
            upsert(&mut self.vector, &e.0, m);
            proof {
                let nxt = entries_view(self.vector@);
                let btj1 = bt.take(j + 1);
                assert(entries_sorted(btj1)) by {
                    assert(forall|x: int, y: int|
                        0 <= x < y < j + 1 ==> #[trigger] lex_lt(btj1[x].0, btj1[y].0) == lex_lt(
                            bt[x].0,
                            bt[y].0,
                        ));
                }
                lemma_skey_lookup(btj1, k0);
                assert(btj1[j as int].0 == k0);
                assert(skey(btj1, k0) == Some(bt[j as int].1));
                assert forall|k: Seq<u8>| #[trigger] skey(nxt, k) == spec_merge_lookup(
                    a,
                    btj1,
                    k,
                ) by {
                    if k == k0 {
                        assert(skey(nxt, k0) == Some(m));
                        assert(sval(btj1, k0) == ov);
                        assert(spec_merge_lookup(a, btj1, k0) == Some(
                            max_val(sval(a, k0), sval(btj1, k0)),
                        ));
                        assert(max_val(sval(a, k0), ov) == max_val(
                            max_val(sval(a, k0), 0),
                            sval(btj1, k0),
                        ));
                    } else {
                        assert(skey(nxt, k) == skey(cur, k));
                        // lookup in take(j + 1) agrees with take(j) away from k0
                        lemma_skey_lookup(btj1, k);
                        lemma_skey_lookup(bt.take(j as int), k);
                        if skey(btj1, k) is Some {
                            let x = choose|x: int| 0 <= x < j + 1 && (#[trigger] btj1[x]).0 == k;
                            assert(x != j);
                            assert(bt.take(j as int)[x].0 == k);
                            assert(skey(bt.take(j as int), k) == Some(bt[x].1));
                            assert(skey(btj1, k) == Some(bt[x].1));
                        } else {
                            if skey(bt.take(j as int), k) is Some {
                                let x = choose|x: int|
                                    0 <= x < j && (#[trigger] bt.take(j as int)[x]).0 == k;
                                assert(btj1[x].0 == k);
                                assert(false);
                            }
                        }
                    }
                }
            }
            j = j + 1;
        }
        proof {
            assert(bt.take(other.vector@.len() as int) =~= bt);
            assert forall|k: Seq<u8>| #[trigger] sval(entries_view(self.vector@), k) >= sval(
                a,
                k,
            ) by {
                assert(skey(entries_view(self.vector@), k) == spec_merge_lookup(a, bt, k));
            }
        }
    }

    /// Does this clock's snapshot causally precede the other's? True exactly
    /// when every entry here is at or below the other side and at least one is
    /// strictly below: false for equal and for concurrent clocks.
    pub fn happened_before(&self, other: &VClock) -> (r: bool)
        requires
            self.wf(),
            other.wf(),
        ensures
            r == spec_happened_before(self@, other@),
    {
        let le = leq_entries(&self.vector, &other.vector);
        if !le {
            return false;
        }
        let ge = leq_entries(&other.vector, &self.vector);
        !ge
    }

    /// Returns the current vector clock time as an immutable snapshot with
    /// exactly this clock's entries.
    pub fn time(&self) -> (r: VClockTime)
        requires
            self.wf(),
        ensures
            r.wf(),
            r@ == self@,
    {
        VClockTime { entries: copy_entries(&self.vector) }
    }
}

/// An immutable vector-clock snapshot: the value that is compared,
/// transmitted and persisted. Equality is exact structural equality of the
/// (canonically sorted) entries.
#[derive(Debug, Clone, PartialEq, Eq)]
pub struct VClockTime {
    entries: Vec<(Identifier, u64)>,
}

impl View for VClockTime {
    type V = Seq<(Seq<u8>, u64)>;

    closed spec fn view(&self) -> Seq<(Seq<u8>, u64)> {
        entries_view(self.entries@)
    }
}

impl VClockTime {
    /// Canonical form: entries strictly sorted by identifier bytes.
    pub open spec fn wf(&self) -> bool {
        entries_sorted(self@)
    }

    /// The recorded counter for `id`, if any. Note that an explicit zero
    /// entry is distinct from an absent one here, though the two compare as
    /// equal under the partial order.
    pub fn get(&self, id: &Identifier) -> (r: Option<u64>)
        requires
            self.wf(),
        ensures
            r == skey(self@, id@),
    {
        let ghost m = self@;
        let mut i: usize = 0;
        while i < self.entries.len()
            invariant
                i <= self.entries@.len(),
                m == entries_view(self.entries@),
                entries_sorted(m),
                forall|j: int| 0 <= j < i ==> (#[trigger] m[j]).0 != id@,
            decreases self.entries@.len() - i,
        {
            if id_eq(&self.entries[i].0, id) {
                proof {
                    lemma_skey_lookup(m, id@);
                    assert(m[i as int].0 == id@);
                }
                return Some(self.entries[i].1);
            }
            i = i + 1;
        }
        proof {
            lemma_skey_lookup(m, id@);
            if skey(m, id@) is Some {
                let j = choose|j: int| 0 <= j < m.len() && (#[trigger] m[j]).0 == id@;
                assert(false);
            }
        }
        None
    }

    /// The number of entries in the snapshot.
    pub fn len(&self) -> (r: usize)
        ensures
            r == self@.len(),
    {
        self.entries.len()
    }

    /// Compares two snapshots under the causal partial order: `Less` when
    /// this one happened before the other, `Greater` for the converse,
    /// `Equal` when the contents agree everywhere, and `Concurrent` when
    /// neither dominates.
    pub fn compare(&self, other: &VClockTime) -> (r: ClockOrdering)
        requires
            self.wf(),
            other.wf(),
        ensures
            r == spec_compare(self@, other@),
    {
        let le = leq_entries(&self.entries, &other.entries);
        let ge = leq_entries(&other.entries, &self.entries);
        if le && ge {
            ClockOrdering::Equal
        } else if le {
            ClockOrdering::Less
        } else if ge {
            ClockOrdering::Greater
        } else {
            ClockOrdering::Concurrent
        }
    }
}

// ---------------------------------------------------------------------------
// Binary encoding of snapshots: an eight-byte big-endian entry count, then,
// per entry in canonical key order, an eight-byte big-endian key length, the
// raw key bytes, and the eight-byte big-endian counter.
// ---------------------------------------------------------------------------

/// The failure a malformed or truncated snapshot encoding decodes to.
#[derive(Debug, Clone, PartialEq, Eq)]
pub struct DecodeError;

/// The bytes of one encoded entry.
pub open spec fn spec_encode_entry(e: (Seq<u8>, u64)) -> Seq<u8> {
    spec_u64_to_be_bytes(e.0.len() as u64) + e.0 + spec_u64_to_be_bytes(e.1)
}

/// The bytes of the encoded entry list.
pub open spec fn spec_encode_entries(m: Seq<(Seq<u8>, u64)>) -> Seq<u8>
    decreases m.len(),
{
    if m.len() == 0 {
        Seq::empty()
    } else {
        spec_encode_entry(m[0]) + spec_encode_entries(m.drop_first())
    }
}

/// The bytes of an encoded snapshot.
pub open spec fn spec_vclock_encode(m: Seq<(Seq<u8>, u64)>) -> Seq<u8> {
    spec_u64_to_be_bytes(m.len() as u64) + spec_encode_entries(m)
}

/// Parses `n` entries of `d` starting at `pos`, demanding keys strictly
/// ascending past `prev`; yields the entries and the end position, or nothing
/// when the bytes are malformed.
pub open spec fn spec_parse_entries(d: Seq<u8>, pos: int, n: int, prev: Option<Seq<u8>>) -> Option<
    (Seq<(Seq<u8>, u64)>, int),
>
    decreases n,
{
    if n <= 0 {
        Some((Seq::empty(), pos))
    } else if pos + 8 > d.len() {
        None
    } else {
        let klen = spec_u64_from_be_bytes(d.subrange(pos, pos + 8)) as int;
        if pos + 16 + klen > d.len() {
            None
        } else {
            let key = d.subrange(pos + 8, pos + 8 + klen);
            let val = spec_u64_from_be_bytes(d.subrange(pos + 8 + klen, pos + 16 + klen));
            let in_order = match prev {
                Option::None => true,
                Option::Some(p) => lex_lt(p, key),
            };
            if !in_order {
                None
            } else {
                match spec_parse_entries(d, pos + 16 + klen, n - 1, Some(key)) {
                    Option::None => None,
                    Option::Some((rest, end)) => Some((seq![(key, val)] + rest, end)),
                }
            }
        }
    }
}

/// The snapshot read back from bytes: fails exactly when the bytes are not
/// one whole well-formed encoding.
pub open spec fn spec_vclock_decode(d: Seq<u8>) -> Option<Seq<(Seq<u8>, u64)>> {
    if d.len() < 8 {
        None
    } else {
        let n = spec_u64_from_be_bytes(d.take(8));
        match spec_parse_entries(d, 8, n as int, None) {
            Option::None => None,
            Option::Some((m, end)) => if end == d.len() {
                Some(m)
            } else {
                None
            },
        }
    }
}

/// The bytes a parse position tracker stands for.
pub open spec fn spec_prev_view(p: Option<&Identifier>) -> Option<Seq<u8>> {
    match p {
        Option::None => None,
        Option::Some(x) => Some(x@),
    }
}

fn encode_entries_from(v: &Vec<(Identifier, u64)>, i: usize) -> (r: Vec<u8>)
    requires
        i <= v@.len(),
    ensures
        r@ == spec_encode_entries(entries_view(v@).skip(i as int)),
    decreases v@.len() - i,
{
    let ghost m = entries_view(v@);
    if i == v.len() {
        proof {
            assert(m.skip(i as int) =~= Seq::<(Seq<u8>, u64)>::empty());
        }
        Vec::new()
    } else {
        let mut out: Vec<u8> = Vec::new();
        push_u64_be(&mut out, v[i].0.0.len() as u64);
        push_bytes(&mut out, &v[i].0.0);
        push_u64_be(&mut out, v[i].1);
        let rest = encode_entries_from(v, i + 1);
        push_bytes(&mut out, &rest);
        proof {
            assert(m.skip(i as int)[0] == m[i as int]);
            assert(m[i as int] == (v@[i as int].0@, v@[i as int].1));
            assert(m.skip(i as int).drop_first() =~= m.skip(i + 1));
            assert(out@ =~= spec_encode_entry(m.skip(i as int)[0]) + spec_encode_entries(
                m.skip(i + 1),
            ));
        }
        out
    }
}

fn parse_entries(data: &[u8], pos: usize, n: u64, prev: Option<&Identifier>) -> (r: Option<
    (Vec<(Identifier, u64)>, usize),
>)
    requires
        pos <= data@.len(),
    ensures
        r is Some <==> spec_parse_entries(data@, pos as int, n as int, spec_prev_view(prev))
            is Some,
        r is Some ==> entries_view((r->0).0@) == (spec_parse_entries(
            data@,
            pos as int,
            n as int,
            spec_prev_view(prev),
        )->0).0,
        r is Some ==> (r->0).1 as int == (spec_parse_entries(
            data@,
            pos as int,
            n as int,
            spec_prev_view(prev),
        )->0).1,
        r is Some ==> pos <= (r->0).1 <= data@.len(),
    decreases n,
{
    if n == 0 {
        proof {
            assert(entries_view(Seq::<(Identifier, u64)>::empty()) =~= Seq::<(
                Seq<u8>,
                u64,
            )>::empty());
        }
        return Some((Vec::new(), pos));
    }
    if data.len() - pos < 8 {
        return None;
    }
    let klen64 = read_u64_be(data, pos);
    let rem = data.len() - pos - 8;
    if rem < 8 {
        return None;
    }
    if klen64 > (rem - 8) as u64 {
        return None;
    }
    let klen = klen64 as usize;
    let key_bytes = range_to_vec(data, pos + 8, pos + 8 + klen);
    let val = read_u64_be(data, pos + 8 + klen);
    let key_id = Identifier(key_bytes);
    let in_order = match prev {
        Option::None => true,
        Option::Some(p) => id_lt(p, &key_id),
    };
    if !in_order {
        return None;
    }
    let deeper = parse_entries(data, pos + 16 + klen, n - 1, Some(&key_id));
    match deeper {
        Option::None => None,
        Option::Some((mut rest, end)) => {
            let ghost rest0 = rest@;
            rest.insert(0, (key_id, val));
            proof {
                let sp = spec_parse_entries(data@, pos as int, n as int, spec_prev_view(prev));
                let key = data@.subrange(pos + 8, pos + 8 + klen as int);
                let sub = spec_parse_entries(data@, pos + 16 + klen, n - 1, Some(key));
                assert(sp == Some((seq![(key, val)] + (sub->0).0, (sub->0).1)));
                assert forall|j: int| 0 <= j < rest@.len() implies #[trigger] entries_view(
                    rest@,
                )[j] == (seq![(key, val)] + entries_view(rest0))[j] by {
                    if j == 0 {
                        assert(rest@[0] == (rest@[0].0, val));
                        assert(rest@[0].0@ == key);
                    } else {
                        assert(rest@[j] == rest0[j - 1]);
                    }
                }
                assert(entries_view(rest@) =~= seq![(key, val)] + entries_view(rest0));
            }
            Some((rest, end))
        },
    }
}

impl VClockTime {
    /// Serializes the snapshot: the entry count, then each entry as a
    /// length-prefixed key and its counter, in canonical key order. Always
    /// succeeds.
    pub fn to_bytes(&self) -> (r: Result<Vec<u8>, DecodeError>)
        ensures
            r is Ok,
            r->Ok_0@ == spec_vclock_encode(self@),
    {
        let mut out: Vec<u8> = Vec::new();
        push_u64_be(&mut out, self.entries.len() as u64);
        let body = encode_entries_from(&self.entries, 0);
        push_bytes(&mut out, &body);
        proof {
            assert(self@.skip(0) =~= self@);
            assert(out@ =~= spec_vclock_encode(self@));
        }
        Ok(out)
    }

    /// Deserializes a snapshot. Fails with a `DecodeError` exactly when the
    /// bytes are not one whole well-formed encoding (truncated input,
    /// malformed structure, out-of-order keys, or trailing bytes).
    pub fn from_bytes(data: &[u8]) -> (r: Result<Self, DecodeError>)
        ensures
            r is Ok <==> spec_vclock_decode(data@) is Some,
            r is Ok ==> r->Ok_0@ == spec_vclock_decode(data@)->0,
            r is Ok ==> r->Ok_0.wf(),
    {
        if data.len() < 8 {
            return Err(DecodeError);
        }
        let n = read_u64_be(data, 0);
        proof {
            assert(data@.subrange(0, 8) =~= data@.take(8));
        }
        match parse_entries(data, 8, n, None) {
            Option::None => Err(DecodeError),
            Option::Some((entries, end)) => {
                if end != data.len() {
                    return Err(DecodeError);
                }
                proof {
                    lemma_parse_entries_sorted(data@, 8, n as int, None);
                }
                Ok(VClockTime { entries })
            },
        }
    }
}

/// Whatever a successful parse yields is in canonical form: entries strictly
/// ascending, all past the tracker key.
pub proof fn lemma_parse_entries_sorted(d: Seq<u8>, pos: int, n: int, prev: Option<Seq<u8>>)
    ensures
        spec_parse_entries(d, pos, n, prev) is Some ==> {
            let m = (spec_parse_entries(d, pos, n, prev)->0).0;
            entries_sorted(m) && (prev is Some ==> forall|i: int|
                0 <= i < m.len() ==> lex_lt(prev->0, (#[trigger] m[i]).0))
        },
    decreases n,
{
    if n <= 0 {
    } else if spec_parse_entries(d, pos, n, prev) is Some {
        let klen = spec_u64_from_be_bytes(d.subrange(pos, pos + 8)) as int;
        let key = d.subrange(pos + 8, pos + 8 + klen);
        let val = spec_u64_from_be_bytes(d.subrange(pos + 8 + klen, pos + 16 + klen));
        lemma_parse_entries_sorted(d, pos + 16 + klen, n - 1, Some(key));
        let rest = (spec_parse_entries(d, pos + 16 + klen, n - 1, Some(key))->0).0;
        let m = (spec_parse_entries(d, pos, n, prev)->0).0;
        assert(m == seq![(key, val)] + rest);
        assert(m[0] == (key, val));
        assert(forall|i: int| 0 < i < m.len() ==> #[trigger] m[i] == rest[i - 1]);
        assert forall|i: int, j: int| 0 <= i < j < m.len() implies #[trigger] lex_lt(
            m[i].0,
            m[j].0,
        ) by {
            if i == 0 {
                assert(lex_lt(key, rest[j - 1].0));
            } else {
                assert(lex_lt(rest[i - 1].0, rest[j - 1].0));
            }
        }
        if prev is Some {
            assert forall|i: int| 0 <= i < m.len() implies lex_lt(
                prev->0,
                (#[trigger] m[i]).0,
            ) by {
                if i == 0 {
                    assert(lex_lt(prev->0, key));
                } else {
                    assert(lex_lt(prev->0, key));
                    assert(lex_lt(key, rest[i - 1].0));
                    lemma_lex_transitive(prev->0, key, rest[i - 1].0);
                }
            }
        }
    }
}

/// Parsing what was encoded gives back exactly the encoded entries: the
/// snapshot encoding round-trips for any content, the empty map included.
pub proof fn lemma_parse_encode_entries(m: Seq<(Seq<u8>, u64)>, d: Seq<u8>, pos: int, prev: Option<
    Seq<u8>,
>)
    requires
        entries_sorted(m),
        forall|i: int| 0 <= i < m.len() ==> (#[trigger] m[i]).0.len() <= u64::MAX,
        0 <= pos,
        d.len() == pos + spec_encode_entries(m).len(),
        d.subrange(pos, d.len() as int) == spec_encode_entries(m),
        prev is Some && m.len() > 0 ==> lex_lt(prev->0, m[0].0),
    ensures
        spec_parse_entries(d, pos, m.len() as int, prev) == Some((m, d.len() as int)),
    decreases m.len(),
{
    if m.len() == 0 {
        assert(spec_encode_entries(m).len() == 0);
        assert(spec_parse_entries(d, pos, 0, prev) == Some((Seq::<(Seq<u8>, u64)>::empty(), pos)));
        assert(m =~= Seq::<(Seq<u8>, u64)>::empty());
    } else {
        let e = spec_encode_entry(m[0]);
        let rest_enc = spec_encode_entries(m.drop_first());
        let kl = m[0].0.len() as int;
        assert(e.len() == 16 + kl);
        assert(d.subrange(pos, d.len() as int) == e + rest_enc);
        assert forall|x: int| 0 <= x < e.len() + rest_enc.len() implies #[trigger] d[pos + x] == (e
            + rest_enc)[x] by {
            assert(d.subrange(pos, d.len() as int)[x] == d[pos + x]);
        }
        let lenb = spec_u64_to_be_bytes(m[0].0.len() as u64);
        let keyb = m[0].0;
        let valb = spec_u64_to_be_bytes(m[0].1);
        assert(e == lenb + keyb + valb);
        assert forall|x: int| 0 <= x < e.len() implies #[trigger] (e + rest_enc)[x] == e[x] by {}
        assert forall|x: int| 0 <= x < 8 implies e[x] == lenb[x] by {
            assert((lenb + keyb + valb)[x] == (lenb + keyb)[x]);
            assert((lenb + keyb)[x] == lenb[x]);
        }
        assert forall|x: int| 0 <= x < kl implies e[8 + x] == keyb[x] by {
            assert((lenb + keyb + valb)[8 + x] == (lenb + keyb)[8 + x]);
            assert((lenb + keyb)[8 + x] == keyb[x]);
        }
        assert forall|x: int| 0 <= x < 8 implies e[8 + kl + x] == valb[x] by {
            assert((lenb + keyb + valb)[8 + kl + x] == valb[x]);
        }
        let whole = d.subrange(pos, d.len() as int);
        assert forall|x: int| 0 <= x < 8 implies d.subrange(pos, pos + 8)[x] == lenb[x] by {
            assert(d.subrange(pos, pos + 8)[x] == d[pos + x]);
            assert(whole[x] == d[pos + x]);
        }
        assert(d.subrange(pos, pos + 8) =~= lenb);
        lemma_u64_be_bytes_round_trip(m[0].0.len() as u64);
        let klen = spec_u64_from_be_bytes(d.subrange(pos, pos + 8)) as int;
        assert(klen == kl);
        assert(pos + 16 + klen <= d.len());
        assert forall|x: int| 0 <= x < kl implies d.subrange(pos + 8, pos + 8 + kl)[x]
            == keyb[x] by {
            assert(d.subrange(pos + 8, pos + 8 + kl)[x] == d[pos + 8 + x]);
            assert(whole[8 + x] == d[pos + (8 + x)]);
            assert(whole[8 + x] == e[8 + x]);
        }
        assert(d.subrange(pos + 8, pos + 8 + klen) =~= m[0].0);
        assert forall|x: int| 0 <= x < 8 implies d.subrange(pos + 8 + kl, pos + 16 + kl)[x]
            == valb[x] by {
            assert(d.subrange(pos + 8 + kl, pos + 16 + kl)[x] == d[pos + 8 + kl + x]);
            assert(whole[8 + kl + x] == d[pos + (8 + kl + x)]);
            assert(whole[8 + kl + x] == e[8 + kl + x]);
        }
        assert(d.subrange(pos + 8 + klen, pos + 16 + klen) =~= spec_u64_to_be_bytes(m[0].1));
        lemma_u64_be_bytes_round_trip(m[0].1);
        let key = d.subrange(pos + 8, pos + 8 + klen);
        let val = spec_u64_from_be_bytes(d.subrange(pos + 8 + klen, pos + 16 + klen));
        assert(key == m[0].0 && val == m[0].1);
        lemma_drop_first_sorted(m);
        assert(forall|i: int| 0 <= i < m.drop_first().len() ==> (#[trigger] m.drop_first()[i])
            == m[i + 1]);
        assert forall|x: int| 0 <= x < rest_enc.len() implies d.subrange(
            pos + 16 + kl,
            d.len() as int,
        )[x] == rest_enc[x] by {
            assert(d.subrange(pos + 16 + kl, d.len() as int)[x] == d[pos + 16 + kl + x]);
            assert(whole[16 + kl + x] == d[pos + (16 + kl + x)]);
            assert(whole[16 + kl + x] == (e + rest_enc)[e.len() + x]);
        }
        assert(d.subrange(pos + 16 + klen, d.len() as int) =~= rest_enc);
        lemma_parse_encode_entries(m.drop_first(), d, pos + 16 + klen, Some(key));
        assert(spec_parse_entries(d, pos + 16 + klen, m.len() - 1, Some(key)) == Some(
            (m.drop_first(), d.len() as int),
        ));
        assert(seq![(key, val)] + m.drop_first() =~= m) by {
            assert(m[0] == (m[0].0, m[0].1));
        }
    }
}

/// Decoding an encoded snapshot gives back exactly the snapshot content, for
/// any well-formed content, the empty map included.
pub proof fn lemma_vclock_codec_round_trip(m: Seq<(Seq<u8>, u64)>)
    requires
        entries_sorted(m),
        m.len() <= u64::MAX,
        forall|i: int| 0 <= i < m.len() ==> (#[trigger] m[i]).0.len() <= u64::MAX,
    ensures
        spec_vclock_decode(spec_vclock_encode(m)) == Some(m),
{
    let d = spec_vclock_encode(m);
    assert(d.len() == 8 + spec_encode_entries(m).len());
    assert(d.take(8) =~= spec_u64_to_be_bytes(m.len() as u64));
    lemma_u64_be_bytes_round_trip(m.len() as u64);
    assert(d.subrange(8, d.len() as int) =~= spec_encode_entries(m));
    lemma_parse_encode_entries(m, d, 8, None);
}

// ---------------------------------------------------------------------------
// Laws of the merge/compare algebra.
// ---------------------------------------------------------------------------

/// Merge is commutative: merging `a` into `b` and `b` into `a` produce the
/// same map content, and hence (in canonical sorted form) equal snapshots.
pub proof fn lemma_merge_commutative(
    a: Seq<(Seq<u8>, u64)>,
    b: Seq<(Seq<u8>, u64)>,
    ab: Seq<(Seq<u8>, u64)>,
    ba: Seq<(Seq<u8>, u64)>,
)
    requires
        entries_sorted(ab),
        entries_sorted(ba),
        forall|k: Seq<u8>| #[trigger] skey(ab, k) == spec_merge_lookup(a, b, k),
        forall|k: Seq<u8>| #[trigger] skey(ba, k) == spec_merge_lookup(b, a, k),
    ensures
        ab == ba,
{
    assert forall|k: Seq<u8>| #[trigger] skey(ab, k) == skey(ba, k) by {
        assert(skey(ab, k) == spec_merge_lookup(a, b, k));
        assert(skey(ba, k) == spec_merge_lookup(b, a, k));
    }
    lemma_sorted_canonical(ab, ba);
}

/// Merge is idempotent: merging the same clock in twice yields the same
/// content as merging it once.
pub proof fn lemma_merge_idempotent(
    a: Seq<(Seq<u8>, u64)>,
    b: Seq<(Seq<u8>, u64)>,
    ab: Seq<(Seq<u8>, u64)>,
    abb: Seq<(Seq<u8>, u64)>,
)
    requires
        entries_sorted(ab),
        entries_sorted(abb),
        forall|k: Seq<u8>| #[trigger] skey(ab, k) == spec_merge_lookup(a, b, k),
        forall|k: Seq<u8>| #[trigger] skey(abb, k) == spec_merge_lookup(ab, b, k),
    ensures
        abb == ab,
{
    assert forall|k: Seq<u8>| #[trigger] skey(abb, k) == skey(ab, k) by {
        assert(skey(ab, k) == spec_merge_lookup(a, b, k));
        assert(skey(abb, k) == spec_merge_lookup(ab, b, k));
    }
    lemma_sorted_canonical(abb, ab);
}

/// `happened_before` is antisymmetric: it never holds in both directions.
pub proof fn lemma_happened_before_antisymmetric(a: Seq<(Seq<u8>, u64)>, b: Seq<(Seq<u8>, u64)>)
    ensures
        !(spec_happened_before(a, b) && spec_happened_before(b, a)),
{
}

/// Comparing a snapshot with itself always yields `Equal`.
pub proof fn lemma_compare_self_equal(a: Seq<(Seq<u8>, u64)>)
    ensures
        spec_compare(a, a) == ClockOrdering::Equal,
{
    assert forall|k: Seq<u8>| #[trigger] sval(a, k) <= sval(a, k) by {}
}

} // verus!
