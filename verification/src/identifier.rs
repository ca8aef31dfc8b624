use vstd::prelude::*;
use base64::Engine;

verus! {

/// An opaque process identifier: an immutable byte sequence. Equality and the
/// total order used for tie-breaking are byte-lexicographic. The library never
/// enforces uniqueness; callers are responsible for avoiding collisions.
#[derive(Debug, Clone, PartialEq, Eq, Hash)]
pub struct Identifier(pub Vec<u8>);

impl View for Identifier {
    type V = Seq<u8>;

    open spec fn view(&self) -> Seq<u8> {
        self.0@
    }
}

/// Strict byte-lexicographic order on byte sequences: a proper prefix comes
/// first, otherwise the first differing byte decides.
pub open spec fn lex_lt(a: Seq<u8>, b: Seq<u8>) -> bool
    decreases a.len(),
{
    if b.len() == 0 {
        false
    } else if a.len() == 0 {
        true
    } else if a[0] < b[0] {
        true
    } else if a[0] > b[0] {
        false
    } else {
        lex_lt(a.drop_first(), b.drop_first())
    }
}

/// Exactly one of `lex_lt(a, b)`, `lex_lt(b, a)` and `a == b` holds:
/// `lex_lt` is a strict total order on byte sequences.
pub proof fn lemma_lex_trichotomy(a: Seq<u8>, b: Seq<u8>)
    ensures
        lex_lt(a, b) || lex_lt(b, a) || a == b,
        lex_lt(a, b) ==> !lex_lt(b, a) && a != b,
        lex_lt(b, a) ==> !lex_lt(a, b) && a != b,
    decreases a.len(),
{
    if b.len() == 0 && a.len() == 0 {
        assert(a =~= b);
    } else if a.len() > 0 && b.len() > 0 && a[0] == b[0] {
        lemma_lex_trichotomy(a.drop_first(), b.drop_first());
        if a.drop_first() == b.drop_first() {
            assert(a.len() == b.len());
            assert forall|i: int| 0 <= i < a.len() implies a[i] == b[i] by {
                if i > 0 {
                    assert(a[i] == a.drop_first()[i - 1]);
                    assert(b[i] == b.drop_first()[i - 1]);
                }
            }
            assert(a =~= b);
        }
        if a == b {
            assert(a.drop_first() =~= b.drop_first());
        }
    } else {
        if a == b {
            assert(a.len() == b.len());
            if a.len() > 0 {
                assert(a[0] == b[0]);
            }
        }
    }
}

/// `lex_lt` is transitive.
pub proof fn lemma_lex_transitive(a: Seq<u8>, b: Seq<u8>, c: Seq<u8>)
    requires
        lex_lt(a, b),
        lex_lt(b, c),
    ensures
        lex_lt(a, c),
    decreases a.len(),
{
    if a.len() == 0 {
        assert(c.len() > 0);
    } else {
        assert(b.len() > 0 && c.len() > 0);
        if a[0] == b[0] && b[0] == c[0] {
            lemma_lex_transitive(a.drop_first(), b.drop_first(), c.drop_first());
        }
    }
}

fn lex_lt_from(a: &Vec<u8>, b: &Vec<u8>, i: usize) -> (r: bool)
    requires
        i <= a@.len(),
        i <= b@.len(),
    ensures
        r == lex_lt(a@.skip(i as int), b@.skip(i as int)),
    decreases a@.len() - i,
{
    proof {
        assert(a@.skip(i as int).len() == a@.len() - i);
        assert(b@.skip(i as int).len() == b@.len() - i);
    }
    if i == b.len() {
        false
    } else if i == a.len() {
        true
    } else {
        proof {
            assert(a@.skip(i as int)[0] == a@[i as int]);
            assert(b@.skip(i as int)[0] == b@[i as int]);
        }
        if a[i] < b[i] {
            true
        } else if a[i] > b[i] {
            false
        } else {
            proof {
                assert(a@.skip(i as int).drop_first() =~= a@.skip(i + 1));
                assert(b@.skip(i as int).drop_first() =~= b@.skip(i + 1));
            }
            lex_lt_from(a, b, i + 1)
        }
    }
}

/// Executable strict byte-lexicographic comparison of two identifiers.
pub fn id_lt(a: &Identifier, b: &Identifier) -> (r: bool)
    ensures
        r == lex_lt(a@, b@),
{
    proof {
        assert(a@.skip(0) =~= a@);
        assert(b@.skip(0) =~= b@);
    }
    lex_lt_from(&a.0, &b.0, 0)
}

fn bytes_eq_from(a: &Vec<u8>, b: &Vec<u8>, i: usize) -> (r: bool)
    requires
        a@.len() == b@.len(),
        i <= a@.len(),
    ensures
        r == (a@.skip(i as int) =~= b@.skip(i as int)),
    decreases a@.len() - i,
{
    if i == a.len() {
        proof {
            assert(a@.skip(i as int) =~= b@.skip(i as int));
        }
        true
    } else {
        proof {
            assert(a@.skip(i as int)[0] == a@[i as int]);
            assert(b@.skip(i as int)[0] == b@[i as int]);
        }
        if a[i] != b[i] {
            false
        } else {
            proof {
                assert(a@.skip(i as int).drop_first() =~= a@.skip(i + 1));
                assert(b@.skip(i as int).drop_first() =~= b@.skip(i + 1));
            }
            let r = bytes_eq_from(a, b, i + 1);
            proof {
                if r {
                    assert(a@.skip(i as int) =~= b@.skip(i as int)) by {
                        assert(forall|j: int|
                            0 < j < a@.skip(i as int).len() ==> #[trigger] a@.skip(i as int)[j]
                                == a@.skip(i + 1)[j - 1]);
                        assert(forall|j: int|
                            0 < j < b@.skip(i as int).len() ==> #[trigger] b@.skip(i as int)[j]
                                == b@.skip(i + 1)[j - 1]);
                    }
                } else {
                    assert(a@.skip(i as int).drop_first() == a@.skip(i + 1));
                }
            }
            r
        }
    }
}

/// Executable byte-for-byte equality of two identifiers.
pub fn id_eq(a: &Identifier, b: &Identifier) -> (r: bool)
    ensures
        r == (a@ == b@),
{
    if a.0.len() != b.0.len() {
        false
    } else {
        proof {
            assert(a@.skip(0) =~= a@);
            assert(b@.skip(0) =~= b@);
        }
        let r = bytes_eq_from(&a.0, &b.0, 0);
        proof {
            if a@ == b@ {
                assert(a@.skip(0) =~= b@.skip(0));
            }
        }
        r
    }
}

/// The hyphenated lowercase text of a 16-byte UUID; a function of the bytes
/// alone, computed by the uuid crate.
pub uninterp spec fn uuid_text_of(bytes: Seq<u8>) -> Seq<char>;

/// The standard padded base64 text of a byte sequence; a function of the bytes
/// alone, computed by the base64 crate.
pub uninterp spec fn base64_text_of(bytes: Seq<u8>) -> Seq<char>;

/// The human-readable rendering of an identifier: canonical UUID text when the
/// bytes are exactly the 16 of a UUID, standard base64 text otherwise.
pub open spec fn spec_render(bytes: Seq<u8>) -> Seq<char> {
    if bytes.len() == 16 {
        uuid_text_of(bytes)
    } else {
        base64_text_of(bytes)
    }
}

/// Relies on uuid::Uuid::new_v4: a freshly generated random version-4 UUID is
/// always exactly 16 bytes. Nothing more can be promised of a random value.
#[verifier::external_body]
fn random_uuid_bytes() -> (r: Vec<u8>)
    ensures
        r@.len() == 16,
{
    uuid::Uuid::new_v4().as_bytes().to_vec()
}

/// Relies on uuid::Uuid::from_slice, which succeeds exactly on 16-byte input,
/// and on uuid::Uuid's Display rendering (hyphenated lowercase hex), which is a
/// function of the 16 bytes alone.
#[verifier::external_body]
fn render_uuid(bytes: &Vec<u8>) -> (r: Option<String>)
    ensures
        r is Some <==> bytes@.len() == 16,
        r is Some ==> r->0@ == uuid_text_of(bytes@),
{
    match uuid::Uuid::from_slice(bytes) {
        Ok(u) => Some(u.to_string()),
        Err(_) => None,
    }
}

/// Relies on base64::engine::general_purpose::STANDARD.encode: standard padded
/// base64, a function of the bytes alone, four output characters for every
/// three input bytes rounded up. It panics when that length overflows usize,
/// so such inputs are excluded.
#[verifier::external_body]
fn b64_encode(bytes: &Vec<u8>) -> (r: String)
    requires
        4 * ((bytes@.len() + 2) / 3) <= usize::MAX,
    ensures
        r@ == base64_text_of(bytes@),
        r@.len() == 4 * ((bytes@.len() + 2) / 3),
{
    base64::engine::general_purpose::STANDARD.encode(bytes)
}

impl Identifier {
    /// Creates a new Identifier with random UUID content.
    pub fn new() -> (r: Self)
        ensures
            r@.len() == 16,
    {
        Identifier(random_uuid_bytes())
    }

    /// A copy of this identifier with the same bytes.
    pub fn duplicate(&self) -> (r: Self)
        ensures
            r@ == self@,
    {
        Identifier(self.0.clone())
    }

    /// Creates an Identifier from a byte vector; any length, no validation.
    pub fn from_bytes(bytes: Vec<u8>) -> (r: Self)
        ensures
            r@ == bytes@,
    {
        Identifier(bytes)
    }

    /// Converts the Identifier to a string: canonical UUID text for 16-byte
    /// content, standard base64 otherwise. Display only; equality and order
    /// always go by the raw bytes.
    pub fn to_string(&self) -> (r: String)
        requires
            4 * ((self@.len() + 2) / 3) <= usize::MAX,
        ensures
            r@ == spec_render(self@),
    {
        match render_uuid(&self.0) {
            Some(s) => s,
            None => b64_encode(&self.0),
        }
    }
}

impl Default for Identifier {
    /// A fresh random identifier, like `Identifier::new`.
    fn default() -> (r: Self)
        ensures
            r@.len() == 16,
    {
        Identifier::new()
    }
}

} // verus!
