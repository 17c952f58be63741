//! The value model: a closed tagged union of every storable scalar, with a
//! canonical total order and a content hash that agrees with equality.
//!
//! Floating-point payloads are carried as their IEEE 754 bit patterns, so the
//! order and the hash are total, stable and deterministic on every machine.

use core::cmp::Ordering;
use vstd::prelude::*;

verus! {

/// A storable scalar value.
///
/// `Float` and `Float2` hold IEEE 754 bit patterns; the boundary converts
/// from and to `f64` outside the store.
#[derive(Debug)]
pub enum Something {
    Int(i64),
    Float(u64),
    Float2(u64, u64),
    Text(Vec<u8>),
    Blob(Vec<u8>),
    Null,
}

/// The mathematical shape of a `Something`: byte payloads as sequences.
pub enum ValView {
    Int(i64),
    Float(u64),
    Float2(u64, u64),
    Text(Seq<u8>),
    Blob(Seq<u8>),
    Null,
}

impl View for Something {
    type V = ValView;

    open spec fn view(&self) -> ValView {
        match self {
            Something::Int(x) => ValView::Int(*x),
            Something::Float(b) => ValView::Float(*b),
            Something::Float2(b0, b1) => ValView::Float2(*b0, *b1),
            Something::Text(s) => ValView::Text(s@),
            Something::Blob(s) => ValView::Blob(s@),
            Something::Null => ValView::Null,
        }
    }
}

/// The fixed ranking of the variants in the canonical total order:
/// `Null` orders before everything else, then `Int`, `Float`, `Float2`,
/// `Text`, `Blob`.
pub open spec fn rank_of(v: ValView) -> int {
    match v {
        ValView::Null => 0,
        ValView::Int(_) => 1,
        ValView::Float(_) => 2,
        ValView::Float2(_, _) => 3,
        ValView::Text(_) => 4,
        ValView::Blob(_) => 5,
    }
}

/// Strict lexicographic order on byte sequences.
pub open spec fn bytes_lt(a: Seq<u8>, b: Seq<u8>) -> bool
    decreases a.len(),
{
    if b.len() == 0 {
        false
    } else if a.len() == 0 {
        true
    } else if a[0] != b[0] {
        a[0] < b[0]
    } else {
        bytes_lt(a.drop_first(), b.drop_first())
    }
}

/// The canonical strict total order on values: by rank first, then within a
/// variant by the natural order of the payload (numeric for integers and bit
/// patterns, lexicographic bytes for text and blobs).
pub open spec fn val_lt(a: ValView, b: ValView) -> bool {
    if rank_of(a) != rank_of(b) {
        rank_of(a) < rank_of(b)
    } else {
        match (a, b) {
            (ValView::Int(x), ValView::Int(y)) => x < y,
            (ValView::Float(x), ValView::Float(y)) => x < y,
            (ValView::Float2(x0, x1), ValView::Float2(y0, y1)) => x0 < y0 || (x0 == y0 && x1
                < y1),
            (ValView::Text(x), ValView::Text(y)) => bytes_lt(x, y),
            (ValView::Blob(x), ValView::Blob(y)) => bytes_lt(x, y),
            _ => false,
        }
    }
}

/// At most one of `bytes_lt(a, b)`, `bytes_lt(b, a)`, `a == b` holds, and at
/// least one does.
pub proof fn lemma_bytes_lt_trichotomy(a: Seq<u8>, b: Seq<u8>)
    ensures
        a == b ==> !bytes_lt(a, b) && !bytes_lt(b, a),
        a != b ==> bytes_lt(a, b) != bytes_lt(b, a),
    decreases a.len(),
{
    if a.len() == 0 || b.len() == 0 {
        if a.len() == b.len() {
            assert(a =~= b);
        }
    } else {
        lemma_bytes_lt_trichotomy(a.drop_first(), b.drop_first());
        if a[0] == b[0] && a.drop_first() == b.drop_first() {
            assert(a.len() == b.len());
            assert forall|i: int| 0 <= i < a.len() implies a[i] == b[i] by {
                if i >= 1 {
                    assert(a[i] == a.drop_first()[i - 1]);
                    assert(b[i] == b.drop_first()[i - 1]);
                }
            }
            assert(a =~= b);
        }
    }
}

/// Lexicographic order on byte sequences is transitive.
pub proof fn lemma_bytes_lt_transitive(a: Seq<u8>, b: Seq<u8>, c: Seq<u8>)
    requires
        bytes_lt(a, b),
        bytes_lt(b, c),
    ensures
        bytes_lt(a, c),
    decreases a.len(),
{
    if a.len() != 0 && b.len() != 0 && c.len() != 0 {
        if a[0] == b[0] && b[0] == c[0] {
            lemma_bytes_lt_transitive(a.drop_first(), b.drop_first(), c.drop_first());
        }
    }
}

/// The canonical order is irreflexive and connects any two distinct values:
/// exactly one of `val_lt(a, b)`, `val_lt(b, a)`, `a == b` holds.
pub proof fn lemma_val_order_trichotomy(a: ValView, b: ValView)
    ensures
        a == b ==> !val_lt(a, b) && !val_lt(b, a),
        a != b ==> val_lt(a, b) != val_lt(b, a),
{
    match (a, b) {
        (ValView::Text(x), ValView::Text(y)) => {
            lemma_bytes_lt_trichotomy(x, y);
        },
        (ValView::Blob(x), ValView::Blob(y)) => {
            lemma_bytes_lt_trichotomy(x, y);
        },
        _ => {},
    }
}

/// The canonical order is transitive.
pub proof fn lemma_val_order_transitive(a: ValView, b: ValView, c: ValView)
    requires
        val_lt(a, b),
        val_lt(b, c),
    ensures
        val_lt(a, c),
{
    match (a, b) {
        (ValView::Text(x), ValView::Text(y)) => {
            if let ValView::Text(z) = c {
                lemma_bytes_lt_transitive(x, y, z);
            }
        },
        (ValView::Blob(x), ValView::Blob(y)) => {
            if let ValView::Blob(z) = c {
                lemma_bytes_lt_transitive(x, y, z);
            }
        },
        _ => {},
    }
}

/// With the first `k` bytes equal and the bytes at `k` distinct, the
/// lexicographic order is decided at position `k`.
pub proof fn lemma_bytes_lt_at_index(a: Seq<u8>, b: Seq<u8>, k: int)
    requires
        0 <= k < a.len(),
        k < b.len(),
        forall|i: int| 0 <= i < k ==> a[i] == b[i],
        a[k] != b[k],
    ensures
        bytes_lt(a, b) == (a[k] < b[k]),
    decreases k,
{
    if k > 0 {
        assert(forall|i: int|
            0 <= i < k - 1 ==> #[trigger] a.drop_first()[i] == a[i + 1]
                && b.drop_first()[i] == b[i + 1]);
        assert(a.drop_first()[k - 1] == a[k] && b.drop_first()[k - 1] == b[k]);
        lemma_bytes_lt_at_index(a.drop_first(), b.drop_first(), k - 1);
    }
}

/// With one sequence a prefix of the other, the shorter one orders first.
pub proof fn lemma_bytes_lt_prefix(a: Seq<u8>, b: Seq<u8>, k: int)
    requires
        0 <= k <= a.len(),
        k <= b.len(),
        k == a.len() || k == b.len(),
        forall|i: int| 0 <= i < k ==> a[i] == b[i],
    ensures
        bytes_lt(a, b) == (a.len() < b.len()),
        a.len() == b.len() ==> a == b,
    decreases k,
{
    if k > 0 {
        assert(forall|i: int|
            0 <= i < k - 1 ==> #[trigger] a.drop_first()[i] == a[i + 1]
                && b.drop_first()[i] == b[i + 1]);
        lemma_bytes_lt_prefix(a.drop_first(), b.drop_first(), k - 1);
        if a.len() == b.len() {
            assert forall|i: int| 0 <= i < a.len() implies a[i] == b[i] by {
                if i >= 1 {
                    assert(a[i] == a.drop_first()[i - 1]);
                    assert(b[i] == b.drop_first()[i - 1]);
                }
            }
            assert(a =~= b);
        }
    } else {
        if a.len() == b.len() {
            assert(a =~= b);
        }
    }
}

/// Compares two byte strings in lexicographic order.
fn bytes_cmp(a: &Vec<u8>, b: &Vec<u8>) -> (o: Ordering)
    ensures
        o == Ordering::Less <==> bytes_lt(a@, b@),
        o == Ordering::Greater <==> bytes_lt(b@, a@),
        o == Ordering::Equal <==> a@ == b@,
{
    let mut i: usize = 0;
    loop
        invariant
            0 <= i <= a.len(),
            i <= b.len(),
            forall|j: int| 0 <= j < i ==> a@[j] == b@[j],
        decreases a.len() - i,
    {
        if i == a.len() || i == b.len() {
            proof {
                lemma_bytes_lt_prefix(a@, b@, i as int);
                lemma_bytes_lt_prefix(b@, a@, i as int);
            }
            if a.len() < b.len() {
                return Ordering::Less;
            } else if b.len() < a.len() {
                return Ordering::Greater;
            } else {
                return Ordering::Equal;
            }
        }
        if a[i] != b[i] {
            proof {
                lemma_bytes_lt_at_index(a@, b@, i as int);
                lemma_bytes_lt_at_index(b@, a@, i as int);
                lemma_bytes_lt_trichotomy(a@, b@);
            }
            if a[i] < b[i] {
                return Ordering::Less;
            } else {
                return Ordering::Greater;
            }
        }
        i = i + 1;
    }
}

impl Something {
    /// The tag byte that identifies the variant; it is mixed into the hash
    /// ahead of the payload so that values of different variants never
    /// collide by payload alone.
    pub fn tag(&self) -> (t: u8)
        ensures
            t == rank_of(self@),
    {
        match self {
            Something::Null => 0,
            Something::Int(_) => 1,
            Something::Float(_) => 2,
            Something::Float2(_, _) => 3,
            Something::Text(_) => 4,
            Something::Blob(_) => 5,
        }
    }

    /// Wraps a byte string as a text value.
    pub fn string(s: Vec<u8>) -> (r: Something)
        ensures
            r@ == ValView::Text(s@),
    {
        Something::Text(s)
    }

    /// Compares two values in the canonical total order.
    pub fn cmp_canonical(&self, other: &Something) -> (o: Ordering)
        ensures
            o == Ordering::Less <==> val_lt(self@, other@),
            o == Ordering::Greater <==> val_lt(other@, self@),
            o == Ordering::Equal <==> self@ == other@,
    {
        proof {
            lemma_val_order_trichotomy(self@, other@);
        }
        let ta = self.tag();
        let tb = other.tag();
        if ta < tb {
            return Ordering::Less;
        }
        if tb < ta {
            return Ordering::Greater;
        }
        match (self, other) {
            (Something::Int(x), Something::Int(y)) => {
                if x < y {
                    Ordering::Less
                } else if y < x {
                    Ordering::Greater
                } else {
                    Ordering::Equal
                }
            },
            (Something::Float(x), Something::Float(y)) => {
                if x < y {
                    Ordering::Less
                } else if y < x {
                    Ordering::Greater
                } else {
                    Ordering::Equal
                }
            },
            (Something::Float2(x0, x1), Something::Float2(y0, y1)) => {
                if x0 < y0 {
                    Ordering::Less
                } else if y0 < x0 {
                    Ordering::Greater
                } else if x1 < y1 {
                    Ordering::Less
                } else if y1 < x1 {
                    Ordering::Greater
                } else {
                    Ordering::Equal
                }
            },
            (Something::Text(x), Something::Text(y)) => bytes_cmp(x, y),
            (Something::Blob(x), Something::Blob(y)) => bytes_cmp(x, y),
            _ => Ordering::Equal,
        }
    }

    /// True when `self` orders strictly before `other` in the canonical
    /// total order.
    pub fn lt_canonical(&self, other: &Something) -> (r: bool)
        ensures
            r == val_lt(self@, other@),
    {
        matches!(self.cmp_canonical(other), Ordering::Less)
    }
}

impl Clone for Something {
    /// A clone carries exactly the same abstract value.
    fn clone(&self) -> (r: Self)
        ensures
            r@ == self@,
    {
        match self {
            Something::Int(x) => Something::Int(*x),
            Something::Float(b) => Something::Float(*b),
            Something::Float2(b0, b1) => Something::Float2(*b0, *b1),
            Something::Text(s) => {
                let c = s.clone();
                proof {
                    assert(c@ =~= s@);
                }
                Something::Text(c)
            },
            Something::Blob(s) => {
                let c = s.clone();
                proof {
                    assert(c@ =~= s@);
                }
                Something::Blob(c)
            },
            Something::Null => Something::Null,
        }
    }
}

impl PartialEq for Something {
    /// `==` decides equality of the abstract values.
    fn eq(&self, other: &Self) -> (r: bool)
        ensures
            r == (self@ == other@),
    {
        matches!(self.cmp_canonical(other), Ordering::Equal)
    }
}

impl vstd::std_specs::cmp::PartialEqSpecImpl for Something {
    open spec fn obeys_eq_spec() -> bool {
        true
    }

    open spec fn eq_spec(&self, other: &Something) -> bool {
        self@ == other@
    }
}

impl Default for Something {
    /// The default value is `Null`.
    fn default() -> (r: Self)
        ensures
            r@ == ValView::Null,
    {
        Something::Null
    }
}

/// Seed of the 64-bit FNV-1a hash.
pub const FNV_SEED: u64 = 0xcbf29ce484222325;

/// Multiplier of the 64-bit FNV-1a hash.
pub const FNV_PRIME: u64 = 0x100000001b3;

/// One FNV-1a round: fold `x` into the running hash `h`.
pub open spec fn spec_mix64(h: u64, x: u64) -> u64 {
    ((((h ^ x) as int) * (FNV_PRIME as int)) % 0x10000000000000000) as u64
}

/// The two's-complement image of a signed 64-bit integer.
pub open spec fn spec_u64_of_i64(x: i64) -> u64 {
    if x >= 0 {
        x as u64
    } else {
        (x + 0x10000000000000000) as u64
    }
}

/// Folds a byte sequence into the running hash, first byte first.
pub open spec fn spec_hash_bytes(h: u64, s: Seq<u8>) -> u64
    decreases s.len(),
{
    if s.len() == 0 {
        h
    } else {
        spec_hash_bytes(spec_mix64(h, s[0] as u64), s.drop_first())
    }
}

/// The deterministic content hash of a value: the variant's rank, then its
/// payload, folded into an FNV-1a state. A pure function of the abstract
/// value, so equal values always hash alike.
pub open spec fn val_hash(v: ValView) -> u64 {
    let h = spec_mix64(FNV_SEED, rank_of(v) as u64);
    match v {
        ValView::Int(x) => spec_mix64(h, spec_u64_of_i64(x)),
        ValView::Float(b) => spec_mix64(h, b),
        ValView::Float2(b0, b1) => spec_mix64(spec_mix64(h, b0), b1),
        ValView::Text(s) => spec_hash_bytes(h, s),
        ValView::Blob(s) => spec_hash_bytes(h, s),
        ValView::Null => h,
    }
}

/// The hash agrees with equality: values with the same abstract content
/// hash to the same 64-bit word.
pub proof fn lemma_hash_agrees_with_equality(a: ValView, b: ValView)
    requires
        a == b,
    ensures
        val_hash(a) == val_hash(b),
{
}

/// One FNV-1a round, executable.
pub fn mix64(h: u64, x: u64) -> (r: u64)
    ensures
        r == spec_mix64(h, x),
{
    let wide: u128 = ((h ^ x) as u128) * (FNV_PRIME as u128);
    let low: u128 = wide % 0x10000000000000000;
    proof {
        assert(wide == ((h ^ x) as int) * (FNV_PRIME as int));
    }
    low as u64
}

/// Folds a byte string into the running hash, executable.
fn hash_bytes(h0: u64, s: &Vec<u8>) -> (r: u64)
    ensures
        r == spec_hash_bytes(h0, s@),
{
    let mut h = h0;
    let mut i: usize = 0;
    proof {
        assert(s@.skip(0) =~= s@);
    }
    while i < s.len()
        invariant
            0 <= i <= s.len(),
            spec_hash_bytes(h, s@.skip(i as int)) == spec_hash_bytes(h0, s@),
        decreases s.len() - i,
    {
        proof {
            assert(s@.skip(i as int).drop_first() =~= s@.skip(i as int + 1));
            assert(s@.skip(i as int)[0] == s@[i as int]);
        }
        h = mix64(h, s[i] as u64);
        i = i + 1;
    }
    proof {
        assert(s@.skip(s@.len() as int) =~= Seq::<u8>::empty());
    }
    h
}

impl Something {
    /// The deterministic 64-bit content hash of this value.
    pub fn hash64(&self) -> (r: u64)
        ensures
            r == val_hash(self@),
    {
        let h = mix64(FNV_SEED, self.tag() as u64);
        match self {
            Something::Int(x) => {
                let bits: u64 = if *x >= 0 {
                    *x as u64
                } else {
                    let off: i128 = (*x as i128) + 0x10000000000000000;
                    off as u64
                };
                mix64(h, bits)
            },
            Something::Float(b) => mix64(h, *b),
            Something::Float2(b0, b1) => mix64(mix64(h, *b0), *b1),
            Something::Text(s) => hash_bytes(h, s),
            Something::Blob(s) => hash_bytes(h, s),
            Something::Null => h,
        }
    }
}

} // verus!
