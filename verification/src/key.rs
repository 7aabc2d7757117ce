use vstd::prelude::*;
use vstd::string::*;

verus! {

/// How one key stands to another.
#[derive(Clone, Copy, Debug, PartialEq, Eq)]
pub enum KeyOrder {
    Less,
    Equal,
    Greater,
}

/// A type with a strict total order: what keys are told apart and
/// sorted by.
///
/// `key_lt` is the order. `order_laws` obliges every implementation to
/// show that it is irreflexive, transitive and total, so the tree's proofs
/// may use those three facts of any such type.
pub trait Ordered: Sized {
    /// `self` sorts strictly before `other`.
    spec fn key_lt(self, other: Self) -> bool;

    /// `key_lt` is a strict total order.
    proof fn order_laws()
        ensures
            forall|a: Self| !(#[trigger] a.key_lt(a)),
            forall|a: Self, b: Self, c: Self|
                #[trigger] a.key_lt(b) && #[trigger] b.key_lt(c) ==> a.key_lt(c),
            forall|a: Self, b: Self| a == b || #[trigger] a.key_lt(b) || b.key_lt(a),
    ;
}

/// A key of the tree: a value that stands for an identity, with a way to
/// decide the order of two identities and to make another key of the same
/// identity.
///
/// Two keys are the same key to the tree if their identities are equal.
/// For a number the identity is the number; for a string of bytes it is
/// the sequence of its bytes.
pub trait BPlusKey: Sized {
    /// What the key stands for.
    type Id: Ordered;

    /// The identity of the key.
    spec fn id(&self) -> Self::Id;

    /// Decides the order of two keys.
    fn compare(&self, other: &Self) -> (o: KeyOrder)
        ensures
            o is Less <==> self.id().key_lt(other.id()),
            o is Equal <==> self.id() == other.id(),
            o is Greater <==> other.id().key_lt(self.id()),
    ;

    /// Another key of the same identity.
    fn duplicate(&self) -> (k: Self)
        ensures
            k.id() == self.id(),
    ;
}

/// The identities of keys, one for one.
pub open spec fn ids<K: BPlusKey>(keys: Seq<K>) -> Seq<K::Id> {
    keys.map_values(|k: K| k.id())
}

/// `a < b < c` gives `a < c`.
pub proof fn lemma_lt_lt<K: Ordered>(a: K, b: K, c: K)
    requires
        a.key_lt(b),
        b.key_lt(c),
    ensures
        a.key_lt(c),
{
    K::order_laws();
}

/// `a <= b < c` gives `a < c`.
pub proof fn lemma_le_lt<K: Ordered>(a: K, b: K, c: K)
    requires
        !b.key_lt(a),
        b.key_lt(c),
    ensures
        a.key_lt(c),
{
    K::order_laws();
}

/// `a < b <= c` gives `a < c`.
pub proof fn lemma_lt_le<K: Ordered>(a: K, b: K, c: K)
    requires
        a.key_lt(b),
        !c.key_lt(b),
    ensures
        a.key_lt(c),
{
    K::order_laws();
}

/// No key sorts before itself, and of two keys that differ one sorts before
/// the other, never both.
pub proof fn lemma_trichotomy<K: Ordered>(a: K, b: K)
    ensures
        !a.key_lt(a),
        a == b || a.key_lt(b) || b.key_lt(a),
        !(a.key_lt(b) && b.key_lt(a)),
{
    K::order_laws();
}

impl Ordered for u8 {
    open spec fn key_lt(self, other: Self) -> bool {
        self < other
    }

    proof fn order_laws() {
    }
}

impl BPlusKey for u8 {
    type Id = u8;

    open spec fn id(&self) -> u8 {
        *self
    }

    fn compare(&self, other: &Self) -> (o: KeyOrder) {
        if *self < *other {
            KeyOrder::Less
        } else if *self == *other {
            KeyOrder::Equal
        } else {
            KeyOrder::Greater
        }
    }

    fn duplicate(&self) -> (k: Self) {
        *self
    }
}

impl Ordered for u16 {
    open spec fn key_lt(self, other: Self) -> bool {
        self < other
    }

    proof fn order_laws() {
    }
}

impl BPlusKey for u16 {
    type Id = u16;

    open spec fn id(&self) -> u16 {
        *self
    }

    fn compare(&self, other: &Self) -> (o: KeyOrder) {
        if *self < *other {
            KeyOrder::Less
        } else if *self == *other {
            KeyOrder::Equal
        } else {
            KeyOrder::Greater
        }
    }

    fn duplicate(&self) -> (k: Self) {
        *self
    }
}

impl Ordered for u32 {
    open spec fn key_lt(self, other: Self) -> bool {
        self < other
    }

    proof fn order_laws() {
    }
}

impl BPlusKey for u32 {
    type Id = u32;

    open spec fn id(&self) -> u32 {
        *self
    }

    fn compare(&self, other: &Self) -> (o: KeyOrder) {
        if *self < *other {
            KeyOrder::Less
        } else if *self == *other {
            KeyOrder::Equal
        } else {
            KeyOrder::Greater
        }
    }

    fn duplicate(&self) -> (k: Self) {
        *self
    }
}

impl Ordered for u64 {
    open spec fn key_lt(self, other: Self) -> bool {
        self < other
    }

    proof fn order_laws() {
    }
}

impl BPlusKey for u64 {
    type Id = u64;

    open spec fn id(&self) -> u64 {
        *self
    }

    fn compare(&self, other: &Self) -> (o: KeyOrder) {
        if *self < *other {
            KeyOrder::Less
        } else if *self == *other {
            KeyOrder::Equal
        } else {
            KeyOrder::Greater
        }
    }

    fn duplicate(&self) -> (k: Self) {
        *self
    }
}

impl Ordered for u128 {
    open spec fn key_lt(self, other: Self) -> bool {
        self < other
    }

    proof fn order_laws() {
    }
}

impl BPlusKey for u128 {
    type Id = u128;

    open spec fn id(&self) -> u128 {
        *self
    }

    fn compare(&self, other: &Self) -> (o: KeyOrder) {
        if *self < *other {
            KeyOrder::Less
        } else if *self == *other {
            KeyOrder::Equal
        } else {
            KeyOrder::Greater
        }
    }

    fn duplicate(&self) -> (k: Self) {
        *self
    }
}

impl Ordered for usize {
    open spec fn key_lt(self, other: Self) -> bool {
        self < other
    }

    proof fn order_laws() {
    }
}

impl BPlusKey for usize {
    type Id = usize;

    open spec fn id(&self) -> usize {
        *self
    }

    fn compare(&self, other: &Self) -> (o: KeyOrder) {
        if *self < *other {
            KeyOrder::Less
        } else if *self == *other {
            KeyOrder::Equal
        } else {
            KeyOrder::Greater
        }
    }

    fn duplicate(&self) -> (k: Self) {
        *self
    }
}

impl Ordered for i32 {
    open spec fn key_lt(self, other: Self) -> bool {
        self < other
    }

    proof fn order_laws() {
    }
}

impl BPlusKey for i32 {
    type Id = i32;

    open spec fn id(&self) -> i32 {
        *self
    }

    fn compare(&self, other: &Self) -> (o: KeyOrder) {
        if *self < *other {
            KeyOrder::Less
        } else if *self == *other {
            KeyOrder::Equal
        } else {
            KeyOrder::Greater
        }
    }

    fn duplicate(&self) -> (k: Self) {
        *self
    }
}

impl Ordered for i64 {
    open spec fn key_lt(self, other: Self) -> bool {
        self < other
    }

    proof fn order_laws() {
    }
}

impl BPlusKey for i64 {
    type Id = i64;

    open spec fn id(&self) -> i64 {
        *self
    }

    fn compare(&self, other: &Self) -> (o: KeyOrder) {
        if *self < *other {
            KeyOrder::Less
        } else if *self == *other {
            KeyOrder::Equal
        } else {
            KeyOrder::Greater
        }
    }

    fn duplicate(&self) -> (k: Self) {
        *self
    }
}

/// `a` comes before `b` in the order of a dictionary: at the first place
/// where the two differ `a` holds the smaller byte, or `a` ends where `b`
/// goes on.
pub open spec fn lex_lt(a: Seq<u8>, b: Seq<u8>) -> bool {
    ||| exists|i: int| differ_first_at(a, b, i) && a[i] < b[i]
    ||| begins(a, b) && a.len() < b.len()
}

/// `i` is the first place at which `a` and `b` differ.
pub open spec fn differ_first_at(a: Seq<u8>, b: Seq<u8>, i: int) -> bool {
    &&& 0 <= i < a.len()
    &&& i < b.len()
    &&& a[i] != b[i]
    &&& forall|j: int| 0 <= j < i ==> a[j] == b[j]
}

/// `b` begins with `a`.
pub open spec fn begins(a: Seq<u8>, b: Seq<u8>) -> bool {
    &&& a.len() <= b.len()
    &&& forall|j: int| 0 <= j < a.len() ==> a[j] == b[j]
}

/// Two rows of bytes that differ somewhere below `n` differ first at some
/// place.
proof fn lemma_first_difference(a: Seq<u8>, b: Seq<u8>, n: int) -> (i: int)
    requires
        0 <= n < a.len(),
        n < b.len(),
        a[n] != b[n],
    ensures
        differ_first_at(a, b, i),
    decreases n,
{
    if exists|j: int| 0 <= j < n && a[j] != b[j] {
        let j = choose|j: int| 0 <= j < n && a[j] != b[j];
        lemma_first_difference(a, b, j)
    } else {
        n
    }
}

/// Two rows of bytes are equal, or differ first at some place, or one
/// begins with the other and is shorter.
proof fn lemma_lex_cases(a: Seq<u8>, b: Seq<u8>)
    ensures
        a == b || (exists|i: int| differ_first_at(a, b, i)) || (begins(a, b) && a.len() < b.len())
            || (begins(b, a) && b.len() < a.len()),
{
    if exists|n: int| 0 <= n < a.len() && n < b.len() && a[n] != b[n] {
        let n = choose|n: int| 0 <= n < a.len() && n < b.len() && a[n] != b[n];
        let i = lemma_first_difference(a, b, n);
    } else if a.len() == b.len() {
        assert(a =~= b);
    }
}

impl Ordered for Seq<u8> {
    open spec fn key_lt(self, other: Self) -> bool {
        lex_lt(self, other)
    }

    proof fn order_laws() {
        assert forall|a: Self| !(#[trigger] a.key_lt(a)) by {}
        assert forall|a: Self, b: Self, c: Self| #[trigger]
            a.key_lt(b) && #[trigger] b.key_lt(c) implies a.key_lt(c) by {
            if exists|i: int| differ_first_at(a, b, i) && a[i] < b[i] {
                let i = choose|i: int| differ_first_at(a, b, i) && a[i] < b[i];
                if exists|j: int| differ_first_at(b, c, j) && b[j] < c[j] {
                    let j = choose|j: int| differ_first_at(b, c, j) && b[j] < c[j];
                    if i <= j {
                        assert(differ_first_at(a, c, i) && a[i] < c[i]);
                    } else {
                        assert(differ_first_at(a, c, j) && a[j] < c[j]);
                    }
                } else {
                    assert(differ_first_at(a, c, i) && a[i] < c[i]);
                }
            } else {
                if exists|j: int| differ_first_at(b, c, j) && b[j] < c[j] {
                    let j = choose|j: int| differ_first_at(b, c, j) && b[j] < c[j];
                    if j < a.len() {
                        assert(differ_first_at(a, c, j) && a[j] < c[j]);
                    } else {
                        assert(begins(a, c) && a.len() < c.len());
                    }
                } else {
                    assert(begins(a, c) && a.len() < c.len());
                }
            }
        }
        assert forall|a: Self, b: Self| a == b || #[trigger] a.key_lt(b) || b.key_lt(a) by {
            lemma_lex_cases(a, b);
            if exists|i: int| differ_first_at(a, b, i) {
                let i = choose|i: int| differ_first_at(a, b, i);
                if a[i] < b[i] {
                    assert(differ_first_at(a, b, i) && a[i] < b[i]);
                } else {
                    assert(differ_first_at(b, a, i) && b[i] < a[i]);
                }
            }
        }
    }
}

/// Decides the order of two rows of bytes as a dictionary does.
pub fn compare_bytes(a: &[u8], b: &[u8]) -> (o: KeyOrder)
    ensures
        o is Less <==> lex_lt(a@, b@),
        o is Equal <==> a@ == b@,
        o is Greater <==> lex_lt(b@, a@),
{
    let n = if a.len() < b.len() {
        a.len()
    } else {
        b.len()
    };
    let mut i: usize = 0;
    while i < n
        invariant
            0 <= i <= n,
            n <= a@.len(),
            n <= b@.len(),
            forall|j: int| 0 <= j < i ==> a@[j] == b@[j],
        decreases n - i,
    {
        if a[i] < b[i] {
            proof {
                assert(differ_first_at(a@, b@, i as int) && a@[i as int] < b@[i as int]);
                Seq::<u8>::order_laws();
            }
            return KeyOrder::Less;
        }
        if a[i] > b[i] {
            proof {
                assert(differ_first_at(b@, a@, i as int) && b@[i as int] < a@[i as int]);
                Seq::<u8>::order_laws();
            }
            return KeyOrder::Greater;
        }
        i = i + 1;
    }
    proof {
        Seq::<u8>::order_laws();
    }
    if a.len() < b.len() {
        proof {
            assert(begins(a@, b@));
        }
        KeyOrder::Less
    } else if a.len() > b.len() {
        proof {
            assert(begins(b@, a@));
        }
        KeyOrder::Greater
    } else {
        proof {
            assert(a@ =~= b@);
        }
        KeyOrder::Equal
    }
}

/// Byte strings of a fixed length, such as content hashes, in the order
/// of a dictionary.
impl<const N: usize> BPlusKey for [u8; N] {
    type Id = Seq<u8>;

    open spec fn id(&self) -> Seq<u8> {
        self@
    }

    fn compare(&self, other: &Self) -> (o: KeyOrder) {
        compare_bytes(self.as_slice(), other.as_slice())
    }

    fn duplicate(&self) -> (k: Self) {
        *self
    }
}

/// Byte strings of any length in the order of a dictionary.
impl BPlusKey for Vec<u8> {
    type Id = Seq<u8>;

    open spec fn id(&self) -> Seq<u8> {
        self@
    }

    fn compare(&self, other: &Self) -> (o: KeyOrder) {
        compare_bytes(self.as_slice(), other.as_slice())
    }

    fn duplicate(&self) -> (k: Self) {
        self.clone()
    }
}

/// Strings in the order of their bytes.
impl BPlusKey for String {
    type Id = Seq<u8>;

    open spec fn id(&self) -> Seq<u8> {
        vstd::utf8::encode_utf8(self@)
    }

    fn compare(&self, other: &Self) -> (o: KeyOrder) {
        compare_bytes(self.as_str().as_bytes(), other.as_str().as_bytes())
    }

    fn duplicate(&self) -> (k: Self) {
        self.clone()
    }
}

} // verus!
