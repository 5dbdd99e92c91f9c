//! Total orders used for keys: lexicographic order on sequences, the order on
//! strings (by Unicode scalar value, which is the order Rust gives `String`),
//! and the `OrdKey` trait that ordered maps are generic over.
use vstd::prelude::*;
use vstd::string::*;

verus! {

/// Outcome of a three-way comparison.
#[derive(Clone, Copy, PartialEq, Eq, Structural, Debug)]
pub enum Order {
    Less,
    Equal,
    Greater,
}

/// Lexicographic strict order on sequences, given a strict order on elements.
pub open spec fn lex_lt<T>(a: Seq<T>, b: Seq<T>, lt: spec_fn(T, T) -> bool) -> bool
    decreases a.len(),
{
    if a.len() == 0 {
        b.len() > 0
    } else if b.len() == 0 {
        false
    } else if lt(a[0], b[0]) {
        true
    } else if a[0] == b[0] {
        lex_lt(a.drop_first(), b.drop_first(), lt)
    } else {
        false
    }
}

/// `lt` is a strict total order on `T`.
pub open spec fn strict_total<T>(lt: spec_fn(T, T) -> bool) -> bool {
    &&& forall|x: T| !#[trigger] lt(x, x)
    &&& forall|x: T, y: T, z: T| #[trigger] lt(x, y) && #[trigger] lt(y, z) ==> lt(x, z)
    &&& forall|x: T, y: T| x == y || #[trigger] lt(x, y) || lt(y, x)
}

pub proof fn lemma_lex_irreflexive<T>(a: Seq<T>, lt: spec_fn(T, T) -> bool)
    requires
        strict_total(lt),
    ensures
        !lex_lt(a, a, lt),
    decreases a.len(),
{
    if a.len() > 0 {
        assert(!lt(a[0], a[0]));
        lemma_lex_irreflexive(a.drop_first(), lt);
    }
}

pub proof fn lemma_lex_transitive<T>(a: Seq<T>, b: Seq<T>, c: Seq<T>, lt: spec_fn(T, T) -> bool)
    requires
        strict_total(lt),
        lex_lt(a, b, lt),
        lex_lt(b, c, lt),
    ensures
        lex_lt(a, c, lt),
    decreases a.len(),
{
    if a.len() > 0 && b.len() > 0 && c.len() > 0 {
        if lt(a[0], b[0]) && lt(b[0], c[0]) {
            assert(lt(a[0], c[0]));
        } else if lt(a[0], b[0]) {
            assert(b[0] == c[0]);
        } else if lt(b[0], c[0]) {
            assert(a[0] == b[0]);
        } else {
            lemma_lex_transitive(a.drop_first(), b.drop_first(), c.drop_first(), lt);
        }
    }
}

pub proof fn lemma_lex_total<T>(a: Seq<T>, b: Seq<T>, lt: spec_fn(T, T) -> bool)
    requires
        strict_total(lt),
    ensures
        a == b || lex_lt(a, b, lt) || lex_lt(b, a, lt),
    decreases a.len(),
{
    if a.len() == 0 && b.len() == 0 {
        assert(a =~= b);
    } else if a.len() > 0 && b.len() > 0 {
        if a[0] == b[0] {
            lemma_lex_total(a.drop_first(), b.drop_first(), lt);
            if a.drop_first() == b.drop_first() {
                assert(a =~= seq![a[0]] + a.drop_first());
                assert(b =~= seq![b[0]] + b.drop_first());
            }
        } else {
            assert(lt(a[0], b[0]) || lt(b[0], a[0]));
        }
    }
}

/// A strict order is asymmetric.
pub proof fn lemma_lex_asymmetric<T>(a: Seq<T>, b: Seq<T>, lt: spec_fn(T, T) -> bool)
    requires
        strict_total(lt),
        lex_lt(a, b, lt),
    ensures
        !lex_lt(b, a, lt),
{
    if lex_lt(b, a, lt) {
        lemma_lex_transitive(a, b, a, lt);
        lemma_lex_irreflexive(a, lt);
    }
}

/// The order of characters by Unicode scalar value.
pub open spec fn char_lt() -> spec_fn(char, char) -> bool {
    |x: char, y: char| x < y
}

/// The order on strings: lexicographic by Unicode scalar value. UTF-8 encoding
/// preserves this order byte for byte, so it is the order of Rust's `String`.
pub open spec fn str_lt(a: Seq<char>, b: Seq<char>) -> bool {
    lex_lt(a, b, char_lt())
}

pub proof fn lemma_char_lt_strict_total()
    ensures
        strict_total(char_lt()),
{
}

pub proof fn lemma_str_lt_strict_total()
    ensures
        strict_total(|x: Seq<char>, y: Seq<char>| str_lt(x, y)),
{
    lemma_char_lt_strict_total();
    assert forall|x: Seq<char>| !#[trigger] str_lt(x, x) by {
        lemma_lex_irreflexive(x, char_lt());
    }
    assert forall|x: Seq<char>, y: Seq<char>, z: Seq<char>|
        #[trigger] str_lt(x, y) && #[trigger] str_lt(y, z) implies str_lt(x, z) by {
        lemma_lex_transitive(x, y, z, char_lt());
    }
    assert forall|x: Seq<char>, y: Seq<char>| x == y || #[trigger] str_lt(x, y) || str_lt(y, x) by {
        lemma_lex_total(x, y, char_lt());
    }
}

/// The order laws of `str_lt`, stated on `str_lt` itself.
pub proof fn lemma_str_laws()
    ensures
        forall|x: Seq<char>| !#[trigger] str_lt(x, x),
        forall|x: Seq<char>, y: Seq<char>, z: Seq<char>|
            #[trigger] str_lt(x, y) && #[trigger] str_lt(y, z) ==> str_lt(x, z),
        forall|x: Seq<char>, y: Seq<char>| x == y || #[trigger] str_lt(x, y) || str_lt(y, x),
{
    lemma_char_lt_strict_total();
    assert forall|x: Seq<char>| !#[trigger] str_lt(x, x) by {
        lemma_lex_irreflexive(x, char_lt());
    }
    assert forall|x: Seq<char>, y: Seq<char>, z: Seq<char>|
        #[trigger] str_lt(x, y) && #[trigger] str_lt(y, z) implies str_lt(x, z) by {
        lemma_lex_transitive(x, y, z, char_lt());
    }
    assert forall|x: Seq<char>, y: Seq<char>| x == y || #[trigger] str_lt(x, y) || str_lt(y, x) by {
        lemma_lex_total(x, y, char_lt());
    }
}

/// The three-way comparison that a strict order induces.
pub open spec fn order_by<T>(a: T, b: T, lt: spec_fn(T, T) -> bool) -> Order {
    if a == b {
        Order::Equal
    } else if lt(a, b) {
        Order::Less
    } else {
        Order::Greater
    }
}

/// Compares two strings in the order of `str_lt`.
pub fn compare_str(a: &str, b: &str) -> (r: Order)
    ensures
        r == order_by(a@, b@, |x: Seq<char>, y: Seq<char>| str_lt(x, y)),
{
    proof {
        lemma_char_lt_strict_total();
    }
    let la = a.unicode_len();
    let lb = b.unicode_len();
    let mut i: usize = 0;
    while i < la && i < lb
        invariant
            la == a@.len(),
            lb == b@.len(),
            i <= la,
            i <= lb,
            a@.subrange(0, i as int) == b@.subrange(0, i as int),
            strict_total(char_lt()),
        decreases la - i,
    {
        let ca = a.get_char(i);
        let cb = b.get_char(i);
        if ca != cb {
            proof {
                lemma_lex_common_prefix(a@, b@, i as int, char_lt());
                assert(a@ != b@);
            }
            if ca < cb {
                return Order::Less;
            } else {
                proof {
                    lemma_lex_common_prefix(b@, a@, i as int, char_lt());
                    lemma_lex_asymmetric(b@, a@, char_lt());
                }
                return Order::Greater;
            }
        }
        assert(a@.subrange(0, i + 1) =~= a@.subrange(0, i as int).push(ca));
        assert(b@.subrange(0, i + 1) =~= b@.subrange(0, i as int).push(cb));
        i = i + 1;
    }
    proof {
        lemma_lex_common_prefix(a@, b@, i as int, char_lt());
        lemma_lex_common_prefix(b@, a@, i as int, char_lt());
    }
    if la == lb {
        assert(a@ =~= a@.subrange(0, i as int));
        assert(b@ =~= b@.subrange(0, i as int));
        Order::Equal
    } else if la < lb {
        Order::Less
    } else {
        proof {
            lemma_lex_asymmetric(b@, a@, char_lt());
        }
        Order::Greater
    }
}

/// Two sequences that agree on their first `i` elements compare as their
/// suffixes from `i` on.
pub proof fn lemma_lex_common_prefix<T>(a: Seq<T>, b: Seq<T>, i: int, lt: spec_fn(T, T) -> bool)
    requires
        strict_total(lt),
        0 <= i <= a.len(),
        i <= b.len(),
        a.subrange(0, i) == b.subrange(0, i),
    ensures
        lex_lt(a, b, lt) == lex_lt(a.subrange(i, a.len() as int), b.subrange(i, b.len() as int), lt),
    decreases i,
{
    if i > 0 {
        assert(a[0] == a.subrange(0, i)[0]);
        assert(b[0] == b.subrange(0, i)[0]);
        assert(a.drop_first().subrange(0, i - 1) =~= a.subrange(0, i).drop_first());
        assert(b.drop_first().subrange(0, i - 1) =~= b.subrange(0, i).drop_first());
        lemma_lex_common_prefix(a.drop_first(), b.drop_first(), i - 1, lt);
        assert(a.drop_first().subrange(i - 1, a.len() - 1) =~= a.subrange(i, a.len() as int));
        assert(b.drop_first().subrange(i - 1, b.len() - 1) =~= b.subrange(i, b.len() as int));
    } else {
        assert(a.subrange(0, a.len() as int) =~= a);
        assert(b.subrange(0, b.len() as int) =~= b);
    }
}

/// Keys of ordered maps: a strict total order on their views, and an
/// executable comparison that agrees with it.
pub trait OrdKey: View + Sized {
    spec fn key_lt(a: Self::V, b: Self::V) -> bool;

    proof fn lemma_key_order()
        ensures
            strict_total(|x: Self::V, y: Self::V| Self::key_lt(x, y)),
    ;

    fn compare(&self, other: &Self) -> (r: Order)
        ensures
            r == order_by(self@, other@, |x: Self::V, y: Self::V| Self::key_lt(x, y)),
    ;

    fn copy_key(&self) -> (r: Self)
        ensures
            r@ == self@,
    ;
}

/// The order laws of a key type, stated on `key_lt` itself.
pub proof fn lemma_key_laws<K: OrdKey>()
    ensures
        forall|x: K::V| !#[trigger] K::key_lt(x, x),
        forall|x: K::V, y: K::V, z: K::V|
            #[trigger] K::key_lt(x, y) && #[trigger] K::key_lt(y, z) ==> K::key_lt(x, z),
        forall|x: K::V, y: K::V| x == y || #[trigger] K::key_lt(x, y) || K::key_lt(y, x),
{
    K::lemma_key_order();
    let lt = |x: K::V, y: K::V| K::key_lt(x, y);
    assert forall|x: K::V| !#[trigger] K::key_lt(x, x) by {
        assert(!lt(x, x));
    }
    assert forall|x: K::V, y: K::V, z: K::V|
        #[trigger] K::key_lt(x, y) && #[trigger] K::key_lt(y, z) implies K::key_lt(x, z) by {
        assert(lt(x, y) && lt(y, z));
    }
    assert forall|x: K::V, y: K::V| x == y || #[trigger] K::key_lt(x, y) || K::key_lt(y, x) by {
        assert(x == y || lt(x, y) || lt(y, x));
    }
}

impl OrdKey for String {
    open spec fn key_lt(a: Seq<char>, b: Seq<char>) -> bool {
        str_lt(a, b)
    }

    proof fn lemma_key_order() {
        lemma_str_lt_strict_total();
        assert((|x: Seq<char>, y: Seq<char>| Self::key_lt(x, y)) =~= (|x: Seq<char>, y: Seq<
            char,
        >| str_lt(x, y)));
    }

    fn compare(&self, other: &Self) -> (r: Order) {
        compare_str(self.as_str(), other.as_str())
    }

    fn copy_key(&self) -> (r: Self) {
        self.clone()
    }
}

/// Lexicographic order on pairs of strings.
pub open spec fn pair_lt(a: (Seq<char>, Seq<char>), b: (Seq<char>, Seq<char>)) -> bool {
    str_lt(a.0, b.0) || (a.0 == b.0 && str_lt(a.1, b.1))
}

/// Lexicographic order on triples of strings.
pub open spec fn triple_lt(a: (Seq<char>, Seq<char>, Seq<char>), b: (Seq<char>, Seq<char>, Seq<char>)) -> bool {
    str_lt(a.0, b.0) || (a.0 == b.0 && pair_lt((a.1, a.2), (b.1, b.2)))
}

impl OrdKey for (String, String) {
    open spec fn key_lt(a: (Seq<char>, Seq<char>), b: (Seq<char>, Seq<char>)) -> bool {
        pair_lt(a, b)
    }

    proof fn lemma_key_order() {
        lemma_str_laws();
        let lt = |x: (Seq<char>, Seq<char>), y: (Seq<char>, Seq<char>)| Self::key_lt(x, y);
        assert forall|x: (Seq<char>, Seq<char>), y: (Seq<char>, Seq<char>)|
            x == y || #[trigger] lt(x, y) || lt(y, x) by {
            if x.0 == y.0 && x.1 == y.1 {
                assert(x == y);
            }
        }
    }

    fn compare(&self, other: &Self) -> (r: Order) {
        proof {
            lemma_str_laws();
        }
        match compare_str(self.0.as_str(), other.0.as_str()) {
            Order::Less => Order::Less,
            Order::Greater => Order::Greater,
            Order::Equal => {
                let r = compare_str(self.1.as_str(), other.1.as_str());
                proof {
                    if self.1@ == other.1@ {
                        assert(self@ == other@);
                    }
                }
                r
            },
        }
    }

    fn copy_key(&self) -> (r: Self) {
        (self.0.clone(), self.1.clone())
    }
}

impl OrdKey for (String, String, String) {
    open spec fn key_lt(
        a: (Seq<char>, Seq<char>, Seq<char>),
        b: (Seq<char>, Seq<char>, Seq<char>),
    ) -> bool {
        triple_lt(a, b)
    }

    proof fn lemma_key_order() {
        lemma_str_laws();
        let lt = |x: (Seq<char>, Seq<char>, Seq<char>), y: (Seq<char>, Seq<char>, Seq<char>)|
            Self::key_lt(x, y);
        assert forall|x: (Seq<char>, Seq<char>, Seq<char>), y: (Seq<char>, Seq<char>, Seq<char>)|
            x == y || #[trigger] lt(x, y) || lt(y, x) by {
            if x.0 == y.0 && x.1 == y.1 && x.2 == y.2 {
                assert(x == y);
            }
        }
    }

    fn compare(&self, other: &Self) -> (r: Order) {
        proof {
            lemma_str_laws();
        }
        match compare_str(self.0.as_str(), other.0.as_str()) {
            Order::Less => Order::Less,
            Order::Greater => Order::Greater,
            Order::Equal => match compare_str(self.1.as_str(), other.1.as_str()) {
                Order::Less => Order::Less,
                Order::Greater => Order::Greater,
                Order::Equal => {
                    let r = compare_str(self.2.as_str(), other.2.as_str());
                    proof {
                        if self.2@ == other.2@ {
                            assert(self@ == other@);
                        }
                    }
                    r
                },
            },
        }
    }

    fn copy_key(&self) -> (r: Self) {
        (self.0.clone(), self.1.clone(), self.2.clone())
    }
}

} // verus!
