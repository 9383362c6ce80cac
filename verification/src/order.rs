//! The order of keys: lexicographic, character by character.

use vstd::prelude::*;
use vstd::std_specs::iter::IteratorSpec;

verus! {

/// Whether key `a` comes strictly before key `b`: at the first position where
/// they differ `a` holds the smaller character, or `a` ends there and `b` does
/// not.
pub open spec fn key_lt(a: Seq<char>, b: Seq<char>) -> bool
    decreases a.len(),
{
    if b.len() == 0 {
        false
    } else if a.len() == 0 {
        true
    } else if a.first() == b.first() {
        key_lt(a.drop_first(), b.drop_first())
    } else {
        (a.first() as u32) < (b.first() as u32)
    }
}

/// How one key stands to another.
#[derive(Clone, Copy, Debug, PartialEq, Eq, Structural)]
pub enum KeyOrder {
    Before,
    Same,
    After,
}

/// The position of `a` relative to `b`.
pub open spec fn key_order(a: Seq<char>, b: Seq<char>) -> KeyOrder {
    if key_lt(a, b) {
        KeyOrder::Before
    } else if a == b {
        KeyOrder::Same
    } else {
        KeyOrder::After
    }
}

/// No key comes before itself.
pub proof fn lemma_key_lt_irreflexive(a: Seq<char>)
    ensures
        !key_lt(a, a),
    decreases a.len(),
{
    if a.len() > 0 {
        lemma_key_lt_irreflexive(a.drop_first());
    }
}

/// Of two keys at most one comes before the other.
pub proof fn lemma_key_lt_asymmetric(a: Seq<char>, b: Seq<char>)
    requires
        key_lt(a, b),
    ensures
        !key_lt(b, a),
    decreases a.len(),
{
    if a.len() > 0 && b.len() > 0 && a.first() == b.first() {
        lemma_key_lt_asymmetric(a.drop_first(), b.drop_first());
    }
}

/// Coming before is transitive.
pub proof fn lemma_key_lt_transitive(a: Seq<char>, b: Seq<char>, c: Seq<char>)
    requires
        key_lt(a, b),
        key_lt(b, c),
    ensures
        key_lt(a, c),
    decreases a.len(),
{
    if a.len() > 0 && b.len() > 0 && c.len() > 0 && a.first() == b.first() && b.first()
        == c.first() {
        lemma_key_lt_transitive(a.drop_first(), b.drop_first(), c.drop_first());
    }
}

/// Two keys of which neither comes before the other are the same key.
pub proof fn lemma_key_lt_total(a: Seq<char>, b: Seq<char>)
    requires
        !key_lt(a, b),
        !key_lt(b, a),
    ensures
        a == b,
    decreases a.len(),
{
    if a.len() > 0 && b.len() > 0 {
        vstd::utf8::char_u32_cast(a.first(), a.first() as u32);
        vstd::utf8::char_u32_cast(b.first(), b.first() as u32);
        lemma_key_lt_total(a.drop_first(), b.drop_first());
        assert(a =~= seq![a.first()] + a.drop_first());
        assert(b =~= seq![b.first()] + b.drop_first());
    } else {
        assert(a =~= b);
    }
}

/// Whether `keys` is in strictly ascending order.
pub open spec fn ascending(keys: Seq<Seq<char>>) -> bool {
    forall|i: int, j: int|
        0 <= i < j < keys.len() ==> key_lt(#[trigger] keys[i], #[trigger] keys[j])
}

/// In an ascending sequence each key is found at its own position.
pub proof fn lemma_ascending_index_of(keys: Seq<Seq<char>>, i: int)
    requires
        ascending(keys),
        0 <= i < keys.len(),
    ensures
        keys.index_of(keys[i]) == i,
{
    let j = keys.index_of(keys[i]);
    assert(keys.contains(keys[i]));
    assert(0 <= j < keys.len() && keys[j] == keys[i]);
    lemma_key_lt_irreflexive(keys[i]);
    if j < i {
        assert(key_lt(keys[j], keys[i]));
    } else if i < j {
        assert(key_lt(keys[i], keys[j]));
    }
}

/// No key occurs twice in an ascending sequence.
pub proof fn lemma_ascending_no_duplicates(keys: Seq<Seq<char>>)
    requires
        ascending(keys),
    ensures
        keys.no_duplicates(),
{
    assert forall|i: int, j: int|
        0 <= i < keys.len() && 0 <= j < keys.len() && i != j implies keys[i] != keys[j] by {
        lemma_key_lt_irreflexive(keys[i]);
        if i < j {
            assert(key_lt(keys[i], keys[j]));
        } else {
            assert(key_lt(keys[j], keys[i]));
        }
    }
}

/// Two ascending sequences that hold the same keys are the same sequence: the
/// order of a set of keys is determined by the set.
pub proof fn lemma_ascending_unique(x: Seq<Seq<char>>, y: Seq<Seq<char>>)
    requires
        ascending(x),
        ascending(y),
        x.to_set() == y.to_set(),
    ensures
        x == y,
    decreases x.len(),
{
    if x.len() == 0 {
        if y.len() > 0 {
            assert(y.to_set().contains(y[0]));
            assert(x.contains(y[0]));
        }
        assert(x =~= y);
    } else {
        if y.len() == 0 {
            assert(x.to_set().contains(x[0]));
            assert(y.contains(x[0]));
        }
        // The two least keys coincide.
        assert(x.to_set().contains(x[0]));
        assert(y.contains(x[0]));
        let j = choose|j: int| 0 <= j < y.len() && y[j] == x[0];
        assert(y.to_set().contains(y[0]));
        assert(x.contains(y[0]));
        let i = choose|i: int| 0 <= i < x.len() && x[i] == y[0];
        if j > 0 {
            assert(key_lt(y[0], y[j]));
            if i > 0 {
                assert(key_lt(x[0], x[i]));
                lemma_key_lt_asymmetric(x[0], y[0]);
            } else {
                lemma_key_lt_irreflexive(x[0]);
            }
        }
        assert(x[0] == y[0]);
        let xs = x.drop_first();
        let ys = y.drop_first();
        assert(ascending(xs)) by {
            assert forall|a: int, b: int| 0 <= a < b < xs.len() implies key_lt(
                #[trigger] xs[a],
                #[trigger] xs[b],
            ) by {
                assert(key_lt(x[a + 1], x[b + 1]));
            }
        }
        assert(ascending(ys)) by {
            assert forall|a: int, b: int| 0 <= a < b < ys.len() implies key_lt(
                #[trigger] ys[a],
                #[trigger] ys[b],
            ) by {
                assert(key_lt(y[a + 1], y[b + 1]));
            }
        }
        assert(xs.to_set() =~= ys.to_set()) by {
            assert forall|k: Seq<char>| xs.to_set().contains(k) implies ys.to_set().contains(
                k,
            ) by {
                let a = choose|a: int| 0 <= a < xs.len() && xs[a] == k;
                assert(x[a + 1] == k);
                assert(key_lt(x[0], x[a + 1]));
                assert(x.to_set().contains(k));
                assert(y.contains(k));
                let b = choose|b: int| 0 <= b < y.len() && y[b] == k;
                if b == 0 {
                    lemma_key_lt_irreflexive(k);
                }
                assert(ys[b - 1] == k);
            }
            assert forall|k: Seq<char>| ys.to_set().contains(k) implies xs.to_set().contains(
                k,
            ) by {
                let a = choose|a: int| 0 <= a < ys.len() && ys[a] == k;
                assert(y[a + 1] == k);
                assert(key_lt(y[0], y[a + 1]));
                assert(y.to_set().contains(k));
                assert(x.contains(k));
                let b = choose|b: int| 0 <= b < x.len() && x[b] == k;
                if b == 0 {
                    lemma_key_lt_irreflexive(k);
                }
                assert(xs[b - 1] == k);
            }
        }
        lemma_ascending_unique(xs, ys);
        assert(x =~= seq![x[0]] + xs);
        assert(y =~= seq![y[0]] + ys);
    }
}

/// Two keys that start with the same character stand to each other as their
/// remainders do.
pub proof fn lemma_key_order_step(a: Seq<char>, b: Seq<char>)
    requires
        a.len() > 0,
        b.len() > 0,
        a.first() == b.first(),
    ensures
        key_order(a, b) == key_order(a.drop_first(), b.drop_first()),
{
    if a.drop_first() == b.drop_first() {
        assert(a =~= seq![a.first()] + a.drop_first());
        assert(b =~= seq![b.first()] + b.drop_first());
    }
}

/// Compares two keys.
pub fn compare_keys(a: &str, b: &str) -> (r: KeyOrder)
    ensures
        r == key_order(a@, b@),
{
    broadcast use vstd::string::group_string_axioms;

    let mut ia = a.chars();
    let mut ib = b.chars();
    loop
        invariant
            key_order(a@, b@) == key_order(ia.remaining(), ib.remaining()),
            ia.decrease() is Some,
        decreases ia.decrease()->0,
    {
        let ghost ra = ia.remaining();
        let ghost rb = ib.remaining();
        let ca = ia.next();
        let cb = ib.next();
        assert(ra.len() == 0 && rb.len() == 0 ==> ra =~= rb);
        assert(ra.len() > 0 && rb.len() > 0 && ra.first() == rb.first() ==> key_order(ra, rb)
            == key_order(ra.drop_first(), rb.drop_first())) by {
            if ra.len() > 0 && rb.len() > 0 && ra.first() == rb.first() {
                lemma_key_order_step(ra, rb);
            }
        }
        match (ca, cb) {
            (None, None) => {
                return KeyOrder::Same;
            },
            (None, Some(_)) => {
                return KeyOrder::Before;
            },
            (Some(_), None) => {
                return KeyOrder::After;
            },
            (Some(x), Some(y)) => {
                if x != y {
                    if (x as u32) < (y as u32) {
                        return KeyOrder::Before;
                    } else {
                        return KeyOrder::After;
                    }
                }
            },
        }
    }
}

} // verus!
