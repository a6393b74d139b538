//! Lexicographic order on byte-string keys.
//!
//! B-tree keys are compared byte by byte, a proper prefix ordering before
//! any of its extensions, exactly as `[u8]`'s `Ord` does.

use vstd::prelude::*;

verus! {

/// Lexicographic comparison: negative, zero or positive as `a` is below,
/// equal to or above `b`.
pub open spec fn key_order(a: Seq<u8>, b: Seq<u8>) -> int
    decreases a.len(),
{
    if a.len() == 0 {
        if b.len() == 0 {
            0
        } else {
            -1
        }
    } else if b.len() == 0 {
        1
    } else if a[0] < b[0] {
        -1
    } else if a[0] > b[0] {
        1
    } else {
        key_order(a.drop_first(), b.drop_first())
    }
}

/// `a` orders strictly before `b`.
pub open spec fn key_lt(a: Seq<u8>, b: Seq<u8>) -> bool {
    key_order(a, b) < 0
}

/// `a` orders before or equal to `b`.
pub open spec fn key_le(a: Seq<u8>, b: Seq<u8>) -> bool {
    key_order(a, b) <= 0
}

pub proof fn lemma_key_order_facts(a: Seq<u8>, b: Seq<u8>)
    ensures
        key_order(a, b) == 0 <==> a == b,
        key_order(a, b) == -key_order(b, a),
        -1 <= key_order(a, b) <= 1,
    decreases a.len(),
{
    if a.len() == 0 && b.len() == 0 {
        assert(a =~= b);
    }
    if a.len() > 0 && b.len() > 0 && a[0] == b[0] {
        lemma_key_order_facts(a.drop_first(), b.drop_first());
        if a.drop_first() == b.drop_first() {
            assert(a =~= seq![a[0]] + a.drop_first());
            assert(b =~= seq![b[0]] + b.drop_first());
        }
    }
    if a == b {
        assert(key_order(a, b) == 0) by {
            lemma_key_order_refl(a);
        }
    }
}

pub proof fn lemma_key_order_refl(a: Seq<u8>)
    ensures
        key_order(a, a) == 0,
    decreases a.len(),
{
    if a.len() > 0 {
        lemma_key_order_refl(a.drop_first());
    }
}

pub proof fn lemma_key_lt_transitive(a: Seq<u8>, b: Seq<u8>, c: Seq<u8>)
    requires
        key_lt(a, b),
        key_lt(b, c),
    ensures
        key_lt(a, c),
    decreases a.len(),
{
    if a.len() > 0 && b.len() > 0 && c.len() > 0 && a[0] == b[0] && b[0] == c[0] {
        lemma_key_lt_transitive(a.drop_first(), b.drop_first(), c.drop_first());
    }
}

pub proof fn lemma_key_le_transitive(a: Seq<u8>, b: Seq<u8>, c: Seq<u8>)
    requires
        key_le(a, b),
        key_le(b, c),
    ensures
        key_le(a, c),
{
    lemma_key_order_facts(a, b);
    lemma_key_order_facts(b, c);
    if key_lt(a, b) && key_lt(b, c) {
        lemma_key_lt_transitive(a, b, c);
    }
}

pub proof fn lemma_key_lt_le_transitive(a: Seq<u8>, b: Seq<u8>, c: Seq<u8>)
    ensures
        key_lt(a, b) && key_le(b, c) ==> key_lt(a, c),
        key_le(a, b) && key_lt(b, c) ==> key_lt(a, c),
{
    lemma_key_order_facts(a, b);
    lemma_key_order_facts(b, c);
    if key_lt(a, b) && key_lt(b, c) {
        lemma_key_lt_transitive(a, b, c);
    }
}

/// Every two keys are ordered one way or the other.
pub proof fn lemma_key_total(a: Seq<u8>, b: Seq<u8>)
    ensures
        key_lt(a, b) || a == b || key_lt(b, a),
{
    lemma_key_order_facts(a, b);
}

/// Keys made of parts of equal lengths compare by their first parts,
/// and by what follows when those are equal.
pub proof fn lemma_key_order_concat(x: Seq<u8>, y: Seq<u8>, s: Seq<u8>, t: Seq<u8>)
    requires
        x.len() == y.len(),
    ensures
        key_order(x + s, y + t) == if x == y {
            key_order(s, t)
        } else {
            key_order(x, y)
        },
    decreases x.len(),
{
    if x.len() == 0 {
        assert(x + s =~= s);
        assert(y + t =~= t);
        assert(x =~= y);
    } else {
        assert((x + s)[0] == x[0]);
        assert((y + t)[0] == y[0]);
        assert((x + s).drop_first() =~= x.drop_first() + s);
        assert((y + t).drop_first() =~= y.drop_first() + t);
        lemma_key_order_concat(x.drop_first(), y.drop_first(), s, t);
        if x[0] == y[0] {
            if x.drop_first() == y.drop_first() {
                assert(x =~= seq![x[0]] + x.drop_first());
                assert(y =~= seq![y[0]] + y.drop_first());
            } else {
                assert(x != y);
            }
        }
    }
}

/// Keys of equal length that agree before position `i` and differ there
/// compare as their bytes at `i` do.
pub proof fn lemma_key_order_first_diff(x: Seq<u8>, y: Seq<u8>, i: int)
    requires
        x.len() == y.len(),
        0 <= i < x.len(),
        forall|j: int| 0 <= j < i ==> x[j] == y[j],
        x[i] != y[i],
    ensures
        key_order(x, y) == if x[i] < y[i] {
            -1int
        } else {
            1int
        },
{
    let xs = x.subrange(i, x.len() as int);
    let ys = y.subrange(i, y.len() as int);
    assert(x =~= x.subrange(0, i) + xs);
    assert(y =~= y.subrange(0, i) + ys);
    assert(x.subrange(0, i) =~= y.subrange(0, i));
    lemma_key_order_concat(x.subrange(0, i), y.subrange(0, i), xs, ys);
    assert(xs[0] == x[i] && ys[0] == y[i]);
}

/// Compares two keys lexicographically; the result is -1, 0 or 1.
pub fn compare_keys(a: &[u8], b: &[u8]) -> (r: i8)
    ensures
        r as int == key_order(a@, b@),
{
    proof {
        lemma_key_order_facts(a@, b@);
        assert(a@.skip(0) =~= a@);
        assert(b@.skip(0) =~= b@);
    }
    let mut i: usize = 0;
    let alen = a.len();
    let blen = b.len();
    while i < alen && i < blen
        invariant
            i <= alen == a@.len(),
            i <= blen == b@.len(),
            key_order(a@, b@) == key_order(a@.skip(i as int), b@.skip(i as int)),
        decreases alen - i,
    {
        let x = a[i];
        let y = b[i];
        proof {
            assert(a@.skip(i as int)[0] == x);
            assert(b@.skip(i as int)[0] == y);
        }
        if x < y {
            return -1;
        }
        if x > y {
            return 1;
        }
        proof {
            assert(a@.skip(i as int).drop_first() =~= a@.skip(i + 1));
            assert(b@.skip(i as int).drop_first() =~= b@.skip(i + 1));
        }
        i = i + 1;
    }
    if i < alen {
        1
    } else if i < blen {
        -1
    } else {
        0
    }
}

/// Returns `true` if `a` orders strictly before `b`.
pub fn key_less(a: &[u8], b: &[u8]) -> (r: bool)
    ensures
        r == key_lt(a@, b@),
{
    compare_keys(a, b) < 0
}

/// Returns `true` if `a` orders before or equal to `b`.
pub fn key_less_eq(a: &[u8], b: &[u8]) -> (r: bool)
    ensures
        r == key_le(a@, b@),
{
    compare_keys(a, b) <= 0
}

} // verus!
