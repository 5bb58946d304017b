//! Stable sorting by an integer key, as insertion sort defines it.
use vstd::prelude::*;

verus! {

/// Where `x` goes in `s`: after the last element whose key is at most
/// `x`'s, scanning from the back.
pub open spec fn ins_pos<T>(s: Seq<T>, x: T, key: spec_fn(T) -> int) -> int
    decreases s.len(),
{
    if s.len() == 0 {
        0
    } else if key(s.last()) <= key(x) {
        s.len() as int
    } else {
        ins_pos(s.drop_last(), x, key)
    }
}

/// `s` stably sorted by `key`: elements with equal keys keep their order.
pub open spec fn isort<T>(s: Seq<T>, key: spec_fn(T) -> int) -> Seq<T>
    decreases s.len(),
{
    if s.len() == 0 {
        seq![]
    } else {
        let t = isort(s.drop_last(), key);
        t.insert(ins_pos(t, s.last(), key), s.last())
    }
}

/// The keys never decrease.
pub open spec fn sorted_by<T>(s: Seq<T>, key: spec_fn(T) -> int) -> bool {
    forall|i: int, j: int| 0 <= i < j < s.len() ==> key(#[trigger] s[i]) <= key(#[trigger] s[j])
}

/// The insertion position lies within the sequence; everything after it has
/// a larger key and, in a sorted sequence, nothing before it does.
pub proof fn lemma_ins_pos<T>(s: Seq<T>, x: T, key: spec_fn(T) -> int)
    ensures
        0 <= ins_pos(s, x, key) <= s.len(),
        forall|k: int| ins_pos(s, x, key) <= k < s.len() ==> key(#[trigger] s[k]) > key(x),
        sorted_by(s, key) ==> forall|k: int|
            0 <= k < ins_pos(s, x, key) ==> key(#[trigger] s[k]) <= key(x),
    decreases s.len(),
{
    if s.len() > 0 {
        if key(s.last()) > key(x) {
            lemma_ins_pos(s.drop_last(), x, key);
            let p = ins_pos(s, x, key);
            assert forall|k: int| p <= k < s.len() implies key(#[trigger] s[k]) > key(x) by {
                if k < s.len() - 1 {
                    assert(s.drop_last()[k] == s[k]);
                }
            }
            if sorted_by(s, key) {
                assert(sorted_by(s.drop_last(), key)) by {
                    assert forall|i: int, j: int|
                        0 <= i < j < s.drop_last().len() implies key(
                        #[trigger] s.drop_last()[i],
                    ) <= key(#[trigger] s.drop_last()[j]) by {
                        assert(s.drop_last()[i] == s[i]);
                        assert(s.drop_last()[j] == s[j]);
                    }
                }
                assert forall|k: int| 0 <= k < p implies key(#[trigger] s[k]) <= key(x) by {
                    assert(s.drop_last()[k] == s[k]);
                }
            }
        } else {
            if sorted_by(s, key) {
                assert forall|k: int| 0 <= k < s.len() implies key(#[trigger] s[k]) <= key(x) by {
                    if k < s.len() - 1 {
                        assert(key(s[k]) <= key(s[s.len() - 1]));
                    }
                }
            }
        }
    }
}

/// Inserting at the insertion position keeps a sorted sequence sorted.
proof fn lemma_insert_sorted<T>(t: Seq<T>, x: T, key: spec_fn(T) -> int)
    requires
        sorted_by(t, key),
    ensures
        sorted_by(t.insert(ins_pos(t, x, key), x), key),
{
    lemma_ins_pos(t, x, key);
    let p = ins_pos(t, x, key);
    t.insert_ensures(p, x);
    let r = t.insert(p, x);
    assert forall|i: int, j: int| 0 <= i < j < r.len() implies key(#[trigger] r[i]) <= key(
        #[trigger] r[j],
    ) by {
        if j < p {
        } else if j == p {
            assert(r[i] == t[i]);
        } else if i < p {
            assert(r[j] == t[j - 1]);
            assert(r[i] == t[i]);
        } else if i == p {
            assert(r[j] == t[j - 1]);
        } else {
            assert(r[j] == t[j - 1]);
            assert(r[i] == t[i - 1]);
        }
    }
}

/// Inserting the last element of `s` into a sequence drawn from the rest of
/// `s` gives a sequence drawn from `s`.
proof fn lemma_insert_drawn<T>(s: Seq<T>, t: Seq<T>, p: int)
    requires
        s.len() > 0,
        0 <= p <= t.len(),
        forall|k: int| 0 <= k < t.len() ==> s.drop_last().contains(#[trigger] t[k]),
    ensures
        forall|k: int| 0 <= k < t.len() + 1 ==> s.contains(#[trigger] t.insert(p, s.last())[k]),
{
    let x = s.last();
    t.insert_ensures(p, x);
    let r = t.insert(p, x);
    assert forall|k: int| 0 <= k < t.len() + 1 implies s.contains(#[trigger] r[k]) by {
        if k == p {
            assert(s[s.len() - 1] == x);
        } else {
            let q = if k < p { k } else { k - 1 };
            assert(r[k] == t[q]);
            assert(s.drop_last().contains(t[q]));
            let w = choose|w: int| 0 <= w < s.drop_last().len() && s.drop_last()[w] == t[q];
            assert(s[w] == t[q]);
        }
    }
}

/// Insertion sort keeps the length, yields a sorted sequence, and draws its
/// elements from the input.
pub proof fn lemma_isort<T>(s: Seq<T>, key: spec_fn(T) -> int)
    ensures
        isort(s, key).len() == s.len(),
        sorted_by(isort(s, key), key),
        forall|k: int| 0 <= k < s.len() ==> s.contains(#[trigger] isort(s, key)[k]),
    decreases s.len(),
{
    if s.len() > 0 {
        let t = isort(s.drop_last(), key);
        let x = s.last();
        lemma_isort(s.drop_last(), key);
        lemma_ins_pos(t, x, key);
        lemma_insert_sorted(t, x, key);
        lemma_insert_drawn(s, t, ins_pos(t, x, key));
    }
}

/// The insertion position of a prefix is unchanged by dropping a trailing
/// element with a larger key.
pub proof fn lemma_ins_pos_step<T>(s: Seq<T>, x: T, key: spec_fn(T) -> int, p: int)
    requires
        0 < p <= s.len(),
        key(s[p - 1]) > key(x),
    ensures
        ins_pos(s.take(p), x, key) == ins_pos(s.take(p - 1), x, key),
{
    assert(s.take(p).drop_last() =~= s.take(p - 1));
    assert(s.take(p).last() == s[p - 1]);
}

/// The insertion position of a prefix whose last key is at most `x`'s is
/// its length.
pub proof fn lemma_ins_pos_stop<T>(s: Seq<T>, x: T, key: spec_fn(T) -> int, p: int)
    requires
        0 <= p <= s.len(),
        p == 0 || key(s[p - 1]) <= key(x),
    ensures
        ins_pos(s.take(p), x, key) == p,
{
    if p > 0 {
        assert(s.take(p).last() == s[p - 1]);
    }
}

} // verus!
