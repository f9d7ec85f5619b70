//! Stable insertion order by an integer key, stated as a spec function and
//! proved sorted, stable and bounded.
use vstd::prelude::*;

verus! {

/// `s` with `x` inserted after every element, counted from the back, whose
/// key is not above `x`'s.
pub open spec fn ins<A>(s: Seq<A>, key: spec_fn(A) -> u64, x: A) -> Seq<A>
    decreases s.len(),
{
    if s.len() == 0 || key(s.last()) <= key(x) {
        s.push(x)
    } else {
        ins(s.drop_last(), key, x).push(s.last())
    }
}

/// `s` ordered ascending by `key`; elements with equal keys keep their order.
pub open spec fn sort_by_key<A>(s: Seq<A>, key: spec_fn(A) -> u64) -> Seq<A>
    decreases s.len(),
{
    if s.len() == 0 {
        Seq::empty()
    } else {
        ins(sort_by_key(s.drop_last(), key), key, s.last())
    }
}

pub open spec fn sorted_by<A>(s: Seq<A>, key: spec_fn(A) -> u64) -> bool {
    forall|i: int, j: int| 0 <= i <= j < s.len() ==> key(s[i]) <= key(s[j])
}

/// The elements of `s` whose key is `k`, in order.
pub open spec fn with_key<A>(s: Seq<A>, key: spec_fn(A) -> u64, k: u64) -> Seq<A>
    decreases s.len(),
{
    if s.len() == 0 {
        Seq::empty()
    } else if key(s.last()) == k {
        with_key(s.drop_last(), key, k).push(s.last())
    } else {
        with_key(s.drop_last(), key, k)
    }
}

pub open spec fn keys_within<A>(s: Seq<A>, key: spec_fn(A) -> u64, lo: int, hi: int) -> bool {
    forall|i: int| 0 <= i < s.len() ==> lo <= #[trigger] key(s[i]) <= hi
}

/// Inserting at position `p` is `ins` where `p` follows every element whose
/// key is not above `x`'s and precedes the others.
pub proof fn lemma_ins_at<A>(s: Seq<A>, key: spec_fn(A) -> u64, x: A, p: int)
    requires
        0 <= p <= s.len(),
        forall|j: int| p <= j < s.len() ==> key(s[j]) > key(x),
        p == 0 || key(s[p - 1]) <= key(x),
    ensures
        ins(s, key, x) == s.insert(p, x),
    decreases s.len(),
{
    if p == s.len() {
        assert(s.push(x) =~= s.insert(p, x));
    } else {
        let d = s.drop_last();
        assert(key(s.last()) > key(x));
        lemma_ins_at(d, key, x, p);
        assert(d.insert(p, x).push(s.last()) =~= s.insert(p, x));
    }
}

proof fn lemma_ins_len<A>(s: Seq<A>, key: spec_fn(A) -> u64, x: A)
    ensures
        ins(s, key, x).len() == s.len() + 1,
    decreases s.len(),
{
    if s.len() > 0 && key(s.last()) > key(x) {
        lemma_ins_len(s.drop_last(), key, x);
    }
}

pub proof fn lemma_sort_len<A>(s: Seq<A>, key: spec_fn(A) -> u64)
    ensures
        sort_by_key(s, key).len() == s.len(),
    decreases s.len(),
{
    if s.len() > 0 {
        lemma_sort_len(s.drop_last(), key);
        lemma_ins_len(sort_by_key(s.drop_last(), key), key, s.last());
    }
}

proof fn lemma_ins_within<A>(s: Seq<A>, key: spec_fn(A) -> u64, x: A, lo: int, hi: int)
    requires
        keys_within(s, key, lo, hi),
        lo <= key(x) <= hi,
    ensures
        keys_within(ins(s, key, x), key, lo, hi),
    decreases s.len(),
{
    if s.len() > 0 && key(s.last()) > key(x) {
        let d = s.drop_last();
        assert(keys_within(d, key, lo, hi)) by {
            assert forall|i: int| 0 <= i < d.len() implies lo <= #[trigger] key(d[i]) <= hi by {
                assert(d[i] == s[i]);
            }
        }
        lemma_ins_within(d, key, x, lo, hi);
        assert(key(s[s.len() - 1]) <= hi);
    } else {
        assert(ins(s, key, x) == s.push(x));
        assert forall|i: int| 0 <= i < s.len() + 1 implies lo <= #[trigger] key(s.push(x)[i]) <= hi by {
            if i < s.len() {
                assert(s.push(x)[i] == s[i]);
            }
        }
    }
}

/// Ordering keeps every key within bounds that held for every key before.
pub proof fn lemma_sort_within<A>(s: Seq<A>, key: spec_fn(A) -> u64, lo: int, hi: int)
    requires
        keys_within(s, key, lo, hi),
    ensures
        keys_within(sort_by_key(s, key), key, lo, hi),
    decreases s.len(),
{
    if s.len() > 0 {
        let d = s.drop_last();
        assert(keys_within(d, key, lo, hi)) by {
            assert forall|i: int| 0 <= i < d.len() implies lo <= #[trigger] key(d[i]) <= hi by {
                assert(d[i] == s[i]);
            }
        }
        lemma_sort_within(d, key, lo, hi);
        assert(lo <= key(s[s.len() - 1]) <= hi);
        lemma_ins_within(sort_by_key(d, key), key, s.last(), lo, hi);
    }
}

proof fn lemma_ins_sorted<A>(s: Seq<A>, key: spec_fn(A) -> u64, x: A)
    requires
        sorted_by(s, key),
    ensures
        sorted_by(ins(s, key, x), key),
        s.len() > 0 ==> keys_within(
            ins(s, key, x),
            key,
            0,
            if key(x) < key(s.last()) { key(s.last()) as int } else { key(x) as int },
        ),
        s.len() == 0 ==> keys_within(ins(s, key, x), key, 0, key(x) as int),
    decreases s.len(),
{
    let r = ins(s, key, x);
    if s.len() == 0 || key(s.last()) <= key(x) {
        assert(r == s.push(x));
        assert forall|i: int| 0 <= i < r.len() implies 0 <= #[trigger] key(r[i]) <= key(x) by {
            if i < s.len() {
                assert(r[i] == s[i]);
                assert(key(s[i]) <= key(s[s.len() - 1]));
            }
        }
    } else {
        let d = s.drop_last();
        let last = s.last();
        assert(sorted_by(d, key)) by {
            assert forall|i: int, j: int| 0 <= i <= j < d.len() implies key(d[i]) <= key(d[j]) by {
                assert(d[i] == s[i] && d[j] == s[j]);
            }
        }
        lemma_ins_sorted(d, key, x);
        let t = ins(d, key, x);
        lemma_ins_len(d, key, x);
        assert(r == t.push(last));
        if d.len() > 0 {
            assert(key(d.last()) <= key(last)) by {
                assert(d.last() == s[s.len() - 2]);
            }
        }
        assert forall|i: int| 0 <= i < t.len() implies key(#[trigger] t[i]) <= key(last) by {
            assert(0 <= key(t[i]));
        }
        assert forall|i: int, j: int| 0 <= i <= j < r.len() implies key(r[i]) <= key(r[j]) by {
            if j < t.len() {
                assert(r[i] == t[i] && r[j] == t[j]);
            } else if i < t.len() {
                assert(r[i] == t[i]);
            }
        }
        assert forall|i: int| 0 <= i < r.len() implies 0 <= #[trigger] key(r[i]) <= key(last) by {
            if i < t.len() {
                assert(r[i] == t[i]);
            }
        }
    }
}

/// The ordered sequence is ascending by key.
pub proof fn lemma_sort_sorted<A>(s: Seq<A>, key: spec_fn(A) -> u64)
    ensures
        sorted_by(sort_by_key(s, key), key),
    decreases s.len(),
{
    if s.len() > 0 {
        lemma_sort_sorted(s.drop_last(), key);
        lemma_ins_sorted(sort_by_key(s.drop_last(), key), key, s.last());
    }
}

proof fn lemma_with_key_push<A>(s: Seq<A>, key: spec_fn(A) -> u64, k: u64, x: A)
    ensures
        with_key(s.push(x), key, k) == (if key(x) == k {
            with_key(s, key, k).push(x)
        } else {
            with_key(s, key, k)
        }),
{
    assert(s.push(x).drop_last() =~= s);
}

proof fn lemma_ins_stable<A>(s: Seq<A>, key: spec_fn(A) -> u64, k: u64, x: A)
    ensures
        with_key(ins(s, key, x), key, k) == (if key(x) == k {
            with_key(s, key, k).push(x)
        } else {
            with_key(s, key, k)
        }),
    decreases s.len(),
{
    if s.len() == 0 || key(s.last()) <= key(x) {
        lemma_with_key_push(s, key, k, x);
    } else {
        let d = s.drop_last();
        lemma_ins_stable(d, key, k, x);
        lemma_with_key_push(ins(d, key, x), key, k, s.last());
        assert(d.push(s.last()) =~= s);
        lemma_with_key_push(d, key, k, s.last());
    }
}

/// Ordering keeps, among the elements of any one key, the order they had.
pub proof fn lemma_sort_stable<A>(s: Seq<A>, key: spec_fn(A) -> u64, k: u64)
    ensures
        with_key(sort_by_key(s, key), key, k) == with_key(s, key, k),
    decreases s.len(),
{
    if s.len() > 0 {
        let d = s.drop_last();
        lemma_sort_stable(d, key, k);
        lemma_ins_stable(sort_by_key(d, key), key, k, s.last());
        assert(d.push(s.last()) =~= s);
        lemma_with_key_push(d, key, k, s.last());
    }
}

} // verus!
