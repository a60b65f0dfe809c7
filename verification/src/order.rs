//! Stable sorting by a two-part key.

use vstd::prelude::*;

verus! {

/// Items that are sorted by a primary and a secondary key.
pub trait Keyed: Sized {
    spec fn key(self) -> (int, int);

    fn sort_key(&self) -> (key: (u64, u8))
        ensures
            (key.0 as int, key.1 as int) == self.key(),
    ;
}

/// The lexicographic order of keys.
pub open spec fn key_le(a: (int, int), b: (int, int)) -> bool {
    a.0 < b.0 || (a.0 == b.0 && a.1 <= b.1)
}

/// No item has a larger key than one that stands behind it.
pub open spec fn is_sorted<T: Keyed>(s: Seq<T>) -> bool {
    forall|i: int, j: int|
        #![trigger s[i], s[j]]
        0 <= i <= j < s.len() ==> key_le(s[i].key(), s[j].key())
}

/// The items of `s` that have the key `k`, in their order.
pub open spec fn with_key<T: Keyed>(s: Seq<T>, k: (int, int)) -> Seq<T>
    decreases s.len(),
{
    if s.len() == 0 {
        Seq::empty()
    } else if s.last().key() == k {
        with_key(s.drop_last(), k).push(s.last())
    } else {
        with_key(s.drop_last(), k)
    }
}

/// The sorted sequence `s` with `x` put behind every item whose key is not larger.
pub open spec fn insert_sorted<T: Keyed>(s: Seq<T>, x: T) -> Seq<T>
    decreases s.len(),
{
    if s.len() == 0 || key_le(s.last().key(), x.key()) {
        s.push(x)
    } else {
        insert_sorted(s.drop_last(), x).push(s.last())
    }
}

/// The items of `s` by ascending key, items with equal keys in the order that they have in `s`.
pub open spec fn stable_sort<T: Keyed>(s: Seq<T>) -> Seq<T>
    decreases s.len(),
{
    if s.len() == 0 {
        s
    } else {
        insert_sorted(stable_sort(s.drop_last()), s.last())
    }
}

proof fn with_key_push<T: Keyed>(s: Seq<T>, x: T, k: (int, int))
    ensures
        with_key(s.push(x), k) == if x.key() == k {
            with_key(s, k).push(x)
        } else {
            with_key(s, k)
        },
{
    assert(s.push(x).drop_last() =~= s);
}

proof fn with_key_concat<T: Keyed>(a: Seq<T>, b: Seq<T>, k: (int, int))
    ensures
        with_key(a + b, k) == with_key(a, k) + with_key(b, k),
    decreases b.len(),
{
    if b.len() == 0 {
        assert(a + b =~= a);
        assert(with_key(a, k) + with_key(b, k) =~= with_key(a, k));
    } else {
        let rest = b.drop_last();
        with_key_concat(a, rest, k);
        assert((a + b).drop_last() =~= a + rest);
        assert((a + b).last() == b.last());
        assert(with_key(a, k) + with_key(rest, k).push(b.last()) =~= (with_key(a, k) + with_key(
            rest,
            k,
        )).push(b.last()));
    }
}

proof fn with_key_members<T: Keyed>(s: Seq<T>, k: (int, int))
    ensures
        forall|i: int|
            0 <= i < with_key(s, k).len() ==> (#[trigger] with_key(s, k)[i]).key() == k
                && s.contains(with_key(s, k)[i]),
        forall|i: int| 0 <= i < s.len() && (#[trigger] s[i]).key() == k ==> with_key(s, k).len() > 0,
    decreases s.len(),
{
    if s.len() > 0 {
        let rest = s.drop_last();
        with_key_members(rest, k);
        assert forall|i: int| 0 <= i < with_key(s, k).len() implies (#[trigger] with_key(
            s,
            k,
        )[i]).key() == k && s.contains(with_key(s, k)[i]) by {
            if i < with_key(rest, k).len() {
                let x = with_key(rest, k)[i];
                assert(with_key(s, k)[i] == x);
                let m = choose|m: int| 0 <= m < rest.len() && rest[m] == x;
                assert(s[m] == x);
            } else {
                assert(s[s.len() - 1] == s.last());
            }
        }
        assert forall|i: int| 0 <= i < s.len() && (#[trigger] s[i]).key() == k implies with_key(
            s,
            k,
        ).len() > 0 by {
            if i < s.len() - 1 {
                assert(rest[i] == s[i]);
            }
        }
    }
}

proof fn insert_sorted_keeps_order<T: Keyed>(s: Seq<T>, x: T)
    requires
        is_sorted(s),
    ensures
        is_sorted(insert_sorted(s, x)),
        insert_sorted(s, x).len() == s.len() + 1,
        forall|k: (int, int)| #[trigger]
            with_key(insert_sorted(s, x), k) == with_key(s.push(x), k),
        forall|i: int|
            0 <= i < s.len() + 1 ==> (#[trigger] insert_sorted(s, x)[i]) == x || s.contains(
                insert_sorted(s, x)[i],
            ),
    decreases s.len(),
{
    if s.len() == 0 || key_le(s.last().key(), x.key()) {
        assert forall|i: int| 0 <= i < s.len() + 1 implies (#[trigger] s.push(x)[i]) == x
            || s.contains(s.push(x)[i]) by {
            if i < s.len() {
                assert(s.push(x)[i] == s[i]);
            }
        }
    } else {
        let rest = s.drop_last();
        assert(is_sorted(rest));
        insert_sorted_keeps_order(rest, x);
        let inner = insert_sorted(rest, x);
        let out = insert_sorted(s, x);
        assert(out == inner.push(s.last()));
        assert forall|i: int| 0 <= i < s.len() + 1 implies (#[trigger] out[i]) == x || s.contains(
            out[i],
        ) by {
            if i < inner.len() {
                assert(out[i] == inner[i]);
                if inner[i] != x {
                    let m = choose|m: int| 0 <= m < rest.len() && rest[m] == inner[i];
                    assert(s[m] == inner[i]);
                }
            } else {
                assert(s[s.len() - 1] == out[i]);
            }
        }
        assert forall|i: int, j: int|
            #![trigger out[i], out[j]]
            0 <= i <= j < out.len() implies key_le(out[i].key(), out[j].key()) by {
            if j < inner.len() {
                assert(out[i] == inner[i] && out[j] == inner[j]);
            } else if i < inner.len() {
                assert(out[i] == inner[i]);
                if inner[i] != x {
                    let m = choose|m: int| 0 <= m < rest.len() && rest[m] == inner[i];
                    assert(s[m] == inner[i]);
                    assert(s[s.len() - 1] == s.last());
                }
            }
        }
        assert forall|k: (int, int)| #[trigger] with_key(out, k) == with_key(s.push(x), k) by {
            with_key_push(inner, s.last(), k);
            with_key_push(s, x, k);
            with_key_push(rest, x, k);
            assert(with_key(inner, k) == with_key(rest.push(x), k));
        }
    }
}

/// `stable_sort` sorts, and it keeps the items of each key and their order.
pub proof fn stable_sort_sorts<T: Keyed>(s: Seq<T>)
    ensures
        is_sorted(stable_sort(s)),
        stable_sort(s).len() == s.len(),
        forall|k: (int, int)| #[trigger] with_key(stable_sort(s), k) == with_key(s, k),
        forall|i: int| 0 <= i < s.len() ==> s.contains(#[trigger] stable_sort(s)[i]),
    decreases s.len(),
{
    if s.len() > 0 {
        let rest = s.drop_last();
        stable_sort_sorts(rest);
        insert_sorted_keeps_order(stable_sort(rest), s.last());
        assert forall|i: int| 0 <= i < s.len() implies s.contains(#[trigger] stable_sort(s)[i]) by {
            let x = stable_sort(s)[i];
            if x == s.last() {
                assert(s[s.len() - 1] == x);
            } else {
                let m = choose|m: int|
                    0 <= m < stable_sort(rest).len() && stable_sort(rest)[m] == x;
                assert(rest.contains(stable_sort(rest)[m]));
                let n = choose|n: int| 0 <= n < rest.len() && rest[n] == x;
                assert(s[n] == x);
            }
        }
        assert forall|k: (int, int)| #[trigger] with_key(stable_sort(s), k) == with_key(s, k) by {
            with_key_push(stable_sort(rest), s.last(), k);
            assert(with_key(stable_sort(rest), k) == with_key(rest, k));
        }
    }
}

/// A sorted sequence is determined by the items of each key and their order.
pub proof fn sorted_is_unique<T: Keyed>(a: Seq<T>, b: Seq<T>)
    requires
        is_sorted(a),
        is_sorted(b),
        forall|k: (int, int)| #[trigger] with_key(a, k) == with_key(b, k),
    ensures
        a == b,
    decreases a.len(),
{
    if a.len() == 0 {
        if b.len() > 0 {
            with_key_members(b, b.last().key());
            assert(b[b.len() - 1].key() == b.last().key());
            assert(with_key(a, b.last().key()).len() == 0);
        }
        assert(a =~= b);
    } else {
        let ka = a.last().key();
        assert(a[a.len() - 1].key() == ka);
        with_key_members(a, ka);
        with_key_members(b, ka);
        assert(with_key(a, ka) == with_key(b, ka));
        let y = with_key(b, ka)[0];
        assert(b.contains(y) && y.key() == ka);
        let m = choose|m: int| 0 <= m < b.len() && b[m] == y;
        assert(b.len() > 0);
        let kb = b.last().key();
        assert(b[b.len() - 1].key() == kb);
        assert(key_le(ka, kb));
        with_key_members(b, kb);
        with_key_members(a, kb);
        assert(with_key(a, kb) == with_key(b, kb));
        let z = with_key(a, kb)[0];
        assert(a.contains(z) && z.key() == kb);
        let n = choose|n: int| 0 <= n < a.len() && a[n] == z;
        assert(key_le(kb, ka));
        assert(ka == kb);
        let ra = a.drop_last();
        let rb = b.drop_last();
        assert(with_key(a, ka).last() == a.last());
        assert(with_key(b, ka).last() == b.last());
        assert forall|k: (int, int)| #[trigger] with_key(ra, k) == with_key(rb, k) by {
            assert(with_key(a, k) == with_key(b, k));
            if k == ka {
                assert(with_key(ra, k) =~= with_key(a, k).drop_last());
                assert(with_key(rb, k) =~= with_key(b, k).drop_last());
            }
        }
        sorted_is_unique(ra, rb);
        assert(a =~= ra.push(a.last()));
        assert(b =~= rb.push(b.last()));
    }
}

/// `stable_sort` loses nothing and adds nothing.
pub proof fn stable_sort_keeps_items<T: Keyed>(s: Seq<T>)
    ensures
        stable_sort(s).to_multiset() == s.to_multiset(),
    decreases s.len(),
{
    if s.len() > 0 {
        let rest = s.drop_last();
        stable_sort_keeps_items(rest);
        insert_sorted_adds_one(stable_sort(rest), s.last());
        vstd::seq_lib::to_multiset_build(rest, s.last());
        assert(rest.push(s.last()) =~= s);
    }
}

proof fn insert_sorted_adds_one<T: Keyed>(s: Seq<T>, x: T)
    ensures
        insert_sorted(s, x).to_multiset() == s.to_multiset().insert(x),
    decreases s.len(),
{
    if s.len() == 0 || key_le(s.last().key(), x.key()) {
        vstd::seq_lib::to_multiset_build(s, x);
    } else {
        let rest = s.drop_last();
        insert_sorted_adds_one(rest, x);
        vstd::seq_lib::to_multiset_build(insert_sorted(rest, x), s.last());
        vstd::seq_lib::to_multiset_build(rest, s.last());
        assert(rest.push(s.last()) =~= s);
        assert(rest.to_multiset().insert(x).insert(s.last()) =~= rest.to_multiset().insert(
            s.last(),
        ).insert(x));
    }
}

/// What is sorted stays as it is.
pub proof fn stable_sort_of_sorted<T: Keyed>(s: Seq<T>)
    requires
        is_sorted(s),
    ensures
        stable_sort(s) == s,
{
    stable_sort_sorts(s);
    sorted_is_unique(stable_sort(s), s);
}

fn key_at_most(a: (u64, u8), b: (u64, u8)) -> (le: bool)
    ensures
        le == key_le((a.0 as int, a.1 as int), (b.0 as int, b.1 as int)),
{
    a.0 < b.0 || (a.0 == b.0 && a.1 <= b.1)
}

/// Merges two sorted vectors; of equal keys, those of `a` come first.
fn merge<T: Keyed + Copy>(a: &Vec<T>, b: &Vec<T>) -> (out: Vec<T>)
    requires
        is_sorted(a@),
        is_sorted(b@),
    ensures
        is_sorted(out@),
        forall|k: (int, int)| #[trigger]
            with_key(out@, k) == with_key(a@, k) + with_key(b@, k),
{
    let mut out: Vec<T> = Vec::new();
    let mut i: usize = 0;
    let mut j: usize = 0;
    proof {
        assert forall|k: (int, int)| #[trigger] with_key(out@, k) == with_key(a@.take(0), k)
            + with_key(b@.take(0), k) by {
            assert(with_key(out@, k) =~= with_key(a@.take(0), k) + with_key(b@.take(0), k));
        }
    }
    while i < a.len() || j < b.len()
        invariant
            i <= a.len(),
            j <= b.len(),
            is_sorted(a@),
            is_sorted(b@),
            is_sorted(out@),
            forall|k: (int, int)| #[trigger]
                with_key(out@, k) == with_key(a@.take(i as int), k) + with_key(
                    b@.take(j as int),
                    k,
                ),
            forall|m: int|
                0 <= m < out@.len() && i < a.len() ==> key_le(
                    (#[trigger] out@[m]).key(),
                    a@[i as int].key(),
                ),
            forall|m: int|
                0 <= m < out@.len() && j < b.len() ==> key_le(
                    (#[trigger] out@[m]).key(),
                    b@[j as int].key(),
                ),
            forall|m: int|
                0 <= m < j && i < a.len() ==> !key_le(a@[i as int].key(), (#[trigger] b@[m]).key()),
        decreases a.len() - i + b.len() - j,
    {
        let ghost before = out@;
        let take_left = if i < a.len() && j < b.len() {
            key_at_most(a[i].sort_key(), b[j].sort_key())
        } else {
            i < a.len()
        };
        if take_left {
            let item = a[i];
            out.push(item);
            proof {
                assert(a@.take(i + 1).drop_last() =~= a@.take(i as int));
                assert forall|k: (int, int)| #[trigger] with_key(out@, k) == with_key(
                    a@.take(i + 1),
                    k,
                ) + with_key(b@.take(j as int), k) by {
                    with_key_push(before, item, k);
                    assert(with_key(before, k) == with_key(a@.take(i as int), k) + with_key(
                        b@.take(j as int),
                        k,
                    ));
                    if item.key() == k {
                        with_key_members(b@.take(j as int), k);
                        if with_key(b@.take(j as int), k).len() > 0 {
                            let y = with_key(b@.take(j as int), k)[0];
                            let m = choose|m: int|
                                0 <= m < b@.take(j as int).len() && b@.take(j as int)[m] == y;
                            assert(b@[m] == y);
                            assert(false);
                        }
                        assert(with_key(out@, k) =~= with_key(a@.take(i + 1), k) + with_key(
                            b@.take(j as int),
                            k,
                        ));
                    }
                }
                assert forall|m: int|
                    0 <= m < j && i + 1 < a.len() implies !key_le(
                    a@[i + 1].key(),
                    (#[trigger] b@[m]).key(),
                ) by {
                    assert(key_le(a@[i as int].key(), a@[i + 1].key()));
                }
            }
            i = i + 1;
        } else {
            let item = b[j];
            out.push(item);
            proof {
                assert(b@.take(j + 1).drop_last() =~= b@.take(j as int));
                assert forall|k: (int, int)| #[trigger] with_key(out@, k) == with_key(
                    a@.take(i as int),
                    k,
                ) + with_key(b@.take(j + 1), k) by {
                    with_key_push(before, item, k);
                    assert(with_key(before, k) == with_key(a@.take(i as int), k) + with_key(
                        b@.take(j as int),
                        k,
                    ));
                    if item.key() == k {
                        assert(with_key(out@, k) =~= with_key(a@.take(i as int), k) + with_key(
                            b@.take(j + 1),
                            k,
                        ));
                    }
                }
            }
            j = j + 1;
        }
    }
    assert(a@.take(a.len() as int) =~= a@);
    assert(b@.take(b.len() as int) =~= b@);
    out
}

/// Sorts the items from `low` up to `high`.
fn sort_range<T: Keyed + Copy>(items: &Vec<T>, low: usize, high: usize) -> (out: Vec<T>)
    requires
        low <= high <= items.len(),
    ensures
        is_sorted(out@),
        forall|k: (int, int)| #[trigger]
            with_key(out@, k) == with_key(items@.subrange(low as int, high as int), k),
    decreases high - low,
{
    let ghost part = items@.subrange(low as int, high as int);
    if high - low <= 1 {
        let mut out: Vec<T> = Vec::new();
        if low < high {
            out.push(items[low]);
        }
        assert(out@ =~= part);
        out
    } else {
        let middle = low + (high - low) / 2;
        let left = sort_range(items, low, middle);
        let right = sort_range(items, middle, high);
        let out = merge(&left, &right);
        proof {
            let a = items@.subrange(low as int, middle as int);
            let b = items@.subrange(middle as int, high as int);
            assert(a + b =~= part);
            assert forall|k: (int, int)| #[trigger] with_key(out@, k) == with_key(part, k) by {
                with_key_concat(a, b, k);
                assert(with_key(left@, k) == with_key(a, k));
                assert(with_key(right@, k) == with_key(b, k));
            }
        }
        out
    }
}

/// Sorts `items` by their keys, keeping the order of items with equal keys.
pub fn sort_by_key<T: Keyed + Copy>(items: &Vec<T>) -> (out: Vec<T>)
    ensures
        out@ == stable_sort(items@),
{
    let out = sort_range(items, 0, items.len());
    proof {
        assert(items@.subrange(0, items.len() as int) =~= items@);
        stable_sort_sorts(items@);
        assert forall|k: (int, int)| #[trigger] with_key(out@, k) == with_key(
            stable_sort(items@),
            k,
        ) by {
            assert(with_key(stable_sort(items@), k) == with_key(items@, k));
        }
        sorted_is_unique(out@, stable_sort(items@));
    }
    out
}

/// A list of all indices from zero up to `count`, each of them once.
pub open spec fn lists_all(order: Seq<int>, count: nat) -> bool {
    &&& order.len() == count
    &&& order.no_duplicates()
    &&& forall|m: int| 0 <= m < order.len() ==> 0 <= #[trigger] order[m] < count
    &&& forall|i: int| 0 <= i < count ==> #[trigger] order.contains(i)
}

proof fn insert_sorted_place<T: Keyed>(s: Seq<T>, x: T) -> (place: int)
    requires
        is_sorted(s),
    ensures
        0 <= place <= s.len(),
        insert_sorted(s, x) == s.insert(place, x),
        forall|i: int| 0 <= i < place ==> key_le((#[trigger] s[i]).key(), x.key()),
        forall|i: int| place <= i < s.len() ==> !key_le((#[trigger] s[i]).key(), x.key()),
    decreases s.len(),
{
    if s.len() == 0 || key_le(s.last().key(), x.key()) {
        assert(s.push(x) =~= s.insert(s.len() as int, x));
        assert forall|i: int| 0 <= i < s.len() implies key_le((#[trigger] s[i]).key(), x.key()) by {
            assert(key_le(s[i].key(), s[s.len() - 1].key()));
        }
        s.len() as int
    } else {
        let rest = s.drop_last();
        assert forall|i: int, j: int|
            #![trigger rest[i], rest[j]]
            0 <= i <= j < rest.len() implies key_le(rest[i].key(), rest[j].key()) by {
            assert(key_le(s[i].key(), s[j].key()));
        }
        let place = insert_sorted_place(rest, x);
        assert(rest.insert(place, x).push(s.last()) =~= s.insert(place, x));
        assert forall|i: int| 0 <= i < place implies key_le((#[trigger] s[i]).key(), x.key()) by {
            assert(rest[i] == s[i]);
        }
        assert forall|i: int| place <= i < s.len() implies !key_le((#[trigger] s[i]).key(), x.key())
            by {
            if i < rest.len() {
                assert(rest[i] == s[i]);
            }
        }
        place
    }
}

/// Sorting puts every item somewhere: it returns the order in which the items of `s` stand then.
/// Keys ascend, and items with the same key stand in the order that they had.
pub proof fn stable_sort_reorders<T: Keyed>(s: Seq<T>) -> (order: Seq<int>)
    ensures
        lists_all(order, s.len()),
        stable_sort(s) == Seq::new(s.len(), |m: int| s[order[m]]),
        forall|a: int, b: int|
            #![trigger order[a], order[b]]
            0 <= a < b < s.len() ==> {
                let first = s[order[a]].key();
                let second = s[order[b]].key();
                ||| first.0 < second.0
                ||| first.0 == second.0 && first.1 < second.1
                ||| first == second && order[a] < order[b]
            },
    decreases s.len(),
{
    if s.len() == 0 {
        assert(stable_sort(s) =~= Seq::new(s.len(), |m: int| s[m]));
        Seq::empty()
    } else {
        let rest = s.drop_last();
        let last = s.len() - 1;
        let before = stable_sort_reorders(rest);
        let sorted = stable_sort(rest);
        stable_sort_sorts(rest);
        let place = insert_sorted_place(sorted, s.last());
        let order = before.insert(place, last);
        assert forall|m: int| 0 <= m < order.len() implies 0 <= #[trigger] order[m] < s.len() by {
            if m < place {
                assert(order[m] == before[m]);
            } else if m > place {
                assert(order[m] == before[m - 1]);
            }
        }
        assert forall|i: int| 0 <= i < s.len() implies #[trigger] order.contains(i) by {
            if i == last {
                assert(order[place] == i);
            } else {
                assert(before.contains(i));
                let m = choose|m: int| 0 <= m < before.len() && before[m] == i;
                if m < place {
                    assert(order[m] == i);
                } else {
                    assert(order[m + 1] == i);
                }
            }
        }
        assert forall|a: int, b: int| 0 <= a < order.len() && 0 <= b < order.len() && a != b implies order[a]
            != order[b] by {
            let x = if a < place { a } else { a - 1 };
            let y = if b < place { b } else { b - 1 };
            if a == place {
                assert(order[b] == before[y]);
            } else if b == place {
                assert(order[a] == before[x]);
            } else {
                assert(order[a] == before[x] && order[b] == before[y]);
                assert(x != y);
            }
        }
        assert(stable_sort(s) =~= Seq::new(s.len(), |m: int| s[order[m]])) by {
            assert forall|m: int| 0 <= m < s.len() implies #[trigger] stable_sort(s)[m]
                == s[order[m]] by {
                if m < place {
                    assert(sorted[m] == rest[before[m]]);
                } else if m > place {
                    assert(sorted[m - 1] == rest[before[m - 1]]);
                }
            }
        }
        assert forall|a: int, b: int|
            #![trigger order[a], order[b]]
            0 <= a < b < s.len() implies {
            let first = s[order[a]].key();
            let second = s[order[b]].key();
            ||| first.0 < second.0
            ||| first.0 == second.0 && first.1 < second.1
            ||| first == second && order[a] < order[b]
        } by {
            if b < place {
                assert(order[a] == before[a] && order[b] == before[b]);
            } else if a > place {
                assert(order[a] == before[a - 1] && order[b] == before[b - 1]);
            } else if b == place {
                assert(order[a] == before[a]);
                assert(sorted[a] == rest[before[a]]);
                assert(key_le(sorted[a].key(), s.last().key()));
            } else if a == place {
                assert(order[b] == before[b - 1]);
                assert(sorted[b - 1] == rest[before[b - 1]]);
                assert(!key_le(sorted[b - 1].key(), s.last().key()));
            } else {
                assert(order[a] == before[a] && order[b] == before[b - 1]);
            }
        }
        order
    }
}

} // verus!
