//! Text order, and a stable sort by a text key.
//!
//! Two texts compare the way `String`s do: character by character, by code
//! point, a proper prefix first.

use vstd::prelude::*;
use vstd::multiset::Multiset;

verus! {

broadcast use vstd::seq_lib::group_seq_properties;

/// `a` comes no later than `b` in text order.
pub open spec fn lex_le(a: Seq<char>, b: Seq<char>) -> bool
    decreases a.len(),
{
    if a.len() == 0 {
        true
    } else if b.len() == 0 {
        false
    } else if a[0] != b[0] {
        a[0] < b[0]
    } else {
        lex_le(a.drop_first(), b.drop_first())
    }
}

/// `a` comes strictly before `b` in text order.
pub open spec fn lex_lt(a: Seq<char>, b: Seq<char>) -> bool {
    !lex_le(b, a)
}

pub proof fn lemma_lex_total(a: Seq<char>, b: Seq<char>)
    ensures
        lex_le(a, b) || lex_le(b, a),
    decreases a.len(),
{
    if a.len() > 0 && b.len() > 0 && a[0] == b[0] {
        lemma_lex_total(a.drop_first(), b.drop_first());
    }
}

pub proof fn lemma_lex_refl(a: Seq<char>)
    ensures
        lex_le(a, a),
    decreases a.len(),
{
    if a.len() > 0 {
        lemma_lex_refl(a.drop_first());
    }
}

pub proof fn lemma_lex_trans(a: Seq<char>, b: Seq<char>, c: Seq<char>)
    requires
        lex_le(a, b),
        lex_le(b, c),
    ensures
        lex_le(a, c),
    decreases a.len(),
{
    if a.len() > 0 && b.len() > 0 && c.len() > 0 && a[0] == b[0] && b[0] == c[0] {
        lemma_lex_trans(a.drop_first(), b.drop_first(), c.drop_first());
    }
}

pub proof fn lemma_lex_antisym(a: Seq<char>, b: Seq<char>)
    requires
        lex_le(a, b),
        lex_le(b, a),
    ensures
        a == b,
    decreases a.len(),
{
    if a.len() > 0 && b.len() > 0 {
        lemma_lex_antisym(a.drop_first(), b.drop_first());
        assert(a =~= seq![a[0]] + a.drop_first());
        assert(b =~= seq![b[0]] + b.drop_first());
    }
}

/// [`lex_le`], executable.
pub fn text_le(a: &Vec<char>, b: &Vec<char>) -> (r: bool)
    ensures
        r == lex_le(a@, b@),
{
    let mut i: usize = 0;
    assert(a@.subrange(0, a.len() as int) =~= a@);
    assert(b@.subrange(0, b.len() as int) =~= b@);
    while i < a.len() && i < b.len()
        invariant
            i <= a.len(),
            i <= b.len(),
            a@.subrange(0, i as int) == b@.subrange(0, i as int),
            lex_le(a@, b@) == lex_le(a@.subrange(i as int, a.len() as int), b@.subrange(i as int, b.len() as int)),
        decreases a.len() - i,
    {
        let x = a[i];
        let y = b[i];
        let ghost sa = a@.subrange(i as int, a.len() as int);
        let ghost sb = b@.subrange(i as int, b.len() as int);
        assert(sa[0] == x && sb[0] == y);
        if x != y {
            return x < y;
        }
        assert(sa.drop_first() =~= a@.subrange(i + 1, a.len() as int));
        assert(sb.drop_first() =~= b@.subrange(i + 1, b.len() as int));
        assert(a@.subrange(0, i + 1) =~= a@.subrange(0, i as int).push(x));
        assert(b@.subrange(0, i + 1) =~= b@.subrange(0, i as int).push(y));
        i = i + 1;
    }
    i == a.len()
}

/// Every key is no later than every key after it.
pub open spec fn keys_sorted<T>(s: Seq<(Vec<char>, T)>) -> bool {
    forall|i: int, j: int| 0 <= i < j < s.len() ==> lex_le(#[trigger] s[i].0@, #[trigger] s[j].0@)
}

/// `out` is `items` rearranged as `idx` says: position `i` holds item
/// `idx[i]`, no item is held twice, and two items with the same key stand in
/// the order they came in.
pub open spec fn stable_order<T>(out: Seq<(Vec<char>, T)>, items: Seq<(Vec<char>, T)>, idx: Seq<int>) -> bool {
    &&& idx.len() == out.len()
    &&& forall|i: int| 0 <= i < idx.len() ==> 0 <= #[trigger] idx[i] < items.len() && out[i] == items[idx[i]]
    &&& forall|i: int, j: int| 0 <= i < j < idx.len() ==> #[trigger] idx[i] != #[trigger] idx[j]
    &&& forall|i: int, j: int|
        0 <= i < j < idx.len() && (#[trigger] out[i]).0@ == (#[trigger] out[j]).0@ ==> idx[i] < idx[j]
}

/// Sort by key, keeping items with equal keys in the order they came.
pub fn sort_by_key<T>(items: Vec<(Vec<char>, T)>) -> (out: Vec<(Vec<char>, T)>)
    ensures
        out@.to_multiset() == items@.to_multiset(),
        out@.len() == items@.len(),
        keys_sorted(out@),
        exists|idx: Seq<int>| stable_order(out@, items@, idx),
{
    let ghost orig = items@;
    let mut rest = items;
    let mut out: Vec<(Vec<char>, T)> = Vec::new();
    let ghost mut idx: Seq<int> = Seq::empty();
    assert(orig.subrange(0, orig.len() as int) =~= orig);
    while rest.len() > 0
        invariant
            rest@ == orig.subrange(0, rest@.len() as int),
            rest@.len() <= orig.len(),
            out@.to_multiset().add(rest@.to_multiset()) == orig.to_multiset(),
            keys_sorted(out@),
            stable_order(out@, orig, idx),
            forall|i: int| 0 <= i < idx.len() ==> rest@.len() <= #[trigger] idx[i],
        decreases rest@.len(),
    {
        let ghost before = rest@;
        let x = rest.pop().unwrap();
        assert(before =~= rest@.push(x));
        let ghost r = rest@.len() as int;
        assert(orig[r] == x);
        let mut p: usize = 0;
        while p < out.len() && !text_le(&x.0, &out[p].0)
            invariant
                p <= out.len(),
                keys_sorted(out@),
                forall|k: int| 0 <= k < p ==> lex_lt(#[trigger] out@[k].0@, x.0@),
            decreases out.len() - p,
        {
            p = p + 1;
        }
        let ghost prev = out@;
        proof {
            if p < prev.len() {
                assert(lex_le(x.0@, prev[p as int].0@));
            }
            prev.insert_ensures(p as int, x);
            assert(prev.insert(p as int, x).remove(p as int) =~= prev);
        }
        out.insert(p, x);
        proof {
            let now = out@;
            assert forall|i: int, j: int| 0 <= i < j < now.len() implies lex_le(
                #[trigger] now[i].0@,
                #[trigger] now[j].0@,
            ) by {
                if j < p {
                    assert(now[i] == prev[i] && now[j] == prev[j]);
                } else if j == p {
                    assert(now[i] == prev[i]);
                    lemma_lex_total(prev[i].0@, x.0@);
                } else if i == p {
                    assert(now[j] == prev[j - 1]);
                    if j - 1 > p {
                        lemma_lex_trans(x.0@, prev[p as int].0@, prev[j - 1].0@);
                    }
                } else if i < p {
                    assert(now[i] == prev[i] && now[j] == prev[j - 1]);
                } else {
                    assert(now[i] == prev[i - 1] && now[j] == prev[j - 1]);
                }
            }
            assert(now.remove(p as int).to_multiset() == now.to_multiset().remove(x));
            assert(now.to_multiset().count(x) > 0);
            assert(now.to_multiset() =~= prev.to_multiset().insert(x));
            assert(before.to_multiset() =~= rest@.to_multiset().insert(x));
            assert(out@.to_multiset().add(rest@.to_multiset()) =~= orig.to_multiset());
            let old_idx = idx;
            let nidx = old_idx.insert(p as int, r);
            assert forall|i: int| 0 <= i < nidx.len() implies 0 <= #[trigger] nidx[i] < orig.len() && now[i] == orig[nidx[i]] by {
                if i < p {
                    assert(nidx[i] == old_idx[i] && now[i] == prev[i]);
                } else if i > p {
                    assert(nidx[i] == old_idx[i - 1] && now[i] == prev[i - 1]);
                }
            }
            assert forall|i: int, j: int| 0 <= i < j < nidx.len() implies #[trigger] nidx[i] != #[trigger] nidx[j] by {
                if j < p {
                    assert(nidx[i] == old_idx[i] && nidx[j] == old_idx[j]);
                } else if j == p {
                    assert(nidx[i] == old_idx[i]);
                } else if i == p {
                    assert(nidx[j] == old_idx[j - 1]);
                } else if i < p {
                    assert(nidx[i] == old_idx[i] && nidx[j] == old_idx[j - 1]);
                } else {
                    assert(nidx[i] == old_idx[i - 1] && nidx[j] == old_idx[j - 1]);
                }
            }
            assert forall|i: int, j: int|
                0 <= i < j < nidx.len() && (#[trigger] now[i]).0@ == (#[trigger] now[j]).0@ implies nidx[i] < nidx[j] by {
                if j < p {
                    assert(nidx[i] == old_idx[i] && nidx[j] == old_idx[j]);
                    assert(now[i] == prev[i] && now[j] == prev[j]);
                } else if j == p {
                    assert(now[i] == prev[i]);
                    assert(lex_lt(prev[i].0@, x.0@));
                    lemma_lex_refl(x.0@);
                } else if i == p {
                    assert(nidx[j] == old_idx[j - 1]);
                } else if i < p {
                    assert(nidx[i] == old_idx[i] && nidx[j] == old_idx[j - 1]);
                    assert(now[i] == prev[i] && now[j] == prev[j - 1]);
                } else {
                    assert(nidx[i] == old_idx[i - 1] && nidx[j] == old_idx[j - 1]);
                    assert(now[i] == prev[i - 1] && now[j] == prev[j - 1]);
                }
            }
            assert forall|i: int| 0 <= i < nidx.len() implies rest@.len() <= #[trigger] nidx[i] by {
                if i < p {
                    assert(nidx[i] == old_idx[i]);
                } else if i > p {
                    assert(nidx[i] == old_idx[i - 1]);
                }
            }
            idx = nidx;
        }
    }
    assert(stable_order(out@, items@, idx));
    assert(rest@.to_multiset() =~= Multiset::empty());
    assert(out@.to_multiset() =~= out@.to_multiset().add(rest@.to_multiset()));
    assert(out@.len() == out@.to_multiset().len());
    assert(items@.len() == items@.to_multiset().len());
    out
}

} // verus!

verus! {

/// Mapping two sequences that hold the same items gives two sequences that
/// hold the same items.
pub proof fn lemma_map_keeps_multiset<A, B>(s: Seq<A>, t: Seq<A>, f: spec_fn(A) -> B)
    requires
        s.to_multiset() == t.to_multiset(),
    ensures
        s.map_values(f).to_multiset() == t.map_values(f).to_multiset(),
    decreases s.len(),
{
    if s.len() == 0 {
        assert(t.to_multiset().len() == 0);
        assert(t.len() == 0);
        assert(s.map_values(f) =~= Seq::<B>::empty());
        assert(t.map_values(f) =~= Seq::<B>::empty());
    } else {
        let x = s.last();
        assert(s =~= s.drop_last().push(x));
        assert(s.to_multiset().count(x) > 0);
        assert(t.contains(x));
        let k = choose|k: int| 0 <= k < t.len() && t[k] == x;
        let t2 = t.remove(k);
        assert(t2.to_multiset() == t.to_multiset().remove(x));
        assert(s.drop_last().to_multiset() =~= s.to_multiset().remove(x));
        lemma_map_keeps_multiset(s.drop_last(), t2, f);
        assert(s.map_values(f) =~= s.drop_last().map_values(f).push(f(x)));
        let mt = t.map_values(f);
        assert(mt.remove(k) =~= t2.map_values(f));
        assert(mt[k] == f(x));
        assert(mt.remove(k).to_multiset() == mt.to_multiset().remove(f(x)));
        assert(mt.to_multiset().count(f(x)) > 0);
        assert(mt.to_multiset() =~= mt.remove(k).to_multiset().insert(f(x)));
    }
}

} // verus!

verus! {

/// The items of key-value pairs, in order, without their keys.
pub fn values_of<T>(pairs: Vec<(Vec<char>, T)>) -> (out: Vec<T>)
    ensures
        out@.len() == pairs@.len(),
        forall|i: int| 0 <= i < pairs@.len() ==> #[trigger] out@[i] == pairs@[i].1,
{
    let ghost orig = pairs@;
    let mut rest = pairs;
    let mut backwards: Vec<T> = Vec::new();
    while rest.len() > 0
        invariant
            rest@.len() + backwards@.len() == orig.len(),
            rest@ == orig.subrange(0, rest@.len() as int),
            forall|k: int| 0 <= k < backwards@.len() ==> #[trigger] backwards@[k] == orig[orig.len() - 1 - k].1,
        decreases rest@.len(),
    {
        let (_, v) = rest.pop().unwrap();
        backwards.push(v);
    }
    let mut out: Vec<T> = Vec::new();
    while backwards.len() > 0
        invariant
            backwards@.len() + out@.len() == orig.len(),
            forall|k: int| 0 <= k < backwards@.len() ==> #[trigger] backwards@[k] == orig[orig.len() - 1 - k].1,
            forall|k: int| 0 <= k < out@.len() ==> #[trigger] out@[k] == orig[k].1,
        decreases backwards@.len(),
    {
        let v = backwards.pop().unwrap();
        out.push(v);
    }
    out
}

/// Every item of a sorted result was an item of the input.
pub proof fn lemma_sorted_items_came_from_input<T>(s: Seq<T>, t: Seq<T>, i: int)
    requires
        s.to_multiset() == t.to_multiset(),
        0 <= i < s.len(),
    ensures
        t.contains(s[i]),
{
    assert(s.contains(s[i]));
    assert(s.to_multiset().count(s[i]) > 0);
}

} // verus!
