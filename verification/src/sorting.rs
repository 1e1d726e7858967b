//! Stable sorting of texts.
//!
//! Texts are ordered by their UTF-8 bytes. A sort is described by the order of
//! positions it produces: position `i` comes before position `j` when its key is
//! smaller, or when the keys are equal and it stood first.

use vstd::prelude::*;
use vstd::relations::*;
use vstd::string::*;
use vstd::utf8::*;

use crate::schema;
use crate::text;

verus! {

broadcast use vstd::seq_lib::group_seq_properties;

/// Lexicographic order of byte sequences.
pub open spec fn lex_le(a: Seq<u8>, b: Seq<u8>) -> bool
    decreases a.len(),
{
    if a.len() == 0 {
        true
    } else if b.len() == 0 {
        false
    } else if a[0] != b[0] {
        a[0] < b[0]
    } else {
        lex_le(a.drop_first(), b.drop_first())
    }
}

/// The order of texts: that of their UTF-8 bytes.
pub open spec fn text_le(a: Seq<char>, b: Seq<char>) -> bool {
    lex_le(encode_utf8(a), encode_utf8(b))
}

proof fn lemma_lex_reflexive(a: Seq<u8>)
    ensures
        lex_le(a, a),
    decreases a.len(),
{
    if a.len() > 0 {
        lemma_lex_reflexive(a.drop_first());
    }
}

proof fn lemma_lex_antisymmetric(a: Seq<u8>, b: Seq<u8>)
    requires
        lex_le(a, b),
        lex_le(b, a),
    ensures
        a == b,
    decreases a.len(),
{
    if a.len() == 0 || b.len() == 0 {
        assert(a =~= b);
    } else {
        lemma_lex_antisymmetric(a.drop_first(), b.drop_first());
        assert(a =~= seq![a[0]] + a.drop_first());
        assert(b =~= seq![b[0]] + b.drop_first());
    }
}

proof fn lemma_lex_transitive(a: Seq<u8>, b: Seq<u8>, c: Seq<u8>)
    requires
        lex_le(a, b),
        lex_le(b, c),
    ensures
        lex_le(a, c),
    decreases a.len(),
{
    if a.len() > 0 && b.len() > 0 && c.len() > 0 && a[0] == b[0] && b[0] == c[0] {
        lemma_lex_transitive(a.drop_first(), b.drop_first(), c.drop_first());
    }
}

proof fn lemma_lex_total(a: Seq<u8>, b: Seq<u8>)
    ensures
        lex_le(a, b) || lex_le(b, a),
    decreases a.len(),
{
    if a.len() > 0 && b.len() > 0 && a[0] == b[0] {
        lemma_lex_total(a.drop_first(), b.drop_first());
    }
}

/// A sort key: texts that are `late` come after all that are not.
pub struct SortKey<'a> {
    pub late: bool,
    pub text: &'a str,
}

/// What a [`SortKey`] stands for.
pub struct KeyView {
    pub late: bool,
    pub text: Seq<char>,
}

impl<'a> View for SortKey<'a> {
    type V = KeyView;

    open spec fn view(&self) -> KeyView {
        KeyView { late: self.late, text: self.text@ }
    }
}

/// The order of keys.
pub open spec fn key_le(a: KeyView, b: KeyView) -> bool {
    if a.late != b.late {
        b.late
    } else {
        text_le(a.text, b.text)
    }
}

/// The order of positions: by key, and among equal keys by position.
pub open spec fn position_le(keys: Seq<KeyView>, i: int, j: int) -> bool {
    if keys[i] == keys[j] {
        i <= j
    } else {
        key_le(keys[i], keys[j])
    }
}

/// The order of positions as a relation.
pub open spec fn by_position(keys: Seq<KeyView>) -> spec_fn(int, int) -> bool {
    |i: int, j: int| position_le(keys, i, j)
}

/// The positions from `lo` up to `hi`, in order.
pub open spec fn positions(lo: int, hi: int) -> Seq<int> {
    Seq::new((if lo <= hi {
        hi - lo
    } else {
        0
    }) as nat, |i: int| lo + i)
}

/// The positions of `keys`, sorted.
pub open spec fn sorted_positions(keys: Seq<KeyView>) -> Seq<int> {
    positions(0, keys.len() as int).sort_by(by_position(keys))
}

/// The elements of `s` at the positions `order`.
pub open spec fn arranged<A>(s: Seq<A>, order: Seq<int>) -> Seq<A> {
    order.map_values(|i: int| s[i])
}

/// The key of a text that is sorted by itself.
pub open spec fn plain_key(t: Seq<char>) -> KeyView {
    KeyView { late: false, text: t }
}

/// The keys of texts that are sorted by themselves.
pub open spec fn plain_keys(s: Seq<Seq<char>>) -> Seq<KeyView> {
    s.map_values(|t: Seq<char>| plain_key(t))
}

/// The texts of `s`, sorted.
pub open spec fn sorted_texts(s: Seq<Seq<char>>) -> Seq<Seq<char>> {
    arranged(s, sorted_positions(plain_keys(s)))
}

proof fn lemma_key_order(a: KeyView, b: KeyView, c: KeyView)
    ensures
        key_le(a, a),
        key_le(a, b) && key_le(b, a) ==> a == b,
        key_le(a, b) && key_le(b, c) ==> key_le(a, c),
        key_le(a, b) || key_le(b, a),
{
    let (x, y, z) = (encode_utf8(a.text), encode_utf8(b.text), encode_utf8(c.text));
    lemma_lex_reflexive(x);
    lemma_lex_total(x, y);
    if lex_le(x, y) && lex_le(y, x) {
        lemma_lex_antisymmetric(x, y);
        text::lemma_encoding_injective(a.text, b.text);
    }
    if lex_le(x, y) && lex_le(y, z) {
        lemma_lex_transitive(x, y, z);
    }
}

/// Sorting positions is sorting by a total order.
pub proof fn lemma_position_order(keys: Seq<KeyView>)
    ensures
        total_ordering(by_position(keys)),
{
    let r = by_position(keys);
    assert forall|x: int| #[trigger] r(x, x) by {
        lemma_key_order(keys[x], keys[x], keys[x]);
    }
    assert forall|x: int, y: int| #[trigger] r(x, y) && #[trigger] r(y, x) implies x == y by {
        lemma_key_order(keys[x], keys[y], keys[x]);
    }
    assert forall|x: int, y: int, z: int| #[trigger] r(x, y) && #[trigger] r(y, z) implies r(x, z) by {
        lemma_key_order(keys[x], keys[y], keys[z]);
        lemma_key_order(keys[y], keys[z], keys[x]);
        lemma_key_order(keys[z], keys[x], keys[y]);
    }
    assert forall|x: int, y: int| #[trigger] r(x, y) || #[trigger] r(y, x) by {
        lemma_key_order(keys[x], keys[y], keys[x]);
    }
}

/// Whether `a` comes no later than `b` in the order of texts.
pub fn text_is_le(a: &str, b: &str) -> (r: bool)
    ensures
        r == text_le(a@, b@),
{
    let x = a.as_bytes();
    let y = b.as_bytes();
    let mut i: usize = 0;
    assert(x@.skip(0) =~= x@);
    assert(y@.skip(0) =~= y@);
    while i < x.len()
        invariant
            i <= x@.len(),
            i <= y@.len(),
            x@ == encode_utf8(a@),
            y@ == encode_utf8(b@),
            lex_le(x@, y@) == lex_le(x@.skip(i as int), y@.skip(i as int)),
        decreases x@.len() - i,
    {
        if i >= y.len() {
            return false;
        }
        if x[i] != y[i] {
            return x[i] < y[i];
        }
        assert(x@.skip(i as int).drop_first() =~= x@.skip(i + 1));
        assert(y@.skip(i as int).drop_first() =~= y@.skip(i + 1));
        i += 1;
    }
    true
}

/// What the keys of a list stand for.
pub open spec fn key_views(keys: Seq<SortKey<'_>>) -> Seq<KeyView> {
    keys.map_values(|k: SortKey<'_>| k@)
}

/// A list of positions, as mathematical integers.
pub open spec fn ints(s: Seq<usize>) -> Seq<int> {
    s.map_values(|i: usize| i as int)
}

fn position_is_le(keys: &Vec<SortKey<'_>>, i: usize, j: usize) -> (r: bool)
    requires
        i < j < keys@.len(),
    ensures
        r == position_le(key_views(keys@), i as int, j as int),
{
    let a = &keys[i];
    let b = &keys[j];
    assert(key_views(keys@)[i as int] == a@);
    assert(key_views(keys@)[j as int] == b@);
    proof {
        lemma_key_order(a@, b@, a@);
    }
    if a.late != b.late {
        b.late
    } else {
        text_is_le(a.text, b.text)
    }
}

/// Merge two sorted lists of positions, all of the first standing before all of
/// the second.
fn merge(keys: &Vec<SortKey<'_>>, left: &Vec<usize>, right: &Vec<usize>) -> (r: Vec<usize>)
    requires
        sorted_by(ints(left@), by_position(key_views(keys@))),
        sorted_by(ints(right@), by_position(key_views(keys@))),
        forall|i: int, j: int| 0 <= i < left@.len() && 0 <= j < right@.len() ==> left@[i] < right@[j],
        forall|i: int| 0 <= i < left@.len() ==> left@[i] < keys@.len(),
        forall|i: int| 0 <= i < right@.len() ==> right@[i] < keys@.len(),
    ensures
        sorted_by(ints(r@), by_position(key_views(keys@))),
        ints(r@).to_multiset() == (ints(left@) + ints(right@)).to_multiset(),
{
    let ghost le = by_position(key_views(keys@));
    let mut r: Vec<usize> = Vec::new();
    let mut i: usize = 0;
    let mut j: usize = 0;
    proof {
        lemma_position_order(key_views(keys@));
        assert(ints(r@) =~= ints(left@).take(0) + ints(right@).take(0));
    }
    while i < left.len() || j < right.len()
        invariant
            i <= left@.len(),
            j <= right@.len(),
            le == by_position(key_views(keys@)),
            total_ordering(le),
            sorted_by(ints(left@), le),
            sorted_by(ints(right@), le),
            forall|i: int, j: int| 0 <= i < left@.len() && 0 <= j < right@.len() ==> left@[i] < right@[j],
            forall|i: int| 0 <= i < left@.len() ==> left@[i] < keys@.len(),
            forall|i: int| 0 <= i < right@.len() ==> right@[i] < keys@.len(),
            sorted_by(ints(r@), le),
            forall|k: int, m: int|
                0 <= k < r@.len() && i <= m < left@.len() ==> #[trigger] le(ints(r@)[k], ints(left@)[m]),
            forall|k: int, m: int|
                0 <= k < r@.len() && j <= m < right@.len() ==> #[trigger] le(ints(r@)[k], ints(right@)[m]),
            ints(r@).to_multiset() == (ints(left@).take(i as int) + ints(right@).take(j as int)).to_multiset(),
        decreases left@.len() - i + right@.len() - j,
    {
        let ghost before = r@;
        let ghost (i0, j0) = (i as int, j as int);
        let ghost (l, rr) = (ints(left@), ints(right@));
        let take_left = j >= right.len() || (i < left.len() && position_is_le(keys, left[i], right[j]));
        if take_left {
            r.push(left[i]);
            i += 1;
        } else {
            r.push(right[j]);
            j += 1;
        }
        proof {
            let x = r@.last() as int;
            assert(ints(r@) =~= ints(before).push(x));
            if take_left {
                assert(x == l[i0]);
                lemma_take_one(l, rr, i0, j0);
                assert forall|m: int| j0 <= m < right@.len() implies le(x, #[trigger] rr[m]) by {
                    assert(le(l[i0], rr[j0]));
                    if m > j0 {
                        assert(le(rr[j0], rr[m]));
                    }
                }
                assert forall|m: int| i <= m < left@.len() implies le(x, #[trigger] l[m]) by {
                    assert(le(l[i0], l[m]));
                }
            } else {
                assert(x == rr[j0]);
                lemma_take_other(l, rr, i0, j0);
                assert forall|m: int| i0 <= m < left@.len() implies le(x, #[trigger] l[m]) by {
                    assert(!le(l[i0], rr[j0]));
                    assert(le(rr[j0], l[i0]));
                    if m > i0 {
                        assert(le(l[i0], l[m]));
                    }
                }
                assert forall|m: int| j <= m < right@.len() implies le(x, #[trigger] rr[m]) by {
                    assert(le(rr[j0], rr[m]));
                }
            }
            assert forall|k: int, m: int| 0 <= k < m < ints(r@).len() implies #[trigger] le(
                ints(r@)[k],
                ints(r@)[m],
            ) by {
                if m == before.len() {
                    assert(le(ints(before)[k], x));
                } else {
                    assert(le(ints(before)[k], ints(before)[m]));
                }
            }
            assert forall|k: int, m: int| 0 <= k < r@.len() && i <= m < left@.len() implies #[trigger] le(
                ints(r@)[k],
                l[m],
            ) by {
                if k < before.len() {
                    assert(le(ints(before)[k], l[m]));
                }
            }
            assert forall|k: int, m: int| 0 <= k < r@.len() && j <= m < right@.len() implies #[trigger] le(
                ints(r@)[k],
                rr[m],
            ) by {
                if k < before.len() {
                    assert(le(ints(before)[k], rr[m]));
                }
            }
        }
    }
    proof {
        assert(ints(left@).take(i as int) =~= ints(left@));
        assert(ints(right@).take(j as int) =~= ints(right@));
    }
    r
}

/// One more element of the first list joins what was merged.
proof fn lemma_take_one(l: Seq<int>, r: Seq<int>, i: int, j: int)
    requires
        0 <= i < l.len(),
        0 <= j <= r.len(),
    ensures
        (l.take(i + 1) + r.take(j)).to_multiset() == (l.take(i) + r.take(j)).to_multiset().insert(l[i]),
{
    broadcast use vstd::seq_lib::group_to_multiset_ensures;

    vstd::seq_lib::lemma_multiset_commutative(l.take(i + 1), r.take(j));
    vstd::seq_lib::lemma_multiset_commutative(l.take(i), r.take(j));
    assert(l.take(i + 1) =~= l.take(i).push(l[i]));
    assert((l.take(i + 1) + r.take(j)).to_multiset() =~= (l.take(i) + r.take(j)).to_multiset().insert(l[i]));
}

/// One more element of the second list joins what was merged.
proof fn lemma_take_other(l: Seq<int>, r: Seq<int>, i: int, j: int)
    requires
        0 <= i <= l.len(),
        0 <= j < r.len(),
    ensures
        (l.take(i) + r.take(j + 1)).to_multiset() == (l.take(i) + r.take(j)).to_multiset().insert(r[j]),
{
    broadcast use vstd::seq_lib::group_to_multiset_ensures;

    assert(l.take(i) + r.take(j + 1) =~= (l.take(i) + r.take(j)).push(r[j]));
}

/// Sort the positions from `lo` up to `hi`.
fn sort_range(keys: &Vec<SortKey<'_>>, lo: usize, hi: usize) -> (r: Vec<usize>)
    requires
        lo <= hi <= keys@.len(),
    ensures
        sorted_by(ints(r@), by_position(key_views(keys@))),
        ints(r@).to_multiset() == positions(lo as int, hi as int).to_multiset(),
        forall|i: int| 0 <= i < r@.len() ==> lo <= #[trigger] r@[i] < hi,
    decreases hi - lo,
{
    if hi - lo <= 1 {
        let mut r: Vec<usize> = Vec::new();
        if lo < hi {
            r.push(lo);
        }
        assert(ints(r@) =~= positions(lo as int, hi as int));
        return r;
    }
    let mid = lo + (hi - lo) / 2;
    let left = sort_range(keys, lo, mid);
    let right = sort_range(keys, mid, hi);
    let r = merge(keys, &left, &right);
    proof {
        let (a, b) = (positions(lo as int, mid as int), positions(mid as int, hi as int));
        assert(a + b =~= positions(lo as int, hi as int));
        vstd::seq_lib::lemma_multiset_commutative(a, b);
        vstd::seq_lib::lemma_multiset_commutative(ints(left@), ints(right@));
        assert forall|i: int| 0 <= i < r@.len() implies lo <= #[trigger] r@[i] < hi by {
            broadcast use vstd::seq_lib::group_to_multiset_ensures;

            assert(ints(r@)[i] == r@[i]);
            assert(ints(r@).contains(ints(r@)[i]));
            assert(positions(lo as int, hi as int).to_multiset().count(ints(r@)[i]) > 0);
            assert(positions(lo as int, hi as int).contains(ints(r@)[i]));
        }
    }
    r
}

/// The positions of `keys` in sorted order.
pub fn sort_positions(keys: &Vec<SortKey<'_>>) -> (r: Vec<usize>)
    ensures
        ints(r@) == sorted_positions(key_views(keys@)),
        r@.len() == keys@.len(),
        forall|i: int| 0 <= i < r@.len() ==> #[trigger] r@[i] < keys@.len(),
{
    let r = sort_range(keys, 0, keys.len());
    proof {
        let ks = key_views(keys@);
        let ps = positions(0, ks.len() as int);
        lemma_position_order(ks);
        ps.lemma_sort_by_ensures(by_position(ks));
        vstd::seq_lib::lemma_sorted_unique(ints(r@), sorted_positions(ks), by_position(ks));
        ints(r@).to_multiset_ensures();
        ps.to_multiset_ensures();
    }
    r
}

/// What the texts of a list sort to.
pub fn sort_texts(list: &Vec<String>) -> (r: Vec<String>)
    ensures
        schema::texts(r@) == sorted_texts(schema::texts(list@)),
{
    let mut keys: Vec<SortKey<'_>> = Vec::new();
    let mut i: usize = 0;
    while i < list.len()
        invariant
            i <= list@.len(),
            keys@.len() == i,
            forall|k: int| 0 <= k < i ==> (#[trigger] keys@[k])@ == plain_key(list@[k]@),
        decreases list@.len() - i,
    {
        keys.push(SortKey { late: false, text: list[i].as_str() });
        i += 1;
    }
    assert(key_views(keys@) =~= plain_keys(schema::texts(list@)));
    let order = sort_positions(&keys);
    let mut r: Vec<String> = Vec::new();
    let mut k: usize = 0;
    while k < order.len()
        invariant
            k <= order@.len(),
            r@.len() == k,
            forall|m: int| 0 <= m < order@.len() ==> #[trigger] order@[m] < list@.len(),
            forall|m: int| 0 <= m < k ==> (#[trigger] r@[m])@ == list@[order@[m] as int]@,
        decreases order@.len() - k,
    {
        r.push(list[order[k]].clone());
        k += 1;
    }
    proof {
        let sorted = sorted_texts(schema::texts(list@));
        assert forall|m: int| 0 <= m < r@.len() implies schema::texts(r@)[m] == sorted[m] by {
            assert(ints(order@)[m] == order@[m]);
            assert(order@[m] < list@.len());
        }
        assert(schema::texts(r@) =~= sorted);
    }
    r
}

/// A sort visits every position exactly once, never goes down in the order of
/// keys, and keeps equal keys in the order in which they stood.
pub proof fn law_sort_is_stable(keys: Seq<KeyView>)
    ensures
        ({
            let order = sorted_positions(keys);
            &&& order.len() == keys.len()
            &&& order.to_multiset() == positions(0, keys.len() as int).to_multiset()
            &&& forall|a: int| 0 <= a < order.len() ==> 0 <= #[trigger] order[a] < keys.len()
            &&& forall|a: int, b: int|
                0 <= a < b < order.len() ==> {
                    &&& key_le(keys[#[trigger] order[a]], keys[#[trigger] order[b]])
                    &&& keys[order[a]] == keys[order[b]] ==> order[a] < order[b]
                }
        }),
{
    let order = sorted_positions(keys);
    let all = positions(0, keys.len() as int);
    let le = by_position(keys);
    lemma_position_order(keys);
    all.lemma_sort_by_ensures(le);
    order.to_multiset_ensures();
    all.to_multiset_ensures();
    assert forall|a: int| 0 <= a < order.len() implies 0 <= #[trigger] order[a] < keys.len() by {
        assert(order.contains(order[a]));
        assert(all.contains(order[a]));
    }
    assert(all.no_duplicates());
    all.lemma_multiset_has_no_duplicates();
    order.lemma_multiset_has_no_duplicates_conv();
    assert forall|a: int, b: int| 0 <= a < b < order.len() implies {
        &&& key_le(keys[#[trigger] order[a]], keys[#[trigger] order[b]])
        &&& keys[order[a]] == keys[order[b]] ==> order[a] < order[b]
    } by {
        assert(le(order[a], order[b]));
        lemma_key_order(keys[order[a]], keys[order[b]], keys[order[a]]);
    }
}

/// Two lists with the same elements still have the same elements after both are
/// mapped.
proof fn lemma_map_keeps_multiset<A>(p: Seq<int>, q: Seq<int>, s: Seq<A>)
    requires
        p.to_multiset() == q.to_multiset(),
    ensures
        arranged(s, p).to_multiset() == arranged(s, q).to_multiset(),
    decreases p.len(),
{
    p.to_multiset_ensures();
    q.to_multiset_ensures();
    if p.len() == 0 {
        assert(arranged(s, p) =~= arranged(s, q));
    } else {
        let n = p.len() - 1;
        let x = p[n];
        assert(p.contains(x));
        assert(p.to_multiset().count(x) > 0);
        assert(q.to_multiset().count(x) > 0);
        assert(q.contains(x));
        let k = choose|k: int| 0 <= k < q.len() && q[k] == x;
        assert(p.remove(n) =~= p.drop_last());
        lemma_map_keeps_multiset(p.remove(n), q.remove(k), s);
        let (mp, mq) = (arranged(s, p), arranged(s, q));
        assert(mp.remove(n) =~= arranged(s, p.remove(n)));
        assert(mq.remove(k) =~= arranged(s, q.remove(k)));
        mp.to_multiset_ensures();
        mq.to_multiset_ensures();
        assert(mp.contains(mp[n]));
        assert(mq.contains(mq[k]));
        assert(mp.to_multiset() =~= mp.remove(n).to_multiset().insert(s[x]));
        assert(mq.to_multiset() =~= mq.remove(k).to_multiset().insert(s[x]));
    }
}

/// Sorting loses nothing and adds nothing.
pub proof fn law_sort_is_permutation<A>(s: Seq<A>, keys: Seq<KeyView>)
    requires
        s.len() == keys.len(),
    ensures
        arranged(s, sorted_positions(keys)).to_multiset() == s.to_multiset(),
{
    law_sort_is_stable(keys);
    let all = positions(0, keys.len() as int);
    lemma_map_keeps_multiset(sorted_positions(keys), all, s);
    assert(arranged(s, all) =~= s);
}

/// Sorted texts hold the same texts, and never go down.
pub proof fn law_sorted_texts(s: Seq<Seq<char>>)
    ensures
        sorted_texts(s).to_multiset() == s.to_multiset(),
        forall|a: int, b: int|
            0 <= a < b < sorted_texts(s).len() ==> text_le(#[trigger] sorted_texts(s)[a], #[trigger] sorted_texts(s)[b]),
{
    let keys = plain_keys(s);
    law_sort_is_stable(keys);
    law_sort_is_permutation(s, keys);
    let order = sorted_positions(keys);
    assert forall|a: int, b: int| 0 <= a < b < sorted_texts(s).len() implies text_le(
        #[trigger] sorted_texts(s)[a],
        #[trigger] sorted_texts(s)[b],
    ) by {
        assert(key_le(keys[order[a]], keys[order[b]]));
    }
}

/// The elements of `s`, sorted by `key`.
pub open spec fn sorted_by_key<A>(s: Seq<A>, key: spec_fn(A) -> KeyView) -> Seq<A> {
    arranged(s, sorted_positions(s.map_values(key)))
}

/// The positions of the elements of `s` that satisfy `f`.
pub open spec fn kept_positions<A>(s: Seq<A>, f: spec_fn(A) -> bool) -> Seq<int>
    decreases s.len(),
{
    if s.len() == 0 {
        seq![]
    } else {
        let before = kept_positions(s.drop_last(), f);
        if f(s.last()) {
            before.push(s.len() - 1)
        } else {
            before
        }
    }
}

proof fn lemma_kept_positions<A>(s: Seq<A>, f: spec_fn(A) -> bool)
    ensures
        arranged(s, kept_positions(s, f)) == s.filter(f),
        forall|j: int|
            0 <= j < kept_positions(s, f).len() ==> 0 <= #[trigger] kept_positions(s, f)[j] < s.len() && f(
                s[kept_positions(s, f)[j]],
            ),
        forall|i: int, j: int|
            0 <= i < j < kept_positions(s, f).len() ==> #[trigger] kept_positions(s, f)[i]
                < #[trigger] kept_positions(s, f)[j],
        forall|i: int| 0 <= i < s.len() && f(#[trigger] s[i]) ==> kept_positions(s, f).contains(i),
    decreases s.len(),
{
    reveal(Seq::filter);
    let kept = kept_positions(s, f);
    if s.len() == 0 {
        assert(arranged(s, kept) =~= s.filter(f));
    } else {
        let most = s.drop_last();
        let before = kept_positions(most, f);
        lemma_kept_positions(most, f);
        assert forall|j: int| 0 <= j < before.len() implies s[#[trigger] before[j]] == most[before[j]] by {}
        assert(arranged(s, before) =~= arranged(most, before));
        if f(s.last()) {
            assert(arranged(s, kept) =~= arranged(s, before).push(s.last()));
        }
        assert forall|i: int| 0 <= i < s.len() && f(#[trigger] s[i]) implies kept.contains(i) by {
            if i < most.len() {
                assert(f(most[i]));
                let j = choose|j: int| 0 <= j < before.len() && before[j] == i;
                assert(kept[j] == i);
            } else {
                assert(kept[kept.len() - 1] == i);
            }
        }
    }
}

proof fn lemma_filter_keeps_sorted(s: Seq<int>, le: spec_fn(int, int) -> bool, p: spec_fn(int) -> bool)
    requires
        sorted_by(s, le),
    ensures
        sorted_by(s.filter(p), le),
    decreases s.len(),
{
    reveal(Seq::filter);
    if s.len() > 0 {
        let most = s.drop_last();
        let kept = most.filter(p);
        assert(sorted_by(most, le)) by {
            assert forall|i: int, j: int| 0 <= i < j < most.len() implies #[trigger] le(most[i], most[j]) by {
                assert(le(s[i], s[j]));
            }
        }
        lemma_filter_keeps_sorted(most, le, p);
        assert forall|i: int, j: int| 0 <= i < j < s.filter(p).len() implies #[trigger] le(
            s.filter(p)[i],
            s.filter(p)[j],
        ) by {
            if j < kept.len() {
                assert(le(kept[i], kept[j]));
            } else {
                assert(kept.contains(kept[i]));
                most.lemma_filter_contains_rev(p, kept[i]);
                let k = choose|k: int| 0 <= k < most.len() && most[k] == kept[i];
                assert(le(s[k], s[s.len() - 1]));
            }
        }
    }
}

proof fn lemma_arranged_filter<A>(s: Seq<A>, order: Seq<int>, f: spec_fn(A) -> bool)
    ensures
        arranged(s, order.filter(|i: int| f(s[i]))) == arranged(s, order).filter(f),
    decreases order.len(),
{
    reveal(Seq::filter);
    let p = |i: int| f(s[i]);
    if order.len() > 0 {
        let most = order.drop_last();
        lemma_arranged_filter(s, most, f);
        assert(arranged(s, order).drop_last() =~= arranged(s, most));
        assert(arranged(s, order).last() == s[order.last()]);
        if p(order.last()) {
            assert(arranged(s, most.filter(p).push(order.last())) =~= arranged(s, most.filter(p)).push(
                s[order.last()],
            ));
        }
    } else {
        assert(arranged(s, order.filter(p)) =~= arranged(s, order).filter(f));
    }
}

/// Two lists without repetitions that hold the same elements hold them equally
/// often.
proof fn lemma_same_elements(x: Seq<int>, y: Seq<int>)
    requires
        x.no_duplicates(),
        y.no_duplicates(),
        forall|i: int| #[trigger] x.contains(i) <==> y.contains(i),
    ensures
        x.to_multiset() == y.to_multiset(),
{
    x.lemma_multiset_has_no_duplicates();
    y.lemma_multiset_has_no_duplicates();
    x.to_multiset_ensures();
    y.to_multiset_ensures();
    assert forall|i: int| x.to_multiset().count(i) == y.to_multiset().count(i) by {
        assert(x.contains(i) <==> x.to_multiset().count(i) > 0);
        assert(y.contains(i) <==> y.to_multiset().count(i) > 0);
        assert(x.to_multiset().contains(i) <==> x.to_multiset().count(i) > 0);
        assert(y.to_multiset().contains(i) <==> y.to_multiset().count(i) > 0);
        assert(x.contains(i) <==> y.contains(i));
    }
    assert(x.to_multiset() =~= y.to_multiset());
}

proof fn lemma_sorted_part<A>(s: Seq<A>, f: spec_fn(A) -> bool, key: spec_fn(A) -> KeyView)
    ensures
        ({
            let kept = kept_positions(s, f);
            let part = sorted_positions(s.filter(f).map_values(key));
            part.map_values(|j: int| kept[j]) == sorted_positions(s.map_values(key)).filter(|i: int| f(s[i]))
        }),
{
    let part = s.filter(f);
    let keys = s.map_values(key);
    let part_keys = part.map_values(key);
    let kept = kept_positions(s, f);
    let order = sorted_positions(keys);
    let part_order = sorted_positions(part_keys);
    let p = |i: int| f(s[i]);
    let x = part_order.map_values(|j: int| kept[j]);
    let y = order.filter(p);
    let le = by_position(keys);
    lemma_kept_positions(s, f);
    law_sort_is_stable(keys);
    law_sort_is_stable(part_keys);
    lemma_position_order(keys);
    assert(part.len() == kept.len());
    assert forall|j: int| 0 <= j < kept.len() implies #[trigger] part_keys[j] == keys[kept[j]] by {
        assert(part[j] == arranged(s, kept)[j]);
    }
    assert forall|a: int, b: int| 0 <= a < b < x.len() implies #[trigger] le(x[a], x[b]) && x[a] != x[b] by {
        let (i, j) = (part_order[a], part_order[b]);
        assert(part_keys[i] == keys[kept[i]] && part_keys[j] == keys[kept[j]]);
        assert(i < j ==> kept[i] < kept[j]);
        assert(j < i ==> kept[j] < kept[i]);
        if i == j {
            assert(part_keys[i] == part_keys[j]);
        }
    }
    let lt = |i: int, j: int| le(i, j) && i != j;
    assert(sorted_by(order, lt)) by {
        assert forall|a: int, b: int| 0 <= a < b < order.len() implies #[trigger] lt(order[a], order[b]) by {
            assert(key_le(keys[order[a]], keys[order[b]]));
        }
    }
    lemma_filter_keeps_sorted(order, lt, p);
    assert forall|a: int, b: int| 0 <= a < b < y.len() implies #[trigger] le(y[a], y[b]) && y[a] != y[b] by {
        assert(lt(y[a], y[b]));
    }
    assert(x.no_duplicates()) by {
        assert forall|a: int, b: int| 0 <= a < x.len() && 0 <= b < x.len() && a != b implies x[a] != x[b] by {
            assert(a < b ==> le(x[a], x[b]));
            assert(b < a ==> le(x[b], x[a]));
        }
    }
    assert(y.no_duplicates()) by {
        assert forall|a: int, b: int| 0 <= a < y.len() && 0 <= b < y.len() && a != b implies y[a] != y[b] by {
            assert(a < b ==> le(y[a], y[b]));
            assert(b < a ==> le(y[b], y[a]));
        }
    }
    assert forall|i: int| #[trigger] x.contains(i) <==> y.contains(i) by {
        if x.contains(i) {
            let a = choose|a: int| 0 <= a < x.len() && x[a] == i;
            assert(kept[part_order[a]] == i);
            lemma_order_visits(keys, i);
            let b = choose|b: int| 0 <= b < order.len() && order[b] == i;
            order.lemma_filter_contains(p, b);
        }
        if y.contains(i) {
            let b = choose|b: int| 0 <= b < y.len() && y[b] == i;
            order.lemma_filter_pred(p, b);
            order.lemma_filter_contains_rev(p, i);
            let c = choose|c: int| 0 <= c < order.len() && order[c] == i;
            assert(f(s[i]));
            let j = choose|j: int| 0 <= j < kept.len() && kept[j] == i;
            lemma_order_visits(part_keys, j);
            let a = choose|a: int| 0 <= a < part_order.len() && part_order[a] == j;
            assert(x[a] == i);
        }
    }
    lemma_same_elements(x, y);
    vstd::seq_lib::lemma_sorted_unique(x, y, le);
}

proof fn lemma_order_visits(keys: Seq<KeyView>, i: int)
    requires
        0 <= i < keys.len(),
    ensures
        sorted_positions(keys).contains(i),
{
    let order = sorted_positions(keys);
    let all = positions(0, keys.len() as int);
    law_sort_is_stable(keys);
    order.to_multiset_ensures();
    all.to_multiset_ensures();
    assert(all[i] == i);
    assert(all.contains(i));
    assert(all.to_multiset().count(i) > 0);
    assert(order.to_multiset().count(i) > 0);
}

/// Sorting a part of a list gives that part of the sorted list: leaving elements
/// out before or after a sort makes no difference.
pub proof fn law_sorting_keeps_parts<A>(s: Seq<A>, f: spec_fn(A) -> bool, key: spec_fn(A) -> KeyView)
    ensures
        sorted_by_key(s.filter(f), key) == sorted_by_key(s, key).filter(f),
{
    let part = s.filter(f);
    let kept = kept_positions(s, f);
    let part_order = sorted_positions(part.map_values(key));
    let order = sorted_positions(s.map_values(key));
    let p = |i: int| f(s[i]);
    lemma_sorted_part(s, f, key);
    lemma_arranged_filter(s, order, f);
    lemma_kept_positions(s, f);
    law_sort_is_stable(part.map_values(key));
    let x = part_order.map_values(|j: int| kept[j]);
    assert forall|a: int| 0 <= a < part_order.len() implies arranged(part, part_order)[a] == arranged(s, x)[a] by {
        assert(0 <= part_order[a] < part.len());
        assert(part[part_order[a]] == arranged(s, kept)[part_order[a]]);
    }
    assert(arranged(part, part_order) =~= arranged(s, x));
}

/// Whether `a` consists of the elements of `b` at the ascending positions `at`.
pub open spec fn picks<A>(a: Seq<A>, b: Seq<A>, at: Seq<int>) -> bool {
    &&& at.len() == a.len()
    &&& forall|j: int| 0 <= j < at.len() ==> 0 <= #[trigger] at[j] < b.len() && a[j] == b[at[j]]
    &&& forall|i: int, j: int| 0 <= i < j < at.len() ==> #[trigger] at[i] < #[trigger] at[j]
}

/// Whether `a` is what is left of `b` if some elements are taken out.
pub open spec fn is_subsequence<A>(a: Seq<A>, b: Seq<A>) -> bool {
    exists|at: Seq<int>| picks(a, b, at)
}

/// Taking elements out of a list leaves a part of it in the same order, also
/// once every element is mapped.
pub proof fn law_filter_is_subsequence<A, B>(s: Seq<A>, f: spec_fn(A) -> bool, g: spec_fn(A) -> B)
    ensures
        is_subsequence(s.filter(f).map_values(g), s.map_values(g)),
{
    let kept = kept_positions(s, f);
    lemma_kept_positions(s, f);
    let a = s.filter(f).map_values(g);
    assert forall|j: int| 0 <= j < kept.len() implies 0 <= #[trigger] kept[j] < s.len() && a[j] == s.map_values(
        g,
    )[kept[j]] by {
        assert(s.filter(f)[j] == arranged(s, kept)[j]);
    }
    assert(picks(a, s.map_values(g), kept));
}

/// Texts are ordered like words in a dictionary, by their bytes: one comes no
/// later than another if it is a beginning of it, or has the smaller byte where
/// they first differ.
pub proof fn law_order_of_texts(a: Seq<char>, b: Seq<char>)
    ensures
        text_le(a, b) <==> {
            let (x, y) = (encode_utf8(a), encode_utf8(b));
            ||| x.is_prefix_of(y)
            ||| exists|k: int|
                0 <= k < x.len() && k < y.len() && x.take(k) == y.take(k) && #[trigger] x[k] < #[trigger] y[k]
        },
{
    lemma_order_of_bytes(encode_utf8(a), encode_utf8(b));
}

proof fn lemma_order_of_bytes(x: Seq<u8>, y: Seq<u8>)
    ensures
        lex_le(x, y) <==> {
            ||| x.is_prefix_of(y)
            ||| exists|k: int|
                0 <= k < x.len() && k < y.len() && x.take(k) == y.take(k) && #[trigger] x[k] < #[trigger] y[k]
        },
    decreases x.len(),
{
    if x.len() == 0 {
        assert(x =~= y.subrange(0, 0));
    } else if y.len() == 0 {
    } else if x[0] != y[0] {
        if x[0] < y[0] {
            assert(x.take(0) =~= y.take(0));
        }
        if x.is_prefix_of(y) {
            assert(x[0] == y.subrange(0, x.len() as int)[0]);
        }
        assert forall|k: int| 0 <= k < x.len() && k < y.len() && x.take(k) == y.take(k) && #[trigger] x[k]
            < #[trigger] y[k] implies x[0] < y[0] by {
            if k > 0 {
                assert(x.take(k)[0] == y.take(k)[0]);
            }
        }
    } else {
        let (s, t) = (x.drop_first(), y.drop_first());
        lemma_order_of_bytes(s, t);
        if s.is_prefix_of(t) {
            assert(x =~= y.subrange(0, x.len() as int)) by {
                assert forall|i: int| 0 <= i < x.len() implies x[i] == y[i] by {
                    if i > 0 {
                        assert(s[i - 1] == t.subrange(0, s.len() as int)[i - 1]);
                    }
                }
            }
        }
        if x.is_prefix_of(y) {
            assert(s =~= t.subrange(0, s.len() as int)) by {
                assert forall|i: int| 0 <= i < s.len() implies s[i] == t[i] by {
                    assert(x[i + 1] == y.subrange(0, x.len() as int)[i + 1]);
                }
            }
        }
        if exists|k: int| 0 <= k < s.len() && k < t.len() && s.take(k) == t.take(k) && #[trigger] s[k] < #[trigger] t[k] {
            let k = choose|k: int|
                0 <= k < s.len() && k < t.len() && s.take(k) == t.take(k) && #[trigger] s[k] < #[trigger] t[k];
            assert(x.take(k + 1) =~= y.take(k + 1)) by {
                assert forall|i: int| 0 <= i < k + 1 implies x[i] == y[i] by {
                    if i > 0 {
                        assert(s.take(k)[i - 1] == t.take(k)[i - 1]);
                    }
                }
            }
            assert(x[k + 1] < y[k + 1]);
        }
        if exists|k: int| 0 <= k < x.len() && k < y.len() && x.take(k) == y.take(k) && #[trigger] x[k] < #[trigger] y[k] {
            let k = choose|k: int|
                0 <= k < x.len() && k < y.len() && x.take(k) == y.take(k) && #[trigger] x[k] < #[trigger] y[k];
            assert(k > 0);
            assert(s.take(k - 1) =~= t.take(k - 1)) by {
                assert forall|i: int| 0 <= i < k - 1 implies s[i] == t[i] by {
                    assert(x.take(k)[i + 1] == y.take(k)[i + 1]);
                }
            }
            assert(s[k - 1] < t[k - 1]);
        }
    }
}

/// What is late comes after all that is not; otherwise the texts decide.
pub proof fn law_order_of_keys(a: Seq<char>, b: Seq<char>)
    ensures
        key_le(KeyView { late: false, text: a }, KeyView { late: true, text: b }),
        !key_le(KeyView { late: true, text: a }, KeyView { late: false, text: b }),
        key_le(KeyView { late: false, text: a }, KeyView { late: false, text: b }) == text_le(a, b),
        key_le(KeyView { late: true, text: a }, KeyView { late: true, text: b }) == text_le(a, b),
{
}

} // verus!
