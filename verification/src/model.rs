use crate::bitfield::BitField;
use crate::bucket::Bucket;
use crate::keys::MapKey;
use vstd::prelude::*;

verus! {

/// Whether slot `i` of a bucket array is occupied.
pub open spec fn occ<K, V, B>(s: Seq<Bucket<K, V, B>>, i: int) -> bool {
    s[i].data is Some
}

/// The model of the key held by occupied slot `i`.
pub open spec fn key_model<K: MapKey, B>(s: Seq<Bucket<K, usize, B>>, i: int) -> K::M {
    s[i].data.unwrap().0.model()
}

/// The cross-table index stored in occupied slot `i`.
pub open spec fn pair_at<K, B>(s: Seq<Bucket<K, usize, B>>, i: int) -> int {
    s[i].data.unwrap().1 as int
}

/// The ideal index stored in occupied slot `i`.
pub open spec fn ideal_at<K, B>(s: Seq<Bucket<K, usize, B>>, i: int) -> int {
    s[i].data.unwrap().2 as int
}

/// The ideal bucket of a key with hash `h` under a given seed, in an array
/// of length `n`.
pub open spec fn spec_ideal(seed: u64, h: u64, n: int) -> int
    recommends
        n >= 1,
{
    ((seed ^ h) as int) % n
}

/// The circular distance from bucket `d` forward to slot `i` in an array of
/// length `n`.
pub open spec fn offset_of(n: int, d: int, i: int) -> int
    recommends
        n >= 1,
{
    (i - d) % n
}

/// The slot reached by walking `o` slots forward from `d`, circularly.
pub open spec fn slot_at(n: int, d: int, o: int) -> int {
    (d + o) % n
}

/// An occupied slot is well formed: its stored ideal index is the one its
/// key hashes to, it lies within the neighbourhood of that bucket, and the
/// bucket's bit for it is set.
pub open spec fn wf_slot<K: MapKey, B: BitField>(
    s: Seq<Bucket<K, usize, B>>,
    seed: u64,
    i: int,
) -> bool {
    let n = s.len() as int;
    let d = ideal_at(s, i);
    &&& 0 <= d < n
    &&& d == spec_ideal(seed, K::hash_of(key_model(s, i)), n)
    &&& offset_of(n, d, i) < B::spec_size() as int
    &&& s[d].neighbourhood.bit(offset_of(n, d, i) as usize)
}

/// Well-formedness of one hopscotch array: every occupied slot sits inside
/// its ideal bucket's neighbourhood and is announced by exactly the right
/// bit; every set bit points back at such a slot; and no two occupied slots
/// hold the same key.
pub open spec fn one_sided_wf<K: MapKey, B: BitField>(
    s: Seq<Bucket<K, usize, B>>,
    seed: u64,
) -> bool {
    let n = s.len() as int;
    &&& n >= 1
    &&& forall|i: int| 0 <= i < n && #[trigger] occ(s, i) ==> wf_slot(s, seed, i)
    &&& forall|d: int, o: usize|
        0 <= d < n && o < B::spec_size() && #[trigger] s[d].neighbourhood.bit(o) ==> {
            &&& (o as int) < n
            &&& occ(s, (d + o as int) % n)
            &&& ideal_at(s, (d + o as int) % n) == d
        }
    &&& distinct_models(s)
}

/// No two occupied slots hold keys with the same model.
pub open spec fn distinct_models<K: MapKey, B>(s: Seq<Bucket<K, usize, B>>) -> bool {
    forall|i: int, j: int|
        0 <= i < s.len() && 0 <= j < s.len() && i != j && occ(s, i) && occ(s, j)
            ==> #[trigger] key_model(s, i) != #[trigger] key_model(s, j)
}

/// Slot `i` of `xs` points at a slot of `ys` that is occupied and points
/// back at it.
pub open spec fn proper_partner<K, V, B>(
    xs: Seq<Bucket<K, usize, B>>,
    ys: Seq<Bucket<V, usize, B>>,
    i: int,
) -> bool {
    &&& 0 <= pair_at(xs, i) < ys.len()
    &&& occ(ys, pair_at(xs, i))
    &&& pair_at(ys, pair_at(xs, i)) == i
}

/// Every occupied slot of `xs` has a proper partner in `ys`.
pub open spec fn cross_wf<K, V, B>(
    xs: Seq<Bucket<K, usize, B>>,
    ys: Seq<Bucket<V, usize, B>>,
) -> bool {
    forall|i: int| 0 <= i < xs.len() && #[trigger] occ(xs, i) ==> proper_partner(xs, ys, i)
}

/// The slot of `s` holding a key with model `m`, where one exists.
pub open spec fn slot_with<K: MapKey, B>(s: Seq<Bucket<K, usize, B>>, m: K::M) -> int {
    choose|i: int| 0 <= i < s.len() && #[trigger] occ(s, i) && key_model(s, i) == m
}

/// Whether some occupied slot of `s` holds a key with model `m`.
pub open spec fn has_model<K: MapKey, B>(s: Seq<Bucket<K, usize, B>>, m: K::M) -> bool {
    exists|i: int| 0 <= i < s.len() && #[trigger] occ(s, i) && key_model(s, i) == m
}

/// The relation stored in a pair of cross-referenced arrays, read from the
/// `ks` side: each key model in `ks` maps to the key model of its partner
/// slot in `vs`.
pub open spec fn as_map<K: MapKey, V: MapKey, B>(
    ks: Seq<Bucket<K, usize, B>>,
    vs: Seq<Bucket<V, usize, B>>,
) -> Map<K::M, V::M> {
    Map::new(|m: K::M| has_model(ks, m), |m: K::M| key_model(vs, pair_at(ks, slot_with(ks, m))))
}

/// The number of occupied slots in an array.
pub open spec fn occ_count<K, V, B>(s: Seq<Bucket<K, V, B>>) -> nat
    decreases s.len(),
{
    if s.len() == 0 {
        0
    } else {
        occ_count(s.drop_last()) + if occ(s, s.len() - 1) {
            1nat
        } else {
            0nat
        }
    }
}

/// The circular offset lies in `[0, n)`, and walking it forward from `d`
/// reaches `i` again.
pub proof fn lemma_offset_roundtrip(n: int, d: int, i: int)
    requires
        n >= 1,
        0 <= d < n,
        0 <= i < n,
    ensures
        0 <= offset_of(n, d, i) < n,
        (d + offset_of(n, d, i)) % n == i,
        offset_of(n, d, i) == 0 ==> i == d,
        offset_of(n, d, i) == if i >= d {
            i - d
        } else {
            i - d + n
        },
{
    if i >= d {
        assert((i - d) % n == i - d) by (nonlinear_arith)
            requires
                0 <= i - d < n,
        ;
        assert((d + (i - d)) % n == i) by (nonlinear_arith)
            requires
                0 <= i < n,
        ;
    } else {
        assert((i - d) % n == i - d + n) by (nonlinear_arith)
            requires
                -n <= i - d < 0,
        ;
        assert((d + (i - d + n)) % n == i) by (nonlinear_arith)
            requires
                0 <= i < n,
        ;
    }
}

/// Two slots at the same circular offset from the same bucket are the same
/// slot.
pub proof fn lemma_offset_injective(n: int, d: int, i: int, j: int)
    requires
        n >= 1,
        0 <= d < n,
        0 <= i < n,
        0 <= j < n,
        offset_of(n, d, i) == offset_of(n, d, j),
    ensures
        i == j,
{
    lemma_offset_roundtrip(n, d, i);
    lemma_offset_roundtrip(n, d, j);
}

/// Walking `o` slots forward from `d` lands at circular offset `o`.
pub proof fn lemma_offset_of_step(n: int, d: int, o: int)
    requires
        n >= 1,
        0 <= d < n,
        0 <= o < n,
    ensures
        0 <= (d + o) % n < n,
        offset_of(n, d, (d + o) % n) == o,
{
    assert(0 <= (d + o) % n < n && ((d + o) % n - d) % n == o) by (nonlinear_arith)
        requires
            n >= 1,
            0 <= d < n,
            0 <= o < n,
    ;
}

/// An array with an occupied slot has a positive occupied count.
pub proof fn lemma_occ_count_pos<K, V, B>(s: Seq<Bucket<K, V, B>>, i: int)
    requires
        0 <= i < s.len(),
        occ(s, i),
    ensures
        occ_count(s) >= 1,
    decreases s.len(),
{
    if i == s.len() - 1 {
    } else {
        assert(occ(s.drop_last(), i));
        lemma_occ_count_pos(s.drop_last(), i);
    }
}

/// An array with no occupied slot has an occupied count of zero.
pub proof fn lemma_occ_count_empty<K, V, B>(s: Seq<Bucket<K, V, B>>)
    requires
        forall|i: int| 0 <= i < s.len() ==> !(#[trigger] occ(s, i)),
    ensures
        occ_count(s) == 0,
    decreases s.len(),
{
    if s.len() > 0 {
        assert forall|i: int| 0 <= i < s.len() - 1 implies !(#[trigger] occ(s.drop_last(), i)) by {
            assert(!occ(s, i));
        }
        lemma_occ_count_empty(s.drop_last());
    }
}

/// Replacing one slot changes the occupied count by the difference the new
/// bucket makes at that position.
pub proof fn lemma_occ_count_update<K, V, B>(s: Seq<Bucket<K, V, B>>, i: int, b: Bucket<K, V, B>)
    requires
        0 <= i < s.len(),
    ensures
        occ_count(s.update(i, b)) + (if occ(s, i) {
            1int
        } else {
            0int
        }) == occ_count(s) + (if b.data is Some {
            1int
        } else {
            0int
        }),
    decreases s.len(),
{
    let t = s.update(i, b);
    if i == s.len() - 1 {
        assert(t.drop_last() =~= s.drop_last());
    } else {
        assert(t.drop_last() =~= s.drop_last().update(i, b));
        lemma_occ_count_update(s.drop_last(), i, b);
        assert(occ(t, t.len() - 1) == occ(s, s.len() - 1));
    }
}

/// Under distinct key models, the set of models present in an array has
/// exactly one member per occupied slot.
pub proof fn lemma_models_set_card<K: MapKey, B>(s: Seq<Bucket<K, usize, B>>)
    requires
        distinct_models(s),
    ensures
        Set::new(|m: K::M| has_model(s, m)).finite(),
        Set::new(|m: K::M| has_model(s, m)).len() == occ_count(s),
    decreases s.len(),
{
    let full = Set::new(|m: K::M| has_model(s, m));
    if s.len() == 0 {
        assert(full =~= Set::<K::M>::empty());
    } else {
        let d = s.drop_last();
        let prev = Set::new(|m: K::M| has_model(d, m));
        assert(distinct_models(d)) by {
            assert forall|i: int, j: int|
                0 <= i < d.len() && 0 <= j < d.len() && i != j && occ(d, i) && occ(d, j) implies #[trigger] key_model(
                d,
                i,
            ) != #[trigger] key_model(d, j) by {
                assert(occ(s, i) && occ(s, j));
                assert(key_model(s, i) != key_model(s, j));
            }
        }
        lemma_models_set_card(d);
        let last = s.len() - 1;
        assert forall|m: K::M| #[trigger] has_model(d, m) implies has_model(s, m) by {
            let i = choose|i: int| 0 <= i < d.len() && #[trigger] occ(d, i) && key_model(d, i) == m;
            assert(occ(s, i) && key_model(s, i) == m);
        }
        if occ(s, last) {
            let ml = key_model(s, last);
            assert(has_model(s, ml));
            assert forall|m: K::M| #[trigger] has_model(s, m) && m != ml implies has_model(d, m) by {
                let i = choose|i: int|
                    0 <= i < s.len() && #[trigger] occ(s, i) && key_model(s, i) == m;
                assert(i != last);
                assert(occ(d, i) && key_model(d, i) == m);
            }
            assert(!has_model(d, ml)) by {
                if has_model(d, ml) {
                    let i = choose|i: int|
                        0 <= i < d.len() && #[trigger] occ(d, i) && key_model(d, i) == ml;
                    assert(occ(s, i) && key_model(s, i) == ml);
                    assert(key_model(s, i) != key_model(s, last));
                }
            }
            assert(full =~= prev.insert(ml));
        } else {
            assert forall|m: K::M| #[trigger] has_model(s, m) implies has_model(d, m) by {
                let i = choose|i: int|
                    0 <= i < s.len() && #[trigger] occ(s, i) && key_model(s, i) == m;
                assert(i != last);
                assert(occ(d, i) && key_model(d, i) == m);
            }
            assert(full =~= prev);
        }
    }
}

/// The domain of the stored relation is finite, with one key per occupied
/// slot of the key-side array.
pub proof fn lemma_as_map_dom_len<K: MapKey, V: MapKey, B>(
    ks: Seq<Bucket<K, usize, B>>,
    vs: Seq<Bucket<V, usize, B>>,
)
    requires
        distinct_models(ks),
    ensures
        as_map(ks, vs).dom().finite(),
        as_map(ks, vs).dom().len() == occ_count(ks),
{
    assert(as_map(ks, vs).dom() =~= Set::new(|m: K::M| has_model(ks, m)));
    lemma_models_set_card(ks);
}

/// Arrays that agree slot by slot on occupancy have the same occupied count.
pub proof fn lemma_occ_count_congruent<K, V, B, K2, V2, B2>(
    s: Seq<Bucket<K, V, B>>,
    t: Seq<Bucket<K2, V2, B2>>,
)
    requires
        s.len() == t.len(),
        forall|i: int| 0 <= i < s.len() ==> (#[trigger] occ(s, i) <==> #[trigger] occ(t, i)),
    ensures
        occ_count(s) == occ_count(t),
    decreases s.len(),
{
    if s.len() > 0 {
        assert forall|i: int| 0 <= i < s.len() - 1 implies (#[trigger] occ(s.drop_last(), i) <==> #[trigger] occ(
            t.drop_last(),
            i,
        )) by {
            assert(occ(s, i) <==> occ(t, i));
        }
        lemma_occ_count_congruent(s.drop_last(), t.drop_last());
        assert(occ(s, s.len() - 1) <==> occ(t, t.len() - 1));
    }
}

/// Emptying one occupied slot and clearing its announcement bit leaves a
/// well-formed array without that slot's key and with one occupied slot
/// fewer; every other slot keeps its contents.
#[verifier::rlimit(100)]
#[verifier::spinoff_prover]
pub proof fn lemma_remove_slot_wf<K: MapKey, B: BitField>(
    s0: Seq<Bucket<K, usize, B>>,
    seed: u64,
    i: int,
    s1: Seq<Bucket<K, usize, B>>,
)
    requires
        one_sided_wf(s0, seed),
        0 <= i < s0.len(),
        occ(s0, i),
        s1.len() == s0.len(),
        forall|j: int|
            0 <= j < s0.len() && j != i && j != ideal_at(s0, i) ==> s1[j] == s0[j],
        s1[i].data is None,
        i != ideal_at(s0, i) ==> s1[ideal_at(s0, i)].data == s0[ideal_at(s0, i)].data,
        i != ideal_at(s0, i) ==> s1[i].neighbourhood == s0[i].neighbourhood,
        forall|o: usize|
            o < B::spec_size() ==> (s1[ideal_at(s0, i)].neighbourhood.bit(o) <==> (s0[ideal_at(
                s0,
                i,
            )].neighbourhood.bit(o) && o as int != offset_of(s0.len() as int, ideal_at(s0, i), i))),
    ensures
        one_sided_wf(s1, seed),
        !has_model(s1, key_model(s0, i)),
        forall|m2: K::M| m2 != key_model(s0, i) ==> has_model(s1, m2) == has_model(s0, m2),
        forall|j: int| 0 <= j < s0.len() && j != i ==> (occ(s1, j) <==> occ(s0, j)),
        !occ(s1, i),
        forall|j: int| 0 <= j < s0.len() && j != i ==> s1[j].data == s0[j].data,
        occ_count(s1) + 1 == occ_count(s0),
{
    let n = s0.len() as int;
    let d = ideal_at(s0, i);
    let off = offset_of(n, d, i);
    assert(wf_slot(s0, seed, i));
    lemma_offset_roundtrip(n, d, i);

    // every slot but `i` keeps its data, so occupancy, keys and ideals agree
    assert forall|j: int| 0 <= j < n && j != i implies s1[j].data == s0[j].data by {}

    // occupied slots stay well formed
    assert forall|j: int| 0 <= j < n && #[trigger] occ(s1, j) implies wf_slot(s1, seed, j) by {
        assert(j != i);
        assert(occ(s0, j));
        assert(wf_slot(s0, seed, j));
        let dj = ideal_at(s0, j);
        let oj = offset_of(n, dj, j);
        if dj == d {
            if oj == off {
                lemma_offset_injective(n, d, i, j);
                assert(false);
            }
            assert(s1[d].neighbourhood.bit(oj as usize));
        } else {
            assert(s1[dj].neighbourhood == s0[dj].neighbourhood);
        }
    }

    // every set bit still points at an occupied slot with that ideal
    assert forall|d2: int, o: usize|
        0 <= d2 < n && o < B::spec_size() && #[trigger] s1[d2].neighbourhood.bit(o) implies {
        &&& (o as int) < n
        &&& occ(s1, (d2 + o as int) % n)
        &&& ideal_at(s1, (d2 + o as int) % n) == d2
    } by {
        if d2 == d {
            assert(s0[d2].neighbourhood.bit(o) && o as int != off);
        } else {
            assert(s1[d2].neighbourhood == s0[d2].neighbourhood);
        }
        assert(s0[d2].neighbourhood.bit(o));
        let t = (d2 + o as int) % n;
        assert(occ(s0, t) && ideal_at(s0, t) == d2 && (o as int) < n);
        if t == i {
            assert(d2 == d);
            lemma_offset_of_step(n, d2, o as int);
            assert(o as int == offset_of(n, d, i));
            assert(false);
        }
        assert(occ(s1, t));
    }

    // distinctness carries over
    assert forall|i2: int, j2: int|
        0 <= i2 < s1.len() && 0 <= j2 < s1.len() && i2 != j2 && occ(s1, i2) && occ(
            s1,
            j2,
        ) implies #[trigger] key_model(s1, i2) != #[trigger] key_model(s1, j2) by {
        assert(i2 != i && j2 != i);
        assert(occ(s0, i2) && occ(s0, j2));
        assert(key_model(s0, i2) != key_model(s0, j2));
    }

    // the removed key is gone; everything else stays findable
    assert(!has_model(s1, key_model(s0, i))) by {
        if has_model(s1, key_model(s0, i)) {
            let j = choose|j: int|
                0 <= j < s1.len() && #[trigger] occ(s1, j) && key_model(s1, j) == key_model(s0, i);
            assert(j != i);
            assert(occ(s0, j) && key_model(s0, j) == key_model(s0, i));
            assert(false);
        }
    }
    assert forall|m2: K::M| m2 != key_model(s0, i) implies has_model(s1, m2) == has_model(
        s0,
        m2,
    ) by {
        if has_model(s0, m2) {
            let j = choose|j: int|
                0 <= j < s0.len() && #[trigger] occ(s0, j) && key_model(s0, j) == m2;
            assert(j != i);
            assert(occ(s1, j) && key_model(s1, j) == m2);
        }
        if has_model(s1, m2) {
            let j = choose|j: int|
                0 <= j < s1.len() && #[trigger] occ(s1, j) && key_model(s1, j) == m2;
            assert(j != i);
            assert(occ(s0, j) && key_model(s0, j) == m2);
        }
    }

    // counting: occupancy matches replacing slot i by an empty bucket
    let mid = s0.update(i, s1[i]);
    lemma_occ_count_update(s0, i, s1[i]);
    assert forall|j: int| 0 <= j < n implies (#[trigger] occ(s1, j) <==> #[trigger] occ(mid, j)) by {
        if j != i {
            assert(s1[j].data == s0[j].data);
        }
    }
    lemma_occ_count_congruent(s1, mid);
}

/// Emptying an occupied slot and its partner removes exactly that slot's
/// key from the stored relation.
pub proof fn lemma_as_map_after_remove<K: MapKey, V: MapKey, B: BitField>(
    oks: Seq<Bucket<K, usize, B>>,
    ovs: Seq<Bucket<V, usize, B>>,
    ks1: Seq<Bucket<K, usize, B>>,
    vs2: Seq<Bucket<V, usize, B>>,
    i: int,
    p: int,
)
    requires
        oks.len() == ovs.len(),
        ks1.len() == oks.len(),
        vs2.len() == ovs.len(),
        distinct_models(oks),
        distinct_models(ovs),
        cross_wf(oks, ovs),
        cross_wf(ovs, oks),
        0 <= i < oks.len(),
        occ(oks, i),
        pair_at(oks, i) == p,
        forall|j: int| 0 <= j < oks.len() && j != i ==> ks1[j].data == oks[j].data,
        !occ(ks1, i),
        forall|j: int| 0 <= j < ovs.len() && j != p ==> vs2[j].data == ovs[j].data,
        !occ(vs2, p),
    ensures
        as_map(ks1, vs2) == as_map(oks, ovs).remove(key_model(oks, i)),
        as_map(oks, ovs)[key_model(oks, i)] == key_model(ovs, p),
        as_map(oks, ovs).contains_key(key_model(oks, i)),
{
    let m = key_model(oks, i);
    assert(proper_partner(oks, ovs, i));
    assert(slot_with(oks, m) == i) by {
        assert(occ(oks, i) && key_model(oks, i) == m);
        let w = slot_with(oks, m);
        assert(occ(oks, w) && key_model(oks, w) == m);
    }
    assert(has_model(oks, m));
    assert(!has_model(ks1, m)) by {
        if has_model(ks1, m) {
            let j = choose|j: int| 0 <= j < ks1.len() && #[trigger] occ(ks1, j) && key_model(ks1, j) == m;
            assert(j != i);
            assert(occ(oks, j) && key_model(oks, j) == m);
            assert(false);
        }
    }
    assert forall|m2: K::M| m2 != m implies #[trigger] has_model(ks1, m2) == has_model(oks, m2) by {
        if has_model(oks, m2) {
            let j = choose|j: int| 0 <= j < oks.len() && #[trigger] occ(oks, j) && key_model(oks, j) == m2;
            assert(j != i);
            assert(occ(ks1, j) && key_model(ks1, j) == m2);
        }
        if has_model(ks1, m2) {
            let j = choose|j: int| 0 <= j < ks1.len() && #[trigger] occ(ks1, j) && key_model(ks1, j) == m2;
            assert(j != i);
            assert(occ(oks, j) && key_model(oks, j) == m2);
        }
    }
    assert forall|m2: K::M| #[trigger] as_map(ks1, vs2).dom().contains(m2) implies as_map(ks1, vs2)[m2]
        == as_map(oks, ovs).remove(m)[m2] by {
        let w1 = slot_with(ks1, m2);
        assert(occ(ks1, w1) && key_model(ks1, w1) == m2);
        assert(w1 != i);
        assert(occ(oks, w1) && key_model(oks, w1) == m2);
        assert(slot_with(oks, m2) == w1) by {
            let w0 = slot_with(oks, m2);
            assert(occ(oks, w0) && key_model(oks, w0) == m2);
        }
        let q = pair_at(oks, w1);
        assert(proper_partner(oks, ovs, w1));
        if q == p {
            assert(pair_at(ovs, p) == w1 && pair_at(ovs, p) == i);
            assert(false);
        }
        assert(vs2[q].data == ovs[q].data);
    }
    assert(as_map(ks1, vs2) =~= as_map(oks, ovs).remove(m));
}

/// `s1` differs from `s0` at most in the cross-table indices of occupied
/// slots: occupancy, keys, ideal indices and neighbourhoods all agree.
pub open spec fn same_but_pairs<K, B>(
    s0: Seq<Bucket<K, usize, B>>,
    s1: Seq<Bucket<K, usize, B>>,
) -> bool {
    &&& s1.len() == s0.len()
    &&& forall|j: int|
        0 <= j < s0.len() ==> {
            &&& (#[trigger] s1[j]).neighbourhood == s0[j].neighbourhood
            &&& (s1[j].data is Some <==> s0[j].data is Some)
            &&& (s0[j].data is Some ==> s1[j].data.unwrap().0 == s0[j].data.unwrap().0
                && s1[j].data.unwrap().2 == s0[j].data.unwrap().2)
        }
}

/// Every occupied slot of `a` other than `skip_a` has a slot of `b` other
/// than `skip_b` holding the same key and the same cross-table index.
pub open spec fn carried<K, B>(
    a: Seq<Bucket<K, usize, B>>,
    b: Seq<Bucket<K, usize, B>>,
    skip_a: int,
    skip_b: int,
) -> bool {
    forall|i: int|
        0 <= i < a.len() && i != skip_a && #[trigger] occ(a, i) ==> exists|i2: int|
            0 <= i2 < b.len() && i2 != skip_b && #[trigger] occ(b, i2) && b[i2].data.unwrap().0
                == a[i].data.unwrap().0 && pair_at(b, i2) == pair_at(a, i)
}

/// Every slot of the value side that had a proper partner still has one,
/// holding the very same key.
pub open spec fn partners_preserved<K, V, B>(
    oks: Seq<Bucket<K, usize, B>>,
    ovs: Seq<Bucket<V, usize, B>>,
    ks1: Seq<Bucket<K, usize, B>>,
    vs1: Seq<Bucket<V, usize, B>>,
) -> bool {
    forall|j: int|
        0 <= j < ovs.len() && #[trigger] occ(ovs, j) && proper_partner(ovs, oks, j) ==> {
            &&& proper_partner(vs1, ks1, j)
            &&& ks1[pair_at(vs1, j)].data.unwrap().0 == oks[pair_at(ovs, j)].data.unwrap().0
        }
}

/// Slots of the value side that never had a proper partner keep their
/// stored cross index.
pub open spec fn orphan_pairs_kept<K, V, B>(
    oks: Seq<Bucket<K, usize, B>>,
    ovs: Seq<Bucket<V, usize, B>>,
    vs1: Seq<Bucket<V, usize, B>>,
) -> bool {
    forall|x: int|
        0 <= x < ovs.len() && #[trigger] occ(ovs, x) && !proper_partner(ovs, oks, x) ==> pair_at(
            vs1,
            x,
        ) == pair_at(ovs, x)
}

/// Moving an occupied slot to a free slot inside its own neighbourhood,
/// while swapping the two announcement bits of its ideal bucket, preserves
/// well-formedness; every key keeps its cross index, and the counts agree.
#[verifier::rlimit(100)]
#[verifier::spinoff_prover]
pub proof fn lemma_move_slot_wf<K: MapKey, B: BitField>(
    s0: Seq<Bucket<K, usize, B>>,
    seed: u64,
    q: int,
    t: int,
    s1: Seq<Bucket<K, usize, B>>,
)
    requires
        one_sided_wf(s0, seed),
        0 <= q < s0.len(),
        0 <= t < s0.len(),
        q != t,
        occ(s0, q),
        !occ(s0, t),
        offset_of(s0.len() as int, ideal_at(s0, q), t) < B::spec_size() as int,
        s1.len() == s0.len(),
        forall|j: int|
            0 <= j < s0.len() && j != q && j != t && j != ideal_at(s0, q) ==> s1[j] == s0[j],
        s1[q].data is None,
        s1[t].data == s0[q].data,
        q != ideal_at(s0, q) ==> s1[q].neighbourhood == s0[q].neighbourhood,
        t != ideal_at(s0, q) ==> s1[t].neighbourhood == s0[t].neighbourhood,
        ideal_at(s0, q) != q && ideal_at(s0, q) != t ==> s1[ideal_at(s0, q)].data == s0[ideal_at(
            s0,
            q,
        )].data,
        forall|o: usize|
            o < B::spec_size() ==> (s1[ideal_at(s0, q)].neighbourhood.bit(o) <==> ((s0[ideal_at(
                s0,
                q,
            )].neighbourhood.bit(o) && o as int != offset_of(s0.len() as int, ideal_at(s0, q), q))
                || o as int == offset_of(s0.len() as int, ideal_at(s0, q), t))),
    ensures
        one_sided_wf(s1, seed),
        forall|j: int| 0 <= j < s0.len() && j != q && j != t ==> s1[j].data == s0[j].data,
        !occ(s1, q),
        occ(s1, t),
        s1[t].data == s0[q].data,
        occ_count(s1) == occ_count(s0),
        forall|m2: K::M| has_model(s1, m2) == has_model(s0, m2),
        carried(s0, s1, q, -1),
        carried(s1, s0, t, -1),
{
    let n = s0.len() as int;
    let d = ideal_at(s0, q);
    let off_q = offset_of(n, d, q);
    let off_t = offset_of(n, d, t);
    assert(wf_slot(s0, seed, q));
    lemma_offset_roundtrip(n, d, q);
    lemma_offset_roundtrip(n, d, t);
    assert(off_q != off_t) by {
        if off_q == off_t {
            lemma_offset_injective(n, d, q, t);
        }
    }

    assert forall|j: int| 0 <= j < n && j != q && j != t implies s1[j].data == s0[j].data by {}

    // each occupied slot is still announced by its bucket
    assert forall|j: int| 0 <= j < n && #[trigger] occ(s1, j) implies wf_slot(s1, seed, j) by {
        if j == t {
            assert(key_model(s1, t) == key_model(s0, q));
            assert(ideal_at(s1, t) == d);
            assert(s1[d].neighbourhood.bit(off_t as usize));
        } else {
            assert(j != q);
            assert(occ(s0, j));
            assert(wf_slot(s0, seed, j));
            let dj = ideal_at(s0, j);
            let oj = offset_of(n, dj, j);
            if dj == d {
                if oj == off_q {
                    lemma_offset_injective(n, d, q, j);
                    assert(false);
                }
                assert(s1[d].neighbourhood.bit(oj as usize));
            } else {
                assert(s1[dj].neighbourhood == s0[dj].neighbourhood);
            }
        }
    }

    // each set bit still points at an occupied slot with that ideal
    assert forall|d2: int, o: usize|
        0 <= d2 < n && o < B::spec_size() && #[trigger] s1[d2].neighbourhood.bit(o) implies {
        &&& (o as int) < n
        &&& occ(s1, (d2 + o as int) % n)
        &&& ideal_at(s1, (d2 + o as int) % n) == d2
    } by {
        if d2 == d && o as int == off_t {
            assert((d + off_t) % n == t);
            assert(occ(s1, t) && ideal_at(s1, t) == d);
            assert(0 <= off_t < n);
        } else {
            if d2 == d {
                assert(s0[d2].neighbourhood.bit(o) && o as int != off_q);
            } else {
                assert(s1[d2].neighbourhood == s0[d2].neighbourhood);
            }
            assert(s0[d2].neighbourhood.bit(o));
            let w = (d2 + o as int) % n;
            assert(occ(s0, w) && ideal_at(s0, w) == d2 && (o as int) < n);
            assert(w != t);
            if w == q {
                assert(d2 == d);
                lemma_offset_of_step(n, d2, o as int);
                assert(o as int == off_q);
                assert(false);
            }
            assert(occ(s1, w) && ideal_at(s1, w) == d2);
        }
    }

    // the same key models are present
    assert forall|m2: K::M| has_model(s1, m2) == has_model(s0, m2) by {
        if has_model(s0, m2) {
            let j = choose|j: int|
                0 <= j < s0.len() && #[trigger] occ(s0, j) && key_model(s0, j) == m2;
            if j == q {
                assert(occ(s1, t) && key_model(s1, t) == m2);
            } else {
                assert(occ(s1, j) && key_model(s1, j) == m2);
            }
            assert(has_model(s1, m2));
        }
        if has_model(s1, m2) {
            let j = choose|j: int|
                0 <= j < s1.len() && #[trigger] occ(s1, j) && key_model(s1, j) == m2;
            if j == t {
                assert(occ(s0, q) && key_model(s0, q) == m2);
            } else {
                assert(occ(s0, j) && key_model(s0, j) == m2);
            }
            assert(has_model(s0, m2));
        }
    }

    // distinctness
    assert forall|i2: int, j2: int|
        0 <= i2 < n && 0 <= j2 < n && i2 != j2 && occ(s1, i2) && occ(
            s1,
            j2,
        ) implies #[trigger] key_model(s1, i2) != #[trigger] key_model(s1, j2) by {
        let a = if i2 == t {
            q
        } else {
            i2
        };
        let b = if j2 == t {
            q
        } else {
            j2
        };
        assert(occ(s0, a) && occ(s0, b));
        assert(key_model(s1, i2) == key_model(s0, a));
        assert(key_model(s1, j2) == key_model(s0, b));
        assert(a != b);
        assert(key_model(s0, a) != key_model(s0, b));
    }

    // counting: empty one slot, fill another
    let mid = s0.update(q, s1[q]).update(t, s1[t]);
    lemma_occ_count_update(s0, q, s1[q]);
    lemma_occ_count_update(s0.update(q, s1[q]), t, s1[t]);
    assert forall|j: int| 0 <= j < n implies (#[trigger] occ(s1, j) <==> #[trigger] occ(mid, j)) by {
        if j != q && j != t {
            assert(s1[j].data == s0[j].data);
        }
    }
    lemma_occ_count_congruent(s1, mid);

    // keys carry over in both directions
    assert forall|i: int| 0 <= i < n && i != q && #[trigger] occ(s0, i) implies exists|i2: int|
        0 <= i2 < n && i2 != -1 && #[trigger] occ(s1, i2) && s1[i2].data.unwrap().0
            == s0[i].data.unwrap().0 && pair_at(s1, i2) == pair_at(s0, i) by {
        assert(i != t);
        assert(occ(s1, i) && s1[i].data == s0[i].data);
    }
    assert forall|i: int| 0 <= i < n && i != t && #[trigger] occ(s1, i) implies exists|i2: int|
        0 <= i2 < n && i2 != -1 && #[trigger] occ(s0, i2) && s0[i2].data.unwrap().0
            == s1[i].data.unwrap().0 && pair_at(s0, i2) == pair_at(s1, i) by {
        assert(i != q);
        assert(occ(s0, i) && s0[i].data == s1[i].data);
    }
}

/// Filling a free slot with a fresh key inside the neighbourhood of its
/// ideal bucket, setting that bucket's announcement bit, preserves
/// well-formedness and adds exactly that key.
#[verifier::rlimit(100)]
#[verifier::spinoff_prover]
pub proof fn lemma_place_slot_wf<K: MapKey, B: BitField>(
    s0: Seq<Bucket<K, usize, B>>,
    seed: u64,
    pos: int,
    s1: Seq<Bucket<K, usize, B>>,
)
    requires
        one_sided_wf(s0, seed),
        0 <= pos < s0.len(),
        !occ(s0, pos),
        s1.len() == s0.len(),
        occ(s1, pos),
        !has_model(s0, key_model(s1, pos)),
        ideal_at(s1, pos) == spec_ideal(seed, K::hash_of(key_model(s1, pos)), s0.len() as int),
        0 <= ideal_at(s1, pos) < s0.len(),
        offset_of(s0.len() as int, ideal_at(s1, pos), pos) < B::spec_size() as int,
        forall|j: int|
            0 <= j < s0.len() && j != pos && j != ideal_at(s1, pos) ==> s1[j] == s0[j],
        pos != ideal_at(s1, pos) ==> s1[pos].neighbourhood == s0[pos].neighbourhood,
        pos != ideal_at(s1, pos) ==> s1[ideal_at(s1, pos)].data == s0[ideal_at(s1, pos)].data,
        forall|o: usize|
            o < B::spec_size() ==> (s1[ideal_at(s1, pos)].neighbourhood.bit(o) <==> (s0[ideal_at(
                s1,
                pos,
            )].neighbourhood.bit(o) || o as int == offset_of(
                s0.len() as int,
                ideal_at(s1, pos),
                pos,
            ))),
    ensures
        one_sided_wf(s1, seed),
        forall|j: int| 0 <= j < s0.len() && j != pos ==> s1[j].data == s0[j].data,
        occ_count(s1) == occ_count(s0) + 1,
        has_model(s1, key_model(s1, pos)),
        forall|m2: K::M| m2 != key_model(s1, pos) ==> has_model(s1, m2) == has_model(s0, m2),
        carried(s0, s1, -1, pos),
        carried(s1, s0, pos, -1),
{
    let n = s0.len() as int;
    let d = ideal_at(s1, pos);
    let off = offset_of(n, d, pos);
    let m = key_model(s1, pos);
    lemma_offset_roundtrip(n, d, pos);

    assert forall|j: int| 0 <= j < n && j != pos implies s1[j].data == s0[j].data by {}

    assert forall|j: int| 0 <= j < n && #[trigger] occ(s1, j) implies wf_slot(s1, seed, j) by {
        if j == pos {
            assert(s1[d].neighbourhood.bit(off as usize));
        } else {
            assert(occ(s0, j));
            assert(wf_slot(s0, seed, j));
            let dj = ideal_at(s0, j);
            let oj = offset_of(n, dj, j);
            if dj == d {
                assert(s1[d].neighbourhood.bit(oj as usize));
            } else {
                assert(s1[dj].neighbourhood == s0[dj].neighbourhood);
            }
        }
    }

    assert forall|d2: int, o: usize|
        0 <= d2 < n && o < B::spec_size() && #[trigger] s1[d2].neighbourhood.bit(o) implies {
        &&& (o as int) < n
        &&& occ(s1, (d2 + o as int) % n)
        &&& ideal_at(s1, (d2 + o as int) % n) == d2
    } by {
        if d2 == d && o as int == off {
            assert((d + off) % n == pos);
            assert(occ(s1, pos) && ideal_at(s1, pos) == d);
            assert(0 <= off < n);
        } else {
            if d2 == d {
                assert(s0[d2].neighbourhood.bit(o));
            } else {
                assert(s1[d2].neighbourhood == s0[d2].neighbourhood);
            }
            assert(s0[d2].neighbourhood.bit(o));
            let w = (d2 + o as int) % n;
            assert(occ(s0, w) && ideal_at(s0, w) == d2 && (o as int) < n);
            assert(w != pos);
            assert(occ(s1, w) && ideal_at(s1, w) == d2);
        }
    }

    assert(has_model(s1, m)) by {
        assert(occ(s1, pos) && key_model(s1, pos) == m);
    }
    assert forall|m2: K::M| m2 != m implies has_model(s1, m2) == has_model(s0, m2) by {
        if has_model(s0, m2) {
            let j = choose|j: int|
                0 <= j < s0.len() && #[trigger] occ(s0, j) && key_model(s0, j) == m2;
            assert(j != pos);
            assert(occ(s1, j) && key_model(s1, j) == m2);
            assert(has_model(s1, m2));
        }
        if has_model(s1, m2) {
            let j = choose|j: int|
                0 <= j < s1.len() && #[trigger] occ(s1, j) && key_model(s1, j) == m2;
            assert(j != pos);
            assert(occ(s0, j) && key_model(s0, j) == m2);
            assert(has_model(s0, m2));
        }
    }

    assert forall|i2: int, j2: int|
        0 <= i2 < n && 0 <= j2 < n && i2 != j2 && occ(s1, i2) && occ(
            s1,
            j2,
        ) implies #[trigger] key_model(s1, i2) != #[trigger] key_model(s1, j2) by {
        if i2 == pos {
            assert(occ(s0, j2) && key_model(s1, j2) == key_model(s0, j2));
            assert(has_model(s0, key_model(s0, j2)));
        } else if j2 == pos {
            assert(occ(s0, i2) && key_model(s1, i2) == key_model(s0, i2));
            assert(has_model(s0, key_model(s0, i2)));
        } else {
            assert(occ(s0, i2) && occ(s0, j2));
            assert(key_model(s0, i2) != key_model(s0, j2));
        }
    }

    let mid = s0.update(pos, s1[pos]);
    lemma_occ_count_update(s0, pos, s1[pos]);
    assert forall|j: int| 0 <= j < n implies (#[trigger] occ(s1, j) <==> #[trigger] occ(mid, j)) by {
        if j != pos {
            assert(s1[j].data == s0[j].data);
        }
    }
    lemma_occ_count_congruent(s1, mid);

    assert forall|i: int| 0 <= i < n && i != -1 && #[trigger] occ(s0, i) implies exists|i2: int|
        0 <= i2 < n && i2 != pos && #[trigger] occ(s1, i2) && s1[i2].data.unwrap().0
            == s0[i].data.unwrap().0 && pair_at(s1, i2) == pair_at(s0, i) by {
        assert(i != pos);
        assert(occ(s1, i) && s1[i].data == s0[i].data);
    }
    assert forall|i: int| 0 <= i < n && i != pos && #[trigger] occ(s1, i) implies exists|i2: int|
        0 <= i2 < n && i2 != -1 && #[trigger] occ(s0, i2) && s0[i2].data.unwrap().0
            == s1[i].data.unwrap().0 && pair_at(s0, i2) == pair_at(s1, i) by {
        assert(occ(s0, i) && s0[i].data == s1[i].data);
    }
}

/// An array equals itself up to pairs, and carries its own keys.
pub proof fn lemma_carried_refl<K, B>(s: Seq<Bucket<K, usize, B>>)
    ensures
        carried(s, s, -1, -1),
        same_but_pairs(s, s),
{
    assert forall|i: int| 0 <= i < s.len() && i != -1 && #[trigger] occ(s, i) implies exists|i2: int|
        0 <= i2 < s.len() && i2 != -1 && #[trigger] occ(s, i2) && s[i2].data.unwrap().0
            == s[i].data.unwrap().0 && pair_at(s, i2) == pair_at(s, i) by {
        assert(occ(s, i) && s[i].data.unwrap().0 == s[i].data.unwrap().0);
    }
}

/// Well-formedness does not read the cross-table indices, so it survives
/// any change confined to them.
pub proof fn lemma_wf_same_but_pairs<K: MapKey, B: BitField>(
    s0: Seq<Bucket<K, usize, B>>,
    s1: Seq<Bucket<K, usize, B>>,
    seed: u64,
)
    requires
        one_sided_wf(s0, seed),
        same_but_pairs(s0, s1),
    ensures
        one_sided_wf(s1, seed),
        occ_count(s1) == occ_count(s0),
        forall|m2: K::M| has_model(s1, m2) == has_model(s0, m2),
{
    let n = s0.len() as int;
    assert forall|j: int| 0 <= j < n && #[trigger] occ(s1, j) implies wf_slot(s1, seed, j) by {
        assert(occ(s0, j));
        assert(wf_slot(s0, seed, j));
        assert(key_model(s1, j) == key_model(s0, j));
        assert(ideal_at(s1, j) == ideal_at(s0, j));
        assert(s1[ideal_at(s0, j)].neighbourhood == s0[ideal_at(s0, j)].neighbourhood);
    }
    assert forall|d2: int, o: usize|
        0 <= d2 < n && o < B::spec_size() && #[trigger] s1[d2].neighbourhood.bit(o) implies {
        &&& (o as int) < n
        &&& occ(s1, (d2 + o as int) % n)
        &&& ideal_at(s1, (d2 + o as int) % n) == d2
    } by {
        assert(s0[d2].neighbourhood.bit(o));
        let w = (d2 + o as int) % n;
        assert(occ(s0, w) && ideal_at(s0, w) == d2);
        assert(occ(s1, w) && ideal_at(s1, w) == d2);
    }
    assert forall|i2: int, j2: int|
        0 <= i2 < n && 0 <= j2 < n && i2 != j2 && occ(s1, i2) && occ(
            s1,
            j2,
        ) implies #[trigger] key_model(s1, i2) != #[trigger] key_model(s1, j2) by {
        assert(occ(s0, i2) && occ(s0, j2));
        assert(key_model(s0, i2) != key_model(s0, j2));
        assert(key_model(s1, i2) == key_model(s0, i2) && key_model(s1, j2) == key_model(s0, j2));
    }
    lemma_occ_count_congruent(s1, s0);
    assert forall|m2: K::M| has_model(s1, m2) == has_model(s0, m2) by {
        if has_model(s0, m2) {
            let j = choose|j: int|
                0 <= j < s0.len() && #[trigger] occ(s0, j) && key_model(s0, j) == m2;
            assert(occ(s1, j) && key_model(s1, j) == m2);
            assert(has_model(s1, m2));
        }
        if has_model(s1, m2) {
            let j = choose|j: int|
                0 <= j < s1.len() && #[trigger] occ(s1, j) && key_model(s1, j) == m2;
            assert(occ(s0, j) && key_model(s0, j) == m2);
            assert(has_model(s0, m2));
        }
    }
}

/// After one relocation step (an occupant moved from `q` to `t`, and its
/// partner's cross index redirected to `t`), the cross-references, the
/// carried keys and the partner keys are all as they were.
pub proof fn lemma_relocation_step<K: MapKey, V: MapKey, B: BitField>(
    oks: Seq<Bucket<K, usize, B>>,
    ovs: Seq<Bucket<V, usize, B>>,
    ks_pre: Seq<Bucket<K, usize, B>>,
    vs_pre: Seq<Bucket<V, usize, B>>,
    ks_new: Seq<Bucket<K, usize, B>>,
    vs_new: Seq<Bucket<V, usize, B>>,
    q: int,
    t: int,
)
    requires
        oks.len() == ovs.len(),
        ks_pre.len() == oks.len(),
        vs_pre.len() == ovs.len(),
        ks_new.len() == oks.len(),
        vs_new.len() == ovs.len(),
        cross_wf(oks, ovs),
        cross_wf(ks_pre, vs_pre),
        same_but_pairs(ovs, vs_pre),
        partners_preserved(oks, ovs, ks_pre, vs_pre),
        carried(oks, ks_pre, -1, -1),
        carried(ks_pre, oks, -1, -1),
        0 <= q < oks.len(),
        0 <= t < oks.len(),
        q != t,
        occ(ks_pre, q),
        !occ(ks_pre, t),
        forall|j: int| 0 <= j < oks.len() && j != q && j != t ==> ks_new[j].data == ks_pre[j].data,
        !occ(ks_new, q),
        ks_new[t].data == ks_pre[q].data,
        0 <= pair_at(ks_pre, q) < ovs.len(),
        occ(vs_pre, pair_at(ks_pre, q)),
        pair_at(vs_pre, pair_at(ks_pre, q)) == q,
        forall|x: int|
            0 <= x < ovs.len() && x != pair_at(ks_pre, q) ==> vs_new[x] == vs_pre[x],
        vs_new[pair_at(ks_pre, q)].neighbourhood == vs_pre[pair_at(ks_pre, q)].neighbourhood,
        occ(vs_new, pair_at(ks_pre, q)),
        vs_new[pair_at(ks_pre, q)].data.unwrap().0 == vs_pre[pair_at(ks_pre, q)].data.unwrap().0,
        vs_new[pair_at(ks_pre, q)].data.unwrap().2 == vs_pre[pair_at(ks_pre, q)].data.unwrap().2,
        pair_at(vs_new, pair_at(ks_pre, q)) == t,
        orphan_pairs_kept(oks, ovs, vs_pre),
    ensures
        cross_wf(ks_new, vs_new),
        same_but_pairs(ovs, vs_new),
        partners_preserved(oks, ovs, ks_new, vs_new),
        carried(oks, ks_new, -1, -1),
        carried(ks_new, oks, -1, -1),
        orphan_pairs_kept(oks, ovs, vs_new),
{
    let n = oks.len() as int;
    let p2 = pair_at(ks_pre, q);
    assert(occ(ks_new, t));

    assert forall|i: int| 0 <= i < n && #[trigger] occ(ks_new, i) implies proper_partner(
        ks_new,
        vs_new,
        i,
    ) by {
        if i == t {
            assert(pair_at(ks_new, i) == p2);
            assert(occ(vs_new, p2));
            assert(pair_at(vs_new, p2) == t);
        } else {
            assert(i != q);
            assert(ks_new[i].data == ks_pre[i].data);
            assert(occ(ks_pre, i));
            assert(proper_partner(ks_pre, vs_pre, i));
            let pi = pair_at(ks_pre, i);
            if pi == p2 {
                assert(pair_at(vs_pre, pi) == i);
                assert(pair_at(vs_pre, p2) == q);
                assert(false);
            }
            assert(vs_new[pi] == vs_pre[pi]);
        }
    }

    assert(same_but_pairs(ovs, vs_new)) by {
        assert(occ(vs_pre, p2));
    }

    assert forall|x: int|
        0 <= x < n && #[trigger] occ(ovs, x) && proper_partner(ovs, oks, x) implies {
        &&& proper_partner(vs_new, ks_new, x)
        &&& ks_new[pair_at(vs_new, x)].data.unwrap().0 == oks[pair_at(ovs, x)].data.unwrap().0
    } by {
        assert(proper_partner(vs_pre, ks_pre, x));
        assert(ks_pre[pair_at(vs_pre, x)].data.unwrap().0 == oks[pair_at(ovs, x)].data.unwrap().0);
        let w = pair_at(vs_pre, x);
        if x == p2 {
            assert(w == q);
            assert(pair_at(vs_new, x) == t);
            assert(ks_new[t].data.unwrap().0 == ks_pre[q].data.unwrap().0);
            assert(pair_at(ks_new, t) == p2);
        } else {
            assert(vs_new[x] == vs_pre[x]);
            assert(pair_at(ks_pre, w) == x);
            if w == q {
                assert(pair_at(ks_pre, q) == p2);
                assert(false);
            }
            assert(w != t);
            assert(ks_new[w].data == ks_pre[w].data);
        }
    }

    assert forall|i: int| 0 <= i < n && i != -1 && #[trigger] occ(oks, i) implies exists|i2: int|
        0 <= i2 < n && i2 != -1 && #[trigger] occ(ks_new, i2) && ks_new[i2].data.unwrap().0
            == oks[i].data.unwrap().0 && pair_at(ks_new, i2) == pair_at(oks, i) by {
        let ip = choose|ip: int|
            0 <= ip < n && ip != -1 && #[trigger] occ(ks_pre, ip) && ks_pre[ip].data.unwrap().0
                == oks[i].data.unwrap().0 && pair_at(ks_pre, ip) == pair_at(oks, i);
        if ip == q {
            assert(occ(ks_new, t) && ks_new[t].data == ks_pre[q].data);
        } else {
            assert(ip != t);
            assert(occ(ks_new, ip) && ks_new[ip].data == ks_pre[ip].data);
        }
    }

    // the repaired slot was a proper partner from the start, so slots that
    // never had one keep their stored index
    assert(proper_partner(ovs, oks, p2)) by {
        let q0 = choose|q0: int|
            0 <= q0 < n && q0 != -1 && #[trigger] occ(oks, q0) && oks[q0].data.unwrap().0
                == ks_pre[q].data.unwrap().0 && pair_at(oks, q0) == pair_at(ks_pre, q);
        assert(proper_partner(oks, ovs, q0));
        assert(pair_at(ovs, p2) == q0);
        assert(pair_at(oks, q0) == p2);
    }
    assert forall|x: int|
        0 <= x < ovs.len() && #[trigger] occ(ovs, x) && !proper_partner(ovs, oks, x) implies pair_at(
        vs_new,
        x,
    ) == pair_at(ovs, x) by {
        assert(x != p2);
        assert(vs_new[x] == vs_pre[x]);
    }

    assert forall|i: int| 0 <= i < n && i != -1 && #[trigger] occ(ks_new, i) implies exists|i2: int|
        0 <= i2 < n && i2 != -1 && #[trigger] occ(oks, i2) && oks[i2].data.unwrap().0
            == ks_new[i].data.unwrap().0 && pair_at(oks, i2) == pair_at(ks_new, i) by {
        let src = if i == t {
            q
        } else {
            i
        };
        assert(occ(ks_pre, src) && ks_pre[src].data == ks_new[i].data);
        let i2 = choose|i2: int|
            0 <= i2 < n && i2 != -1 && #[trigger] occ(oks, i2) && oks[i2].data.unwrap().0
                == ks_pre[src].data.unwrap().0 && pair_at(oks, i2) == pair_at(ks_pre, src);
        assert(occ(oks, i2));
    }
}

/// An occupied count never exceeds the array length.
pub proof fn lemma_occ_count_le_len<K, V, B>(s: Seq<Bucket<K, V, B>>)
    ensures
        occ_count(s) <= s.len(),
    decreases s.len(),
{
    if s.len() > 0 {
        lemma_occ_count_le_len(s.drop_last());
    }
}

/// After linking a fresh pair of slots, the stored relation has gained
/// exactly that pair. The hypotheses relate the final arrays to the old
/// ones slot by slot: every surviving key kept its partner's key.
#[verifier::rlimit(60)]
#[verifier::spinoff_prover]
pub proof fn lemma_as_map_after_link<K: MapKey, V: MapKey, B: BitField>(
    oks: Seq<Bucket<K, usize, B>>,
    ovs: Seq<Bucket<V, usize, B>>,
    ksf: Seq<Bucket<K, usize, B>>,
    vsf: Seq<Bucket<V, usize, B>>,
    li: int,
    ri: int,
)
    requires
        oks.len() == ovs.len(),
        ksf.len() == oks.len(),
        vsf.len() == ovs.len(),
        distinct_models(oks),
        distinct_models(ksf),
        0 <= li < ksf.len(),
        0 <= ri < vsf.len(),
        occ(ksf, li),
        pair_at(ksf, li) == ri,
        occ(vsf, ri),
        !has_model(oks, key_model(ksf, li)),
        forall|i: int|
            0 <= i < ksf.len() && i != li && #[trigger] occ(ksf, i) ==> exists|i0: int|
                0 <= i0 < oks.len() && #[trigger] occ(oks, i0) && key_model(oks, i0) == key_model(
                    ksf,
                    i,
                ) && key_model(vsf, pair_at(ksf, i)) == key_model(ovs, pair_at(oks, i0)),
        forall|i0: int|
            0 <= i0 < oks.len() && #[trigger] occ(oks, i0) ==> has_model(ksf, key_model(oks, i0)),
    ensures
        as_map(ksf, vsf) == as_map(oks, ovs).insert(key_model(ksf, li), key_model(vsf, ri)),
{
    let km = key_model(ksf, li);
    let vm = key_model(vsf, ri);
    let lhs = as_map(ksf, vsf);
    let rhs = as_map(oks, ovs).insert(km, vm);
    assert forall|m: K::M| #[trigger] lhs.dom().contains(m) == rhs.dom().contains(m) by {
        if m == km {
            assert(occ(ksf, li) && key_model(ksf, li) == m);
            assert(has_model(ksf, m));
        } else {
            if has_model(ksf, m) {
                let i = choose|i: int|
                    0 <= i < ksf.len() && #[trigger] occ(ksf, i) && key_model(ksf, i) == m;
                assert(i != li);
                let i0 = choose|i0: int|
                    0 <= i0 < oks.len() && #[trigger] occ(oks, i0) && key_model(oks, i0)
                        == key_model(ksf, i) && key_model(vsf, pair_at(ksf, i)) == key_model(
                        ovs,
                        pair_at(oks, i0),
                    );
                assert(has_model(oks, m));
            }
            if has_model(oks, m) {
                let i0 = choose|i0: int|
                    0 <= i0 < oks.len() && #[trigger] occ(oks, i0) && key_model(oks, i0) == m;
                assert(has_model(ksf, m));
            }
        }
    }
    assert forall|m: K::M| #[trigger] lhs.dom().contains(m) implies lhs[m] == rhs[m] by {
        let w = slot_with(ksf, m);
        assert(occ(ksf, w) && key_model(ksf, w) == m);
        if m == km {
            assert(w == li) by {
                if w != li {
                    assert(key_model(ksf, w) != key_model(ksf, li));
                }
            }
            assert(lhs[m] == key_model(vsf, ri));
        } else {
            assert(w != li);
            let i0 = choose|i0: int|
                0 <= i0 < oks.len() && #[trigger] occ(oks, i0) && key_model(oks, i0) == key_model(
                    ksf,
                    w,
                ) && key_model(vsf, pair_at(ksf, w)) == key_model(ovs, pair_at(oks, i0));
            assert(slot_with(oks, m) == i0) by {
                let w0 = slot_with(oks, m);
                assert(occ(oks, w0) && key_model(oks, w0) == m);
            }
            assert(rhs[m] == key_model(ovs, pair_at(oks, i0)));
        }
    }
    assert(lhs =~= rhs);
}

/// If the keys of `ks1` are those of `oks` with the same cross indices, and
/// the value side only changed in its pair fields, the stored relation is
/// unchanged.
#[verifier::rlimit(60)]
#[verifier::spinoff_prover]
pub proof fn lemma_as_map_congruence<K: MapKey, V: MapKey, B: BitField>(
    oks: Seq<Bucket<K, usize, B>>,
    ovs: Seq<Bucket<V, usize, B>>,
    ks1: Seq<Bucket<K, usize, B>>,
    vs1: Seq<Bucket<V, usize, B>>,
)
    requires
        oks.len() == ovs.len(),
        ks1.len() == oks.len(),
        vs1.len() == ovs.len(),
        distinct_models(oks),
        distinct_models(ks1),
        cross_wf(oks, ovs),
        carried(oks, ks1, -1, -1),
        carried(ks1, oks, -1, -1),
        same_but_pairs(ovs, vs1),
    ensures
        as_map(ks1, vs1) == as_map(oks, ovs),
{
    let n = oks.len() as int;
    let lhs = as_map(ks1, vs1);
    let rhs = as_map(oks, ovs);
    assert forall|m: K::M| #[trigger] lhs.dom().contains(m) == rhs.dom().contains(m) by {
        if has_model(ks1, m) {
            let i = choose|i: int|
                0 <= i < ks1.len() && #[trigger] occ(ks1, i) && key_model(ks1, i) == m;
            let i0 = choose|i0: int|
                0 <= i0 < n && i0 != -1 && #[trigger] occ(oks, i0) && oks[i0].data.unwrap().0
                    == ks1[i].data.unwrap().0 && pair_at(oks, i0) == pair_at(ks1, i);
            assert(key_model(oks, i0) == m);
            assert(has_model(oks, m));
        }
        if has_model(oks, m) {
            let i = choose|i: int|
                0 <= i < oks.len() && #[trigger] occ(oks, i) && key_model(oks, i) == m;
            let i1 = choose|i1: int|
                0 <= i1 < n && i1 != -1 && #[trigger] occ(ks1, i1) && ks1[i1].data.unwrap().0
                    == oks[i].data.unwrap().0 && pair_at(ks1, i1) == pair_at(oks, i);
            assert(key_model(ks1, i1) == m);
            assert(has_model(ks1, m));
        }
    }
    assert forall|m: K::M| #[trigger] lhs.dom().contains(m) implies lhs[m] == rhs[m] by {
        let w = slot_with(ks1, m);
        assert(occ(ks1, w) && key_model(ks1, w) == m);
        let i0 = choose|i0: int|
            0 <= i0 < n && i0 != -1 && #[trigger] occ(oks, i0) && oks[i0].data.unwrap().0
                == ks1[w].data.unwrap().0 && pair_at(oks, i0) == pair_at(ks1, w);
        assert(slot_with(oks, m) == i0) by {
            assert(key_model(oks, i0) == m);
            let w0 = slot_with(oks, m);
            assert(occ(oks, w0) && key_model(oks, w0) == m);
        }
        let p = pair_at(oks, i0);
        assert(proper_partner(oks, ovs, i0));
        assert(0 <= p < n);
        assert(key_model(vs1, p) == key_model(ovs, p)) by {
            assert(occ(ovs, p));
            assert(vs1[p].data.unwrap().0 == ovs[p].data.unwrap().0);
        }
    }
    assert(lhs =~= rhs);
}

/// If every key of `ksf` appears in `oks` with a partner holding the same
/// key model, and vice versa, the stored relations coincide.
#[verifier::rlimit(60)]
#[verifier::spinoff_prover]
pub proof fn lemma_as_map_same<K: MapKey, V: MapKey, B: BitField>(
    oks: Seq<Bucket<K, usize, B>>,
    ovs: Seq<Bucket<V, usize, B>>,
    ksf: Seq<Bucket<K, usize, B>>,
    vsf: Seq<Bucket<V, usize, B>>,
)
    requires
        distinct_models(oks),
        distinct_models(ksf),
        forall|i: int|
            0 <= i < ksf.len() && #[trigger] occ(ksf, i) ==> exists|i0: int|
                0 <= i0 < oks.len() && #[trigger] occ(oks, i0) && key_model(oks, i0) == key_model(
                    ksf,
                    i,
                ) && key_model(vsf, pair_at(ksf, i)) == key_model(ovs, pair_at(oks, i0)),
        forall|i0: int|
            0 <= i0 < oks.len() && #[trigger] occ(oks, i0) ==> has_model(ksf, key_model(oks, i0)),
    ensures
        as_map(ksf, vsf) == as_map(oks, ovs),
{
    let lhs = as_map(ksf, vsf);
    let rhs = as_map(oks, ovs);
    assert forall|m: K::M| #[trigger] lhs.dom().contains(m) == rhs.dom().contains(m) by {
        if has_model(ksf, m) {
            let i = choose|i: int|
                0 <= i < ksf.len() && #[trigger] occ(ksf, i) && key_model(ksf, i) == m;
            let i0 = choose|i0: int|
                0 <= i0 < oks.len() && #[trigger] occ(oks, i0) && key_model(oks, i0) == key_model(
                    ksf,
                    i,
                ) && key_model(vsf, pair_at(ksf, i)) == key_model(ovs, pair_at(oks, i0));
            assert(has_model(oks, m));
        }
        if has_model(oks, m) {
            let i0 = choose|i0: int|
                0 <= i0 < oks.len() && #[trigger] occ(oks, i0) && key_model(oks, i0) == m;
            assert(has_model(ksf, m));
        }
    }
    assert forall|m: K::M| #[trigger] lhs.dom().contains(m) implies lhs[m] == rhs[m] by {
        let w = slot_with(ksf, m);
        assert(occ(ksf, w) && key_model(ksf, w) == m);
        let i0 = choose|i0: int|
            0 <= i0 < oks.len() && #[trigger] occ(oks, i0) && key_model(oks, i0) == key_model(
                ksf,
                w,
            ) && key_model(vsf, pair_at(ksf, w)) == key_model(ovs, pair_at(oks, i0));
        assert(slot_with(oks, m) == i0) by {
            let w0 = slot_with(oks, m);
            assert(occ(oks, w0) && key_model(oks, w0) == m);
        }
    }
    assert(lhs =~= rhs);
}

/// In a cross-referenced pair of arrays, the two readings of the relation
/// are mutual inverses.
pub proof fn lemma_as_map_inverse<K: MapKey, V: MapKey, B: BitField>(
    ks: Seq<Bucket<K, usize, B>>,
    vs: Seq<Bucket<V, usize, B>>,
)
    requires
        ks.len() == vs.len(),
        distinct_models(ks),
        distinct_models(vs),
        cross_wf(ks, vs),
        cross_wf(vs, ks),
    ensures
        forall|m: K::M|
            #[trigger] has_model(ks, m) ==> has_model(vs, as_map(ks, vs)[m]) && as_map(vs, ks)[
                as_map(ks, vs)[m]] == m,
{
    assert forall|m: K::M| #[trigger] has_model(ks, m) implies has_model(vs, as_map(ks, vs)[m])
        && as_map(vs, ks)[as_map(ks, vs)[m]] == m by {
        let w = slot_with(ks, m);
        assert(occ(ks, w) && key_model(ks, w) == m);
        assert(proper_partner(ks, vs, w));
        let p = pair_at(ks, w);
        let mv = key_model(vs, p);
        assert(occ(vs, p));
        assert(has_model(vs, mv));
        assert(as_map(ks, vs)[m] == mv);
        assert(slot_with(vs, mv) == p) by {
            let p0 = slot_with(vs, mv);
            assert(occ(vs, p0) && key_model(vs, p0) == mv);
        }
        assert(pair_at(vs, p) == w);
        assert(as_map(vs, ks)[mv] == key_model(ks, w));
    }
}

/// Two cross-referenced pairs of arrays with the same forward relation
/// also have the same backward relation.
pub proof fn lemma_rev_determined<K: MapKey, V: MapKey, B: BitField>(
    ks0: Seq<Bucket<K, usize, B>>,
    vs0: Seq<Bucket<V, usize, B>>,
    ks1: Seq<Bucket<K, usize, B>>,
    vs1: Seq<Bucket<V, usize, B>>,
)
    requires
        ks0.len() == vs0.len(),
        ks1.len() == vs1.len(),
        distinct_models(ks0),
        distinct_models(vs0),
        distinct_models(ks1),
        distinct_models(vs1),
        cross_wf(ks0, vs0),
        cross_wf(vs0, ks0),
        cross_wf(ks1, vs1),
        cross_wf(vs1, ks1),
        as_map(ks1, vs1) == as_map(ks0, vs0),
    ensures
        as_map(vs1, ks1) == as_map(vs0, ks0),
{
    lemma_as_map_inverse(ks0, vs0);
    lemma_as_map_inverse(vs0, ks0);
    lemma_as_map_inverse(ks1, vs1);
    lemma_as_map_inverse(vs1, ks1);
    let r0 = as_map(vs0, ks0);
    let r1 = as_map(vs1, ks1);
    assert forall|mv: V::M| #[trigger] r1.dom().contains(mv) == r0.dom().contains(mv) by {
        if has_model(vs1, mv) {
            let m = r1[mv];
            assert(has_model(ks1, m) && as_map(ks1, vs1)[m] == mv);
            assert(as_map(ks1, vs1).dom().contains(m));
            assert(as_map(ks0, vs0).dom().contains(m));
            assert(has_model(ks0, m));
            assert(has_model(vs0, as_map(ks0, vs0)[m]));
            assert(as_map(ks0, vs0)[m] == mv);
        }
        if has_model(vs0, mv) {
            let m = r0[mv];
            assert(has_model(ks0, m) && as_map(ks0, vs0)[m] == mv);
            assert(as_map(ks0, vs0).dom().contains(m));
            assert(as_map(ks1, vs1).dom().contains(m));
            assert(has_model(ks1, m));
            assert(has_model(vs1, as_map(ks1, vs1)[m]));
            assert(as_map(ks1, vs1)[m] == mv);
        }
    }
    assert forall|mv: V::M| #[trigger] r1.dom().contains(mv) implies r1[mv] == r0[mv] by {
        let m = r1[mv];
        assert(has_model(ks1, m) && as_map(ks1, vs1)[m] == mv);
        assert(as_map(ks1, vs1).dom().contains(m));
        assert(as_map(ks0, vs0).dom().contains(m));
        assert(has_model(ks0, m));
        assert(as_map(ks0, vs0)[m] == mv);
        assert(as_map(vs0, ks0)[as_map(ks0, vs0)[m]] == m);
    }
    assert(r1 =~= r0);
}

/// Composition for the final placement: relative to the original array,
/// the placed array carries every original key, and every slot except the
/// new one keeps a proper partner.
#[verifier::rlimit(60)]
#[verifier::spinoff_prover]
pub proof fn lemma_place_compose<K: MapKey, V: MapKey, B: BitField>(
    oks: Seq<Bucket<K, usize, B>>,
    ks_cur: Seq<Bucket<K, usize, B>>,
    ks_fin: Seq<Bucket<K, usize, B>>,
    vs: Seq<Bucket<V, usize, B>>,
    pos: int,
)
    requires
        ks_cur.len() == oks.len(),
        ks_fin.len() == oks.len(),
        carried(oks, ks_cur, -1, -1),
        carried(ks_cur, oks, -1, -1),
        cross_wf(ks_cur, vs),
        0 <= pos < oks.len(),
        !occ(ks_cur, pos),
        forall|j: int| 0 <= j < oks.len() && j != pos ==> ks_fin[j].data == ks_cur[j].data,
        occ(ks_fin, pos),
    ensures
        carried(oks, ks_fin, -1, pos),
        carried(ks_fin, oks, pos, -1),
        forall|i: int|
            0 <= i < ks_fin.len() && i != pos && #[trigger] occ(ks_fin, i) ==> proper_partner(
                ks_fin,
                vs,
                i,
            ),
{
    let n = oks.len() as int;
    assert forall|i: int| 0 <= i < n && i != -1 && #[trigger] occ(oks, i) implies exists|i2: int|
        0 <= i2 < n && i2 != pos && #[trigger] occ(ks_fin, i2) && ks_fin[i2].data.unwrap().0
            == oks[i].data.unwrap().0 && pair_at(ks_fin, i2) == pair_at(oks, i) by {
        let ip = choose|ip: int|
            0 <= ip < n && ip != -1 && #[trigger] occ(ks_cur, ip) && ks_cur[ip].data.unwrap().0
                == oks[i].data.unwrap().0 && pair_at(ks_cur, ip) == pair_at(oks, i);
        assert(ip != pos);
        assert(occ(ks_fin, ip) && ks_fin[ip].data == ks_cur[ip].data);
    }
    assert forall|i: int|
        0 <= i < n && i != pos && #[trigger] occ(ks_fin, i) implies exists|i2: int|
        0 <= i2 < n && i2 != -1 && #[trigger] occ(oks, i2) && oks[i2].data.unwrap().0
            == ks_fin[i].data.unwrap().0 && pair_at(oks, i2) == pair_at(ks_fin, i) by {
        assert(occ(ks_cur, i) && ks_cur[i].data == ks_fin[i].data);
        let i2 = choose|i2: int|
            0 <= i2 < n && i2 != -1 && #[trigger] occ(oks, i2) && oks[i2].data.unwrap().0
                == ks_cur[i].data.unwrap().0 && pair_at(oks, i2) == pair_at(ks_cur, i);
        assert(occ(oks, i2));
    }
    assert forall|i: int|
        0 <= i < n && i != pos && #[trigger] occ(ks_fin, i) implies proper_partner(
        ks_fin,
        vs,
        i,
    ) by {
        assert(occ(ks_cur, i));
        assert(proper_partner(ks_cur, vs, i));
        assert(ks_fin[i].data == ks_cur[i].data);
    }
}

/// The relation after a pair is inserted: any pair keyed by either side is
/// evicted, then the new pair is added.
pub open spec fn map_after_insert<X, Y>(m: Map<X, Y>, rv: Map<Y, X>, x: X, y: Y) -> Map<X, Y> {
    (if rv.contains_key(y) {
        m.remove(x).remove(rv[y])
    } else {
        m.remove(x)
    }).insert(x, y)
}

/// Shape of the relation after evicting a pair that matches the incoming
/// one exactly.
pub proof fn lemma_evict_same_pair<X, Y>(m0: Map<X, Y>, rv0: Map<Y, X>, lm: X, rm: Y)
    requires
        m0.contains_key(lm),
        m0[lm] == rm,
        rv0.contains_key(rm),
        rv0[rm] == lm,
    ensures
        m0.remove(lm) == map_after_insert(m0, rv0, lm, rm).remove(lm),
        rv0.remove(rm) == map_after_insert(rv0, m0, rm, lm).remove(rm),
{
    assert(m0.remove(lm) =~= map_after_insert(m0, rv0, lm, rm).remove(lm));
    assert(rv0.remove(rm) =~= map_after_insert(rv0, m0, rm, lm).remove(rm));
}

/// Shape of the relation after evicting both an old pair of the left key
/// and an old pair of the right key.
pub proof fn lemma_evict_both<X, Y>(m0: Map<X, Y>, rv0: Map<Y, X>, lm: X, rm: Y, b0: Y, a0: X)
    requires
        m0.contains_key(lm),
        m0[lm] == b0,
        b0 != rm,
        rv0.contains_key(b0),
        rv0[b0] == lm,
        rv0.contains_key(rm),
        rv0[rm] == a0,
        m0.contains_key(a0),
        m0[a0] == rm,
    ensures
        m0.remove(lm).remove(a0) == map_after_insert(m0, rv0, lm, rm).remove(lm),
        rv0.remove(b0).remove(rm) == map_after_insert(rv0, m0, rm, lm).remove(rm),
{
    assert(a0 != lm);
    assert(m0.remove(lm).remove(a0) =~= map_after_insert(m0, rv0, lm, rm).remove(lm));
    assert(rv0.remove(b0).remove(rm) =~= map_after_insert(rv0, m0, rm, lm).remove(rm));
}

/// Shape of the relation after evicting only the left key's old pair.
pub proof fn lemma_evict_left_only<X, Y>(m0: Map<X, Y>, rv0: Map<Y, X>, lm: X, rm: Y, b0: Y)
    requires
        m0.contains_key(lm),
        m0[lm] == b0,
        b0 != rm,
        rv0.contains_key(b0),
        rv0[b0] == lm,
        !rv0.contains_key(rm),
    ensures
        m0.remove(lm) == map_after_insert(m0, rv0, lm, rm).remove(lm),
        rv0.remove(b0) == map_after_insert(rv0, m0, rm, lm).remove(rm),
{
    assert(m0.remove(lm) =~= map_after_insert(m0, rv0, lm, rm).remove(lm));
    assert(rv0.remove(b0) =~= map_after_insert(rv0, m0, rm, lm).remove(rm));
}

/// Shape of the relation after evicting only the right key's old pair, or
/// nothing at all.
pub proof fn lemma_evict_right_only<X, Y>(m0: Map<X, Y>, rv0: Map<Y, X>, lm: X, rm: Y, a0: X)
    requires
        !m0.contains_key(lm),
        rv0.contains_key(rm) ==> rv0[rm] == a0 && m0.contains_key(a0) && m0[a0] == rm,
    ensures
        rv0.contains_key(rm) ==> m0.remove(a0) == map_after_insert(m0, rv0, lm, rm).remove(lm)
            && rv0.remove(rm) == map_after_insert(rv0, m0, rm, lm).remove(rm),
        !rv0.contains_key(rm) ==> m0 == map_after_insert(m0, rv0, lm, rm).remove(lm) && rv0
            == map_after_insert(rv0, m0, rm, lm).remove(rm),
{
    if rv0.contains_key(rm) {
        assert(m0.remove(a0) =~= map_after_insert(m0, rv0, lm, rm).remove(lm));
        assert(rv0.remove(rm) =~= map_after_insert(rv0, m0, rm, lm).remove(rm));
    } else {
        assert(m0 =~= map_after_insert(m0, rv0, lm, rm).remove(lm));
        assert(rv0 =~= map_after_insert(rv0, m0, rm, lm).remove(rm));
    }
}

/// An array whose first `k` slots of some circular window are all occupied
/// holds at least `k` pairs.
pub proof fn lemma_occ_count_ge_window<K, V, B>(s: Seq<Bucket<K, V, B>>, d: int, k: int)
    requires
        s.len() >= 1,
        0 <= d < s.len(),
        0 <= k <= s.len(),
        forall|o: int| 0 <= o < k ==> occ(s, #[trigger] slot_at(s.len() as int, d, o)),
    ensures
        occ_count(s) >= k,
    decreases k,
{
    let n = s.len() as int;
    if k > 0 {
        let last = slot_at(n, d, k - 1);
        lemma_offset_of_step(n, d, k - 1);
        let hole = Bucket { data: None::<(K, V, usize)>, neighbourhood: s[last].neighbourhood };
        let s1 = s.update(last, hole);
        lemma_occ_count_update(s, last, hole);
        assert(occ(s, last));
        assert forall|o: int| 0 <= o < k - 1 implies occ(s1, #[trigger] slot_at(n, d, o)) by {
            lemma_offset_of_step(n, d, o);
            if slot_at(n, d, o) == last {
                assert(offset_of(n, d, slot_at(n, d, o)) == o);
                assert(offset_of(n, d, last) == k - 1);
            }
            assert(occ(s, slot_at(n, d, o)));
        }
        lemma_occ_count_ge_window(s1, d, k - 1);
    }
}

} // verus!
