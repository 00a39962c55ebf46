use crate::model::map_after_insert;
use vstd::prelude::*;

verus! {

/// Inserting a pair whose keys are both fresh evicts nothing: the relation
/// simply gains the pair, read from either side. Together with the
/// contract of `insert`, which returns the evicted counterparts, a run of
/// inserts over pairwise-distinct keys reports no eviction and grows the
/// relation by one pair each time.
pub proof fn lemma_fresh_insert<X, Y>(m: Map<X, Y>, rv: Map<Y, X>, x: X, y: Y)
    requires
        !m.contains_key(x),
        !rv.contains_key(y),
    ensures
        map_after_insert(m, rv, x, y) == m.insert(x, y),
        map_after_insert(rv, m, y, x) == rv.insert(y, x),
{
    assert(map_after_insert(m, rv, x, y) =~= m.insert(x, y));
    assert(map_after_insert(rv, m, y, x) =~= rv.insert(y, x));
}

/// After inserting `(x, y)`, looking `x` up from the left finds `y` and
/// looking `y` up from the right finds `x`, whatever the relation held
/// before.
pub proof fn lemma_insert_then_lookup<X, Y>(m: Map<X, Y>, rv: Map<Y, X>, x: X, y: Y)
    ensures
        map_after_insert(m, rv, x, y).contains_key(x),
        map_after_insert(m, rv, x, y)[x] == y,
        map_after_insert(rv, m, y, x).contains_key(y),
        map_after_insert(rv, m, y, x)[y] == x,
{
}

/// Re-inserting a left key with a new right value evicts the old right
/// value: afterwards the old value can no longer be looked up from the
/// right, while the left key maps to the new value.
pub proof fn lemma_reinsert_evicts<X, Y>(m: Map<X, Y>, rv: Map<Y, X>, x: X, y: Y, b: Y)
    requires
        m.contains_key(x),
        m[x] == b,
        b != y,
        rv.contains_key(b),
        rv[b] == x,
    ensures
        !map_after_insert(rv, m, y, x).contains_key(b),
        map_after_insert(m, rv, x, y)[x] == y,
{
}

/// The relation reached by inserting a sequence of pairs into an empty
/// map, one after the other.
pub open spec fn relation_after_inserts<X, Y>(pairs: Seq<(X, Y)>) -> (Map<X, Y>, Map<Y, X>)
    decreases pairs.len(),
{
    if pairs.len() == 0 {
        (Map::empty(), Map::empty())
    } else {
        let prev = relation_after_inserts(pairs.drop_last());
        let p = pairs.last();
        (map_after_insert(prev.0, prev.1, p.0, p.1), map_after_insert(prev.1, prev.0, p.1, p.0))
    }
}

/// Inserting a sequence of pairs with pairwise-distinct left keys and
/// pairwise-distinct right keys evicts nothing at any step, and the final
/// relation holds exactly those pairs: one per insertion, from each side.
pub proof fn lemma_distinct_sequence_inserts<X, Y>(pairs: Seq<(X, Y)>)
    requires
        forall|i: int, j: int|
            0 <= i < pairs.len() && 0 <= j < pairs.len() && i != j ==> (#[trigger] pairs[i]).0 != (
            #[trigger] pairs[j]).0 && pairs[i].1 != pairs[j].1,
    ensures
        forall|i: int|
            0 <= i < pairs.len() ==> {
                let before = relation_after_inserts(pairs.take(i));
                &&& !before.0.contains_key((#[trigger] pairs[i]).0)
                &&& !before.1.contains_key(pairs[i].1)
            },
        forall|i: int|
            0 <= i < pairs.len() ==> {
                let after = relation_after_inserts(pairs);
                &&& after.0.contains_key((#[trigger] pairs[i]).0)
                &&& after.0[pairs[i].0] == pairs[i].1
                &&& after.1.contains_key(pairs[i].1)
                &&& after.1[pairs[i].1] == pairs[i].0
            },
        relation_after_inserts(pairs).0.dom().finite(),
        relation_after_inserts(pairs).0.dom().len() == pairs.len(),
        forall|x: X|
            #[trigger] relation_after_inserts(pairs).0.contains_key(x) ==> exists|i: int|
                0 <= i < pairs.len() && (#[trigger] pairs[i]).0 == x,
        forall|y: Y|
            #[trigger] relation_after_inserts(pairs).1.contains_key(y) ==> exists|i: int|
                0 <= i < pairs.len() && (#[trigger] pairs[i]).1 == y,
    decreases pairs.len(),
{
    if pairs.len() == 0 {
        assert(relation_after_inserts(pairs).0.dom() =~= Set::<X>::empty());
    } else {
        let d = pairs.drop_last();
        let p = pairs.last();
        let n = pairs.len() as int;
        lemma_distinct_sequence_inserts(d);
        let prev = relation_after_inserts(d);
        let after = relation_after_inserts(pairs);
        assert(!prev.0.contains_key(p.0)) by {
            if prev.0.contains_key(p.0) {
                let i = choose|i: int| 0 <= i < d.len() && (#[trigger] d[i]).0 == p.0;
                assert((#[trigger] pairs[i]).0 == pairs[n - 1].0);
            }
        }
        assert(!prev.1.contains_key(p.1)) by {
            if prev.1.contains_key(p.1) {
                let i = choose|i: int| 0 <= i < d.len() && (#[trigger] d[i]).1 == p.1;
                assert((#[trigger] pairs[i]).1 == pairs[n - 1].1);
            }
        }
        lemma_fresh_insert(prev.0, prev.1, p.0, p.1);
        assert(after.0 == prev.0.insert(p.0, p.1));
        assert(after.1 == prev.1.insert(p.1, p.0));
        assert forall|i: int| 0 <= i < n implies {
            let before = relation_after_inserts(pairs.take(i));
            &&& !before.0.contains_key((#[trigger] pairs[i]).0)
            &&& !before.1.contains_key(pairs[i].1)
        } by {
            assert(pairs.take(i) =~= d.take(i));
            if i < n - 1 {
                assert(d[i] == pairs[i]);
            }
        }
        assert forall|i: int| 0 <= i < n implies {
            &&& after.0.contains_key((#[trigger] pairs[i]).0)
            &&& after.0[pairs[i].0] == pairs[i].1
            &&& after.1.contains_key(pairs[i].1)
            &&& after.1[pairs[i].1] == pairs[i].0
        } by {
            if i < n - 1 {
                assert(d[i] == pairs[i]);
                assert(pairs[i].0 != p.0 && pairs[i].1 != p.1);
            }
        }
        assert(after.0.dom() =~= prev.0.dom().insert(p.0));
    }
}

} // verus!
