use crate::bitfield::BitField;
use crate::bucket::Bucket;
use crate::keys::MapKey;
use crate::model::{
    as_map, cross_wf, distinct_models, has_model, key_model, lemma_as_map_after_remove, occ,
    pair_at, proper_partner, slot_with,
};
use vstd::prelude::*;

verus! {

/// An iterator over the pairs stored in a `BiMap`, borrowing both arrays.
pub struct Iter<'a, L, R, B> {
    left_data: &'a Vec<Bucket<L, usize, B>>,
    right_data: &'a Vec<Bucket<R, usize, B>>,
    index: usize,
}

impl<'a, L: MapKey, R: MapKey, B: BitField> Iter<'a, L, R, B> {
    /// The arrays are the same length, hold no key twice on either side,
    /// and every occupied left slot points at an occupied partner.
    pub closed spec fn wf(self) -> bool {
        &&& self.left_data@.len() == self.right_data@.len()
        &&& distinct_models(self.left_data@)
        &&& distinct_models(self.right_data@)
        &&& cross_wf(self.left_data@, self.right_data@)
        &&& self.index <= self.left_data@.len()
    }

    /// The left array being walked.
    pub closed spec fn spec_left(self) -> Seq<Bucket<L, usize, B>> {
        self.left_data@
    }

    /// The right array being walked.
    pub closed spec fn spec_right(self) -> Seq<Bucket<R, usize, B>> {
        self.right_data@
    }

    /// The next slot to be examined.
    pub closed spec fn spec_index(self) -> int {
        self.index as int
    }

    /// Creates a traversal positioned at the first slot.
    pub fn new(
        left_data: &'a Vec<Bucket<L, usize, B>>,
        right_data: &'a Vec<Bucket<R, usize, B>>,
    ) -> (it: Self)
        requires
            left_data@.len() == right_data@.len(),
            distinct_models(left_data@),
            distinct_models(right_data@),
            cross_wf(left_data@, right_data@),
        ensures
            it.wf(),
            it.spec_left() == left_data@,
            it.spec_right() == right_data@,
            it.spec_index() == 0,
    {
        Iter { left_data, right_data, index: 0 }
    }

    /// Yields the pair held by the first occupied slot at or past the
    /// current position, advancing past it; nothing once the slots are
    /// exhausted.
    pub fn next(&mut self) -> (r: Option<(&'a L, &'a R)>)
        requires
            old(self).wf(),
        ensures
            final(self).wf(),
            final(self).spec_left() == old(self).spec_left(),
            final(self).spec_right() == old(self).spec_right(),
            match r {
                Some(p) => {
                    let j = final(self).spec_index() - 1;
                    &&& old(self).spec_index() <= j < old(self).spec_left().len()
                    &&& occ(old(self).spec_left(), j)
                    &&& forall|k: int|
                        old(self).spec_index() <= k < j ==> !occ(old(self).spec_left(), k)
                    &&& p.0.model() == key_model(old(self).spec_left(), j)
                    &&& p.1.model() == key_model(
                        old(self).spec_right(),
                        pair_at(old(self).spec_left(), j),
                    )
                    &&& as_map(old(self).spec_left(), old(self).spec_right()).contains_key(
                        p.0.model(),
                    )
                    &&& as_map(old(self).spec_left(), old(self).spec_right())[p.0.model()]
                        == p.1.model()
                },
                None => {
                    &&& forall|k: int|
                        old(self).spec_index() <= k < old(self).spec_left().len() ==> !occ(
                            old(self).spec_left(),
                            k,
                        )
                    &&& final(self).spec_index() == old(self).spec_left().len()
                },
            },
    {
        let n = self.left_data.len();
        while self.index < n
            invariant
                self.wf(),
                self.left_data == old(self).left_data,
                self.right_data == old(self).right_data,
                self.left_data@.len() == n,
                self.index <= n,
                old(self).spec_index() <= self.spec_index(),
                forall|k: int|
                    old(self).spec_index() <= k < self.spec_index() ==> !occ(
                        old(self).spec_left(),
                        k,
                    ),
            decreases n - self.index,
        {
            let i = self.index;
            match &self.left_data[i].data {
                Some(t) => {
                    proof {
                        assert(occ(self.left_data@, i as int));
                        assert(proper_partner(self.left_data@, self.right_data@, i as int));
                    }
                    let p = t.1;
                    proof {
                        let ls = self.left_data@;
                        let rs = self.right_data@;
                        let m = key_model(ls, i as int);
                        assert(has_model(ls, m));
                        assert(slot_with(ls, m) == i as int) by {
                            let w = slot_with(ls, m);
                            assert(occ(ls, w) && key_model(ls, w) == m);
                        }
                        assert(as_map(ls, rs).contains_key(m));
                        assert(as_map(ls, rs)[m] == key_model(rs, pair_at(ls, i as int)));
                    }
                    match &self.right_data[p].data {
                        Some(tv) => {
                            self.index = i + 1;
                            return Some((&t.0, &tv.0));
                        },
                        None => {
                            proof {
                                assert(false);
                            }
                        },
                    }
                },
                None => {},
            }
            self.index = self.index + 1;
        }
        None
    }
}

/// An owning iterator over the pairs stored in a `BiMap`: each call takes
/// one stored pair out of the arrays.
pub struct IntoIter<L, R, B> {
    left_data: Vec<Bucket<L, usize, B>>,
    right_data: Vec<Bucket<R, usize, B>>,
    index: usize,
}

impl<L: MapKey, R: MapKey, B: BitField> IntoIter<L, R, B> {
    /// The arrays are consistently cross-referenced, hold no key twice,
    /// and every slot before the cursor has been emptied.
    pub closed spec fn wf(self) -> bool {
        &&& self.left_data@.len() == self.right_data@.len()
        &&& distinct_models(self.left_data@)
        &&& distinct_models(self.right_data@)
        &&& cross_wf(self.left_data@, self.right_data@)
        &&& cross_wf(self.right_data@, self.left_data@)
        &&& forall|j: int| 0 <= j < self.index ==> !occ(self.left_data@, j)
        &&& self.index <= self.left_data@.len()
    }

    /// The relation still held by the arrays.
    pub closed spec fn remaining(self) -> Map<L::M, R::M> {
        as_map(self.left_data@, self.right_data@)
    }

    /// The relation read from the right.
    pub closed spec fn remaining_rev(self) -> Map<R::M, L::M> {
        as_map(self.right_data@, self.left_data@)
    }

    /// Creates a draining traversal over a pair of arrays.
    pub(crate) fn new(
        left_data: Vec<Bucket<L, usize, B>>,
        right_data: Vec<Bucket<R, usize, B>>,
    ) -> (it: Self)
        requires
            left_data@.len() == right_data@.len(),
            distinct_models(left_data@),
            distinct_models(right_data@),
            cross_wf(left_data@, right_data@),
            cross_wf(right_data@, left_data@),
        ensures
            it.wf(),
            it.remaining() == as_map(left_data@, right_data@),
            it.remaining_rev() == as_map(right_data@, left_data@),
    {
        IntoIter { left_data, right_data, index: 0 }
    }

    /// Takes one stored pair out, or reports that none remain.
    #[verifier::rlimit(100)]
    #[verifier::spinoff_prover]
    pub fn next(&mut self) -> (r: Option<(L, R)>)
        requires
            old(self).wf(),
        ensures
            final(self).wf(),
            match r {
                Some(p) => {
                    &&& old(self).remaining().contains_key(p.0.model())
                    &&& old(self).remaining()[p.0.model()] == p.1.model()
                    &&& final(self).remaining() == old(self).remaining().remove(p.0.model())
                    &&& final(self).remaining_rev() == old(self).remaining_rev().remove(
                        p.1.model(),
                    )
                },
                None => {
                    &&& final(self).remaining() == old(self).remaining()
                    &&& final(self).remaining_rev() == old(self).remaining_rev()
                    &&& old(self).remaining() == Map::<L::M, R::M>::empty()
                },
            },
    {
        let n = self.left_data.len();
        while self.index < n
            invariant
                self.wf(),
                self.left_data@.len() == n,
                self.remaining() == old(self).remaining(),
                self.remaining_rev() == old(self).remaining_rev(),
            decreases n - self.index,
        {
            let i = self.index;
            let ghost ol = self.left_data@;
            let ghost orr = self.right_data@;
            let taken = self.left_data[i].data.take();
            match taken {
                Some(t) => {
                    let (l, p, _d) = t;
                    proof {
                        assert(occ(ol, i as int));
                        assert(proper_partner(ol, orr, i as int));
                    }
                    let tv = self.right_data[p].data.take();
                    match tv {
                        Some(t2) => {
                            let (r2, _b, _d2) = t2;
                            self.index = i + 1;
                            proof {
                                let nl = self.left_data@;
                                let nr = self.right_data@;
                                lemma_as_map_after_remove(ol, orr, nl, nr, i as int, p as int);
                                lemma_as_map_after_remove(orr, ol, nr, nl, p as int, i as int);
                                assert(l.model() == key_model(ol, i as int));
                                assert(r2.model() == key_model(orr, p as int));
                                assert forall|j: int|
                                    0 <= j < n as int && #[trigger] occ(nl, j) implies proper_partner(
                                    nl,
                                    nr,
                                    j,
                                ) by {
                                    assert(j != i as int);
                                    assert(occ(ol, j));
                                    assert(proper_partner(ol, orr, j));
                                    if pair_at(ol, j) == p as int {
                                        assert(pair_at(orr, p as int) == j);
                                        assert(pair_at(orr, p as int) == i as int);
                                        assert(false);
                                    }
                                }
                                assert forall|j: int|
                                    0 <= j < n as int && #[trigger] occ(nr, j) implies proper_partner(
                                    nr,
                                    nl,
                                    j,
                                ) by {
                                    assert(j != p as int);
                                    assert(occ(orr, j));
                                    assert(proper_partner(orr, ol, j));
                                    if pair_at(orr, j) == i as int {
                                        assert(false);
                                    }
                                }
                                assert(distinct_models(nl)) by {
                                    assert forall|a: int, b: int|
                                        0 <= a < nl.len() && 0 <= b < nl.len() && a != b && occ(
                                            nl,
                                            a,
                                        ) && occ(nl, b) implies #[trigger] key_model(nl, a)
                                        != #[trigger] key_model(nl, b) by {
                                        assert(occ(ol, a) && occ(ol, b));
                                        assert(key_model(ol, a) != key_model(ol, b));
                                    }
                                }
                                assert(distinct_models(nr)) by {
                                    assert forall|a: int, b: int|
                                        0 <= a < nr.len() && 0 <= b < nr.len() && a != b && occ(
                                            nr,
                                            a,
                                        ) && occ(nr, b) implies #[trigger] key_model(nr, a)
                                        != #[trigger] key_model(nr, b) by {
                                        assert(occ(orr, a) && occ(orr, b));
                                        assert(key_model(orr, a) != key_model(orr, b));
                                    }
                                }
                                assert forall|j: int| 0 <= j < self.index implies !occ(
                                    self.left_data@,
                                    j,
                                ) by {
                                    if j < i as int {
                                        assert(nl[j].data == ol[j].data);
                                        assert(!occ(ol, j));
                                    }
                                }
                            }
                            return Some((l, r2));
                        },
                        None => {
                            proof {
                                assert(false);
                            }
                        },
                    }
                },
                None => {
                    proof {
                        assert(self.left_data@ =~= ol);
                    }
                },
            }
            self.index = self.index + 1;
        }
        proof {
            assert forall|m: L::M| !(#[trigger] self.remaining().contains_key(m)) by {
                if has_model(self.left_data@, m) {
                    let j = choose|j: int|
                        0 <= j < self.left_data@.len() && #[trigger] occ(self.left_data@, j)
                            && key_model(self.left_data@, j) == m;
                    assert(!occ(self.left_data@, j));
                }
            }
            assert(old(self).remaining() =~= Map::<L::M, R::M>::empty());
        }
        None
    }
}

} // verus!
