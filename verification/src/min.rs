//! A refinable partition of the indices `0..n`, and the marking sessions
//! that split its sets or discard parts of them.
use vstd::prelude::*;

verus! {

/// The mathematical content of a `Partition`.
///
/// `sets[s]` lists the elements of set `s` in their current order, and
/// `set_of[e]` is the set that holds element `e`, or `None` once `e` has
/// been discarded.
pub struct PartitionView {
    pub sets: Seq<Seq<usize>>,
    pub set_of: Seq<Option<usize>>,
}

impl PartitionView {
    /// The size of the universe that is partitioned.
    pub open spec fn universe(self) -> nat {
        self.set_of.len()
    }

    /// Whether element `e` belongs to some set.
    pub open spec fn live(self, e: int) -> bool {
        0 <= e < self.set_of.len() && self.set_of[e] is Some
    }

    /// The sets are non-empty and pairwise disjoint, and `set_of` names for
    /// each element the one set that lists it.
    pub open spec fn valid(self) -> bool {
        &&& self.sets.len() <= usize::MAX
        &&& self.set_of.len() <= usize::MAX
        &&& forall|s: int|
            0 <= s < self.sets.len() ==> (#[trigger] self.sets[s]).len() > 0
                && self.sets[s].no_duplicates()
        &&& forall|s: int, i: int|
            0 <= s < self.sets.len() && 0 <= i < self.sets[s].len() ==> (#[trigger] self.sets[s][i])
                < self.set_of.len() && self.set_of[self.sets[s][i] as int] == Some(s as usize)
        &&& forall|e: int|
            0 <= e < self.set_of.len() ==> (#[trigger] self.set_of[e] matches Some(s) ==> s
                < self.sets.len() && self.sets[s as int].contains(e as usize))
    }

    /// This partition groups the live elements of `before` by `keys`: two
    /// live elements share a set when their keys are equal, the sets are
    /// numbered in the order of their keys, and each set lists its elements
    /// in ascending order. Discarded elements stay discarded.
    pub open spec fn is_grouping_of(self, before: PartitionView, keys: Seq<i32>) -> bool {
        &&& self.valid()
        &&& self.set_of.len() == before.set_of.len()
        &&& forall|e: int|
            0 <= e < self.set_of.len() ==> ((#[trigger] self.set_of[e]) is Some
                <==> before.set_of[e] is Some)
        &&& forall|d: int, e: int|
            self.live(d) && self.live(e) ==> ((#[trigger] self.set_of[d]).unwrap()
                < (#[trigger] self.set_of[e]).unwrap() <==> keys[d] < keys[e])
        &&& forall|s: int, i: int, j: int|
            0 <= s < self.sets.len() && 0 <= i < j < self.sets[s].len() ==> (
            #[trigger] self.sets[s][i]) < (#[trigger] self.sets[s][j])
    }

    /// The partition of `0..n` into a single set, in ascending order.
    pub open spec fn initial(n: nat) -> PartitionView {
        PartitionView {
            sets: if n > 0 {
                seq![Seq::new(n, |i: int| i as usize)]
            } else {
                Seq::empty()
            },
            set_of: Seq::new(n, |e: int| Some(0usize)),
        }
    }
}

/// A partition of the indices `0..n` into numbered sets. An index can be
/// discarded; it then belongs to no set.
pub struct Partition {
    set_count: usize,
    elements: Vec<usize>,
    location: Vec<usize>,
    set_of: Vec<Option<usize>>,
    first: Vec<usize>,
    past: Vec<usize>,
}

/// The arrays of a partition as sequences.
struct Layout {
    pub elements: Seq<usize>,
    pub location: Seq<usize>,
    pub set_of: Seq<Option<usize>>,
    pub first: Seq<usize>,
    pub past: Seq<usize>,
}

impl Layout {
    /// `elements` is a permutation of the universe with `location` as its
    /// inverse.
    spec fn perm(self) -> bool {
        let n = self.elements.len();
        &&& n <= usize::MAX
        &&& self.location.len() == n
        &&& self.set_of.len() == n
        &&& forall|i: int|
            0 <= i < n ==> (#[trigger] self.elements[i]) < n && self.location[self.elements[i] as int]
                == i
        &&& forall|e: int|
            0 <= e < n ==> (#[trigger] self.location[e]) < n && self.elements[self.location[e] as int]
                == e
    }

    /// The elements whose position lies in `lo..hi` get `set` as their set.
    spec fn assign(self, lo: int, hi: int, set: Option<usize>) -> Seq<Option<usize>> {
        Seq::new(
            self.set_of.len(),
            |e: int|
                if lo <= self.location[e] < hi {
                    set
                } else {
                    self.set_of[e]
                },
        )
    }

    /// `elements` is a permutation of the universe with `location` as its
    /// inverse, and every set occupies a non-empty range of `elements` that
    /// holds exactly its members.
    spec fn inv(self) -> bool {
        let n = self.elements.len();
        let count = self.first.len();
        &&& self.perm()
        &&& count <= usize::MAX
        &&& self.past.len() == count
        &&& forall|s: int|
            0 <= s < count ==> (#[trigger] self.first[s]) < self.past[s] && self.past[s] <= n
        &&& forall|s: int, i: int|
            #![trigger self.first[s], self.elements[i]]
            0 <= s < count && self.first[s] <= i < self.past[s] ==> self.set_of[self.elements[i] as int]
                == Some(s as usize)
        &&& forall|e: int|
            0 <= e < n ==> (#[trigger] self.set_of[e] matches Some(s) ==> s < count
                && self.first[s as int] <= self.location[e] < self.past[s as int])
    }

    /// Set `s` as the range of `elements` that it occupies.
    spec fn set(self, s: int) -> Seq<usize> {
        self.elements.subrange(self.first[s] as int, self.past[s] as int)
    }

    spec fn view(self) -> PartitionView {
        PartitionView { sets: Seq::new(self.first.len(), |s: int| self.set(s)), set_of: self.set_of }
    }

    /// The invariant of a marking session on this layout while its touched
    /// sets are worked off one by one: those before position `from` have
    /// been dealt with and carry no mark any more.
    spec fn marks_inv_from(self, marked: Seq<usize>, touched: Seq<usize>, from: int) -> bool {
        let count = self.first.len();
        &&& marked.len() == count
        &&& forall|s: int|
            0 <= s < count ==> self.first[s] + (#[trigger] marked[s]) <= self.past[s]
        &&& touched.no_duplicates()
        &&& forall|j: int|
            0 <= j < touched.len() ==> (#[trigger] touched[j]) < count && (j >= from
                ==> marked[touched[j] as int] > 0) && (j < from ==> marked[touched[j] as int] == 0)
        &&& forall|s: int|
            0 <= s < count && (#[trigger] marked[s]) > 0 ==> exists|j: int|
                from <= j < touched.len() && #[trigger] touched[j] == s
    }

    /// The invariant of a marking session on this layout.
    spec fn marks_inv(self, marked: Seq<usize>, touched: Seq<usize>) -> bool {
        self.marks_inv_from(marked, touched, 0)
    }

    proof fn lemma_view_valid(self)
        requires
            self.inv(),
        ensures
            self.view().valid(),
    {
        let v = self.view();
        assert forall|s: int| 0 <= s < v.sets.len() implies (#[trigger] v.sets[s]).len() > 0
            && v.sets[s].no_duplicates() by {
            let f = self.first[s] as int;
            assert forall|i: int, j: int|
                0 <= i < v.sets[s].len() && 0 <= j < v.sets[s].len() && i != j implies v.sets[s][i]
                != v.sets[s][j] by {
                assert(self.location[self.elements[f + i] as int] == f + i);
                assert(self.location[self.elements[f + j] as int] == f + j);
            }
        }
        assert forall|s: int, i: int|
            0 <= s < v.sets.len() && 0 <= i < v.sets[s].len() implies (#[trigger] v.sets[s][i])
            < v.set_of.len() && v.set_of[v.sets[s][i] as int] == Some(s as usize) by {
            let f = self.first[s] as int;
            assert(v.sets[s][i] == self.elements[f + i]);
        }
        assert forall|e: int| 0 <= e < v.set_of.len() implies (#[trigger] v.set_of[e] matches Some(
            s,
        ) ==> s < v.sets.len() && v.sets[s as int].contains(e as usize)) by {
            if let Some(s) = v.set_of[e] {
                let f = self.first[s as int] as int;
                let l = self.location[e] as int;
                assert(v.sets[s as int][l - f] == e);
            }
        }
    }

    /// Positions of different sets hold different elements.
    proof fn lemma_ranges_disjoint(self, s: int, t: int, i: int)
        requires
            self.inv(),
            0 <= s < self.first.len(),
            0 <= t < self.first.len(),
            s != t,
            self.first[s] <= i < self.past[s],
        ensures
            !(self.first[t] <= i < self.past[t]),
    {
        if self.first[t] <= i < self.past[t] {
            assert(self.set_of[self.elements[i] as int] == Some(s as usize));
            assert(self.set_of[self.elements[i] as int] == Some(t as usize));
        }
    }

    /// Marking an unmarked element keeps the invariants and has the effect
    /// that `MarkingView::mark` describes.
    proof fn lemma_mark(self, marked: Seq<usize>, touched: Seq<usize>, e: usize, after: Layout)
        requires
            self.inv(),
            self.marks_inv(marked, touched),
            e < self.set_of.len(),
            self.set_of[e as int] is Some,
            self.location[e as int] >= self.first[self.set_of[e as int].unwrap() as int]
                + marked[self.set_of[e as int].unwrap() as int],
            ({
                let s = self.set_of[e as int].unwrap() as int;
                let li = self.location[e as int] as int;
                let fu = self.first[s] + marked[s];
                let other = self.elements[fu];
                &&& after.elements == self.elements.update(li, other).update(fu, e)
                &&& after.location == self.location.update(other as int, li as usize).update(
                    e as int,
                    fu as usize,
                )
                &&& after.set_of == self.set_of
                &&& after.first == self.first
                &&& after.past == self.past
            }),
        ensures
            ({
                let s = self.set_of[e as int].unwrap();
                let k = marked[s as int];
                let marked2 = marked.update(s as int, (k + 1) as usize);
                let touched2 = if k == 0 {
                    touched.push(s)
                } else {
                    touched
                };
                let before = MarkingView { partition: self.view(), marked, touched };
                &&& k + 1 <= usize::MAX
                &&& after.inv()
                &&& after.marks_inv(marked2, touched2)
                &&& MarkingView { partition: after.view(), marked: marked2, touched: touched2 }
                    == before.mark(e)
            }),
    {
        let s = self.set_of[e as int].unwrap() as int;
        let li = self.location[e as int] as int;
        let f = self.first[s] as int;
        let k = marked[s] as int;
        let fu = f + k;
        let other = self.elements[fu];
        let marked2 = marked.update(s, (k + 1) as usize);
        let touched2 = if k == 0 {
            touched.push(s as usize)
        } else {
            touched
        };
        assert(self.elements[li] == e);
        assert(fu < self.past[s]);
        assert(self.set_of[other as int] == Some(s as usize));
        assert(self.location[other as int] == fu);
        assert(li != fu ==> other != e);
        let n = self.elements.len();
        assert forall|i: int| 0 <= i < n implies (#[trigger] after.elements[i]) < n
            && after.location[after.elements[i] as int] == i by {
            if i == fu {
            } else if i == li {
            } else {
                assert(self.location[self.elements[i] as int] == i);
            }
        }
        assert forall|x: int| 0 <= x < n implies (#[trigger] after.location[x]) < n
            && after.elements[after.location[x] as int] == x by {
            if x == e {
            } else if x == other {
            } else {
                assert(self.elements[self.location[x] as int] == x);
            }
        }
        assert forall|t: int, i: int|
            #![trigger after.first[t], after.elements[i]]
            0 <= t < after.first.len() && after.first[t] <= i < after.past[t] implies after.set_of[after.elements[i] as int]
            == Some(t as usize) by {
            if t != s {
                self.lemma_ranges_disjoint(s, t, li);
                self.lemma_ranges_disjoint(s, t, fu);
            }
            assert(self.set_of[self.elements[i] as int] == Some(t as usize));
        }
        assert forall|x: int| 0 <= x < n implies (#[trigger] after.set_of[x] matches Some(t) ==> t
            < after.first.len() && after.first[t as int] <= after.location[x] < after.past[t as int]) by {
            assert(self.set_of[x] == after.set_of[x]);
        }
        assert(after.perm());
        assert(after.inv());
        assert(after.marks_inv(marked2, touched2)) by {
            if k == 0 {
                if exists|j: int| 0 <= j < touched.len() && touched[j] == s as usize {
                    let j = choose|j: int| 0 <= j < touched.len() && touched[j] == s as usize;
                    assert(marked[touched[j] as int] > 0);
                }
                assert forall|t: int| 0 <= t < marked2.len() && (#[trigger] marked2[t]) > 0 implies exists|
                    j: int,
                | 0 <= j < touched2.len() && #[trigger] touched2[j] == t by {
                    if t == s {
                        assert(touched2[touched.len() as int] == s as usize);
                    } else {
                        assert(marked[t] > 0);
                        let j = choose|j: int| 0 <= j < touched.len() && #[trigger] touched[j] == t;
                        assert(touched2[j] == t as usize);
                    }
                }
            } else {
                assert forall|t: int| 0 <= t < marked2.len() && (#[trigger] marked2[t]) > 0 implies exists|
                    j: int,
                | 0 <= j < touched2.len() && #[trigger] touched2[j] == t by {
                    assert(marked[t] > 0);
                }
            }
        }
        self.lemma_view_valid();
        let before = MarkingView { partition: self.view(), marked, touched };
        let members = before.partition.sets[s];
        assert(members[li - f] == e);
        lemma_position(members, li - f);
        let expect = before.mark(e);
        let got = MarkingView { partition: after.view(), marked: marked2, touched: touched2 };
        assert forall|t: int| 0 <= t < expect.partition.sets.len() implies got.partition.sets[t]
            =~= expect.partition.sets[t] by {
            if t != s {
                self.lemma_ranges_disjoint(s, t, li);
                self.lemma_ranges_disjoint(s, t, fu);
            }
        }
        assert(got.partition.sets =~= expect.partition.sets);
    }

    /// Taking the marks off a set that is marked as a whole.
    proof fn lemma_unmark_set(self, marked: Seq<usize>, touched: Seq<usize>, idx: int)
        requires
            self.inv(),
            self.marks_inv_from(marked, touched, idx),
            0 <= idx < touched.len(),
        ensures
            self.marks_inv_from(marked.update(touched[idx] as int, 0), touched, idx + 1),
    {
        let s = touched[idx] as int;
        let marked2 = marked.update(s, 0);
        assert forall|t: int| 0 <= t < marked2.len() && (#[trigger] marked2[t]) > 0 implies exists|
            j: int,
        | idx + 1 <= j < touched.len() && #[trigger] touched[j] == t by {
            assert(marked[t] > 0);
            let j = choose|j: int| idx <= j < touched.len() && #[trigger] touched[j] == t;
            assert(j != idx);
        }
    }

    /// Carving the smaller half of a partly marked set into a new set keeps
    /// the invariants and has the effect that `MarkingView::split_set`
    /// describes.
    proof fn lemma_split_set(
        self,
        marked: Seq<usize>,
        touched: Seq<usize>,
        idx: int,
        after: Layout,
    )
        requires
            self.inv(),
            self.marks_inv_from(marked, touched, idx),
            0 <= idx < touched.len(),
            self.first.len() < usize::MAX,
            ({
                let s = touched[idx] as int;
                let f = self.first[s];
                let p = self.past[s];
                let fu = (f + marked[s]) as usize;
                let fresh = self.first.len() as int;
                &&& fu < p
                &&& after.elements == self.elements
                &&& after.location == self.location
                &&& if marked[s] < p - fu {
                    &&& after.first == self.first.push(f).update(s, fu)
                    &&& after.past == self.past.push(fu)
                } else {
                    &&& after.first == self.first.push(fu)
                    &&& after.past == self.past.push(p).update(s, fu)
                }
                &&& after.set_of == self.assign(
                    after.first[fresh] as int,
                    after.past[fresh] as int,
                    Some(fresh as usize),
                )
            }),
        ensures
            ({
                let s = touched[idx];
                let marked2 = marked.push(0).update(s as int, 0);
                &&& after.inv()
                &&& after.marks_inv_from(marked2, touched, idx + 1)
                &&& (MarkingView { partition: after.view(), marked: marked2, touched })
                    == (MarkingView { partition: self.view(), marked, touched }).split_set(s)
            }),
    {
        let s = touched[idx] as int;
        let f = self.first[s] as int;
        let p = self.past[s] as int;
        let k = marked[s] as int;
        let fu = f + k;
        let fresh = self.first.len() as int;
        let n = self.elements.len() as int;
        let lo = after.first[fresh] as int;
        let hi = after.past[fresh] as int;
        let marked2 = marked.push(0).update(s, 0);
        assert(k > 0);
        assert(f <= lo < hi <= p);
        assert forall|t: int, i: int|
            #![trigger after.first[t], after.elements[i]]
            0 <= t < after.first.len() && after.first[t] <= i < after.past[t] implies after.set_of[after.elements[i] as int]
            == Some(t as usize) by {
            assert(self.location[self.elements[i] as int] == i);
            if t == fresh {
            } else if t == s {
                assert(self.set_of[self.elements[i] as int] == Some(s as usize));
            } else {
                assert(self.first[t] <= i < self.past[t]);
                assert(self.set_of[self.elements[i] as int] == Some(t as usize));
                if lo <= i < hi {
                    self.lemma_ranges_disjoint(t, s, i);
                }
            }
        }
        assert forall|e: int| 0 <= e < n implies (#[trigger] after.set_of[e] matches Some(t) ==> t
            < after.first.len() && after.first[t as int] <= after.location[e] < after.past[t as int]) by {
            if lo <= self.location[e] < hi {
            } else {
                assert(after.set_of[e] == self.set_of[e]);
            }
        }
        assert(after.inv());
        assert(after.marks_inv_from(marked2, touched, idx + 1)) by {
            assert forall|t: int| 0 <= t < marked2.len() && (#[trigger] marked2[t]) > 0 implies exists|
                j: int,
            | idx + 1 <= j < touched.len() && #[trigger] touched[j] == t by {
                assert(marked[t] > 0);
                let j = choose|j: int| idx <= j < touched.len() && #[trigger] touched[j] == t;
                assert(j != idx);
            }
            assert forall|j: int| 0 <= j < touched.len() implies (#[trigger] touched[j]) < after.first.len()
                && (j >= idx + 1 ==> marked2[touched[j] as int] > 0) && (j < idx + 1
                ==> marked2[touched[j] as int] == 0) by {
                if j != idx {
                    assert(touched[j] != touched[idx]);
                }
            }
        }
        let before = MarkingView { partition: self.view(), marked, touched };
        let expect = before.split_set(s as usize);
        let got = MarkingView { partition: after.view(), marked: marked2, touched };
        let set = before.partition.sets[s];
        let carved = if k < set.len() - k {
            set.take(k)
        } else {
            set.skip(k)
        };
        assert(carved =~= self.elements.subrange(lo, hi));
        assert forall|t: int| 0 <= t < expect.partition.sets.len() implies got.partition.sets[t]
            =~= expect.partition.sets[t] by {
        }
        assert(got.partition.sets =~= expect.partition.sets);
        assert forall|e: int| 0 <= e < n implies got.partition.set_of[e]
            == expect.partition.set_of[e] by {
            if lo <= self.location[e] < hi {
                assert(carved[self.location[e] - lo] == e);
            } else {
                if carved.contains(e as usize) {
                    let j = choose|j: int| 0 <= j < carved.len() && carved[j] == e as usize;
                    assert(self.elements[lo + j] == e);
                }
            }
        }
        assert(got.partition.set_of =~= expect.partition.set_of);
        assert(got.marked =~= expect.marked);
    }

    /// This layout after the unmarked elements have been discarded from the
    /// sets that had `marked0` marked elements and by now have none in
    /// `marked`.
    spec fn discarded(self, marked0: Seq<usize>, marked: Seq<usize>) -> Layout {
        Layout {
            elements: self.elements,
            location: self.location,
            set_of: Seq::new(
                self.set_of.len(),
                |e: int|
                    match self.set_of[e] {
                        Some(s) => if marked0[s as int] > 0 && marked[s as int] == 0
                            && self.location[e] >= self.first[s as int] + marked0[s as int] {
                            None
                        } else {
                            Some(s)
                        },
                        None => None,
                    },
            ),
            first: self.first,
            past: Seq::new(
                self.past.len(),
                |s: int|
                    if marked0[s] > 0 && marked[s] == 0 {
                        (self.first[s] + marked0[s]) as usize
                    } else {
                        self.past[s]
                    },
            ),
        }
    }

    /// Discarding the unmarked elements of one more touched set.
    proof fn lemma_discard_set(
        self,
        marked0: Seq<usize>,
        marked: Seq<usize>,
        touched: Seq<usize>,
        idx: int,
    )
        requires
            self.inv(),
            self.marks_inv(marked0, touched),
            marked.len() == marked0.len(),
            forall|t: int|
                0 <= t < marked.len() ==> (#[trigger] marked[t]) == 0 || marked[t] == marked0[t],
            self.discarded(marked0, marked).marks_inv_from(marked, touched, idx),
            0 <= idx < touched.len(),
        ensures
            ({
                let s = touched[idx] as int;
                let now = self.discarded(marked0, marked);
                let marked2 = marked.update(s, 0);
                let next = self.discarded(marked0, marked2);
                let fu = self.first[s] + marked[s];
                &&& next.inv()
                &&& next.marks_inv_from(marked2, touched, idx + 1)
                &&& self.first[s] < fu <= now.past[s]
                &&& next.past == now.past.update(s, fu as usize)
                &&& next.set_of == now.assign(fu, now.past[s] as int, None)
            }),
    {
        let s = touched[idx] as int;
        let now = self.discarded(marked0, marked);
        let marked2 = marked.update(s, 0);
        let next = self.discarded(marked0, marked2);
        let fu = self.first[s] + marked[s];
        let n = self.elements.len() as int;
        assert(marked[s] > 0);
        assert(marked[s] == marked0[s]);
        assert(now.past[s] == self.past[s]);
        assert(next.past =~= now.past.update(s, fu as usize));
        assert forall|e: int| 0 <= e < n implies next.set_of[e] == now.assign(
            fu,
            now.past[s] as int,
            None,
        )[e] by {
            match self.set_of[e] {
                Some(t) => {
                    if t != s {
                        if fu <= self.location[e] < self.past[s] {
                            self.lemma_ranges_disjoint(s, t as int, self.location[e] as int);
                        }
                    }
                },
                None => {},
            }
        }
        assert(next.set_of =~= now.assign(fu, now.past[s] as int, None));
        assert forall|t: int, i: int|
            #![trigger next.first[t], next.elements[i]]
            0 <= t < next.first.len() && next.first[t] <= i < next.past[t] implies next.set_of[next.elements[i] as int]
            == Some(t as usize) by {
            assert(self.location[self.elements[i] as int] == i);
            assert(self.set_of[self.elements[i] as int] == Some(t as usize));
        }
        assert(next.inv());
        assert(next.marks_inv_from(marked2, touched, idx + 1)) by {
            assert forall|t: int| 0 <= t < marked2.len() && (#[trigger] marked2[t]) > 0 implies exists|
                j: int,
            | idx + 1 <= j < touched.len() && #[trigger] touched[j] == t by {
                assert(marked[t] > 0);
                let j = choose|j: int| idx <= j < touched.len() && #[trigger] touched[j] == t;
                assert(j != idx);
            }
            assert forall|j: int| 0 <= j < touched.len() implies (#[trigger] touched[j]) < next.first.len()
                && (j >= idx + 1 ==> marked2[touched[j] as int] > 0) && (j < idx + 1
                ==> marked2[touched[j] as int] == 0) by {
                if j != idx {
                    assert(touched[j] != touched[idx]);
                }
            }
            assert forall|t: int| 0 <= t < next.first.len() implies next.first[t] + (
            #[trigger] marked2[t]) <= next.past[t] by {
                assert(now.first[t] + marked[t] <= now.past[t]);
            }
        }
    }

    /// Once every touched set has been dealt with, the layout shows what
    /// `MarkingView::discard` describes.
    proof fn lemma_discarded_view(self, marked0: Seq<usize>, touched: Seq<usize>)
        requires
            self.inv(),
            self.marks_inv(marked0, touched),
        ensures
            ({
                let zeros = Seq::new(marked0.len(), |s: int| 0usize);
                (MarkingView {
                    partition: self.discarded(marked0, zeros).view(),
                    marked: zeros,
                    touched: Seq::empty(),
                }) == (MarkingView { partition: self.view(), marked: marked0, touched }).discard()
            }),
    {
        let zeros = Seq::new(marked0.len(), |s: int| 0usize);
        let got = self.discarded(marked0, zeros).view();
        let before = MarkingView { partition: self.view(), marked: marked0, touched };
        let expect = before.discard().partition;
        let n = self.elements.len() as int;
        assert forall|s: int| 0 <= s < expect.sets.len() implies got.sets[s] =~= expect.sets[s] by {
        }
        assert(got.sets =~= expect.sets);
        assert forall|e: int| 0 <= e < n implies got.set_of[e] == expect.set_of[e] by {
            match self.set_of[e] {
                Some(s) => {
                    let prefix = before.marked_of(s as int);
                    let f = self.first[s as int] as int;
                    let l = self.location[e] as int;
                    if l < f + marked0[s as int] {
                        assert(prefix[l - f] == e);
                    } else {
                        if prefix.contains(e as usize) {
                            let j = choose|j: int| 0 <= j < prefix.len() && prefix[j] == e as usize;
                            assert(self.elements[f + j] == e);
                        }
                    }
                },
                None => {},
            }
        }
        assert(got.set_of =~= expect.set_of);
    }

    /// The sets laid out so far are consecutive ranges that end at `i`.
    spec fn grouped_ranges(self, i: int) -> bool {
        let g = self.first.len();
        &&& g <= i
        &&& i > 0 ==> g > 0
        &&& self.past.len() == g
        &&& forall|t: int| 0 <= t < g ==> (#[trigger] self.first[t]) < self.past[t] <= i
        &&& forall|t: int| 0 <= t < g - 1 ==> (#[trigger] self.past[t]) == self.first[t + 1]
        &&& g > 0 ==> self.past[g - 1] == i
    }

    /// The sets laid out so far ascend in their positions and in their keys.
    spec fn grouped_order(self, pairs: Seq<(i32, usize)>) -> bool {
        forall|t: int, u: int|
            0 <= t < u < self.first.len() ==> (#[trigger] self.first[t]) < (
            #[trigger] self.first[u]) && pairs[self.first[t] as int].0
                < pairs[self.first[u] as int].0
    }

    /// The first `i` pairs have their place and their set.
    spec fn grouped_placed(self, pairs: Seq<(i32, usize)>, i: int) -> bool {
        forall|p: int|
            0 <= p < i ==> (#[trigger] self.elements[p]) == pairs[p].1
                && self.location[pairs[p].1 as int] == p && (self.set_of[pairs[p].1 as int] matches Some(
                t,
            ) && t < self.first.len() && self.first[t as int] <= p < self.past[t as int]
                && pairs[self.first[t as int] as int].0 == pairs[p].0)
    }

    /// The discarded elements stand behind the live ones and are in no set.
    spec fn grouped_dead(
        self,
        before: Seq<Option<usize>>,
        pairs: Seq<(i32, usize)>,
        dead: Seq<usize>,
    ) -> bool {
        &&& forall|j: int|
            0 <= j < dead.len() ==> self.elements[pairs.len() + j] == (#[trigger] dead[j])
                && self.location[dead[j] as int] == pairs.len() + j
        &&& forall|e: int|
            0 <= e < self.elements.len() && (#[trigger] before[e]) is None ==> self.set_of[e]
                is None
    }

    /// While the live elements are laid out group by group in the order of
    /// `pairs`, with the discarded ones behind them: the first `i` pairs have
    /// their place and their set, and the sets so far end at position `i`.
    spec fn grouped(
        self,
        before: Seq<Option<usize>>,
        pairs: Seq<(i32, usize)>,
        dead: Seq<usize>,
        i: int,
    ) -> bool {
        let n = self.elements.len();
        &&& n <= usize::MAX
        &&& self.location.len() == n
        &&& self.set_of.len() == n
        &&& before.len() == n
        &&& pairs.len() + dead.len() == n
        &&& 0 <= i <= pairs.len()
        &&& self.grouped_ranges(i)
        &&& self.grouped_order(pairs)
        &&& self.grouped_placed(pairs, i)
        &&& self.grouped_dead(before, pairs, dead)
    }

    /// Giving the pair at position `i` its place keeps `grouped`.
    proof fn lemma_group_step(
        self,
        before: Seq<Option<usize>>,
        pairs: Seq<(i32, usize)>,
        dead: Seq<usize>,
        keys: Seq<i32>,
        i: int,
        after: Layout,
    )
        requires
            self.grouped(before, pairs, dead, i),
            listed(pairs, dead, before, keys, before.len() as int),
            sorted(pairs),
            i < pairs.len(),
            ({
                let g = self.first.len() as int;
                let opens = i == 0 || pairs[i - 1].0 != pairs[i].0;
                let e = pairs[i].1;
                &&& after.first == if opens {
                    self.first.push(i as usize)
                } else {
                    self.first
                }
                &&& after.past == if opens {
                    self.past.push((i + 1) as usize)
                } else {
                    self.past.update(g - 1, (i + 1) as usize)
                }
                &&& after.elements == self.elements.update(i, e)
                &&& after.location == self.location.update(e as int, i as usize)
                &&& after.set_of == self.set_of.update(
                    e as int,
                    Some((after.first.len() - 1) as usize),
                )
            }),
        ensures
            after.grouped(before, pairs, dead, i + 1),
    {
        let g = self.first.len() as int;
        let opens = i == 0 || pairs[i - 1].0 != pairs[i].0;
        let e = pairs[i].1;
        let g2 = after.first.len() as int;
        assert(before[e as int] is Some);
        if i > 0 {
            assert(self.elements[i - 1] == pairs[i - 1].1);
            assert(pairs[i - 1].1 != e);
            assert(pair_le(pairs[i - 1], pairs[i]));
            let t = self.set_of[pairs[i - 1].1 as int].unwrap() as int;
            if t < g - 1 {
                assert(self.past[t] == self.first[t + 1]);
                assert(self.first[t + 1] < self.past[t + 1]);
            }
            assert(t == g - 1);
        }
        assert(after.grouped_placed(pairs, i + 1)) by {
            assert forall|p: int| 0 <= p < i + 1 implies (#[trigger] after.elements[p])
                == pairs[p].1 && after.location[pairs[p].1 as int] == p && (after.set_of[pairs[p].1 as int] matches Some(
                t,
            ) && t < g2 && after.first[t as int] <= p < after.past[t as int]
                && pairs[after.first[t as int] as int].0 == pairs[p].0) by {
                if p < i {
                    assert(self.elements[p] == pairs[p].1);
                    assert(pairs[p].1 != pairs[i].1);
                    let t = self.set_of[pairs[p].1 as int].unwrap() as int;
                    assert(self.first[t] < self.past[t]);
                } else {
                    if !opens {
                        assert(self.first[g - 1] < self.past[g - 1]);
                    }
                }
            }
        }
        assert(after.grouped_order(pairs)) by {
            assert forall|t: int, u: int| 0 <= t < u < g2 implies (#[trigger] after.first[t]) < (
            #[trigger] after.first[u]) && pairs[after.first[t] as int].0
                < pairs[after.first[u] as int].0 by {
                assert(self.first[t] < self.past[t]);
                if u == g {
                    if t < g - 1 {
                        assert(self.first[t] < self.first[g - 1]);
                    }
                }
            }
        }
        assert(after.grouped_ranges(i + 1)) by {
            assert forall|t: int| 0 <= t < g2 - 1 implies (#[trigger] after.past[t])
                == after.first[t + 1] by {
                if t < g - 1 {
                    assert(self.past[t] == self.first[t + 1]);
                }
            }
            assert forall|t: int| 0 <= t < g2 implies (#[trigger] after.first[t]) < after.past[t]
                <= i + 1 by {
                if t < g {
                    assert(self.first[t] < self.past[t]);
                }
            }
        }
        assert(after.grouped_dead(before, pairs, dead)) by {
            assert forall|j: int| 0 <= j < dead.len() implies after.elements[pairs.len() + j] == (
            #[trigger] dead[j]) && after.location[dead[j] as int] == pairs.len() + j by {
                assert(before[dead[j] as int] is None);
            }
            assert forall|x: int| 0 <= x < after.elements.len() && (#[trigger] before[x])
                is None implies after.set_of[x] is None by {
                assert(self.set_of[x] is None);
            }
        }
    }

    /// With every live element placed the layout is well-formed.
    proof fn lemma_grouped_inv(
        self,
        before: Seq<Option<usize>>,
        pairs: Seq<(i32, usize)>,
        dead: Seq<usize>,
        keys: Seq<i32>,
    )
        requires
            self.grouped(before, pairs, dead, pairs.len() as int),
            listed(pairs, dead, before, keys, before.len() as int),
        ensures
            self.inv(),
    {
        let n = self.elements.len() as int;
        let live = pairs.len() as int;
        let g = self.first.len() as int;
        assert forall|i: int| 0 <= i < n implies (#[trigger] self.elements[i]) < n
            && self.location[self.elements[i] as int] == i by {
            if i >= live {
                assert(self.elements[live + (i - live)] == dead[i - live]);
            }
        }
        assert forall|e: int| 0 <= e < n implies (#[trigger] self.location[e]) < n
            && self.elements[self.location[e] as int] == e by {
            if before[e] is Some {
                let i = choose|i: int| 0 <= i < pairs.len() && (#[trigger] pairs[i]).1 == e;
                assert(self.elements[i] == pairs[i].1);
            } else {
                let j = choose|j: int| 0 <= j < dead.len() && (#[trigger] dead[j]) == e;
                assert(self.location[dead[j] as int] == live + j);
            }
        }
        assert(self.perm());
        assert forall|t: int, u: int| 0 <= t < u < g implies (#[trigger] self.past[t]) <= (
        #[trigger] self.first[u]) by {
            if t + 1 < u {
                assert(self.first[t + 1] < self.first[u]);
            }
        }
        assert forall|t: int, i: int|
            #![trigger self.first[t], self.elements[i]]
            0 <= t < g && self.first[t] <= i < self.past[t] implies self.set_of[self.elements[i] as int]
            == Some(t as usize) by {
            assert(self.first[t] < self.past[t] <= live);
            assert(self.elements[i] == pairs[i].1);
            let u = self.set_of[pairs[i].1 as int].unwrap() as int;
            if u < t {
                assert(self.past[u] <= self.first[t]);
            } else if t < u {
                assert(self.past[t] <= self.first[u]);
            }
        }
        assert forall|e: int| 0 <= e < n implies (#[trigger] self.set_of[e] matches Some(t) ==> t < g
            && self.first[t as int] <= self.location[e] < self.past[t as int]) by {
            if before[e] is Some {
                let i = choose|i: int| 0 <= i < pairs.len() && (#[trigger] pairs[i]).1 == e;
                assert(self.elements[i] == pairs[i].1);
            }
        }
    }

    /// With every live element placed the layout groups by `keys`.
    proof fn lemma_grouped_view(
        self,
        before: PartitionView,
        pairs: Seq<(i32, usize)>,
        dead: Seq<usize>,
        keys: Seq<i32>,
    )
        requires
            self.inv(),
            self.grouped(before.set_of, pairs, dead, pairs.len() as int),
            listed(pairs, dead, before.set_of, keys, before.set_of.len() as int),
            sorted(pairs),
        ensures
            self.view().is_grouping_of(before, keys),
    {
        let n = self.elements.len() as int;
        let live = pairs.len() as int;
        let g = self.first.len() as int;
        self.lemma_view_valid();
        let v = self.view();
        assert forall|e: int| 0 <= e < n implies ((#[trigger] v.set_of[e]) is Some
            <==> before.set_of[e] is Some) by {
            if before.set_of[e] is Some {
                let i = choose|i: int| 0 <= i < pairs.len() && (#[trigger] pairs[i]).1 == e;
                assert(self.elements[i] == pairs[i].1);
            }
        }
        assert forall|d: int, e: int| v.live(d) && v.live(e) implies ((#[trigger] v.set_of[d]).unwrap()
            < (#[trigger] v.set_of[e]).unwrap() <==> keys[d] < keys[e]) by {
            let i = choose|i: int| 0 <= i < pairs.len() && (#[trigger] pairs[i]).1 == d;
            let j = choose|j: int| 0 <= j < pairs.len() && (#[trigger] pairs[j]).1 == e;
            assert(self.elements[i] == pairs[i].1);
            assert(self.elements[j] == pairs[j].1);
            let t = self.set_of[d].unwrap() as int;
            let u = self.set_of[e].unwrap() as int;
            assert(pairs[self.first[t] as int].0 == keys[d]);
            assert(pairs[self.first[u] as int].0 == keys[e]);
            if t < u {
                assert(self.first[t] < self.first[u]);
            } else if u < t {
                assert(self.first[u] < self.first[t]);
            }
        }
        assert forall|s: int, i: int, j: int|
            0 <= s < v.sets.len() && 0 <= i < j < v.sets[s].len() implies (#[trigger] v.sets[s][i])
            < (#[trigger] v.sets[s][j]) by {
            let f = self.first[s] as int;
            assert(self.first[s] < self.past[s] <= live);
            assert(self.elements[f + i] == pairs[f + i].1);
            assert(self.elements[f + j] == pairs[f + j].1);
            assert(self.set_of[self.elements[f + i] as int] == Some(s as usize));
            assert(self.set_of[self.elements[f + j] as int] == Some(s as usize));
            assert(pair_le(pairs[f + i], pairs[f + j]));
            assert(pairs[f + i].1 != pairs[f + j].1);
        }
    }
}

/// The order of pairs of a key and an element: by key, and by element where
/// the keys are equal.
spec fn pair_le(a: (i32, usize), b: (i32, usize)) -> bool {
    a.0 < b.0 || (a.0 == b.0 && a.1 <= b.1)
}

/// Whether `pairs` ascends in the order of `pair_le`.
spec fn sorted(pairs: Seq<(i32, usize)>) -> bool {
    forall|i: int, j: int|
        0 <= i < j < pairs.len() ==> pair_le(#[trigger] pairs[i], #[trigger] pairs[j])
}

/// Whether `pairs` lists each live element below `upto` once, with its key,
/// and `dead` each discarded element below `upto` once.
spec fn listed(
    pairs: Seq<(i32, usize)>,
    dead: Seq<usize>,
    set_of: Seq<Option<usize>>,
    keys: Seq<i32>,
    upto: int,
) -> bool {
    &&& keys.len() == set_of.len()
    &&& 0 <= upto <= set_of.len()
    &&& pairs.len() + dead.len() == upto
    &&& forall|i: int|
        0 <= i < pairs.len() ==> (#[trigger] pairs[i]).1 < upto && set_of[pairs[i].1 as int] is Some
            && pairs[i].0 == keys[pairs[i].1 as int]
    &&& forall|i: int, j: int|
        0 <= i < j < pairs.len() ==> (#[trigger] pairs[i]).1 != (#[trigger] pairs[j]).1
    &&& forall|e: int|
        0 <= e < upto && (#[trigger] set_of[e]) is Some ==> exists|i: int|
            0 <= i < pairs.len() && (#[trigger] pairs[i]).1 == e
    &&& forall|j: int| 0 <= j < dead.len() ==> (#[trigger] dead[j]) < upto && set_of[dead[j] as int] is None
    &&& forall|i: int, j: int|
        0 <= i < j < dead.len() ==> (#[trigger] dead[i]) != (#[trigger] dead[j])
    &&& forall|e: int|
        0 <= e < upto && (#[trigger] set_of[e]) is None ==> exists|j: int|
            0 <= j < dead.len() && (#[trigger] dead[j]) == e
}

/// A rearrangement of a listing is a listing.
proof fn lemma_listed_rearranged(
    pairs: Seq<(i32, usize)>,
    arranged: Seq<(i32, usize)>,
    dead: Seq<usize>,
    set_of: Seq<Option<usize>>,
    keys: Seq<i32>,
)
    requires
        listed(pairs, dead, set_of, keys, set_of.len() as int),
        arranged.to_multiset() == pairs.to_multiset(),
    ensures
        listed(arranged, dead, set_of, keys, set_of.len() as int),
{
    pairs.to_multiset_ensures();
    arranged.to_multiset_ensures();
    assert(pairs.no_duplicates()) by {
        assert forall|i: int, j: int| 0 <= i < pairs.len() && 0 <= j < pairs.len() && i != j implies pairs[i]
            != pairs[j] by {
            if i < j {
                assert(pairs[i].1 != pairs[j].1);
            } else {
                assert(pairs[j].1 != pairs[i].1);
            }
        }
    }
    pairs.lemma_multiset_has_no_duplicates();
    arranged.lemma_multiset_has_no_duplicates_conv();
    assert forall|i: int| 0 <= i < arranged.len() implies (#[trigger] arranged[i]).1 < set_of.len()
        && set_of[arranged[i].1 as int] is Some && arranged[i].0 == keys[arranged[i].1 as int] by {
        assert(arranged.contains(arranged[i]));
        assert(arranged.to_multiset().count(arranged[i]) > 0);
        assert(pairs.to_multiset().count(arranged[i]) > 0);
        assert(pairs.contains(arranged[i]));
        let j = choose|j: int| 0 <= j < pairs.len() && pairs[j] == arranged[i];
        assert(pairs[j].1 < set_of.len());
    }
    assert forall|i: int, j: int| 0 <= i < j < arranged.len() implies (#[trigger] arranged[i]).1 != (
    #[trigger] arranged[j]).1 by {
        if arranged[i].1 == arranged[j].1 {
            assert(arranged[i].0 == arranged[j].0);
            assert(arranged[i] == arranged[j]);
        }
    }
    assert forall|e: int| 0 <= e < set_of.len() && (#[trigger] set_of[e]) is Some implies exists|
        i: int,
    | 0 <= i < arranged.len() && (#[trigger] arranged[i]).1 == e by {
        let j = choose|j: int| 0 <= j < pairs.len() && (#[trigger] pairs[j]).1 == e;
        assert(pairs.contains(pairs[j]));
        assert(pairs.to_multiset().count(pairs[j]) > 0);
        assert(arranged.to_multiset().count(pairs[j]) > 0);
        assert(arranged.contains(pairs[j]));
        let i = choose|i: int| 0 <= i < arranged.len() && arranged[i] == pairs[j];
        assert(arranged[i].1 == e);
    }
}

/// Sorts pairs of a key and an element with `sort` of std's slices, which
/// orders tuples by their first component and then by their second. The
/// contract claims what std documents: the result holds the same pairs and
/// ascends.
#[verifier::external_body]
fn sort_pairs(pairs: &mut Vec<(i32, usize)>)
    ensures
        final(pairs)@.to_multiset() == old(pairs)@.to_multiset(),
        sorted(final(pairs)@),
{
    pairs.sort();
}

impl View for Partition {
    type V = PartitionView;

    closed spec fn view(&self) -> PartitionView {
        self.layout().view()
    }
}

impl Partition {
    /// The arrays of this partition.
    spec fn layout(&self) -> Layout {
        Layout {
            elements: self.elements@,
            location: self.location@,
            set_of: self.set_of@,
            first: self.first@,
            past: self.past@,
        }
    }

    /// The representation invariant.
    pub closed spec fn wf(&self) -> bool {
        &&& self.set_count == self.first@.len()
        &&& self.layout().inv()
    }

    /// A well-formed partition has a valid view.
    pub proof fn lemma_view_valid(&self)
        requires
            self.wf(),
        ensures
            self@.valid(),
    {
        self.layout().lemma_view_valid();
    }

    /// Creates the partition of `0..element_count` into one set, or into no
    /// set when the universe is empty.
    pub fn new(element_count: usize) -> (p: Partition)
        ensures
            p.wf(),
            p@ == PartitionView::initial(element_count as nat),
    {
        let mut elements: Vec<usize> = Vec::new();
        let mut location: Vec<usize> = Vec::new();
        let mut set_of: Vec<Option<usize>> = Vec::new();
        let mut i: usize = 0;
        while i < element_count
            invariant
                i <= element_count,
                elements@.len() == i,
                location@.len() == i,
                set_of@.len() == i,
                forall|j: int| 0 <= j < i ==> elements@[j] == j,
                forall|j: int| 0 <= j < i ==> location@[j] == j,
                forall|j: int| 0 <= j < i ==> set_of@[j] == Some(0usize),
            decreases element_count - i,
        {
            elements.push(i);
            location.push(i);
            set_of.push(Some(0));
            i = i + 1;
        }
        let mut first: Vec<usize> = Vec::new();
        let mut past: Vec<usize> = Vec::new();
        let mut set_count: usize = 0;
        if element_count > 0 {
            first.push(0);
            past.push(element_count);
            set_count = 1;
        }
        let p = Partition { set_count, elements, location, set_of, first, past };
        proof {
            let v = PartitionView::initial(element_count as nat);
            assert(p@.set_of =~= v.set_of);
            if element_count > 0 {
                assert(p@.sets[0] =~= v.sets[0]);
            }
            assert(p@.sets =~= v.sets);
        }
        p
    }

    /// The number of sets.
    pub fn set_count(&self) -> (count: usize)
        requires
            self.wf(),
        ensures
            count == self@.sets.len(),
    {
        self.set_count
    }

    /// The set that holds `element`, or `None` if it has been discarded.
    pub fn set_of(&self, element: usize) -> (set: Option<usize>)
        requires
            self.wf(),
            element < self@.universe(),
        ensures
            set == self@.set_of[element as int],
    {
        self.set_of[element]
    }

    /// The elements of `set`, in their current order.
    pub fn set(&self, set: usize) -> (members: Vec<usize>)
        requires
            self.wf(),
            set < self@.sets.len(),
        ensures
            members@ == self@.sets[set as int],
    {
        let first = self.first[set];
        let past = self.past[set];
        let mut members: Vec<usize> = Vec::new();
        let mut i: usize = first;
        while i < past
            invariant
                self.wf(),
                set < self.first@.len(),
                first == self.first@[set as int],
                past == self.past@[set as int],
                first <= i <= past,
                members@ == self.elements@.subrange(first as int, i as int),
            decreases past - i,
        {
            members.push(self.elements[i]);
            proof {
                assert(members@ =~= self.elements@.subrange(first as int, i + 1));
            }
            i = i + 1;
        }
        members
    }

    /// The element that currently stands first in `set`.
    pub fn some_element_of(&self, set: usize) -> (element: usize)
        requires
            self.wf(),
            set < self@.sets.len(),
        ensures
            element == self@.sets[set as int][0],
    {
        self.elements[self.first[set]]
    }
}


/// The position of `e` in `set`, for a set that lists `e`.
pub open spec fn position(set: Seq<usize>, e: usize) -> int {
    choose|i: int| 0 <= i < set.len() && set[i] == e
}

/// In a sequence without duplicates an element stands at one position only.
pub proof fn lemma_position(set: Seq<usize>, i: int)
    requires
        set.no_duplicates(),
        0 <= i < set.len(),
    ensures
        position(set, set[i]) == i,
{
}

/// The mathematical content of a marking session: the partition, for each
/// set the number of its marked elements, which stand first in the set, and
/// the sets that hold a marked element, in the order in which they got their
/// first mark.
pub struct MarkingView {
    pub partition: PartitionView,
    pub marked: Seq<usize>,
    pub touched: Seq<usize>,
}

impl MarkingView {
    /// The partition is valid, no set has more marked elements than
    /// elements, and the touched list names each set with a marked element
    /// once, and no other set.
    pub open spec fn valid(self) -> bool {
        &&& self.partition.valid()
        &&& self.marked.len() == self.partition.sets.len()
        &&& forall|s: int|
            0 <= s < self.marked.len() ==> (#[trigger] self.marked[s]) <= self.partition.sets[s].len()
        &&& self.touched.no_duplicates()
        &&& forall|i: int|
            0 <= i < self.touched.len() ==> (#[trigger] self.touched[i]) < self.marked.len()
                && self.marked[self.touched[i] as int] > 0
        &&& forall|s: int|
            0 <= s < self.marked.len() && (#[trigger] self.marked[s]) > 0 ==> self.touched.contains(
                s as usize,
            )
    }

    /// No element is marked.
    pub open spec fn idle(self) -> bool {
        &&& self.touched.len() == 0
        &&& forall|s: int| 0 <= s < self.marked.len() ==> (#[trigger] self.marked[s]) == 0
    }

    /// The marked elements of set `s`, in order.
    pub open spec fn marked_of(self, s: int) -> Seq<usize> {
        self.partition.sets[s].take(self.marked[s] as int)
    }

    /// Whether `e` is marked: it is live and stands in the marked prefix of
    /// its set.
    pub open spec fn is_marked(self, e: usize) -> bool {
        e < self.partition.set_of.len() && match self.partition.set_of[e as int] {
            Some(s) => self.marked_of(s as int).contains(e),
            None => false,
        }
    }

    /// The session after `e` has been marked. A discarded or marked `e`
    /// changes nothing; otherwise `e` changes places with the first unmarked
    /// element of its set and the marked prefix grows by one.
    pub open spec fn mark(self, e: usize) -> MarkingView {
        match self.partition.set_of[e as int] {
            None => self,
            Some(s) => {
                let set = self.partition.sets[s as int];
                let i = position(set, e);
                let k = self.marked[s as int] as int;
                if i < k {
                    self
                } else {
                    MarkingView {
                        partition: PartitionView {
                            sets: self.partition.sets.update(
                                s as int,
                                set.update(i, set[k]).update(k, e),
                            ),
                            set_of: self.partition.set_of,
                        },
                        marked: self.marked.update(s as int, (k + 1) as usize),
                        touched: if k == 0 {
                            self.touched.push(s)
                        } else {
                            self.touched
                        },
                    }
                }
            },
        }
    }

    /// The session after set `s` has been split. A set that is marked as a
    /// whole only loses its marks. Of any other, the smaller of the marked
    /// and the unmarked part becomes a new set, whose number is the number of
    /// sets so far; of two equal parts, the unmarked one.
    pub open spec fn split_set(self, s: usize) -> MarkingView {
        let set = self.partition.sets[s as int];
        let k = self.marked[s as int] as int;
        let fresh = self.partition.sets.len() as usize;
        if k == set.len() {
            MarkingView {
                partition: self.partition,
                marked: self.marked.update(s as int, 0),
                touched: self.touched,
            }
        } else {
            let kept = if k < set.len() - k {
                set.skip(k)
            } else {
                set.take(k)
            };
            let carved = if k < set.len() - k {
                set.take(k)
            } else {
                set.skip(k)
            };
            MarkingView {
                partition: PartitionView {
                    sets: self.partition.sets.update(s as int, kept).push(carved),
                    set_of: Seq::new(
                        self.partition.set_of.len(),
                        |e: int|
                            if carved.contains(e as usize) {
                                Some(fresh)
                            } else {
                                self.partition.set_of[e]
                            },
                    ),
                },
                marked: self.marked.update(s as int, 0).push(0),
                touched: self.touched,
            }
        }
    }

    /// The session after the touched sets from position `i` on have been
    /// split, in the order of the touched list.
    pub open spec fn split_from(self, i: int) -> MarkingView
        decreases self.touched.len() - i,
    {
        if 0 <= i < self.touched.len() {
            self.split_set(self.touched[i]).split_from(i + 1)
        } else {
            MarkingView { partition: self.partition, marked: self.marked, touched: Seq::empty() }
        }
    }

    /// The session after every touched set has been split.
    pub open spec fn split(self) -> MarkingView {
        self.split_from(0)
    }

    /// The session after the unmarked elements of every touched set have
    /// been discarded: such a set keeps its marked elements, in order, and the
    /// others belong to no set any more.
    pub open spec fn discard(self) -> MarkingView {
        MarkingView {
            partition: PartitionView {
                sets: Seq::new(
                    self.partition.sets.len(),
                    |s: int|
                        if self.marked[s] > 0 {
                            self.marked_of(s)
                        } else {
                            self.partition.sets[s]
                        },
                ),
                set_of: Seq::new(
                    self.partition.set_of.len(),
                    |e: int|
                        match self.partition.set_of[e] {
                            Some(s) => if self.marked[s as int] > 0 && !self.marked_of(
                                s as int,
                            ).contains(e as usize) {
                                None
                            } else {
                                Some(s)
                            },
                            None => None,
                        },
                ),
            },
            marked: Seq::new(self.marked.len(), |s: int| 0usize),
            touched: Seq::empty(),
        }
    }
}

/// Makes room for `additional` more elements where the memory allows it.
pub(crate) fn reserve(vec: &mut Vec<usize>, additional: usize)
    ensures
        final(vec)@ == old(vec)@,
{
    match vec.try_reserve(additional) {
        Ok(_) => {},
        Err(_) => {},
    }
}

/// The storage of a marking session, kept between sessions so that it is
/// allocated once.
pub struct PartitionMarks {
    marked: Vec<usize>,
    touched: Vec<usize>,
}

impl PartitionMarks {
    /// No session is open on this storage: no set is recorded as touched and
    /// every count of marked elements is zero.
    pub closed spec fn idle(&self) -> bool {
        &&& self.touched@.len() == 0
        &&& forall|s: int| 0 <= s < self.marked@.len() ==> (#[trigger] self.marked@[s]) == 0
    }

    /// Storage for sessions on partitions of up to `element_count` elements.
    /// The number is a hint: the storage grows where a partition is larger.
    pub fn new(element_count: usize) -> (marks: PartitionMarks)
        ensures
            marks.idle(),
    {
        let mut marked: Vec<usize> = Vec::new();
        let mut touched: Vec<usize> = Vec::new();
        reserve(&mut marked, element_count);
        reserve(&mut touched, element_count);
        PartitionMarks { marked, touched }
    }
}

/// Whether `after` groups the live elements of `before` by `keys`, and
/// `keys` holds for each live element a key that `partition` gives it.
pub open spec fn grouped_by<F: Fn(&usize) -> i32>(
    partition: F,
    before: PartitionView,
    after: PartitionView,
    keys: Seq<i32>,
) -> bool {
    &&& keys.len() == before.universe()
    &&& forall|e: usize|
        before.live(e as int) ==> call_ensures(partition, (&e,), #[trigger] keys[e as int])
    &&& after.is_grouping_of(before, keys)
}

/// A marking session on a partition.
pub struct PartitionMarking<'a> {
    pub partition: &'a mut Partition,
    pub marks: &'a mut PartitionMarks,
}

impl<'a> View for PartitionMarking<'a> {
    type V = MarkingView;

    closed spec fn view(&self) -> MarkingView {
        MarkingView {
            partition: self.partition@,
            marked: self.marks.marked@,
            touched: self.marks.touched@,
        }
    }
}

impl Partition {
    /// Gives the elements at the positions `lo..hi` the set `set`.
    fn assign_range(&mut self, lo: usize, hi: usize, set: Option<usize>)
        requires
            old(self).layout().perm(),
            lo <= hi <= old(self).elements@.len(),
        ensures
            final(self).layout().elements == old(self).layout().elements,
            final(self).layout().location == old(self).layout().location,
            final(self).layout().first == old(self).layout().first,
            final(self).layout().past == old(self).layout().past,
            final(self).layout().set_of == old(self).layout().assign(lo as int, hi as int, set),
            final(self).set_count == old(self).set_count,
    {
        let ghost before = self.layout();
        let mut i: usize = lo;
        while i < hi
            invariant
                before.perm(),
                lo <= i <= hi <= before.elements.len(),
                self.layout().elements == before.elements,
                self.layout().location == before.location,
                self.layout().first == before.first,
                self.layout().past == before.past,
                self.layout().set_of == before.assign(lo as int, i as int, set),
                self.set_count == old(self).set_count,
            decreases hi - i,
        {
            let element = self.elements[i];
            self.set_of[element] = set;
            proof {
                assert forall|e: int| 0 <= e < before.set_of.len() implies self.set_of@[e]
                    == before.assign(lo as int, i + 1, set)[e] by {
                    assert(before.location[before.elements[i as int] as int] == i);
                    assert(before.elements[before.location[e] as int] == e);
                }
                assert(self.set_of@ =~= before.assign(lo as int, i + 1, set));
            }
            i = i + 1;
        }
        proof {
            assert(before.set_of =~= before.assign(lo as int, lo as int, set));
        }
    }

    /// Rebuilds the partition from scratch so that it groups its live
    /// elements by their keys.
    fn regroup(&mut self, keys: &Vec<i32>)
        requires
            old(self).wf(),
            keys@.len() == old(self)@.universe(),
        ensures
            final(self).wf(),
            final(self)@.is_grouping_of(old(self)@, keys@),
    {
        let n = self.elements.len();
        let ghost before = self.layout();
        let mut pairs: Vec<(i32, usize)> = Vec::new();
        let mut dead: Vec<usize> = Vec::new();
        let mut e: usize = 0;
        while e < n
            invariant
                e <= n,
                n == before.set_of.len(),
                self.layout() == before,
                keys@.len() == n,
                listed(pairs@, dead@, before.set_of, keys@, e as int),
            decreases n - e,
        {
            let ghost pairs0 = pairs@;
            let ghost dead0 = dead@;
            match self.set_of[e] {
                Some(_) => {
                    pairs.push((keys[e], e));
                    proof {
                        assert forall|x: int|
                            0 <= x < e + 1 && (#[trigger] before.set_of[x]) is Some implies exists|
                            i: int,
                        | 0 <= i < pairs@.len() && (#[trigger] pairs@[i]).1 == x by {
                            if x < e {
                                let i = choose|i: int|
                                    0 <= i < pairs0.len() && (#[trigger] pairs0[i]).1 == x;
                                assert(pairs@[i].1 == x);
                            } else {
                                assert(pairs@[pairs0.len() as int].1 == x);
                            }
                        }
                    }
                },
                None => {
                    dead.push(e);
                    proof {
                        assert forall|x: int|
                            0 <= x < e + 1 && (#[trigger] before.set_of[x]) is None implies exists|
                            j: int,
                        | 0 <= j < dead@.len() && (#[trigger] dead@[j]) == x by {
                            if x < e {
                                let j = choose|j: int|
                                    0 <= j < dead0.len() && (#[trigger] dead0[j]) == x;
                                assert(dead@[j] == x);
                            } else {
                                assert(dead@[dead0.len() as int] == x);
                            }
                        }
                    }
                },
            }
            e = e + 1;
        }
        let ghost unsorted = pairs@;
        sort_pairs(&mut pairs);
        proof {
            lemma_listed_rearranged(unsorted, pairs@, dead@, before.set_of, keys@);
        }
        let live = pairs.len();
        let mut j: usize = 0;
        while j < dead.len()
            invariant
                j <= dead@.len(),
                live == pairs@.len(),
                n == before.set_of.len(),
                self.elements@.len() == n,
                self.location@.len() == n,
                self.set_of@ == before.set_of,
                listed(pairs@, dead@, before.set_of, keys@, n as int),
                forall|k: int|
                    0 <= k < j ==> self.elements@[live + k] == (#[trigger] dead@[k])
                        && self.location@[dead@[k] as int] == live + k,
            decreases dead@.len() - j,
        {
            let element = dead[j];
            self.elements[live + j] = element;
            self.location[element] = live + j;
            proof {
                assert forall|k: int| 0 <= k < j + 1 implies self.elements@[live + k] == (
                #[trigger] dead@[k]) && self.location@[dead@[k] as int] == live + k by {
                    if k < j {
                        assert(dead@[k] != dead@[j as int]);
                    }
                }
            }
            j = j + 1;
        }
        self.first.clear();
        self.past.clear();
        let mut i: usize = 0;
        while i < live
            invariant
                i <= live,
                live == pairs@.len(),
                n == before.set_of.len(),
                listed(pairs@, dead@, before.set_of, keys@, n as int),
                sorted(pairs@),
                self.layout().grouped(before.set_of, pairs@, dead@, i as int),
            decreases live - i,
        {
            let ghost now = self.layout();
            let key = pairs[i].0;
            let element = pairs[i].1;
            if i == 0 || pairs[i - 1].0 != key {
                self.first.push(i);
                self.past.push(i + 1);
            } else {
                let last = self.first.len() - 1;
                self.past[last] = i + 1;
            }
            self.elements[i] = element;
            self.location[element] = i;
            self.set_of[element] = Some(self.first.len() - 1);
            proof {
                now.lemma_group_step(before.set_of, pairs@, dead@, keys@, i as int, self.layout());
            }
            i = i + 1;
        }
        self.set_count = self.first.len();
        proof {
            self.layout().lemma_grouped_inv(before.set_of, pairs@, dead@, keys@);
            self.layout().lemma_grouped_view(before.view(), pairs@, dead@, keys@);
        }
    }

    /// Opens a marking session on this partition, with nothing marked.
    pub fn begin_marking<'a>(&'a mut self, marks: &'a mut PartitionMarks) -> (marking:
        PartitionMarking<'a>)
        requires
            old(self).wf(),
            old(marks).idle(),
        ensures
            marking.wf(),
            marking@.partition == old(self)@,
            marking@.idle(),
            marking@.marked.len() == old(self)@.sets.len(),
            *final(self) == *final(marking.partition),
            *final(marks) == *final(marking.marks),
    {
        marks.marked.clear();
        let mut i: usize = 0;
        while i < self.set_count
            invariant
                self.wf(),
                *self == *old(self),
                i <= self.set_count,
                marks.marked@.len() == i,
                marks.touched@.len() == 0,
                forall|s: int| 0 <= s < i ==> (#[trigger] marks.marked@[s]) == 0,
            decreases self.set_count - i,
        {
            marks.marked.push(0);
            i = i + 1;
        }
        PartitionMarking { partition: self, marks: marks }
    }
}

impl<'a> PartitionMarking<'a> {
    /// The representation invariant of a session: the partition is
    /// well-formed, the marked elements of each set stand first in it, and
    /// the touched list names exactly the sets with a marked element.
    pub closed spec fn wf(&self) -> bool {
        &&& self.partition.wf()
        &&& self.partition.layout().marks_inv(self.marks.marked@, self.marks.touched@)
    }

    /// The partition that the session works on, as it now stands.
    pub open spec fn current_partition(&self) -> Partition {
        *self.partition
    }

    /// The storage that the session works on, as it now stands.
    pub open spec fn current_marks(&self) -> PartitionMarks {
        *self.marks
    }

    /// What a well-formed session says of its partition and its storage.
    pub proof fn lemma_session(&self)
        requires
            self.wf(),
        ensures
            self@.valid(),
            self.current_partition().wf(),
            self.current_partition()@ == self@.partition,
            self@.idle() ==> self.current_marks().idle(),
    {
        self.current_partition().lemma_view_valid();
        let touched = self@.touched;
        assert forall|s: int| 0 <= s < self@.marked.len() && (#[trigger] self@.marked[s])
            > 0 implies touched.contains(s as usize) by {
            let j = choose|j: int| 0 <= j < touched.len() && #[trigger] touched[j] == s;
            assert(touched[j] == s as usize);
        }
    }

    /// The partition as it now stands.
    pub fn partition(&self) -> (partition: &Partition)
        requires
            self.wf(),
        ensures
            partition.wf(),
            partition@ == self@.partition,
    {
        self.partition
    }

    /// Marks `element` within its set. The number of sets stays.
    pub fn mark(&mut self, element: usize)
        requires
            old(self).wf(),
            element < old(self)@.partition.universe(),
        ensures
            final(self).wf(),
            final(self)@ == old(self)@.mark(element),
            final(self)@.partition.sets.len() == old(self)@.partition.sets.len(),
            *final(final(self).partition) == *final(old(self).partition),
            *final(final(self).marks) == *final(old(self).marks),
    {
        proof {
            self.lemma_session();
            self@.lemma_mark(element);
        }
        self.mark_in_place(element);
    }

    /// Marks `element`; no set moves within the array of elements.
    fn mark_in_place(&mut self, element: usize)
        requires
            old(self).wf(),
            element < old(self)@.partition.universe(),
        ensures
            final(self).wf(),
            final(self)@ == old(self)@.mark(element),
            final(self).partition.layout().first == old(self).partition.layout().first,
            *final(final(self).partition) == *final(old(self).partition),
            *final(final(self).marks) == *final(old(self).marks),
    {
        proof {
            self.lemma_session();
        }
        if let Some(set) = self.partition.set_of[element] {
            let element_index = self.partition.location[element];
            let first = self.partition.first[set];
            let count = self.marks.marked[set];
            let first_unmarked = first + count;
            let ghost before = self.partition.layout();
            let ghost marked = self.marks.marked@;
            let ghost touched = self.marks.touched@;
            if element_index < first_unmarked {
                proof {
                    let members = self@.partition.sets[set as int];
                    assert(members[element_index - first] == element);
                    lemma_position(members, element_index - first);
                }
                return ;
            }
            let other = self.partition.elements[first_unmarked];
            self.partition.elements[element_index] = other;
            self.partition.location[other] = element_index;
            self.partition.elements[first_unmarked] = element;
            self.partition.location[element] = first_unmarked;
            proof {
                before.lemma_mark(marked, touched, element, self.partition.layout());
            }
            if count == 0 {
                self.marks.touched.push(set);
            }
            self.marks.marked[set] = count + 1;
        }
    }

    /// Splits every touched set into its marked and its unmarked part. The
    /// number of sets does not go down.
    pub fn split_sets(&mut self)
        requires
            old(self).wf(),
        ensures
            final(self).wf(),
            final(self)@ == old(self)@.split(),
            final(self)@.partition.sets.len() >= old(self)@.partition.sets.len(),
            *final(final(self).partition) == *final(old(self).partition),
            *final(final(self).marks) == *final(old(self).marks),
    {
        proof {
            self.lemma_session();
            self@.lemma_valid_from_start();
            self@.lemma_split_from(0);
        }
        let touched_len = self.marks.touched.len();
        let mut idx: usize = 0;
        while idx < touched_len
            invariant
                idx <= touched_len,
                touched_len == self.marks.touched@.len(),
                self.partition.set_count == self.partition.first@.len(),
                self.partition.layout().inv(),
                self.partition.layout().marks_inv_from(
                    self.marks.marked@,
                    self.marks.touched@,
                    idx as int,
                ),
                self@.split_from(idx as int) == old(self)@.split(),
                *final(self.partition) == *final(old(self).partition),
                *final(self.marks) == *final(old(self).marks),
            decreases touched_len - idx,
        {
            let ghost before = self.partition.layout();
            let ghost marked = self.marks.marked@;
            let ghost touched = self.marks.touched@;
            let ghost view_before = self@;
            let set = self.marks.touched[idx];
            let count = self.marks.marked[set];
            let first = self.partition.first[set];
            let past = self.partition.past[set];
            let first_unmarked = first + count;
            if first_unmarked == past {
                self.marks.marked[set] = 0;
                proof {
                    before.lemma_unmark_set(marked, touched, idx as int);
                    assert(before.view().sets[set as int].len() == count);
                    assert(self@ == view_before.split_set(set));
                }
            } else {
                let fresh = self.partition.set_count;
                if count < past - first_unmarked {
                    self.partition.first.push(first);
                    self.partition.past.push(first_unmarked);
                    self.partition.first[set] = first_unmarked;
                } else {
                    self.partition.first.push(first_unmarked);
                    self.partition.past.push(past);
                    self.partition.past[set] = first_unmarked;
                }
                let lo = self.partition.first[fresh];
                let hi = self.partition.past[fresh];
                self.partition.assign_range(lo, hi, Some(fresh));
                self.marks.marked.push(0);
                self.marks.marked[set] = 0;
                self.partition.set_count = self.partition.first.len();
                proof {
                    before.lemma_split_set(marked, touched, idx as int, self.partition.layout());
                    assert(self@ == view_before.split_set(set));
                }
            }
            idx = idx + 1;
        }
        self.marks.touched.clear();
        proof {
            assert(self@.touched =~= Seq::empty());
        }
    }

    /// Discards the unmarked elements of every touched set: they belong to
    /// no set any more. The number of sets stays.
    pub fn discard_unmarked(&mut self)
        requires
            old(self).wf(),
        ensures
            final(self).wf(),
            final(self)@ == old(self)@.discard(),
            final(self)@.partition.sets.len() == old(self)@.partition.sets.len(),
            *final(final(self).partition) == *final(old(self).partition),
            *final(final(self).marks) == *final(old(self).marks),
    {
        let ghost before = self.partition.layout();
        let ghost marked0 = self.marks.marked@;
        let touched_len = self.marks.touched.len();
        let mut idx: usize = 0;
        proof {
            assert(before.discarded(marked0, marked0).set_of =~= before.set_of);
            assert(before.discarded(marked0, marked0).past =~= before.past);
        }
        while idx < touched_len
            invariant
                idx <= touched_len,
                touched_len == self.marks.touched@.len(),
                before.inv(),
                before.marks_inv(marked0, self.marks.touched@),
                self.marks.touched@ == old(self).marks.touched@,
                self.marks.marked@.len() == marked0.len(),
                forall|t: int|
                    0 <= t < marked0.len() ==> (#[trigger] self.marks.marked@[t]) == 0
                        || self.marks.marked@[t] == marked0[t],
                self.partition.set_count == before.first.len(),
                self.partition.layout() == before.discarded(marked0, self.marks.marked@),
                self.partition.layout().inv(),
                self.partition.layout().marks_inv_from(
                    self.marks.marked@,
                    self.marks.touched@,
                    idx as int,
                ),
                *final(self.partition) == *final(old(self).partition),
                *final(self.marks) == *final(old(self).marks),
            decreases touched_len - idx,
        {
            let ghost marked = self.marks.marked@;
            let set = self.marks.touched[idx];
            let count = self.marks.marked[set];
            let first_unmarked = self.partition.first[set] + count;
            let past = self.partition.past[set];
            proof {
                before.lemma_discard_set(marked0, marked, self.marks.touched@, idx as int);
            }
            if first_unmarked != past {
                self.partition.past[set] = first_unmarked;
                self.partition.assign_range(first_unmarked, past, None);
            } else {
                proof {
                    let now = self.partition.layout();
                    assert(now.past.update(set as int, first_unmarked) =~= now.past);
                    assert(now.assign(first_unmarked as int, past as int, None) =~= now.set_of);
                }
            }
            self.marks.marked[set] = 0;
            idx = idx + 1;
        }
        self.marks.touched.clear();
        proof {
            let zeros = Seq::new(marked0.len(), |s: int| 0usize);
            assert(self.marks.marked@ =~= zeros) by {
                assert forall|t: int| 0 <= t < marked0.len() implies self.marks.marked@[t] == 0 by {
                    if self.marks.marked@[t] > 0 {
                        let j = choose|j: int|
                            idx <= j < touched_len && #[trigger] old(self).marks.touched@[j] == t;
                    }
                }
            }
            assert(self.marks.touched@ =~= Seq::<usize>::empty());
            before.lemma_discarded_view(marked0, old(self).marks.touched@);
        }
    }

    /// Rebuilds the partition from scratch: the live elements are grouped by
    /// the key that `partition` gives them, one set for each key, in the
    /// order of the keys. All marks are dropped.
    pub fn partition_by<F: Fn(&usize) -> i32>(&mut self, partition: F)
        requires
            old(self).wf(),
            forall|e: usize|
                old(self)@.partition.live(e as int) ==> call_requires(partition, (&e,)),
        ensures
            final(self).wf(),
            final(self)@.idle(),
            exists|keys: Seq<i32>|
                #[trigger] grouped_by(partition, old(self)@.partition, final(self)@.partition, keys),
            *final(final(self).partition) == *final(old(self).partition),
            *final(final(self).marks) == *final(old(self).marks),
    {
        proof {
            self.lemma_session();
        }
        let n = self.partition.elements.len();
        let mut keys: Vec<i32> = Vec::new();
        let mut e: usize = 0;
        while e < n
            invariant
                e <= n,
                n == old(self)@.partition.universe(),
                *self == *old(self),
                self.wf(),
                keys@.len() == e,
                forall|x: usize|
                    old(self)@.partition.live(x as int) ==> call_requires(partition, (&x,)),
                forall|x: usize|
                    x < e && old(self)@.partition.live(x as int) ==> call_ensures(
                        partition,
                        (&x,),
                        #[trigger] keys@[x as int],
                    ),
            decreases n - e,
        {
            let key = match self.partition.set_of[e] {
                Some(_) => {
                    assert(self@.partition.set_of[e as int] is Some);
                    assert(old(self)@.partition.live(e as int));
                    partition(&e)
                },
                None => 0,
            };
            keys.push(key);
            e = e + 1;
        }
        self.partition.regroup(&keys);
        self.marks.touched.clear();
        self.marks.marked.clear();
        let mut set: usize = 0;
        while set < self.partition.set_count
            invariant
                self.partition.wf(),
                set <= self.partition.set_count,
                self.marks.marked@.len() == set,
                self.marks.touched@.len() == 0,
                forall|s: int| 0 <= s < set ==> (#[trigger] self.marks.marked@[s]) == 0,
                self.partition@.is_grouping_of(old(self)@.partition, keys@),
                *final(self.partition) == *final(old(self).partition),
                *final(self.marks) == *final(old(self).marks),
            decreases self.partition.set_count - set,
        {
            self.marks.marked.push(0);
            set = set + 1;
        }
        proof {
            assert(self@.partition.is_grouping_of(old(self)@.partition, keys@));
            assert(grouped_by(partition, old(self)@.partition, self@.partition, keys@));
        }
    }

    /// The marked elements of `set`, in order.
    pub fn marked_in_set(&self, set: usize) -> (members: Vec<usize>)
        requires
            self.wf(),
            set < self@.partition.sets.len(),
        ensures
            members@ == self@.marked_of(set as int),
    {
        let first = self.partition.first[set];
        let past = first + self.marks.marked[set];
        let mut members: Vec<usize> = Vec::new();
        let mut i: usize = first;
        while i < past
            invariant
                self.wf(),
                set < self.partition.first@.len(),
                first == self.partition.first@[set as int],
                past == first + self.marks.marked@[set as int],
                first <= i <= past,
                members@ == self.partition.elements@.subrange(first as int, i as int),
            decreases past - i,
        {
            members.push(self.partition.elements[i]);
            proof {
                assert(members@ =~= self.partition.elements@.subrange(first as int, i + 1));
            }
            i = i + 1;
        }
        proof {
            assert(members@ =~= self@.marked_of(set as int));
        }
        members
    }

    /// Whether `element` is marked. A discarded element is not.
    pub fn is_marked(&self, element: usize) -> (marked: bool)
        requires
            self.wf(),
            element < self@.partition.universe(),
        ensures
            marked == self@.is_marked(element),
    {
        proof {
            self.lemma_session();
        }
        match self.partition.set_of[element] {
            Some(set) => {
                let element_index = self.partition.location[element];
                let first = self.partition.first[set];
                let first_unmarked = first + self.marks.marked[set];
                proof {
                    let members = self@.partition.sets[set as int];
                    let prefix = self@.marked_of(set as int);
                    let i = element_index - first;
                    assert(members[i] == element);
                    if element_index < first_unmarked {
                        assert(prefix[i] == element);
                    } else {
                        if prefix.contains(element) {
                            let j = choose|j: int| 0 <= j < prefix.len() && prefix[j] == element;
                            assert(members[j] == element);
                        }
                    }
                }
                element_index < first_unmarked
            },
            None => false,
        }
    }
}


/// A cursor over the marked elements of one set that can mark further
/// elements while it advances: elements that get their mark during the walk
/// are handed out later in the same walk.
pub struct PartitionMarkedSetIterator<'a, 'b> where 'a: 'b {
    pub set: usize,
    pub partition_marking: &'b mut PartitionMarking<'a>,
    pub location: usize,
}

impl<'a> PartitionMarking<'a> {
    /// Starts a walk over the marked elements of `set`.
    pub fn marked_in_set_mut<'b>(&'b mut self, set: usize) -> (walk: PartitionMarkedSetIterator<
        'a,
        'b,
    >)
        requires
            old(self).wf(),
            set < old(self)@.partition.sets.len(),
        ensures
            walk.wf(),
            walk.set == set,
            walk.position() == 0,
            walk.marking() == old(self)@,
            *walk.partition_marking == *old(self),
            *final(self) == *final(walk.partition_marking),
    {
        let location: usize = self.partition.first[set];
        PartitionMarkedSetIterator { set: set, partition_marking: self, location: location }
    }
}

impl<'a, 'b> PartitionMarkedSetIterator<'a, 'b> {
    /// The session is well-formed and the cursor stands within the marked
    /// elements of its set, or just behind them.
    pub closed spec fn wf(&self) -> bool {
        let first = self.partition_marking.partition.first@;
        let marked = self.partition_marking.marks.marked@;
        &&& self.partition_marking.wf()
        &&& self.set < first.len()
        &&& first[self.set as int] <= self.location <= first[self.set as int] + marked[self.set as int]
    }

    /// The session that the walk belongs to, as it now stands.
    pub open spec fn session(&self) -> PartitionMarking<'a> {
        *self.partition_marking
    }

    /// The content of the session that the walk belongs to.
    pub closed spec fn marking(&self) -> MarkingView {
        self.partition_marking@
    }

    /// How many elements the walk has handed out.
    pub closed spec fn position(&self) -> int {
        self.location - self.partition_marking.partition.first@[self.set as int]
    }

    /// The cursor never passes the marked elements of its set.
    pub proof fn lemma_walk(&self)
        requires
            self.wf(),
        ensures
            self.marking().valid(),
            self.set < self.marking().partition.sets.len(),
            0 <= self.position() <= self.marking().marked[self.set as int],
            self.session().wf(),
            self.session()@ == self.marking(),
    {
        self.session().lemma_session();
    }

    /// Marks `element` in the session of the walk.
    pub fn mark(&mut self, element: usize)
        requires
            old(self).wf(),
            element < old(self).marking().partition.universe(),
        ensures
            final(self).wf(),
            final(self).marking() == old(self).marking().mark(element),
            final(self).position() == old(self).position(),
            final(self).set == old(self).set,
            *final(final(self).partition_marking) == *final(old(self).partition_marking),
            *final(final(self).partition_marking.partition) == *final(old(self).partition_marking.partition),
            *final(final(self).partition_marking.marks) == *final(old(self).partition_marking.marks),
    {
        proof {
            self.partition_marking.lemma_session();
            let before = self.partition_marking@;
            if let Some(s) = before.partition.set_of[element as int] {
                assert(before.mark(element).marked[self.set as int]
                    >= before.marked[self.set as int]);
            }
        }
        self.partition_marking.mark_in_place(element);
    }

    /// Hands out the next marked element of the set, or `None` when every
    /// marked element has been handed out.
    pub fn next(&mut self) -> (element: Option<usize>)
        requires
            old(self).wf(),
        ensures
            final(self).wf(),
            final(self).marking() == old(self).marking(),
            final(self).set == old(self).set,
            *final(self).partition_marking == *old(self).partition_marking,
            *final(final(self).partition_marking) == *final(old(self).partition_marking),
            old(self).position() < old(self).marking().marked[old(self).set as int] ==> element
                == Some(
                old(self).marking().partition.sets[old(self).set as int][old(self).position()],
            ) && final(self).position() == old(self).position() + 1,
            old(self).position() >= old(self).marking().marked[old(self).set as int] ==> element
                is None && final(self).position() == old(self).position(),
    {
        let i = self.location;
        if i < self.partition_marking.partition.first[self.set]
            + self.partition_marking.marks.marked[self.set] {
            self.location = i + 1;
            return Some(self.partition_marking.partition.elements[i]);
        }
        None
    }
}


/// A function that maps `0..m` into `0..n` without mapping two numbers to
/// one shows that `m` is at most `n`.
pub proof fn lemma_injective_bound(f: spec_fn(int) -> int, m: int, n: int)
    requires
        0 <= m,
        0 <= n,
        forall|i: int| 0 <= i < m ==> 0 <= #[trigger] f(i) < n,
        forall|i: int, j: int| 0 <= i < j < m ==> #[trigger] f(i) != #[trigger] f(j),
    ensures
        m <= n,
{
    let x = vstd::set_lib::set_int_range(0, m);
    let y = x.map(f);
    let z = vstd::set_lib::set_int_range(0, n);
    vstd::set_lib::lemma_int_range(0, m);
    vstd::set_lib::lemma_int_range(0, n);
    assert(vstd::relations::injective_on(f, x)) by {
        assert forall|i: int, j: int| x.contains(i) && x.contains(j) && #[trigger] f(i)
            == #[trigger] f(j) implies i == j by {
            if i < j {
                assert(f(i) != f(j));
            } else if j < i {
                assert(f(j) != f(i));
            }
        }
    }
    vstd::set_lib::lemma_map_size(x, y, f);
    assert(y.subset_of(z)) by {
        assert forall|v: int| y.contains(v) implies z.contains(v) by {
            let i = choose|i: int| x.contains(i) && v == f(i);
            assert(0 <= f(i) < n);
        }
    }
    vstd::set_lib::lemma_len_subset(y, z);
}

impl PartitionView {
    /// A set of a valid partition has at most as many elements as the
    /// universe.
    pub proof fn lemma_set_bound(self, s: int)
        requires
            self.valid(),
            0 <= s < self.sets.len(),
        ensures
            self.sets[s].len() <= self.set_of.len(),
    {
        let set = self.sets[s];
        let f = |j: int| set[j] as int;
        assert forall|j: int| 0 <= j < set.len() implies 0 <= #[trigger] f(j)
            < self.set_of.len() by {
            assert(self.sets[s][j] < self.set_of.len());
        }
        lemma_injective_bound(f, set.len() as int, self.set_of.len() as int);
    }

    /// A valid partition has at most as many sets as the universe has
    /// elements, and fewer where a set holds two elements.
    pub proof fn lemma_count_bound(self)
        requires
            self.valid(),
        ensures
            self.sets.len() <= self.set_of.len(),
            forall|s: int|
                0 <= s < self.sets.len() && (#[trigger] self.sets[s]).len() >= 2
                    ==> self.sets.len() < self.set_of.len(),
    {
        let count = self.sets.len() as int;
        let n = self.set_of.len() as int;
        let f = |i: int| self.sets[i][0] as int;
        assert forall|i: int, j: int| 0 <= i < j < count implies #[trigger] f(i) != #[trigger] f(
            j,
        ) by {
            assert(self.sets[i].len() > 0 && self.sets[j].len() > 0);
            assert(self.set_of[self.sets[i][0] as int] == Some(i as usize));
            assert(self.set_of[self.sets[j][0] as int] == Some(j as usize));
        }
        assert forall|i: int| 0 <= i < count implies 0 <= #[trigger] f(i) < n by {
            assert(self.sets[i].len() > 0);
            assert(self.sets[i][0] < n);
        }
        lemma_injective_bound(f, count, n);
        assert forall|s: int|
            0 <= s < self.sets.len() && (#[trigger] self.sets[s]).len() >= 2 implies self.sets.len()
            < self.set_of.len() by {
            let g = |i: int|
                if i < count {
                    self.sets[i][0] as int
                } else {
                    self.sets[s][1] as int
                };
            assert forall|i: int, j: int| 0 <= i < j < count + 1 implies #[trigger] g(i)
                != #[trigger] g(j) by {
                assert(self.sets[i].len() > 0);
                assert(self.set_of[self.sets[i][0] as int] == Some(i as usize));
                if j < count {
                    assert(self.sets[j].len() > 0);
                    assert(self.set_of[self.sets[j][0] as int] == Some(j as usize));
                } else {
                    assert(self.set_of[self.sets[s][1] as int] == Some(s as usize));
                    if i == s {
                        assert(self.sets[s][0] != self.sets[s][1]);
                    }
                }
            }
            assert forall|i: int| 0 <= i < count + 1 implies 0 <= #[trigger] g(i) < n by {
                if i < count {
                    assert(self.sets[i].len() > 0);
                    assert(self.sets[i][0] < n);
                } else {
                    assert(self.sets[s][1] < n);
                }
            }
            lemma_injective_bound(g, count + 1, n);
        }
    }
}

impl MarkingView {
    /// `valid` while the touched sets are worked off one by one: those
    /// before position `from` of the touched list carry no mark any more.
    pub open spec fn valid_from(self, from: int) -> bool {
        &&& self.partition.valid()
        &&& self.marked.len() == self.partition.sets.len()
        &&& forall|s: int|
            0 <= s < self.marked.len() ==> (#[trigger] self.marked[s]) <= self.partition.sets[s].len()
        &&& self.touched.no_duplicates()
        &&& forall|j: int|
            0 <= j < self.touched.len() ==> (#[trigger] self.touched[j]) < self.marked.len() && (j
                >= from ==> self.marked[self.touched[j] as int] > 0) && (j < from
                ==> self.marked[self.touched[j] as int] == 0)
        &&& forall|s: int|
            0 <= s < self.marked.len() && (#[trigger] self.marked[s]) > 0 ==> exists|j: int|
                from <= j < self.touched.len() && #[trigger] self.touched[j] == s
    }

    /// A valid session is valid from the first touched set on.
    pub proof fn lemma_valid_from_start(self)
        requires
            self.valid(),
        ensures
            self.valid_from(0),
    {
        assert forall|s: int| 0 <= s < self.marked.len() && (#[trigger] self.marked[s])
            > 0 implies exists|j: int| 0 <= j < self.touched.len() && #[trigger] self.touched[j]
            == s by {
            assert(self.touched.contains(s as usize));
            let j = choose|j: int| 0 <= j < self.touched.len() && self.touched[j] == s as usize;
            assert(self.touched[j] == s);
        }
    }

    /// What marking an element does to the sets and to the marks.
    pub proof fn lemma_mark(self, e: usize)
        requires
            self.valid(),
            e < self.partition.universe(),
        ensures
            ({
                let w = self.mark(e);
                &&& w.valid()
                &&& w.partition.set_of == self.partition.set_of
                &&& w.partition.sets.len() == self.partition.sets.len()
                &&& forall|x: usize|
                    #[trigger] w.is_marked(x) <==> (self.is_marked(x) || (x == e
                        && self.partition.live(e as int)))
                &&& forall|s: int, k: int|
                    0 <= s < self.marked.len() && 0 <= k < self.marked[s]
                        ==> #[trigger] w.partition.sets[s][k] == self.partition.sets[s][k]
                &&& forall|s: int|
                    0 <= s < self.marked.len() ==> self.marked[s] <= (#[trigger] w.marked[s])
                        <= self.marked[s] + 1
            }),
    {
        let w = self.mark(e);
        match self.partition.set_of[e as int] {
            None => {},
            Some(s) => {
                let set = self.partition.sets[s as int];
                assert(set.contains(e));
                let i = position(set, e);
                let k = self.marked[s as int] as int;
                self.partition.lemma_set_bound(s as int);
                if i >= k {
                    let swapped = set.update(i, set[k]).update(k, e);
                    assert(w.partition.sets[s as int] == swapped);
                    assert(swapped.no_duplicates()) by {
                        assert forall|a: int, b: int|
                            0 <= a < swapped.len() && 0 <= b < swapped.len() && a
                                != b implies swapped[a] != swapped[b] by {
                            let a0 = if a == i {
                                k
                            } else if a == k {
                                i
                            } else {
                                a
                            };
                            let b0 = if b == i {
                                k
                            } else if b == k {
                                i
                            } else {
                                b
                            };
                            assert(swapped[a] == set[a0]);
                            assert(swapped[b] == set[b0]);
                        }
                    }
                    assert forall|t: int, j: int|
                        0 <= t < w.partition.sets.len() && 0 <= j
                            < w.partition.sets[t].len() implies (#[trigger] w.partition.sets[t][j])
                        < w.partition.set_of.len() && w.partition.set_of[w.partition.sets[t][j] as int]
                        == Some(t as usize) by {
                        if t == s {
                            let j0 = if j == i {
                                k
                            } else if j == k {
                                i
                            } else {
                                j
                            };
                            assert(swapped[j] == set[j0]);
                        } else {
                            assert(w.partition.sets[t][j] == self.partition.sets[t][j]);
                        }
                    }
                    assert forall|x: int| 0 <= x < w.partition.set_of.len() implies (
                    #[trigger] w.partition.set_of[x] matches Some(t) ==> t < w.partition.sets.len()
                        && w.partition.sets[t as int].contains(x as usize)) by {
                        if let Some(t) = self.partition.set_of[x] {
                            assert(self.partition.sets[t as int].contains(x as usize));
                            if t == s {
                                let j = choose|j: int| 0 <= j < set.len() && set[j] == x as usize;
                                let j1 = if j == i {
                                    k
                                } else if j == k {
                                    i
                                } else {
                                    j
                                };
                                assert(swapped[j1] == x as usize);
                            }
                        }
                    }
                    assert(w.touched.no_duplicates() && (forall|t: int|
                        0 <= t < w.marked.len() && (#[trigger] w.marked[t]) > 0
                            ==> w.touched.contains(t as usize))) by {
                        if k == 0 {
                            if self.touched.contains(s) {
                                let j = choose|j: int|
                                    0 <= j < self.touched.len() && self.touched[j] == s;
                                assert(self.marked[self.touched[j] as int] > 0);
                            }
                            assert(w.touched[self.touched.len() as int] == s);
                            assert forall|t: int|
                                0 <= t < w.marked.len() && (#[trigger] w.marked[t])
                                    > 0 implies w.touched.contains(t as usize) by {
                                if t != s {
                                    assert(self.marked[t] > 0);
                                    let j = choose|j: int|
                                        0 <= j < self.touched.len() && self.touched[j]
                                            == t as usize;
                                    assert(w.touched[j] == t as usize);
                                }
                            }
                        } else {
                            assert forall|t: int|
                                0 <= t < w.marked.len() && (#[trigger] w.marked[t])
                                    > 0 implies w.touched.contains(t as usize) by {
                                assert(self.marked[t] > 0);
                            }
                        }
                    }
                    assert forall|j: int| 0 <= j < w.touched.len() implies (#[trigger] w.touched[j])
                        < w.marked.len() && w.marked[w.touched[j] as int] > 0 by {
                        if j < self.touched.len() {
                            assert(self.marked[self.touched[j] as int] > 0);
                        }
                    }
                    assert(w.valid());
                    assert forall|x: usize| #[trigger]
                        w.is_marked(x) <==> (self.is_marked(x) || (x == e && self.partition.live(
                            e as int,
                        ))) by {
                        if x < self.partition.set_of.len() {
                            if let Some(t) = self.partition.set_of[x as int] {
                                let before = self.marked_of(t as int);
                                let after = w.marked_of(t as int);
                                if t == s {
                                    assert(after =~= before.push(e));
                                    if before.contains(x) {
                                        let j = choose|j: int|
                                            0 <= j < before.len() && before[j] == x;
                                        assert(after[j] == x);
                                    }
                                    if x == e {
                                        assert(after[k] == e);
                                    }
                                    if after.contains(x) {
                                        let j = choose|j: int| 0 <= j < after.len() && after[j] == x;
                                        if j < k {
                                            assert(before[j] == x);
                                        }
                                    }
                                } else {
                                    assert(after =~= before);
                                }
                            }
                        }
                    }
                } else {
                    assert(self.marked_of(s as int)[i] == e);
                }
            },
        }
    }

    /// What discarding the unmarked elements of the touched sets does.
    pub proof fn lemma_discard(self)
        requires
            self.valid(),
        ensures
            ({
                let w = self.discard();
                &&& w.valid()
                &&& w.idle()
                &&& w.partition.sets.len() == self.partition.sets.len()
                &&& w.partition.set_of.len() == self.partition.set_of.len()
                &&& forall|x: int|
                    0 <= x < self.partition.set_of.len() ==> #[trigger] w.partition.set_of[x] == (
                    match self.partition.set_of[x] {
                        Some(s) => if self.marked[s as int] == 0 || self.is_marked(x as usize) {
                            Some(s)
                        } else {
                            None
                        },
                        None => None,
                    })
                &&& forall|s: int|
                    0 <= s < self.marked.len() && self.marked[s] > 0
                        ==> #[trigger] w.partition.sets[s] == self.marked_of(s)
            }),
    {
        let w = self.discard();
        assert forall|s: int| 0 <= s < w.partition.sets.len() implies (
        #[trigger] w.partition.sets[s]).len() > 0 && w.partition.sets[s].no_duplicates() by {
            assert(self.partition.sets[s].len() > 0);
        }
        assert forall|t: int, j: int|
            0 <= t < w.partition.sets.len() && 0 <= j < w.partition.sets[t].len() implies (
        #[trigger] w.partition.sets[t][j]) < w.partition.set_of.len()
            && w.partition.set_of[w.partition.sets[t][j] as int] == Some(t as usize) by {
            assert(w.partition.sets[t][j] == self.partition.sets[t][j]);
            if self.marked[t] > 0 {
                assert(self.marked_of(t)[j] == self.partition.sets[t][j]);
            }
        }
        assert forall|x: int| 0 <= x < w.partition.set_of.len() implies (
        #[trigger] w.partition.set_of[x] matches Some(t) ==> t < w.partition.sets.len()
            && w.partition.sets[t as int].contains(x as usize)) by {
            if let Some(t) = self.partition.set_of[x] {
                assert(self.partition.sets[t as int].contains(x as usize));
            }
        }
    }

    /// What splitting one touched set does.
    pub proof fn lemma_split_set(self, i: int)
        requires
            self.valid_from(i),
            0 <= i < self.touched.len(),
        ensures
            ({
                let s = self.touched[i];
                let w = self.split_set(s);
                &&& w.valid_from(i + 1)
                &&& w.partition.set_of.len() == self.partition.set_of.len()
                &&& w.partition.sets.len() >= self.partition.sets.len()
                &&& forall|x: int|
                    0 <= x < self.partition.set_of.len() ==> ((#[trigger] w.partition.set_of[x])
                        is Some <==> self.partition.set_of[x] is Some)
                &&& forall|x: int|
                    0 <= x < self.partition.set_of.len() ==> (#[trigger] w.partition.set_of[x])
                        == self.partition.set_of[x] || (self.partition.set_of[x] == Some(s)
                        && w.partition.set_of[x] == Some(self.partition.sets.len() as usize))
                &&& forall|x: int, y: int|
                    self.partition.live(x) && self.partition.live(y) ==> ((
                    #[trigger] w.partition.set_of[x]) == (#[trigger] w.partition.set_of[y]) <==> (
                    self.partition.set_of[x] == self.partition.set_of[y] && (
                    self.partition.set_of[x] == Some(s) ==> (self.is_marked(x as usize)
                        <==> self.is_marked(y as usize)))))
                &&& forall|x: usize| #[trigger]
                    w.is_marked(x) <==> self.is_marked(x) && self.partition.set_of[x as int]
                        != Some(s)
            }),
    {
        let s = self.touched[i];
        let w = self.split_set(s);
        let set = self.partition.sets[s as int];
        let k = self.marked[s as int] as int;
        let count = self.partition.sets.len();
        let n = self.partition.set_of.len();
        assert(k > 0);
        assert(set.no_duplicates());
        assert(w.touched == self.touched);
        assert(w.marked.len() >= self.marked.len());
        assert forall|t: int| 0 <= t < w.marked.len() implies #[trigger] w.marked[t] == if t
            < self.marked.len() && t != s {
            self.marked[t]
        } else {
            0
        } by {}
        assert forall|t: int| 0 <= t < w.marked.len() && (#[trigger] w.marked[t]) > 0 implies exists|
            j: int,
        | i + 1 <= j < w.touched.len() && #[trigger] w.touched[j] == t by {
            assert(self.marked[t] > 0);
            let j = choose|j: int| i <= j < self.touched.len() && #[trigger] self.touched[j] == t;
            assert(j != i);
            assert(w.touched[j] == t);
        }
        assert forall|j: int| 0 <= j < w.touched.len() implies (#[trigger] w.touched[j])
            < w.marked.len() && (j >= i + 1 ==> w.marked[w.touched[j] as int] > 0) && (j < i + 1
            ==> w.marked[w.touched[j] as int] == 0) by {
            assert(self.touched[j] < self.marked.len());
            if j != i {
                assert(self.touched[j] != self.touched[i]);
            }
        }
        if k == set.len() {
            assert forall|x: usize| #[trigger]
                w.is_marked(x) <==> self.is_marked(x) && self.partition.set_of[x as int] != Some(
                    s,
                ) by {
                if x < n {
                    if let Some(t) = self.partition.set_of[x as int] {
                        if t == s {
                            assert(w.marked_of(t as int) =~= Seq::empty());
                        } else {
                            assert(w.marked_of(t as int) =~= self.marked_of(t as int));
                        }
                    }
                }
            }
            assert forall|x: int, y: int|
                self.partition.live(x) && self.partition.live(y) implies ((
            #[trigger] w.partition.set_of[x]) == (#[trigger] w.partition.set_of[y]) <==> (
            self.partition.set_of[x] == self.partition.set_of[y] && (self.partition.set_of[x]
                == Some(s) ==> (self.is_marked(x as usize) <==> self.is_marked(y as usize))))) by {
                if self.partition.set_of[x] == Some(s) && self.partition.set_of[y] == Some(s) {
                    assert(set.contains(x as usize));
                    assert(set.contains(y as usize));
                    assert(self.marked_of(s as int) =~= set);
                }
            }
        } else {
            self.partition.lemma_count_bound();
            assert(set.len() >= 2);
            assert(count < n);
            let fresh = count as usize;
            let carved = if k < set.len() - k {
                set.take(k)
            } else {
                set.skip(k)
            };
            let kept = if k < set.len() - k {
                set.skip(k)
            } else {
                set.take(k)
            };
            let prefix = self.marked_of(s as int);
            assert(prefix == set.take(k));
            assert forall|x: usize| set.contains(x) implies (carved.contains(x) <==> !kept.contains(
                x,
            )) && (prefix.contains(x) <==> (k < set.len() - k <==> carved.contains(x))) by {
                let j = choose|j: int| 0 <= j < set.len() && set[j] == x;
                if j < k {
                    assert(set.take(k)[j] == x);
                    if set.skip(k).contains(x) {
                        let l = choose|l: int| 0 <= l < set.skip(k).len() && set.skip(k)[l] == x;
                        assert(set[l + k] == x);
                    }
                } else {
                    assert(set.skip(k)[j - k] == x);
                    if set.take(k).contains(x) {
                        let l = choose|l: int| 0 <= l < set.take(k).len() && set.take(k)[l] == x;
                        assert(set[l] == x);
                    }
                }
            }
            assert forall|x: usize| carved.contains(x) implies set.contains(x) by {
                let j = choose|j: int| 0 <= j < carved.len() && carved[j] == x;
                if k < set.len() - k {
                    assert(set[j] == x);
                } else {
                    assert(set[j + k] == x);
                }
            }
            assert forall|t: int| 0 <= t < w.partition.sets.len() implies (
            #[trigger] w.partition.sets[t]).len() > 0 && w.partition.sets[t].no_duplicates() by {
                if t == count {
                    assert(w.partition.sets[t] == carved);
                } else if t == s {
                    assert(w.partition.sets[t] == kept);
                } else {
                    assert(w.partition.sets[t] == self.partition.sets[t]);
                }
            }
            assert forall|t: int, j: int|
                0 <= t < w.partition.sets.len() && 0 <= j < w.partition.sets[t].len() implies (
            #[trigger] w.partition.sets[t][j]) < w.partition.set_of.len()
                && w.partition.set_of[w.partition.sets[t][j] as int] == Some(t as usize) by {
                let x = w.partition.sets[t][j];
                if t == count {
                    assert(carved[j] == x);
                    assert(set.contains(x));
                } else if t == s {
                    assert(kept[j] == x);
                    if k < set.len() - k {
                        assert(set[j + k] == x);
                    } else {
                        assert(set[j] == x);
                    }
                    assert(set.contains(x));
                } else {
                    assert(self.partition.sets[t][j] == x);
                    if carved.contains(x) {
                        assert(set.contains(x));
                        let l = choose|l: int| 0 <= l < set.len() && set[l] == x;
                        assert(self.partition.set_of[set[l] as int] == Some(s));
                    }
                }
            }
            assert forall|x: int| 0 <= x < w.partition.set_of.len() implies (
            #[trigger] w.partition.set_of[x] matches Some(t) ==> t < w.partition.sets.len()
                && w.partition.sets[t as int].contains(x as usize)) by {
                if carved.contains(x as usize) {
                    assert(w.partition.sets[count as int] == carved);
                } else if let Some(t) = self.partition.set_of[x] {
                    assert(self.partition.sets[t as int].contains(x as usize));
                    if t == s {
                        assert(kept.contains(x as usize));
                        assert(w.partition.sets[t as int] == kept);
                    } else {
                        assert(w.partition.sets[t as int] == self.partition.sets[t as int]);
                    }
                }
            }
            assert(w.partition.valid());
            assert forall|x: int| 0 <= x < n implies (#[trigger] w.partition.set_of[x])
                == self.partition.set_of[x] || (self.partition.set_of[x] == Some(s)
                && w.partition.set_of[x] == Some(fresh)) by {
                if carved.contains(x as usize) {
                    assert(set.contains(x as usize));
                    let l = choose|l: int| 0 <= l < set.len() && set[l] == x as usize;
                    assert(self.partition.set_of[set[l] as int] == Some(s));
                }
            }
            assert forall|x: usize| #[trigger]
                w.is_marked(x) <==> self.is_marked(x) && self.partition.set_of[x as int] != Some(
                    s,
                ) by {
                if x < n {
                    if let Some(t) = w.partition.set_of[x as int] {
                        if t == s || t == fresh {
                            assert(w.marked_of(t as int) =~= Seq::empty());
                        } else {
                            assert(w.marked_of(t as int) =~= self.marked_of(t as int));
                        }
                    }
                }
            }
            assert forall|x: int, y: int|
                self.partition.live(x) && self.partition.live(y) implies ((
            #[trigger] w.partition.set_of[x]) == (#[trigger] w.partition.set_of[y]) <==> (
            self.partition.set_of[x] == self.partition.set_of[y] && (self.partition.set_of[x]
                == Some(s) ==> (self.is_marked(x as usize) <==> self.is_marked(y as usize))))) by {
                if self.partition.set_of[x] == Some(s) {
                    assert(set.contains(x as usize));
                }
                if self.partition.set_of[y] == Some(s) {
                    assert(set.contains(y as usize));
                }
            }
        }
    }

    /// What splitting the touched sets from position `i` on does: two live
    /// elements share a set afterwards where they shared one before and
    /// either both or neither was marked, and an element that changes its
    /// set moves to a new one.
    pub proof fn lemma_split_from(self, i: int)
        requires
            self.valid_from(i),
            0 <= i,
        ensures
            ({
                let w = self.split_from(i);
                &&& w.valid()
                &&& w.idle()
                &&& w.partition.set_of.len() == self.partition.set_of.len()
                &&& w.partition.sets.len() >= self.partition.sets.len()
                &&& forall|x: int|
                    0 <= x < self.partition.set_of.len() ==> ((#[trigger] w.partition.set_of[x])
                        is Some <==> self.partition.set_of[x] is Some)
                &&& forall|x: int|
                    0 <= x < self.partition.set_of.len() ==> (#[trigger] w.partition.set_of[x])
                        == self.partition.set_of[x] || (w.partition.set_of[x] matches Some(t) && t
                        >= self.partition.sets.len())
                &&& forall|x: int, y: int|
                    self.partition.live(x) && self.partition.live(y) ==> ((
                    #[trigger] w.partition.set_of[x]) == (#[trigger] w.partition.set_of[y]) <==> (
                    self.partition.set_of[x] == self.partition.set_of[y] && (self.is_marked(
                        x as usize,
                    ) <==> self.is_marked(y as usize))))
            }),
        decreases self.touched.len() - i,
    {
        let w = self.split_from(i);
        let n = self.partition.set_of.len();
        if i < self.touched.len() {
            let s = self.touched[i];
            let u = self.split_set(s);
            self.lemma_split_set(i);
            u.lemma_split_from(i + 1);
            assert(w == u.split_from(i + 1));
            assert forall|x: int| 0 <= x < n implies ((#[trigger] w.partition.set_of[x]) is Some
                <==> self.partition.set_of[x] is Some) by {
                assert(u.partition.set_of[x] is Some <==> self.partition.set_of[x] is Some);
            }
            assert forall|x: int| 0 <= x < n implies (#[trigger] w.partition.set_of[x])
                == self.partition.set_of[x] || (w.partition.set_of[x] matches Some(t) && t
                >= self.partition.sets.len()) by {
                assert(u.partition.set_of[x] == self.partition.set_of[x] || u.partition.set_of[x]
                    == Some(self.partition.sets.len() as usize));
            }
            assert forall|x: int, y: int|
                self.partition.live(x) && self.partition.live(y) implies ((
            #[trigger] w.partition.set_of[x]) == (#[trigger] w.partition.set_of[y]) <==> (
            self.partition.set_of[x] == self.partition.set_of[y] && (self.is_marked(x as usize)
                <==> self.is_marked(y as usize)))) by {
                assert(u.partition.set_of[x] is Some <==> self.partition.set_of[x] is Some);
                assert(u.partition.set_of[y] is Some <==> self.partition.set_of[y] is Some);
                assert(u.partition.live(x) && u.partition.live(y));
                assert(u.is_marked(x as usize) <==> self.is_marked(x as usize)
                    && self.partition.set_of[x] != Some(s));
                assert(u.is_marked(y as usize) <==> self.is_marked(y as usize)
                    && self.partition.set_of[y] != Some(s));
                assert(u.partition.set_of[x] == u.partition.set_of[y] <==> (
                self.partition.set_of[x] == self.partition.set_of[y] && (self.partition.set_of[x]
                    == Some(s) ==> (self.is_marked(x as usize) <==> self.is_marked(y as usize)))));
                if self.partition.set_of[x] != self.partition.set_of[y] {
                } else if self.partition.set_of[x] == Some(s) {
                } else {
                }
            }
        } else {
            assert forall|s: int| 0 <= s < self.marked.len() implies (#[trigger] self.marked[s])
                == 0 by {
                if self.marked[s] > 0 {
                    let j = choose|j: int|
                        i <= j < self.touched.len() && #[trigger] self.touched[j] == s;
                }
            }
            assert forall|x: int, y: int|
                self.partition.live(x) && self.partition.live(y) implies (self.is_marked(x as usize)
                <==> self.is_marked(y as usize)) by {
                let s = self.partition.set_of[x].unwrap();
                let t = self.partition.set_of[y].unwrap();
                assert(self.marked[s as int] == 0);
                assert(self.marked[t as int] == 0);
                assert(self.marked_of(s as int) =~= Seq::empty());
                assert(self.marked_of(t as int) =~= Seq::empty());
            }
        }
    }
}

} // verus!
