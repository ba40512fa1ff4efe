//! The open set of an A* search: a binary min-heap of candidate cells
//! keyed by estimated total cost, with ties broken by cell index so that
//! extraction order is deterministic.

use vstd::prelude::*;

verus! {

/// One open-set entry: a cell (as a flat grid index) together with the
/// priority key `f` (cost so far plus heuristic estimate to the goal).
#[derive(Clone, Copy, PartialEq, Eq, Structural)]
pub struct Entry {
    pub f: u128,
    pub idx: usize,
}

/// Total order on entries: ascending `f`, ties broken by ascending index.
pub open spec fn key_le(a: Entry, b: Entry) -> bool {
    a.f < b.f || (a.f == b.f && a.idx <= b.idx)
}

/// Parent position of heap slot `i`.
pub open spec fn hp(i: int) -> int {
    (i - 1) / 2
}

/// The heap shape invariant: every slot is ordered after its parent.
pub open spec fn heap_wf(s: Seq<Entry>) -> bool {
    forall|i: int| 1 <= i < s.len() ==> key_le(s[hp(i)], #[trigger] s[i])
}

/// In a well-shaped heap the root is a least entry.
proof fn lemma_root_le(s: Seq<Entry>, i: int)
    requires
        heap_wf(s),
        0 <= i < s.len(),
    ensures
        key_le(s[0], s[i]),
    decreases i,
{
    if i > 0 {
        lemma_root_le(s, hp(i));
    }
}

/// Overwriting one slot swaps the old element for the new one in the
/// sequence's multiset.
proof fn lemma_update_to_multiset(s: Seq<Entry>, i: int, v: Entry)
    requires
        0 <= i < s.len(),
    ensures
        s.update(i, v).to_multiset() =~= s.to_multiset().remove(s[i]).insert(v),
{
    broadcast use vstd::seq_lib::group_to_multiset_ensures;

    let u = s.update(i, v);
    assert(u.remove(i) =~= s.remove(i));
    assert(u.remove(i).to_multiset() =~= u.to_multiset().remove(v));
    assert(s.remove(i).to_multiset() =~= s.to_multiset().remove(s[i]));
    assert(u.contains(v)) by {
        assert(u[i] == v);
    }
    assert(u.to_multiset().count(v) > 0);
    assert(u.to_multiset() =~= u.to_multiset().remove(v).insert(v));
}

/// Swapping two slots leaves the sequence's multiset unchanged.
proof fn lemma_swap_to_multiset(s: Seq<Entry>, i: int, j: int)
    requires
        0 <= i < s.len(),
        0 <= j < s.len(),
        i != j,
    ensures
        s.update(i, s[j]).update(j, s[i]).to_multiset() =~= s.to_multiset(),
{
    broadcast use vstd::seq_lib::group_to_multiset_ensures;

    let u1 = s.update(i, s[j]);
    lemma_update_to_multiset(s, i, s[j]);
    lemma_update_to_multiset(u1, j, s[i]);
    assert(u1[j] == s[j]);
    assert(s.to_multiset().count(s[i]) > 0) by {
        assert(s.contains(s[i]));
    }
    assert(u1.update(j, s[i]).to_multiset() =~= s.to_multiset().remove(s[i]).insert(
        s[j],
    ).remove(s[j]).insert(s[i]));
    assert(s.to_multiset().remove(s[i]).insert(s[j]).remove(s[j]) =~= s.to_multiset().remove(
        s[i],
    ));
    assert(s.to_multiset().remove(s[i]).insert(s[i]) =~= s.to_multiset());
}

/// A priority structure over open cells, with no fixed capacity.
///
/// Internally a binary min-heap stored in a growable vector; `pop`
/// returns a least entry under `key_le`.
pub struct Frontier {
    entries: Vec<Entry>,
}

impl Frontier {
    pub closed spec fn view(self) -> Seq<Entry> {
        self.entries@
    }

    pub closed spec fn wf(self) -> bool {
        heap_wf(self.entries@)
    }

    pub fn new() -> (r: Frontier)
        ensures
            r.wf(),
            r@.len() == 0,
    {
        Frontier { entries: Vec::new() }
    }

    pub fn len(&self) -> (r: usize)
        ensures
            r == self@.len(),
    {
        self.entries.len()
    }

    /// Inserts an open entry. Afterwards the frontier holds one more
    /// entry, the new one is present, and every entry present was
    /// already there or is the new one.
    pub fn push(&mut self, e: Entry)
        requires
            old(self).wf(),
        ensures
            final(self).wf(),
            final(self)@.len() == old(self)@.len() + 1,
            final(self)@.contains(e),
            forall|x: Entry| final(self)@.contains(x) ==> old(self)@.contains(x) || x == e,
            forall|x: Entry| old(self)@.contains(x) ==> final(self)@.contains(x),
            final(self)@.to_multiset() =~= old(self)@.to_multiset().insert(e),
    {
        self.entries.push(e);
        let n = self.entries.len();
        let mut j: usize = n - 1;
        proof {
            vstd::seq_lib::to_multiset_build(old(self)@, e);
            assert(self.entries@ =~= old(self)@.push(e));
            assert forall|x: Entry| self.entries@.contains(x) implies old(self)@.contains(x) || x
                == e by {
                let t = choose|t: int| 0 <= t < self.entries@.len() && self.entries@[t] == x;
                if t < n - 1 {
                    assert(old(self)@[t] == x);
                }
            }
            assert forall|x: Entry| old(self)@.contains(x) implies self.entries@.contains(x) by {
                let t = choose|t: int| 0 <= t < old(self)@.len() && old(self)@[t] == x;
                assert(self.entries@[t] == x);
            }
        }
        let mut rising = true;
        while rising
            invariant
                n == self.entries@.len(),
                n >= 1,
                j < n,
                self.entries@[j as int] == e,
                forall|i: int|
                    1 <= i < n && i != j ==> key_le(self.entries@[hp(i)], #[trigger] self.entries@[i]),
                j > 0 ==> forall|k: int|
                    1 <= k < n && hp(k) == j ==> key_le(
                        self.entries@[hp(j as int)],
                        #[trigger] self.entries@[k],
                    ),
                forall|x: Entry| self.entries@.contains(x) ==> old(self)@.contains(x) || x == e,
                forall|x: Entry| old(self)@.contains(x) ==> self.entries@.contains(x),
                self.entries@.to_multiset() =~= old(self)@.to_multiset().insert(e),
                !rising ==> (j == 0 || key_le(self.entries@[hp(j as int)], e)),
            decreases j, (if rising { 1int } else { 0int }),
        {
            if j > 0 {
                let p = (j - 1) / 2;
                let a = self.entries[j];
                let b = self.entries[p];
                if key_lt(&a, &b) {
                    let ghost s = self.entries@;
                    self.entries.set(j, b);
                    self.entries.set(p, a);
                    proof {
                        let s2 = self.entries@;
                        assert forall|i: int|
                            1 <= i < n && i != p implies key_le(s2[hp(i)], #[trigger] s2[i]) by {
                            if i == j {
                            } else if hp(i) == p {
                            } else if hp(i) == j {
                            }
                        }
                        if p > 0 {
                            assert forall|k: int| 1 <= k < n && hp(k) == p implies key_le(
                                s2[hp(p as int)],
                                #[trigger] s2[k],
                            ) by {
                                assert(key_le(s[hp(p as int)], s[p as int]));
                                if k != j {
                                    assert(key_le(s[hp(k)], s[k]));
                                }
                            }
                        }
                        assert forall|x: Entry| s2.contains(x) implies old(self)@.contains(x) || x
                            == e by {
                            let t = choose|t: int| 0 <= t < s2.len() && s2[t] == x;
                            if t == j {
                                assert(s[p as int] == x);
                            } else if t == p {
                                assert(s[j as int] == x);
                            } else {
                                assert(s[t] == x);
                            }
                        }
                        assert forall|x: Entry| s.contains(x) implies s2.contains(x) by {
                            let t = choose|t: int| 0 <= t < s.len() && s[t] == x;
                            if t == j {
                                assert(s2[p as int] == x);
                            } else if t == p {
                                assert(s2[j as int] == x);
                            } else {
                                assert(s2[t] == x);
                            }
                        }
                        lemma_swap_to_multiset(s, j as int, p as int);
                        assert(s2 =~= s.update(j as int, s[p as int]).update(p as int, s[j as int]));
                    }
                    j = p;
                } else {
                    rising = false;
                }
            } else {
                rising = false;
            }
        }
        proof {
            assert(self.entries@.contains(e)) by {
                assert(self.entries@[j as int] == e);
            }
        }
    }

    /// Removes and returns a least entry under `key_le` (ascending `f`,
    /// ties broken by ascending cell index). Afterwards the frontier
    /// holds one entry fewer, and only entries it already held.
    pub fn pop(&mut self) -> (r: Entry)
        requires
            old(self).wf(),
            old(self)@.len() > 0,
        ensures
            final(self).wf(),
            final(self)@.len() == old(self)@.len() - 1,
            old(self)@.contains(r),
            forall|x: Entry| final(self)@.contains(x) ==> old(self)@.contains(x),
            forall|x: Entry| old(self)@.contains(x) && x != r ==> final(self)@.contains(x),
            final(self)@.to_multiset() =~= old(self)@.to_multiset().remove(r),
            forall|i: int| 0 <= i < old(self)@.len() ==> key_le(r, old(self)@[i]),
    {
        proof {
            assert forall|i: int| 0 <= i < old(self)@.len() implies key_le(
                old(self)@[0],
                old(self)@[i],
            ) by {
                lemma_root_le(old(self)@, i);
            }
        }
        let r = self.entries[0];
        let last = self.entries.len() - 1;
        let moved = self.entries[last];
        self.entries.set(0, moved);
        self.entries.pop();
        let n = self.entries.len();
        let ghost kept = self.entries@;
        proof {
            assert forall|x: Entry| self.entries@.contains(x) implies old(self)@.contains(x) by {
                let t = choose|t: int| 0 <= t < self.entries@.len() && self.entries@[t] == x;
                if t == 0 {
                    assert(old(self)@[last as int] == x);
                } else {
                    assert(old(self)@[t] == x);
                }
            }
            assert forall|x: Entry| old(self)@.contains(x) && x != r implies kept.contains(x) by {
                let t = choose|t: int| 0 <= t < old(self)@.len() && old(self)@[t] == x;
                if t == last as int {
                    assert(kept[0] == x);
                } else if t > 0 {
                    assert(kept[t] == x);
                }
            }
            assert(kept.to_multiset() =~= old(self)@.to_multiset().remove(r)) by {
                broadcast use vstd::seq_lib::group_to_multiset_ensures;

                let u = old(self)@.update(0, moved);
                lemma_update_to_multiset(old(self)@, 0, moved);
                if last == 0 {
                    assert(u =~= old(self)@);
                    assert(kept =~= u.remove(0));
                    assert(kept.to_multiset() =~= u.to_multiset().remove(u[0]));
                } else {
                    assert(kept =~= u.remove(last as int));
                    assert(kept.to_multiset() =~= u.to_multiset().remove(u[last as int]));
                    assert(u[last as int] == moved);
                    assert(u.to_multiset().remove(moved) =~= old(self)@.to_multiset().remove(
                        r,
                    ).insert(moved).remove(moved));
                    assert(old(self)@.to_multiset().remove(r).insert(moved).remove(moved)
                        =~= old(self)@.to_multiset().remove(r));
                }
            }
        }
        if n == 0 {
            return r;
        }
        let mut j: usize = 0;
        let mut sinking = true;
        while sinking
            invariant
                n == self.entries@.len(),
                n >= 1,
                j < n,
                forall|i: int|
                    1 <= i < n && hp(i) != j ==> key_le(self.entries@[hp(i)], #[trigger] self.entries@[i]),
                j > 0 ==> key_le(self.entries@[hp(j as int)], self.entries@[j as int]),
                j > 0 ==> forall|k: int|
                    1 <= k < n && hp(k) == j ==> key_le(
                        self.entries@[hp(j as int)],
                        #[trigger] self.entries@[k],
                    ),
                forall|x: Entry| self.entries@.contains(x) ==> old(self)@.contains(x),
                forall|x: Entry| kept.contains(x) ==> self.entries@.contains(x),
                self.entries@.to_multiset() =~= kept.to_multiset(),
                !sinking ==> forall|k: int|
                    1 <= k < n && hp(k) == j ==> key_le(
                        self.entries@[j as int],
                        #[trigger] self.entries@[k],
                    ),
            decreases n - j, (if sinking { 1int } else { 0int }),
        {
            let left = 2 * (j as u128) + 1;
            if left < n as u128 {
                let l = left as usize;
                let c = if l + 1 < n && key_lt(&self.entries[l + 1], &self.entries[l]) {
                    l + 1
                } else {
                    l
                };
                let a = self.entries[j];
                let b = self.entries[c];
                if key_lt(&b, &a) {
                    let ghost s = self.entries@;
                    self.entries.set(j, b);
                    self.entries.set(c, a);
                    proof {
                        let s2 = self.entries@;
                        assert(hp(c as int) == j);
                        assert forall|i: int|
                            1 <= i < n && hp(i) != c implies key_le(s2[hp(i)], #[trigger] s2[i]) by {
                            if i == c {
                            } else if hp(i) == j {
                                assert(key_le(s[c as int], s[i]));
                            } else if i == j {
                            }
                        }
                        assert(key_le(s2[hp(c as int)], s2[c as int]));
                        assert forall|k: int| 1 <= k < n && hp(k) == c implies key_le(
                            s2[hp(c as int)],
                            #[trigger] s2[k],
                        ) by {
                            assert(key_le(s[hp(k)], s[k]));
                        }
                        assert forall|x: Entry| s2.contains(x) implies old(self)@.contains(x) by {
                            let t = choose|t: int| 0 <= t < s2.len() && s2[t] == x;
                            if t == j {
                                assert(s[c as int] == x);
                            } else if t == c {
                                assert(s[j as int] == x);
                            } else {
                                assert(s[t] == x);
                            }
                        }
                        assert forall|x: Entry| s.contains(x) implies s2.contains(x) by {
                            let t = choose|t: int| 0 <= t < s.len() && s[t] == x;
                            if t == j {
                                assert(s2[c as int] == x);
                            } else if t == c {
                                assert(s2[j as int] == x);
                            } else {
                                assert(s2[t] == x);
                            }
                        }
                        lemma_swap_to_multiset(s, j as int, c as int);
                        assert(s2 =~= s.update(j as int, s[c as int]).update(c as int, s[j as int]));
                    }
                    j = c;
                } else {
                    sinking = false;
                }
            } else {
                sinking = false;
            }
        }
        proof {
            assert forall|x: Entry| old(self)@.contains(x) && x != r implies self.entries@.contains(
                x,
            ) by {
                assert(kept.contains(x));
            }
        }
        r
    }
}

fn key_lt(a: &Entry, b: &Entry) -> (r: bool)
    ensures
        r == !key_le(*b, *a),
{
    a.f < b.f || (a.f == b.f && a.idx < b.idx)
}

} // verus!
