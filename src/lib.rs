//! A bijective map between two key types, stored in two hopscotch hash
//! tables whose slots point at each other.
//!
//! Every left key sits within a fixed neighbourhood of its ideal slot in the
//! left table, and every right key likewise in the right table; each
//! occupied slot holds the index of its partner's slot in the other table,
//! so lookups and removals from either side take a bounded number of probes.
mod bitfield;
pub mod key;
mod table;

pub use key::BiKey;

use vstd::prelude::*;
use crate::bitfield::NEIGHBOURHOOD;
pub use crate::table::{dist, MAX_SLOTS};
use crate::table::Table;

verus! {

/// Slots of a map made by `new`.
pub const DEFAULT_SLOTS: usize = 32;

/// Pairs that fit in `slots` slots at the highest load this map allows,
/// ten in eleven.
pub open spec fn capacity_of(slots: nat) -> nat {
    slots * 10 / 11
}

/// What `m` maps to `l`, if anything.
pub open spec fn right_of<L, R>(m: Map<L, R>, l: L) -> Option<R> {
    if m.contains_key(l) {
        Some(m[l])
    } else {
        None
    }
}

/// The key that `m` maps to `r`, if any.
pub open spec fn left_of<L, R>(m: Map<L, R>, r: R) -> Option<L> {
    if exists|l: L| #[trigger] m.contains_key(l) && m[l] == r {
        Some(choose|l: L| #[trigger] m.contains_key(l) && m[l] == r)
    } else {
        None
    }
}

/// `m` without the pair whose right key is `r`.
pub open spec fn without_right<L, R>(m: Map<L, R>, r: R) -> Map<L, R> {
    match left_of(m, r) {
        Some(l) => m.remove(l),
        None => m,
    }
}

/// `m` after pairing `l` with `r`: the old partners of both are dropped.
pub open spec fn paired<L, R>(m: Map<L, R>, l: L, r: R) -> Map<L, R> {
    without_right(m.remove(l), r).insert(l, r)
}

/// Every pair of `a` is a pair of `b`.
pub open spec fn within<L, R>(a: Map<L, R>, b: Map<L, R>) -> bool {
    forall|k: L| #[trigger] a.contains_key(k) ==> b.contains_key(k) && a[k] == b[k]
}

/// No two left keys of `m` share a right key.
pub open spec fn is_bijection<L, R>(m: Map<L, R>) -> bool {
    forall|a: L, b: L|
        #[trigger] m.contains_key(a) && #[trigger] m.contains_key(b) && m[a] == m[b] ==> a == b
}

/// A one-to-one map between left keys `L` and right keys `R`.
#[verifier::reject_recursive_types(L)]
#[verifier::reject_recursive_types(R)]
pub struct BiMap<L, R> {
    left: Table<L>,
    right: Table<R>,
    len: usize,
    model: Ghost<Map<L, R>>,
}

impl<L: BiKey, R: BiKey> View for BiMap<L, R> {
    type V = Map<L, R>;

    closed spec fn view(&self) -> Map<L, R> {
        self.model@
    }
}

impl<L: BiKey, R: BiKey> BiMap<L, R> {
    /// Slots in each of the two tables.
    pub closed spec fn slots(&self) -> nat {
        self.left.n() as nat
    }

    /// The tables cannot double once more.
    pub open spec fn exhausted(&self) -> bool {
        self.slots() * 2 > MAX_SLOTS
    }

    #[verifier::opaque]
    pub closed spec fn well_formed(&self) -> bool {
        &&& self.left.wf()
        &&& self.right.wf()
        &&& self.left.n() == self.right.n()
        &&& self.left.backlinked(self.right.cross@)
        &&& self.right.backlinked(self.left.cross@)
        &&& self.model@.dom() == self.left.pos@.dom()
        &&& forall|l: L| #[trigger]
            self.model@.contains_key(l) ==> self.right.pos@.contains_key(self.model@[l])
                && self.left.xref(l) == self.right.pos@[self.model@[l]]
        &&& forall|r: R| #[trigger]
            self.right.pos@.contains_key(r) ==> self.left.occupied(self.right.xref(r))
                && self.model@[self.left.key_at(self.right.xref(r))] == r
        &&& self.model@.dom().finite()
        &&& self.len as nat == self.model@.len()
        &&& self.len as nat <= capacity_of(self.slots())
    }

    proof fn lemma_bijection(&self)
        requires
            self.well_formed(),
        ensures
            is_bijection(self@),
    {
        reveal(BiMap::well_formed);
        assert forall|a: L, b: L|
            #[trigger] self@.contains_key(a) && #[trigger] self@.contains_key(b) && self@[a]
                == self@[b] implies a == b by {
            assert(self.left.pos@.contains_key(a));
            assert(self.left.pos@.contains_key(b));
            assert(self.left.links_back(a, self.right.cross@));
            assert(self.left.links_back(b, self.right.cross@));
        }
    }

    proof fn lemma_shape(&self)
        requires
            self.well_formed(),
        ensures
            NEIGHBOURHOOD <= self.slots() <= MAX_SLOTS,
            self.left.keys@.len() == self.slots(),
            self.len as nat == self@.len(),
            self.len as nat <= capacity_of(self.slots()),
            self@.dom().finite(),
            is_bijection(self@),
    {
        reveal(BiMap::well_formed);
        self.lemma_bijection();
    }

    proof fn lemma_no_pairs(&self)
        requires
            self.well_formed(),
            forall|j: int| 0 <= j < self.slots() ==> !#[trigger] self.left.occupied(j),
        ensures
            forall|l: L| !#[trigger] self@.contains_key(l),
    {
        reveal(BiMap::well_formed);
        assert forall|l: L| !#[trigger] self@.contains_key(l) by {
            if self@.contains_key(l) {
                assert(self.left.pos@.contains_key(l));
                assert(self.left.occupied(self.left.pos@[l]));
            }
        }
    }

    /// An empty map with `n` slots in each table.
    fn with_slots(n: usize) -> (m: Self)
        requires
            NEIGHBOURHOOD <= n <= MAX_SLOTS,
        ensures
            m.well_formed(),
            m@ == Map::<L, R>::empty(),
            m.slots() == n,
    {
        reveal(BiMap::well_formed);
        BiMap { left: Table::empty(n), right: Table::empty(n), len: 0, model: Ghost(Map::empty()) }
    }

    /// An empty map with the default number of slots.
    pub fn new() -> (m: Self)
        ensures
            m.well_formed(),
            m@ == Map::<L, R>::empty(),
            capacity_of(m.slots()) >= DEFAULT_SLOTS,
    {
        Self::with_capacity(DEFAULT_SLOTS)
    }

    /// An empty map that holds at least `capacity` pairs before it grows.
    pub fn with_capacity(capacity: usize) -> (m: Self)
        requires
            capacity <= MAX_SLOTS / 2,
        ensures
            m.well_formed(),
            m@ == Map::<L, R>::empty(),
            capacity_of(m.slots()) >= capacity,
    {
        let reserved = capacity + (capacity + 9) / 10;
        let n = if reserved < NEIGHBOURHOOD {
            NEIGHBOURHOOD
        } else {
            reserved
        };
        assert(n * 10 / 11 >= capacity) by (nonlinear_arith)
            requires
                n >= capacity + (capacity + 9) / 10,
        ;
        Self::with_slots(n)
    }

    /// A lower bound on the pairs the map holds before it grows.
    pub fn capacity(&self) -> (r: usize)
        requires
            self.well_formed(),
        ensures
            r == capacity_of(self.slots()),
    {
        proof {
            self.lemma_shape();
        }
        self.left.keys.len() * 10 / 11
    }

    /// Takes out the pair whose left key sits in slot `i`.
    fn take_left_at(&mut self, i: usize) -> (r: (L, R))
        requires
            old(self).well_formed(),
            i < old(self).slots(),
            old(self).left.occupied(i as int),
        ensures
            final(self).well_formed(),
            final(self).slots() == old(self).slots(),
            r.0 == old(self).left.key_at(i as int),
            old(self)@.contains_key(r.0),
            r.1 == old(self)@[r.0],
            final(self)@ == old(self)@.remove(r.0),
            final(self).left.keys@ == old(self).left.keys@.update(i as int, None),
    {
        reveal(BiMap::well_formed);
        let (l, j) = self.left.take_at(i);
        proof {
            assert(old(self).left.pos@.contains_key(l));
            assert(old(self)@.contains_key(l));
        }
        let (r, _) = self.right.take_at(j);
        let ghost m = self.model@;
        self.model = Ghost(m.remove(l));
        self.len = self.len - 1;
        proof {
            let om = old(self).model@;
            old(self).lemma_bijection();
            assert(r == om[l]);
            assert(self.model@.dom() =~= self.left.pos@.dom());
            assert forall|q: L| #[trigger] self.model@.contains_key(q) implies self.right.pos@.contains_key(
                self.model@[q],
            ) && self.left.xref(q) == self.right.pos@[self.model@[q]] by {
                assert(om.contains_key(q));
                assert(om[q] != om[l]);
            }
            assert forall|q: R| #[trigger] self.right.pos@.contains_key(q) implies self.left.occupied(
                self.right.xref(q),
            ) && self.model@[self.left.key_at(self.right.xref(q))] == q by {
                assert(old(self).right.pos@.contains_key(q));
                assert(old(self).right.links_back(q, old(self).left.cross@));
                assert(old(self).right.links_back(om[l], old(self).left.cross@));
            }
            assert(self.left.backlinked(self.right.cross@));
            assert(self.right.backlinked(self.left.cross@));
        }
        (l, r)
    }

    /// Removes the pair of `left`, giving back its right key.
    pub fn remove_left(&mut self, left: &L) -> (r: Option<R>)
        requires
            old(self).well_formed(),
        ensures
            final(self).well_formed(),
            final(self).slots() == old(self).slots(),
            r == right_of(old(self)@, *left),
            final(self)@ == old(self)@.remove(*left),
    {
        reveal(BiMap::well_formed);
        match self.left.find(left) {
            None => {
                proof {
                    assert(self@ =~= self@.remove(*left));
                }
                None
            },
            Some(i) => {
                let (_, r) = self.take_left_at(i);
                Some(r)
            },
        }
    }

    /// Removes the pair of `right`, giving back its left key.
    pub fn remove_right(&mut self, right: &R) -> (r: Option<L>)
        requires
            old(self).well_formed(),
        ensures
            final(self).well_formed(),
            final(self).slots() == old(self).slots(),
            r == left_of(old(self)@, *right),
            final(self)@ == without_right(old(self)@, *right),
    {
        reveal(BiMap::well_formed);
        proof {
            self.lemma_bijection();
        }
        match self.right.find(right) {
            None => {
                proof {
                    assert forall|l: L| #[trigger] self@.contains_key(l) implies self@[l] != *right by {
                        assert(self.right.pos@.contains_key(self@[l]));
                    }
                }
                None
            },
            Some(j) => {
                let i = self.right.cross[j];
                proof {
                    assert(self.right.pos@.contains_key(*right));
                    assert(self.right.links_back(*right, self.left.cross@));
                }
                let (l, _) = self.take_left_at(i);
                proof {
                    let om = old(self)@;
                    assert(om.contains_key(l) && om[l] == *right);
                    let c = choose|q: L| #[trigger] om.contains_key(q) && om[q] == *right;
                    assert(c == l);
                }
                Some(l)
            },
        }
    }

    /// One attempt to pair `left` with `right`, neither of which the map
    /// holds yet, at the present size; hands both back when either side
    /// finds no slot.
    #[verifier::rlimit(100)]
    #[verifier::spinoff_prover]
    fn try_place(&mut self, left: L, right: R) -> (res: Result<(), (L, R)>)
        requires
            old(self).well_formed(),
            !old(self)@.contains_key(left),
            left_of(old(self)@, right) is None,
            old(self).len < capacity_of(old(self).slots()),
        ensures
            final(self).well_formed(),
            final(self).slots() == old(self).slots(),
            res is Ok ==> final(self)@ == old(self)@.insert(left, right),
            res matches Err(q) ==> q == (left, right) && final(self)@ == old(self)@,
    {
        let ghost gl = left;
        let ghost gr = right;
        proof {
            assert({
                &&& self.left.wf()
                &&& self.right.wf()
                &&& self.left.n() == self.right.n()
                &&& self.left.backlinked(self.right.cross@)
                &&& self.right.backlinked(self.left.cross@)
                &&& !self.left.pos@.contains_key(left)
                &&& !self.right.pos@.contains_key(right)
            }) by {
                reveal(BiMap::well_formed);
                if self.right.pos@.contains_key(right) {
                    let q = self.left.key_at(self.right.xref(right));
                    assert(self@.contains_key(q) && self@[q] == right);
                }
            }
        }
        let ghost p = *self;
        match self.left.place(&mut self.right, left, 0) {
            Err(l) => {
                proof {
                    assert(self.model@.dom() =~= self.left.pos@.dom()) by {
                        reveal(BiMap::well_formed);
                    }
                    assert forall|r: R| #[trigger]
                        self.right.pos@.contains_key(r) implies self.left.occupied(
                        self.right.xref(r),
                    ) && self.model@[self.left.key_at(self.right.xref(r))] == r by {
                        reveal(BiMap::well_formed);
                        assert(p.right.pos@.contains_key(r));
                        let q = p.left.key_at(p.right.xref(r));
                        assert(p.left.pos@.contains_key(q));
                        assert(p.left.xref(q) == p.right.pos@[r]);
                        assert(self.left.links_back(q, self.right.cross@));
                    }
                    assert forall|r: R| #[trigger]
                        self.right.pos@.contains_key(r) implies self.right.links_back(
                        r,
                        self.left.cross@,
                    ) by {
                        reveal(BiMap::well_formed);
                        let q = p.left.key_at(p.right.xref(r));
                        assert(p.left.pos@.contains_key(q));
                        assert(self.left.links_back(q, self.right.cross@));
                    }
                }
                proof {
                    assert(self.well_formed()) by {
                        reveal(BiMap::well_formed);
                    }
                }
                Err((l, right))
            },
            Ok(el) => {
                let ghost a = *self;
                proof {
                    assert forall|r: R| #[trigger]
                        a.right.pos@.contains_key(r) implies a.right.links_back(
                        r,
                        a.left.cross@,
                    ) && a.right.xref(r) == a.left.pos@[p.left.key_at(p.right.xref(r))]
                    by {
                        reveal(BiMap::well_formed);
                        let q = p.left.key_at(p.right.xref(r));
                        assert(p.right.pos@.contains_key(r));
                        assert(p.left.pos@.contains_key(q));
                        assert(p.model@.contains_key(q));
                        assert(p.model@[q] == r);
                        assert(p.left.xref(q) == p.right.pos@[r]);
                        assert(a.left.links_back(q, a.right.cross@));
                        assert(a.left.xref(q) == p.left.xref(q));
                        assert(a.right.pos@ == p.right.pos@);
                        assert(a.right.cross@[a.left.xref(q)] == a.left.pos@[q]);
                        assert(a.right.xref(r) == a.left.pos@[q]);
                        assert(a.left.pos@.contains_key(q));
                        assert(a.left.cross@[a.left.pos@[q]] == a.left.xref(q));
                    }
                }
                self.pair_right(right, el, Ghost(p), Ghost(gl))
            },
        }

}

    /// Second half of `try_place`: the left key already sits in slot `el`
    /// of the left table; places `right` and links the two, or takes the
    /// left key back out.
    #[verifier::rlimit(100)]
    #[verifier::spinoff_prover]
    fn pair_right(&mut self, right: R, el: usize, Ghost(p): Ghost<Self>, Ghost(gl): Ghost<L>) -> (res:
        Result<(), (L, R)>)
        requires
            p.well_formed(),
            !p@.contains_key(gl),
            !p.right.pos@.contains_key(right),
            p.len < capacity_of(p.slots()),
            old(self).model@ == p.model@,
            old(self).len == p.len,
            old(self).left.wf(),
            old(self).right.wf(),
            old(self).left.n() == p.left.n(),
            old(self).right.n() == p.right.n(),
            old(self).left.pos@.dom() == p.left.pos@.dom().insert(gl),
            old(self).left.pos@[gl] == el,
            old(self).right.pos@ == p.right.pos@,
            forall|q: L| #[trigger]
                p.left.pos@.contains_key(q) ==> old(self).left.xref(q) == p.left.xref(q)
                    && old(self).left.links_back(q, old(self).right.cross@),
            forall|r: R| #[trigger]
                p.right.pos@.contains_key(r) ==> old(self).right.links_back(r, old(self).left.cross@)
                    && old(self).right.xref(r) == old(self).left.pos@[p.left.key_at(p.right.xref(r))],
        ensures
            final(self).well_formed(),
            final(self).slots() == p.slots(),
            res is Ok ==> final(self)@ == p@.insert(gl, right),
            res matches Err(q) ==> q == (gl, right) && final(self)@ == p@,
    {
        let ghost gr = right;
        let ghost a = *self;
        proof {
            assert(p.left.wf() && p.right.wf() && p.left.n() == p.right.n() && p.model@.dom()
                == p.left.pos@.dom()) by {
                reveal(BiMap::well_formed);
            }
            assert(self.right.backlinked(self.left.cross@));
            assert(self.right.cross@.len() == self.right.n());
        }
        match self.right.place(&mut self.left, right, el) {
            Ok(er) => {
                let ghost b = *self;
                proof {
                    assert(self.left.pos@.contains_key(gl));
                    assert(self.right.pos@.contains_key(gr));
                }
                self.left.cross.set(el, er);
                self.model = Ghost(self.model@.insert(gl, gr));
                self.len = self.len + 1;
                proof {
                    assert(self.model@.dom() =~= self.left.pos@.dom()) by {
                        reveal(BiMap::well_formed);
                    }
                    assert forall|l: L| #[trigger]
                        self.model@.contains_key(l) implies self.right.pos@.contains_key(
                        self.model@[l],
                    ) && self.left.xref(l) == self.right.pos@[self.model@[l]]
                        && self.left.links_back(l, self.right.cross@) by {
                            reveal(BiMap::well_formed);
                        if l != gl {
                            let r = p.model@[l];
                            assert(p.right.pos@.contains_key(r));
                            assert(p.left.links_back(l, p.right.cross@));
                            assert(p.right.xref(r) == p.left.pos@[l]);
                            assert(a.right.pos@.contains_key(r));
                            assert(b.right.xref(r) == a.right.xref(r));
                            assert(a.right.xref(r) == a.left.pos@[l]);
                            assert(p.left.key_at(p.right.xref(r)) == l);
                            assert(b.left.cross@[b.right.xref(r)] == b.right.pos@[r]);
                            assert(self.left.cross@[a.left.pos@[l]] == b.right.pos@[r]);
                            assert(self.left.xref(l) == self.right.pos@[r]);
                            assert(self.right.cross@[self.right.pos@[r]] == a.left.pos@[l]);
                            assert(a.left.pos@[l] != el);
                            assert(p.left.pos@.contains_key(l));
                            assert(a.left.links_back(l, a.right.cross@));
                            assert(b.right.links_back(r, b.left.cross@));
                        }
                    }
                    assert forall|r: R| #[trigger]
                        self.right.pos@.contains_key(r) implies self.left.occupied(
                        self.right.xref(r),
                    ) && self.model@[self.left.key_at(self.right.xref(r))] == r
                        && self.right.links_back(r, self.left.cross@) by {
                            reveal(BiMap::well_formed);
                        if r != gr {
                            assert(p.right.pos@.contains_key(r));
                            let q = p.left.key_at(p.right.xref(r));
                            assert(p.left.pos@.contains_key(q));
                            assert(q != gl);
                            assert(a.left.pos@.contains_key(q));
                            assert(a.left.pos@.contains_key(gl));
                            assert(a.right.pos@.contains_key(r));
                            assert(b.right.xref(r) == a.right.xref(r));
                            assert(a.right.xref(r) == a.left.pos@[q]);
                            assert(a.left.pos@[q] != el);
                            assert(b.right.links_back(r, b.left.cross@));
                        }
                    }
                    assert(self.model@.dom().len() == p.model@.dom().len() + 1) by {
                        reveal(BiMap::well_formed);
                    }
                    assert(self.well_formed()) by {
                        reveal(BiMap::well_formed);
                    }
                }
                Ok(())
            },
            Err(r) => {
                let ghost b = *self;
                proof {
                    assert(self.left.pos@.contains_key(gl));
                }
                let (l, _) = self.left.take_at(el);
                proof {
                    assert(self.model@.dom() =~= self.left.pos@.dom()) by {
                        reveal(BiMap::well_formed);
                    }
                    assert forall|l: L| #[trigger]
                        self.model@.contains_key(l) implies self.right.pos@.contains_key(
                        self.model@[l],
                    ) && self.left.xref(l) == self.right.pos@[self.model@[l]]
                        && self.left.links_back(l, self.right.cross@) by {
                            reveal(BiMap::well_formed);
                        let r = p.model@[l];
                        assert(p.right.pos@.contains_key(r));
                        assert(a.left.pos@[l] != el);
                        assert(p.left.pos@.contains_key(l));
                        assert(a.left.links_back(l, a.right.cross@));
                        assert(b.right.links_back(r, b.left.cross@));
                    }
                    assert forall|r: R| #[trigger]
                        self.right.pos@.contains_key(r) implies self.left.occupied(
                        self.right.xref(r),
                    ) && self.model@[self.left.key_at(self.right.xref(r))] == r
                        && self.right.links_back(r, self.left.cross@) by {
                            reveal(BiMap::well_formed);
                        assert(p.right.pos@.contains_key(r));
                        let q = p.left.key_at(p.right.xref(r));
                        assert(p.left.pos@.contains_key(q));
                        assert(a.left.pos@[q] != el);
                        assert(b.right.links_back(r, b.left.cross@));
                    }
                }
                proof {
                    assert(self.well_formed()) by {
                        reveal(BiMap::well_formed);
                    }
                }
                Err((l, r))
            },
        }
    }

    /// Pairs `left` with `right`, neither of which the map holds yet. Grows
    /// the tables while the load would pass its bound or no free slot can be
    /// brought into a neighbourhood. Gives false, having dropped the pair,
    /// only once the tables cannot double again.
    fn insert_fresh(&mut self, left: L, right: R) -> (ok: bool)
        requires
            old(self).well_formed(),
            !old(self)@.contains_key(left),
            left_of(old(self)@, right) is None,
        ensures
            final(self).well_formed(),
            final(self).slots() >= old(self).slots(),
            ok ==> final(self)@ == old(self)@.insert(left, right),
            !ok ==> within(final(self)@, old(self)@) && final(self).exhausted(),
        decreases MAX_SLOTS - old(self).slots(), 1nat,
    {
        let ghost gl = left;
        let ghost gr = right;
        let mut lk = left;
        let mut rk = right;
        loop
            invariant
                self.well_formed(),
                self.slots() >= old(self).slots(),
                self@ == old(self)@,
                lk == gl,
                rk == gr,
                gl == left,
                gr == right,
                !self@.contains_key(gl),
                left_of(self@, gr) is None,
            decreases MAX_SLOTS - self.slots(),
        {
            proof {
                self.lemma_shape();
            }
            if self.len < self.capacity() {
                match self.try_place(lk, rk) {
                    Ok(()) => {
                        assert(self@ == old(self)@.insert(gl, gr));
                        return true;
                    },
                    Err((l, r)) => {
                        lk = l;
                        rk = r;
                    },
                }
            }
            if self.left.keys.len() > MAX_SLOTS / 2 {
                return false;
            }
            let grown = self.grow();
            if !grown {
                return false;
            }
            proof {
                self.lemma_shape();
            }
        }
    }

    /// Moves every pair into tables of twice as many slots.
    #[verifier::rlimit(100)]
    fn grow(&mut self) -> (ok: bool)
        requires
            old(self).well_formed(),
            old(self).slots() * 2 <= MAX_SLOTS,
        ensures
            final(self).well_formed(),
            final(self).slots() > old(self).slots(),
            ok ==> final(self)@ == old(self)@,
            !ok ==> within(final(self)@, old(self)@) && final(self).exhausted(),
        decreases MAX_SLOTS - old(self).slots(), 0nat,
    {
        proof {
            old(self).lemma_shape();
        }
        let n = self.left.keys.len();
        let mut fresh: BiMap<L, R> = BiMap::with_slots(2 * n);
        let mut ok = true;
        let mut i: usize = 0;
        while i < n
            invariant
                self.well_formed(),
                self.slots() == n,
                n == old(self).slots(),
                n * 2 <= MAX_SLOTS,
                i <= n,
                forall|j: int| 0 <= j < i ==> !#[trigger] self.left.occupied(j),
                fresh.well_formed(),
                fresh.slots() >= 2 * n,
                within(self@, old(self)@),
                within(fresh@, old(self)@),
                self@.dom().disjoint(fresh@.dom()),
                ok ==> forall|l: L| #[trigger]
                    old(self)@.contains_key(l) ==> self@.contains_key(l) || fresh@.contains_key(l),
                !ok ==> fresh.exhausted(),
                is_bijection(old(self)@),
            decreases n - i,
        {
            proof {
                self.lemma_shape();
                fresh.lemma_shape();
            }
            if self.left.keys[i].is_some() {
                let ghost mid = *self;
                let (l, r) = self.take_left_at(i);
                proof {
                    assert(!fresh@.contains_key(l));
                    assert(left_of(fresh@, r) is None) by {
                        if exists|q: L| #[trigger] fresh@.contains_key(q) && fresh@[q] == r {
                            let q = choose|q: L| #[trigger] fresh@.contains_key(q) && fresh@[q] == r;
                            assert(old(self)@.contains_key(q) && old(self)@.contains_key(l));
                        }
                    }
                }
                proof {
                    fresh.lemma_shape();
                }
                let ghost before = fresh@;
                let done = fresh.insert_fresh(l, r);
                if !done {
                    ok = false;
                }
                proof {
                    assert(mid@.contains_key(l));
                    assert(mid@.dom().contains(l));
                    assert(mid@[l] == old(self)@[l]);
                    assert(old(self)@.contains_key(l) && old(self)@[l] == r);
                    assert forall|q: L| #[trigger] fresh@.contains_key(q) implies old(self)@.contains_key(q)
                        && fresh@[q] == old(self)@[q] by {
                        if q != l || !done {
                            assert(before.contains_key(q));
                        }
                    }
                    assert(within(fresh@, old(self)@));
                    assert forall|j: int| 0 <= j <= i implies !#[trigger] self.left.occupied(j) by {
                        if j < i {
                            assert(!mid.left.occupied(j));
                        }
                    }
                    assert(self@.dom().disjoint(fresh@.dom()));
                    assert forall|q: L| #[trigger] old(self)@.contains_key(q) && ok implies self@.contains_key(q)
                        || fresh@.contains_key(q) by {
                        if q != l {
                            assert(mid@.contains_key(q) || before.contains_key(q));
                        }
                    }
                }
            }
            i = i + 1;
        }
        proof {
            self.lemma_no_pairs();
            if ok {
                assert forall|q: L| #[trigger] old(self)@.contains_key(q) implies fresh@.contains_key(q) by {
                    assert(!self@.contains_key(q));
                }
                assert(fresh@ =~= old(self)@);
            }
        }
        *self = fresh;
        ok
    }

    /// Pairs `left` with `right`. Gives back the right key `left` had, and
    /// the left key `right` had once that first pair is gone; both old
    /// partners leave the map. The tables double as often as the load or a
    /// crowded neighbourhood asks; the new pair is stored unless they can no
    /// longer double within `MAX_SLOTS` slots (`exhausted`).
    #[verifier::rlimit(100)]
    pub fn insert(&mut self, left: L, right: R) -> (r: (Option<R>, Option<L>))
        requires
            old(self).well_formed(),
        ensures
            final(self).well_formed(),
            r.0 == right_of(old(self)@, left),
            r.1 == left_of(old(self)@.remove(left), right),
            within(final(self)@, paired(old(self)@, left, right)),
            final(self)@ == paired(old(self)@, left, right) || final(self).exhausted(),
    {
        let a = self.remove_left(&left);
        let ghost mid = *self;
        let b = self.remove_right(&right);
        proof {
            mid.lemma_bijection();
            let m1 = old(self)@.remove(left);
            assert(left_of(self@, right) is None) by {
                if exists|q: L| #[trigger] self@.contains_key(q) && self@[q] == right {
                    let q = choose|q: L| #[trigger] self@.contains_key(q) && self@[q] == right;
                    assert(m1.contains_key(q) && m1[q] == right);
                    if let Some(l0) = left_of(m1, right) {
                        assert(m1.contains_key(l0) && m1[l0] == right);
                    }
                }
            }
        }
        self.insert_fresh(left, right);
        (a, b)
    }

    /// Key in slot `i` of the left table, if any.
    pub closed spec fn left_slot(&self, i: int) -> Option<L> {
        self.left.keys@[i]
    }

    /// Key in slot `i` of the right table, if any.
    pub closed spec fn right_slot(&self, i: int) -> Option<R> {
        self.right.keys@[i]
    }

    /// Every stored key lies fewer than `NEIGHBOURHOOD` slots, going
    /// forward around the table, from its ideal slot, on both sides.
    pub proof fn neighbourhood_bound(&self)
        requires
            self.well_formed(),
        ensures
            forall|i: int|
                0 <= i < self.slots() && #[trigger] self.left_slot(i) is Some ==> dist(
                    (self.left_slot(i)->Some_0.digest() % (self.slots() as u64)) as int,
                    i,
                    self.slots() as int,
                ) < NEIGHBOURHOOD,
            forall|i: int|
                0 <= i < self.slots() && #[trigger] self.right_slot(i) is Some ==> dist(
                    (self.right_slot(i)->Some_0.digest() % (self.slots() as u64)) as int,
                    i,
                    self.slots() as int,
                ) < NEIGHBOURHOOD,
    {
        reveal(BiMap::well_formed);
    }

    /// The map stays one-to-one, and never holds more pairs than its
    /// capacity, whatever was inserted or removed before.
    pub proof fn load_bound(&self)
        requires
            self.well_formed(),
        ensures
            is_bijection(self@),
            self@.dom().finite(),
            self@.len() <= capacity_of(self.slots()),
    {
        self.lemma_shape();
    }

    /// The pairs of the map, by reference, in the order of the left table's
    /// slots: each pair once.
    #[verifier::rlimit(50)]
    pub fn pairs(&self) -> (v: Vec<(&L, &R)>)
        requires
            self.well_formed(),
        ensures
            forall|k: int|
                0 <= k < v@.len() ==> self@.contains_key(*(#[trigger] v@[k]).0) && self@[*v@[k].0]
                    == *v@[k].1,
            forall|k1: int, k2: int|
                0 <= k1 < k2 < v@.len() ==> *(#[trigger] v@[k1]).0 != *(#[trigger] v@[k2]).0,
            forall|l: L| #[trigger]
                self@.contains_key(l) ==> exists|k: int| 0 <= k < v@.len() && *(#[trigger] v@[k]).0 == l,
    {
        let n = self.left.keys.len();
        let mut v: Vec<(&L, &R)> = Vec::new();
        let mut i: usize = 0;
        proof {
            assert(self.left.cross@.len() == n && forall|l: L| #[trigger]
                self@.contains_key(l) ==> self.left.pos@.contains_key(l) && 0 <= self.left.pos@[l]
                    < n && self.left.keys@[self.left.pos@[l]] == Some(l)) by {
                reveal(BiMap::well_formed);
            }
        }
        while i < n
            invariant
                self.well_formed(),
                n == self.left.n(),
                self.left.cross@.len() == n,
                forall|l: L| #[trigger]
                    self@.contains_key(l) ==> self.left.pos@.contains_key(l) && 0 <= self.left.pos@[l]
                        < n && self.left.keys@[self.left.pos@[l]] == Some(l),
                i <= n,
                forall|k: int|
                    0 <= k < v@.len() ==> self@.contains_key(*(#[trigger] v@[k]).0) && self@[*v@[k].0]
                        == *v@[k].1 && self.left.pos@[*v@[k].0] < i,
                forall|k1: int, k2: int|
                    0 <= k1 < k2 < v@.len() ==> self.left.pos@[*(#[trigger] v@[k1]).0]
                        < self.left.pos@[*(#[trigger] v@[k2]).0],
                forall|l: L| #[trigger]
                    self@.contains_key(l) && self.left.pos@[l] < i ==> exists|k: int|
                        0 <= k < v@.len() && *(#[trigger] v@[k]).0 == l,
            decreases n - i,
        {
            match &self.left.keys[i] {
                Some(l) => {
                    let j = self.left.cross[i];
                    proof {
                        assert(self.left.pos@.contains_key(*l) && self.left.pos@[*l] == i
                            && self@.contains_key(*l) && j < self.right.keys@.len()
                            && self.right.keys@[j as int] == Some(self@[*l])) by {
                            reveal(BiMap::well_formed);
                            assert(self.left.pos@.contains_key(*l));
                            assert(self.right.pos@.contains_key(self@[*l]));
                        }
                    }
                    match &self.right.keys[j] {
                        Some(r) => {
                            let ghost pre = v@;
                            v.push((l, r));
                            proof {
                                assert forall|q: L| #[trigger]
                                    self@.contains_key(q) && self.left.pos@[q] < i + 1 implies exists|k: int|
                                    0 <= k < v@.len() && *(#[trigger] v@[k]).0 == q by {
                                    if self.left.pos@[q] == i {
                                        assert(*v@[pre.len() as int].0 == q);
                                    } else {
                                        let k = choose|k: int| 0 <= k < pre.len() && *(#[trigger] pre[k]).0 == q;
                                        assert(*v@[k].0 == q);
                                    }
                                }
                            }
                        },
                        None => {},
                    }
                },
                None => {},
            }
            i = i + 1;
        }
        proof {
            assert forall|k1: int, k2: int|
                0 <= k1 < k2 < v@.len() implies *(#[trigger] v@[k1]).0 != *(#[trigger] v@[k2]).0 by {
                assert(self.left.pos@[*v@[k1].0] < self.left.pos@[*v@[k2].0]);
            }
            assert forall|l: L| #[trigger] self@.contains_key(l) implies exists|k: int|
                0 <= k < v@.len() && *(#[trigger] v@[k]).0 == l by {
                assert(self.left.pos@.contains_key(l) && self.left.pos@[l] < n) by {
                    reveal(BiMap::well_formed);
                }
            }
        }
        v
    }

    /// Empties the map into its pairs, in the order of the left table's
    /// slots: each pair once.
    pub fn into_pairs(self) -> (v: Vec<(L, R)>)
        requires
            self.well_formed(),
        ensures
            forall|k: int|
                0 <= k < v@.len() ==> self@.contains_key((#[trigger] v@[k]).0) && self@[v@[k].0]
                    == v@[k].1,
            forall|k1: int, k2: int|
                0 <= k1 < k2 < v@.len() ==> (#[trigger] v@[k1]).0 != (#[trigger] v@[k2]).0,
            forall|l: L| #[trigger]
                self@.contains_key(l) ==> exists|k: int| 0 <= k < v@.len() && (#[trigger] v@[k]).0 == l,
    {
        let ghost orig = self@;
        let mut rest = self;
        proof {
            rest.lemma_shape();
        }
        let n = rest.left.keys.len();
        let mut v: Vec<(L, R)> = Vec::new();
        let mut i: usize = 0;
        while i < n
            invariant
                rest.well_formed(),
                rest.slots() == n,
                i <= n,
                forall|j: int| 0 <= j < i ==> !#[trigger] rest.left.occupied(j),
                within(rest@, orig),
                forall|k: int|
                    0 <= k < v@.len() ==> orig.contains_key((#[trigger] v@[k]).0) && orig[v@[k].0]
                        == v@[k].1 && !rest@.contains_key(v@[k].0),
                forall|k1: int, k2: int|
                    0 <= k1 < k2 < v@.len() ==> (#[trigger] v@[k1]).0 != (#[trigger] v@[k2]).0,
                forall|l: L| #[trigger]
                    orig.contains_key(l) ==> rest@.contains_key(l) || exists|k: int|
                        0 <= k < v@.len() && (#[trigger] v@[k]).0 == l,
            decreases n - i,
        {
            proof {
                rest.lemma_shape();
            }
            if rest.left.keys[i].is_some() {
                let ghost mid = rest;
                let ghost pre = v@;
                let (l, r) = rest.take_left_at(i);
                v.push((l, r));
                proof {
                    assert(mid@.contains_key(l));
                    assert forall|q: L| #[trigger] orig.contains_key(q) implies rest@.contains_key(q)
                        || exists|k: int| 0 <= k < v@.len() && (#[trigger] v@[k]).0 == q by {
                        if q == l {
                            assert(v@[pre.len() as int].0 == q);
                        } else if !mid@.contains_key(q) {
                            let k = choose|k: int| 0 <= k < pre.len() && (#[trigger] pre[k]).0 == q;
                            assert(v@[k].0 == q);
                        }
                    }
                    assert forall|k1: int, k2: int|
                        0 <= k1 < k2 < v@.len() implies (#[trigger] v@[k1]).0 != (#[trigger] v@[k2]).0 by {
                        if k2 == pre.len() {
                            assert(!mid@.contains_key(pre[k1].0));
                        } else {
                            assert(pre[k1].0 != pre[k2].0);
                        }
                    }
                    assert forall|j: int| 0 <= j <= i implies !#[trigger] rest.left.occupied(j) by {
                        if j < i {
                            assert(!mid.left.occupied(j));
                        }
                    }
                }
            }
            i = i + 1;
        }
        proof {
            rest.lemma_no_pairs();
        }
        v
    }
}

} // verus!

verus! {

/// Pairing two keys keeps a map one-to-one.
pub proof fn paired_is_bijection<L, R>(m: Map<L, R>, l: L, r: R)
    requires
        is_bijection(m),
    ensures
        is_bijection(paired(m, l, r)),
        paired(m, l, r).contains_key(l),
        paired(m, l, r)[l] == r,
{
    let m1 = m.remove(l);
    let m2 = without_right(m1, r);
    let m3 = m2.insert(l, r);
    assert forall|a: L, b: L|
        #[trigger] m3.contains_key(a) && #[trigger] m3.contains_key(b) && m3[a] == m3[b] implies a
        == b by {
        if a != l && b != l {
            assert(m.contains_key(a) && m.contains_key(b));
        } else if a != b {
            let o = if a == l { b } else { a };
            assert(m1.contains_key(o) && m1[o] == r);
            let w = choose|q: L| #[trigger] m1.contains_key(q) && m1[q] == r;
            assert(m.contains_key(w) && m.contains_key(o));
        }
    }
}

/// After `l` is paired with `r`, removing `l` gives `r` back, and removing
/// `r` gives `l` back.
pub proof fn pairing_round_trip<L, R>(m: Map<L, R>, l: L, r: R)
    requires
        is_bijection(m),
    ensures
        right_of(paired(m, l, r), l) == Some(r),
        left_of(paired(m, l, r), r) == Some(l),
        paired(m, l, r).remove(l) == without_right(paired(m, l, r), r),
{
    paired_is_bijection(m, l, r);
    let p = paired(m, l, r);
    assert(p.contains_key(l) && p[l] == r);
    let w = choose|q: L| #[trigger] p.contains_key(q) && p[q] == r;
    assert(w == l);
}

/// Pairing `l` with `r1` and then with `r2` hands `r1` back from the second
/// pairing and drops it: afterwards `r1` has no partner and `l` has `r2`.
pub proof fn overwrite_orphans<L, R>(m: Map<L, R>, l: L, r1: R, r2: R)
    requires
        is_bijection(m),
        r1 != r2,
        left_of(m, r2) is None,
    ensures
        right_of(paired(m, l, r1), l) == Some(r1),
        left_of(paired(m, l, r1).remove(l), r2) is None,
        left_of(paired(paired(m, l, r1), l, r2), r1) is None,
        right_of(paired(paired(m, l, r1), l, r2), l) == Some(r2),
{
    paired_is_bijection(m, l, r1);
    let m1 = paired(m, l, r1);
    paired_is_bijection(m1, l, r2);
    let m2 = paired(m1, l, r2);
    assert(!exists|q: L| #[trigger] m1.remove(l).contains_key(q) && m1.remove(l)[q] == r2) by {
        if exists|q: L| #[trigger] m1.remove(l).contains_key(q) && m1.remove(l)[q] == r2 {
            let q = choose|q: L| #[trigger] m1.remove(l).contains_key(q) && m1.remove(l)[q] == r2;
            assert(m.contains_key(q) && m[q] == r2);
        }
    }
    assert(m1.remove(l) =~= without_right(m1.remove(l), r2));
    assert(!exists|q: L| #[trigger] m2.contains_key(q) && m2[q] == r1) by {
        if exists|q: L| #[trigger] m2.contains_key(q) && m2[q] == r1 {
            let q = choose|q: L| #[trigger] m2.contains_key(q) && m2[q] == r1;
            assert(q != l);
            assert(m1.contains_key(q) && m1[q] == r1);
            assert(m1.contains_key(l) && m1[l] == r1);
        }
    }
}

/// A new map holds no pairs: removing any key from either side finds
/// nothing.
pub proof fn empty_has_no_pairs<L, R>(l: L, r: R)
    ensures
        right_of(Map::<L, R>::empty(), l) is None,
        left_of(Map::<L, R>::empty(), r) is None,
{
}

} // verus!
