//! One hopscotch table: a ring of slots, each with an optional key, the
//! index of its partner in the other table, and a neighbourhood bit-set.
use vstd::prelude::*;
use crate::bitfield::{
    clear_bit, empty_field, has_bit, set_bit, test_bit, BitField, NEIGHBOURHOOD,
};
use crate::key::BiKey;

verus! {

/// Largest number of slots a table may have.
pub const MAX_SLOTS: usize = usize::MAX / 64;

/// `h + d` around a ring of `n` slots, for `h < n` and `d <= n`.
pub open spec fn wrap(h: int, d: int, n: int) -> int {
    if h + d < n {
        h + d
    } else {
        h + d - n
    }
}

/// Distance from slot `h` forward to slot `p` around a ring of `n` slots.
pub open spec fn dist(h: int, p: int, n: int) -> int {
    if p >= h {
        p - h
    } else {
        p + n - h
    }
}

#[verifier::reject_recursive_types(K)]
pub struct Table<K> {
    pub keys: Vec<Option<K>>,
    pub cross: Vec<usize>,
    pub hops: Vec<BitField>,
    /// Slot of each stored key.
    pub pos: Ghost<Map<K, int>>,
}

impl<K: BiKey> Table<K> {
    pub open spec fn n(&self) -> int {
        self.keys@.len() as int
    }

    /// Ideal slot of `k`.
    pub open spec fn home(&self, k: K) -> int {
        (k.digest() % (self.n() as u64)) as int
    }

    pub open spec fn occupied(&self, i: int) -> bool {
        self.keys@[i] is Some
    }

    pub open spec fn key_at(&self, i: int) -> K {
        self.keys@[i]->Some_0
    }

    /// Partner slot of stored key `k`.
    pub open spec fn xref(&self, k: K) -> int {
        self.cross@[self.pos@[k]] as int
    }

    pub open spec fn wf(&self) -> bool {
        &&& NEIGHBOURHOOD <= self.n() <= MAX_SLOTS
        &&& self.cross@.len() == self.n()
        &&& self.hops@.len() == self.n()
        &&& forall|i: int|
            0 <= i < self.n() && #[trigger] self.keys@[i] is Some ==> {
                let k = self.keys@[i]->Some_0;
                &&& self.pos@.contains_key(k)
                &&& self.pos@[k] == i
                &&& dist(self.home(k), i, self.n()) < NEIGHBOURHOOD
                &&& has_bit(self.hops@[self.home(k)], dist(self.home(k), i, self.n()))
            }
        &&& forall|k: K| #[trigger]
            self.pos@.contains_key(k) ==> 0 <= self.pos@[k] < self.n() && self.keys@[self.pos@[k]]
                == Some(k)
        &&& forall|h: int, d: int|
            0 <= h < self.n() && #[trigger] has_bit(self.hops@[h], d) ==> {
                let p = wrap(h, d, self.n());
                &&& self.keys@[p] is Some
                &&& self.home(self.keys@[p]->Some_0) == h
            }
    }

    /// Stored key `q` points at a slot of the other table whose own partner
    /// index, in `oc`, points back at `q`.
    pub open spec fn links_back(&self, q: K, oc: Seq<usize>) -> bool {
        &&& 0 <= self.xref(q) < oc.len()
        &&& oc[self.xref(q)] as int == self.pos@[q]
    }

    pub open spec fn backlinked(&self, oc: Seq<usize>) -> bool {
        forall|q: K| #[trigger] self.pos@.contains_key(q) ==> self.links_back(q, oc)
    }

    /// Slot `j` of the other table is the partner of some stored key.
    pub open spec fn is_xref(&self, j: int) -> bool {
        exists|q: K| #[trigger] self.pos@.contains_key(q) && self.xref(q) == j
    }

    /// A table of `n` empty slots.
    pub fn empty(n: usize) -> (t: Self)
        requires
            NEIGHBOURHOOD <= n <= MAX_SLOTS,
        ensures
            t.wf(),
            t.n() == n,
            t.pos@ == Map::<K, int>::empty(),
            forall|i: int| 0 <= i < n ==> !(#[trigger] t.occupied(i)),
    {
        let mut keys: Vec<Option<K>> = Vec::new();
        let mut cross: Vec<usize> = Vec::new();
        let mut hops: Vec<BitField> = Vec::new();
        let mut i: usize = 0;
        while i < n
            invariant
                i <= n,
                keys@.len() == i,
                cross@.len() == i,
                hops@.len() == i,
                forall|j: int| 0 <= j < i ==> keys@[j] is None,
                forall|j: int, d: int| 0 <= j < i ==> !#[trigger] has_bit(hops@[j], d),
            decreases n - i,
        {
            keys.push(None);
            cross.push(0);
            hops.push(empty_field());
            i = i + 1;
        }
        Table { keys, cross, hops, pos: Ghost(Map::empty()) }
    }

    /// Ideal slot of `k`, computed.
    pub fn home_of(&self, k: &K) -> (h: usize)
        requires
            self.wf(),
        ensures
            h == self.home(*k),
            h < self.n(),
    {
        (k.hash_key() % (self.keys.len() as u64)) as usize
    }

    /// Slot that holds `k`, found by scanning the neighbourhood of its ideal slot.
    pub fn find(&self, k: &K) -> (r: Option<usize>)
        requires
            self.wf(),
        ensures
            self.pos@.contains_key(*k) ==> r == Some(self.pos@[*k] as usize),
            !self.pos@.contains_key(*k) ==> r is None,
    {
        let n = self.keys.len();
        let h = self.home_of(k);
        let hop = self.hops[h];
        let mut d: usize = 0;
        while d < NEIGHBOURHOOD
            invariant
                self.wf(),
                n == self.n(),
                h == self.home(*k),
                hop == self.hops@[h as int],
                d <= NEIGHBOURHOOD,
                forall|e: int|
                    0 <= e < d && has_bit(hop, e) ==> self.keys@[wrap(h as int, e, n as int)] != Some(
                        *k,
                    ),
            decreases NEIGHBOURHOOD - d,
        {
            if test_bit(hop, d) {
                let p = if h + d < n {
                    h + d
                } else {
                    h + d - n
                };
                match &self.keys[p] {
                    Some(x) => {
                        if x.same_key(k) {
                            return Some(p);
                        }
                    },
                    None => {},
                }
            }
            d = d + 1;
        }
        proof {
            if self.pos@.contains_key(*k) {
                let p = self.pos@[*k];
                assert(self.keys@[p] is Some);
                let e = dist(h as int, p, n as int);
                assert(wrap(h as int, e, n as int) == p);
            }
        }
        None
    }

    /// Empties slot `i`, handing back its key and partner index.
    pub fn take_at(&mut self, i: usize) -> (r: (K, usize))
        requires
            old(self).wf(),
            i < old(self).n(),
            old(self).occupied(i as int),
        ensures
            final(self).wf(),
            r.0 == old(self).key_at(i as int),
            r.1 == old(self).cross@[i as int],
            final(self).keys@ == old(self).keys@.update(i as int, None),
            final(self).cross@ == old(self).cross@,
            final(self).pos@ == old(self).pos@.remove(r.0),
    {
        let n = self.keys.len();
        let h = match &self.keys[i] {
            Some(x) => self.home_of(x),
            None => 0,
        };
        let d = if i >= h {
            i - h
        } else {
            i + n - h
        };
        let k = self.keys[i].take().unwrap();
        let nb = clear_bit(self.hops[h], d);
        self.hops.set(h, nb);
        self.pos = Ghost(self.pos@.remove(k));
        (k, self.cross[i])
    }

    /// Stores `k` with partner index `c` in the free slot `e`, which lies in
    /// the neighbourhood of its ideal slot.
    pub fn put_at(&mut self, e: usize, k: K, c: usize)
        requires
            old(self).wf(),
            e < old(self).n(),
            !old(self).occupied(e as int),
            !old(self).pos@.contains_key(k),
            dist(old(self).home(k), e as int, old(self).n()) < NEIGHBOURHOOD,
        ensures
            final(self).wf(),
            final(self).keys@ == old(self).keys@.update(e as int, Some(k)),
            final(self).cross@ == old(self).cross@.update(e as int, c),
            final(self).pos@ == old(self).pos@.insert(k, e as int),
    {
        let n = self.keys.len();
        let h = self.home_of(&k);
        let d = if e >= h {
            e - h
        } else {
            e + n - h
        };
        self.keys.set(e, Some(k));
        self.cross.set(e, c);
        let nb = set_bit(self.hops[h], d);
        self.hops.set(h, nb);
        self.pos = Ghost(self.pos@.insert(k, e as int));
    }

    /// Looks back from the free slot `e`, farthest first, for an entry that
    /// may move forward into `e` and still lie in its own neighbourhood, and
    /// gives how many slots back it stands.
    pub fn find_movable(&self, e: usize) -> (r: Option<usize>)
        requires
            self.wf(),
            e < self.n(),
        ensures
            match r {
                Some(b) => {
                    let c = wrap(e as int, self.n() - b, self.n());
                    &&& 1 <= b < NEIGHBOURHOOD
                    &&& self.occupied(c)
                    &&& dist(self.home(self.key_at(c)), e as int, self.n()) < NEIGHBOURHOOD
                },
                None => true,
            },
    {
        let n = self.keys.len();
        let mut b: usize = NEIGHBOURHOOD - 1;
        while b > 0
            invariant
                self.wf(),
                n == self.n(),
                e < n,
                b < NEIGHBOURHOOD,
            decreases b,
        {
            let c = if e >= b {
                e - b
            } else {
                e + n - b
            };
            match &self.keys[c] {
                Some(x) => {
                    let hc = self.home_of(x);
                    let de = if e >= hc {
                        e - hc
                    } else {
                        e + n - hc
                    };
                    if de < NEIGHBOURHOOD {
                        return Some(b);
                    }
                },
                None => {},
            }
            b = b - 1;
        }
        None
    }

    /// Moves the entry of slot `c` into the free slot `e`, and points its
    /// partner in `other` at `e`.
    pub fn move_entry<O: BiKey>(&mut self, other: &mut Table<O>, c: usize, e: usize)
        requires
            old(self).wf(),
            c < old(self).n(),
            e < old(self).n(),
            old(self).occupied(c as int),
            !old(self).occupied(e as int),
            dist(old(self).home(old(self).key_at(c as int)), e as int, old(self).n())
                < NEIGHBOURHOOD,
            old(other).cross@.len() == old(self).n(),
            old(self).backlinked(old(other).cross@),
        ensures
            final(self).wf(),
            final(self).keys@ == old(self).keys@.update(e as int, old(self).keys@[c as int]).update(
                c as int,
                None,
            ),
            final(self).pos@ == old(self).pos@.insert(old(self).key_at(c as int), e as int),
            forall|q: K| #[trigger]
                old(self).pos@.contains_key(q) ==> final(self).xref(q) == old(self).xref(q),
            final(other).cross@ == old(other).cross@.update(old(self).cross@[c as int] as int, e),
            final(other).keys@ == old(other).keys@,
            final(other).hops@ == old(other).hops@,
            final(other).pos@ == old(other).pos@,
            final(self).backlinked(final(other).cross@),
    {
        let n = self.keys.len();
        let hc = match &self.keys[c] {
            Some(x) => self.home_of(x),
            None => 0,
        };
        let dc = if c >= hc {
            c - hc
        } else {
            c + n - hc
        };
        let de = if e >= hc {
            e - hc
        } else {
            e + n - hc
        };
        let key = self.keys[c].take().unwrap();
        self.keys.set(e, Some(key));
        let x = self.cross[c];
        self.cross.set(e, x);
        let nb = set_bit(clear_bit(self.hops[hc], dc), de);
        self.hops.set(hc, nb);
        other.cross.set(x, e);
        self.pos = Ghost(self.pos@.insert(key, e as int));
        proof {
            assert forall|q: K| #[trigger] self.pos@.contains_key(q) implies self.links_back(
                q,
                other.cross@,
            ) by {
                if q != key {
                    assert(old(self).links_back(q, old(other).cross@));
                    assert(old(self).links_back(key, old(other).cross@));
                }
            }
        }
    }

    /// Stores `k`, with partner index `c`, in a free slot of its
    /// neighbourhood. When the nearest free slot lies beyond the
    /// neighbourhood, entries are moved forward into it, one hop at a time,
    /// until a free slot comes within reach; each move points the moved
    /// entry's partner in `other` at its new slot. Hands `k` back when the
    /// table is full or no entry can be moved.
    pub fn place<O: BiKey>(&mut self, other: &mut Table<O>, k: K, c: usize) -> (r: Result<
        usize,
        K,
    >)
        requires
            old(self).wf(),
            !old(self).pos@.contains_key(k),
            old(other).cross@.len() == old(self).n(),
            old(self).backlinked(old(other).cross@),
        ensures
            final(self).wf(),
            final(self).n() == old(self).n(),
            final(other).keys@ == old(other).keys@,
            final(other).hops@ == old(other).hops@,
            final(other).pos@ == old(other).pos@,
            final(other).cross@.len() == old(other).cross@.len(),
            forall|q: K| #[trigger]
                old(self).pos@.contains_key(q) ==> final(self).xref(q) == old(self).xref(q)
                    && final(self).links_back(q, final(other).cross@),
            forall|j: int|
                0 <= j < old(self).n() && !old(self).is_xref(j) ==> #[trigger] final(other).cross@[j]
                    == old(other).cross@[j],
            match r {
                Ok(e) => {
                    &&& final(self).pos@.dom() == old(self).pos@.dom().insert(k)
                    &&& final(self).pos@[k] == e
                    &&& final(self).cross@[e as int] == c
                },
                Err(q) => q == k && final(self).pos@.dom() == old(self).pos@.dom(),
            },
    {
        let n = self.keys.len();
        let h = self.home_of(&k);
        let mut steps: usize = 0;
        let mut e: usize = h;
        while steps < n && self.keys[e].is_some()
            invariant
                self.wf(),
                n == self.n(),
                h < n,
                steps <= n,
                e == wrap(h as int, steps as int, n as int),
            decreases n - steps,
        {
            e = if e + 1 < n {
                e + 1
            } else {
                0
            };
            steps = steps + 1;
        }
        if steps == n {
            return Err(k);
        }
        let mut dd: usize = steps;
        while dd >= NEIGHBOURHOOD
            invariant
                self.wf(),
                n == self.n(),
                n == old(self).n(),
                old(other).cross@.len() == n,
                h == self.home(k),
                dd < n,
                e < n,
                e == wrap(h as int, dd as int, n as int),
                !self.occupied(e as int),
                !self.pos@.contains_key(k),
                other.keys@ == old(other).keys@,
                other.hops@ == old(other).hops@,
                other.pos@ == old(other).pos@,
                other.cross@.len() == n,
                self.backlinked(other.cross@),
                self.pos@.dom() == old(self).pos@.dom(),
                forall|q: K| #[trigger]
                    old(self).pos@.contains_key(q) ==> self.xref(q) == old(self).xref(q),
                forall|j: int|
                    0 <= j < n && !old(self).is_xref(j) ==> #[trigger] other.cross@[j]
                        == old(other).cross@[j],
            decreases dd,
        {
            match self.find_movable(e) {
                None => {
                    return Err(k);
                },
                Some(b) => {
                    let src = if e >= b {
                        e - b
                    } else {
                        e + n - b
                    };
                    proof {
                        let moved = self.key_at(src as int);
                        assert(self.pos@.contains_key(moved));
                        assert(old(self).pos@.contains_key(moved));
                        assert(self.links_back(moved, other.cross@));
                    }
                    let ghost pre_other = other.cross@;
                    let ghost pre_self = *self;
                    self.move_entry(other, src, e);
                    proof {
                        let moved = pre_self.key_at(src as int);
                        assert(self.pos@.dom() =~= old(self).pos@.dom());
                        assert forall|j: int|
                            0 <= j < n && !old(self).is_xref(j) implies #[trigger] other.cross@[j]
                            == old(other).cross@[j] by {
                            if j == pre_self.cross@[src as int] as int {
                                assert(old(self).pos@.contains_key(moved));
                                assert(old(self).xref(moved) == j);
                            }
                        }
                    }
                    e = src;
                    dd = dd - b;
                },
            }
        }
        self.put_at(e, k, c);
        proof {
            assert forall|q: K| #[trigger] old(self).pos@.contains_key(q) implies self.xref(q)
                == old(self).xref(q) && self.links_back(q, other.cross@) by {
                assert(self.pos@[q] != e);
            }
            assert(self.pos@.dom() =~= old(self).pos@.dom().insert(k));
        }
        Ok(e)
    }
}

} // verus!
