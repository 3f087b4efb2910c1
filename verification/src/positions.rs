use std::collections::HashMap;
use vstd::prelude::*;
use vstd::std_specs::iter::IteratorSpec;

use crate::model::{Position, ResourceKind};

verus! {

broadcast use vstd::std_specs::hash::group_hash_axioms;

/// Numbering of positions used as hash keys: the two coordinates, shifted to
/// be non-negative, side by side in the high and low halves of a `u64`.
pub open spec fn pos_key(p: Position) -> u64 {
    ((p.x as int + 0x8000_0000) * 0x1_0000_0000 + (p.y as int + 0x8000_0000)) as u64
}

/// Distinct positions have distinct keys.
pub proof fn lemma_pos_key_injective(p: Position, q: Position)
    requires
        pos_key(p) == pos_key(q),
    ensures
        p == q,
{
    let a = p.x as int + 0x8000_0000;
    let b = p.y as int + 0x8000_0000;
    let c = q.x as int + 0x8000_0000;
    let d = q.y as int + 0x8000_0000;
    assert(a * 0x1_0000_0000 + b < 0x1_0000_0000_0000_0000);
    assert(c * 0x1_0000_0000 + d < 0x1_0000_0000_0000_0000);
    assert(a == c && b == d) by (nonlinear_arith)
        requires
            0 <= a < 0x1_0000_0000,
            0 <= b < 0x1_0000_0000,
            0 <= c < 0x1_0000_0000,
            0 <= d < 0x1_0000_0000,
            a * 0x1_0000_0000 + b == c * 0x1_0000_0000 + d,
    ;
}

/// Computes the hash key of a position.
pub fn position_key(p: Position) -> (k: u64)
    ensures
        k == pos_key(p),
{
    let hi: u64 = (p.x as i64 + 0x8000_0000i64) as u64;
    let lo: u64 = (p.y as i64 + 0x8000_0000i64) as u64;
    assert(hi * 0x1_0000_0000 + lo < 0x1_0000_0000_0000_0000) by (nonlinear_arith)
        requires
            hi < 0x1_0000_0000,
            lo < 0x1_0000_0000,
    ;
    hi * 0x1_0000_0000u64 + lo
}

/// A set of positions.
#[derive(Clone, Debug)]
pub struct PositionSet {
    members: HashMap<u64, Position>,
}

impl View for PositionSet {
    type V = Set<Position>;

    closed spec fn view(&self) -> Set<Position> {
        Set::new(|p: Position| self.members@.contains_key(pos_key(p)))
    }
}

impl PositionSet {
    /// An empty set.
    pub fn new() -> (s: PositionSet)
        ensures
            s@ == Set::<Position>::empty(),
    {
        let s = PositionSet { members: HashMap::new() };
        assert(s@ =~= Set::<Position>::empty());
        s
    }

    /// Adds a position; returns whether it was absent before.
    pub fn insert(&mut self, pos: Position) -> (added: bool)
        ensures
            final(self)@ == old(self)@.insert(pos),
            added == !old(self)@.contains(pos),
    {
        let k = position_key(pos);
        let added = self.members.insert(k, pos).is_none();
        assert forall|p: Position| #[trigger] self@.contains(p) == old(self)@.insert(pos).contains(p) by {
            if pos_key(p) == k {
                lemma_pos_key_injective(p, pos);
            }
        }
        assert(self@ =~= old(self)@.insert(pos));
        added
    }

    /// Whether the set holds a position.
    pub fn contains(&self, pos: Position) -> (r: bool)
        ensures
            r == self@.contains(pos),
    {
        let k = position_key(pos);
        self.members.contains_key(&k)
    }
}

/// A known resource entry: where it is and what it holds.
#[derive(Clone, Copy, Debug, PartialEq, Eq, Structural)]
pub struct ResourceEntry {
    pub pos: Position,
    pub kind: ResourceKind,
}

/// Map from positions to the kind of resource known to be there.
#[derive(Clone, Debug)]
pub struct ResourceIndex {
    entries: HashMap<u64, ResourceEntry>,
}

impl View for ResourceIndex {
    type V = Map<Position, ResourceKind>;

    closed spec fn view(&self) -> Map<Position, ResourceKind> {
        Map::new(
            |p: Position| self.entries@.contains_key(pos_key(p)),
            |p: Position| self.entries@[pos_key(p)].kind,
        )
    }
}

impl ResourceIndex {
    /// Every entry is stored under the key of its own position.
    pub closed spec fn wf(&self) -> bool {
        forall|k: u64| #[trigger]
            self.entries@.contains_key(k) ==> pos_key(self.entries@[k].pos) == k
    }

    /// An empty index.
    pub fn new() -> (r: ResourceIndex)
        ensures
            r.wf(),
            r@ == Map::<Position, ResourceKind>::empty(),
    {
        let r = ResourceIndex { entries: HashMap::new() };
        assert(r@ =~= Map::<Position, ResourceKind>::empty());
        r
    }

    /// Records the kind of resource at a position.
    pub fn insert(&mut self, pos: Position, kind: ResourceKind)
        requires
            old(self).wf(),
        ensures
            final(self).wf(),
            final(self)@ == old(self)@.insert(pos, kind),
    {
        let k = position_key(pos);
        self.entries.insert(k, ResourceEntry { pos, kind });
        assert forall|p: Position| #[trigger] self@.contains_key(p) == old(self)@.insert(pos, kind).contains_key(p) by {
            if pos_key(p) == k {
                lemma_pos_key_injective(p, pos);
            }
        }
        assert(self@ =~= old(self)@.insert(pos, kind));
    }

    /// Forgets the resource at a position.
    pub fn remove(&mut self, pos: Position)
        requires
            old(self).wf(),
        ensures
            final(self).wf(),
            final(self)@ == old(self)@.remove(pos),
    {
        let k = position_key(pos);
        self.entries.remove(&k);
        assert forall|p: Position| #[trigger] self@.contains_key(p) == old(self)@.remove(pos).contains_key(p) by {
            if pos_key(p) == k {
                lemma_pos_key_injective(p, pos);
            }
        }
        assert(self@ =~= old(self)@.remove(pos));
    }

    /// Number of known resources.
    pub fn len(&self) -> (n: usize)
        requires
            self.wf(),
        ensures
            n == self@.dom().len(),
    {
        let n = self.entries.len();
        proof {
            let keys = self.entries@.dom();
            let f = |k: u64| self.entries@[k].pos;
            assert forall|a: u64, b: u64| keys.contains(a) && keys.contains(b) && #[trigger] f(a) == #[trigger] f(b) implies a == b by {
            }
            assert(vstd::relations::injective_on(f, keys));
            assert(keys.map(f) =~= self@.dom()) by {
                assert forall|p: Position| #[trigger] self@.dom().contains(p) implies keys.map(f).contains(p) by {
                    assert(f(pos_key(p)) == p) by {
                        lemma_pos_key_injective(self.entries@[pos_key(p)].pos, p);
                    }
                }
            }
            vstd::set_lib::lemma_map_size(keys, self@.dom(), f);
        }
        n
    }

    /// The known positions, each once, in the index's own order.
    pub fn positions(&self) -> (v: Vec<Position>)
        requires
            self.wf(),
        ensures
            v@.to_set() == self@.dom(),
            v@.no_duplicates(),
    {
        let mut v: Vec<Position> = Vec::new();
        let ghost ks = vstd::std_specs::hash::spec_keys_iter(&self.entries).remaining();
        for k in it: self.entries.keys()
            invariant
                self.wf(),
                it.seq() == ks,
                v@.len() == it.index(),
                forall|i: int| 0 <= i < it.index() ==> v@[i] == self.entries@[*ks[i]].pos,
        {
            let e = self.entries.get(k).unwrap();
            v.push(e.pos);
        }
        proof {
            assert(v@.len() == ks.len());
            assert(ks.unref().to_set() == self.entries@.dom());
            assert forall|p: Position| #[trigger] v@.to_set().contains(p) == self@.dom().contains(p) by {
                if v@.to_set().contains(p) {
                    let i = choose|i: int| 0 <= i < v@.len() && v@[i] == p;
                    assert(ks.unref()[i] == *ks[i]);
                    assert(ks.unref().contains(*ks[i]));
                    assert(self.entries@.contains_key(*ks[i]));
                }
                if self@.dom().contains(p) {
                    let k = pos_key(p);
                    assert(ks.unref().to_set().contains(k));
                    let i = choose|i: int| 0 <= i < ks.len() && ks.unref()[i] == k;
                    lemma_pos_key_injective(self.entries@[k].pos, p);
                    assert(v@[i] == p);
                }
            }
            assert(v@.to_set() =~= self@.dom());
            assert forall|i: int, j: int| 0 <= i < v@.len() && 0 <= j < v@.len() && i != j implies v@[i] != v@[j] by {
                assert(ks.no_duplicates());
                assert(ks[i] != ks[j]);
                assert(ks.unref()[i] == *ks[i]);
                assert(ks.unref()[j] == *ks[j]);
                assert(ks.unref().to_set().contains(*ks[i]));
                assert(ks.unref().to_set().contains(*ks[j]));
                assert(pos_key(v@[i]) == *ks[i]);
                assert(pos_key(v@[j]) == *ks[j]);
            }
        }
        v
    }
}

} // verus!
