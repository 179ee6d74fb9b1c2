//! The dependency index: for each node, the multiset of the nodes it depends
//! on, and, mirrored, the set of the nodes that depend on it.
use vstd::prelude::*;
use vstd::multiset::Multiset;

verus! {

broadcast use vstd::seq_lib::group_to_multiset_ensures;

/// The dependencies of one node, each counted as often as it is referenced.
pub struct AttributeDependencies(pub Vec<usize>);

/// The nodes that depend on one node, each listed once.
pub struct AttributeDependents(pub Vec<usize>);

impl View for AttributeDependencies {
    type V = Multiset<usize>;

    open spec fn view(&self) -> Multiset<usize> {
        self.0@.to_multiset()
    }
}

impl View for AttributeDependents {
    type V = Seq<usize>;

    open spec fn view(&self) -> Seq<usize> {
        self.0@
    }
}

/// The first position of `e` in `v`, if any.
pub fn find_index(v: &Vec<usize>, e: usize) -> (r: Option<usize>)
    ensures
        match r {
            Some(i) => i < v@.len() && v@[i as int] == e,
            None => !v@.contains(e),
        },
{
    let mut i: usize = 0;
    while i < v.len()
        invariant
            i <= v@.len(),
            forall|j: int| 0 <= j < i ==> v@[j] != e,
        decreases v.len() - i,
    {
        if v[i] == e {
            return Some(i);
        }
        i = i + 1;
    }
    None
}

impl AttributeDependencies {
    /// No dependencies.
    pub fn new() -> (r: AttributeDependencies)
        ensures
            r@ == Multiset::<usize>::empty(),
    {
        AttributeDependencies(Vec::new())
    }

    /// Adds one reference to `entity`.
    pub fn increase(self, entity: usize) -> (r: AttributeDependencies)
        ensures
            r@ == self@.insert(entity),
    {
        let mut r = self;
        r.add(entity);
        r
    }

    /// Drops one reference to `entity`; without one, nothing changes.
    pub fn release(self, entity: usize) -> (r: AttributeDependencies)
        ensures
            r@ == if self@.count(entity) > 0 { self@.remove(entity) } else { self@ },
    {
        let mut r = self;
        r.drop_one(entity);
        r
    }

    /// Adds one reference to `entity` in place.
    pub fn add(&mut self, entity: usize)
        ensures
            final(self)@ == old(self)@.insert(entity),
            final(self).0@ == old(self).0@.push(entity),
    {
        self.0.push(entity);
    }

    /// Drops one reference to `entity` in place, if there is one.
    pub fn drop_one(&mut self, entity: usize)
        ensures
            final(self)@ == if old(self)@.count(entity) > 0 {
                old(self)@.remove(entity)
            } else {
                old(self)@
            },
            forall|x: usize| #[trigger] final(self).0@.contains(x) ==> old(self).0@.contains(x),
    {
        match find_index(&self.0, entity) {
            Some(i) => {
                let ghost s = self.0@;
                self.0.remove(i);
                assert(s.remove(i as int).to_multiset() == s.to_multiset().remove(entity));
                assert forall|x: usize| #[trigger] self.0@.contains(x) implies s.contains(x) by {
                    let k = choose|k: int| 0 <= k < self.0@.len() && self.0@[k] == x;
                    if k < i {
                        assert(s[k] == x);
                    } else {
                        assert(s[k + 1] == x);
                    }
                }
            },
            None => {
                assert(self@.count(entity) == 0);
            },
        }
    }

    /// How many references to `entity` are held.
    pub fn count(&self, entity: usize) -> (r: usize)
        ensures
            r == self@.count(entity),
    {
        let mut n: usize = 0;
        let mut i: usize = 0;
        while i < self.0.len()
            invariant
                i <= self.0@.len(),
                n == self.0@.take(i as int).to_multiset().count(entity),
                n <= i,
            decreases self.0.len() - i,
        {
            assert(self.0@.take(i + 1) == self.0@.take(i as int).push(self.0@[i as int]));
            if self.0[i] == entity {
                n = n + 1;
            }
            i = i + 1;
        }
        assert(self.0@.take(i as int) == self.0@);
        n
    }
}

impl AttributeDependents {
    /// No dependents.
    pub fn new() -> (r: AttributeDependents)
        ensures
            r@ == Seq::<usize>::empty(),
    {
        AttributeDependents(Vec::new())
    }

    /// Adds `entity` unless it is present already.
    pub fn insert(&mut self, entity: usize)
        requires
            old(self)@.no_duplicates(),
        ensures
            final(self)@.no_duplicates(),
            forall|x: usize| #[trigger]
                final(self)@.contains(x) <==> (old(self)@.contains(x) || x == entity),
    {
        match find_index(&self.0, entity) {
            Some(_) => {},
            None => {
                self.0.push(entity);
                assert(forall|x: usize| #[trigger]
                    self.0@.contains(x) ==> (old(self)@.contains(x) || x == entity)) by {
                    assert forall|x: usize| #[trigger] self.0@.contains(x) implies (old(
                        self,
                    )@.contains(x) || x == entity) by {
                        let k = choose|k: int| 0 <= k < self.0@.len() && self.0@[k] == x;
                        if k < old(self)@.len() {
                            assert(old(self)@[k] == x);
                        }
                    }
                }
                assert(old(self)@.contains(entity) == false);
                assert(self.0@[self.0@.len() - 1] == entity);
                assert forall|x: usize| old(self)@.contains(x) implies #[trigger] self.0@.contains(x) by {
                    let k = choose|k: int| 0 <= k < old(self)@.len() && old(self)@[k] == x;
                    assert(self.0@[k] == x);
                }
            },
        }
    }

    /// Removes `entity` if present.
    pub fn remove(&mut self, entity: usize)
        requires
            old(self)@.no_duplicates(),
        ensures
            final(self)@.no_duplicates(),
            forall|x: usize| #[trigger]
                final(self)@.contains(x) <==> (old(self)@.contains(x) && x != entity),
    {
        match find_index(&self.0, entity) {
            Some(i) => {
                let ghost s = self.0@;
                self.0.remove(i);
                assert forall|x: usize| #[trigger] self.0@.contains(x) implies (s.contains(x) && x
                    != entity) by {
                    let k = choose|k: int| 0 <= k < self.0@.len() && self.0@[k] == x;
                    if k < i {
                        assert(s[k] == x);
                    } else {
                        assert(s[k + 1] == x);
                    }
                }
                assert forall|x: usize| s.contains(x) && x != entity implies #[trigger]
                    self.0@.contains(x) by {
                    let k = choose|k: int| 0 <= k < s.len() && s[k] == x;
                    if k < i {
                        assert(self.0@[k] == x);
                    } else {
                        assert(self.0@[k - 1] == x);
                    }
                }
            },
            None => {},
        }
    }
}

/// The bidirectional, reference-counted edge set over nodes `0..len`.
pub struct DependencyIndex {
    pub dependencies: Vec<AttributeDependencies>,
    pub dependents: Vec<AttributeDependents>,
}

impl DependencyIndex {
    /// The number of nodes the index covers.
    pub open spec fn len(&self) -> nat {
        self.dependencies@.len()
    }

    /// How often `dependent` references `dependency`.
    pub open spec fn count(&self, dependent: int, dependency: usize) -> nat {
        self.dependencies@[dependent]@.count(dependency)
    }

    /// Whether `dependent` is listed among the dependents of `dependency`.
    pub open spec fn is_dependent(&self, dependency: int, dependent: usize) -> bool {
        self.dependents@[dependency]@.contains(dependent)
    }

    /// Forward counts and reverse sets mirror each other.
    pub open spec fn wf(&self) -> bool {
        &&& self.dependencies@.len() == self.dependents@.len()
        &&& forall|b: int| 0 <= b < self.len() ==> (#[trigger] self.dependents@[b])@.no_duplicates()
        &&& forall|a: int, b: usize|
            0 <= a < self.len() && #[trigger] self.count(a, b) > 0 ==> b < self.len()
        &&& forall|b: int, a: usize|
            0 <= b < self.len() && #[trigger] self.is_dependent(b, a) ==> a < self.len()
        &&& forall|a: usize, b: usize|
            a < self.len() && b < self.len() ==> (#[trigger] self.count(a as int, b) > 0
                <==> #[trigger] self.is_dependent(b as int, a))
    }

    /// `after` is `self` with one more reference from `a` to `b`.
    pub open spec fn increased(&self, after: &DependencyIndex, a: usize, b: usize) -> bool {
        &&& after.len() == self.len()
        &&& after.count(a as int, b) == self.count(a as int, b) + 1
        &&& forall|x: int, y: usize|
            0 <= x < self.len() && (x != a || y != b) ==> #[trigger] after.count(x, y)
                == self.count(x, y)
    }

    /// `after` is `self` with one reference from `a` to `b` dropped, if any.
    pub open spec fn released(&self, after: &DependencyIndex, a: usize, b: usize) -> bool {
        &&& after.len() == self.len()
        &&& after.count(a as int, b) == if self.count(a as int, b) > 0 {
            (self.count(a as int, b) - 1) as nat
        } else {
            0
        }
        &&& forall|x: int, y: usize|
            0 <= x < self.len() && (x != a || y != b) ==> #[trigger] after.count(x, y)
                == self.count(x, y)
    }

    /// An index over no nodes.
    pub fn new() -> (r: DependencyIndex)
        ensures
            r.wf(),
            r.len() == 0,
    {
        DependencyIndex { dependencies: Vec::new(), dependents: Vec::new() }
    }

    /// Adds a node with no edges.
    pub fn push_node(&mut self)
        requires
            old(self).wf(),
        ensures
            final(self).wf(),
            final(self).len() == old(self).len() + 1,
            forall|x: int, y: usize|
                0 <= x < old(self).len() ==> #[trigger] final(self).count(x, y) == old(self).count(x, y),
            forall|y: usize| #[trigger] final(self).count(old(self).len() as int, y) == 0,
    {
        let ghost n = self.len();
        self.dependencies.push(AttributeDependencies::new());
        self.dependents.push(AttributeDependents::new());
        assert forall|a: int, b: usize|
            0 <= a < self.len() && #[trigger] self.count(a, b) > 0 implies b < self.len() by {
            if a < n {
                assert(old(self).count(a, b) > 0);
            }
        }
        assert forall|b: int, a: usize|
            0 <= b < self.len() && #[trigger] self.is_dependent(b, a) implies a < self.len() by {
            if b < n {
                assert(old(self).is_dependent(b, a));
            }
        }
        assert forall|a: usize, b: usize| a < self.len() && b < self.len() implies (
        #[trigger] self.count(a as int, b) > 0 <==> #[trigger] self.is_dependent(b as int, a)) by {
            if a < n && b < n {
                assert(old(self).count(a as int, b) > 0 <==> old(self).is_dependent(b as int, a));
            } else if a == n {
                if b < n {
                    assert(!old(self).is_dependent(b as int, a));
                }
            } else {
                if a < n {
                    assert(old(self).count(a as int, b) > 0 ==> b < n);
                }
            }
        }
    }

    /// Adds one reference from `a` to `b`.
    pub fn increase(&mut self, a: usize, b: usize)
        requires
            old(self).wf(),
            a < old(self).len(),
            b < old(self).len(),
        ensures
            final(self).wf(),
            old(self).increased(final(self), a, b),
    {
        let had = self.dependencies[a].count(b) > 0;
        self.dependencies[a].add(b);
        if !had {
            self.dependents[b].insert(a);
        }
        assert forall|a1: int, b1: usize|
            0 <= a1 < self.len() && #[trigger] self.count(a1, b1) > 0 implies b1 < self.len() by {
            if a1 != a || b1 != b {
                assert(old(self).count(a1, b1) > 0);
            }
        }
        assert forall|b1: int, a1: usize|
            0 <= b1 < self.len() && #[trigger] self.is_dependent(b1, a1) implies a1 < self.len() by {
            if b1 != b || a1 != a {
                assert(old(self).is_dependent(b1, a1));
            }
        }
        assert forall|a1: usize, b1: usize| a1 < self.len() && b1 < self.len() implies (
        #[trigger] self.count(a1 as int, b1) > 0 <==> #[trigger] self.is_dependent(b1 as int, a1)) by {
            assert(old(self).count(a1 as int, b1) > 0 <==> old(self).is_dependent(b1 as int, a1));
        }
    }

    /// Drops one reference from `a` to `b`; the reverse entry goes with the
    /// last one, and without a reference nothing changes.
    pub fn release(&mut self, a: usize, b: usize)
        requires
            old(self).wf(),
            a < old(self).len(),
        ensures
            final(self).wf(),
            old(self).released(final(self), a, b),
    {
        self.dependencies[a].drop_one(b);
        if self.dependencies[a].count(b) == 0 && b < self.dependents.len() {
            self.dependents[b].remove(a);
        }
        assert forall|a1: int, b1: usize|
            0 <= a1 < self.len() && #[trigger] self.count(a1, b1) > 0 implies b1 < self.len() by {
            assert(old(self).count(a1, b1) > 0);
        }
        assert forall|b1: int, a1: usize|
            0 <= b1 < self.len() && #[trigger] self.is_dependent(b1, a1) implies a1 < self.len() by {
            assert(old(self).is_dependent(b1, a1));
        }
        assert forall|a1: usize, b1: usize| a1 < self.len() && b1 < self.len() implies (
        #[trigger] self.count(a1 as int, b1) > 0 <==> #[trigger] self.is_dependent(b1 as int, a1)) by {
            assert(old(self).count(a1 as int, b1) > 0 <==> old(self).is_dependent(b1 as int, a1));
        }
    }

    /// The nodes that depend on `b`.
    pub fn dependents_of(&self, b: usize) -> (r: &Vec<usize>)
        requires
            b < self.len(),
            self.wf(),
        ensures
            r@ == self.dependents@[b as int]@,
    {
        &self.dependents[b].0
    }
}

/// Reference counting keeps a dependency alive while another reference to
/// it remains: after one reference from `a` to `b` is released, a node that
/// still referenced `b` through another edge stays among its dependents.
pub proof fn lemma_release_keeps_other_reference(
    before: DependencyIndex,
    after: DependencyIndex,
    a: usize,
    b: usize,
    other: usize,
)
    requires
        before.wf(),
        after.wf(),
        before.released(&after, a, b),
        b < before.len(),
        other < before.len(),
        before.count(other as int, b) > 0,
        other == a ==> before.count(a as int, b) >= 2,
    ensures
        after.count(other as int, b) > 0,
        after.is_dependent(b as int, other),
{
    assert(after.count(other as int, b) > 0);
    assert(after.count(other as int, b) > 0 <==> after.is_dependent(b as int, other));
}

impl DependencyIndex {
    /// Adds one reference from `a` to each entry of `list`.
    pub fn increase_all(&mut self, a: usize, list: &Vec<usize>)
        requires
            old(self).wf(),
            a < old(self).len(),
            forall|k: int| 0 <= k < list@.len() ==> #[trigger] list@[k] < old(self).len(),
        ensures
            final(self).wf(),
            final(self).len() == old(self).len(),
            forall|p: usize| #[trigger] final(self).count(a as int, p) == old(self).count(a as int, p)
                + list@.to_multiset().count(p),
            forall|x: int, y: usize|
                0 <= x < old(self).len() && x != a ==> #[trigger] final(self).count(x, y)
                    == old(self).count(x, y),
    {
        let mut i: usize = 0;
        while i < list.len()
            invariant
                self.wf(),
                self.len() == old(self).len(),
                a < self.len(),
                i <= list@.len(),
                forall|k: int| 0 <= k < list@.len() ==> #[trigger] list@[k] < old(self).len(),
                forall|p: usize| #[trigger] self.count(a as int, p) == old(self).count(a as int, p)
                    + list@.take(i as int).to_multiset().count(p),
                forall|x: int, y: usize|
                    0 <= x < old(self).len() && x != a ==> #[trigger] self.count(x, y) == old(
                        self,
                    ).count(x, y),
            decreases list.len() - i,
        {
            let ghost before = *self;
            self.increase(a, list[i]);
            assert(list@.take(i + 1) == list@.take(i as int).push(list@[i as int]));
            i = i + 1;
            assert forall|p: usize| #[trigger] self.count(a as int, p) == old(self).count(a as int, p)
                + list@.take(i as int).to_multiset().count(p) by {
                assert(before.count(a as int, p) == old(self).count(a as int, p)
                    + list@.take(i - 1).to_multiset().count(p));
            }
        }
        assert(list@.take(i as int) == list@);
    }

    /// Drops one reference from `a` to each entry of `list`; a count never
    /// goes below zero.
    pub fn release_all(&mut self, a: usize, list: &Vec<usize>)
        requires
            old(self).wf(),
            a < old(self).len(),
        ensures
            final(self).wf(),
            final(self).len() == old(self).len(),
            forall|p: usize| #[trigger] final(self).count(a as int, p) == released_count(
                old(self).count(a as int, p),
                list@.to_multiset().count(p),
            ),
            forall|x: int, y: usize|
                0 <= x < old(self).len() && x != a ==> #[trigger] final(self).count(x, y)
                    == old(self).count(x, y),
    {
        let mut i: usize = 0;
        while i < list.len()
            invariant
                self.wf(),
                self.len() == old(self).len(),
                a < self.len(),
                i <= list@.len(),
                forall|p: usize| #[trigger] self.count(a as int, p) == released_count(
                    old(self).count(a as int, p),
                    list@.take(i as int).to_multiset().count(p),
                ),
                forall|x: int, y: usize|
                    0 <= x < old(self).len() && x != a ==> #[trigger] self.count(x, y) == old(
                        self,
                    ).count(x, y),
            decreases list.len() - i,
        {
            let ghost before = *self;
            self.release(a, list[i]);
            assert(list@.take(i + 1) == list@.take(i as int).push(list@[i as int]));
            i = i + 1;
            assert forall|p: usize| #[trigger] self.count(a as int, p) == released_count(
                old(self).count(a as int, p),
                list@.take(i as int).to_multiset().count(p),
            ) by {
                assert(before.count(a as int, p) == released_count(
                    old(self).count(a as int, p),
                    list@.take(i - 1).to_multiset().count(p),
                ));
            }
        }
        assert(list@.take(i as int) == list@);
    }
}

/// A count of `c` after `k` releases, none going below zero.
pub open spec fn released_count(c: nat, k: nat) -> nat {
    if c >= k {
        (c - k) as nat
    } else {
        0
    }
}

} // verus!
