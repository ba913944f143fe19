use vstd::prelude::*;

use crate::projectile::{Lifespan, Projectile};

verus! {

/// An entity reference: the bits of an entity handle.
pub type EntityId = u64;

/// What the pipeline reads of one entity. Presence of an optional component is
/// an explicit field; the float-valued data (positions, velocities, knockback
/// magnitudes, impulses) lives with the physics state and is not held here.
#[derive(Clone, Copy, Debug, PartialEq, Eq, Structural)]
pub struct EntityRecord {
    pub id: EntityId,
    pub parent: Option<EntityId>,
    pub projectile: Option<Projectile>,
    pub has_knockback: bool,
    pub has_velocity: bool,
    pub lifespan: Option<Lifespan>,
}

/// No two records share an id.
pub open spec fn unique_ids(w: Seq<EntityRecord>) -> bool {
    forall|i: int, j: int|
        0 <= i < w.len() && 0 <= j < w.len() && #[trigger] w[i].id == #[trigger] w[j].id ==> i == j
}

pub open spec fn has_record(w: Seq<EntityRecord>, e: EntityId) -> bool {
    exists|i: int| 0 <= i < w.len() && #[trigger] w[i].id == e
}

/// The record of entity `e`, if it exists.
pub open spec fn record_of(w: Seq<EntityRecord>, e: EntityId) -> Option<EntityRecord> {
    if has_record(w, e) {
        Some(w[choose|i: int| 0 <= i < w.len() && #[trigger] w[i].id == e])
    } else {
        None
    }
}

/// The projectile tag of entity `e`; `None` when `e` is untagged or gone.
pub open spec fn projectile_of(w: Seq<EntityRecord>, e: EntityId) -> Option<Projectile> {
    match record_of(w, e) {
        Some(r) => r.projectile,
        None => None,
    }
}

/// In a table with distinct ids, the record of an id is the one that holds it.
pub proof fn lemma_record_at(w: Seq<EntityRecord>, i: int)
    requires
        unique_ids(w),
        0 <= i < w.len(),
    ensures
        record_of(w, w[i].id) == Some(w[i]),
{
    let j = choose|j: int| 0 <= j < w.len() && #[trigger] w[j].id == w[i].id;
    assert(w[j].id == w[i].id);
}

/// `x` is `e` or a descendant of `e` through at most `fuel` parent links.
pub open spec fn descends(w: Seq<EntityRecord>, x: EntityId, e: EntityId, fuel: nat) -> bool
    decreases fuel,
{
    x == e || (fuel > 0 && exists|i: int|
        0 <= i < w.len() && #[trigger] w[i].id == x && match w[i].parent {
            Some(p) => descends(w, p, e, (fuel - 1) as nat),
            None => false,
        })
}

/// `x` is `e` or one of its descendants in `w`. A chain of parent links
/// without repeats is never longer than the table.
pub open spec fn in_subtree(w: Seq<EntityRecord>, x: EntityId, e: EntityId) -> bool {
    descends(w, x, e, w.len() as nat)
}

/// `x` lies in the subtree of one of `es`.
pub open spec fn in_any_subtree(w: Seq<EntityRecord>, x: EntityId, es: Seq<EntityId>) -> bool {
    exists|k: int| 0 <= k < es.len() && in_subtree(w, x, #[trigger] es[k])
}

/// The records of `s` that lie in no subtree of `es` in `w`, in order.
pub open spec fn survivors(s: Seq<EntityRecord>, w: Seq<EntityRecord>, es: Seq<EntityId>) -> Seq<
    EntityRecord,
>
    decreases s.len(),
{
    if s.len() == 0 {
        s
    } else {
        let rest = survivors(s.drop_last(), w, es);
        if in_any_subtree(w, s.last().id, es) {
            rest
        } else {
            rest.push(s.last())
        }
    }
}

/// The table after removing each entity of `es` together with everything
/// parented to it. Removals only take entities away, so removing them one
/// after the other leaves the same table as removing them at once.
pub open spec fn despawned_all(w: Seq<EntityRecord>, es: Seq<EntityId>) -> Seq<EntityRecord> {
    survivors(w, w, es)
}

/// The table after removing `e` together with everything parented to it.
pub open spec fn despawned(w: Seq<EntityRecord>, e: EntityId) -> Seq<EntityRecord> {
    despawned_all(w, seq![e])
}

/// The parent of `r` is one of `s`.
pub open spec fn parent_in(r: EntityRecord, s: Seq<EntityId>) -> bool {
    match r.parent {
        Some(p) => s.contains(p),
        None => false,
    }
}

/// The table of entities that the pipeline reads and removes from.
/// Its view is the sequence of records, in the order they were spawned.
pub struct World {
    entities: Vec<EntityRecord>,
}

impl View for World {
    type V = Seq<EntityRecord>;

    closed spec fn view(&self) -> Seq<EntityRecord> {
        self.entities@
    }
}

impl World {
    /// Well-formed: every entity has a single record.
    pub open spec fn wf(&self) -> bool {
        unique_ids(self@)
    }

    /// An empty table.
    pub fn new() -> (r: World)
        ensures
            r@ == Seq::<EntityRecord>::empty(),
            r.wf(),
    {
        World { entities: Vec::new() }
    }

    /// Number of records.
    pub fn len(&self) -> (r: usize)
        ensures
            r == self@.len(),
    {
        self.entities.len()
    }

    /// The records, in order.
    pub fn records(&self) -> (r: &Vec<EntityRecord>)
        ensures
            r@ == self@,
    {
        &self.entities
    }

    /// Adds `rec` unless an entity with its id exists; says whether it did.
    pub fn spawn(&mut self, rec: EntityRecord) -> (r: bool)
        requires
            old(self).wf(),
        ensures
            final(self).wf(),
            r == !has_record(old(self)@, rec.id),
            r ==> final(self)@ == old(self)@.push(rec),
            !r ==> final(self)@ == old(self)@,
    {
        match self.index_of(rec.id) {
            Some(_) => false,
            None => {
                self.entities.push(rec);
                assert forall|i: int, j: int|
                    0 <= i < self@.len() && 0 <= j < self@.len() && #[trigger] self@[i].id
                        == #[trigger] self@[j].id implies i == j by {
                    if i < old(self)@.len() {
                        assert(self@[i] == old(self)@[i]);
                    }
                    if j < old(self)@.len() {
                        assert(self@[j] == old(self)@[j]);
                    }
                }
                true
            },
        }
    }

    /// Position of the record of `e`.
    pub fn index_of(&self, e: EntityId) -> (r: Option<usize>)
        ensures
            match r {
                Some(i) => i < self@.len() && self@[i as int].id == e,
                None => !has_record(self@, e),
            },
    {
        let mut i: usize = 0;
        while i < self.entities.len()
            invariant
                0 <= i <= self@.len(),
                self@ == self.entities@,
                forall|j: int| 0 <= j < i ==> self@[j].id != e,
            decreases self@.len() - i,
        {
            if self.entities[i].id == e {
                return Some(i);
            }
            i = i + 1;
        }
        None
    }

    /// The record of `e`, if it exists.
    pub fn get(&self, e: EntityId) -> (r: Option<EntityRecord>)
        requires
            self.wf(),
        ensures
            r == record_of(self@, e),
    {
        match self.index_of(e) {
            Some(i) => {
                proof {
                    lemma_record_at(self@, i as int);
                }
                Some(self.entities[i])
            },
            None => None,
        }
    }

    /// Replaces the lifespan of the record at position `i`.
    pub fn set_lifespan_at(&mut self, i: usize, l: Option<Lifespan>)
        requires
            old(self).wf(),
            i < old(self)@.len(),
        ensures
            final(self).wf(),
            final(self)@ == old(self)@.update(i as int, EntityRecord { lifespan: l, ..old(self)@[i as int] }),
    {
        let mut rec = self.entities[i];
        rec.lifespan = l;
        self.entities.set(i, rec);
        assert forall|a: int, b: int|
            0 <= a < self@.len() && 0 <= b < self@.len() && #[trigger] self@[a].id
                == #[trigger] self@[b].id implies a == b by {
            assert(self@[a].id == old(self)@[a].id && self@[b].id == old(self)@[b].id);
        }
    }

    /// The ids of `e` and of every entity below it.
    pub fn subtree_ids(&self, e: EntityId) -> (r: Vec<EntityId>)
        ensures
            forall|x: EntityId| r@.contains(x) <==> in_subtree(self@, x, e),
    {
        let n = self.entities.len();
        let mut doomed: Vec<EntityId> = vec![e];
        assert forall|x: EntityId| doomed@.contains(x) <==> descends(self@, x, e, 0) by {
            if x == e {
                assert(doomed@[0] == x);
            }
        }
        let mut k: usize = 0;
        while k < n
            invariant
                0 <= k <= n,
                n == self@.len(),
                self@ == self.entities@,
                forall|x: EntityId| doomed@.contains(x) <==> descends(self@, x, e, k as nat),
            decreases n - k,
        {
            let mut next: Vec<EntityId> = vec![e];
            assert(next@[0] == e);
            let mut j: usize = 0;
            while j < n
                invariant
                    0 <= j <= n,
                    n == self@.len(),
                    self@ == self.entities@,
                    forall|x: EntityId|
                        next@.contains(x) <==> (x == e || exists|m: int|
                            0 <= m < j && #[trigger] self@[m].id == x && parent_in(self@[m], doomed@)),
                decreases n - j,
            {
                let rec = self.entities[j];
                let hit = match rec.parent {
                    Some(p) => contains_id(&doomed, p),
                    None => false,
                };
                let ghost prev = next@;
                if hit {
                    next.push(rec.id);
                }
                assert forall|x: EntityId|
                    next@.contains(x) <==> (x == e || exists|m: int|
                        0 <= m < j + 1 && #[trigger] self@[m].id == x && parent_in(self@[m], doomed@)) by {
                    if hit && x == rec.id {
                        assert(next@[next@.len() - 1] == x);
                        assert(self@[j as int].id == x);
                    }
                    if next@.contains(x) && !prev.contains(x) {
                        let q = choose|q: int| 0 <= q < next@.len() && next@[q] == x;
                        if q < prev.len() {
                            assert(prev[q] == x);
                        }
                    }
                    if prev.contains(x) {
                        let q = choose|q: int| 0 <= q < prev.len() && prev[q] == x;
                        assert(next@[q] == x);
                    }
                }
                j = j + 1;
            }
            assert forall|x: EntityId| next@.contains(x) <==> descends(self@, x, e, (k + 1) as nat) by {
                if x != e {
                    if next@.contains(x) {
                        let m = choose|m: int|
                            0 <= m < n && #[trigger] self@[m].id == x && parent_in(self@[m], doomed@);
                        assert(self@[m].id == x);
                    }
                    if descends(self@, x, e, (k + 1) as nat) {
                        let m = choose|m: int|
                            0 <= m < self@.len() && #[trigger] self@[m].id == x && match self@[m].parent {
                                Some(p) => descends(self@, p, e, k as nat),
                                None => false,
                            };
                        assert(parent_in(self@[m], doomed@));
                    }
                }
            }
            doomed = next;
            k = k + 1;
        }
        doomed
    }

    /// Removes `e` and every entity parented to it, directly or not.
    pub fn despawn_recursive(&mut self, e: EntityId)
        requires
            old(self).wf(),
        ensures
            final(self).wf(),
            final(self)@ == despawned(old(self)@, e),
    {
        let es = vec![e];
        assert(es@ =~= seq![e]);
        self.despawn_all(&es);
    }

    /// Removes each entity of `es` with its descendants.
    pub fn despawn_all(&mut self, es: &Vec<EntityId>)
        requires
            old(self).wf(),
        ensures
            final(self).wf(),
            final(self)@ == despawned_all(old(self)@, es@),
    {
        let ghost w = self@;
        let mut doomed: Vec<EntityId> = Vec::new();
        let mut i: usize = 0;
        while i < es.len()
            invariant
                0 <= i <= es@.len(),
                w == self@,
                forall|x: EntityId|
                    doomed@.contains(x) <==> in_any_subtree(w, x, es@.subrange(0, i as int)),
            decreases es@.len() - i,
        {
            let sub = self.subtree_ids(es[i]);
            let ghost before = doomed@;
            doomed.extend_from_slice(sub.as_slice());
            assert forall|x: EntityId|
                doomed@.contains(x) <==> in_any_subtree(w, x, es@.subrange(0, i + 1)) by {
                let pre = es@.subrange(0, i as int);
                let cur = es@.subrange(0, i + 1);
                assert(doomed@ =~= before + sub@);
                if doomed@.contains(x) {
                    let q = choose|q: int| 0 <= q < doomed@.len() && doomed@[q] == x;
                    if q < before.len() {
                        assert(before[q] == x);
                        assert(before.contains(x));
                        let k = choose|k: int| 0 <= k < pre.len() && in_subtree(w, x, #[trigger] pre[k]);
                        assert(cur[k] == pre[k]);
                    } else {
                        assert(sub@[q - before.len()] == x);
                        assert(sub@.contains(x));
                        assert(cur[i as int] == es@[i as int]);
                        assert(in_subtree(w, x, cur[i as int]));
                    }
                }
                if in_any_subtree(w, x, cur) {
                    let k = choose|k: int| 0 <= k < cur.len() && in_subtree(w, x, #[trigger] cur[k]);
                    if k < i {
                        assert(pre[k] == cur[k]);
                        assert(in_subtree(w, x, pre[k]));
                        assert(in_any_subtree(w, x, pre));
                        assert(before.contains(x));
                        let q = choose|q: int| 0 <= q < before.len() && before[q] == x;
                        assert(doomed@[q] == x);
                    } else {
                        assert(cur[k] == es@[i as int]);
                        assert(sub@.contains(x));
                        let q = choose|q: int| 0 <= q < sub@.len() && sub@[q] == x;
                        assert(doomed@[before.len() + q] == x);
                    }
                }
            }
            i = i + 1;
        }
        assert(es@.subrange(0, es@.len() as int) =~= es@);
        let n = self.entities.len();
        let mut kept: Vec<EntityRecord> = Vec::new();
        let mut j: usize = 0;
        while j < n
            invariant
                0 <= j <= n,
                n == w.len(),
                w == self.entities@,
                forall|x: EntityId| doomed@.contains(x) <==> in_any_subtree(w, x, es@),
                kept@ == survivors(w.subrange(0, j as int), w, es@),
            decreases n - j,
        {
            let rec = self.entities[j];
            assert(w.subrange(0, j + 1).drop_last() =~= w.subrange(0, j as int));
            if !contains_id(&doomed, rec.id) {
                kept.push(rec);
            }
            j = j + 1;
        }
        assert(w.subrange(0, n as int) =~= w);
        self.entities = kept;
        proof {
            lemma_survivors_unique(w, w, es@);
        }
    }
}

/// Whether `x` occurs in `v`.
pub fn contains_id(v: &Vec<EntityId>, x: EntityId) -> (r: bool)
    ensures
        r == v@.contains(x),
{
    let mut i: usize = 0;
    while i < v.len()
        invariant
            0 <= i <= v.len(),
            forall|j: int| 0 <= j < i ==> v@[j] != x,
        decreases v.len() - i,
    {
        if v[i] == x {
            return true;
        }
        i = i + 1;
    }
    false
}

/// Survivors come from `s` and lie in no removed subtree; every record of `s`
/// outside the removed subtrees survives.
pub proof fn lemma_survivors_subset(s: Seq<EntityRecord>, w: Seq<EntityRecord>, es: Seq<EntityId>)
    ensures
        forall|k: int|
            0 <= k < survivors(s, w, es).len() ==> s.contains(#[trigger] survivors(s, w, es)[k])
                && !in_any_subtree(w, survivors(s, w, es)[k].id, es),
        forall|k: int|
            0 <= k < s.len() && !in_any_subtree(w, #[trigger] s[k].id, es) ==> survivors(s, w, es).contains(s[k]),
    decreases s.len(),
{
    if s.len() > 0 {
        lemma_survivors_subset(s.drop_last(), w, es);
        let rest = survivors(s.drop_last(), w, es);
        assert forall|k: int| 0 <= k < survivors(s, w, es).len() implies s.contains(
            #[trigger] survivors(s, w, es)[k],
        ) && !in_any_subtree(w, survivors(s, w, es)[k].id, es) by {
            if k < rest.len() {
                let m = choose|m: int| 0 <= m < s.drop_last().len() && s.drop_last()[m] == rest[k];
                assert(s[m] == rest[k]);
            } else {
                assert(s[s.len() - 1] == s.last());
            }
        }
        assert forall|k: int| 0 <= k < s.len() && !in_any_subtree(w, #[trigger] s[k].id, es) implies survivors(s, w, es).contains(s[k]) by {
            if k < s.len() - 1 {
                assert(s.drop_last()[k] == s[k]);
                let m = choose|m: int| 0 <= m < rest.len() && rest[m] == s[k];
                assert(survivors(s, w, es)[m] == s[k]);
            } else {
                let sv = survivors(s, w, es);
                assert(sv[sv.len() - 1] == s[k]);
            }
        }
    }
}

/// Despawning `es` removes exactly the entities that lie in the subtree of
/// one of them: those are gone, every other entity keeps its record, and
/// nothing that was gone comes back.
pub proof fn lemma_despawned_all_exact(w: Seq<EntityRecord>, es: Seq<EntityId>)
    requires
        unique_ids(w),
    ensures
        forall|y: EntityId|
            in_any_subtree(w, y, es) ==> !has_record(#[trigger] despawned_all(w, es), y),
        forall|y: EntityId| !has_record(w, y) ==> !has_record(#[trigger] despawned_all(w, es), y),
        forall|y: EntityId|
            has_record(w, y) && !in_any_subtree(w, y, es) ==> record_of(
                #[trigger] despawned_all(w, es),
                y,
            ) == record_of(w, y),
{
    lemma_survivors_subset(w, w, es);
    lemma_survivors_unique(w, w, es);
    let d = despawned_all(w, es);
    assert forall|y: EntityId| in_any_subtree(w, y, es) implies !has_record(
        #[trigger] despawned_all(w, es),
        y,
    ) by {
        if has_record(d, y) {
            let k = choose|k: int| 0 <= k < d.len() && #[trigger] d[k].id == y;
            assert(d.contains(d[k]));
        }
    }
    assert forall|y: EntityId| !has_record(w, y) implies !has_record(#[trigger] despawned_all(w, es), y) by {
        if has_record(d, y) {
            let k = choose|k: int| 0 <= k < d.len() && #[trigger] d[k].id == y;
            assert(w.contains(d[k]));
            let m = choose|m: int| 0 <= m < w.len() && w[m] == d[k];
            assert(w[m].id == y);
        }
    }
    assert forall|y: EntityId| has_record(w, y) && !in_any_subtree(w, y, es) implies record_of(
        #[trigger] despawned_all(w, es),
        y,
    ) == record_of(w, y) by {
        let i = choose|i: int| 0 <= i < w.len() && #[trigger] w[i].id == y;
        lemma_record_at(w, i);
        assert(d.contains(w[i]));
        let m = choose|m: int| 0 <= m < d.len() && d[m] == w[i];
        lemma_record_at(d, m);
    }
}

/// Removing no entity keeps every record.
pub proof fn lemma_survivors_none(s: Seq<EntityRecord>, w: Seq<EntityRecord>)
    ensures
        survivors(s, w, Seq::empty()) == s,
    decreases s.len(),
{
    if s.len() > 0 {
        lemma_survivors_none(s.drop_last(), w);
        assert(s.drop_last().push(s.last()) =~= s);
    }
}

/// Removing entities keeps the ids distinct.
pub proof fn lemma_survivors_unique(s: Seq<EntityRecord>, w: Seq<EntityRecord>, es: Seq<EntityId>)
    requires
        unique_ids(s),
    ensures
        unique_ids(survivors(s, w, es)),
    decreases s.len(),
{
    if s.len() > 0 {
        assert(unique_ids(s.drop_last())) by {
            assert forall|i: int, j: int|
                0 <= i < s.drop_last().len() && 0 <= j < s.drop_last().len()
                    && #[trigger] s.drop_last()[i].id == #[trigger] s.drop_last()[j].id implies i == j by {
                assert(s[i] == s.drop_last()[i] && s[j] == s.drop_last()[j]);
            }
        }
        lemma_survivors_unique(s.drop_last(), w, es);
        lemma_survivors_subset(s.drop_last(), w, es);
        let rest = survivors(s.drop_last(), w, es);
        if !in_any_subtree(w, s.last().id, es) {
            let sv = rest.push(s.last());
            assert forall|i: int, j: int|
                0 <= i < sv.len() && 0 <= j < sv.len() && #[trigger] sv[i].id == #[trigger] sv[j].id implies i
                == j by {
                if i < rest.len() && j == rest.len() {
                    let m = choose|m: int| 0 <= m < s.drop_last().len() && s.drop_last()[m] == rest[i];
                    assert(s[m] == rest[i]);
                    assert(s[s.len() - 1] == s.last());
                } else if j < rest.len() && i == rest.len() {
                    let m = choose|m: int| 0 <= m < s.drop_last().len() && s.drop_last()[m] == rest[j];
                    assert(s[m] == rest[j]);
                    assert(s[s.len() - 1] == s.last());
                }
            }
        }
    }
}

} // verus!
