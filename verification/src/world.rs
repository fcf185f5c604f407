//! The component store: one record per entity, holding the transform, the
//! optional parent relation, and the change flags that drive dirty-root
//! discovery.
//!
//! "Changed since the last tick" is explicit per-record state: every write of
//! a transform or of the parent relation raises a flag, and a completed tick
//! clears all flags. Writing the world-space matrix raises no flag, so a tick
//! never dirties the entities it recomputed.

use vstd::prelude::*;
use crate::math::Mat4;
use crate::transform::Transform;

verus! {

broadcast use vstd::seq_lib::group_seq_properties;

/// The parent relation tag: the parent entity of the tagged entity.
#[derive(Clone, Copy, Debug, PartialEq, Eq, Structural)]
pub struct Parent(pub usize);

/// One entity's components.
#[derive(Clone, Copy, Debug)]
pub struct Rec {
    pub transform: Transform,
    pub parent: Option<usize>,
    pub transform_changed: bool,
    pub parent_changed: bool,
}

/// A flat store of entity records; an entity is an index into the store.
pub struct World {
    pub recs: Vec<Rec>,
}

impl World {
    /// Number of entities.
    pub open spec fn n(&self) -> int {
        self.recs@.len() as int
    }

    /// Every transform is well-formed and every parent tag names an entity.
    pub open spec fn wf(&self) -> bool {
        forall|e: int| 0 <= e < self.n() ==> {
            &&& (#[trigger] self.recs@[e]).transform.wf()
            &&& (self.recs@[e].parent matches Some(p) ==> p < self.recs@.len())
        }
    }

    /// The current parent relation of an entity.
    pub open spec fn parent_of(&self, e: int) -> Option<usize> {
        self.recs@[e].parent
    }

    /// The entity changed since the last completed tick.
    pub open spec fn dirty(&self, e: int) -> bool {
        self.recs@[e].transform_changed || self.recs@[e].parent_changed
    }

    pub fn new() -> (w: World)
        ensures
            w.wf(),
            w.n() == 0,
    {
        World { recs: Vec::new() }
    }

    pub fn len(&self) -> (r: usize)
        ensures
            r == self.n(),
    {
        self.recs.len()
    }

    /// Add an entity with the given transform and no parent. The new entity
    /// is dirty: both scans of the next tick may report it.
    pub fn insert(&mut self, t: Transform) -> (e: usize)
        requires
            old(self).wf(),
            t.wf(),
        ensures
            final(self).wf(),
            e == old(self).n(),
            final(self).n() == old(self).n() + 1,
            forall|x: int| 0 <= x < old(self).n() ==> final(self).recs@[x] == old(self).recs@[x],
            final(self).recs@[e as int] == (Rec {
                transform: t,
                parent: None,
                transform_changed: true,
                parent_changed: true,
            }),
    {
        let e = self.recs.len();
        self.recs.push(Rec { transform: t, parent: None, transform_changed: true, parent_changed: true });
        e
    }

    /// Set or reassign the parent relation of `e`, raising its relation flag.
    pub fn add_tag(&mut self, e: usize, p: Parent)
        requires
            old(self).wf(),
            e < old(self).n(),
            p.0 < old(self).n(),
        ensures
            final(self).wf(),
            final(self).n() == old(self).n(),
            forall|x: int| 0 <= x < old(self).n() && x != e as int
                ==> final(self).recs@[x] == old(self).recs@[x],
            final(self).recs@[e as int] == (Rec {
                parent: Some(p.0),
                parent_changed: true,
                ..old(self).recs@[e as int]
            }),
    {
        self.recs[e].parent = Some(p.0);
        self.recs[e].parent_changed = true;
    }

    /// Remove the parent relation of `e`, raising its relation flag.
    pub fn remove_tag(&mut self, e: usize)
        requires
            old(self).wf(),
            e < old(self).n(),
        ensures
            final(self).wf(),
            final(self).n() == old(self).n(),
            forall|x: int| 0 <= x < old(self).n() && x != e as int
                ==> final(self).recs@[x] == old(self).recs@[x],
            final(self).recs@[e as int] == (Rec {
                parent: None,
                parent_changed: true,
                ..old(self).recs@[e as int]
            }),
    {
        self.recs[e].parent = None;
        self.recs[e].parent_changed = true;
    }

    /// Overwrite the local transform of `e`, raising its transform flag.
    pub fn set_transform(&mut self, e: usize, t: Transform)
        requires
            old(self).wf(),
            e < old(self).n(),
            t.wf(),
        ensures
            final(self).wf(),
            final(self).n() == old(self).n(),
            forall|x: int| 0 <= x < old(self).n() && x != e as int
                ==> final(self).recs@[x] == old(self).recs@[x],
            final(self).recs@[e as int] == (Rec {
                transform: t,
                transform_changed: true,
                ..old(self).recs@[e as int]
            }),
    {
        self.recs[e].transform = t;
        self.recs[e].transform_changed = true;
    }

    pub fn get_transform(&self, e: usize) -> (r: &Transform)
        requires
            e < self.n(),
        ensures
            r == self.recs@[e as int].transform,
    {
        &self.recs[e].transform
    }

    /// Write the world-space matrix of `e`. Raises no change flag.
    pub fn write_global_matrix(&mut self, e: usize, m: Mat4)
        requires
            old(self).wf(),
            e < old(self).n(),
            m.wf(),
        ensures
            final(self).wf(),
            final(self).n() == old(self).n(),
            forall|x: int| 0 <= x < old(self).n() && x != e as int
                ==> final(self).recs@[x] == old(self).recs@[x],
            final(self).recs@[e as int] == (Rec {
                transform: (Transform {
                    global_matrix: m,
                    ..old(self).recs@[e as int].transform
                }),
                ..old(self).recs@[e as int]
            }),
    {
        self.recs[e].transform.global_matrix = m;
    }

    /// Entities whose parent relation changed since the last completed tick,
    /// in ascending order without repetition.
    pub fn query_changed_relation(&self) -> (r: Vec<usize>)
        ensures
            forall|t: int| 0 <= t < r@.len()
                ==> (#[trigger] r@[t]) < self.n() && self.recs@[r@[t] as int].parent_changed,
            forall|e: int| 0 <= e < self.n() && self.recs@[e].parent_changed
                ==> r@.contains(e as usize),
            forall|t1: int, t2: int| 0 <= t1 < t2 < r@.len() ==> r@[t1] < r@[t2],
    {
        let mut r: Vec<usize> = Vec::new();
        let mut e: usize = 0;
        while e < self.recs.len()
            invariant
                e <= self.n(),
                forall|t: int| 0 <= t < r@.len()
                    ==> (#[trigger] r@[t]) < e && self.recs@[r@[t] as int].parent_changed,
                forall|x: int| 0 <= x < e && self.recs@[x].parent_changed
                    ==> r@.contains(x as usize),
                forall|t1: int, t2: int| 0 <= t1 < t2 < r@.len() ==> r@[t1] < r@[t2],
            decreases self.n() - e,
        {
            if self.recs[e].parent_changed {
                r.push(e);
            }
            e += 1;
        }
        r
    }

    /// Entities whose transform was written since the last completed tick,
    /// in ascending order without repetition.
    pub fn query_changed_transform(&self) -> (r: Vec<usize>)
        ensures
            forall|t: int| 0 <= t < r@.len()
                ==> (#[trigger] r@[t]) < self.n() && self.recs@[r@[t] as int].transform_changed,
            forall|e: int| 0 <= e < self.n() && self.recs@[e].transform_changed
                ==> r@.contains(e as usize),
            forall|t1: int, t2: int| 0 <= t1 < t2 < r@.len() ==> r@[t1] < r@[t2],
    {
        let mut r: Vec<usize> = Vec::new();
        let mut e: usize = 0;
        while e < self.recs.len()
            invariant
                e <= self.n(),
                forall|t: int| 0 <= t < r@.len()
                    ==> (#[trigger] r@[t]) < e && self.recs@[r@[t] as int].transform_changed,
                forall|x: int| 0 <= x < e && self.recs@[x].transform_changed
                    ==> r@.contains(x as usize),
                forall|t1: int, t2: int| 0 <= t1 < t2 < r@.len() ==> r@[t1] < r@[t2],
            decreases self.n() - e,
        {
            if self.recs[e].transform_changed {
                r.push(e);
            }
            e += 1;
        }
        r
    }

    /// Entities whose current parent relation equals `parent` (a live lookup:
    /// reparenting applied this tick is reflected immediately), in ascending
    /// order without repetition.
    pub fn query_children_of(&self, parent: usize) -> (r: Vec<usize>)
        ensures
            forall|t: int| 0 <= t < r@.len()
                ==> (#[trigger] r@[t]) < self.n()
                    && self.parent_of(r@[t] as int) == Some(parent),
            forall|e: int| 0 <= e < self.n() && self.parent_of(e) == Some(parent)
                ==> r@.contains(e as usize),
            forall|t1: int, t2: int| 0 <= t1 < t2 < r@.len() ==> r@[t1] < r@[t2],
    {
        let mut r: Vec<usize> = Vec::new();
        let mut e: usize = 0;
        while e < self.recs.len()
            invariant
                e <= self.n(),
                forall|t: int| 0 <= t < r@.len()
                    ==> (#[trigger] r@[t]) < e
                        && self.parent_of(r@[t] as int) == Some(parent),
                forall|x: int| 0 <= x < e && self.parent_of(x) == Some(parent)
                    ==> r@.contains(x as usize),
                forall|t1: int, t2: int| 0 <= t1 < t2 < r@.len() ==> r@[t1] < r@[t2],
            decreases self.n() - e,
        {
            let is_child = match self.recs[e].parent {
                Some(p) => p == parent,
                None => false,
            };
            if is_child {
                r.push(e);
            }
            e += 1;
        }
        r
    }

    /// Clear every change flag; nothing else moves.
    pub fn clear_flags(&mut self)
        requires
            old(self).wf(),
        ensures
            final(self).wf(),
            final(self).n() == old(self).n(),
            forall|x: int| 0 <= x < old(self).n() ==> final(self).recs@[x] == (Rec {
                transform_changed: false,
                parent_changed: false,
                ..old(self).recs@[x]
            }),
    {
        let mut e: usize = 0;
        while e < self.recs.len()
            invariant
                old(self).wf(),
                e <= old(self).n(),
                self.n() == old(self).n(),
                forall|x: int| 0 <= x < e ==> self.recs@[x] == (Rec {
                    transform_changed: false,
                    parent_changed: false,
                    ..old(self).recs@[x]
                }),
                forall|x: int| e <= x < old(self).n() ==> self.recs@[x] == old(self).recs@[x],
            decreases self.n() - e,
        {
            self.recs[e].transform_changed = false;
            self.recs[e].parent_changed = false;
            e += 1;
        }
    }
}

} // verus!
