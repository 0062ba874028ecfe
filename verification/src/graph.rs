//! The model of resolution: the dependency graph that a registry spans, and
//! what resolving one of its bindings comes to.

use crate::binder::Slot;
use crate::fault::FaultView;
use crate::key::KeyView;
use vstd::prelude::*;

verus! {

/// One binding as resolution sees it: its type and the types it depends on.
pub struct Node {
    pub key: KeyView,
    pub dependencies: Seq<KeyView>,
}

/// The bindings of a registry as resolution sees them.
pub struct Graph {
    /// The primary bindings.
    pub binds: Seq<Node>,
    /// The bindings that a primary binding of the same type supersedes.
    pub overridable: Seq<Node>,
}

/// Where a resolution ends: the bindings that hold an instance afterwards,
/// and the fault that stopped it, if one did.
pub struct Outcome {
    pub ready: Set<Slot>,
    pub fault: Option<FaultView>,
}

/// The names of `path`, joined by arrows in their order.
pub open spec fn joined(path: Seq<Seq<char>>) -> Seq<char>
    decreases path.len(),
{
    if path.len() == 0 {
        Seq::empty()
    } else if path.len() == 1 {
        path[0]
    } else {
        joined(path.drop_last()) + " -> "@ + path.last()
    }
}

impl Node {
    /// The position of the first node of type `id` among `nodes`.
    pub open spec fn position(nodes: Seq<Node>, id: u64) -> Option<int>
        decreases nodes.len(),
    {
        if nodes.len() == 0 {
            None
        } else {
            match Self::position(nodes.drop_last(), id) {
                Some(i) => Some(i),
                None => if nodes.last().key.id == id {
                    Some(nodes.len() - 1)
                } else {
                    None
                },
            }
        }
    }

    /// How many of `nodes` have a name that is not on `path`.
    pub open spec fn off_path(nodes: Seq<Node>, path: Seq<Seq<char>>) -> nat
        decreases nodes.len(),
    {
        if nodes.len() == 0 {
            0
        } else {
            Self::off_path(nodes.drop_last(), path) + if path.contains(nodes.last().key.name) {
                0nat
            } else {
                1nat
            }
        }
    }

    /// Whether a node among `nodes` bears `name`.
    pub open spec fn named(nodes: Seq<Node>, name: Seq<char>) -> bool {
        exists|i: int| 0 <= i < nodes.len() && nodes[i].key.name == name
    }

    /// `position` finds the first node of the type, and finds none only
    /// where there is none.
    pub proof fn lemma_position(nodes: Seq<Node>, id: u64)
        ensures
            match Self::position(nodes, id) {
                Some(i) => {
                    &&& 0 <= i < nodes.len()
                    &&& nodes[i].key.id == id
                    &&& forall|j: int| 0 <= j < i ==> nodes[j].key.id != id
                },
                None => forall|j: int| 0 <= j < nodes.len() ==> nodes[j].key.id != id,
            },
        decreases nodes.len(),
    {
        if nodes.len() > 0 {
            let front = nodes.drop_last();
            Self::lemma_position(front, id);
            assert forall|j: int| 0 <= j < front.len() implies front[j] == nodes[j] by {}
            match Self::position(front, id) {
                Some(i) => {
                    assert(front[i] == nodes[i]);
                },
                None => {
                    assert forall|j: int| 0 <= j < nodes.len() - 1 implies nodes[j].key.id
                        != id by {
                        assert(front[j] == nodes[j]);
                    }
                },
            }
        }
    }

    /// A longer path leaves no more nodes off it, and fewer where a node
    /// bears the name that was added.
    pub proof fn lemma_off_path(nodes: Seq<Node>, path: Seq<Seq<char>>, name: Seq<char>)
        ensures
            Self::off_path(nodes, path.push(name)) <= Self::off_path(nodes, path),
            !path.contains(name) && Self::named(nodes, name) ==> Self::off_path(
                nodes,
                path.push(name),
            ) < Self::off_path(nodes, path),
        decreases nodes.len(),
    {
        if nodes.len() > 0 {
            let front = nodes.drop_last();
            Self::lemma_off_path(front, path, name);
            let last = nodes.last().key.name;
            assert(path.push(name).contains(last) <==> path.contains(last) || last == name) by {
                if path.contains(last) {
                    let k = choose|k: int| 0 <= k < path.len() && path[k] == last;
                    assert(path.push(name)[k] == last);
                }
                if last == name {
                    assert(path.push(name)[path.len() as int] == name);
                }
            }
            if !path.contains(name) && Self::named(nodes, name) {
                let i = choose|i: int| 0 <= i < nodes.len() && nodes[i].key.name == name;
                if i < nodes.len() - 1 {
                    assert(front[i].key.name == name);
                }
            }
        }
    }
}

impl Graph {
    /// Whether every binding can be named by a slot.
    pub open spec fn fits(self) -> bool {
        self.binds.len() <= usize::MAX && self.overridable.len() <= usize::MAX
    }

    /// Whether `slot` names a binding of the graph.
    pub open spec fn has(self, slot: Slot) -> bool {
        if slot.overridable {
            slot.index < self.overridable.len()
        } else {
            slot.index < self.binds.len()
        }
    }

    /// The binding that `slot` names.
    pub open spec fn at(self, slot: Slot) -> Node {
        if slot.overridable {
            self.overridable[slot.index as int]
        } else {
            self.binds[slot.index as int]
        }
    }

    /// The binding that resolves type `id`: the primary one or, where there
    /// is none, the overridable one.
    pub open spec fn lookup(self, id: u64) -> Option<Slot> {
        match Node::position(self.binds, id) {
            Some(i) => Some(Slot { overridable: false, index: i as usize }),
            None => match Node::position(self.overridable, id) {
                Some(i) => Some(Slot { overridable: true, index: i as usize }),
                None => None,
            },
        }
    }

    /// How many bindings have a name that is not on `path`. Resolution
    /// descends only into such bindings, so this bounds its depth.
    pub open spec fn unvisited(self, path: Seq<Seq<char>>) -> nat {
        Node::off_path(self.binds, path) + Node::off_path(self.overridable, path)
    }

    /// What resolving the binding at `slot` comes to, when the bindings in
    /// `ready` hold an instance and the types named on `path` are under
    /// resolution. A binding whose name is on the path is a cycle, reported
    /// with the path that closes it. A binding that holds an instance stays
    /// as it is. Any other becomes ready once its dependencies are
    /// resolved, with its own name on the path.
    pub open spec fn resolve(self, ready: Set<Slot>, path: Seq<Seq<char>>, slot: Slot) -> Outcome
        decreases self.unvisited(path), 0nat, 0nat,
    {
        let name = self.at(slot).key.name;
        if !self.has(slot) {
            Outcome { ready, fault: None }
        } else if path.contains(name) {
            Outcome {
                ready,
                fault: Some(FaultView::CycleDetected { path: joined(path.push(name)) }),
            }
        } else if ready.contains(slot) {
            Outcome { ready, fault: None }
        } else {
            proof {
                self.lemma_descent(path, slot);
            }
            let below = self.resolve_all(
                ready,
                path.push(name),
                self.at(slot).dependencies,
                name,
                0,
            );
            if below.fault.is_some() {
                below
            } else {
                Outcome { ready: below.ready.insert(slot), fault: None }
            }
        }
    }

    /// What resolving the types `keys`, from position `from` on and in
    /// order, comes to. A type without a binding is a fault that names it
    /// and `required_by`; the first fault ends the resolution.
    pub open spec fn resolve_all(
        self,
        ready: Set<Slot>,
        path: Seq<Seq<char>>,
        keys: Seq<KeyView>,
        required_by: Seq<char>,
        from: nat,
    ) -> Outcome
        decreases self.unvisited(path), 1nat, keys.len() - from,
    {
        if from >= keys.len() {
            Outcome { ready, fault: None }
        } else {
            match self.lookup(keys[from as int].id) {
                None => Outcome {
                    ready,
                    fault: Some(
                        FaultView::UnboundDependency { name: keys[from as int].name, required_by },
                    ),
                },
                Some(target) => {
                    let first = self.resolve(ready, path, target);
                    if first.fault.is_some() {
                        first
                    } else {
                        self.resolve_all(first.ready, path, keys, required_by, from + 1)
                    }
                },
            }
        }
    }

    /// What resolving the bindings at `slots`, from position `from` on and
    /// in order, comes to. The first fault ends the resolution.
    pub open spec fn resolve_each(
        self,
        ready: Set<Slot>,
        path: Seq<Seq<char>>,
        slots: Seq<Slot>,
        from: nat,
    ) -> Outcome
        decreases slots.len() - from,
    {
        if from >= slots.len() {
            Outcome { ready, fault: None }
        } else {
            let first = self.resolve(ready, path, slots[from as int]);
            if first.fault.is_some() {
                first
            } else {
                self.resolve_each(first.ready, path, slots, from + 1)
            }
        }
    }

    /// Putting the name of a binding that is not on the path onto it leaves
    /// fewer bindings off the path.
    pub proof fn lemma_descent(self, path: Seq<Seq<char>>, slot: Slot)
        requires
            self.has(slot),
            !path.contains(self.at(slot).key.name),
        ensures
            self.unvisited(path.push(self.at(slot).key.name)) < self.unvisited(path),
    {
        let name = self.at(slot).key.name;
        Node::lemma_off_path(self.binds, path, name);
        Node::lemma_off_path(self.overridable, path, name);
        if slot.overridable {
            assert(self.overridable[slot.index as int].key.name == name);
        } else {
            assert(self.binds[slot.index as int].key.name == name);
        }
    }

    /// Resolving a binding leaves every binding whose name is on the path
    /// as it is: where such a binding holds no instance, it holds none
    /// afterwards.
    pub proof fn lemma_path_kept(
        self,
        ready: Set<Slot>,
        path: Seq<Seq<char>>,
        slot: Slot,
        kept: Slot,
    )
        requires
            self.has(kept),
            path.contains(self.at(kept).key.name),
            !ready.contains(kept),
        ensures
            !self.resolve(ready, path, slot).ready.contains(kept),
        decreases self.unvisited(path), 0nat, 0nat,
    {
        let name = self.at(slot).key.name;
        if self.has(slot) && !path.contains(name) && !ready.contains(slot) {
            self.lemma_descent(path, slot);
            let k = choose|k: int| 0 <= k < path.len() && path[k] == self.at(kept).key.name;
            assert(path.push(name)[k] == self.at(kept).key.name);
            self.lemma_path_kept_all(
                ready,
                path.push(name),
                self.at(slot).dependencies,
                name,
                0,
                kept,
            );
        }
    }

    /// Resolving a list of types leaves every binding whose name is on the
    /// path as it is.
    pub proof fn lemma_path_kept_all(
        self,
        ready: Set<Slot>,
        path: Seq<Seq<char>>,
        keys: Seq<KeyView>,
        required_by: Seq<char>,
        from: nat,
        kept: Slot,
    )
        requires
            self.has(kept),
            path.contains(self.at(kept).key.name),
            !ready.contains(kept),
        ensures
            !self.resolve_all(ready, path, keys, required_by, from).ready.contains(kept),
        decreases self.unvisited(path), 1nat, keys.len() - from,
    {
        if from < keys.len() {
            match self.lookup(keys[from as int].id) {
                None => {},
                Some(target) => {
                    self.lemma_path_kept(ready, path, target, kept);
                    let first = self.resolve(ready, path, target);
                    if first.fault.is_none() {
                        self.lemma_path_kept_all(
                            first.ready,
                            path,
                            keys,
                            required_by,
                            from + 1,
                            kept,
                        );
                    }
                },
            }
        }
    }

    /// Memoization: a binding that was resolved without a fault holds an
    /// instance, and resolving it once more changes nothing and reports no
    /// fault.
    pub proof fn law_resolved_once(self, ready: Set<Slot>, path: Seq<Seq<char>>, slot: Slot)
        requires
            self.has(slot),
            self.resolve(ready, path, slot).fault.is_none(),
        ensures
            self.resolve(ready, path, slot).ready.contains(slot),
            self.resolve(self.resolve(ready, path, slot).ready, path, slot) == self.resolve(
                ready,
                path,
                slot,
            ),
    {
    }

    /// A binding that holds an instance is never resolved again: whatever
    /// its dependencies are, resolving it changes nothing and reports no
    /// fault, unless its name is under resolution.
    pub proof fn law_memoized(self, ready: Set<Slot>, path: Seq<Seq<char>>, slot: Slot)
        requires
            self.has(slot),
            ready.contains(slot),
            !path.contains(self.at(slot).key.name),
        ensures
            self.resolve(ready, path, slot) == (Outcome { ready, fault: None }),
    {
    }

    /// Cycle detection: resolving a binding whose name is under resolution
    /// is a fault that reports the path with that name at its end, and
    /// changes nothing.
    pub proof fn law_cycle(self, ready: Set<Slot>, path: Seq<Seq<char>>, slot: Slot)
        requires
            self.has(slot),
            path.contains(self.at(slot).key.name),
        ensures
            self.resolve(ready, path, slot) == (Outcome {
                ready,
                fault: Some(
                    FaultView::CycleDetected { path: joined(path.push(self.at(slot).key.name)) },
                ),
            }),
    {
    }

    /// A binding that depends on itself cannot be resolved: that is a
    /// cycle.
    pub proof fn law_self_dependency(self, ready: Set<Slot>, path: Seq<Seq<char>>, slot: Slot)
        requires
            self.fits(),
            self.has(slot),
            !ready.contains(slot),
            !path.contains(self.at(slot).key.name),
            self.at(slot).dependencies.len() > 0,
            self.lookup(self.at(slot).dependencies[0].id) == Some(slot),
        ensures
            self.resolve(ready, path, slot).fault == Some(
                FaultView::CycleDetected {
                    path: joined(
                        path.push(self.at(slot).key.name).push(self.at(slot).key.name),
                    ),
                },
            ),
            self.resolve(ready, path, slot).ready == ready,
    {
        let name = self.at(slot).key.name;
        let below = path.push(name);
        assert(below[path.len() as int] == name);
        self.law_cycle(ready, below, slot);
        assert(self.resolve_all(ready, below, self.at(slot).dependencies, name, 0)
            == self.resolve(ready, below, slot));
    }

    /// An unbound dependency is a fault: where a type among `keys` has no
    /// binding, resolving `keys` ends in a fault. Where none of the types
    /// before it ends in a fault, the fault names the unbound type and
    /// `required_by`.
    pub proof fn law_unbound_dependency(
        self,
        ready: Set<Slot>,
        path: Seq<Seq<char>>,
        keys: Seq<KeyView>,
        required_by: Seq<char>,
        from: nat,
        unbound: int,
    )
        requires
            from <= unbound < keys.len(),
            self.lookup(keys[unbound].id).is_none(),
        ensures
            self.resolve_all(ready, path, keys, required_by, from).fault.is_some(),
            from == unbound ==> self.resolve_all(ready, path, keys, required_by, from) == (Outcome {
                ready,
                fault: Some(FaultView::UnboundDependency { name: keys[unbound].name, required_by }),
            }),
        decreases unbound - from,
    {
        if from < unbound {
            match self.lookup(keys[from as int].id) {
                None => {},
                Some(target) => {
                    let first = self.resolve(ready, path, target);
                    if first.fault.is_none() {
                        self.law_unbound_dependency(
                            first.ready,
                            path,
                            keys,
                            required_by,
                            from + 1,
                            unbound,
                        );
                    }
                },
            }
        }
    }

    /// A binding with an unbound dependency cannot be resolved: unless it
    /// holds an instance or its name is under resolution, resolving it
    /// ends in a fault.
    pub proof fn law_unbound_faults(
        self,
        ready: Set<Slot>,
        path: Seq<Seq<char>>,
        slot: Slot,
        unbound: int,
    )
        requires
            self.has(slot),
            !ready.contains(slot),
            0 <= unbound < self.at(slot).dependencies.len(),
            self.lookup(self.at(slot).dependencies[unbound].id).is_none(),
        ensures
            self.resolve(ready, path, slot).fault.is_some(),
            !self.resolve(ready, path, slot).ready.contains(slot),
    {
        let name = self.at(slot).key.name;
        if !path.contains(name) {
            self.law_unbound_dependency(
                ready,
                path.push(name),
                self.at(slot).dependencies,
                name,
                0,
                unbound,
            );
            assert(path.push(name)[path.len() as int] == name);
            self.lemma_path_kept_all(
                ready,
                path.push(name),
                self.at(slot).dependencies,
                name,
                0,
                slot,
            );
        }
    }

    /// Resolution only adds instances: a binding that holds one holds it
    /// afterwards, whatever was resolved.
    pub proof fn law_grows(self, ready: Set<Slot>, path: Seq<Seq<char>>, slot: Slot)
        ensures
            ready.subset_of(self.resolve(ready, path, slot).ready),
        decreases self.unvisited(path), 0nat, 0nat,
    {
        let name = self.at(slot).key.name;
        if self.has(slot) && !path.contains(name) && !ready.contains(slot) {
            self.lemma_descent(path, slot);
            self.law_grows_all(ready, path.push(name), self.at(slot).dependencies, name, 0);
        }
    }

    /// Resolving a list of types only adds instances.
    pub proof fn law_grows_all(
        self,
        ready: Set<Slot>,
        path: Seq<Seq<char>>,
        keys: Seq<KeyView>,
        required_by: Seq<char>,
        from: nat,
    )
        ensures
            ready.subset_of(self.resolve_all(ready, path, keys, required_by, from).ready),
        decreases self.unvisited(path), 1nat, keys.len() - from,
    {
        if from < keys.len() {
            match self.lookup(keys[from as int].id) {
                None => {},
                Some(target) => {
                    self.law_grows(ready, path, target);
                    let first = self.resolve(ready, path, target);
                    if first.fault.is_none() {
                        self.law_grows_all(first.ready, path, keys, required_by, from + 1);
                    }
                },
            }
        }
    }

    /// What `lookup` finds is a binding of the graph, of the type that was
    /// asked for.
    pub proof fn lemma_lookup(self, id: u64)
        requires
            self.fits(),
        ensures
            match self.lookup(id) {
                Some(slot) => self.has(slot) && self.at(slot).key.id == id,
                None => {
                    &&& forall|i: int| 0 <= i < self.binds.len() ==> self.binds[i].key.id != id
                    &&& forall|i: int|
                        0 <= i < self.overridable.len() ==> self.overridable[i].key.id != id
                },
            },
    {
        Node::lemma_position(self.binds, id);
        Node::lemma_position(self.overridable, id);
    }
}

} // verus!
