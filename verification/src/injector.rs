//! The injector: resolves the types of a registry on demand.

use crate::binder::Binder;
use crate::binder::Slot;
use crate::fault::Fault;
use crate::fault::FaultView;
use crate::graph::Outcome;
use crate::key::KeyView;
use crate::key::TypeKey;
use crate::provider::Constructor;
use crate::view::BinderView;
use vstd::prelude::*;
use vstd::string::*;

verus! {

/// The names of the types under resolution, outermost first.
pub struct LoopChecker {
    stack: Vec<String>,
}

impl View for LoopChecker {
    type V = Seq<Seq<char>>;

    closed spec fn view(&self) -> Seq<Seq<char>> {
        self.stack@.map_values(|name: String| name@)
    }
}

impl LoopChecker {
    /// The checker of a resolution that has not begun.
    pub fn new() -> (checker: LoopChecker)
        ensures
            checker@ == Seq::<Seq<char>>::empty(),
    {
        let checker = LoopChecker { stack: Vec::new() };
        assert(checker@ =~= Seq::<Seq<char>>::empty());
        checker
    }

    /// Whether the type named `name` is under resolution.
    pub fn contains(&self, name: &String) -> (found: bool)
        ensures
            found == self@.contains(name@),
    {
        let mut i: usize = 0;
        while i < self.stack.len()
            invariant
                i <= self.stack@.len(),
                forall|j: int| 0 <= j < i ==> self@[j] != name@,
            decreases self.stack@.len() - i,
        {
            if self.stack[i] == *name {
                assert(self@[i as int] == name@);
                return true;
            }
            i += 1;
        }
        false
    }

    /// The names under resolution, joined by arrows in their order.
    pub fn path(&self) -> (text: String)
        ensures
            text@ == crate::graph::joined(self@),
    {
        let mut text = String::new();
        let mut i: usize = 0;
        while i < self.stack.len()
            invariant
                i <= self.stack@.len(),
                text@ == crate::graph::joined(self@.take(i as int)),
            decreases self.stack@.len() - i,
        {
            proof {
                assert(self@.take(i as int + 1).drop_last() == self@.take(i as int));
                assert(self@.take(i as int + 1).last() == self.stack@[i as int]@);
                if i == 0 {
                    assert(self@.take(1)[0] == self.stack@[0]@);
                    assert(text@ + self.stack@[0]@ =~= self.stack@[0]@);
                }
            }
            if i > 0 {
                text.append(" -> ");
            }
            text.append(self.stack[i].as_str());
            i += 1;
        }
        proof {
            assert(self@.take(i as int) == self@);
        }
        text
    }

    /// The checker of a resolution that descends into the type named
    /// `name`.
    pub fn visit(&self, name: String) -> (child: LoopChecker)
        ensures
            child@ == self@.push(name@),
    {
        let mut stack: Vec<String> = Vec::new();
        let mut i: usize = 0;
        while i < self.stack.len()
            invariant
                i <= self.stack@.len(),
                stack@.len() == i,
                forall|j: int| 0 <= j < i ==> stack@[j]@ == self.stack@[j]@,
            decreases self.stack@.len() - i,
        {
            stack.push(self.stack[i].clone());
            i += 1;
        }
        stack.push(name);
        let child = LoopChecker { stack };
        assert(child@ =~= self@.push(name@));
        child
    }
}

/// What an [`Injector`] stands for in contracts.
#[verifier::reject_recursive_types(V)]
pub struct InjectorView<V> {
    /// The registry that is resolved.
    pub binds: BinderView<V>,
    /// The names of the types under resolution, outermost first.
    pub path: Seq<Seq<char>>,
}

impl<V> InjectorView<V> {
    /// What resolving the binding at `slot` comes to.
    pub open spec fn resolve(self, slot: Slot) -> Outcome {
        self.binds.graph().resolve(self.binds.ready(), self.path, slot)
    }

    /// What resolving the types `keys`, in order and on behalf of
    /// `required_by`, comes to.
    pub open spec fn resolve_all(self, keys: Seq<KeyView>, required_by: Seq<char>) -> Outcome {
        self.binds.graph().resolve_all(self.binds.ready(), self.path, keys, required_by, 0)
    }

    /// The injector of the registry `binds` before any resolution: no
    /// binding holds an instance and no type is under resolution.
    pub open spec fn fresh(binds: BinderView<V>) -> Self {
        InjectorView { binds: binds.unresolved(), path: Seq::empty() }
    }

    /// What resolving the bindings at `slots`, in order, comes to.
    pub open spec fn resolve_each(self, slots: Seq<Slot>) -> Outcome {
        self.binds.graph().resolve_each(self.binds.ready(), self.path, slots, 0)
    }

    /// What resolving the eager bindings comes to: the primary ones in the
    /// order of their registration, then the overridable ones in theirs.
    pub open spec fn materialize(self) -> Outcome {
        self.resolve_each(self.binds.eager_slots())
    }

    /// Whether every eager binding holds an instance.
    pub open spec fn materialized(self) -> bool {
        forall|k: int|
            0 <= k < self.binds.eager_slots().len() ==> self.binds.ready().contains(
                #[trigger] self.binds.eager_slots()[k],
            )
    }

    /// Whether this is the injector `before` after a resolution that ended
    /// as `outcome` says: the same path and the same registry, but that the
    /// bindings that `outcome` lists hold an instance.
    pub open spec fn follows(self, before: Self, outcome: Outcome) -> bool {
        &&& self.path == before.path
        &&& self.binds.extends(before.binds)
        &&& self.binds.ready() == outcome.ready
        &&& before.binds.sound() ==> self.binds.sound()
    }
}

/// Resolves the types of a registry: it produces the instance of a type on
/// demand, after those of its dependencies, memoizes it, and reports cyclic
/// and unbound dependencies.
#[verifier::reject_recursive_types(V)]
pub struct Injector<V> {
    binds: Binder<V>,
    loop_checker: LoopChecker,
}

impl<V> View for Injector<V> {
    type V = InjectorView<V>;

    closed spec fn view(&self) -> InjectorView<V> {
        InjectorView { binds: self.binds@, path: self.loop_checker@ }
    }
}

/// Whether `done` reports what `outcome` says of faults.
pub open spec fn reports(done: Result<(), Fault>, outcome: Outcome) -> bool {
    match done {
        Ok(_) => outcome.fault.is_none(),
        Err(fault) => outcome.fault == Some(fault@),
    }
}

impl<V> Injector<V> {
    /// The injector of `binds`, with no instance and no type under
    /// resolution.
    pub fn new(binds: Binder<V>) -> (injector: Injector<V>)
        ensures
            injector@ == InjectorView::fresh(binds@),
            injector@.binds.sound(),
    {
        let mut binds = binds;
        proof {
            binds@.lemma_unresolved_sound();
        }
        binds.forget_instances();
        Injector { binds, loop_checker: LoopChecker::new() }
    }

    /// Every binding of the registry can be named by a slot.
    pub proof fn lemma_fits(&self)
        ensures
            self@.binds.graph().fits(),
    {
        self.binds.lemma_fits();
    }

    /// The overridable binding of the type of `key`, if there is one.
    pub fn get_overridable_bind(&self, key: &TypeKey) -> (found: Option<Slot>)
        ensures
            match found {
                Some(slot) => {
                    &&& slot.overridable
                    &&& crate::graph::Node::position(self@.binds.graph().overridable, key@.id)
                        == Some(slot.index as int)
                },
                None => crate::graph::Node::position(
                    self@.binds.graph().overridable,
                    key@.id,
                ).is_none(),
            },
    {
        self.binds.find_overridable(key)
    }

    /// The binding that resolves the type of `key`: the primary one or,
    /// where there is none, the overridable one.
    pub fn get_bind(&self, key: &TypeKey) -> (found: Option<Slot>)
        ensures
            found == self@.binds.lookup(key@.id),
            found matches Some(slot) ==> self@.binds.has(slot) && self@.binds.at(slot).key.id
                == key@.id,
    {
        self.binds.lookup(key)
    }

    /// The memoized instance of the type of `key`, if its binding holds one.
    /// Nothing is resolved.
    pub fn instance(&self, key: &TypeKey) -> (found: Option<&V>)
        ensures
            match found {
                Some(value) => self@.binds.holds(key@) && *value == self@.binds.instance_of(key@),
                None => !self@.binds.holds(key@),
            },
    {
        match self.binds.lookup(key) {
            None => None,
            Some(slot) => self.binds.binding(slot).instance(),
        }
    }

    /// Resolves the type of `key` and returns a clone of its instance. A
    /// type without a binding has no instance, which is no fault.
    pub fn get_instance(&mut self, key: &TypeKey) -> (done: Result<Option<V>, Fault>) where
        V: Clone,

        ensures
            match old(self)@.binds.lookup(key@.id) {
                None => done matches Ok(None) && final(self)@ == old(self)@,
                Some(slot) => {
                    &&& final(self)@.follows(old(self)@, old(self)@.resolve(slot))
                    &&& !old(self)@.binds.ready().contains(slot) && done.is_ok()
                        ==> final(self)@.binds.produced(slot)
                    &&& old(self)@.binds.ready().contains(slot) || old(self)@.path.contains(
                        old(self)@.binds.at(slot).key.name,
                    ) ==> final(self)@ == old(self)@
                    &&& match done {
                        Ok(Some(value)) => {
                            &&& old(self)@.resolve(slot).fault.is_none()
                            &&& final(self)@.binds.holds(key@)
                            &&& cloned(final(self)@.binds.instance_of(key@), value)
                        },
                        Ok(None) => false,
                        Err(fault) => old(self)@.resolve(slot).fault == Some(fault@),
                    }
                },
            },
    {
        match self.get_bind(key) {
            None => Ok(None),
            Some(slot) => {
                let ghost before = self@;
                match self.prepare_instance(slot) {
                    Err(fault) => Err(fault),
                    Ok(()) => {
                        proof {
                            self@.binds.lemma_extends(before.binds);
                        }
                        match self.binds.binding(slot).instance() {
                            Some(value) => Ok(Some(value.clone())),
                            None => Ok(None),
                        }
                    },
                }
            },
        }
    }

    /// Resolves the types `keys` in order and calls `c` with their
    /// instances.
    pub fn call_resolved<R, C: Constructor<V, R>>(&mut self, c: &C, keys: &Vec<TypeKey>) -> (done:
        Result<R, Fault>)
        ensures
            Self::called(old(self)@, final(self)@, *c, KeyView::of_all(keys@), done),
    {
        let nobody = String::new();
        match self.prepare_all(keys, &nobody) {
            Err(fault) => Err(fault),
            Ok(()) => {
                let args = self.binds.instances(keys);
                Ok(c.new(args))
            },
        }
    }

    /// Resolves the parameters of `c`, left to right, and calls it with
    /// their instances. A parameter without a binding is a fault.
    pub fn inject_and_call<R, C: Constructor<V, R>>(&mut self, c: &C) -> (done: Result<R, Fault>)
        ensures
            exists|keys: Vec<TypeKey>| #[trigger]
                call_ensures(C::parameters, (c,), keys) && Self::called(
                    old(self)@,
                    final(self)@,
                    *c,
                    KeyView::of_all(keys@),
                    done,
                ),
    {
        let keys = c.parameters();
        let done = self.call_resolved(c, &keys);
        proof {
            assert(call_ensures(C::parameters, (c,), keys));
        }
        done
    }

    /// Whether `after` and `done` are what resolving the types `keys` in
    /// the injector `before` and calling `c` with their instances comes
    /// to: a fault of the resolution is reported, and without one `done` is
    /// what `c` made of the instances.
    pub open spec fn called<R, C: Constructor<V, R>>(
        before: InjectorView<V>,
        after: InjectorView<V>,
        c: C,
        keys: Seq<KeyView>,
        done: Result<R, Fault>,
    ) -> bool {
        &&& after.follows(before, before.resolve_all(keys, Seq::empty()))
        &&& match done {
            Ok(out) => {
                &&& before.resolve_all(keys, Seq::empty()).fault.is_none()
                &&& after.binds.available(keys)
                &&& c.constructs(after.binds.instances_of(keys), out)
            },
            Err(fault) => before.resolve_all(keys, Seq::empty()).fault == Some(fault@),
        }
    }

    /// Resolves the binding at `slot`: unless it holds an instance already,
    /// resolves its dependencies, has its provider produce an instance from
    /// theirs, hands that through the interceptors of its type and memoizes
    /// the result. A binding whose name is under resolution is a cycle.
    pub fn prepare_instance(&mut self, slot: Slot) -> (done: Result<(), Fault>)
        requires
            old(self)@.binds.has(slot),
        ensures
            final(self)@.follows(old(self)@, old(self)@.resolve(slot)),
            reports(done, old(self)@.resolve(slot)),
            done.is_ok() && !old(self)@.binds.ready().contains(slot)
                ==> final(self)@.binds.produced(slot),
            old(self)@.binds.ready().contains(slot) || old(self)@.path.contains(
                old(self)@.binds.at(slot).key.name,
            ) ==> final(self)@ == old(self)@,
        decreases old(self)@.binds.graph().unvisited(old(self)@.path), 0nat,
    {
        let ghost before = self@;
        let ghost graph = before.binds.graph();
        let name = self.binds.binding(slot).key().name().clone();
        if self.loop_checker.contains(&name) {
            let path = self.loop_checker.visit(name).path();
            proof {
                before.binds.lemma_extends(before.binds);
            }
            return Err(Fault::CycleDetected { path });
        }
        if self.binds.binding(slot).instance().is_some() {
            proof {
                before.binds.lemma_extends(before.binds);
            }
            return Ok(());
        }
        let keys = self.binds.dependencies(slot);
        let mut checker = self.loop_checker.visit(name.clone());
        core::mem::swap(&mut self.loop_checker, &mut checker);
        proof {
            graph.lemma_descent(before.path, slot);
        }
        let below = self.prepare_all(&keys, &name);
        core::mem::swap(&mut self.loop_checker, &mut checker);
        let ghost middle = self@;
        proof {
            middle.binds.lemma_extends(before.binds);
            assert(before.path.push(name@)[before.path.len() as int] == name@);
            graph.lemma_path_kept_all(
                before.binds.ready(),
                before.path.push(name@),
                KeyView::of_all(keys@),
                name@,
                0,
                slot,
            );
        }
        match below {
            Err(fault) => Err(fault),
            Ok(()) => {
                assert(middle.binds.supplied(slot));
                let raw = self.binds.produce(slot);
                let value = self.binds.intercept_all(self.binds.binding(slot).key(), raw);
                self.binds.store(slot, value);
                proof {
                    let after = self@.binds;
                    middle.binds.lemma_holding(slot, value);
                    after.lemma_extends(before.binds);
                    if before.binds.sound() {
                        middle.binds.lemma_holding_sound(slot, raw, value);
                    }
                    assert(after.arguments(slot) =~= middle.binds.arguments(slot)) by {
                        let keys = middle.binds.at(slot).dependencies;
                        assert forall|j: int| 0 <= j < keys.len() implies after.instance_of(keys[j])
                            == middle.binds.instance_of(keys[j]) by {
                            assert(middle.binds.holds(keys[j]));
                        }
                    }
                    assert((after.at(slot).yields)(after.arguments(slot), raw));
                    assert(after.intercepted_to(after.at(slot).key.id, raw, value));
                }
                Ok(())
            },
        }
    }

    /// Resolves the bindings at `slots` in order. The first fault ends the
    /// resolution.
    pub fn prepare_each(&mut self, slots: &Vec<Slot>) -> (done: Result<(), Fault>)
        requires
            forall|k: int| 0 <= k < slots@.len() ==> old(self)@.binds.has(#[trigger] slots@[k]),
        ensures
            final(self)@.follows(old(self)@, old(self)@.resolve_each(slots@)),
            reports(done, old(self)@.resolve_each(slots@)),
            done.is_ok() ==> forall|k: int|
                0 <= k < slots@.len() ==> final(self)@.binds.ready().contains(#[trigger] slots@[k]),
    {
        let ghost before = self@;
        let ghost graph = before.binds.graph();
        let ghost total = before.resolve_each(slots@);
        proof {
            before.binds.lemma_extends(before.binds);
        }
        let mut i: usize = 0;
        while i < slots.len()
            invariant
                i <= slots@.len(),
                before == old(self)@,
                graph == before.binds.graph(),
                self@.path == before.path,
                self@.binds.extends(before.binds),
                before.binds.sound() ==> self@.binds.sound(),
                forall|k: int| 0 <= k < slots@.len() ==> before.binds.has(#[trigger] slots@[k]),
                total == before.resolve_each(slots@),
                total == graph.resolve_each(self@.binds.ready(), before.path, slots@, i as nat),
                forall|k: int| 0 <= k < i ==> self@.binds.ready().contains(#[trigger] slots@[k]),
            decreases slots@.len() - i,
        {
            let ghost entry = self@;
            proof {
                entry.binds.lemma_extends(before.binds);
                assert(before.binds.has(slots@[i as int]));
            }
            match self.prepare_instance(slots[i]) {
                Err(fault) => {
                    proof {
                        self@.binds.lemma_extends(entry.binds);
                    }
                    return Err(fault);
                },
                Ok(()) => {
                    proof {
                        self@.binds.lemma_extends(entry.binds);
                        self@.binds.lemma_extends(before.binds);
                        assert forall|k: int| 0 <= k < i + 1 implies self@.binds.ready().contains(
                            #[trigger] slots@[k],
                        ) by {
                            if k < i {
                                assert(entry.binds.ready().contains(slots@[k]));
                            }
                        }
                    }
                },
            }
            i += 1;
        }
        proof {
            self@.binds.lemma_extends(before.binds);
        }
        Ok(())
    }

    /// Resolves the eager bindings: the primary ones in the order of their
    /// registration, then the overridable ones in theirs. The first fault
    /// ends the resolution.
    pub fn prepare_eager(&mut self) -> (done: Result<(), Fault>)
        ensures
            final(self)@.follows(old(self)@, old(self)@.materialize()),
            reports(done, old(self)@.materialize()),
            done.is_ok() ==> final(self)@.materialized(),
    {
        let ghost before = self@;
        let eager = self.binds.get_eager_bindings();
        let done = self.prepare_each(&eager);
        proof {
            if done.is_ok() {
                assert(self@.binds.eager_slots() =~= before.binds.eager_slots()) by {
                    self@.binds.lemma_extends_eager(before.binds);
                }
            }
        }
        done
    }

    /// Resolves the types `keys` in order, on behalf of `required_by`. A
    /// type without a binding is a fault; the first fault ends the
    /// resolution.
    pub fn prepare_all(&mut self, keys: &Vec<TypeKey>, required_by: &String) -> (done: Result<
        (),
        Fault,
    >)
        ensures
            final(self)@.follows(
                old(self)@,
                old(self)@.resolve_all(KeyView::of_all(keys@), required_by@),
            ),
            reports(done, old(self)@.resolve_all(KeyView::of_all(keys@), required_by@)),
            done.is_ok() ==> final(self)@.binds.available(KeyView::of_all(keys@)),
        decreases old(self)@.binds.graph().unvisited(old(self)@.path), 1nat,
    {
        let ghost before = self@;
        let ghost graph = before.binds.graph();
        let ghost wanted = KeyView::of_all(keys@);
        let ghost total = before.resolve_all(wanted, required_by@);
        proof {
            before.binds.lemma_extends(before.binds);
        }
        let mut i: usize = 0;
        while i < keys.len()
            invariant
                i <= keys@.len(),
                before == old(self)@,
                wanted == KeyView::of_all(keys@),
                graph == before.binds.graph(),
                self@.path == before.path,
                self@.binds.extends(before.binds),
                before.binds.sound() ==> self@.binds.sound(),
                total == graph.resolve_all(
                    self@.binds.ready(),
                    before.path,
                    wanted,
                    required_by@,
                    i as nat,
                ),
                total == before.resolve_all(wanted, required_by@),
                self@.binds.available(wanted.take(i as int)),
            decreases keys@.len() - i,
        {
            let ghost entry = self@;
            proof {
                entry.binds.lemma_extends(before.binds);
                assert(wanted[i as int] == keys@[i as int]@);
                assert(total == match graph.lookup(wanted[i as int].id) {
                    None => Outcome {
                        ready: entry.binds.ready(),
                        fault: Some(
                            FaultView::UnboundDependency {
                                name: wanted[i as int].name,
                                required_by: required_by@,
                            },
                        ),
                    },
                    Some(target) => {
                        let first = graph.resolve(entry.binds.ready(), before.path, target);
                        if first.fault.is_some() {
                            first
                        } else {
                            graph.resolve_all(
                                first.ready,
                                before.path,
                                wanted,
                                required_by@,
                                (i + 1) as nat,
                            )
                        }
                    },
                });
            }
            match self.get_bind(&keys[i]) {
                None => {
                    return Err(
                        Fault::UnboundDependency {
                            name: keys[i].name().clone(),
                            required_by: required_by.clone(),
                        },
                    );
                },
                Some(target) => {
                    match self.prepare_instance(target) {
                        Err(fault) => {
                            proof {
                                self@.binds.lemma_extends(entry.binds);
                            }
                            return Err(fault);
                        },
                        Ok(()) => {
                            proof {
                                self@.binds.lemma_extends(entry.binds);
                                self@.binds.lemma_extends(before.binds);
                                assert(self@.binds.ready().contains(target));
                                let done = wanted.take(i as int + 1);
                                assert forall|j: int| 0 <= j < done.len() implies self@.binds.holds(
                                    #[trigger] done[j],
                                ) by {
                                    if j < i {
                                        assert(entry.binds.holds(wanted.take(i as int)[j]));
                                    }
                                }
                            }
                        },
                    }
                },
            }
            i += 1;
        }
        proof {
            self@.binds.lemma_extends(before.binds);
            assert(wanted.take(i as int) == wanted);
        }
        Ok(())
    }
}

} // verus!
