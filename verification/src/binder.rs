//! The registry of bindings and interceptors that modules fill.

use crate::binding::Binding;
use crate::binding::BindingView;
use crate::binding::InterceptBinding;
use crate::binding::InterceptView;
use crate::fault::Fault;
use crate::fault::FaultView;
use crate::graph::Node;
use crate::key::KeyView;
use crate::key::TypeKey;
use crate::provider::BoxedIntercept;
use crate::provider::BoxedProvider;
use crate::provider::Constructor;
use crate::provider::ConstructorProvider;
use crate::provider::InterceptFunc;
use crate::provider::InterceptProvider;
use crate::provider::InterceptProviderAny;
use crate::provider::Provider;
use crate::provider::ProviderAny;
use crate::provider::SingletonProvider;
use crate::view::BinderView;
use vstd::prelude::*;

verus! {

/// Names one binding of a registry: the list that holds it and its position
/// there.
#[derive(Clone, Copy, Debug, PartialEq, Eq, Structural)]
pub struct Slot {
    /// Whether the binding stands among the overridable bindings.
    pub overridable: bool,
    /// The position of the binding in its list.
    pub index: usize,
}

/// The registry: primary bindings, overridable bindings that a primary one
/// of the same type supersedes, and the interceptors of each type.
#[verifier::reject_recursive_types(V)]
pub struct Binder<V> {
    binds: Vec<Binding<V>>,
    overridable: Vec<Binding<V>>,
    intercepts: Vec<InterceptBinding<V>>,
}

/// The views of the bindings of a list, in order.
pub open spec fn binding_views<V>(bindings: Seq<Binding<V>>) -> Seq<BindingView<V>> {
    bindings.map_values(|b: Binding<V>| b@)
}

/// The views of the interceptors of a list, in order.
pub open spec fn intercept_views<V>(intercepts: Seq<InterceptBinding<V>>) -> Seq<
    InterceptView<V>,
> {
    intercepts.map_values(|b: InterceptBinding<V>| b@)
}

impl<V> View for Binder<V> {
    type V = BinderView<V>;

    closed spec fn view(&self) -> BinderView<V> {
        BinderView {
            binds: binding_views(self.binds@),
            overridable: binding_views(self.overridable@),
            intercepts: intercept_views(self.intercepts@),
        }
    }
}

/// The position of the first binding of the type of `key` among `bindings`.
pub fn find<V>(bindings: &Vec<Binding<V>>, key: &TypeKey) -> (found: Option<usize>)
    ensures
        match found {
            Some(i) => BindingView::position(binding_views(bindings@), key@.id) == Some(i as int),
            None => BindingView::position(binding_views(bindings@), key@.id).is_none(),
        },
{
    let mut i: usize = 0;
    while i < bindings.len()
        invariant
            i <= bindings@.len(),
            forall|j: int| 0 <= j < i ==> bindings@[j]@.key.id != key@.id,
        decreases bindings@.len() - i,
    {
        if bindings[i].key().same_type(key) {
            proof {
                let nodes = BindingView::nodes(binding_views(bindings@));
                Node::lemma_position(nodes, key@.id);
                assert(nodes[i as int].key.id == key@.id);
                assert forall|j: int| 0 <= j < i implies nodes[j].key.id != key@.id by {
                    assert(nodes[j].key == bindings@[j]@.key);
                }
            }
            return Some(i);
        }
        i += 1;
    }
    proof {
        let nodes = BindingView::nodes(binding_views(bindings@));
        Node::lemma_position(nodes, key@.id);
        assert forall|j: int| 0 <= j < nodes.len() implies nodes[j].key.id != key@.id by {
            assert(nodes[j].key == bindings@[j]@.key);
        }
    }
    None
}

/// Moves the bindings of `theirs` behind those of `mine`, but for each whose
/// type is bound before it.
pub fn merge_bindings<V>(mine: &mut Vec<Binding<V>>, theirs: Vec<Binding<V>>)
    ensures
        binding_views(final(mine)@) == BindingView::merged(
            binding_views(old(mine)@),
            binding_views(theirs@),
        ),
{
    let ghost start = binding_views(mine@);
    let ghost all = binding_views(theirs@);
    for binding in it: theirs
        invariant
            it.seq() == theirs@,
            all == binding_views(theirs@),
            binding_views(mine@) == BindingView::merged(start, all.take(it.index() as int)),
    {
        proof {
            let n = it.index() as int;
            assert(all.take(n + 1).drop_last() == all.take(n));
            assert(all.take(n + 1).last() == binding@);
        }
        let ghost before = binding_views(mine@);
        if find(mine, binding.key()).is_none() {
            mine.push(binding);
            assert(binding_views(mine@) == before.push(binding@));
        }
    }
    proof {
        assert(all.take(theirs@.len() as int) == all);
    }
}

impl<V> Binder<V> {
    /// A registry without any binding or interceptor.
    pub fn new() -> (binder: Binder<V>)
        ensures
            binder@ == BinderView::<V>::empty(),
    {
        let binder = Binder { binds: Vec::new(), overridable: Vec::new(), intercepts: Vec::new() };
        assert(binder@.binds == Seq::<BindingView<V>>::empty());
        assert(binder@.overridable == Seq::<BindingView<V>>::empty());
        assert(binder@.intercepts == Seq::<InterceptView<V>>::empty());
        binder
    }

    /// Begins the binding of the type of `key`: the builder that is
    /// returned registers it with a provider.
    pub fn bind<'a>(&'a mut self, key: TypeKey) -> (to: BindTo<'a, V>)
        ensures
            *to.binder == *old(self),
            *final(to.binder) == *final(self),
            to.key@ == key@,
    {
        BindTo { binder: self, key }
    }

    /// Begins the interception of the type of `key`: the builder that is
    /// returned registers one interceptor.
    pub fn intercept<'a>(&'a mut self, key: TypeKey) -> (to: Intercept<'a, V>)
        ensures
            *to.binder == *old(self),
            *final(to.binder) == *final(self),
            to.key@ == key@,
    {
        Intercept { binder: self, key }
    }

    /// Appends `interceptor` to the interceptors.
    pub fn add_interceptor(&mut self, interceptor: InterceptBinding<V>)
        ensures
            final(self)@ == (BinderView {
                intercepts: old(self)@.intercepts.push(interceptor@),
                ..old(self)@
            }),
    {
        self.intercepts.push(interceptor);
        assert(intercept_views(self.intercepts@) == intercept_views(old(self).intercepts@).push(
            interceptor@,
        ));
    }

    /// Merges `other` into this registry. A primary binding of `other`
    /// joins the primary bindings unless its type is bound there already;
    /// every interceptor of `other` is appended.
    pub fn merge(&mut self, other: Binder<V>)
        ensures
            final(self)@ == old(self)@.merge(other@),
    {
        let Binder { binds, overridable: _, intercepts } = other;
        merge_bindings(&mut self.binds, binds);
        let mut intercepts = intercepts;
        self.intercepts.append(&mut intercepts);
        assert(intercept_views(self.intercepts@) == intercept_views(old(self).intercepts@)
            + intercept_views(other.intercepts@));
    }

    /// Merges `other` into this registry as defaults. A primary binding of
    /// `other` joins the overridable bindings unless its type is bound
    /// there already; every interceptor of `other` is appended.
    pub fn merge_overridable(&mut self, other: Binder<V>)
        ensures
            final(self)@ == old(self)@.merge_overridable(other@),
    {
        let Binder { binds, overridable: _, intercepts } = other;
        merge_bindings(&mut self.overridable, binds);
        let mut intercepts = intercepts;
        self.intercepts.append(&mut intercepts);
        assert(intercept_views(self.intercepts@) == intercept_views(old(self).intercepts@)
            + intercept_views(other.intercepts@));
    }

    /// The eager bindings: the primary ones in the order of their
    /// registration, then the overridable ones in theirs.
    pub fn get_eager_bindings(&self) -> (eager: Vec<Slot>)
        ensures
            eager@ == self@.eager_slots(),
            forall|k: int| 0 <= k < eager@.len() ==> self@.has(#[trigger] eager@[k]),
    {
        let mut eager: Vec<Slot> = Vec::new();
        let ghost primary = binding_views(self.binds@);
        let ghost fallback = binding_views(self.overridable@);
        let mut i: usize = 0;
        while i < self.binds.len()
            invariant
                i <= self.binds@.len(),
                primary == binding_views(self.binds@),
                eager@ == BindingView::eager_positions(primary.take(i as int)).map_values(
                    |p: int| Slot { overridable: false, index: p as usize },
                ),
                forall|k: int| 0 <= k < eager@.len() ==> self@.has(#[trigger] eager@[k]),
            decreases self.binds@.len() - i,
        {
            proof {
                assert(primary.take(i as int + 1).drop_last() == primary.take(i as int));
            }
            if self.binds[i].is_eager() {
                eager.push(Slot { overridable: false, index: i });
            }
            i += 1;
        }
        proof {
            assert(primary.take(i as int) == primary);
        }
        let ghost first = eager@;
        let mut j: usize = 0;
        while j < self.overridable.len()
            invariant
                j <= self.overridable@.len(),
                fallback == binding_views(self.overridable@),
                eager@ == first + BindingView::eager_positions(
                    fallback.take(j as int),
                ).map_values(|p: int| Slot { overridable: true, index: p as usize }),
                forall|k: int| 0 <= k < eager@.len() ==> self@.has(#[trigger] eager@[k]),
            decreases self.overridable@.len() - j,
        {
            proof {
                assert(fallback.take(j as int + 1).drop_last() == fallback.take(j as int));
            }
            if self.overridable[j].is_eager() {
                eager.push(Slot { overridable: true, index: j });
            }
            j += 1;
        }
        proof {
            assert(fallback.take(j as int) == fallback);
        }
        eager
    }

    /// The positions of the interceptors of the type of `key`, in the order
    /// of their registration.
    pub fn get_intercepts(&self, key: &TypeKey) -> (found: Vec<usize>)
        ensures
            found@.map_values(|p: usize| p as int) == InterceptView::positions(
                self@.intercepts,
                key@.id,
            ),
    {
        let mut found: Vec<usize> = Vec::new();
        let ghost all = intercept_views(self.intercepts@);
        let mut i: usize = 0;
        while i < self.intercepts.len()
            invariant
                i <= self.intercepts@.len(),
                all == intercept_views(self.intercepts@),
                found@.map_values(|p: usize| p as int) == InterceptView::positions(
                    all.take(i as int),
                    key@.id,
                ),
            decreases self.intercepts@.len() - i,
        {
            proof {
                assert(all.take(i as int + 1).drop_last() == all.take(i as int));
            }
            if self.intercepts[i].key().same_type(key) {
                let ghost before = found@;
                found.push(i);
                assert(found@.map_values(|p: usize| p as int) == before.map_values(
                    |p: usize| p as int,
                ).push(i as int));
            }
            i += 1;
        }
        proof {
            assert(all.take(i as int) == all);
        }
        found
    }

    /// The primary binding of the type of `key`, if there is one.
    pub fn find_primary(&self, key: &TypeKey) -> (found: Option<Slot>)
        ensures
            match found {
                Some(slot) => {
                    &&& !slot.overridable
                    &&& Node::position(self@.graph().binds, key@.id) == Some(slot.index as int)
                },
                None => Node::position(self@.graph().binds, key@.id).is_none(),
            },
    {
        match find(&self.binds, key) {
            Some(index) => Some(Slot { overridable: false, index }),
            None => None,
        }
    }

    /// The overridable binding of the type of `key`, if there is one.
    pub fn find_overridable(&self, key: &TypeKey) -> (found: Option<Slot>)
        ensures
            match found {
                Some(slot) => {
                    &&& slot.overridable
                    &&& Node::position(self@.graph().overridable, key@.id) == Some(
                        slot.index as int,
                    )
                },
                None => Node::position(self@.graph().overridable, key@.id).is_none(),
            },
    {
        match find(&self.overridable, key) {
            Some(index) => Some(Slot { overridable: true, index }),
            None => None,
        }
    }

    /// The binding that resolves the type of `key`: the primary one or,
    /// where there is none, the overridable one.
    pub fn lookup(&self, key: &TypeKey) -> (found: Option<Slot>)
        ensures
            found == self@.lookup(key@.id),
            found matches Some(slot) ==> self@.has(slot) && self@.at(slot).key.id == key@.id,
    {
        proof {
            self.lemma_fits();
            self@.graph().lemma_lookup(key@.id);
        }
        match self.find_primary(key) {
            Some(slot) => Some(slot),
            None => self.find_overridable(key),
        }
    }

    /// Every binding of a registry can be named by a slot.
    pub proof fn lemma_fits(&self)
        ensures
            self@.graph().fits(),
    {
        assert(self.binds.len() == self.binds@.len());
        assert(self.overridable.len() == self.overridable@.len());
    }

    /// The binding at `slot`.
    pub fn binding(&self, slot: Slot) -> (binding: &Binding<V>)
        requires
            self@.has(slot),
        ensures
            binding@ == self@.at(slot),
    {
        if slot.overridable {
            &self.overridable[slot.index]
        } else {
            &self.binds[slot.index]
        }
    }

    /// The types that the binding at `slot` depends on, in order.
    pub fn dependencies(&self, slot: Slot) -> (keys: Vec<TypeKey>)
        requires
            self@.has(slot),
        ensures
            KeyView::of_all(keys@) == self@.at(slot).dependencies,
    {
        let binding = self.binding(slot);
        let count = binding.dependency_count();
        let mut keys: Vec<TypeKey> = Vec::new();
        let mut j: usize = 0;
        while j < count
            invariant
                j <= count,
                count == binding@.dependencies.len(),
                keys@.len() == j,
                forall|k: int| 0 <= k < j ==> keys@[k]@ == binding@.dependencies[k],
            decreases count - j,
        {
            keys.push(binding.dependency(j).clone());
            j += 1;
        }
        assert(KeyView::of_all(keys@) =~= binding@.dependencies);
        keys
    }

    /// Forgets every memoized instance.
    pub fn forget_instances(&mut self)
        ensures
            final(self)@ == old(self)@.unresolved(),
    {
        let ghost primary = binding_views(self.binds@);
        let mut i: usize = 0;
        while i < self.binds.len()
            invariant
                i <= self.binds@.len(),
                self.binds@.len() == primary.len(),
                self.overridable == old(self).overridable,
                self.intercepts == old(self).intercepts,
                forall|k: int| 0 <= k < i ==> self.binds@[k]@ == primary[k].unresolved(),
                forall|k: int| i <= k < primary.len() ==> self.binds@[k]@ == primary[k],
            decreases self.binds@.len() - i,
        {
            self.binds[i].forget();
            i += 1;
        }
        let ghost fallback = binding_views(self.overridable@);
        let mut j: usize = 0;
        while j < self.overridable.len()
            invariant
                j <= self.overridable@.len(),
                self.overridable@.len() == fallback.len(),
                self.binds@.len() == primary.len(),
                self.intercepts == old(self).intercepts,
                forall|k: int|
                    0 <= k < primary.len() ==> self.binds@[k]@ == primary[k].unresolved(),
                forall|k: int| 0 <= k < j ==> self.overridable@[k]@ == fallback[k].unresolved(),
                forall|k: int| j <= k < fallback.len() ==> self.overridable@[k]@ == fallback[k],
            decreases self.overridable@.len() - j,
        {
            self.overridable[j].forget();
            j += 1;
        }
        assert(self@.binds =~= old(self)@.unresolved().binds);
        assert(self@.overridable =~= old(self)@.unresolved().overridable);
    }

    /// Memoizes `value` as the instance of the binding at `slot`.
    pub fn store(&mut self, slot: Slot, value: V)
        requires
            old(self)@.has(slot),
        ensures
            final(self)@ == old(self)@.holding(slot, value),
    {
        if slot.overridable {
            let ghost before = binding_views(self.overridable@);
            self.overridable[slot.index].store(value);
            assert(binding_views(self.overridable@) =~= before.update(
                slot.index as int,
                before[slot.index as int].holding(value),
            ));
        } else {
            let ghost before = binding_views(self.binds@);
            self.binds[slot.index].store(value);
            assert(binding_views(self.binds@) =~= before.update(
                slot.index as int,
                before[slot.index as int].holding(value),
            ));
        }
    }

    /// References to the instances of the types `keys`, in their order.
    pub fn instances(&self, keys: &Vec<TypeKey>) -> (args: Vec<&V>)
        requires
            self@.available(KeyView::of_all(keys@)),
        ensures
            crate::provider::pointees(args@) == self@.instances_of(KeyView::of_all(keys@)),
    {
        let ghost wanted = KeyView::of_all(keys@);
        let mut args: Vec<&V> = Vec::new();
        let mut j: usize = 0;
        while j < keys.len()
            invariant
                j <= keys@.len(),
                wanted == KeyView::of_all(keys@),
                self@.available(wanted),
                args@.len() == j,
                forall|k: int| 0 <= k < j ==> *args@[k] == self@.instance_of(wanted[k]),
            decreases keys@.len() - j,
        {
            assert(self@.holds(wanted[j as int]));
            let found = self.lookup(&keys[j]);
            let instance = self.binding(found.unwrap()).instance();
            args.push(instance.unwrap());
            j += 1;
        }
        assert(crate::provider::pointees(args@) =~= self@.instances_of(wanted));
        args
    }

    /// Has the provider of the binding at `slot` produce an instance from
    /// the instances of its dependencies. Nothing is memoized.
    pub fn produce(&self, slot: Slot) -> (out: V)
        requires
            self@.has(slot),
            self@.supplied(slot),
        ensures
            (self@.at(slot).yields)(self@.arguments(slot), out),
    {
        let keys = self.dependencies(slot);
        let args = self.instances(&keys);
        self.binding(slot).provide(args)
    }

    /// Hands `raw` through the interceptors of the type of `key`, in the
    /// order of their registration: each receives what the one before it
    /// returned.
    pub fn intercept_all(&self, key: &TypeKey, raw: V) -> (out: V)
        ensures
            self@.intercepted_to(key@.id, raw, out),
    {
        let positions = self.get_intercepts(key);
        let ghost wanted = InterceptView::positions(self@.intercepts, key@.id);
        proof {
            InterceptView::lemma_positions(self@.intercepts, key@.id);
        }
        let mut value = raw;
        let mut i: usize = 0;
        while i < positions.len()
            invariant
                i <= positions@.len(),
                positions@.map_values(|p: usize| p as int) == wanted,
                forall|k: int|
                    0 <= k < wanted.len() ==> 0 <= #[trigger] wanted[k] < self@.intercepts.len(),
                InterceptView::folded(self@.intercepts, wanted.take(i as int), raw, value),
            decreases positions@.len() - i,
        {
            let position = positions[i];
            assert(wanted[i as int] == position as int);
            let ghost given = value;
            value = self.intercepts[position].intercept(value);
            proof {
                let upto = wanted.take(i as int + 1);
                assert(upto.drop_last() == wanted.take(i as int));
                assert(upto.last() == position as int);
                assert(self@.intercepts[position as int] == self.intercepts@[position as int]@);
                assert(InterceptView::folded(self@.intercepts, upto.drop_last(), raw, given) && (
                self@.intercepts[upto.last()].replaces)(given, value));
            }
            i += 1;
        }
        proof {
            assert(wanted.take(i as int) == wanted);
        }
        value
    }
}

/// The builder that registers the binding of one type.
#[verifier::reject_recursive_types(V)]
pub struct BindTo<'a, V> {
    /// The registry that receives the binding.
    pub binder: &'a mut Binder<V>,
    /// The type that is bound.
    pub key: TypeKey,
}

/// What a successful registration hands back: it can mark the new binding
/// as eager.
#[verifier::reject_recursive_types(V)]
pub struct BindOption<'a, V> {
    /// The registry that holds the binding.
    pub binder: &'a mut Binder<V>,
    /// The type that was bound.
    pub key: TypeKey,
}

/// The builder that registers one interceptor of a type.
#[verifier::reject_recursive_types(V)]
pub struct Intercept<'a, V> {
    /// The registry that receives the interceptor.
    pub binder: &'a mut Binder<V>,
    /// The type whose instances are intercepted.
    pub key: TypeKey,
}

impl<'a, V> BindTo<'a, V> {
    /// Binds the type to `p`, which expects the instances of
    /// `dependencies`. A type that has a primary binding already is not
    /// bound again: that is a fault, and the registry stays as it is.
    pub fn register<P: ProviderAny<V> + 'static>(self, dependencies: Vec<TypeKey>, p: P) -> (done:
        Result<BindOption<'a, V>, Fault>)
        ensures
            match done {
                Ok(option) => {
                    &&& BindingView::position(old(self.binder)@.binds, self.key@.id).is_none()
                    &&& option.binder@ == old(self.binder)@.bound(
                        BindingView::fresh(
                            self.key@,
                            KeyView::of_all(dependencies@),
                            |args: Seq<V>, out: V| p.provides_any(args, out),
                        ),
                    )
                    &&& option.key@ == self.key@
                    &&& *final(option.binder) == *final(self.binder)
                },
                Err(fault) => {
                    &&& BindingView::position(old(self.binder)@.binds, self.key@.id).is_some()
                    &&& fault@ == (FaultView::DuplicateBinding { name: self.key@.name })
                    &&& *final(self.binder) == *old(self.binder)
                },
            },
    {
        let BindTo { binder, key } = self;
        if find(&binder.binds, &key).is_some() {
            return Err(Fault::DuplicateBinding { name: key.name().clone() });
        }
        let ghost before = binding_views(binder.binds@);
        let binding = Binding::new(key.clone(), dependencies, p);
        binder.binds.push(binding);
        assert(binding_views(binder.binds@) == before.push(binding@));
        Ok(BindOption { binder, key })
    }

    /// Binds the type to `p`, with the dependencies that `p` names.
    pub fn to_provider_dyn<P: ProviderAny<V> + 'static>(self, p: P) -> (done: Result<
        BindOption<'a, V>,
        Fault,
    >)
        ensures
            match done {
                Ok(option) => {
                    &&& BindingView::position(old(self.binder)@.binds, self.key@.id).is_none()
                    &&& option.binder@ == old(self.binder)@.bound(
                        BindingView::fresh(
                            self.key@,
                            option.binder@.binds.last().dependencies,
                            |args: Seq<V>, out: V| p.provides_any(args, out),
                        ),
                    )
                    &&& exists|keys: Vec<TypeKey>| #[trigger]
                        call_ensures(P::dependencies_any, (&p,), keys) && KeyView::of_all(keys@)
                            == option.binder@.binds.last().dependencies
                    &&& option.key@ == self.key@
                    &&& *final(option.binder) == *final(self.binder)
                },
                Err(fault) => {
                    &&& BindingView::position(old(self.binder)@.binds, self.key@.id).is_some()
                    &&& fault@ == (FaultView::DuplicateBinding { name: self.key@.name })
                    &&& *final(self.binder) == *old(self.binder)
                },
            },
    {
        let dependencies = p.dependencies_any();
        let ghost named = dependencies;
        let done = self.register(dependencies, p);
        proof {
            if done.is_ok() {
                assert(call_ensures(P::dependencies_any, (&p,), named));
            }
        }
        done
    }

    /// Binds the type to clones of `single`, which depend on nothing.
    pub fn to_singleton(self, single: V) -> (done: Result<BindOption<'a, V>, Fault>) where
        V: Clone + Send + 'static,

        ensures
            match done {
                Ok(option) => {
                    &&& BindingView::position(old(self.binder)@.binds, self.key@.id).is_none()
                    &&& option.binder@ == old(self.binder)@.bound(
                        BindingView::fresh(
                            self.key@,
                            Seq::empty(),
                            |args: Seq<V>, out: V| cloned(single, out),
                        ),
                    )
                    &&& option.key@ == self.key@
                    &&& *final(option.binder) == *final(self.binder)
                },
                Err(fault) => {
                    &&& BindingView::position(old(self.binder)@.binds, self.key@.id).is_some()
                    &&& fault@ == (FaultView::DuplicateBinding { name: self.key@.name })
                    &&& *final(self.binder) == *old(self.binder)
                },
            },
    {
        let provider = SingletonProvider(single);
        let dependencies: Vec<TypeKey> = Vec::new();
        proof {
            let held = |args: Seq<V>, out: V| provider.provides_any(args, out);
            let wanted = |args: Seq<V>, out: V| cloned(single, out);
            assert(held =~= wanted);
            assert(KeyView::of_all(dependencies@) == Seq::<KeyView>::empty());
        }
        self.register(dependencies, provider)
    }

    /// Binds the type to the constructor `c`: its parameters are the
    /// dependencies.
    pub fn to_constructor<C: Constructor<V, V> + Send + 'static>(self, c: C) -> (done: Result<
        BindOption<'a, V>,
        Fault,
    >) where V: Send + 'static
        ensures
            match done {
                Ok(option) => {
                    &&& BindingView::position(old(self.binder)@.binds, self.key@.id).is_none()
                    &&& option.binder@ == old(self.binder)@.bound(
                        BindingView::fresh(
                            self.key@,
                            option.binder@.binds.last().dependencies,
                            |args: Seq<V>, out: V| c.constructs(args, out),
                        ),
                    )
                    &&& exists|keys: Vec<TypeKey>| #[trigger]
                        call_ensures(C::parameters, (&c,), keys) && KeyView::of_all(keys@)
                            == option.binder@.binds.last().dependencies
                    &&& option.key@ == self.key@
                    &&& *final(option.binder) == *final(self.binder)
                },
                Err(fault) => {
                    &&& BindingView::position(old(self.binder)@.binds, self.key@.id).is_some()
                    &&& fault@ == (FaultView::DuplicateBinding { name: self.key@.name })
                    &&& *final(self.binder) == *old(self.binder)
                },
            },
    {
        let dependencies = c.parameters();
        let provider = ConstructorProvider::new(c);
        proof {
            let held = |args: Seq<V>, out: V| provider.provides_any(args, out);
            let wanted = |args: Seq<V>, out: V| c.constructs(args, out);
            assert(held =~= wanted);
        }
        let ghost named = dependencies;
        let done = self.register(dependencies, provider);
        proof {
            if done.is_ok() {
                assert(call_ensures(C::parameters, (&c,), named));
            }
        }
        done
    }

    /// Binds the type to the provider `p`, with the dependencies that `p`
    /// names.
    pub fn to_provider<P: Provider<V, Provided = V> + Send + 'static>(self, p: P) -> (done: Result<
        BindOption<'a, V>,
        Fault,
    >) where V: Send + 'static
        ensures
            match done {
                Ok(option) => {
                    &&& BindingView::position(old(self.binder)@.binds, self.key@.id).is_none()
                    &&& option.binder@ == old(self.binder)@.bound(
                        BindingView::fresh(
                            self.key@,
                            option.binder@.binds.last().dependencies,
                            |args: Seq<V>, out: V| p.provides(args, out),
                        ),
                    )
                    &&& exists|keys: Vec<TypeKey>| #[trigger]
                        call_ensures(P::dependencies, (&p,), keys) && KeyView::of_all(keys@)
                            == option.binder@.binds.last().dependencies
                    &&& option.key@ == self.key@
                    &&& *final(option.binder) == *final(self.binder)
                },
                Err(fault) => {
                    &&& BindingView::position(old(self.binder)@.binds, self.key@.id).is_some()
                    &&& fault@ == (FaultView::DuplicateBinding { name: self.key@.name })
                    &&& *final(self.binder) == *old(self.binder)
                },
            },
    {
        let dependencies = p.dependencies();
        let provider = BoxedProvider::new(p);
        proof {
            let held = |args: Seq<V>, out: V| provider.provides_any(args, out);
            let wanted = |args: Seq<V>, out: V| p.provides(args, out);
            assert(held =~= wanted);
        }
        let ghost named = dependencies;
        let done = self.register(dependencies, provider);
        proof {
            if done.is_ok() {
                assert(call_ensures(P::dependencies, (&p,), named));
            }
        }
        done
    }
}

impl<'a, V> BindOption<'a, V> {
    /// Marks the primary binding of the type as eager.
    pub fn as_eager(self) -> (option: BindOption<'a, V>)
        ensures
            option.binder@ == old(self.binder)@.eager(self.key@.id),
            option.key@ == self.key@,
            *final(option.binder) == *final(self.binder),
    {
        let BindOption { binder, key } = self;
        let ghost before = binding_views(binder.binds@);
        match find(&binder.binds, &key) {
            Some(i) => {
                proof {
                    Node::lemma_position(BindingView::nodes(before), key@.id);
                }
                binder.binds[i].set_as_eager();
                assert(binding_views(binder.binds@) =~= before.update(
                    i as int,
                    before[i as int].as_eager(),
                ));
            },
            None => {},
        }
        BindOption { binder, key }
    }
}

impl<'a, V> Intercept<'a, V> {
    /// Appends `ip` to the interceptors, for the type.
    pub fn to_dyn<P: InterceptProviderAny<V> + 'static>(self, ip: P)
        ensures
            final(self.binder)@ == old(self.binder)@.intercepted(
                InterceptView {
                    key: self.key@,
                    replaces: |ins: V, out: V| ip.intercepts_any(ins, out),
                },
            ),
    {
        let Intercept { binder, key } = self;
        binder.add_interceptor(InterceptBinding::new(key, ip));
    }

    /// Appends the interceptor `ip` to the interceptors, for the type.
    pub fn to<P: InterceptProvider<Provided = V> + Send + 'static>(self, ip: P)
        ensures
            final(self.binder)@ == old(self.binder)@.intercepted(
                InterceptView {
                    key: self.key@,
                    replaces: |ins: V, out: V| ip.intercepts(ins, out),
                },
            ),
    {
        let boxed = BoxedIntercept(ip);
        proof {
            let held = |ins: V, out: V| boxed.intercepts_any(ins, out);
            let wanted = |ins: V, out: V| ip.intercepts(ins, out);
            assert(held =~= wanted);
        }
        self.to_dyn(boxed)
    }

    /// Appends the function `ip`, which accepts every instance, to the
    /// interceptors, for the type.
    pub fn to_func<F: Fn(V) -> V + Send + 'static>(self, ip: F) where V: Send + 'static
        requires
            forall|ins: V| call_requires(ip, (ins,)),
        ensures
            final(self.binder)@ == old(self.binder)@.intercepted(
                InterceptView {
                    key: self.key@,
                    replaces: |ins: V, out: V| call_ensures(ip, (ins,), out),
                },
            ),
    {
        let interceptor = InterceptFunc::new(ip);
        proof {
            let held = |ins: V, out: V| interceptor.intercepts(ins, out);
            let wanted = |ins: V, out: V| call_ensures(ip, (ins,), out);
            assert(held =~= wanted);
        }
        self.to(interceptor)
    }
}

} // verus!
