//! Bindings: the entries of a registry.

use crate::key::KeyView;
use crate::key::TypeKey;
use crate::provider::Erased;
use crate::provider::InterceptProviderAny;
use crate::provider::ProviderAny;
use vstd::prelude::*;

verus! {

/// What a [`Binding`] stands for in contracts.
#[verifier::reject_recursive_types(V)]
pub struct BindingView<V> {
    /// The type that is bound.
    pub key: KeyView,
    /// The types whose instances the provider expects, in order.
    pub dependencies: Seq<KeyView>,
    /// What the provider promises: `yields(args, out)` holds of every
    /// instance `out` that it hands out for the dependency instances `args`.
    pub yields: spec_fn(Seq<V>, V) -> bool,
    /// Whether the instance is produced as soon as an injector is built.
    pub eager: bool,
    /// The memoized instance, once it was produced.
    pub instance: Option<V>,
}

impl<V> BindingView<V> {
    /// A lazy binding without an instance.
    pub open spec fn fresh(
        key: KeyView,
        dependencies: Seq<KeyView>,
        yields: spec_fn(Seq<V>, V) -> bool,
    ) -> Self {
        BindingView { key, dependencies, yields, eager: false, instance: None }
    }

    /// Whether this is the binding `before` after resolutions: nothing
    /// changed but that an instance may have been memoized, and an instance
    /// that was memoized before is the same.
    pub open spec fn extends(self, before: Self) -> bool {
        &&& self.key == before.key
        &&& self.dependencies == before.dependencies
        &&& self.yields == before.yields
        &&& self.eager == before.eager
        &&& before.instance.is_some() ==> self.instance == before.instance
    }

    /// The same binding, without an instance.
    pub open spec fn unresolved(self) -> Self {
        BindingView { instance: None, ..self }
    }

    /// The same binding, marked as eager.
    pub open spec fn as_eager(self) -> Self {
        BindingView { eager: true, ..self }
    }

    /// The same binding, holding `value` as its instance.
    pub open spec fn holding(self, value: V) -> Self {
        BindingView { instance: Some(value), ..self }
    }
}

/// Pairs a type with the provider of its instance, and memoizes that
/// instance once it was produced.
#[verifier::reject_recursive_types(V)]
pub struct Binding<V> {
    key: TypeKey,
    dependencies: Vec<TypeKey>,
    provider: Box<dyn ProviderAny<V>>,
    instance: Option<V>,
    is_eager: bool,
}

impl<V> View for Binding<V> {
    type V = BindingView<V>;

    closed spec fn view(&self) -> BindingView<V> {
        BindingView {
            key: self.key@,
            dependencies: KeyView::of_all(self.dependencies@),
            yields: |args: Seq<V>, out: V| self.provider.provides_any(args, out),
            eager: self.is_eager,
            instance: self.instance,
        }
    }
}

impl<V> Binding<V> {
    /// A lazy binding of `key` to `provider`, which expects the instances of
    /// `dependencies`. No instance is memoized yet.
    pub fn new<P: ProviderAny<V> + 'static>(
        key: TypeKey,
        dependencies: Vec<TypeKey>,
        provider: P,
    ) -> (binding: Binding<V>)
        ensures
            binding@ == BindingView::fresh(
                key@,
                KeyView::of_all(dependencies@),
                |args: Seq<V>, out: V| provider.provides_any(args, out),
            ),
    {
        let binding = Binding {
            key,
            dependencies,
            provider: Box::new(Erased(provider)),
            instance: None,
            is_eager: false,
        };
        let ghost promised = |args: Seq<V>, out: V| provider.provides_any(args, out);
        assert forall|args: Seq<V>, out: V| #[trigger]
            (binding@.yields)(args, out) == promised(args, out) by {
            assert(binding.provider.provides_any(args, out) == Erased(provider).provides_any(
                args,
                out,
            ));
        }
        assert(binding@.yields =~= promised);
        binding
    }

    /// Marks the binding as eager.
    pub fn set_as_eager(&mut self)
        ensures
            final(self)@ == old(self)@.as_eager(),
    {
        self.is_eager = true;
    }

    /// The type that is bound.
    pub fn key(&self) -> (key: &TypeKey)
        ensures
            key@ == self@.key,
    {
        &self.key
    }

    /// Whether the binding is eager.
    pub fn is_eager(&self) -> (eager: bool)
        ensures
            eager == self@.eager,
    {
        self.is_eager
    }

    /// How many dependencies the provider expects.
    pub fn dependency_count(&self) -> (count: usize)
        ensures
            count == self@.dependencies.len(),
    {
        self.dependencies.len()
    }

    /// The dependency at position `index`.
    pub fn dependency(&self, index: usize) -> (key: &TypeKey)
        requires
            index < self@.dependencies.len(),
        ensures
            key@ == self@.dependencies[index as int],
    {
        &self.dependencies[index]
    }

    /// The memoized instance, if there is one.
    pub fn instance(&self) -> (instance: Option<&V>)
        ensures
            match instance {
                Some(value) => self@.instance == Some(*value),
                None => self@.instance.is_none(),
            },
    {
        self.instance.as_ref()
    }

    /// Has the provider produce an instance from `args`, the instances of
    /// the dependencies. Nothing is memoized.
    pub fn provide(&self, args: Vec<&V>) -> (out: V)
        ensures
            (self@.yields)(crate::provider::pointees(args@), out),
    {
        self.provider.provide_any(args)
    }

    /// Forgets the memoized instance.
    pub fn forget(&mut self)
        ensures
            final(self)@ == old(self)@.unresolved(),
    {
        self.instance = None;
    }

    /// Memoizes `value` as the instance.
    pub fn store(&mut self, value: V)
        ensures
            final(self)@ == old(self)@.holding(value),
    {
        self.instance = Some(value);
    }
}

/// What an [`InterceptBinding`] stands for in contracts.
#[verifier::reject_recursive_types(V)]
pub struct InterceptView<V> {
    /// The type whose instances are intercepted.
    pub key: KeyView,
    /// What the interceptor promises: `replaces(ins, out)` holds of every
    /// instance `out` that it returns for `ins`.
    pub replaces: spec_fn(V, V) -> bool,
}

/// Pairs a type with one interceptor of its instance.
#[verifier::reject_recursive_types(V)]
pub struct InterceptBinding<V> {
    key: TypeKey,
    provider: Box<dyn InterceptProviderAny<V>>,
}

impl<V> View for InterceptBinding<V> {
    type V = InterceptView<V>;

    closed spec fn view(&self) -> InterceptView<V> {
        InterceptView {
            key: self.key@,
            replaces: |ins: V, out: V| self.provider.intercepts_any(ins, out),
        }
    }
}

impl<V> InterceptBinding<V> {
    /// Pairs `key` with `provider`.
    pub fn new<P: InterceptProviderAny<V> + 'static>(key: TypeKey, provider: P) -> (binding: Self)
        ensures
            binding@ == (InterceptView {
                key: key@,
                replaces: |ins: V, out: V| provider.intercepts_any(ins, out),
            }),
    {
        let binding = InterceptBinding { key, provider: Box::new(Erased(provider)) };
        let ghost promised = |ins: V, out: V| provider.intercepts_any(ins, out);
        assert forall|ins: V, out: V| #[trigger]
            (binding@.replaces)(ins, out) == promised(ins, out) by {
            assert(binding.provider.intercepts_any(ins, out) == Erased(provider).intercepts_any(
                ins,
                out,
            ));
        }
        assert(binding@.replaces =~= promised);
        binding
    }

    /// The type whose instances are intercepted.
    pub fn key(&self) -> (key: &TypeKey)
        ensures
            key@ == self@.key,
    {
        &self.key
    }

    /// Has the interceptor replace `ins`.
    pub fn intercept(&self, ins: V) -> (out: V)
        ensures
            (self@.replaces)(ins, out),
    {
        self.provider.intercept_any(ins)
    }
}

} // verus!
