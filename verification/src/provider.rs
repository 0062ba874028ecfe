//! Providers, constructors and interceptors: the strategies that produce and
//! decorate the instances of bound types.

use crate::key::TypeKey;
use core::marker::PhantomData;
use vstd::prelude::*;

verus! {

/// The values that a list of references points to, in order.
pub open spec fn pointees<V>(args: Seq<&V>) -> Seq<V> {
    args.map_values(|r: &V| *r)
}

/// A provider as a registry holds it: it names the types it depends on and
/// produces an instance from their resolved instances. It can be sent to
/// another thread, so that an injector can.
pub trait ProviderAny<V>: Send {
    /// What the provider promises of an instance `out` that it hands out
    /// for the dependency instances `args`. Unless an implementation says
    /// more, nothing.
    open spec fn provides_any(&self, args: Seq<V>, out: V) -> bool {
        true
    }

    /// The types whose instances `provide_any` expects, in the order in
    /// which it expects them.
    fn dependencies_any(&self) -> Vec<TypeKey>;

    /// Produces an instance from the instances of the dependencies.
    fn provide_any(&self, args: Vec<&V>) -> (out: V)
        ensures
            self.provides_any(pointees(args@), out),
    ;
}

/// Produces a value of type `Provided` from the resolved instances of the
/// types it depends on.
pub trait Provider<V> {
    type Provided;

    /// What the provider promises of a value `out` that it hands out for the
    /// dependency instances `args`. Unless an implementation says more,
    /// nothing.
    open spec fn provides(&self, args: Seq<V>, out: Self::Provided) -> bool {
        true
    }

    /// The types whose instances `provide` expects, in the order in which it
    /// expects them.
    fn dependencies(&self) -> Vec<TypeKey>;

    /// Produces a value from the instances of the dependencies.
    fn provide(&self, args: Vec<&V>) -> (out: Self::Provided)
        ensures
            self.provides(pointees(args@), out),
    ;
}

/// A function of resolved instances: its parameters are types of the
/// registry, and it is called with their instances, left to right.
pub trait Constructor<V, R>: Sized {
    /// What the constructor promises of a result `out` for the parameter
    /// instances `args`. Unless an implementation says more, nothing.
    open spec fn constructs(&self, args: Seq<V>, out: R) -> bool {
        true
    }

    /// The types of the parameters, left to right.
    fn parameters(&self) -> Vec<TypeKey>;

    /// Calls the function with the instances of its parameters.
    fn new(&self, args: Vec<&V>) -> (out: R)
        ensures
            self.constructs(pointees(args@), out),
    ;
}

/// A constructor given by a function of the parameter instances, together
/// with the types of its parameters.
#[verifier::reject_recursive_types(V)]
#[verifier::reject_recursive_types(R)]
pub struct ConstructorFunc<V, R, F: Fn(Vec<&V>) -> R> {
    parameters: Vec<TypeKey>,
    func: F,
    held: PhantomData<(V, R)>,
}

impl<V, R, F: Fn(Vec<&V>) -> R> ConstructorFunc<V, R, F> {
    #[verifier::type_invariant]
    spec fn accepts_all(self) -> bool {
        forall|args: Vec<&V>| call_requires(self.func, (args,))
    }

    /// The types of the parameters, left to right.
    pub closed spec fn required(self) -> Seq<TypeKey> {
        self.parameters@
    }

    /// The function that is called.
    pub closed spec fn function(self) -> F {
        self.func
    }

    /// What the constructor promises is what its function ensures for a
    /// list of references to the instances.
    pub proof fn lemma_constructs(self, args: Seq<V>, out: R)
        ensures
            self.constructs(args, out) == (exists|given: Vec<&V>| #[trigger]
                call_ensures(self.function(), (given,), out) && pointees(given@) == args),
    {
    }

    /// The constructor that calls `func` with the instances of
    /// `parameters`. `func` accepts every list of instances.
    pub fn new(parameters: Vec<TypeKey>, func: F) -> (constructor: Self)
        requires
            forall|args: Vec<&V>| call_requires(func, (args,)),
        ensures
            constructor.required() == parameters@,
            constructor.function() == func,
    {
        ConstructorFunc { parameters, func, held: PhantomData }
    }
}

impl<V, R, F: Fn(Vec<&V>) -> R> Constructor<V, R> for ConstructorFunc<V, R, F> {
    /// `out` is what the function may return for a list of references to
    /// `args`.
    open spec fn constructs(&self, args: Seq<V>, out: R) -> bool {
        exists|given: Vec<&V>| #[trigger]
            call_ensures(self.function(), (given,), out) && pointees(given@) == args
    }

    fn parameters(&self) -> (keys: Vec<TypeKey>)
        ensures
            crate::key::KeyView::of_all(keys@) == crate::key::KeyView::of_all(self.required()),
    {
        crate::key::clone_keys(&self.parameters)
    }

    fn new(&self, args: Vec<&V>) -> (out: R) {
        proof {
            use_type_invariant(self);
        }
        let ghost given = args;
        let out = (self.func)(args);
        assert(call_ensures(self.function(), (given,), out) && pointees(given@) == pointees(
            args@,
        ));
        out
    }
}

/// A constructor whose result is handed to a function: what that function
/// returns is the result.
#[verifier::reject_recursive_types(V)]
#[verifier::reject_recursive_types(R1)]
#[verifier::reject_recursive_types(R2)]
pub struct ConstructorMap<V, C: Constructor<V, R1>, F: Fn(R1) -> R2, R1, R2> {
    c: C,
    f: F,
    held: PhantomData<(V, R1, R2)>,
}

impl<V, C: Constructor<V, R1>, F: Fn(R1) -> R2, R1, R2> ConstructorMap<V, C, F, R1, R2> {
    #[verifier::type_invariant]
    spec fn accepts_all(self) -> bool {
        forall|r: R1| call_requires(self.f, (r,))
    }

    /// The constructor that is called first.
    pub closed spec fn inner(self) -> C {
        self.c
    }

    /// The function that receives the constructor's result.
    pub closed spec fn function(self) -> F {
        self.f
    }

    /// What the mapped constructor promises is what the function ensures
    /// for a result that the inner constructor promises.
    pub proof fn lemma_constructs(self, args: Seq<V>, out: R2)
        ensures
            self.constructs(args, out) == (exists|mid: R1| #[trigger]
                self.inner().constructs(args, mid) && call_ensures(self.function(), (mid,), out)),
    {
    }

    /// The constructor that calls `c` and hands its result to `f`, which
    /// accepts every value.
    pub fn map(c: C, f: F) -> (mapped: Self)
        requires
            forall|r: R1| call_requires(f, (r,)),
        ensures
            mapped.inner() == c,
            mapped.function() == f,
    {
        ConstructorMap { c, f, held: PhantomData }
    }
}

impl<V, C: Constructor<V, R1>, F: Fn(R1) -> R2, R1, R2> Constructor<V, R2> for ConstructorMap<
    V,
    C,
    F,
    R1,
    R2,
> {
    /// `out` is what the function may return for a result of the inner
    /// constructor on `args`.
    open spec fn constructs(&self, args: Seq<V>, out: R2) -> bool {
        exists|mid: R1| #[trigger]
            self.inner().constructs(args, mid) && call_ensures(self.function(), (mid,), out)
    }

    fn parameters(&self) -> (keys: Vec<TypeKey>)
        ensures
            call_ensures(C::parameters, (&self.inner(),), keys),
    {
        self.c.parameters()
    }

    fn new(&self, args: Vec<&V>) -> (out: R2) {
        proof {
            use_type_invariant(self);
        }
        let ghost given = pointees(args@);
        let mid = self.c.new(args);
        let out = (self.f)(mid);
        assert(self.inner().constructs(given, mid) && call_ensures(self.function(), (mid,), out));
        out
    }
}

/// Decorates or replaces an instance that a provider produced, as a registry
/// holds it. It can be sent to another thread, so that an injector can.
pub trait InterceptProviderAny<V>: Send {
    /// What the interceptor promises of the instance `out` that it returns
    /// for `ins`. Unless an implementation says more, nothing.
    open spec fn intercepts_any(&self, ins: V, out: V) -> bool {
        true
    }

    /// Returns the instance that replaces `ins`.
    fn intercept_any(&self, ins: V) -> (out: V)
        ensures
            self.intercepts_any(ins, out),
    ;
}

/// What a registry puts behind a trait object: a provider, an interceptor
/// or a module. It promises what the one inside promises.
pub struct Erased<P>(pub P);

impl<V, P: ProviderAny<V>> ProviderAny<V> for Erased<P> {
    open spec fn provides_any(&self, args: Seq<V>, out: V) -> bool {
        self.0.provides_any(args, out)
    }

    fn dependencies_any(&self) -> (keys: Vec<TypeKey>)
        ensures
            call_ensures(P::dependencies_any, (&self.0,), keys),
    {
        self.0.dependencies_any()
    }

    fn provide_any(&self, args: Vec<&V>) -> (out: V) {
        self.0.provide_any(args)
    }
}

impl<V, P: InterceptProviderAny<V>> InterceptProviderAny<V> for Erased<P> {
    open spec fn intercepts_any(&self, ins: V, out: V) -> bool {
        self.0.intercepts_any(ins, out)
    }

    fn intercept_any(&self, ins: V) -> (out: V) {
        self.0.intercept_any(ins)
    }
}

/// Decorates or replaces a value of type `Provided`.
pub trait InterceptProvider {
    type Provided;

    /// What the interceptor promises of the value `out` that it returns for
    /// `ins`. Unless an implementation says more, nothing.
    open spec fn intercepts(&self, ins: Self::Provided, out: Self::Provided) -> bool {
        true
    }

    /// Returns the value that replaces `ins`.
    fn intercept(&self, ins: Self::Provided) -> (out: Self::Provided)
        ensures
            self.intercepts(ins, out),
    ;
}

impl<V, C: Constructor<V, R1>, F: Fn(R1) -> R2, R1, R2> Provider<V> for ConstructorMap<
    V,
    C,
    F,
    R1,
    R2,
> {
    type Provided = R2;

    /// `out` is what the mapped constructor may return for `args`.
    open spec fn provides(&self, args: Seq<V>, out: R2) -> bool {
        self.constructs(args, out)
    }

    fn dependencies(&self) -> (keys: Vec<TypeKey>)
        ensures
            call_ensures(C::parameters, (&self.inner(),), keys),
    {
        self.parameters()
    }

    fn provide(&self, args: Vec<&V>) -> (out: R2) {
        self.new(args)
    }
}

/// A provider given by a function of the dependency instances, together
/// with the types it depends on.
#[verifier::reject_recursive_types(V)]
#[verifier::reject_recursive_types(T)]
pub struct ProviderFunc<V, T, F: Fn(Vec<&V>) -> T> {
    dependencies: Vec<TypeKey>,
    func: F,
    held: PhantomData<(V, T)>,
}

impl<V, T, F: Fn(Vec<&V>) -> T> ProviderFunc<V, T, F> {
    #[verifier::type_invariant]
    spec fn accepts_all(self) -> bool {
        forall|args: Vec<&V>| call_requires(self.func, (args,))
    }

    /// The types that the function depends on, in the order of its
    /// arguments.
    pub closed spec fn required(self) -> Seq<TypeKey> {
        self.dependencies@
    }

    /// The function that produces the value.
    pub closed spec fn function(self) -> F {
        self.func
    }

    /// What the provider promises is what its function ensures for a list
    /// of references to the instances.
    pub proof fn lemma_provides(self, args: Seq<V>, out: T)
        ensures
            self.provides(args, out) == (exists|given: Vec<&V>| #[trigger]
                call_ensures(self.function(), (given,), out) && pointees(given@) == args),
    {
    }

    /// The provider that calls `func` with the instances of `dependencies`.
    /// `func` accepts every list of instances.
    pub fn new(dependencies: Vec<TypeKey>, func: F) -> (provider: Self)
        requires
            forall|args: Vec<&V>| call_requires(func, (args,)),
        ensures
            provider.required() == dependencies@,
            provider.function() == func,
    {
        ProviderFunc { dependencies, func, held: PhantomData }
    }
}

impl<V, T, F: Fn(Vec<&V>) -> T> Provider<V> for ProviderFunc<V, T, F> {
    type Provided = T;

    /// `out` is what the function may return for a list of references to
    /// `args`.
    open spec fn provides(&self, args: Seq<V>, out: T) -> bool {
        exists|given: Vec<&V>| #[trigger]
            call_ensures(self.function(), (given,), out) && pointees(given@) == args
    }

    fn dependencies(&self) -> (keys: Vec<TypeKey>)
        ensures
            crate::key::KeyView::of_all(keys@) == crate::key::KeyView::of_all(self.required()),
    {
        crate::key::clone_keys(&self.dependencies)
    }

    fn provide(&self, args: Vec<&V>) -> (out: T) {
        proof {
            use_type_invariant(self);
        }
        let ghost given = args;
        let out = (self.func)(args);
        assert(call_ensures(self.function(), (given,), out) && pointees(given@) == pointees(
            args@,
        ));
        out
    }
}

/// Holds a provider of instances as a registry expects it.
#[verifier::reject_recursive_types(V)]
pub struct BoxedProvider<V, P: Provider<V, Provided = V>> {
    p: P,
    held: PhantomData<V>,
}

impl<V, P: Provider<V, Provided = V>> BoxedProvider<V, P> {
    /// The provider that is held.
    pub closed spec fn inner(self) -> P {
        self.p
    }

    /// Holds `p`.
    pub fn new(p: P) -> (boxed: Self)
        ensures
            boxed.inner() == p,
    {
        BoxedProvider { p, held: PhantomData }
    }
}

impl<V: Send, P: Provider<V, Provided = V> + Send> ProviderAny<V> for BoxedProvider<V, P> {
    /// Whatever the held provider promises.
    open spec fn provides_any(&self, args: Seq<V>, out: V) -> bool {
        self.inner().provides(args, out)
    }

    fn dependencies_any(&self) -> (keys: Vec<TypeKey>)
        ensures
            call_ensures(P::dependencies, (&self.inner(),), keys),
    {
        self.p.dependencies()
    }

    fn provide_any(&self, args: Vec<&V>) -> (out: V) {
        self.p.provide(args)
    }
}

/// Holds a constructor of instances as a registry expects it: the
/// constructor's parameters are the provider's dependencies.
#[verifier::reject_recursive_types(V)]
pub struct ConstructorProvider<V, C: Constructor<V, V>> {
    constructor: C,
    held: PhantomData<V>,
}

impl<V, C: Constructor<V, V>> ConstructorProvider<V, C> {
    /// The constructor that is held.
    pub closed spec fn inner(self) -> C {
        self.constructor
    }

    /// Holds `constructor`.
    pub fn new(constructor: C) -> (provider: Self)
        ensures
            provider.inner() == constructor,
    {
        ConstructorProvider { constructor, held: PhantomData }
    }
}

impl<V: Send, C: Constructor<V, V> + Send> ProviderAny<V> for ConstructorProvider<V, C> {
    /// Whatever the held constructor promises.
    open spec fn provides_any(&self, args: Seq<V>, out: V) -> bool {
        self.inner().constructs(args, out)
    }

    fn dependencies_any(&self) -> (keys: Vec<TypeKey>)
        ensures
            call_ensures(C::parameters, (&self.inner(),), keys),
    {
        self.constructor.parameters()
    }

    fn provide_any(&self, args: Vec<&V>) -> (out: V) {
        self.constructor.new(args)
    }
}

/// Provides clones of one stored value and depends on nothing.
pub struct SingletonProvider<V: Clone>(pub V);

impl<V: Clone + Send> ProviderAny<V> for SingletonProvider<V> {
    /// `out` is a clone of the stored value.
    open spec fn provides_any(&self, args: Seq<V>, out: V) -> bool {
        cloned(self.0, out)
    }

    fn dependencies_any(&self) -> (keys: Vec<TypeKey>)
        ensures
            keys@.len() == 0,
    {
        Vec::new()
    }

    fn provide_any(&self, args: Vec<&V>) -> (out: V) {
        self.0.clone()
    }
}

/// An interceptor given by a function from the instance to its replacement.
#[verifier::reject_recursive_types(T)]
pub struct InterceptFunc<T, F: Fn(T) -> T> {
    func: F,
    held: PhantomData<T>,
}

impl<T, F: Fn(T) -> T> InterceptFunc<T, F> {
    #[verifier::type_invariant]
    spec fn accepts_all(self) -> bool {
        forall|ins: T| call_requires(self.func, (ins,))
    }

    /// The function that replaces the instance.
    pub closed spec fn function(self) -> F {
        self.func
    }

    /// What the interceptor promises is what its function ensures.
    pub proof fn lemma_intercepts(self, ins: T, out: T)
        ensures
            self.intercepts(ins, out) == call_ensures(self.function(), (ins,), out),
    {
    }

    /// The interceptor that calls `func`, which accepts every instance.
    pub fn new(func: F) -> (interceptor: Self)
        requires
            forall|ins: T| call_requires(func, (ins,)),
        ensures
            interceptor.function() == func,
    {
        InterceptFunc { func, held: PhantomData }
    }
}

impl<T, F: Fn(T) -> T> InterceptProvider for InterceptFunc<T, F> {
    type Provided = T;

    /// `out` is what the function may return for `ins`.
    open spec fn intercepts(&self, ins: T, out: T) -> bool {
        call_ensures(self.function(), (ins,), out)
    }

    fn intercept(&self, ins: T) -> (out: T) {
        proof {
            use_type_invariant(self);
        }
        (self.func)(ins)
    }
}

/// Holds an interceptor of instances as a registry expects it.
pub struct BoxedIntercept<P: InterceptProvider>(pub P);

impl<P: InterceptProvider + Send> InterceptProviderAny<P::Provided> for BoxedIntercept<P> {
    /// Whatever the held interceptor promises.
    open spec fn intercepts_any(&self, ins: P::Provided, out: P::Provided) -> bool {
        self.0.intercepts(ins, out)
    }

    fn intercept_any(&self, ins: P::Provided) -> (out: P::Provided) {
        self.0.intercept(ins)
    }
}

} // verus!
