//! Modules: the units of configuration that fill a registry, and the ways
//! to compose them.

use crate::binder::Binder;
use crate::fault::Fault;
use crate::fault::FaultView;
use crate::provider::Erased;
use crate::view::BinderView;
use core::marker::PhantomData;
use vstd::prelude::*;

verus! {

/// The fault that `done` reports, if it reports one.
pub open spec fn fault_of(done: Result<(), Fault>) -> Option<FaultView> {
    match done {
        Ok(_) => None,
        Err(fault) => Some(fault@),
    }
}

/// A unit of configuration: it fills a registry with bindings and
/// interceptors.
pub trait AbstractModule<V> {
    /// What the module promises of the registry `after` and of the fault
    /// that it reports, when it configures the registry `before`. Unless an
    /// implementation says more, nothing.
    open spec fn configures(
        &self,
        before: BinderView<V>,
        after: BinderView<V>,
        fault: Option<FaultView>,
    ) -> bool {
        true
    }

    /// Configures `binder`. A fault abandons the configuration.
    fn config(&self, binder: &mut Binder<V>) -> (done: Result<(), Fault>)
        ensures
            self.configures(old(binder)@, final(binder)@, fault_of(done)),
    ;
}

impl<V, M: AbstractModule<V>> AbstractModule<V> for Erased<M> {
    open spec fn configures(
        &self,
        before: BinderView<V>,
        after: BinderView<V>,
        fault: Option<FaultView>,
    ) -> bool {
        self.0.configures(before, after, fault)
    }

    fn config(&self, binder: &mut Binder<V>) -> (done: Result<(), Fault>) {
        self.0.config(binder)
    }
}

/// What a module promises, as contracts speak of it: `promise(before,
/// after, fault)` holds whenever the module, configuring the registry
/// `before`, leaves the registry `after` and reports `fault`.
pub type Promise<V> = spec_fn(BinderView<V>, BinderView<V>, Option<FaultView>) -> bool;

/// Whether `after` and `fault` are what the modules with the promises
/// `promises`, configuring the registry `before` one after the other, may
/// come to. Each module configures what the one before it left; the first
/// fault ends the configuration.
pub open spec fn ran<V>(
    promises: Seq<Promise<V>>,
    before: BinderView<V>,
    after: BinderView<V>,
    fault: Option<FaultView>,
) -> bool
    decreases promises.len(),
{
    if promises.len() == 0 {
        after == before && fault.is_none()
    } else {
        ||| fault.is_some() && ran(promises.drop_last(), before, after, fault)
        ||| exists|mid: BinderView<V>|
            ran(promises.drop_last(), before, mid, None) && #[trigger] (promises.last())(
                mid,
                after,
                fault,
            )
    }
}

/// The promise of `module`.
pub open spec fn promise_of<V, M: AbstractModule<V>>(module: M) -> Promise<V> {
    |before: BinderView<V>, after: BinderView<V>, fault: Option<FaultView>|
        module.configures(before, after, fault)
}

/// A module behind a trait object.
#[verifier::reject_recursive_types(V)]
pub struct ModuleBox<V> {
    module: Box<dyn AbstractModule<V>>,
}

impl<V> ModuleBox<V> {
    /// What the module promises.
    pub closed spec fn promise(self) -> Promise<V> {
        |before: BinderView<V>, after: BinderView<V>, fault: Option<FaultView>|
            self.module.configures(before, after, fault)
    }

    /// The promises of the modules of a list, in order.
    pub open spec fn promises(modules: Seq<ModuleBox<V>>) -> Seq<Promise<V>> {
        modules.map_values(|m: ModuleBox<V>| m.promise())
    }

    /// Puts `module` behind a trait object.
    pub fn new<M: AbstractModule<V> + 'static>(module: M) -> (boxed: Self)
        ensures
            boxed.promise() == promise_of(module),
    {
        let boxed = ModuleBox { module: Box::new(Erased(module)) };
        let ghost wanted = promise_of(module);
        assert forall|before: BinderView<V>, after: BinderView<V>, fault: Option<FaultView>|
            #[trigger] (boxed.promise())(before, after, fault) == wanted(before, after, fault) by {
            assert(boxed.module.configures(before, after, fault) == Erased(module).configures(
                before,
                after,
                fault,
            ));
        }
        assert(boxed.promise() =~= wanted);
        boxed
    }

    /// Has the module configure `binder`.
    pub fn config(&self, binder: &mut Binder<V>) -> (done: Result<(), Fault>)
        ensures
            (self.promise())(old(binder)@, final(binder)@, fault_of(done)),
    {
        self.module.config(binder)
    }
}

/// Has `modules` configure `binder` one after the other. The first fault
/// ends the configuration.
pub fn config_all<V>(modules: &Vec<ModuleBox<V>>, binder: &mut Binder<V>) -> (done: Result<
    (),
    Fault,
>)
    ensures
        ran(ModuleBox::promises(modules@), old(binder)@, final(binder)@, fault_of(done)),
{
    let ghost before = binder@;
    let ghost promises = ModuleBox::promises(modules@);
    let mut i: usize = 0;
    while i < modules.len()
        invariant
            i <= modules@.len(),
            before == old(binder)@,
            promises == ModuleBox::promises(modules@),
            ran(promises.take(i as int), before, binder@, None),
        decreases modules@.len() - i,
    {
        let ghost mid = binder@;
        let done = modules[i].config(binder);
        proof {
            let upto = promises.take(i as int + 1);
            assert(upto.drop_last() == promises.take(i as int));
            assert(upto.last() == modules@[i as int].promise());
            assert(ran(upto.drop_last(), before, mid, None) && (upto.last())(
                mid,
                binder@,
                fault_of(done),
            ));
        }
        if done.is_err() {
            proof {
                lemma_ran_stops(promises, i as int + 1, before, binder@, fault_of(done));
            }
            return done;
        }
        i += 1;
    }
    proof {
        assert(promises.take(i as int) == promises);
    }
    Ok(())
}

/// A configuration that a fault ended after some of the modules is what the
/// whole list comes to.
pub proof fn lemma_ran_stops<V>(
    promises: Seq<Promise<V>>,
    upto: int,
    before: BinderView<V>,
    after: BinderView<V>,
    fault: Option<FaultView>,
)
    requires
        0 <= upto <= promises.len(),
        fault.is_some(),
        ran(promises.take(upto), before, after, fault),
    ensures
        ran(promises, before, after, fault),
    decreases promises.len() - upto,
{
    if upto < promises.len() {
        assert(promises.take(upto + 1).drop_last() == promises.take(upto));
        lemma_ran_stops(promises, upto + 1, before, after, fault);
    } else {
        assert(promises.take(upto) == promises);
    }
}

/// A module given by a function that configures the registry. What `config`
/// does is what the function ensures. Behind a trait object the module
/// promises nothing of it.
#[verifier::reject_recursive_types(V)]
pub struct BindFunc<V, F: Fn(&mut Binder<V>) -> Result<(), Fault>> {
    func: F,
    held: PhantomData<V>,
}

impl<V, F: Fn(&mut Binder<V>) -> Result<(), Fault>> BindFunc<V, F> {
    #[verifier::type_invariant]
    spec fn accepts_all(self) -> bool {
        forall|binder: &mut Binder<V>| call_requires(self.func, (binder,))
    }

    /// The function that configures the registry.
    pub closed spec fn function(self) -> F {
        self.func
    }

    /// The module that calls `func`, which accepts every registry.
    pub fn new(func: F) -> (module: Self)
        requires
            forall|binder: &mut Binder<V>| call_requires(func, (binder,)),
        ensures
            module.function() == func,
    {
        BindFunc { func, held: PhantomData }
    }
}

impl<V, F: Fn(&mut Binder<V>) -> Result<(), Fault>> AbstractModule<V> for BindFunc<V, F> {
    /// Calls the function on `binder`: the registry that it leaves and
    /// what it reports are what the function ensures for a reference to
    /// the registry as it was.
    fn config(&self, binder: &mut Binder<V>) -> (done: Result<(), Fault>)
        ensures
            exists|given: &mut Binder<V>|
                {
                    &&& #[trigger] call_ensures(self.function(), (given,), done)
                    &&& *given == *old(binder)
                    &&& *final(given) == *final(binder)
                },
    {
        proof {
            use_type_invariant(self);
        }
        assert(self.function() == self.func);
        (self.func)(binder)
    }
}

/// Modules that configure one registry, one after the other.
#[verifier::reject_recursive_types(V)]
pub struct CombinedModule<V> {
    modules: Vec<ModuleBox<V>>,
}

impl<V> CombinedModule<V> {
    /// The promises of the modules, in order.
    pub closed spec fn promises(self) -> Seq<Promise<V>> {
        ModuleBox::promises(self.modules@)
    }

    /// The module that has `modules` configure the registry in order.
    pub fn new(modules: Vec<ModuleBox<V>>) -> (combined: Self)
        ensures
            combined.promises() == ModuleBox::promises(modules@),
    {
        CombinedModule { modules }
    }

    /// The same modules as defaults: their bindings yield to a primary
    /// binding of the same type.
    pub fn as_overridable(self) -> (overridable: OverridableModule<V>)
        ensures
            overridable.promises() == self.promises(),
    {
        OverridableModule { overriden: self.modules }
    }
}

impl<V> AbstractModule<V> for CombinedModule<V> {
    /// `after` and `fault` are what the modules, configuring `before` one
    /// after the other, may come to.
    open spec fn configures(
        &self,
        before: BinderView<V>,
        after: BinderView<V>,
        fault: Option<FaultView>,
    ) -> bool {
        ran(self.promises(), before, after, fault)
    }

    fn config(&self, binder: &mut Binder<V>) -> (done: Result<(), Fault>) {
        config_all(&self.modules, binder)
    }
}

/// Modules that provide defaults: their bindings become overridable
/// bindings of the registry.
#[verifier::reject_recursive_types(V)]
pub struct OverridableModule<V> {
    overriden: Vec<ModuleBox<V>>,
}

impl<V> OverridableModule<V> {
    /// The promises of the modules, in order.
    pub closed spec fn promises(self) -> Seq<Promise<V>> {
        ModuleBox::promises(self.overriden@)
    }

    /// The module that provides the bindings of `modules` as defaults.
    pub fn new(modules: Vec<ModuleBox<V>>) -> (overridable: Self)
        ensures
            overridable.promises() == ModuleBox::promises(modules@),
    {
        OverridableModule { overriden: modules }
    }

    /// The module in which `overrides` supersede these defaults.
    pub fn with(self, overrides: Vec<ModuleBox<V>>) -> (overrided: OverridedModule<V>)
        ensures
            overrided.defaults() == self.promises(),
            overrided.overrides() == ModuleBox::promises(overrides@),
    {
        OverridedModule { overriden: self.overriden, overrides }
    }
}

impl<V> AbstractModule<V> for OverridableModule<V> {
    /// The modules configure an empty registry of their own, which is then
    /// merged into `before` as defaults. A fault of theirs leaves `before`
    /// as it is.
    open spec fn configures(
        &self,
        before: BinderView<V>,
        after: BinderView<V>,
        fault: Option<FaultView>,
    ) -> bool {
        exists|scratch: BinderView<V>|
            {
                &&& #[trigger] ran(self.promises(), BinderView::empty(), scratch, fault)
                &&& after == if fault.is_some() {
                    before
                } else {
                    before.merge_overridable(scratch)
                }
            }
    }

    fn config(&self, binder: &mut Binder<V>) -> (done: Result<(), Fault>) {
        let mut scratch = Binder::new();
        let done = config_all(&self.overriden, &mut scratch);
        assert(ran(self.promises(), BinderView::empty(), scratch@, fault_of(done)));
        if done.is_err() {
            return done;
        }
        binder.merge_overridable(scratch);
        Ok(())
    }
}

/// Defaults together with the modules that supersede them.
#[verifier::reject_recursive_types(V)]
pub struct OverridedModule<V> {
    overriden: Vec<ModuleBox<V>>,
    overrides: Vec<ModuleBox<V>>,
}

impl<V> OverridedModule<V> {
    /// The promises of the modules that provide the defaults, in order.
    pub closed spec fn defaults(self) -> Seq<Promise<V>> {
        ModuleBox::promises(self.overriden@)
    }

    /// The promises of the modules that supersede the defaults, in order.
    pub closed spec fn overrides(self) -> Seq<Promise<V>> {
        ModuleBox::promises(self.overrides@)
    }
}

impl<V> AbstractModule<V> for OverridedModule<V> {
    /// The overrides configure `before`. Then the defaults configure an
    /// empty registry of their own, which is merged into what the overrides
    /// left: a default stays out where its type is bound already. A fault
    /// of the defaults leaves what the overrides left.
    open spec fn configures(
        &self,
        before: BinderView<V>,
        after: BinderView<V>,
        fault: Option<FaultView>,
    ) -> bool {
        ||| fault.is_some() && ran(self.overrides(), before, after, fault)
        ||| exists|mid: BinderView<V>, scratch: BinderView<V>|
            #![trigger
                ran(self.overrides(), before, mid, None),
                ran(self.defaults(), BinderView::empty(), scratch, fault),
            ]
            {
                &&& ran(self.overrides(), before, mid, None)
                &&& ran(self.defaults(), BinderView::empty(), scratch, fault)
                &&& after == if fault.is_some() {
                    mid
                } else {
                    mid.merge(scratch)
                }
            }
    }

    fn config(&self, binder: &mut Binder<V>) -> (done: Result<(), Fault>) {
        let ghost before = binder@;
        let first = config_all(&self.overrides, binder);
        if first.is_err() {
            return first;
        }
        let ghost mid = binder@;
        let mut scratch = Binder::new();
        let done = config_all(&self.overriden, &mut scratch);
        assert(ran(self.overrides(), before, mid, None) && ran(
            self.defaults(),
            BinderView::empty(),
            scratch@,
            fault_of(done),
        ));
        if done.is_err() {
            return done;
        }
        binder.merge(scratch);
        Ok(())
    }
}

} // verus!
