//! The modules of an application, and the injector that a choice of them
//! configures.

use crate::binder::Binder;
use crate::fault::Fault;
use crate::fault::FaultView;
use crate::injector::Injector;
use crate::injector::InjectorView;
use crate::module::AbstractModule;
use crate::module::ModuleBox;
use crate::module::Promise;
use crate::view::BinderView;
use vstd::prelude::*;

verus! {

/// A module under the name that enables it.
#[verifier::reject_recursive_types(V)]
pub struct NamedModule<V> {
    name: String,
    module: ModuleBox<V>,
}

impl<V> NamedModule<V> {
    /// The name that enables the module.
    pub closed spec fn name(self) -> Seq<char> {
        self.name@
    }

    /// What the module promises.
    pub closed spec fn promise(self) -> Promise<V> {
        self.module.promise()
    }

    /// The modules by their names. Of two modules with one name, the later
    /// one counts.
    pub open spec fn by_name(modules: Seq<NamedModule<V>>) -> Map<Seq<char>, Promise<V>>
        decreases modules.len(),
    {
        if modules.len() == 0 {
            Map::empty()
        } else {
            Self::by_name(modules.drop_last()).insert(
                modules.last().name(),
                modules.last().promise(),
            )
        }
    }

    /// A name that no module bears is no name of `by_name`.
    pub proof fn lemma_absent(modules: Seq<NamedModule<V>>, name: Seq<char>)
        requires
            forall|j: int| 0 <= j < modules.len() ==> modules[j].name() != name,
        ensures
            !Self::by_name(modules).dom().contains(name),
        decreases modules.len(),
    {
        if modules.len() > 0 {
            let front = modules.drop_last();
            assert forall|j: int| 0 <= j < front.len() implies front[j].name() != name by {
                assert(front[j] == modules[j]);
            }
            Self::lemma_absent(front, name);
        }
    }

    /// The last module that bears a name is the one that `by_name` has
    /// under it.
    pub proof fn lemma_present(modules: Seq<NamedModule<V>>, name: Seq<char>, i: int)
        requires
            0 <= i < modules.len(),
            modules[i].name() == name,
            forall|j: int| i < j < modules.len() ==> modules[j].name() != name,
        ensures
            Self::by_name(modules).dom().contains(name),
            Self::by_name(modules)[name] == modules[i].promise(),
        decreases modules.len(),
    {
        if i < modules.len() - 1 {
            let front = modules.drop_last();
            assert(front[i] == modules[i]);
            assert forall|j: int| i < j < front.len() implies front[j].name() != name by {
                assert(front[j] == modules[j]);
            }
            Self::lemma_present(front, name, i);
        }
    }

    /// The modules of two lists, one after the other, are by name those of
    /// the first list but where the second has a module of the name.
    pub proof fn lemma_appended(mine: Seq<NamedModule<V>>, theirs: Seq<NamedModule<V>>)
        ensures
            Self::by_name(mine + theirs) == Self::by_name(mine).union_prefer_right(
                Self::by_name(theirs),
            ),
        decreases theirs.len(),
    {
        if theirs.len() == 0 {
            assert(mine + theirs == mine);
            assert(Self::by_name(mine).union_prefer_right(Self::by_name(theirs)) =~= Self::by_name(
                mine,
            ));
        } else {
            assert((mine + theirs).drop_last() == mine + theirs.drop_last());
            assert((mine + theirs).last() == theirs.last());
            Self::lemma_appended(mine, theirs.drop_last());
            assert(Self::by_name(mine + theirs) =~= Self::by_name(mine).union_prefer_right(
                Self::by_name(theirs),
            ));
        }
    }
}

/// What an [`Implements`] stands for in contracts.
#[verifier::reject_recursive_types(V)]
pub struct ImplementsView<V> {
    /// What the modules that always configure promise, in their order.
    pub anonymous: Seq<Promise<V>>,
    /// What the modules that configure when their name is enabled promise.
    pub named: Map<Seq<char>, Promise<V>>,
}

/// The views of a list of names.
pub open spec fn names(enabled: Seq<String>) -> Seq<Seq<char>> {
    enabled.map_values(|name: String| name@)
}

impl<V> ImplementsView<V> {
    /// Whether `after` and `fault` are what the modules named `enabled`,
    /// configuring the registry `before` in that order, may come to. A
    /// name without a module is a fault; the first fault ends the
    /// configuration.
    pub open spec fn selected(
        self,
        enabled: Seq<Seq<char>>,
        before: BinderView<V>,
        after: BinderView<V>,
        fault: Option<FaultView>,
    ) -> bool
        decreases enabled.len(),
    {
        if enabled.len() == 0 {
            after == before && fault.is_none()
        } else {
            ||| fault.is_some() && self.selected(enabled.drop_last(), before, after, fault)
            ||| exists|mid: BinderView<V>|
                #![trigger self.enabled(enabled.last(), mid, after, fault)]
                self.selected(enabled.drop_last(), before, mid, None) && self.enabled(
                    enabled.last(),
                    mid,
                    after,
                    fault,
                )
        }
    }

    /// Whether `after` and `fault` are what enabling `name` on the
    /// registry `before` may come to.
    pub open spec fn enabled(
        self,
        name: Seq<char>,
        before: BinderView<V>,
        after: BinderView<V>,
        fault: Option<FaultView>,
    ) -> bool {
        if self.named.dom().contains(name) {
            (self.named[name])(before, after, fault)
        } else {
            after == before && fault == Some(FaultView::UnknownModule { name })
        }
    }

    /// Whether the registry `after` and `fault` are what the anonymous
    /// modules and then the modules named `enabled`, configuring an empty
    /// registry, may come to.
    pub open spec fn configured(
        self,
        enabled: Seq<Seq<char>>,
        after: BinderView<V>,
        fault: Option<FaultView>,
    ) -> bool {
        ||| fault.is_some() && crate::module::ran(self.anonymous, BinderView::empty(), after, fault)
        ||| exists|mid: BinderView<V>|
            #![trigger self.selected(enabled, mid, after, fault)]
            crate::module::ran(self.anonymous, BinderView::empty(), mid, None) && self.selected(
                enabled,
                mid,
                after,
                fault,
            )
    }

    /// Whether `done` is what building an injector on the registry
    /// `registry`, which was configured with the fault `fault`, comes to.
    /// A fault of the configuration is reported. Otherwise the eager
    /// bindings are resolved: a fault of theirs is reported, and without
    /// one the injector holds the registry with every eager binding ready,
    /// every instance accounted for and no type under resolution.
    pub open spec fn built(
        registry: BinderView<V>,
        fault: Option<FaultView>,
        done: Result<Injector<V>, Fault>,
    ) -> bool {
        let start = InjectorView::fresh(registry);
        match done {
            Err(reported) => if fault.is_some() {
                fault == Some(reported@)
            } else {
                start.materialize().fault == Some(reported@)
            },
            Ok(injector) => {
                &&& fault.is_none()
                &&& start.materialize().fault.is_none()
                &&& injector@.follows(start, start.materialize())
                &&& injector@.materialized()
                &&& injector@.binds.sound()
            },
        }
    }

    /// A selection that a fault ended after some of the names is what the
    /// whole list comes to.
    pub proof fn lemma_selected_stops(
        self,
        enabled: Seq<Seq<char>>,
        upto: int,
        before: BinderView<V>,
        after: BinderView<V>,
        fault: Option<FaultView>,
    )
        requires
            0 <= upto <= enabled.len(),
            fault.is_some(),
            self.selected(enabled.take(upto), before, after, fault),
        ensures
            self.selected(enabled, before, after, fault),
        decreases enabled.len() - upto,
    {
        if upto < enabled.len() {
            assert(enabled.take(upto + 1).drop_last() == enabled.take(upto));
            self.lemma_selected_stops(enabled, upto + 1, before, after, fault);
        } else {
            assert(enabled.take(upto) == enabled);
        }
    }
}

/// The modules of an application: those that always configure, and those
/// that configure when their name is enabled.
#[verifier::reject_recursive_types(V)]
pub struct Implements<V> {
    anonymous_module: Vec<ModuleBox<V>>,
    named_module: Vec<NamedModule<V>>,
}

impl<V> View for Implements<V> {
    type V = ImplementsView<V>;

    closed spec fn view(&self) -> ImplementsView<V> {
        ImplementsView {
            anonymous: ModuleBox::promises(self.anonymous_module@),
            named: NamedModule::by_name(self.named_module@),
        }
    }
}

impl<V> Implements<V> {
    /// No modules.
    pub fn new() -> (implements: Implements<V>)
        ensures
            implements@ == (ImplementsView::<V> { anonymous: Seq::empty(), named: Map::empty() }),
    {
        let implements = Implements { anonymous_module: Vec::new(), named_module: Vec::new() };
        assert(implements@.anonymous =~= Seq::empty());
        implements
    }

    /// Adds `module` to the modules that always configure.
    pub fn add_bind<M: AbstractModule<V> + 'static>(&mut self, module: M)
        ensures
            final(self)@ == (ImplementsView {
                anonymous: old(self)@.anonymous.push(crate::module::promise_of(module)),
                ..old(self)@
            }),
    {
        let boxed = ModuleBox::new(module);
        self.anonymous_module.push(boxed);
        assert(self@.anonymous =~= old(self)@.anonymous.push(crate::module::promise_of(module)));
    }

    /// Puts `module` under `name`, in place of the module that was there.
    pub fn add_implement<M: AbstractModule<V> + 'static>(&mut self, name: &str, module: M)
        ensures
            final(self)@ == (ImplementsView {
                named: old(self)@.named.insert(name@, crate::module::promise_of(module)),
                ..old(self)@
            }),
    {
        let named = NamedModule { name: name.to_owned(), module: ModuleBox::new(module) };
        self.named_module.push(named);
        assert(self.named_module@.drop_last() == old(self).named_module@);
    }

    /// The position of the module that counts under `name`.
    fn find(&self, name: &str) -> (found: Option<usize>)
        ensures
            match found {
                Some(i) => {
                    &&& i < self.named_module@.len()
                    &&& self@.named.dom().contains(name@)
                    &&& self@.named[name@] == self.named_module@[i as int].promise()
                },
                None => !self@.named.dom().contains(name@),
            },
    {
        let wanted = name.to_owned();
        let mut i: usize = self.named_module.len();
        while i > 0
            invariant
                i <= self.named_module@.len(),
                wanted@ == name@,
                forall|j: int|
                    i <= j < self.named_module@.len() ==> self.named_module@[j].name() != name@,
            decreases i,
        {
            i -= 1;
            if self.named_module[i].name == wanted {
                proof {
                    NamedModule::lemma_present(self.named_module@, name@, i as int);
                }
                return Some(i);
            }
        }
        proof {
            NamedModule::lemma_absent(self.named_module@, name@);
        }
        None
    }

    /// Whether a module stands under `name`.
    pub fn has_implement(&self, name: &str) -> (found: bool)
        ensures
            found == self@.named.dom().contains(name@),
    {
        self.find(name).is_some()
    }

    /// The module under `name`, if there is one.
    pub fn get_implement(&self, name: &str) -> (found: Option<&ModuleBox<V>>)
        ensures
            match found {
                Some(module) => self@.named.dom().contains(name@) && module.promise()
                    == self@.named[name@],
                None => !self@.named.dom().contains(name@),
            },
    {
        match self.find(name) {
            Some(i) => Some(&self.named_module[i].module),
            None => None,
        }
    }

    /// Builds an injector. The modules that always configure fill an empty
    /// registry in their order, then the modules named `enabled` in that
    /// order; a name without a module is a fault. Then the eager bindings
    /// are resolved. The first fault abandons the build.
    pub fn new_injector(&self, enabled: Vec<String>) -> (done: Result<Injector<V>, Fault>)
        ensures
            exists|registry: BinderView<V>, fault: Option<FaultView>| #[trigger]
                self@.configured(names(enabled@), registry, fault) && ImplementsView::built(
                    registry,
                    fault,
                    done,
                ),
    {
        let ghost wanted = names(enabled@);
        let mut binder = Binder::new();
        let first = crate::module::config_all(&self.anonymous_module, &mut binder);
        if let Err(fault) = first {
            proof {
                assert(self@.configured(wanted, binder@, Some(fault@)));
            }
            let done = Err(fault);
            assert(ImplementsView::built(binder@, Some(fault@), done));
            return done;
        }
        let ghost base = binder@;
        let mut i: usize = 0;
        while i < enabled.len()
            invariant
                i <= enabled@.len(),
                wanted == names(enabled@),
                crate::module::ran(self@.anonymous, BinderView::empty(), base, None),
                self@.selected(wanted.take(i as int), base, binder@, None),
            decreases enabled@.len() - i,
        {
            let ghost mid = binder@;
            let ghost upto = wanted.take(i as int + 1);
            proof {
                assert(upto.drop_last() == wanted.take(i as int));
                assert(upto.last() == enabled@[i as int]@);
            }
            let step = match self.get_implement(enabled[i].as_str()) {
                Some(module) => module.config(&mut binder),
                None => Err(Fault::UnknownModule { name: enabled[i].clone() }),
            };
            let ghost reported = crate::module::fault_of(step);
            proof {
                assert(self@.enabled(upto.last(), mid, binder@, reported));
                assert(self@.selected(upto.drop_last(), base, mid, None) && self@.enabled(
                    upto.last(),
                    mid,
                    binder@,
                    reported,
                ));
                assert(upto.len() > 0);
                assert(self@.selected(upto, base, binder@, reported));
            }
            if let Err(fault) = step {
                proof {
                    self@.lemma_selected_stops(wanted, i as int + 1, base, binder@, Some(fault@));
                    assert(self@.configured(wanted, binder@, Some(fault@)));
                }
                let done = Err(fault);
                assert(ImplementsView::built(binder@, Some(fault@), done));
                return done;
            }
            i += 1;
        }
        let ghost registry = binder@;
        proof {
            assert(wanted.take(i as int) == wanted);
            assert(self@.configured(wanted, registry, None));
        }
        let mut injector = Injector::new(binder);
        match injector.prepare_eager() {
            Err(fault) => {
                let done = Err(fault);
                assert(ImplementsView::built(registry, None, done));
                done
            },
            Ok(()) => {
                let done = Ok(injector);
                assert(ImplementsView::built(registry, None, done));
                done
            },
        }
    }

    /// Takes over the named modules of `other`: each comes under its name,
    /// in place of the module that was there.
    pub fn add_implements(&mut self, other: Implements<V>)
        ensures
            final(self)@ == (ImplementsView {
                named: old(self)@.named.union_prefer_right(other@.named),
                ..old(self)@
            }),
    {
        let Implements { anonymous_module: _, named_module } = other;
        let mut theirs = named_module;
        proof {
            NamedModule::lemma_appended(self.named_module@, theirs@);
        }
        self.named_module.append(&mut theirs);
    }
}

} // verus!
