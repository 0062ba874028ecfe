use std::sync::atomic::{AtomicUsize, Ordering};
use std::sync::Arc;

use rudi::module::config_all;
use rudi::{
    AbstractModule, BindFunc, Binder, CombinedModule, ConstructorFunc, Fault, Implements,
    Injector, ModuleBox, OverridableModule, TypeKey,
};

fn a_key() -> TypeKey {
    TypeKey::new(1, "A")
}

fn b_key() -> TypeKey {
    TypeKey::new(2, "B")
}

fn c_key() -> TypeKey {
    TypeKey::new(3, "C")
}

struct Bind {
    key: TypeKey,
    value: u32,
}

fn bind(key: TypeKey, value: u32) -> Bind {
    Bind { key, value }
}

impl AbstractModule<u32> for Bind {
    fn config(&self, binder: &mut Binder<u32>) -> Result<(), Fault> {
        binder.bind(self.key.clone()).to_singleton(self.value)?;
        Ok(())
    }
}

#[test]
fn overrides_supersede_defaults() {
    let defaults = OverridableModule::new(vec![
        ModuleBox::new(bind(a_key(), 1)),
        ModuleBox::new(bind(b_key(), 2)),
    ]);
    let module = defaults.with(vec![ModuleBox::new(bind(a_key(), 10))]);
    let mut binder = Binder::new();
    module.config(&mut binder).unwrap();
    let mut injector = Injector::new(binder);
    assert_eq!(injector.get_instance(&a_key()).unwrap(), Some(10));
    assert_eq!(injector.get_instance(&b_key()).unwrap(), Some(2));
    assert_eq!(injector.get_instance(&c_key()).unwrap(), None);
}

#[test]
fn defaults_configure_a_registry_of_their_own() {
    let defaults = OverridableModule::new(vec![ModuleBox::new(bind(a_key(), 1))]);
    let mut binder = Binder::new();
    binder.bind(a_key()).to_singleton(10u32).unwrap();
    defaults.config(&mut binder).unwrap();
    let mut injector = Injector::new(binder);
    assert_eq!(injector.get_instance(&a_key()).unwrap(), Some(10));
}

#[test]
fn combined_module_as_defaults() {
    let combined = CombinedModule::new(vec![
        ModuleBox::new(bind(a_key(), 1)),
        ModuleBox::new(bind(b_key(), 2)),
    ]);
    let mut im = Implements::new();
    im.add_bind(combined.as_overridable());
    im.add_implement("own", bind(b_key(), 20));
    let mut injector = im.new_injector(vec!["own".into()]).unwrap();
    assert_eq!(injector.get_instance(&a_key()).unwrap(), Some(1));
    assert_eq!(injector.get_instance(&b_key()).unwrap(), Some(20));
}

#[test]
fn combined_module_stops_at_the_first_fault() {
    let combined = CombinedModule::new(vec![
        ModuleBox::new(bind(a_key(), 1)),
        ModuleBox::new(bind(a_key(), 2)),
        ModuleBox::new(bind(b_key(), 3)),
    ]);
    let mut binder = Binder::new();
    match combined.config(&mut binder) {
        Err(Fault::DuplicateBinding { name }) => assert_eq!(name, "A"),
        _ => panic!("no duplicate was reported"),
    }
    assert!(binder.lookup(&a_key()).is_some());
    assert!(binder.lookup(&b_key()).is_none());
}

#[test]
fn fault_among_defaults_leaves_the_registry() {
    let defaults = OverridableModule::new(vec![
        ModuleBox::new(bind(a_key(), 1)),
        ModuleBox::new(bind(a_key(), 2)),
    ]);
    let mut binder = Binder::new();
    binder.bind(c_key()).to_singleton(3u32).unwrap();
    assert!(defaults.config(&mut binder).is_err());
    assert!(binder.lookup(&a_key()).is_none());
    assert!(binder.lookup(&c_key()).is_some());
}

#[test]
fn modules_configure_in_order() {
    let modules = vec![
        ModuleBox::new(bind(a_key(), 1)),
        ModuleBox::new(bind(b_key(), 2)),
    ];
    let mut binder = Binder::new();
    config_all(&modules, &mut binder).unwrap();
    assert_eq!(binder.lookup(&a_key()).unwrap().index, 0);
    assert_eq!(binder.lookup(&b_key()).unwrap().index, 1);
}

#[test]
fn unknown_module_is_a_fault() {
    let mut im: Implements<u32> = Implements::new();
    im.add_implement("known", bind(a_key(), 1));
    match im.new_injector(vec!["known".into(), "unknown".into()]) {
        Err(Fault::UnknownModule { name }) => assert_eq!(name, "unknown"),
        _ => panic!("no unknown module was reported"),
    }
}

#[test]
fn named_module_configures_when_enabled() {
    let mut im = Implements::new();
    im.add_bind(bind(a_key(), 1));
    im.add_implement("b", bind(b_key(), 2));
    im.add_implement("c", bind(c_key(), 3));
    let mut injector = im.new_injector(vec!["c".into()]).unwrap();
    assert_eq!(injector.get_instance(&a_key()).unwrap(), Some(1));
    assert_eq!(injector.get_instance(&b_key()).unwrap(), None);
    assert_eq!(injector.get_instance(&c_key()).unwrap(), Some(3));
    let mut injector = im.new_injector(Vec::new()).unwrap();
    assert_eq!(injector.get_instance(&a_key()).unwrap(), Some(1));
    assert_eq!(injector.get_instance(&c_key()).unwrap(), None);
}

#[test]
fn module_enabled_twice_binds_twice() {
    let mut im = Implements::new();
    im.add_implement("a", bind(a_key(), 1));
    match im.new_injector(vec!["a".into(), "a".into()]) {
        Err(Fault::DuplicateBinding { name }) => assert_eq!(name, "A"),
        _ => panic!("no duplicate was reported"),
    }
}

#[test]
fn later_module_takes_the_name() {
    let mut im = Implements::new();
    assert!(!im.has_implement("a"));
    assert!(im.get_implement("a").is_none());
    im.add_implement("a", bind(a_key(), 1));
    im.add_implement("a", bind(a_key(), 2));
    assert!(im.has_implement("a"));
    assert!(!im.has_implement("b"));
    let mut binder = Binder::new();
    im.get_implement("a").unwrap().config(&mut binder).unwrap();
    let mut injector = Injector::new(binder);
    assert_eq!(injector.get_instance(&a_key()).unwrap(), Some(2));
    let mut injector = im.new_injector(vec!["a".into()]).unwrap();
    assert_eq!(injector.get_instance(&a_key()).unwrap(), Some(2));
}

#[test]
fn named_modules_of_another_are_taken_over() {
    let mut mine = Implements::new();
    mine.add_implement("a", bind(a_key(), 1));
    mine.add_implement("b", bind(b_key(), 2));
    let mut other = Implements::new();
    other.add_bind(bind(c_key(), 3));
    other.add_implement("b", bind(b_key(), 20));
    other.add_implement("c", bind(c_key(), 30));
    mine.add_implements(other);
    assert!(mine.has_implement("a"));
    assert!(mine.has_implement("b"));
    assert!(mine.has_implement("c"));
    let mut injector = mine.new_injector(vec!["a".into(), "b".into()]).unwrap();
    assert_eq!(injector.get_instance(&a_key()).unwrap(), Some(1));
    assert_eq!(injector.get_instance(&b_key()).unwrap(), Some(20));
    assert_eq!(injector.get_instance(&c_key()).unwrap(), None);
}

#[test]
fn eager_default_is_built_though_superseded() {
    let runs = Arc::new(AtomicUsize::new(0));
    let seen = runs.clone();
    let defaults = OverridableModule::new(vec![ModuleBox::new(BindFunc::new(
        move |binder: &mut Binder<u32>| {
            let seen = seen.clone();
            binder
                .bind(a_key())
                .to_constructor(ConstructorFunc::new(Vec::new(), move |_: Vec<&u32>| {
                    seen.fetch_add(1, Ordering::SeqCst);
                    1
                }))?
                .as_eager();
            Ok(())
        },
    ))]);
    let mut im = Implements::new();
    im.add_bind(defaults);
    im.add_bind(bind(a_key(), 10));
    let mut injector = im.new_injector(Vec::new()).unwrap();
    assert_eq!(runs.load(Ordering::SeqCst), 1);
    assert_eq!(injector.get_instance(&a_key()).unwrap(), Some(10));
    assert_eq!(runs.load(Ordering::SeqCst), 1);
}
