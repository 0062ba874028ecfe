use rudi::binder::Slot;
use rudi::binding::{Binding, InterceptBinding};
use rudi::provider::{BoxedIntercept, SingletonProvider};
use rudi::{Binder, ConstructorFunc, Fault, Injector, InterceptFunc, TypeKey};

fn a_key() -> TypeKey {
    TypeKey::new(1, "A")
}

fn b_key() -> TypeKey {
    TypeKey::new(2, "B")
}

fn c_key() -> TypeKey {
    TypeKey::new(3, "C")
}

fn primary(index: usize) -> Slot {
    Slot {
        overridable: false,
        index,
    }
}

fn overridable(index: usize) -> Slot {
    Slot {
        overridable: true,
        index,
    }
}

#[test]
fn key_identity_ignores_the_name() {
    assert!(TypeKey::new(1, "A").same_type(&TypeKey::new(1, "another name")));
    assert!(!TypeKey::new(1, "A").same_type(&TypeKey::new(2, "A")));
    assert_eq!(a_key().id(), 1);
    assert_eq!(a_key().name(), "A");
    let copy = a_key().clone();
    assert_eq!(copy.id(), 1);
    assert_eq!(copy.name(), "A");
}

#[test]
fn second_binding_of_a_type_is_a_fault() {
    let mut binder = Binder::new();
    binder.bind(a_key()).to_singleton(1u32).unwrap();
    match binder.bind(TypeKey::new(1, "A again")).to_singleton(2u32) {
        Err(Fault::DuplicateBinding { name }) => assert_eq!(name, "A again"),
        _ => panic!("no duplicate was reported"),
    }
    assert_eq!(binder.lookup(&a_key()), Some(primary(0)));
    assert_eq!(binder.binding(primary(0)).key().name(), "A");
    let mut injector = Injector::new(binder);
    assert_eq!(injector.get_instance(&a_key()).unwrap(), Some(1));
}

#[test]
fn type_bound_once_resolves() {
    let mut binder = Binder::new();
    assert!(binder.bind(a_key()).to_singleton(1u32).is_ok());
    assert!(binder.bind(b_key()).to_singleton(2u32).is_ok());
    let mut injector = Injector::new(binder);
    assert_eq!(injector.get_instance(&a_key()).unwrap(), Some(1));
    assert_eq!(injector.get_instance(&b_key()).unwrap(), Some(2));
}

#[test]
fn lookup_finds_nothing_in_an_empty_registry() {
    let binder: Binder<u32> = Binder::new();
    assert_eq!(binder.lookup(&a_key()), None);
    assert_eq!(binder.find_primary(&a_key()), None);
    assert_eq!(binder.find_overridable(&a_key()), None);
    assert!(binder.get_eager_bindings().is_empty());
    assert!(binder.get_intercepts(&a_key()).is_empty());
}

#[test]
fn merge_keeps_what_is_bound_and_adds_what_is_missing() {
    let mut mine = Binder::new();
    mine.bind(a_key()).to_singleton(1u32).unwrap();
    mine.intercept(a_key()).to_func(|value: u32| value + 10);
    let mut other = Binder::new();
    other.bind(b_key()).to_singleton(20u32).unwrap();
    other.bind(a_key()).to_singleton(2u32).unwrap();
    other.bind(c_key()).to_singleton(30u32).unwrap();
    other.intercept(a_key()).to_func(|value: u32| value * 2);
    mine.merge(other);
    assert_eq!(mine.lookup(&a_key()), Some(primary(0)));
    assert_eq!(mine.lookup(&b_key()), Some(primary(1)));
    assert_eq!(mine.lookup(&c_key()), Some(primary(2)));
    assert_eq!(mine.get_intercepts(&a_key()), vec![0, 1]);
    let mut injector = Injector::new(mine);
    assert_eq!(injector.get_instance(&a_key()).unwrap(), Some(22));
    assert_eq!(injector.get_instance(&b_key()).unwrap(), Some(20));
    assert_eq!(injector.get_instance(&c_key()).unwrap(), Some(30));
}

#[test]
fn merge_leaves_the_overridable_bindings_of_the_other_out() {
    let mut defaults = Binder::new();
    defaults.bind(a_key()).to_singleton(1u32).unwrap();
    let mut other = Binder::new();
    other.merge_overridable(defaults);
    assert_eq!(other.lookup(&a_key()), Some(overridable(0)));
    let mut mine: Binder<u32> = Binder::new();
    mine.merge(other);
    assert_eq!(mine.lookup(&a_key()), None);
}

#[test]
fn merge_overridable_yields_to_primary_bindings() {
    let mut mine = Binder::new();
    mine.bind(a_key()).to_singleton(1u32).unwrap();
    let mut defaults = Binder::new();
    defaults.bind(a_key()).to_singleton(100u32).unwrap();
    defaults.bind(b_key()).to_singleton(200u32).unwrap();
    defaults.intercept(b_key()).to_func(|value: u32| value + 1);
    mine.merge_overridable(defaults);
    assert_eq!(mine.lookup(&a_key()), Some(primary(0)));
    assert_eq!(mine.find_overridable(&a_key()), Some(overridable(0)));
    assert_eq!(mine.lookup(&b_key()), Some(overridable(1)));
    let mut more = Binder::new();
    more.bind(b_key()).to_singleton(300u32).unwrap();
    more.bind(c_key()).to_singleton(400u32).unwrap();
    mine.merge_overridable(more);
    assert_eq!(mine.lookup(&b_key()), Some(overridable(1)));
    assert_eq!(mine.lookup(&c_key()), Some(overridable(2)));
    let mut injector = Injector::new(mine);
    assert_eq!(injector.get_instance(&a_key()).unwrap(), Some(1));
    assert_eq!(injector.get_instance(&b_key()).unwrap(), Some(201));
    assert_eq!(injector.get_instance(&c_key()).unwrap(), Some(400));
}

#[test]
fn primary_binding_that_comes_later_supersedes_a_default() {
    let mut mine = Binder::new();
    let mut defaults = Binder::new();
    defaults.bind(a_key()).to_singleton(100u32).unwrap();
    mine.merge_overridable(defaults);
    assert_eq!(mine.lookup(&a_key()), Some(overridable(0)));
    mine.bind(a_key()).to_singleton(1u32).unwrap();
    assert_eq!(mine.lookup(&a_key()), Some(primary(0)));
    let mut injector = Injector::new(mine);
    assert_eq!(injector.get_instance(&a_key()).unwrap(), Some(1));
}

#[test]
fn eager_bindings_are_listed_primary_first() {
    let mut defaults = Binder::new();
    defaults.bind(c_key()).to_singleton(3u32).unwrap().as_eager();
    defaults.bind(a_key()).to_singleton(100u32).unwrap().as_eager();
    let mut mine = Binder::new();
    mine.merge_overridable(defaults);
    mine.bind(a_key()).to_singleton(1u32).unwrap();
    mine.bind(b_key()).to_singleton(2u32).unwrap().as_eager();
    assert_eq!(
        mine.get_eager_bindings(),
        vec![primary(1), overridable(0), overridable(1)]
    );
    assert!(!mine.binding(primary(0)).is_eager());
    assert!(mine.binding(primary(1)).is_eager());
}

#[test]
fn interceptors_are_listed_in_the_order_of_registration() {
    let mut binder: Binder<u32> = Binder::new();
    binder.intercept(a_key()).to_func(|value: u32| value);
    binder.intercept(b_key()).to_func(|value: u32| value);
    binder
        .intercept(a_key())
        .to(InterceptFunc::new(|value: u32| value));
    binder
        .intercept(a_key())
        .to_dyn(BoxedIntercept(InterceptFunc::new(|value: u32| value)));
    binder.add_interceptor(InterceptBinding::new(
        b_key(),
        BoxedIntercept(InterceptFunc::new(|value: u32| value)),
    ));
    assert_eq!(binder.get_intercepts(&a_key()), vec![0, 2, 3]);
    assert_eq!(binder.get_intercepts(&b_key()), vec![1, 4]);
    assert_eq!(binder.get_intercepts(&c_key()), Vec::<usize>::new());
}

#[test]
fn registration_with_named_dependencies() {
    let mut binder = Binder::new();
    binder.bind(a_key()).to_singleton(5u32).unwrap();
    binder
        .bind(b_key())
        .register(vec![a_key()], SingletonProvider(6u32))
        .unwrap();
    binder
        .bind(c_key())
        .to_provider_dyn(SingletonProvider(7u32))
        .unwrap();
    assert_eq!(binder.dependencies(primary(1)).len(), 1);
    assert_eq!(binder.dependencies(primary(1))[0].name(), "A");
    assert!(binder.dependencies(primary(2)).is_empty());
    let mut injector = Injector::new(binder);
    assert_eq!(injector.instance(&a_key()), None);
    assert_eq!(injector.get_instance(&b_key()).unwrap(), Some(6));
    assert_eq!(injector.instance(&a_key()), Some(&5));
    assert_eq!(injector.get_instance(&c_key()).unwrap(), Some(7));
}

#[test]
fn binding_memoizes_what_is_stored() {
    let mut binding = Binding::new(a_key(), vec![b_key()], SingletonProvider(1u32));
    assert_eq!(binding.key().id(), 1);
    assert_eq!(binding.dependency_count(), 1);
    assert_eq!(binding.dependency(0).id(), 2);
    assert!(!binding.is_eager());
    assert_eq!(binding.instance(), None);
    assert_eq!(binding.provide(vec![&9]), 1);
    assert_eq!(binding.instance(), None);
    binding.store(5);
    assert_eq!(binding.instance(), Some(&5));
    binding.set_as_eager();
    assert!(binding.is_eager());
}

#[test]
fn registry_operations_on_slots() {
    let mut binder = Binder::new();
    binder.bind(a_key()).to_singleton(1u32).unwrap();
    binder
        .bind(b_key())
        .to_constructor(ConstructorFunc::new(vec![a_key(), a_key()], |args: Vec<&u32>| {
            *args[0] + *args[1] + 1
        }))
        .unwrap();
    binder.intercept(b_key()).to_func(|value: u32| value * 10);
    binder.store(primary(0), 4);
    assert_eq!(binder.instances(&vec![a_key(), a_key()]), vec![&4, &4]);
    assert_eq!(binder.produce(primary(1)), 9);
    assert_eq!(binder.intercept_all(&b_key(), 9), 90);
    assert_eq!(binder.intercept_all(&a_key(), 9), 9);
    assert_eq!(binder.binding(primary(1)).instance(), None);
}
