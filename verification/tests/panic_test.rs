use std::sync::Arc;

use rudi::{AbstractModule, BindFunc, Binder, Fault, Implements, ProviderFunc, TypeKey};

trait A: Send + Sync {}

trait B: Send + Sync {}

trait C: Send + Sync {}

struct AImpl {}

struct BImpl {}

struct CImpl {}

impl A for AImpl {}
impl B for BImpl {}
impl C for CImpl {}

#[derive(Clone)]
enum Service {
    A(Arc<dyn A>),
    B(Arc<dyn B>),
    C(Arc<dyn C>),
}

fn a_key() -> TypeKey {
    TypeKey::new(1, "Arc<dyn A>")
}

fn b_key() -> TypeKey {
    TypeKey::new(2, "Arc<dyn B>")
}

fn c_key() -> TypeKey {
    TypeKey::new(3, "Arc<dyn C>")
}

fn new_a(_c: &Service) -> impl A {
    AImpl {}
}

fn new_b(_c: &Service) -> impl B {
    BImpl {}
}

fn new_c(_c: &Service) -> impl C {
    CImpl {}
}

fn bind_a(binder: &mut Binder<Service>) -> Result<(), Fault> {
    binder
        .bind(a_key())
        .to_provider(ProviderFunc::new(vec![c_key()], |args: Vec<&Service>| {
            let ret: Arc<dyn A> = Arc::new(new_a(args[0]));
            Service::A(ret)
        }))?;
    Ok(())
}

fn bind_b(binder: &mut Binder<Service>) -> Result<(), Fault> {
    binder
        .bind(b_key())
        .to_provider(ProviderFunc::new(vec![a_key()], |args: Vec<&Service>| {
            let ret: Arc<dyn B> = Arc::new(new_b(args[0]));
            Service::B(ret)
        }))?;
    Ok(())
}

fn bind_c(binder: &mut Binder<Service>) -> Result<(), Fault> {
    binder
        .bind(c_key())
        .to_provider(ProviderFunc::new(vec![b_key()], |args: Vec<&Service>| {
            let ret: Arc<dyn C> = Arc::new(new_c(args[0]));
            Service::C(ret)
        }))?;
    Ok(())
}

struct LoopModule;

impl AbstractModule<Service> for LoopModule {
    fn config(&self, binder: &mut Binder<Service>) -> Result<(), Fault> {
        bind_a(binder)?;
        bind_b(binder)?;
        bind_c(binder)?;
        Ok(())
    }
}

#[test]
fn panic_test_loop_test() {
    let mut im = Implements::new();
    im.add_implement("hello", LoopModule);

    let mut i = im.new_injector(vec!["hello".into()]).unwrap();

    let ins = i.get_instance(&c_key());

    match ins {
        Err(Fault::CycleDetected { path }) => {
            assert_eq!(path, "Arc<dyn C> -> Arc<dyn B> -> Arc<dyn A> -> Arc<dyn C>")
        }
        _ => panic!("no cycle was reported"),
    }
}

struct DupModule;

impl AbstractModule<Service> for DupModule {
    fn config(&self, binder: &mut Binder<Service>) -> Result<(), Fault> {
        bind_a(binder)?;
        bind_a(binder)?;
        Ok(())
    }
}

#[test]
fn dup_test() {
    let mut im = Implements::new();
    im.add_implement("hello", DupModule);

    let i = im.new_injector(vec!["hello".into()]);

    match i {
        Err(Fault::DuplicateBinding { name }) => assert_eq!(name, "Arc<dyn A>"),
        _ => panic!("no duplicate was reported"),
    }
}

fn not_binded_module(binder: &mut Binder<Service>) -> Result<(), Fault> {
    bind_c(binder)
}

#[test]
fn not_binded_test() {
    let mut im = Implements::new();
    im.add_implement("hello", BindFunc::new(not_binded_module));

    let mut i = im.new_injector(vec!["hello".into()]).unwrap();

    let ins = i.get_instance(&c_key());

    match ins {
        Err(Fault::UnboundDependency { name, required_by }) => {
            assert_eq!(name, "Arc<dyn B>");
            assert_eq!(required_by, "Arc<dyn C>");
        }
        _ => panic!("no unbound dependency was reported"),
    }
}
