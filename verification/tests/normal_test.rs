use std::sync::Arc;

use rudi::{
    AbstractModule, BindFunc, Binder, CombinedModule, Constructor, ConstructorFunc, Fault,
    Implements, ModuleBox, OverridableModule, ProviderFunc, TypeKey,
};

pub struct HelloModule {}

trait Hello: Send + Sync {
    fn hello(&self) -> String;
}

trait Dep1: Send + Sync {
    fn message(&self) -> String;
}

#[derive(Clone)]
struct Dep1Impl {
    msg: String,
}

impl Dep1 for Dep1Impl {
    fn message(&self) -> String {
        self.msg.clone()
    }
}

#[derive(Clone)]
struct HelloWorld {}
impl Hello for HelloWorld {
    fn hello(&self) -> String {
        "hello world".into()
    }
}

impl HelloWorld {
    fn new(d1: Arc<dyn Dep1>) -> Self {
        println!("d1.msg = {}", d1.message());
        HelloWorld {}
    }
}

#[derive(Clone)]
enum Service {
    Dep1(Arc<dyn Dep1>),
    Hello(Arc<dyn Hello>),
    Dep1Impl(Dep1Impl),
    Number(u32),
}

fn dep1_key() -> TypeKey {
    TypeKey::new(1, "Arc<dyn Dep1>")
}

fn hello_key() -> TypeKey {
    TypeKey::new(2, "Arc<dyn Hello>")
}

fn dep1_impl_key() -> TypeKey {
    TypeKey::new(3, "Dep1Impl")
}

fn u32_key() -> TypeKey {
    TypeKey::new(4, "u32")
}

fn dep1_of(service: &Service) -> Arc<dyn Dep1> {
    match service {
        Service::Dep1(d1) => d1.clone(),
        _ => unreachable!(),
    }
}

impl AbstractModule<Service> for HelloModule {
    fn config(&self, binder: &mut Binder<Service>) -> Result<(), Fault> {
        binder
            .bind(dep1_key())
            .to_singleton(Service::Dep1(Arc::new(Dep1Impl {
                msg: "hello".into(),
            })))?;

        binder
            .bind(hello_key())
            .to_provider(ProviderFunc::new(vec![dep1_key()], |args: Vec<&Service>| {
                let ret: Arc<dyn Hello> = Arc::new(HelloWorld::new(dep1_of(args[0])));
                Service::Hello(ret)
            }))?;
        Ok(())
    }
}

#[test]
fn normal_test_bind_test() {
    let mut im = Implements::new();
    im.add_implement("hello", HelloModule {});

    let mut i = im.new_injector(vec!["hello".into()]).unwrap();

    let ins = i.get_instance(&hello_key()).unwrap();

    assert_eq!(ins.is_some(), true);

    let ins = i.get_instance(&hello_key()).unwrap();

    assert_eq!(ins.is_some(), true);
}

struct OtherModule {}

impl AbstractModule<Service> for OtherModule {
    fn config(&self, binder: &mut Binder<Service>) -> Result<(), Fault> {
        binder.bind(u32_key()).to_singleton(Service::Number(20))?;
        Ok(())
    }
}

#[test]
fn normal_test_combine_test() {
    let mut im = Implements::new();

    let m = CombinedModule::new(vec![
        ModuleBox::new(HelloModule {}),
        ModuleBox::new(OtherModule {}),
    ]);
    im.add_implement("hello", m);

    let mut i = im.new_injector(vec!["hello".into()]).unwrap();

    let ins = i.get_instance(&hello_key()).unwrap();

    assert_eq!(ins.is_some(), true);

    let ins = i.get_instance(&u32_key()).unwrap();

    assert_eq!(ins.is_some(), true);
}

fn default_module(binder: &mut Binder<Service>) -> Result<(), Fault> {
    binder
        .bind(dep1_impl_key())
        .to_singleton(Service::Dep1Impl(Dep1Impl {
            msg: "default".into(),
        }))?;

    binder.bind(u32_key()).to_singleton(Service::Number(42))?;
    Ok(())
}

fn override_module(binder: &mut Binder<Service>) -> Result<(), Fault> {
    binder
        .bind(dep1_impl_key())
        .to_singleton(Service::Dep1Impl(Dep1Impl {
            msg: "override".into(),
        }))?;
    Ok(())
}

struct PrintNumber;

impl Constructor<Service, ()> for PrintNumber {
    fn parameters(&self) -> Vec<TypeKey> {
        vec![u32_key()]
    }

    fn new(&self, args: Vec<&Service>) {
        match args[0] {
            Service::Number(x) => println!("x is {}", x),
            _ => unreachable!(),
        }
    }
}

#[test]
fn normal_test_default_test() {
    let mut im = Implements::new();

    let m = OverridableModule::new(vec![ModuleBox::new(BindFunc::new(default_module))]);
    im.add_implement("default", m);
    im.add_implement("override", BindFunc::new(override_module));

    let mut i = im
        .new_injector(vec!["default".into(), "override".into()])
        .unwrap();

    let ins = i.get_instance(&dep1_impl_key()).unwrap();

    assert_eq!(ins.is_some(), true);
    match ins.unwrap() {
        Service::Dep1Impl(d) => assert_eq!(d.msg, String::from("override")),
        _ => panic!("another type"),
    }

    let ins = i.get_instance(&u32_key()).unwrap();

    assert_eq!(ins.is_some(), true);
    match ins.unwrap() {
        Service::Number(x) => assert_eq!(x, 42),
        _ => panic!("another type"),
    }

    i.inject_and_call(&PrintNumber).unwrap()
}

fn hello_eager() -> Arc<dyn Hello> {
    println!("hello eager");
    Arc::new(HelloWorld {})
}

fn eager_module(binder: &mut Binder<Service>) -> Result<(), Fault> {
    binder
        .bind(hello_key())
        .to_constructor(ConstructorFunc::new(Vec::new(), |_args: Vec<&Service>| {
            Service::Hello(hello_eager())
        }))?
        .as_eager();
    Ok(())
}

#[test]
fn normal_test_eager_test() {
    let mut im = Implements::new();

    im.add_implement("eager", BindFunc::new(eager_module));

    let _i = im.new_injector(vec!["eager".into()]).unwrap();
}

struct HelloIntercept {
    h: Arc<dyn Hello>,
}

impl Hello for HelloIntercept {
    fn hello(&self) -> String {
        println!("intercept hello");
        self.h.hello()
    }
}

fn intercept_module(binder: &mut Binder<Service>) -> Result<(), Fault> {
    binder.intercept(hello_key()).to_func(|h| match h {
        Service::Hello(h) => Service::Hello(Arc::new(HelloIntercept { h })),
        other => other,
    });
    Ok(())
}

#[test]
fn intercept_test() {
    let mut im = Implements::new();
    im.add_implement("hello", HelloModule {});
    im.add_implement("intercept", BindFunc::new(intercept_module));

    let mut i = im
        .new_injector(vec!["hello".into(), "intercept".into()])
        .unwrap();

    let ins = i.get_instance(&hello_key()).unwrap();

    assert_eq!(ins.is_some(), true);
    match ins.unwrap() {
        Service::Hello(h) => assert_eq!(h.hello(), "hello world"),
        _ => panic!("another type"),
    }
}
