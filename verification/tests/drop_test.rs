use std::sync::Arc;

use rudi::{AbstractModule, Binder, Fault, Implements, ProviderFunc, TypeKey};

struct MyModule;

trait Hello: Send + Sync {
    fn hello(&self) -> String;
}

struct HelloImpl {
    msg: String,
}
impl Hello for HelloImpl {
    fn hello(&self) -> String {
        self.msg.clone()
    }
}

trait World: Send + Sync {
    fn world(&self) -> String;
}

struct WorldImpl {
    hello: Arc<dyn Hello>,
}

impl World for WorldImpl {
    fn world(&self) -> String {
        self.hello.hello()
    }
}

impl WorldImpl {
    fn new(h: Arc<dyn Hello>) -> Self {
        WorldImpl { hello: h }
    }
}

impl Drop for WorldImpl {
    fn drop(&mut self) {
        println!("drop worldImpl");
    }
}

#[derive(Clone)]
enum Service {
    Hello(Arc<dyn Hello>),
    World(Arc<dyn World>),
}

fn hello_key() -> TypeKey {
    TypeKey::new(1, "Arc<dyn Hello>")
}

fn world_key() -> TypeKey {
    TypeKey::new(2, "Arc<dyn World>")
}

impl AbstractModule<Service> for MyModule {
    fn config(&self, binder: &mut Binder<Service>) -> Result<(), Fault> {
        binder
            .bind(world_key())
            .to_provider(ProviderFunc::new(
                vec![hello_key()],
                |args: Vec<&Service>| match args[0] {
                    Service::Hello(h) => {
                        let ret: Arc<dyn World> = Arc::new(WorldImpl::new(h.clone()));
                        Service::World(ret)
                    }
                    _ => unreachable!(),
                },
            ))?;
        binder
            .bind(hello_key())
            .to_singleton(Service::Hello(Arc::new(HelloImpl {
                msg: "hello".into(),
            })))?;
        Ok(())
    }
}

fn is_send<T: Send>(_: &T) {}

#[test]
fn drop_test() {
    let mut i = Implements::new();
    i.add_bind(MyModule {});

    let mut app = i.new_injector(Vec::new()).unwrap();
    let world = match app.get_instance(&world_key()).unwrap().unwrap() {
        Service::World(world) => world,
        _ => panic!("another type"),
    };
    assert_eq!(world.world(), "hello");

    is_send(&app);

    drop(app);
}
