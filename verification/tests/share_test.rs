use std::sync::{Arc, Mutex};

use rudi::{AbstractModule, Binder, Fault, Implements, TypeKey};

struct FutureModule;

#[derive(Clone)]
struct Promise<T: Clone> {
    f: Arc<Mutex<Option<T>>>,
    runs: Arc<Mutex<u32>>,
    make: fn() -> T,
}

impl<T: Clone> Promise<T> {
    fn new(make: fn() -> T) -> Self {
        Promise {
            f: Arc::new(Mutex::new(None)),
            runs: Arc::new(Mutex::new(0)),
            make,
        }
    }

    fn get(&mut self) -> T {
        let mut cell = self.f.lock().unwrap();
        if cell.is_none() {
            *self.runs.lock().unwrap() += 1;
            *cell = Some((self.make)());
        }
        cell.clone().unwrap()
    }
}

#[derive(Clone)]
struct Hello {
    fo: Promise<String>,
}

impl Hello {
    fn hello(mut self) -> String {
        self.fo.get()
    }
}

fn hello_key() -> TypeKey {
    TypeKey::new(1, "Hello")
}

impl AbstractModule<Hello> for FutureModule {
    fn config(&self, binder: &mut Binder<Hello>) -> Result<(), Fault> {
        binder.bind(hello_key()).to_singleton(Hello {
            fo: Promise::new(|| "Hello".into()),
        })?;
        Ok(())
    }
}

fn is_send<T: Send>(_: &T) {}

#[test]
fn share_test() {
    let mut im = Implements::new();
    im.add_bind(FutureModule);

    let mut i = im.new_injector(Vec::new()).unwrap();
    let h = i.get_instance(&hello_key()).unwrap().unwrap();
    let again = i.get_instance(&hello_key()).unwrap().unwrap();

    is_send(&h);

    let runs = h.fo.runs.clone();
    assert_eq!(h.hello(), String::from("Hello"));
    assert_eq!(again.hello(), String::from("Hello"));
    assert_eq!(*runs.lock().unwrap(), 1);
}
