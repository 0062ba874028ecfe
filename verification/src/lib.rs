//! A dependency-injection container: a registry of bindings from type keys to
//! providers, modules that fill it, and an injector that resolves a type on
//! demand, memoizes what it built and detects cyclic dependencies.
//!
//! The instances of all types are values of one holder type `V` that the
//! application chooses, and a [`TypeKey`] names each bound type:
//!
//! ```text
//! let mut binder = Binder::new();
//! binder.bind(TypeKey::new(1, "base")).to_singleton(41u32)?;
//! binder
//!     .bind(TypeKey::new(2, "answer"))
//!     .to_constructor(ConstructorFunc::new(
//!         vec![TypeKey::new(1, "base")],
//!         |args: Vec<&u32>| *args[0] + 1,
//!     ))?;
//! let mut injector = Injector::new(binder);
//! assert_eq!(injector.get_instance(&TypeKey::new(2, "answer"))?, Some(42));
//! ```
//!
//! Contracts speak of a registry through [`view::BinderView`] and of
//! resolution through [`graph::Graph`]: which bindings hold an instance
//! afterwards and which fault, if any, ended it.

pub mod binder;
pub mod binding;
pub mod fault;
pub mod graph;
pub mod implements;
pub mod injector;
pub mod key;
pub mod module;
pub mod provider;
pub mod view;

pub use binder::Binder;
pub use fault::Fault;
pub use implements::Implements;
pub use injector::Injector;
pub use key::TypeKey;
pub use module::AbstractModule;
pub use module::BindFunc;
pub use module::CombinedModule;
pub use module::ModuleBox;
pub use module::OverridableModule;
pub use module::OverridedModule;
pub use provider::Constructor;
pub use provider::ConstructorFunc;
pub use provider::ConstructorMap;
pub use provider::InterceptFunc;
pub use provider::InterceptProvider;
pub use provider::InterceptProviderAny;
pub use provider::Provider;
pub use provider::ProviderAny;
pub use provider::ProviderFunc;
