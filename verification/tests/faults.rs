use rudi::injector::LoopChecker;
use rudi::key::clone_keys;
use rudi::{Fault, TypeKey};

#[test]
fn duplicate_binding_message() {
    let fault = Fault::DuplicateBinding {
        name: "Arc<dyn A>".into(),
    };
    assert_eq!(fault.message(), "duplicated binding Arc<dyn A>");
    assert_eq!(fault.clone().message(), "duplicated binding Arc<dyn A>");
}

#[test]
fn cycle_message() {
    let fault = Fault::CycleDetected {
        path: "A -> B -> A".into(),
    };
    assert_eq!(fault.message(), "loop detected. path = A -> B -> A");
    assert_eq!(fault.clone().message(), "loop detected. path = A -> B -> A");
}

#[test]
fn unbound_dependency_message() {
    let fault = Fault::UnboundDependency {
        name: "B".into(),
        required_by: "A".into(),
    };
    assert_eq!(fault.message(), "type B not binded, required by A");
    assert_eq!(fault.clone().message(), "type B not binded, required by A");
    let fault = Fault::UnboundDependency {
        name: "B".into(),
        required_by: String::new(),
    };
    assert_eq!(fault.message(), "type B not binded");
}

#[test]
fn unknown_module_message() {
    let fault = Fault::UnknownModule {
        name: "missing".into(),
    };
    assert_eq!(fault.message(), "module missing not exists");
    assert_eq!(fault.clone().message(), "module missing not exists");
}

#[test]
fn path_joins_the_names_in_order() {
    let checker = LoopChecker::new();
    assert_eq!(checker.path(), "");
    assert!(!checker.contains(&"A".into()));
    let one = checker.visit("A".into());
    assert_eq!(one.path(), "A");
    assert_eq!(checker.path(), "");
    let three = one.visit("B".into()).visit("C".into());
    assert_eq!(three.path(), "A -> B -> C");
    assert!(three.contains(&"B".into()));
    assert!(!three.contains(&"D".into()));
    assert!(!one.contains(&"B".into()));
}

#[test]
fn keys_are_copied_in_order() {
    let keys = vec![TypeKey::new(2, "B"), TypeKey::new(1, "A")];
    let copy = clone_keys(&keys);
    assert_eq!(copy.len(), 2);
    assert_eq!(copy[0].id(), 2);
    assert_eq!(copy[0].name(), "B");
    assert_eq!(copy[1].id(), 1);
    assert_eq!(copy[1].name(), "A");
}
