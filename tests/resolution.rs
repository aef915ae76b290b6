use teloc::{name_generator, Dependency, Object, ResolveError, Resolver, ScopeError, ServiceProvider, ROOT};

const UUID: usize = 1;
const WRAPPER: usize = 2;
const CONFIG: usize = 3;
const SERVICE: usize = 4;
const CITY: usize = 5;
const WEATHER: usize = 6;

#[derive(Debug, Clone, PartialEq)]
enum Value {
    Token(String),
    City(String),
    Number(i32),
    /// A fresh identifier: the position of the object it was made for.
    Uuid(usize),
    /// What a service made of its dependencies reads of the first one.
    Reads(Box<Value>),
    Built(usize),
}

impl Dependency for Value {
    fn init(service: usize, deps: &Vec<usize>, objects: &Vec<Object<Value>>) -> Value {
        if service == UUID {
            Value::Uuid(objects.len())
        } else if deps.is_empty() {
            Value::Built(service)
        } else {
            Value::Reads(Box::new(objects[deps[0]].value.clone()))
        }
    }
}

#[test]
fn transient_wrappers_hold_different_uuids() {
    let mut sp: ServiceProvider<Value> = ServiceProvider::new()
        .add_transient(ROOT, UUID, vec![])
        .add_transient(ROOT, WRAPPER, vec![UUID]);
    let w1 = sp.resolve(ROOT, WRAPPER).unwrap();
    let w2 = sp.resolve(ROOT, WRAPPER).unwrap();
    assert_ne!(w1, w2);
    assert_ne!(sp.object(w1).deps[0], sp.object(w2).deps[0]);
    assert_ne!(sp.object(w1).value, sp.object(w2).value);
}

#[test]
fn singleton_uuid_is_shared_by_wrappers() {
    let mut sp: ServiceProvider<Value> = ServiceProvider::new()
        .add_singleton(ROOT, UUID, vec![])
        .add_transient(ROOT, WRAPPER, vec![UUID]);
    let w1 = sp.resolve(ROOT, WRAPPER).unwrap();
    let w2 = sp.resolve(ROOT, WRAPPER).unwrap();
    assert_ne!(w1, w2);
    assert_eq!(sp.object(w1).deps[0], sp.object(w2).deps[0]);
    assert_eq!(sp.object(w1).value, sp.object(w2).value);
}

#[test]
fn service_reads_token_of_config_instance() {
    let mut sp = ServiceProvider::new()
        .add_instance(ROOT, CONFIG, Value::Token("ABC".to_string()))
        .add_transient(ROOT, SERVICE, vec![CONFIG]);
    let s = sp.resolve(ROOT, SERVICE).unwrap();
    let config = sp.object(s).deps[0];
    assert_eq!(sp.object(config).value, Value::Token("ABC".to_string()));
    assert_eq!(sp.object(s).value, Value::Reads(Box::new(Value::Token("ABC".to_string()))));
}

#[test]
fn weather_service_is_kept_per_scope() {
    let mut sp = ServiceProvider::new()
        .add_scoped_i(ROOT, CITY)
        .add_scoped(ROOT, WEATHER, vec![CITY]);
    let scope1 = sp.scope(ROOT, vec![Value::City("Odessa".to_string())]).unwrap();
    let w1 = sp.resolve_in(scope1, WEATHER).unwrap();
    let w1_again = sp.resolve_in(scope1, WEATHER).unwrap();
    assert_eq!(w1, w1_again);
    assert_eq!(sp.object(w1).deps[0], sp.object(w1_again).deps[0]);
    assert_eq!(sp.object(w1).value, Value::Reads(Box::new(Value::City("Odessa".to_string()))));

    let scope2 = sp.scope(ROOT, vec![Value::City("Odessa".to_string())]).unwrap();
    let w2 = sp.resolve_in(scope2, WEATHER).unwrap();
    assert_ne!(w1, w2);
    let city1 = sp.object(w1).deps[0];
    let city2 = sp.object(w2).deps[0];
    // the same value by clone, two objects by reference
    assert_eq!(sp.object(city1).value, sp.object(city2).value);
    assert_ne!(city1, city2);
}

#[test]
fn transient_is_built_anew_each_time() {
    let mut sp: ServiceProvider<Value> = ServiceProvider::new().add_transient(ROOT, UUID, vec![]);
    let a = sp.resolve(ROOT, UUID).unwrap();
    let b = sp.resolve(ROOT, UUID).unwrap();
    assert_ne!(a, b);
    assert_eq!(sp.object_count(), 2);
}

#[test]
fn singleton_is_shared_by_sibling_forks() {
    let mut sp: ServiceProvider<Value> = ServiceProvider::new().add_singleton(ROOT, UUID, vec![]);
    let f1 = sp.fork(ROOT);
    let f2 = sp.fork(ROOT);
    let a = sp.resolve(f1, UUID).unwrap();
    let b = sp.resolve(f2, UUID).unwrap();
    let c = sp.resolve(ROOT, UUID).unwrap();
    assert_eq!(a, b);
    assert_eq!(a, c);
    assert_eq!(sp.object_count(), 1);
}

#[test]
fn instance_is_the_supplied_object_from_every_fork() {
    let mut sp = ServiceProvider::new().add_instance(ROOT, CONFIG, Value::Number(10));
    let f1 = sp.fork(ROOT);
    let f2 = sp.fork(f1);
    let a = sp.resolve(f1, CONFIG).unwrap();
    let b = sp.resolve(f2, CONFIG).unwrap();
    assert_eq!(a, b);
    assert_eq!(sp.object(a).value, Value::Number(10));
    assert_eq!(sp.object_count(), 1);
}

#[test]
fn scoped_differs_across_scopes_and_not_within() {
    let mut sp: ServiceProvider<Value> = ServiceProvider::new().add_scoped(ROOT, WEATHER, vec![]);
    let s1 = sp.scope(ROOT, vec![]).unwrap();
    let s2 = sp.scope(ROOT, vec![]).unwrap();
    let a = sp.resolve_in(s1, WEATHER).unwrap();
    let b = sp.resolve_in(s1, WEATHER).unwrap();
    let c = sp.resolve_in(s2, WEATHER).unwrap();
    assert_eq!(a, b);
    assert_ne!(a, c);
}

#[test]
fn deep_fork_chain_sees_root_registration() {
    let mut sp = ServiceProvider::new().add_instance(ROOT, UUID, Value::Number(10));
    let mut node = ROOT;
    for _ in 0..5 {
        node = sp.fork(node);
    }
    let id = sp.resolve(node, UUID).unwrap();
    assert_eq!(sp.object(id).value, Value::Number(10));
}

#[test]
fn dependency_may_be_registered_after_dependent() {
    let mut sp: ServiceProvider<Value> = ServiceProvider::new()
        .add_transient(ROOT, WRAPPER, vec![UUID])
        .add_transient(ROOT, UUID, vec![]);
    let w = sp.resolve(ROOT, WRAPPER).unwrap();
    assert_eq!(sp.object(sp.object(w).deps[0]).service, UUID);
}

#[test]
fn fork_registration_shadows_parent() {
    let mut sp = ServiceProvider::new().add_instance(ROOT, CONFIG, Value::Number(1));
    let f = sp.fork(ROOT);
    let mut sp = sp.add_instance(f, CONFIG, Value::Number(2));
    let a = sp.resolve(f, CONFIG).unwrap();
    let b = sp.resolve(ROOT, CONFIG).unwrap();
    assert_eq!(sp.object(a).value, Value::Number(2));
    assert_eq!(sp.object(b).value, Value::Number(1));
}

#[test]
fn newest_registration_wins_in_one_registry() {
    let mut sp = ServiceProvider::new()
        .add_instance(ROOT, CONFIG, Value::Number(1))
        .add_instance(ROOT, CONFIG, Value::Number(2));
    let a = sp.resolve(ROOT, CONFIG).unwrap();
    assert_eq!(sp.object(a).value, Value::Number(2));
}

#[test]
fn missing_dependency_is_reported() {
    let mut sp: ServiceProvider<Value> = ServiceProvider::new().add_transient(ROOT, WRAPPER, vec![UUID]);
    assert_eq!(sp.resolve(ROOT, WRAPPER), Err(ResolveError::Missing(UUID)));
    assert_eq!(sp.resolve(ROOT, SERVICE), Err(ResolveError::Missing(SERVICE)));
    assert_eq!(sp.object_count(), 0);
}

#[test]
fn cycle_is_reported() {
    let mut sp: ServiceProvider<Value> = ServiceProvider::new()
        .add_transient(ROOT, WRAPPER, vec![UUID])
        .add_transient(ROOT, UUID, vec![WRAPPER]);
    assert_eq!(sp.resolve(ROOT, WRAPPER), Err(ResolveError::Cycle(WRAPPER)));
    let mut sp: ServiceProvider<Value> = ServiceProvider::new().add_singleton(ROOT, UUID, vec![UUID]);
    assert_eq!(sp.resolve(ROOT, UUID), Err(ResolveError::Cycle(UUID)));
}

#[test]
fn scoped_outside_scope_is_reported() {
    let mut sp: ServiceProvider<Value> = ServiceProvider::new()
        .add_scoped(ROOT, WEATHER, vec![])
        .add_scoped_i(ROOT, CITY);
    assert_eq!(sp.resolve(ROOT, WEATHER), Err(ResolveError::OutOfScope(WEATHER)));
    assert_eq!(sp.resolve(ROOT, CITY), Err(ResolveError::OutOfScope(CITY)));
}

#[test]
fn scoped_value_declared_after_opening_is_missing() {
    let mut sp: ServiceProvider<Value> = ServiceProvider::new();
    let s = sp.scope(ROOT, vec![]).unwrap();
    let mut sp = sp.add_scoped_i(ROOT, CITY);
    assert_eq!(sp.resolve_in(s, CITY), Err(ResolveError::Missing(CITY)));
}

#[test]
fn scope_needs_one_value_per_declaration() {
    let mut sp: ServiceProvider<Value> = ServiceProvider::new()
        .add_scoped_i(ROOT, CITY)
        .add_scoped_i(ROOT, CONFIG);
    assert_eq!(
        sp.scope(ROOT, vec![Value::Number(1)]),
        Err(ScopeError::Arity { declared: 2, supplied: 1 })
    );
    assert_eq!(sp.declared(ROOT), vec![CONFIG, CITY]);
    let f = sp.fork(ROOT);
    let mut sp = sp.add_scoped_i(f, UUID);
    assert_eq!(sp.declared(f), vec![UUID, CONFIG, CITY]);
    let s = sp
        .scope(f, vec![Value::Number(3), Value::Number(2), Value::Number(1)])
        .unwrap();
    let city = sp.resolve_in(s, CITY).unwrap();
    assert_eq!(sp.object(city).value, Value::Number(1));
}

#[test]
fn transient_conversion_wraps_a_new_object_each_time() {
    let mut sp: ServiceProvider<Value> = ServiceProvider::new()
        .add_transient(ROOT, UUID, vec![])
        .add_transient_c(ROOT, SERVICE, WRAPPER, vec![UUID]);
    let a = sp.resolve(ROOT, SERVICE).unwrap();
    let b = sp.resolve(ROOT, SERVICE).unwrap();
    assert_eq!(sp.object(a).service, SERVICE);
    let inner = sp.object(a).deps[0];
    assert_eq!(sp.object(inner).service, WRAPPER);
    assert_eq!(sp.object(sp.object(inner).deps[0]).service, UUID);
    assert_ne!(inner, sp.object(b).deps[0]);
    assert_eq!(sp.resolve(ROOT, WRAPPER), Err(ResolveError::Missing(WRAPPER)));
}

#[test]
fn singleton_conversion_shares_the_inner_object() {
    let mut sp: ServiceProvider<Value> = ServiceProvider::new().add_singleton_c(ROOT, SERVICE, WRAPPER, vec![]);
    let a = sp.resolve(ROOT, SERVICE).unwrap();
    let b = sp.resolve(ROOT, SERVICE).unwrap();
    assert_ne!(a, b);
    assert_eq!(sp.object(a).deps[0], sp.object(b).deps[0]);
}

#[test]
fn instance_conversion_wraps_the_supplied_object() {
    let mut sp = ServiceProvider::new().add_instance_c(ROOT, SERVICE, CONFIG, Value::Number(10));
    let a = sp.resolve(ROOT, SERVICE).unwrap();
    let inner = sp.object(a).deps[0];
    assert_eq!(inner, 0);
    assert_eq!(sp.object(inner).service, CONFIG);
    assert_eq!(sp.object(inner).value, Value::Number(10));
}

#[test]
fn dependencies_are_built_in_order() {
    let mut sp: ServiceProvider<Value> = ServiceProvider::new()
        .add_transient(ROOT, UUID, vec![])
        .add_instance(ROOT, CONFIG, Value::Number(7))
        .add_transient(ROOT, SERVICE, vec![UUID, CONFIG, UUID]);
    let s = sp.resolve(ROOT, SERVICE).unwrap();
    let deps = sp.object(s).deps.clone();
    assert_eq!(deps.len(), 3);
    assert_eq!(sp.object(deps[0]).service, UUID);
    assert_eq!(sp.object(deps[1]).service, CONFIG);
    assert_eq!(sp.object(deps[2]).service, UUID);
    assert!(deps[0] < deps[2]);
    assert!(deps[2] < s);
}

#[test]
fn names_start_with_single_letters() {
    assert_eq!(name_generator(0), Vec::<String>::new());
    assert_eq!(name_generator(3), vec!["a".to_string(), "b".to_string(), "c".to_string()]);
    let names = name_generator(60);
    assert_eq!(names.len(), 60);
    assert_eq!(names[25], "z");
    assert_eq!(names[26], "aa");
    assert_eq!(names[27], "ab");
    assert_eq!(names[51], "az");
    assert_eq!(names[52], "bb");
}

#[test]
fn names_reach_three_letters() {
    let names = name_generator(26 + 351 + 2);
    assert_eq!(names[26 + 350], "zz");
    assert_eq!(names[26 + 351], "aaa");
    assert_eq!(names[26 + 352], "aab");
}
