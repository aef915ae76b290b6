use teloc::{Dependency, Object, Resolver, ServiceProvider, ROOT};

const UUID: usize = 1;
const TRANSIENT: usize = 2;
const SCOPED: usize = 3;
const SINGLETON: usize = 4;
const INSTANCE: usize = 5;
const NUMBER: usize = 6;
const BORROWED: usize = 7;

#[derive(Debug, Clone, PartialEq)]
enum Value {
    /// A fresh identifier: the position of the object it was made for.
    Uuid(usize),
    /// A service holding the identifier it was built from.
    Holds(usize),
    Number(u8),
    Dep(u8),
}

impl Dependency for Value {
    fn init(service: usize, deps: &Vec<usize>, objects: &Vec<Object<Value>>) -> Value {
        if service == UUID {
            return Value::Uuid(objects.len());
        }
        match &objects[deps[0]].value {
            Value::Uuid(u) => Value::Holds(*u),
            Value::Number(n) => Value::Dep(*n),
            _ => panic!("unexpected dependency"),
        }
    }
}

fn u(sp: &ServiceProvider<Value>, id: usize) -> usize {
    match &sp.object(id).value {
        Value::Holds(u) => *u,
        Value::Uuid(u) => *u,
        _ => panic!("no identifier"),
    }
}

#[test]
fn test_lifetimes() {
    let mut provider = ServiceProvider::new()
        .add_transient(ROOT, UUID, vec![])
        .add_transient(ROOT, TRANSIENT, vec![UUID])
        .add_singleton(ROOT, SINGLETON, vec![UUID])
        .add_instance(ROOT, INSTANCE, Value::Holds(usize::MAX));

    let scope1 = provider.fork(ROOT);
    let mut provider = provider.add_singleton(scope1, SCOPED, vec![UUID]);

    let t1 = provider.resolve(scope1, TRANSIENT).unwrap();
    let t1_1 = provider.resolve(scope1, TRANSIENT).unwrap();
    let sc1 = provider.resolve(scope1, SCOPED).unwrap();
    let sc1_1 = provider.resolve(scope1, SCOPED).unwrap();
    let si1 = provider.resolve(scope1, SINGLETON).unwrap();
    let i1 = provider.resolve(scope1, INSTANCE).unwrap();

    let scope2 = provider.fork(ROOT);
    let mut provider = provider.add_singleton(scope2, SCOPED, vec![UUID]);

    let t2 = provider.resolve(scope2, TRANSIENT).unwrap();
    let sc2 = provider.resolve(scope2, SCOPED).unwrap();
    let si2 = provider.resolve(scope2, SINGLETON).unwrap();
    let i2 = provider.resolve(scope2, INSTANCE).unwrap();

    assert_ne!(u(&provider, t1), u(&provider, t1_1));
    assert_ne!(u(&provider, t1), u(&provider, t2));
    assert_ne!(u(&provider, sc1), u(&provider, sc2));

    assert_eq!(u(&provider, sc1), u(&provider, sc1_1));
    assert_eq!(u(&provider, si1), u(&provider, si2));
    assert_eq!(u(&provider, i1), u(&provider, i2));
}

#[test]
fn test_resolve_nested_fork() {
    let mut provider = ServiceProvider::new().add_instance(ROOT, NUMBER, Value::Number(10));
    let forked_provider = provider.fork(ROOT);
    let double_forked_provider = provider.fork(forked_provider);

    let num = provider.resolve(double_forked_provider, NUMBER).unwrap();
    assert_eq!(provider.object(num).value, Value::Number(10));
}

#[test]
fn test_forked_lifetime() {
    let mut provider = ServiceProvider::new().add_instance(ROOT, NUMBER, Value::Number(10));
    let num = provider.resolve(ROOT, NUMBER).unwrap();

    let forked = provider.fork(ROOT);
    let forked_num = provider.resolve(forked, NUMBER).unwrap();

    assert_eq!(num, forked_num);
}

#[test]
fn test_resolve_instance_with_greater_lifetime() {
    let num = 10u8;

    let mut provider = ServiceProvider::new().add_instance(ROOT, NUMBER, Value::Number(num));
    let resolved_num = provider.resolve(ROOT, NUMBER).unwrap();

    assert_eq!(Value::Number(num), provider.object(resolved_num).value);
}

#[test]
fn test_resolve_singleton_with_greater_lifetime() {
    let mut provider: ServiceProvider<Value> = ServiceProvider::new().add_singleton(ROOT, UUID, vec![]);
    let uuid = provider.resolve(ROOT, UUID).unwrap();

    let forked = provider.fork(ROOT);
    let forked_uuid = provider.resolve(forked, UUID).unwrap();

    assert_eq!(provider.object(uuid).value, provider.object(forked_uuid).value);
}

#[test]
fn test_resolve_transient_with_greater_lifetime() {
    let mut provider: ServiceProvider<Value> = ServiceProvider::new().add_transient(ROOT, UUID, vec![]);
    let uuid = provider.resolve(ROOT, UUID).unwrap();

    let forked = provider.fork(ROOT);
    let forked_uuid = provider.resolve(forked, UUID).unwrap();

    assert_ne!(provider.object(uuid).value, provider.object(forked_uuid).value);
}

#[test]
fn test_resolve_singleton_deps_with_greater_lifetime() {
    let mut provider = ServiceProvider::new()
        .add_instance(ROOT, NUMBER, Value::Number(10))
        .add_singleton(ROOT, BORROWED, vec![NUMBER]);
    let singleton = provider.resolve(ROOT, BORROWED).unwrap();

    let forked = provider.fork(ROOT);
    let forked_singleton = provider.resolve(forked, BORROWED).unwrap();

    assert_eq!(provider.object(singleton).deps[0], provider.object(forked_singleton).deps[0]);
    assert_eq!(provider.object(singleton).value, Value::Dep(10));
}

#[test]
fn test_resolve_transient_deps_with_greater_lifetime() {
    let mut provider = ServiceProvider::new()
        .add_instance(ROOT, NUMBER, Value::Number(10))
        .add_transient(ROOT, BORROWED, vec![NUMBER]);
    let transient = provider.resolve(ROOT, BORROWED).unwrap();

    let forked = provider.fork(ROOT);
    let forked_transient = provider.resolve(forked, BORROWED).unwrap();

    assert_eq!(provider.object(transient).deps[0], provider.object(forked_transient).deps[0]);
    assert_eq!(provider.object(forked_transient).value, Value::Dep(10));
}
