use teloc::{Dependency, Object, Resolver, ServiceProvider, ROOT};

const NUMBER: usize = 1;
const NUMBER_SERVICE: usize = 2;

#[derive(Clone)]
struct Number(i32);

struct NumberService(i32);

impl NumberService {
    pub fn new(number: Number) -> Self {
        Self(number.0)
    }
}

enum Value {
    Number(Number),
    Service(NumberService),
}

impl Dependency for Value {
    fn init(service: usize, deps: &Vec<usize>, objects: &Vec<Object<Value>>) -> Value {
        match service {
            NUMBER => Value::Number(Number(1)),
            _ => match &objects[deps[0]].value {
                Value::Number(n) => Value::Service(NumberService::new(n.clone())),
                _ => panic!("number expected"),
            },
        }
    }
}

#[test]
fn factories_test() {
    let mut sp: ServiceProvider<Value> = ServiceProvider::new()
        .add_transient(ROOT, NUMBER, vec![])
        .add_transient(ROOT, NUMBER_SERVICE, vec![NUMBER]);

    let id = sp.resolve(ROOT, NUMBER_SERVICE).unwrap();
    match &sp.object(id).value {
        Value::Service(dep) => assert_eq!(dep.0, 1),
        _ => panic!("service expected"),
    }
}
