use teloc::{Dependency, Object, Resolver, ServiceProvider, ROOT};

const CONTROLLER_A: usize = 1;
const CONTROLLER_B: usize = 2;
const SCHEMA: usize = 3;

#[derive(Clone)]
struct ConstService {
    data: i32,
    data2: u8,
}
impl ConstService {
    pub fn init(data: i32, data2: u8) -> Self {
        ConstService { data, data2 }
    }
}

#[derive(Clone)]
struct ControllerA {
    service: ConstService,
}

#[derive(Clone)]
struct ControllerB {
    service: ConstService,
}

struct Schema {
    a: ControllerA,
    b: ControllerB,
}

enum Value {
    A(ControllerA),
    B(ControllerB),
    Schema(Schema),
}

impl Dependency for Value {
    fn init(service: usize, deps: &Vec<usize>, objects: &Vec<Object<Value>>) -> Value {
        match service {
            CONTROLLER_A => Value::A(ControllerA { service: ConstService::init(0, 1) }),
            CONTROLLER_B => Value::B(ControllerB { service: ConstService::init(1, 5) }),
            _ => match (&objects[deps[0]].value, &objects[deps[1]].value) {
                (Value::A(a), Value::B(b)) => Value::Schema(Schema { a: a.clone(), b: b.clone() }),
                _ => panic!("controllers expected"),
            },
        }
    }
}

#[test]
fn add_transient_test() {
    let mut container: ServiceProvider<Value> = ServiceProvider::new()
        .add_transient(ROOT, CONTROLLER_A, vec![])
        .add_transient(ROOT, CONTROLLER_B, vec![])
        .add_transient(ROOT, SCHEMA, vec![CONTROLLER_A, CONTROLLER_B]);
    let id = container.resolve(ROOT, SCHEMA).unwrap();
    let schema = match &container.object(id).value {
        Value::Schema(schema) => schema,
        _ => panic!("schema expected"),
    };
    assert_eq!(schema.a.service.data, 0);
    assert_eq!(schema.a.service.data2, 1);
    assert_eq!(schema.b.service.data, 1);
    assert_eq!(schema.b.service.data2, 5);
}
