use std::rc::Rc;
use teloc::{Dependency, Object, Resolver, ServiceProvider, ROOT};

const CONTROLLER_A: usize = 1;
const CONTROLLER_B: usize = 2;
const SCHEMA: usize = 3;
const SCHEMA1_CLONED: usize = 4;
const SCHEMA2_CLONED: usize = 5;

#[derive(Clone)]
struct ConstService {
    data: i32,
    data2: u8,
}
impl ConstService {
    pub fn init(data: i32, data2: u8) -> Self {
        ConstService { data, data2 }
    }
}
#[derive(Clone)]
struct ControllerA {
    service: ConstService,
}
#[derive(Clone)]
struct ControllerB {
    service: ConstService,
}
struct Schema {
    a: ControllerA,
    b: ControllerB,
}
struct Schema1Cloned {
    a: Rc<ControllerA>,
}
struct Schema2Cloned {
    a: Rc<ControllerA>,
}

enum Value {
    A(ControllerA),
    SharedA(Rc<ControllerA>),
    B(ControllerB),
    Schema(Schema),
    Schema1(Schema1Cloned),
    Schema2(Schema2Cloned),
}

fn shared(objects: &Vec<Object<Value>>, id: usize) -> Rc<ControllerA> {
    match &objects[id].value {
        Value::SharedA(a) => a.clone(),
        _ => panic!("shared controller expected"),
    }
}

impl Dependency for Value {
    fn init(service: usize, deps: &Vec<usize>, objects: &Vec<Object<Value>>) -> Value {
        match service {
            CONTROLLER_A => Value::A(ControllerA { service: ConstService::init(0, 1) }),
            CONTROLLER_B => Value::B(ControllerB { service: ConstService::init(1, 5) }),
            SCHEMA => match (&objects[deps[0]].value, &objects[deps[1]].value) {
                (Value::A(a), Value::B(b)) => Value::Schema(Schema { a: a.clone(), b: b.clone() }),
                _ => panic!("controllers expected"),
            },
            SCHEMA1_CLONED => Value::Schema1(Schema1Cloned { a: shared(objects, deps[0]) }),
            SCHEMA2_CLONED => Value::Schema2(Schema2Cloned { a: shared(objects, deps[0]) }),
            _ => Value::SharedA(Rc::new(ControllerA { service: ConstService::init(0, 1) })),
        }
    }
}

#[test]
fn tests_test() {
    let mut container: ServiceProvider<Value> = ServiceProvider::new()
        .add_transient(ROOT, CONTROLLER_A, vec![])
        .add_transient(ROOT, CONTROLLER_B, vec![])
        .add_transient(ROOT, SCHEMA, vec![CONTROLLER_A, CONTROLLER_B]);
    let id = container.resolve(ROOT, SCHEMA).unwrap();
    let schema = match &container.object(id).value {
        Value::Schema(schema) => schema,
        _ => panic!("schema expected"),
    };
    assert_eq!(schema.a.service.data, 0);
    assert_eq!(schema.a.service.data2, 1);
    assert_eq!(schema.b.service.data, 1);
    assert_eq!(schema.b.service.data2, 5);
}

#[test]
fn tests_test_cloned() {
    const SHARED_A: usize = 6;
    let mut container: ServiceProvider<Value> = ServiceProvider::new()
        .add_singleton(ROOT, SHARED_A, vec![])
        .add_transient(ROOT, SCHEMA1_CLONED, vec![SHARED_A])
        .add_transient(ROOT, SCHEMA2_CLONED, vec![SHARED_A]);

    let id1 = container.resolve(ROOT, SCHEMA1_CLONED).unwrap();
    let schema1 = match &container.object(id1).value {
        Value::Schema1(s) => s,
        _ => panic!("schema expected"),
    };
    assert_eq!(schema1.a.service.data, 0);
    assert_eq!(schema1.a.service.data2, 1);
    let a1 = schema1.a.clone();

    let id2 = container.resolve(ROOT, SCHEMA2_CLONED).unwrap();
    let schema2 = match &container.object(id2).value {
        Value::Schema2(s) => s,
        _ => panic!("schema expected"),
    };
    assert_eq!(schema2.a.service.data, 0);
    assert_eq!(schema2.a.service.data2, 1);
    assert!(Rc::ptr_eq(&a1, &schema2.a));
}
