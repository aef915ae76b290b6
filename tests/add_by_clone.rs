use std::rc::Rc;
use teloc::{Dependency, Object, Resolver, ServiceProvider, ROOT};

const CONTROLLER: usize = 1;
const SCHEMA1_CLONED: usize = 2;
const SCHEMA2_CLONED: usize = 3;

struct Controller;

struct Schema1Cloned {
    a: Rc<Controller>,
}

struct Schema2Cloned {
    a: Rc<Controller>,
}

enum Value {
    Controller(Rc<Controller>),
    Schema1(Schema1Cloned),
    Schema2(Schema2Cloned),
}

fn controller(objects: &Vec<Object<Value>>, id: usize) -> Rc<Controller> {
    match &objects[id].value {
        Value::Controller(c) => c.clone(),
        _ => panic!("not a controller"),
    }
}

impl Dependency for Value {
    fn init(service: usize, deps: &Vec<usize>, objects: &Vec<Object<Value>>) -> Value {
        match service {
            CONTROLLER => Value::Controller(Rc::new(Controller)),
            SCHEMA1_CLONED => Value::Schema1(Schema1Cloned { a: controller(objects, deps[0]) }),
            _ => Value::Schema2(Schema2Cloned { a: controller(objects, deps[0]) }),
        }
    }
}

#[test]
fn add_by_clone_test_cloned() {
    let mut container: ServiceProvider<Value> = ServiceProvider::new()
        .add_singleton(ROOT, CONTROLLER, vec![])
        .add_transient(ROOT, SCHEMA1_CLONED, vec![CONTROLLER])
        .add_transient(ROOT, SCHEMA2_CLONED, vec![CONTROLLER]);

    let schema1 = container.resolve(ROOT, SCHEMA1_CLONED).unwrap();
    let schema2 = container.resolve(ROOT, SCHEMA2_CLONED).unwrap();

    match (&container.object(schema1).value, &container.object(schema2).value) {
        (Value::Schema1(schema1), Value::Schema2(schema2)) => assert!(Rc::ptr_eq(&schema1.a, &schema2.a)),
        _ => panic!("schemas expected"),
    }
}
