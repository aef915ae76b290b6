use teloc::{Dependency, Object, Resolver, ServiceProvider, ROOT};

const CONST_SERVICE: usize = 1;
const CONTROLLER: usize = 2;

#[derive(Clone)]
struct ConstService {
    number: i32,
}
impl ConstService {
    pub fn new(number: i32) -> Self {
        ConstService { number }
    }
}

struct Controller {
    number_service: ConstService,
}

enum Value {
    Service(ConstService),
    Controller(Controller),
}

impl Dependency for Value {
    fn init(_service: usize, deps: &Vec<usize>, objects: &Vec<Object<Value>>) -> Value {
        match &objects[deps[0]].value {
            Value::Service(s) => Value::Controller(Controller { number_service: s.clone() }),
            _ => panic!("service expected"),
        }
    }
}

#[test]
fn assign_outer_variable_test() {
    let service = ConstService::new(10);
    let mut container = ServiceProvider::new()
        .add_instance(ROOT, CONST_SERVICE, Value::Service(service))
        .add_transient(ROOT, CONTROLLER, vec![CONST_SERVICE]);
    let id = container.resolve(ROOT, CONTROLLER).unwrap();
    match &container.object(id).value {
        Value::Controller(controller) => assert_eq!(controller.number_service.number, 10),
        _ => panic!("controller expected"),
    }
}
