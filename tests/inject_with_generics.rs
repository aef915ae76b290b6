use teloc::{Dependency, Object, Resolver, ServiceProvider, ROOT};

const CITY: usize = 1;
const FOO: usize = 2;
const WEATHER_SERVICE: usize = 3;

#[derive(Debug, Clone, PartialEq)]
struct City(String);

#[derive(Debug, PartialEq)]
enum Value {
    City(City),
    Foo(i32),
    Weather { city: City },
}

impl Dependency for Value {
    fn init(_service: usize, deps: &Vec<usize>, objects: &Vec<Object<Value>>) -> Value {
        match &objects[deps[0]].value {
            Value::City(city) => Value::Weather { city: city.clone() },
            _ => panic!("city expected"),
        }
    }
}

#[test]
fn inject_with_generics_test() {
    let mut sp = ServiceProvider::new()
        .add_instance(ROOT, CITY, Value::City(City("Odessa".to_string())))
        .add_instance(ROOT, FOO, Value::Foo(0))
        .add_transient(ROOT, WEATHER_SERVICE, vec![CITY, FOO]);
    let id = sp.resolve(ROOT, WEATHER_SERVICE).unwrap();
    assert_eq!(sp.object(id).value, Value::Weather { city: City("Odessa".to_string()) });
}
