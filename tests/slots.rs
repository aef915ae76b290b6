use teloc::{
    AnyContainer, Container, ConvertContainer, Init, InstanceContainer, Lifetime, Singleton,
    SingletonContainer, Transient, TransientContainer,
};

#[test]
fn singleton_policy_keeps_the_first_object() {
    let mut s = Singleton::new();
    assert_eq!(s.get_value(), None);
    s.keep(7);
    assert_eq!(s.get_value(), Some(7));
}

#[test]
fn transient_policy_keeps_nothing() {
    let mut t = Transient::new();
    t.keep(7);
    assert_eq!(t.get_value(), None);
}

#[test]
fn containers_list_their_dependencies() {
    let t = TransientContainer::init(vec![4, 5]);
    assert_eq!(t.dep_count(), 2);
    assert_eq!(t.dep(1), 5);
    let s = SingletonContainer::init(vec![9]);
    assert_eq!(s.dep(0), 9);
    assert_eq!(s.lifetime.get_value(), None);
    let i = InstanceContainer::init(3);
    assert_eq!(i.get(), 3);
    assert_eq!(i.dep_count(), 0);
}

#[test]
fn conversion_exposes_its_inner_container() {
    let c = ConvertContainer { source: 1, inner: AnyContainer::Instance(InstanceContainer::init(8)) };
    match c.get() {
        AnyContainer::Instance(i) => assert_eq!(i.get(), 8),
        _ => panic!("the inner container is an instance"),
    }
}
