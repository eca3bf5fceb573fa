use zmq_service::registry::Service;

#[test]
fn new_service_has_name_and_no_callbacks() {
    let service: Service<u32> = Service::new(String::from("Service_1"));
    assert_eq!(service.name(), "Service_1");
    assert_eq!(service.len(), 0);
    assert!(service.callback_for(&String::from("TestMsg")).is_none());
    assert!(service.subscriptions().is_empty());
}

#[test]
fn registered_callback_is_found_by_its_topic() {
    let mut service: Service<u32> = Service::new(String::from("Service_1"));
    service.add_sub_callback(String::from("TestMsg3"), 3);
    service.add_sub_callback(String::from("TestMsg"), 1);
    assert_eq!(service.len(), 2);
    assert_eq!(service.callback_for(&String::from("TestMsg3")), Some(&3));
    assert_eq!(service.callback_for(&String::from("TestMsg")), Some(&1));
    assert_eq!(service.callback_for(&String::from("TestMsg2")), None);
}

#[test]
fn second_registration_replaces_first() {
    let mut service: Service<u32> = Service::new(String::from("Service_2"));
    service.add_sub_callback(String::from("TestMsg2"), 7);
    service.add_sub_callback(String::from("TestMsg2"), 8);
    assert_eq!(service.len(), 1);
    assert_eq!(service.callback_for(&String::from("TestMsg2")), Some(&8));
}

#[test]
fn lookup_is_exact_not_by_prefix() {
    let mut service: Service<u32> = Service::new(String::from("Service_1"));
    service.add_sub_callback(String::from("TestMsg"), 1);
    assert_eq!(service.callback_for(&String::from("TestMsg3")), None);
    assert_eq!(service.callback_for(&String::from("Test")), None);
}

#[test]
fn subscriptions_are_the_registered_topics_as_bytes() {
    let mut service: Service<u32> = Service::new(String::from("Service_1"));
    service.add_sub_callback(String::from("TestMsg3"), 3);
    service.add_sub_callback(String::from("TestMsg"), 1);
    service.add_sub_callback(String::from("TestMsg3"), 4);
    let mut filters = service.subscriptions();
    filters.sort();
    assert_eq!(filters, vec![b"TestMsg".to_vec(), b"TestMsg3".to_vec()]);
}

#[test]
fn clone_keeps_name_and_callbacks() {
    let mut service: Service<u32> = Service::new(String::from("Service_1"));
    service.add_sub_callback(String::from("TestMsg3"), 3);
    let copy = service.clone();
    assert_eq!(copy.name(), "Service_1");
    assert_eq!(copy.callback_for(&String::from("TestMsg3")), Some(&3));
    assert_eq!(copy.len(), 1);
}
