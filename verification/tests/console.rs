use zmq_service::console::{envelope_line, reply_line, report_line, request_line, REQUEST_ROUNDS};

#[test]
fn envelope_line_brackets_the_envelope() {
    assert_eq!(envelope_line("A", "hello"), "[A] hello");
    assert_eq!(envelope_line("", ""), "[] ");
}

#[test]
fn report_line_names_the_field() {
    assert_eq!(report_line("address", "1616 Random Street"), "Got Response with address 1616 Random Street");
    assert_eq!(report_line("zipcode", "8080"), "Got Response with zipcode 8080");
}

#[test]
fn reply_and_request_lines() {
    assert_eq!(reply_line("3", "World"), "Received reply 3 World");
    assert_eq!(request_line("Hello"), "Received request: Hello");
    assert_eq!(REQUEST_ROUNDS, 10);
}
