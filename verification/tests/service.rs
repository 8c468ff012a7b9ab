use penoxy::config::{init, Field, Key, Record};
use penoxy::service::{
    client_service_fields, missing_field, server_service_fields, sort_out, Admission, ListenerAction,
    ListenerEvent, OpenAction, OpenEvent, Service,
};
use penoxy::stream::StreamContext;

fn record() -> Record {
    Record {
        name: Field::Text("web".to_string()),
        bind: Field::Text("0.0.0.0:80".to_string()),
        remote: Field::Text("127.0.0.1:8080".to_string()),
        host_name: Field::Text("home".to_string()),
        passkey: Field::Absent,
    }
}

fn service(providers: u32) -> Service<u32> {
    let mut service = Service::new(&record());
    for provider in 0..providers {
        service.add_provider(provider);
    }
    service
}

fn opened(action: OpenAction) -> usize {
    match action {
        OpenAction::Open(index) => index,
        _ => panic!("a stream is to be opened"),
    }
}

#[test]
fn service_has_its_record() {
    let service = service(0);
    assert_eq!(service.name, "web");
    assert_eq!(service.bind, "0.0.0.0:80");
    assert_eq!(service.remote, "127.0.0.1:8080");
    assert_eq!(service.host_name, "home");
    assert!(service.providers.is_empty());
    assert!(!service.has_turn());
    let nameless: Service<u32> = Service::new(&Record { host_name: Field::Other, ..record() });
    assert_eq!(nameless.host_name, "");
}

#[test]
fn asked_fields() {
    assert_eq!(
        server_service_fields(),
        vec![Key::Name, Key::Bind, Key::Remote, Key::HostName]
    );
    assert_eq!(client_service_fields(), vec![Key::Name, Key::Bind, Key::Remote]);
    let bare = Record { bind: Field::Absent, host_name: Field::Absent, ..record() };
    assert_eq!(missing_field(&bare, &server_service_fields()), Some(Key::Bind));
    assert_eq!(missing_field(&bare, &vec![Key::HostName, Key::Bind]), Some(Key::HostName));
    assert_eq!(missing_field(&bare, &vec![Key::Name]), None);
}

#[test]
fn records_are_sorted_out() {
    let text = "
services:
  - {name: a, bind: b, remote: r}
  - {name: a, bind: b, remote: r, host_name: h}
  - {bind: b}
  - seven
  - {name: 1, bind: 2, remote: r, host_name: h}
  - {name: a, bind: ~, remote: r, host_name: 5}
  - {name: a, bind: b, remote: [], host_name: 5}
";
    let config = init(text, &vec![]).unwrap();
    let server = Service::<u32>::from_config(&config, &server_service_fields()).unwrap();
    assert_eq!(server.len(), 7);
    assert!(matches!(server[0], Admission::Ignored(Key::HostName)));
    assert!(matches!(&server[1], Admission::Accepted(s) if s.host_name == "h"));
    assert!(matches!(server[2], Admission::Ignored(Key::Name)));
    assert!(matches!(server[3], Admission::Ignored(Key::Name)));
    assert!(matches!(server[4], Admission::Malformed(Key::Name)));
    assert!(matches!(server[5], Admission::Malformed(Key::Bind)));
    assert!(matches!(server[6], Admission::Malformed(Key::Remote)));
    let client = Service::<u32>::from_config(&config, &client_service_fields()).unwrap();
    assert!(matches!(&client[0], Admission::Accepted(s) if s.host_name.is_empty()));
}

#[test]
fn services_are_optional_but_a_list() {
    let none = init("a: b", &vec![]).unwrap();
    assert!(Service::<u32>::from_config(&none, &vec![]).unwrap().is_empty());
    let text = init("services: b", &vec![]).unwrap();
    assert!(Service::<u32>::from_config(&text, &vec![]).is_none());
}

#[test]
fn listener_refuses_without_provider() {
    assert!(service(0).run(ListenerEvent::Accepted) == ListenerAction::Refuse);
    assert!(service(1).run(ListenerEvent::Accepted) == ListenerAction::Handle);
    assert!(service(1).run(ListenerEvent::Failed) == ListenerAction::Stop);
}

#[test]
fn only_the_named_host_registers() {
    let mut service = service(0);
    assert!(!service.register("other", 1));
    assert!(service.providers.is_empty());
    assert!(service.register("home", 2));
    assert_eq!(service.providers, vec![2]);
    assert!(service.has_turn());
}

#[test]
fn providers_take_turns_in_order() {
    let mut service = service(3);
    let turns: Vec<usize> =
        (0..7).map(|_| opened(service.handle_connection(OpenEvent::Start))).collect();
    assert_eq!(turns, vec![0, 1, 2, 0, 1, 2, 0]);
    assert_eq!(service.providers, vec![0, 1, 2]);
}

#[test]
fn opened_stream_is_told_the_remote() {
    let mut service = service(1);
    service.handle_connection(OpenEvent::Start);
    match service.handle_connection(OpenEvent::Opened) {
        OpenAction::Relay(bytes) => {
            assert_eq!(bytes, StreamContext::send_str("127.0.0.1:8080"));
        }
        _ => panic!("a relay is due"),
    }
}

#[test]
fn failed_provider_is_dropped_and_the_next_tried() {
    let mut service = service(3);
    assert_eq!(opened(service.handle_connection(OpenEvent::Start)), 0);
    assert_eq!(opened(service.handle_connection(OpenEvent::Start)), 1);
    assert_eq!(opened(service.handle_connection(OpenEvent::Failed(1))), 1);
    assert_eq!(service.providers, vec![0, 2]);
    assert_eq!(opened(service.handle_connection(OpenEvent::Start)), 0);
}

#[test]
fn connection_is_refused_when_all_providers_fail() {
    let mut service = service(2);
    let mut index = opened(service.handle_connection(OpenEvent::Start));
    index = opened(service.handle_connection(OpenEvent::Failed(index)));
    match service.handle_connection(OpenEvent::Failed(index)) {
        OpenAction::Refuse(e) => {
            assert_eq!(e.message, "Service 'web' has no provider. Connection refused.");
        }
        _ => panic!("no provider is left"),
    }
    assert!(service.providers.is_empty());
    service.add_provider(9);
    assert_eq!(opened(service.handle_connection(OpenEvent::Start)), 0);
}

#[test]
fn list_is_read_up_to_the_malformed_record() {
    let sorted = sort_out(vec![
        Admission::Accepted(1),
        Admission::Ignored(Key::Bind),
        Admission::Accepted(2),
        Admission::Malformed(Key::Name),
        Admission::Accepted(3),
        Admission::Ignored(Key::Remote),
        Admission::Malformed(Key::Bind),
    ]);
    assert_eq!(sorted.accepted, vec![1, 2]);
    assert_eq!(sorted.ignored, vec![Key::Bind]);
    assert_eq!(sorted.malformed, Some(Key::Name));
    let sorted = sort_out(vec![Admission::Ignored(Key::Name), Admission::Accepted(4)]);
    assert_eq!(sorted.accepted, vec![4]);
    assert_eq!(sorted.ignored, vec![Key::Name]);
    assert_eq!(sorted.malformed, None);
}

#[test]
fn only_providers_that_were_tried_in_vain_leave() {
    let mut service = service(5);
    for _ in 0..3 {
        service.handle_connection(OpenEvent::Start);
    }
    let mut index = opened(service.handle_connection(OpenEvent::Start));
    let mut tried = vec![service.providers[index]];
    while service.providers[index] > 1 {
        index = opened(service.handle_connection(OpenEvent::Failed(index)));
        tried.push(service.providers[index]);
    }
    assert_eq!(tried, vec![3, 4, 0]);
    assert_eq!(service.providers, vec![0, 1, 2]);
    assert_eq!(opened(service.handle_connection(OpenEvent::Start)), 1);
}
