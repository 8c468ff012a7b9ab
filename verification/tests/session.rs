use penoxy::config::{init, Field, Key, Record};
use penoxy::relay::{PairAction, PairEvent, StreamPair};
use penoxy::service::{Admission, OpenAction, OpenEvent, Service};
use penoxy::session::{
    authorize, provide_service, ClientAction, ClientEvent, ClientSession, ConnectAction,
    ConnectEvent, Host, ProvideAction, ProvideEvent, ServerSession, KEEPALIVE_MILLIS,
    RECONNECT_SECS,
};
use penoxy::stream::{Step, StreamContext};

fn host(host_name: &str, passkey: &str) -> Host {
    Host { host_name: host_name.to_string(), passkey: passkey.to_string() }
}

fn text(text: &str) -> ConnectEvent {
    ConnectEvent::Str(Some(text.to_string()))
}

#[test]
fn times() {
    assert_eq!(KEEPALIVE_MILLIS, 5000);
    assert_eq!(RECONNECT_SECS, 5);
}

#[test]
fn hosts_are_sorted_out() {
    let config = init(
        "hosts: [{host_name: a, passkey: b}, {host_name: a}, {passkey: b}, {}, 1, {host_name: 1, passkey: 2}, {host_name: a, passkey: 2}]",
        &vec!["hosts"],
    )
    .unwrap();
    let hosts = Host::from_config(&config).unwrap();
    assert_eq!(hosts.len(), 7);
    assert!(matches!(&hosts[0], Admission::Accepted(h) if h.host_name == "a" && h.passkey == "b"));
    assert!(matches!(hosts[1], Admission::Ignored(Key::Passkey)));
    assert!(matches!(hosts[2], Admission::Ignored(Key::HostName)));
    assert!(matches!(hosts[3], Admission::Ignored(Key::Passkey)));
    assert!(matches!(hosts[4], Admission::Ignored(Key::Passkey)));
    assert!(matches!(hosts[5], Admission::Malformed(Key::HostName)));
    assert!(matches!(hosts[6], Admission::Malformed(Key::Passkey)));
    assert!(Host::from_config(&init("a: b", &vec![]).unwrap()).is_none());
    assert!(Host::from_config(&init("hosts: b", &vec![]).unwrap()).is_none());
    let record = Record {
        name: Field::Absent,
        bind: Field::Absent,
        remote: Field::Absent,
        host_name: Field::Text("x".to_string()),
        passkey: Field::Text("y".to_string()),
    };
    assert!(matches!(Host::from_record(&record), Admission::Accepted(h) if h.passkey == "y"));
}

#[test]
fn passkey_must_fit_each_host_of_the_name() {
    let hosts = vec![host("a", "1"), host("b", "2"), host("a", "3")];
    assert!(authorize(&hosts, "b", "2"));
    assert!(!authorize(&hosts, "b", "1"));
    assert!(!authorize(&hosts, "b", ""));
    assert!(!authorize(&hosts, "a", "1"));
    assert!(authorize(&hosts, "unknown", "whatever"));
    assert!(authorize(&vec![], "a", ""));
}

#[test]
fn client_with_right_passkey_joins_and_is_served() {
    let hosts = vec![host("a", "1")];
    let mut session = ServerSession::new();
    assert!(matches!(session.connect(text("a"), &hosts), ConnectAction::ReadStr));
    match session.connect(text("1"), &hosts) {
        ConnectAction::Join(host_name) => assert_eq!(host_name, "a"),
        _ => panic!("the passkey is right"),
    }
    assert!(matches!(session.connect(ConnectEvent::Joined, &hosts), ConnectAction::Serve));
    match session.connect(ConnectEvent::Accepted, &hosts) {
        ConnectAction::Provide(bytes) => assert_eq!(bytes, vec![0, 0]),
        _ => panic!("a stream was opened"),
    }
    assert!(matches!(session.connect(ConnectEvent::Sent, &hosts), ConnectAction::Serve));
    match session.connect(ConnectEvent::Idle, &hosts) {
        ConnectAction::Send(bytes) => assert_eq!(bytes, vec![0, 0]),
        _ => panic!("a sign of life is due"),
    }
    assert!(matches!(session.connect(ConnectEvent::Failed, &hosts), ConnectAction::Fail));
}

#[test]
fn client_with_wrong_passkey_is_denied() {
    let hosts = vec![host("a", "1")];
    let mut session = ServerSession::new();
    session.connect(text("a"), &hosts);
    assert!(matches!(session.connect(text("2"), &hosts), ConnectAction::Deny));
}

#[test]
fn client_that_leaves_is_lost() {
    let mut session = ServerSession::new();
    assert!(matches!(session.connect(ConnectEvent::Str(None), &vec![]), ConnectAction::Lost));
    let mut session = ServerSession::new();
    session.connect(text("a"), &vec![]);
    assert!(matches!(session.connect(ConnectEvent::Str(None), &vec![]), ConnectAction::Lost));
    let mut session = ServerSession::new();
    assert!(matches!(session.connect(ConnectEvent::Failed, &vec![]), ConnectAction::Fail));
}

#[test]
fn client_serves_until_it_fails() {
    let (mut session, _) = ClientSession::new("a", "1");
    assert_eq!(session.new_connection(ClientEvent::Sent), ClientAction::Join);
    assert_eq!(session.new_connection(ClientEvent::Joined), ClientAction::Serve);
    assert_eq!(session.new_connection(ClientEvent::Code(Some(0))), ClientAction::Serve);
    assert_eq!(session.new_connection(ClientEvent::Code(None)), ClientAction::Serve);
    assert_eq!(session.new_connection(ClientEvent::Accepted), ClientAction::Provide);
    assert_eq!(session.new_connection(ClientEvent::Provided), ClientAction::Serve);
    assert_eq!(session.new_connection(ClientEvent::Failed), ClientAction::Fail);
}

#[test]
fn greeting_is_understood_in_any_pieces() {
    let hosts = vec![host("höst", "secret"), host("other", "x")];
    let (_, greeting) = ClientSession::new("höst", "secret");
    assert_eq!(
        greeting,
        [StreamContext::send_str("höst"), StreamContext::send_str("secret")].concat()
    );
    for size in 1..greeting.len() + 1 {
        let mut pieces = greeting.chunks(size);
        let mut context = StreamContext::new();
        let mut session = ServerSession::new();
        let mut action = ConnectAction::ReadStr;
        while let ConnectAction::ReadStr = action {
            let mut step = context.read_str();
            let text = loop {
                match step {
                    Step::Done(text) => break Some(text),
                    Step::Wait(wait) => step = context.resume_str(wait, pieces.next()),
                    _ => break None,
                }
            };
            action = session.connect(ConnectEvent::Str(text), &hosts);
        }
        assert!(matches!(action, ConnectAction::Join(host_name) if host_name == "höst"));
    }
}

#[test]
fn stream_is_provided() {
    match provide_service(ProvideEvent::Addr(Some("127.0.0.1:1".to_string()))) {
        ProvideAction::Connect(addr) => assert_eq!(addr, "127.0.0.1:1"),
        _ => panic!("the address is known"),
    }
    assert!(matches!(provide_service(ProvideEvent::Addr(None)), ProvideAction::Lost));
    assert!(matches!(provide_service(ProvideEvent::Connected), ProvideAction::Relay));
    match provide_service(ProvideEvent::ConnectFailed) {
        ProvideAction::Refuse(bytes) => assert_eq!(bytes, vec![0, 0]),
        _ => panic!("the peer is to be told"),
    }
}

#[test]
fn provider_is_told_where_to_connect() {
    let record = Record {
        name: Field::Text("web".to_string()),
        bind: Field::Text("0.0.0.0:80".to_string()),
        remote: Field::Text("127.0.0.1:8080".to_string()),
        host_name: Field::Absent,
        passkey: Field::Absent,
    };
    let mut service: Service<u32> = Service::new(&record);
    let bytes = match service.handle_connection(OpenEvent::Opened) {
        OpenAction::Relay(bytes) => bytes,
        _ => panic!("a relay is due"),
    };
    let mut context = StreamContext::new();
    let mut step = context.read_str();
    for piece in bytes.chunks(3) {
        if let Step::Wait(wait) = step {
            step = context.resume_str(wait, Some(piece));
        }
    }
    let addr = match step {
        Step::Done(addr) => addr,
        _ => panic!("the address has arrived"),
    };
    match provide_service(ProvideEvent::Addr(Some(addr))) {
        ProvideAction::Connect(addr) => assert_eq!(addr, "127.0.0.1:8080"),
        _ => panic!("the address is known"),
    }
}

#[test]
fn refused_stream_ends_the_other_relay() {
    let bytes = match provide_service(ProvideEvent::ConnectFailed) {
        ProvideAction::Refuse(bytes) => bytes,
        _ => panic!("the peer is to be told"),
    };
    let mut context = StreamContext::new();
    let wait = match context.read_u16() {
        Step::Wait(wait) => wait,
        _ => panic!("nothing has arrived"),
    };
    let code = match context.resume_u16(wait, Some(&bytes)) {
        Step::Done(code) => code,
        _ => panic!("the code has arrived"),
    };
    let mut pair = StreamPair::new("10.0.0.1:1".to_string());
    assert!(matches!(pair.run(PairEvent::Code(Some(code))), PairAction::Stop));
}

#[test]
fn first_frame_may_arrive_with_the_address() {
    let mut bytes = StreamContext::send_str("127.0.0.1:8080");
    let mut near = StreamPair::new("10.0.0.1:1".to_string());
    match near.run(PairEvent::TcpRead(vec![7, 8])) {
        PairAction::Send(frame) => bytes.extend(frame),
        _ => panic!("a frame is due"),
    }
    let mut context = StreamContext::new();
    let wait = match context.read_str() {
        Step::Wait(wait) => wait,
        _ => panic!("nothing has arrived"),
    };
    match context.resume_str(wait, Some(&bytes)) {
        Step::Done(addr) => assert_eq!(addr, "127.0.0.1:8080"),
        _ => panic!("the address has arrived"),
    }
    assert!(matches!(context.read_u16(), Step::Done(1)));
    match context.read_chunk() {
        Step::Done(chunk) => assert_eq!(chunk, vec![7, 8]),
        _ => panic!("the chunk has arrived"),
    }
}
