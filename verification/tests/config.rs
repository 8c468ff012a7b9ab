use penoxy::config::{
    check_keys, client_keys, from_document, init, server_keys, text_fits, Config, Field, InitError,
    Key, Record, Setting,
};

const SERVER: &str = "
cert: ./cert.der
key: ./key.der
bind: 0.0.0.0:4433
retries: 3
hosts:
  - host_name: home
    passkey: secret
  - host_name: [home]
    passkey: ~
  - 17
services: []
";

fn text(field: &Field) -> &str {
    match field {
        Field::Text(text) => text,
        _ => panic!("{:?} is no text", field),
    }
}

#[test]
fn needed_keys() {
    assert_eq!(server_keys(), vec!["cert", "key", "bind", "hosts"]);
    assert_eq!(client_keys(), vec!["server", "server_cert", "passkey", "host_name"]);
}

#[test]
fn server_file_is_read() {
    let config = init(SERVER, &server_keys()).unwrap();
    assert_eq!(config.text("cert").unwrap(), "./cert.der");
    assert_eq!(config.text("bind").unwrap(), "0.0.0.0:4433");
    assert!(config.contains_key("hosts"));
    assert!(config.text("hosts").is_none());
    assert!(config.records("cert").is_none());
    assert!(!config.contains_key("host_name"));
    assert!(config.get("host_name").is_none());
    assert_eq!(config.get("retries").unwrap().number, Some(3));
    assert_eq!(config.records("services").unwrap().len(), 0);
    let hosts = config.records("hosts").unwrap();
    assert_eq!(hosts.len(), 3);
    assert_eq!(text(&hosts[0].host_name), "home");
    assert_eq!(text(hosts[0].get(Key::Passkey)), "secret");
    assert!(matches!(hosts[0].name, Field::Absent));
    assert!(matches!(hosts[1].host_name, Field::Other));
    assert!(matches!(hosts[1].passkey, Field::Other));
    assert!(matches!(hosts[2].host_name, Field::Absent));
}

#[test]
fn tags_are_looked_through() {
    let config = init("a: !x text\nb: !y [!z {name: !w n}]\nc: !n 4", &vec!["a"]).unwrap();
    assert_eq!(config.text("a").unwrap(), "text");
    assert_eq!(text(&config.records("b").unwrap()[0].name), "n");
}

#[test]
fn first_missing_key_is_named() {
    match init("cert: a\nhosts: []", &server_keys()) {
        Err(InitError::MissingKey(e)) => {
            assert_eq!(e.message, "The config file must contain key 'key'.");
            assert_eq!(e.to_string(), "The config file must contain key 'key'.");
        }
        _ => panic!("two keys are missing"),
    }
}

#[test]
fn file_must_be_a_mapping_with_string_keys() {
    assert!(matches!(init("[1, 2]", &vec![]), Err(InitError::Yaml(_))));
    assert!(matches!(init("just text", &vec![]), Err(InitError::Yaml(_))));
    assert!(matches!(init("a: [", &vec![]), Err(InitError::Yaml(_))));
    assert!(matches!(init("[a]: 1", &vec![]), Err(InitError::Yaml(_))));
}

#[test]
fn later_entry_replaces_earlier() {
    let mut config = Config::new();
    for number in [1, 2] {
        config.insert(
            "n".to_string(),
            Setting { text: None, number: Some(number), records: None },
        );
    }
    assert_eq!(config.get("n").unwrap().number, Some(2));
    let read = init("n: 1\nn: 2", &vec!["n"]).unwrap();
    assert_eq!(read.get("n").unwrap().number, Some(2));
}

#[test]
fn keys_are_checked_on_plain_entries() {
    let mut config = Config::new();
    assert!(check_keys(&config, &vec![]).is_ok());
    let error = check_keys(&config, &vec!["b", "a"]).unwrap_err();
    assert_eq!(error.message, "The config file must contain key 'b'.");
    config.insert("b".to_string(), Setting { text: None, number: None, records: None });
    let error = check_keys(&config, &vec!["b", "a"]).unwrap_err();
    assert_eq!(error.message, "The config file must contain key 'a'.");
}

#[test]
fn number_of_connections() {
    assert_eq!(init("max_connection: 4", &vec![]).unwrap().max_connection(), 4);
    assert_eq!(init("max_connection: 0", &vec![]).unwrap().max_connection(), 0);
    assert_eq!(init("max_connection: many", &vec![]).unwrap().max_connection(), 1);
    assert_eq!(init("max_connection: -4", &vec![]).unwrap().max_connection(), 1);
}

#[test]
fn field_names() {
    let names: Vec<&str> = [Key::Name, Key::Bind, Key::Remote, Key::HostName, Key::Passkey]
        .into_iter()
        .map(|key| key.text())
        .collect();
    assert_eq!(names, vec!["name", "bind", "remote", "host_name", "passkey"]);
}

#[test]
fn record_is_read_from_a_value() {
    let value: serde_yml::Value =
        serde_yml::from_str("{name: n, bind: 1, remote: r, 5: x}").unwrap();
    let record = Record::from_value(&value);
    assert_eq!(text(&record.name), "n");
    assert!(matches!(record.bind, Field::Other));
    assert_eq!(text(&record.remote), "r");
    assert!(matches!(record.host_name, Field::Absent));
}

#[test]
fn configuration_is_made_of_entries() {
    let pairs = vec![
        ("a".to_string(), serde_yml::Value::from("old")),
        ("n".to_string(), serde_yml::Value::from(7u64)),
        ("a".to_string(), serde_yml::Value::from("new")),
    ];
    let config = from_document(&pairs, &vec!["n", "a"]).unwrap();
    assert_eq!(config.text("a").unwrap(), "new");
    assert_eq!(config.get("n").unwrap().number, Some(7));
    assert!(!config.contains_key("b"));
    let error = from_document(&pairs, &vec!["a", "b", "c"]).unwrap_err();
    assert_eq!(error.message, "The config file must contain key 'b'.");
    assert!(from_document(&vec![], &vec![]).is_ok());
}

#[test]
fn long_runs_of_blanks_and_breaks_are_read() {
    let blanks = " ".repeat(20);
    let config = init(&format!("a: x{}y", blanks), &vec!["a"]).unwrap();
    assert_eq!(config.text("a").unwrap(), &format!("x{}y", blanks));
    let config = init(&format!("a: 'x{}y'", blanks), &vec!["a"]).unwrap();
    assert_eq!(config.text("a").unwrap(), &format!("x{}y", blanks));
    let breaks = "\n".repeat(40);
    let config = init(&format!("a: |+\n  x{}b: c", breaks), &vec!["a", "b"]).unwrap();
    assert_eq!(config.text("a").unwrap(), &format!("x{}", breaks));
    let config = init("a: x\u{2028}  y\u{2029}\u{2029}  z", &vec!["a"]).unwrap();
    assert_eq!(config.text("a").unwrap(), "x\u{2028}y\u{2029}\u{2029}z");
}

#[test]
fn file_may_name_its_yaml_version() {
    let config = init("%YAML 1.2\n---\na: b\nc: d", &vec!["a", "c"]).unwrap();
    assert_eq!(config.text("a").unwrap(), "b");
    assert_eq!(config.text("c").unwrap(), "d");
}

#[test]
fn empty_file_has_no_entry() {
    assert!(text_fits(""));
    assert!(init("", &vec![]).is_ok());
    assert!(matches!(init("", &vec!["a"]), Err(InitError::MissingKey(_))));
}
