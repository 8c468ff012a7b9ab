//! Configuration files.
//!
//! A configuration file is a YAML mapping. The proxy reads an entry of it as a
//! text, as a number or as a list of records, and a field of a record as a text.

use vstd::prelude::*;

use crate::error::UtilError;
use crate::text::same_text;
use crate::yaml;
use crate::yaml::Reading;

verus! {

/// The fields of a record that the proxy reads.
#[derive(Debug, Clone, Copy, PartialEq, Eq, Structural)]
pub enum Key {
    Name,
    Bind,
    Remote,
    HostName,
    Passkey,
}

impl Key {
    /// The field's name in the file.
    pub open spec fn name(self) -> Seq<char> {
        match self {
            Key::Name => "name"@,
            Key::Bind => "bind"@,
            Key::Remote => "remote"@,
            Key::HostName => "host_name"@,
            Key::Passkey => "passkey"@,
        }
    }

    /// The field's name in the file.
    pub fn text(self) -> (text: &'static str)
        ensures
            text@ == self.name(),
    {
        match self {
            Key::Name => "name",
            Key::Bind => "bind",
            Key::Remote => "remote",
            Key::HostName => "host_name",
            Key::Passkey => "passkey",
        }
    }
}

/// What a record holds under a key.
#[derive(Debug)]
pub enum Field {
    /// Nothing, not even an empty value.
    Absent,
    /// Something that is no text.
    Other,
    Text(String),
}

/// The view of a `Field`.
#[verifier::ext_equal]
pub enum FieldView {
    Absent,
    Other,
    Text(Seq<char>),
}

impl View for Field {
    type V = FieldView;

    open spec fn view(&self) -> FieldView {
        match self {
            Field::Absent => FieldView::Absent,
            Field::Other => FieldView::Other,
            Field::Text(text) => FieldView::Text(text@),
        }
    }
}

/// One element of a list in the file. An element that is no mapping is a record
/// without any field.
#[derive(Debug)]
pub struct Record {
    pub name: Field,
    pub bind: Field,
    pub remote: Field,
    pub host_name: Field,
    pub passkey: Field,
}

/// The view of a `Record`: what it holds under each key.
#[verifier::ext_equal]
pub struct RecordView {
    pub name: FieldView,
    pub bind: FieldView,
    pub remote: FieldView,
    pub host_name: FieldView,
    pub passkey: FieldView,
}

impl RecordView {
    pub open spec fn get(self, key: Key) -> FieldView {
        match key {
            Key::Name => self.name,
            Key::Bind => self.bind,
            Key::Remote => self.remote,
            Key::HostName => self.host_name,
            Key::Passkey => self.passkey,
        }
    }
}

impl View for Record {
    type V = RecordView;

    open spec fn view(&self) -> RecordView {
        RecordView {
            name: self.name@,
            bind: self.bind@,
            remote: self.remote@,
            host_name: self.host_name@,
            passkey: self.passkey@,
        }
    }
}

/// What the YAML value `value` holds under `key`, as a field of a record.
pub open spec fn field_of(value: serde_yml::Value, key: Key) -> FieldView {
    match yaml::yaml_mapping(value) {
        Some(m) if yaml::yaml_fields(m).contains_key(key.name()) => match yaml::yaml_text(
            yaml::yaml_fields(m)[key.name()],
        ) {
            Some(text) => FieldView::Text(text),
            None => FieldView::Other,
        },
        _ => FieldView::Absent,
    }
}

/// The YAML value `value`, as a record.
pub open spec fn record_of(value: serde_yml::Value) -> RecordView {
    RecordView {
        name: field_of(value, Key::Name),
        bind: field_of(value, Key::Bind),
        remote: field_of(value, Key::Remote),
        host_name: field_of(value, Key::HostName),
        passkey: field_of(value, Key::Passkey),
    }
}

impl Record {
    /// What the record holds under `key`.
    pub fn get(&self, key: Key) -> (field: &Field)
        ensures
            field@ == self@.get(key),
    {
        match key {
            Key::Name => &self.name,
            Key::Bind => &self.bind,
            Key::Remote => &self.remote,
            Key::HostName => &self.host_name,
            Key::Passkey => &self.passkey,
        }
    }

    /// Reads a YAML value as a record.
    pub fn from_value(value: &serde_yml::Value) -> (record: Record)
        ensures
            record@ == record_of(*value),
    {
        Record {
            name: read_field(value, Key::Name),
            bind: read_field(value, Key::Bind),
            remote: read_field(value, Key::Remote),
            host_name: read_field(value, Key::HostName),
            passkey: read_field(value, Key::Passkey),
        }
    }
}

fn read_field(value: &serde_yml::Value, key: Key) -> (field: Field)
    ensures
        field@ == field_of(*value, key),
{
    match yaml::as_mapping(value) {
        Some(mapping) => {
            if yaml::contains_key(mapping, key.text()) {
                match yaml::as_str(yaml::index(value, key.text())) {
                    Some(text) => Field::Text(text.to_owned()),
                    None => Field::Other,
                }
            } else {
                Field::Absent
            }
        },
        None => Field::Absent,
    }
}

/// An entry of the file, read in each of the ways that the proxy has.
#[derive(Debug)]
pub struct Setting {
    pub text: Option<String>,
    pub number: Option<u64>,
    pub records: Option<Vec<Record>>,
}

/// The view of a `Setting`.
#[verifier::ext_equal]
pub struct SettingView {
    pub text: Option<Seq<char>>,
    pub number: Option<u64>,
    pub records: Option<Seq<RecordView>>,
}

/// The views of `records`.
pub open spec fn record_views(records: Seq<Record>) -> Seq<RecordView> {
    records.map_values(|record: Record| record@)
}

impl View for Setting {
    type V = SettingView;

    open spec fn view(&self) -> SettingView {
        SettingView {
            text: match self.text {
                Some(text) => Some(text@),
                None => None,
            },
            number: self.number,
            records: match self.records {
                Some(records) => Some(record_views(records@)),
                None => None,
            },
        }
    }
}

/// The YAML value `value`, as an entry of a file.
pub open spec fn setting_of(value: serde_yml::Value) -> SettingView {
    SettingView {
        text: yaml::yaml_text(value),
        number: yaml::yaml_number(value),
        records: match yaml::yaml_elements(value) {
            Some(elements) => Some(
                elements.map_values(|element: serde_yml::Value| record_of(element)),
            ),
            None => None,
        },
    }
}

impl Setting {
    /// Reads a YAML value as an entry of a file.
    pub fn from_value(value: &serde_yml::Value) -> (setting: Setting)
        ensures
            setting@ == setting_of(*value),
            setting.text is Some <==> yaml::yaml_text(*value) is Some,
            setting.text matches Some(text) ==> yaml::yaml_text(*value) == Some(text@),
            setting.number == yaml::yaml_number(*value),
            setting.records is Some <==> yaml::yaml_elements(*value) is Some,
            setting.records matches Some(records) ==> {
                let elements = yaml::yaml_elements(*value)->0;
                &&& records@.len() == elements.len()
                &&& forall|i: int|
                    0 <= i < elements.len() ==> (#[trigger] records@[i])@ == record_of(elements[i])
            },
    {
        let text = match yaml::as_str(value) {
            Some(text) => Some(text.to_owned()),
            None => None,
        };
        let number = yaml::as_u64(value);
        let records = match yaml::as_sequence(value) {
            Some(elements) => {
                let mut records: Vec<Record> = Vec::new();
                let mut i: usize = 0;
                while i < elements.len()
                    invariant
                        i <= elements@.len(),
                        records@.len() == i,
                        forall|j: int| 0 <= j < i ==> (#[trigger] records@[j])@ == record_of(elements@[j]),
                    decreases elements@.len() - i,
                {
                    records.push(Record::from_value(&elements[i]));
                    i += 1;
                }
                assert(record_views(records@) =~= elements@.map_values(
                    |element: serde_yml::Value| record_of(element),
                ));
                Some(records)
            },
            None => None,
        };
        Setting { text, number, records }
    }
}

/// The entries of a configuration file.
#[derive(Debug)]
pub struct Config {
    entries: Vec<(String, Setting)>,
}

/// The mapping that results when `entries` are put into it in order.
spec fn settings(entries: Seq<(String, Setting)>) -> Map<Seq<char>, SettingView>
    decreases entries.len(),
{
    if entries.len() == 0 {
        Map::empty()
    } else {
        settings(entries.drop_last()).insert(entries.last().0@, entries.last().1@)
    }
}

impl View for Config {
    type V = Map<Seq<char>, SettingView>;

    closed spec fn view(&self) -> Map<Seq<char>, SettingView> {
        settings(self.entries@)
    }
}

/// A document of `serde_yml`, as a configuration.
pub open spec fn config_of(document: Map<Seq<char>, serde_yml::Value>) -> Map<
    Seq<char>,
    SettingView,
> {
    document.map_values(|value: serde_yml::Value| setting_of(value))
}

impl Config {
    /// A configuration without entries.
    pub fn new() -> (config: Config)
        ensures
            config@ == Map::<Seq<char>, SettingView>::empty(),
    {
        Config { entries: Vec::new() }
    }

    /// Puts `setting` under `key`, in place of what was there.
    pub fn insert(&mut self, key: String, setting: Setting)
        ensures
            final(self)@ == old(self)@.insert(key@, setting@),
    {
        let ghost before = self.entries@;
        self.entries.push((key, setting));
        assert(self.entries@.drop_last() =~= before);
    }

    /// What stands under `key`.
    pub fn get(&self, key: &str) -> (setting: Option<&Setting>)
        ensures
            match setting {
                Some(s) => self@.contains_key(key@) && s@ == self@[key@],
                None => !self@.contains_key(key@),
            },
    {
        let mut i: usize = self.entries.len();
        assert(self.entries@.take(i as int) =~= self.entries@);
        while i > 0
            invariant
                i <= self.entries@.len(),
                self@.contains_key(key@) == settings(self.entries@.take(i as int)).contains_key(
                    key@,
                ),
                self@.contains_key(key@) ==> self@[key@] == settings(
                    self.entries@.take(i as int),
                )[key@],
            decreases i,
        {
            i -= 1;
            assert(self.entries@.take(i + 1).drop_last() =~= self.entries@.take(i as int));
            if same_text(self.entries[i].0.as_str(), key) {
                return Some(&self.entries[i].1);
            }
        }
        None
    }

    /// Whether something stands under `key`.
    pub fn contains_key(&self, key: &str) -> (found: bool)
        ensures
            found == self@.contains_key(key@),
    {
        self.get(key).is_some()
    }

    /// The text under `key`: `None` if nothing or no text stands there.
    pub fn text(&self, key: &str) -> (text: Option<&String>)
        ensures
            text is Some <==> self@.contains_key(key@) && self@[key@].text is Some,
            text matches Some(t) ==> self@[key@].text == Some(t@),
    {
        match self.get(key) {
            Some(setting) => setting.text.as_ref(),
            None => None,
        }
    }

    /// The records under `key`: `None` if nothing or no list stands there.
    pub fn records(&self, key: &str) -> (records: Option<&Vec<Record>>)
        ensures
            records is Some <==> self@.contains_key(key@) && self@[key@].records is Some,
            records matches Some(r) ==> self@[key@].records == Some(record_views(r@)),
    {
        match self.get(key) {
            Some(setting) => setting.records.as_ref(),
            None => None,
        }
    }

    /// How many connections a client keeps: the number under `max_connection`,
    /// or one if what stands there is no number.
    pub fn max_connection(&self) -> (count: u64)
        requires
            self@.contains_key("max_connection"@),
        ensures
            count == match self@["max_connection"@].number {
                Some(number) => number,
                None => 1,
            },
    {
        match self.get("max_connection") {
            Some(setting) => match setting.number {
                Some(number) => number,
                None => 1,
            },
            None => 1,
        }
    }
}

/// Why a configuration file is refused.
#[derive(Debug)]
pub enum InitError {
    /// It is not read as a YAML mapping with string keys.
    Yaml(serde_yml::Error),
    /// It lacks a key that is needed.
    MissingKey(UtilError),
}

/// The first of `keys` under which `config` has nothing.
pub open spec fn first_missing(
    config: Map<Seq<char>, SettingView>,
    keys: Seq<Seq<char>>,
) -> Option<Seq<char>>
    decreases keys.len(),
{
    if keys.len() == 0 {
        None
    } else if !config.contains_key(keys.first()) {
        Some(keys.first())
    } else {
        first_missing(config, keys.drop_first())
    }
}

/// No key is missing exactly if the configuration has each of `keys`; one that is
/// missing is the first of `keys` that the configuration lacks.
pub proof fn missing_key_is_first(config: Map<Seq<char>, SettingView>, keys: Seq<Seq<char>>)
    ensures
        first_missing(config, keys) is None <==> forall|i: int|
            0 <= i < keys.len() ==> config.contains_key(#[trigger] keys[i]),
        first_missing(config, keys) matches Some(key) ==> exists|i: int|
            0 <= i < keys.len() && #[trigger] keys[i] == key && !config.contains_key(key) && forall|
                j: int,
            |
                0 <= j < i ==> config.contains_key(#[trigger] keys[j]),
    decreases keys.len(),
{
    if keys.len() > 0 {
        let rest = keys.drop_first();
        missing_key_is_first(config, rest);
        assert(keys[0] == keys.first());
        if config.contains_key(keys[0]) {
            match first_missing(config, rest) {
                Some(key) => {
                    let i = choose|i: int|
                        0 <= i < rest.len() && #[trigger] rest[i] == key && !config.contains_key(
                            key,
                        ) && forall|j: int|
                            0 <= j < i ==> config.contains_key(#[trigger] rest[j]);
                    assert(keys[i + 1] == key);
                    assert forall|j: int| 0 <= j < i + 1 implies config.contains_key(
                        #[trigger] keys[j],
                    ) by {
                        if j > 0 {
                            assert(rest[j - 1] == keys[j]);
                        }
                    }
                },
                None => {
                    assert forall|j: int| 0 <= j < keys.len() implies config.contains_key(
                        #[trigger] keys[j],
                    ) by {
                        if j > 0 {
                            assert(rest[j - 1] == keys[j]);
                        }
                    }
                },
            }
        }
    }
}

/// The message for a file that lacks `key`.
pub open spec fn missing_key_message(key: Seq<char>) -> Seq<char> {
    "The config file must contain key '"@ + key + "'."@
}

/// The strings of `keys`.
pub open spec fn texts(keys: Seq<&str>) -> Seq<Seq<char>> {
    keys.map_values(|key: &str| key@)
}

/// Checks that `config` has each of `key_check`; the error names the first that
/// it lacks.
pub fn check_keys(config: &Config, key_check: &Vec<&str>) -> (result: Result<(), UtilError>)
    ensures
        match first_missing(config@, texts(key_check@)) {
            Some(key) => result matches Err(e) && e.message@ == missing_key_message(key),
            None => result is Ok,
        },
        result is Ok <==> forall|i: int|
            0 <= i < key_check@.len() ==> config@.contains_key((#[trigger] key_check@[i])@),
        result matches Err(e) ==> exists|i: int|
            {
                &&& 0 <= i < key_check@.len()
                &&& !config@.contains_key((#[trigger] key_check@[i])@)
                &&& forall|j: int|
                    0 <= j < i ==> config@.contains_key((#[trigger] key_check@[j])@)
                &&& e.message@ == "The config file must contain key '"@ + key_check@[i]@ + "'."@
            },
{
    let ghost keys = texts(key_check@);
    let mut i: usize = 0;
    assert(keys.skip(0) =~= keys);
    while i < key_check.len()
        invariant
            i <= key_check@.len(),
            keys == texts(key_check@),
            first_missing(config@, keys) == first_missing(config@, keys.skip(i as int)),
            forall|j: int| 0 <= j < i ==> config@.contains_key((#[trigger] key_check@[j])@),
        decreases key_check@.len() - i,
    {
        let key: &str = key_check[i];
        assert(keys.skip(i as int).first() == key@);
        assert(keys.skip(i as int).drop_first() =~= keys.skip(i + 1));
        if !config.contains_key(key) {
            let mut message = "The config file must contain key '".to_owned();
            message.append(key);
            message.append("'.");
            assert(key_check@[i as int]@ == key@);
            return Err(UtilError { message });
        }
        i += 1;
    }
    Ok(())
}

/// Makes a configuration of the entries of a document, which must have each of
/// `key_check`; the error names the first that it lacks.
pub fn from_document(
    pairs: &Vec<(String, serde_yml::Value)>,
    key_check: &Vec<&str>,
) -> (result: Result<Config, UtilError>)
    ensures
        match first_missing(config_of(yaml::entries(pairs@)), texts(key_check@)) {
            Some(key) => result matches Err(e) && e.message@ == missing_key_message(key),
            None => result matches Ok(config) && config@ == config_of(yaml::entries(pairs@)),
        },
        result is Ok <==> forall|i: int|
            0 <= i < key_check@.len() ==> yaml::entries(pairs@).contains_key(
                (#[trigger] key_check@[i])@,
            ),
        result matches Ok(config) ==> forall|key: Seq<char>|
            {
                &&& config@.contains_key(key) <==> yaml::entries(pairs@).contains_key(key)
                &&& #[trigger] config@.contains_key(key) ==> config@[key].text == yaml::yaml_text(
                    yaml::entries(pairs@)[key],
                ) && config@[key].number == yaml::yaml_number(yaml::entries(pairs@)[key])
            },
{
    let mut config = Config::new();
    let mut i: usize = 0;
    assert(config@ =~= config_of(yaml::entries(pairs@.take(0))));
    while i < pairs.len()
        invariant
            i <= pairs@.len(),
            config@ == config_of(yaml::entries(pairs@.take(i as int))),
        decreases pairs@.len() - i,
    {
        config.insert(pairs[i].0.clone(), Setting::from_value(&pairs[i].1));
        assert(pairs@.take(i + 1).drop_last() =~= pairs@.take(i as int));
        assert(config@ =~= config_of(yaml::entries(pairs@.take(i + 1))));
        i += 1;
    }
    assert(pairs@.take(i as int) =~= pairs@);
    match check_keys(&config, key_check) {
        Ok(()) => Ok(config),
        Err(e) => Err(e),
    }
}

/// Whether a text is short enough to be read.
pub fn text_fits(text: &str) -> (fits: bool)
    ensures
        fits == (text@.len() <= yaml::TEXT_LIMIT),
{
    text.unicode_len() <= yaml::TEXT_LIMIT
}

/// What `init` makes of the entries of a document.
pub open spec fn initialized(
    result: Result<Config, InitError>,
    document: Map<Seq<char>, serde_yml::Value>,
    keys: Seq<Seq<char>>,
) -> bool {
    match first_missing(config_of(document), keys) {
        Some(key) => result matches Err(InitError::MissingKey(e)) && e.message@
            == missing_key_message(key),
        None => result matches Ok(config) && config@ == config_of(document),
    }
}

/// Reads the text of a configuration file, which must have each of `key_check`.
pub fn init(text: &str, key_check: &Vec<&str>) -> (result: Result<Config, InitError>)
    requires
        text@.len() <= yaml::TEXT_LIMIT,
    ensures
        match yaml::yaml_document(text@) {
            Reading::Refused => result matches Err(InitError::Yaml(_)),
            Reading::Doubtful(document) => (result matches Err(InitError::Yaml(_))) || initialized(
                result,
                document,
                texts(key_check@),
            ),
            Reading::Accepted(document) => initialized(result, document, texts(key_check@)),
        },
        yaml::yaml_document(text@) matches Reading::Accepted(document) ==> (result is Ok
            <==> forall|i: int|
            0 <= i < key_check@.len() ==> document.contains_key((#[trigger] key_check@[i])@)),
        result matches Ok(config) ==> {
            let document = match yaml::yaml_document(text@) {
                Reading::Refused => Map::empty(),
                Reading::Doubtful(document) => document,
                Reading::Accepted(document) => document,
            };
            &&& !(yaml::yaml_document(text@) is Refused)
            &&& forall|i: int|
                0 <= i < key_check@.len() ==> document.contains_key((#[trigger] key_check@[i])@)
            &&& forall|key: Seq<char>|
                {
                    &&& config@.contains_key(key) <==> document.contains_key(key)
                    &&& #[trigger] config@.contains_key(key) ==> config@[key].text
                        == yaml::yaml_text(document[key]) && config@[key].number
                        == yaml::yaml_number(document[key])
                }
        },
{
    let pairs = match yaml::from_str(text) {
        Ok(pairs) => pairs,
        Err(e) => return Err(InitError::Yaml(e)),
    };
    match from_document(&pairs, key_check) {
        Ok(config) => Ok(config),
        Err(e) => Err(InitError::MissingKey(e)),
    }
}

/// The keys that a server's file must have.
pub fn server_keys() -> (keys: Vec<&'static str>)
    ensures
        texts(keys@) == seq!["cert"@, "key"@, "bind"@, "hosts"@],
{
    let keys = vec!["cert", "key", "bind", "hosts"];
    assert(texts(keys@) =~= seq!["cert"@, "key"@, "bind"@, "hosts"@]);
    keys
}

/// The keys that a client's file must have.
pub fn client_keys() -> (keys: Vec<&'static str>)
    ensures
        texts(keys@) == seq!["server"@, "server_cert"@, "passkey"@, "host_name"@],
{
    let keys = vec!["server", "server_cert", "passkey", "host_name"];
    assert(texts(keys@) =~= seq!["server"@, "server_cert"@, "passkey"@, "host_name"@]);
    keys
}

/// A record holds under each key what the YAML value holds there: nothing if the value
/// is no mapping or has no such entry, the entry's text if it is one, and otherwise
/// something else.
pub proof fn record_holds_what_value_holds(value: serde_yml::Value, key: Key)
    ensures
        ({
            let field = record_of(value).get(key);
            let entry = yaml::yaml_fields(yaml::yaml_mapping(value)->0)[key.name()];
            let present = yaml::yaml_mapping(value) is Some && yaml::yaml_fields(
                yaml::yaml_mapping(value)->0,
            ).contains_key(key.name());
            &&& field is Absent <==> !present
            &&& present ==> (field is Text <==> yaml::yaml_text(entry) is Some)
            &&& field matches FieldView::Text(text) ==> yaml::yaml_text(entry) == Some(text)
        }),
{
}

/// A record's fields are told apart by their keys.
pub proof fn record_has_a_field_for_each_key(record: RecordView)
    ensures
        record.get(Key::Name) == record.name,
        record.get(Key::Bind) == record.bind,
        record.get(Key::Remote) == record.remote,
        record.get(Key::HostName) == record.host_name,
        record.get(Key::Passkey) == record.passkey,
{
}

/// A setting has the text, the number and the elements that its YAML value has, each
/// element as a record, in order.
pub proof fn setting_holds_what_value_holds(value: serde_yml::Value)
    ensures
        ({
            let setting = setting_of(value);
            &&& setting.text == yaml::yaml_text(value)
            &&& setting.number == yaml::yaml_number(value)
            &&& setting.records is Some <==> yaml::yaml_elements(value) is Some
            &&& setting.records matches Some(records) ==> {
                let elements = yaml::yaml_elements(value)->0;
                &&& records.len() == elements.len()
                &&& forall|i: int|
                    0 <= i < records.len() ==> #[trigger] records[i] == record_of(elements[i])
            }
        }),
{
}

/// A configuration has the keys of its document and no others, and under each the
/// setting that the document's value is.
pub proof fn config_holds_what_document_holds(
    document: Map<Seq<char>, serde_yml::Value>,
    key: Seq<char>,
)
    ensures
        config_of(document).contains_key(key) <==> document.contains_key(key),
        document.contains_key(key) ==> config_of(document)[key] == setting_of(document[key]),
{
}

/// An accepted document gives a configuration exactly if it has every key that is
/// needed; otherwise the error names the first that it lacks.
pub proof fn init_needs_every_key(
    result: Result<Config, InitError>,
    document: Map<Seq<char>, serde_yml::Value>,
    keys: Seq<Seq<char>>,
)
    requires
        initialized(result, document, keys),
    ensures
        result is Ok <==> forall|i: int|
            0 <= i < keys.len() ==> document.contains_key(#[trigger] keys[i]),
        result matches Ok(config) ==> config@ == config_of(document),
        result matches Err(e) ==> e matches InitError::MissingKey(missing) && exists|i: int|
            {
                &&& 0 <= i < keys.len()
                &&& !document.contains_key(#[trigger] keys[i])
                &&& forall|j: int| 0 <= j < i ==> document.contains_key(#[trigger] keys[j])
                &&& missing.message@ == "The config file must contain key '"@ + keys[i] + "'."@
            },
{
    let config = config_of(document);
    missing_key_is_first(config, keys);
    if let Some(key) = first_missing(config, keys) {
        let i = choose|i: int|
            0 <= i < keys.len() && #[trigger] keys[i] == key && !config.contains_key(key) && forall|
                j: int,
            |
                0 <= j < i ==> config.contains_key(#[trigger] keys[j]);
        assert(!document.contains_key(keys[i]));
        assert forall|j: int| 0 <= j < i implies document.contains_key(#[trigger] keys[j]) by {
            assert(config.contains_key(keys[j]));
        }
    } else {
        assert forall|j: int| 0 <= j < keys.len() implies document.contains_key(
            #[trigger] keys[j],
        ) by {
            assert(config.contains_key(keys[j]));
        }
    }
}

/// The entries of a document are what its pairs say, a later pair in place of an
/// earlier one under the same key.
pub proof fn later_pair_replaces(
    pairs: Seq<(String, serde_yml::Value)>,
    pair: (String, serde_yml::Value),
    key: Seq<char>,
)
    ensures
        yaml::entries(Seq::empty()) == Map::<Seq<char>, serde_yml::Value>::empty(),
        yaml::entries(pairs.push(pair)).contains_key(key) <==> key == pair.0@ || yaml::entries(
            pairs,
        ).contains_key(key),
        yaml::entries(pairs.push(pair))[pair.0@] == pair.1,
        key != pair.0@ ==> yaml::entries(pairs.push(pair))[key] == yaml::entries(pairs)[key],
{
    assert(pairs.push(pair).drop_last() =~= pairs);
}

/// No two fields of a record have the same name in the file.
pub proof fn fields_have_their_own_names(a: Key, b: Key)
    ensures
        a.name() == b.name() <==> a == b,
{
    reveal_strlit("name");
    reveal_strlit("bind");
    reveal_strlit("remote");
    reveal_strlit("host_name");
    reveal_strlit("passkey");
    assert("name"@.len() == 4 && "bind"@.len() == 4 && "name"@[0] != "bind"@[0]);
    assert("remote"@.len() == 6 && "host_name"@.len() == 9 && "passkey"@.len() == 7);
}

} // verus!
