//! Services: what the proxy listens for, and who provides it.

use vstd::prelude::*;

use crate::config::{Config, Field, FieldView, Key, Record, RecordView};
use crate::error::UtilError;
use crate::stream::StreamContext;
use crate::text::same_text;
use crate::wire;

verus! {

/// What becomes of a record in a configuration file.
pub enum Admission<T> {
    /// It is used.
    Accepted(T),
    /// It is passed over, because it lacks this field.
    Ignored(Key),
    /// It cannot be used, because this field is no text.
    Malformed(Key),
}

impl<T: View> View for Admission<T> {
    type V = Admission<T::V>;

    open spec fn view(&self) -> Admission<T::V> {
        match self {
            Admission::Accepted(value) => Admission::Accepted(value@),
            Admission::Ignored(key) => Admission::Ignored(*key),
            Admission::Malformed(key) => Admission::Malformed(*key),
        }
    }
}

/// The values that are used: those that are accepted before the first malformed
/// record, in order.
pub open spec fn accepted_of<T>(admissions: Seq<Admission<T>>) -> Seq<T>
    decreases admissions.len(),
{
    if admissions.len() == 0 {
        Seq::empty()
    } else {
        match admissions.first() {
            Admission::Accepted(value) => seq![value] + accepted_of(admissions.drop_first()),
            Admission::Ignored(_) => accepted_of(admissions.drop_first()),
            Admission::Malformed(_) => Seq::empty(),
        }
    }
}

/// What the records that are passed over before the first malformed one lack.
pub open spec fn ignored_of<T>(admissions: Seq<Admission<T>>) -> Seq<Key>
    decreases admissions.len(),
{
    if admissions.len() == 0 {
        Seq::empty()
    } else {
        match admissions.first() {
            Admission::Accepted(_) => ignored_of(admissions.drop_first()),
            Admission::Ignored(key) => seq![key] + ignored_of(admissions.drop_first()),
            Admission::Malformed(_) => Seq::empty(),
        }
    }
}

/// What is no text in the first malformed record, if there is one.
pub open spec fn malformed_of<T>(admissions: Seq<Admission<T>>) -> Option<Key>
    decreases admissions.len(),
{
    if admissions.len() == 0 {
        None
    } else {
        match admissions.first() {
            Admission::Malformed(key) => Some(key),
            _ => malformed_of(admissions.drop_first()),
        }
    }
}

/// The records of a list, sorted by what becomes of them. The list is read up to
/// the first malformed record.
pub struct Sorted<T> {
    pub accepted: Vec<T>,
    pub ignored: Vec<Key>,
    pub malformed: Option<Key>,
}

/// Sorts the records of a list by what becomes of them.
pub fn sort_out<T>(admissions: Vec<Admission<T>>) -> (sorted: Sorted<T>)
    ensures
        sorted.accepted@ == accepted_of(admissions@),
        sorted.ignored@ == ignored_of(admissions@),
        sorted.malformed == malformed_of(admissions@),
        (forall|i: int| 0 <= i < admissions@.len() ==> !((#[trigger] admissions@[i]) is Malformed))
            ==> sorted.accepted@ == accepted_values(admissions@) && sorted.ignored@ == ignored_keys(
            admissions@,
        ) && sorted.malformed is None && sorted.accepted@.len() + sorted.ignored@.len()
            == admissions@.len(),
{
    proof {
        if forall|i: int| 0 <= i < admissions@.len() ==> !((#[trigger] admissions@[i]) is Malformed) {
            accepted_records_are_used(admissions@, admissions@.len());
            assert(admissions@.take(admissions@.len() as int) =~= admissions@);
        }
    }
    let ghost all = admissions@;
    let mut accepted: Vec<T> = Vec::new();
    let mut ignored: Vec<Key> = Vec::new();
    assert(all.skip(0) =~= all);
    for admission in it: admissions
        invariant
            it.seq() == all,
            accepted@ + accepted_of(all.skip(it.index() as int)) == accepted_of(all),
            ignored@ + ignored_of(all.skip(it.index() as int)) == ignored_of(all),
            malformed_of(all.skip(it.index() as int)) == malformed_of(all),
    {
        let ghost rest = all.skip(it.index() as int);
        assert(rest.first() == admission);
        assert(rest.drop_first() =~= all.skip(it.index() + 1));
        match admission {
            Admission::Accepted(value) => {
                accepted.push(value);
            },
            Admission::Ignored(key) => {
                ignored.push(key);
            },
            Admission::Malformed(key) => {
                return Sorted { accepted, ignored, malformed: Some(key) };
            },
        }
    }
    Sorted { accepted, ignored, malformed: None }
}

/// The first of `keys` that `record` lacks.
pub open spec fn first_absent(record: RecordView, keys: Seq<Key>) -> Option<Key>
    decreases keys.len(),
{
    if keys.len() == 0 {
        None
    } else if record.get(keys.first()) is Absent {
        Some(keys.first())
    } else {
        first_absent(record, keys.drop_first())
    }
}

/// The first of `keys` that `record` lacks.
pub fn missing_field(record: &Record, keys: &Vec<Key>) -> (missing: Option<Key>)
    ensures
        missing == first_absent(record@, keys@),
{
    let mut i: usize = 0;
    assert(keys@.skip(0) =~= keys@);
    while i < keys.len()
        invariant
            i <= keys@.len(),
            first_absent(record@, keys@) == first_absent(record@, keys@.skip(i as int)),
        decreases keys@.len() - i,
    {
        assert(keys@.skip(i as int).first() == keys@[i as int]);
        assert(keys@.skip(i as int).drop_first() =~= keys@.skip(i + 1));
        if let Field::Absent = record.get(keys[i]) {
            return Some(keys[i]);
        }
        i += 1;
    }
    None
}

/// No field is missing exactly if the record has each of `keys`; one that is
/// missing is the first of `keys` that the record lacks.
pub proof fn missing_field_is_first(record: RecordView, keys: Seq<Key>)
    ensures
        first_absent(record, keys) is None <==> forall|i: int|
            0 <= i < keys.len() ==> !(record.get(#[trigger] keys[i]) is Absent),
        first_absent(record, keys) matches Some(key) ==> exists|i: int|
            0 <= i < keys.len() && #[trigger] keys[i] == key && record.get(key) is Absent && forall|
                j: int,
            |
                0 <= j < i ==> !(record.get(#[trigger] keys[j]) is Absent),
    decreases keys.len(),
{
    if keys.len() > 0 {
        let rest = keys.drop_first();
        missing_field_is_first(record, rest);
        assert(keys[0] == keys.first());
        if !(record.get(keys[0]) is Absent) {
            match first_absent(record, rest) {
                Some(key) => {
                    let i = choose|i: int|
                        0 <= i < rest.len() && #[trigger] rest[i] == key && record.get(
                            key,
                        ) is Absent && forall|j: int|
                            0 <= j < i ==> !(record.get(#[trigger] rest[j]) is Absent);
                    assert(keys[i + 1] == key);
                    assert forall|j: int| 0 <= j < i + 1 implies !(record.get(
                        #[trigger] keys[j],
                    ) is Absent) by {
                        if j > 0 {
                            assert(rest[j - 1] == keys[j]);
                        }
                    }
                },
                None => {
                    assert forall|j: int| 0 <= j < keys.len() implies !(record.get(
                        #[trigger] keys[j],
                    ) is Absent) by {
                        if j > 0 {
                            assert(rest[j - 1] == keys[j]);
                        }
                    }
                },
            }
        }
    }
}

/// The fields that a server asks of a service.
pub fn server_service_fields() -> (keys: Vec<Key>)
    ensures
        keys@ == seq![Key::Name, Key::Bind, Key::Remote, Key::HostName],
{
    vec![Key::Name, Key::Bind, Key::Remote, Key::HostName]
}

/// The fields that a client asks of a service.
pub fn client_service_fields() -> (keys: Vec<Key>)
    ensures
        keys@ == seq![Key::Name, Key::Bind, Key::Remote],
{
    vec![Key::Name, Key::Bind, Key::Remote]
}

/// The text of a field, or nothing.
pub open spec fn text_of(field: FieldView) -> Seq<char> {
    match field {
        FieldView::Text(text) => text,
        _ => Seq::empty(),
    }
}

fn field_text(field: &Field) -> (text: String)
    ensures
        text@ == text_of(field@),
{
    match field {
        Field::Text(text) => text.clone(),
        _ => String::new(),
    }
}

/// A service: connections to `bind` are taken to `remote`, by way of one of
/// `providers`, the connections (of type `C`) to hosts that can reach it.
pub struct Service<C> {
    pub name: String,
    pub bind: String,
    pub host_name: String,
    pub remote: String,
    pub providers: Vec<C>,
    counter: usize,
}

/// The view of a `Service`. `counter` says whose turn it is.
#[verifier::ext_equal]
pub struct ServiceView<C> {
    pub name: Seq<char>,
    pub bind: Seq<char>,
    pub host_name: Seq<char>,
    pub remote: Seq<char>,
    pub providers: Seq<C>,
    pub counter: nat,
}

impl<C> View for Service<C> {
    type V = ServiceView<C>;

    closed spec fn view(&self) -> ServiceView<C> {
        ServiceView {
            name: self.name@,
            bind: self.bind@,
            host_name: self.host_name@,
            remote: self.remote@,
            providers: self.providers@,
            counter: self.counter as nat,
        }
    }
}

/// The service that `record` describes: without providers, and without a host
/// name if the record has none.
pub open spec fn service_of<C>(record: RecordView) -> ServiceView<C> {
    ServiceView {
        name: text_of(record.name),
        bind: text_of(record.bind),
        host_name: text_of(record.host_name),
        remote: text_of(record.remote),
        providers: Seq::empty(),
        counter: 0,
    }
}

/// What becomes of `record` where a service must have `keys`.
pub open spec fn service_admission<C>(record: RecordView, keys: Seq<Key>) -> Admission<
    ServiceView<C>,
> {
    match first_absent(record, keys) {
        Some(key) => Admission::Ignored(key),
        None => if !(record.name is Text) {
            Admission::Malformed(Key::Name)
        } else if !(record.bind is Text) {
            Admission::Malformed(Key::Bind)
        } else if !(record.remote is Text) {
            Admission::Malformed(Key::Remote)
        } else {
            Admission::Accepted(service_of(record))
        },
    }
}

/// What is heard of the socket that a service listens on.
pub enum ListenerEvent {
    /// A connection was accepted.
    Accepted,
    /// Accepting failed.
    Failed,
}

/// What is to be done about it.
#[derive(PartialEq, Eq, Structural)]
pub enum ListenerAction {
    /// Drop the connection and listen on.
    Refuse,
    /// Handle the connection and listen on.
    Handle,
    /// Stop listening.
    Stop,
}

/// What a service does about the socket that it listens on, while it has that many
/// providers.
pub open spec fn listener_step(providers: nat, event: ListenerEvent) -> ListenerAction {
    match event {
        ListenerEvent::Accepted => if providers == 0 {
            ListenerAction::Refuse
        } else {
            ListenerAction::Handle
        },
        ListenerEvent::Failed => ListenerAction::Stop,
    }
}

/// A service handles every connection that it accepts while it has a provider, however
/// many it has, and refuses those that come while it has none. It listens until
/// accepting fails.
pub proof fn connections_are_handled_while_provided(providers: nat, event: ListenerEvent)
    ensures
        ({
            let action = listener_step(providers, event);
            &&& action is Handle <==> event is Accepted && providers > 0
            &&& action is Refuse <==> event is Accepted && providers == 0
            &&& action is Stop <==> event is Failed
        }),
{
}

/// What is heard of the provider that a connection was to be opened to.
pub enum OpenEvent {
    /// Nothing yet: the connection is new.
    Start,
    /// The provider opened a stream.
    Opened,
    /// The provider at this index did not.
    Failed(usize),
}

/// What is to be done next.
pub enum OpenAction {
    /// Open a stream to the provider at this index.
    Open(usize),
    /// Send these bytes on the stream, then relay.
    Relay(Vec<u8>),
    /// Give the connection up.
    Refuse(UtilError),
}

/// The view of an `OpenAction`; an error is shown by its message.
#[verifier::ext_equal]
pub enum OpenAsked {
    Open(nat),
    Relay(Seq<u8>),
    Refuse(Seq<char>),
}

impl View for OpenAction {
    type V = OpenAsked;

    open spec fn view(&self) -> OpenAsked {
        match self {
            OpenAction::Open(index) => OpenAsked::Open(*index as nat),
            OpenAction::Relay(bytes) => OpenAsked::Relay(bytes@),
            OpenAction::Refuse(e) => OpenAsked::Refuse(e.message@),
        }
    }
}

/// The message for a service that nobody provides.
pub open spec fn no_provider_message(name: Seq<char>) -> Seq<char> {
    "Service '"@ + name + "' has no provider. Connection refused."@
}

/// The provider whose turn it is, and the turn passed on.
pub open spec fn turn<C>(service: ServiceView<C>) -> (ServiceView<C>, OpenAsked) {
    (
        ServiceView { counter: service.counter + 1, ..service },
        OpenAsked::Open(service.counter % service.providers.len()),
    )
}

/// `service` without the provider at `index`, which loses its turn.
pub open spec fn without<C>(service: ServiceView<C>, index: nat) -> ServiceView<C> {
    ServiceView {
        providers: service.providers.remove(index as int),
        counter: (service.counter - 1) as nat,
        ..service
    }
}

/// How a connection finds a provider: it takes the one whose turn it is. One that
/// fails is dropped and the next is tried, until none is left.
pub open spec fn open_step<C>(service: ServiceView<C>, event: OpenEvent) -> (
    ServiceView<C>,
    OpenAsked,
) {
    match event {
        OpenEvent::Start => turn(service),
        OpenEvent::Opened => (service, OpenAsked::Relay(wire::str_bytes(service.remote))),
        OpenEvent::Failed(index) => {
            let rest = without(service, index as nat);
            if rest.providers.len() == 0 {
                (rest, OpenAsked::Refuse(no_provider_message(service.name)))
            } else {
                turn(rest)
            }
        },
    }
}

/// `service` once the host that calls itself `host_name` has offered `provider`.
pub open spec fn registered_by<C>(
    service: ServiceView<C>,
    host_name: Seq<char>,
    provider: C,
) -> ServiceView<C> {
    if host_name == service.host_name {
        ServiceView { providers: service.providers.push(provider), ..service }
    } else {
        service
    }
}

/// What a service's own host offers becomes its last provider, and the others stay in
/// their places; what another host offers does not. Nothing else changes.
pub proof fn own_host_provides<C>(service: ServiceView<C>, host_name: Seq<char>, provider: C)
    ensures
        ({
            let next = registered_by(service, host_name, provider);
            let added = next.providers.len() - service.providers.len();
            &&& added == if host_name == service.host_name {
                1int
            } else {
                0int
            }
            &&& service.providers.is_prefix_of(next.providers)
            &&& host_name == service.host_name ==> next.providers.last() == provider
            &&& next.name == service.name && next.bind == service.bind
            &&& next.host_name == service.host_name && next.remote == service.remote
            &&& next.counter == service.counter
        }),
{
}

impl<C> Service<C> {
    /// The service that `record` describes.
    pub fn new(record: &Record) -> (service: Service<C>)
        requires
            record@.name is Text,
            record@.bind is Text,
            record@.remote is Text,
        ensures
            service@ == service_of::<C>(record@),
    {
        Service {
            name: field_text(&record.name),
            bind: field_text(&record.bind),
            host_name: field_text(&record.host_name),
            remote: field_text(&record.remote),
            providers: Vec::new(),
            counter: 0,
        }
    }

    /// The service that `record` describes, if it has the fields `keys` and those
    /// that a service is made of are texts.
    pub fn from_record(record: &Record, keys: &Vec<Key>) -> (admission: Admission<Service<C>>)
        ensures
            admission@ == service_admission::<C>(record@, keys@),
    {
        if let Some(key) = missing_field(record, keys) {
            return Admission::Ignored(key);
        }
        match (&record.name, &record.bind, &record.remote) {
            (Field::Text(_), Field::Text(_), Field::Text(_)) => Admission::Accepted(
                Service::new(record),
            ),
            (Field::Text(_), Field::Text(_), _) => Admission::Malformed(Key::Remote),
            (Field::Text(_), _, _) => Admission::Malformed(Key::Bind),
            _ => Admission::Malformed(Key::Name),
        }
    }

    /// What becomes of each record under `services` in a configuration file; none
    /// if there is no such entry. The result is `None` if the entry is no list.
    pub fn from_config(config: &Config, keys: &Vec<Key>) -> (services: Option<
        Vec<Admission<Service<C>>>,
    >)
        ensures
            services is None <==> config@.contains_key("services"@)
                && config@["services"@].records is None,
            services matches Some(s) ==> if config@.contains_key("services"@) {
                let records = config@["services"@].records->0;
                &&& s@.len() == records.len()
                &&& forall|i: int|
                    0 <= i < records.len() ==> (#[trigger] s@[i])@ == service_admission::<C>(
                        records[i],
                        keys@,
                    )
            } else {
                s@.len() == 0
            },
    {
        let mut services: Vec<Admission<Service<C>>> = Vec::new();
        if !config.contains_key("services") {
            return Some(services);
        }
        let records: &Vec<Record> = match config.records("services") {
            Some(records) => records,
            None => return None,
        };
        let mut i: usize = 0;
        while i < records.len()
            invariant
                i <= records@.len(),
                services@.len() == i,
                forall|j: int|
                    0 <= j < i ==> (#[trigger] services@[j])@ == service_admission::<C>(
                        records@[j]@,
                        keys@,
                    ),
            decreases records@.len() - i,
        {
            services.push(Service::from_record(&records[i], keys));
            i += 1;
        }
        Some(services)
    }

    /// What to do about the socket that the service listens on: a connection is
    /// refused while there is no provider.
    pub fn run(&self, event: ListenerEvent) -> (action: ListenerAction)
        ensures
            action == match event {
                ListenerEvent::Accepted => if self@.providers.len() == 0 {
                    ListenerAction::Refuse
                } else {
                    ListenerAction::Handle
                },
                ListenerEvent::Failed => ListenerAction::Stop,
            },
            action == listener_step(self@.providers.len(), event),
    {
        match event {
            ListenerEvent::Accepted => if self.providers.len() == 0 {
                ListenerAction::Refuse
            } else {
                ListenerAction::Handle
            },
            ListenerEvent::Failed => ListenerAction::Stop,
        }
    }

    /// Adds a provider.
    pub fn add_provider(&mut self, provider: C)
        ensures
            final(self)@ == (ServiceView {
                providers: old(self)@.providers.push(provider),
                ..old(self)@
            }),
    {
        self.providers.push(provider);
    }

    /// Adds a provider that calls itself `host_name`, if the service is that
    /// host's; says whether it is.
    pub fn register(&mut self, host_name: &str, provider: C) -> (registered: bool)
        ensures
            registered == (host_name@ == old(self)@.host_name),
            final(self)@ == if registered {
                ServiceView {
                    providers: old(self)@.providers.push(provider),
                    ..old(self)@
                }
            } else {
                old(self)@
            },
            final(self)@ == registered_by(old(self)@, host_name@, provider),
    {
        if same_text(host_name, self.host_name.as_str()) {
            self.add_provider(provider);
            true
        } else {
            false
        }
    }

    /// Whether a provider can take its turn: there is one, and the turns can still
    /// be counted.
    pub fn has_turn(&self) -> (ready: bool)
        ensures
            ready == (self@.providers.len() > 0 && self@.counter < usize::MAX),
    {
        self.providers.len() > 0 && self.counter < usize::MAX
    }

    fn take_turn(&mut self) -> (action: OpenAction)
        requires
            old(self)@.providers.len() > 0,
            old(self)@.counter < usize::MAX,
        ensures
            (final(self)@, action@) == turn(old(self)@),
            action matches OpenAction::Open(index) ==> index < final(self)@.providers.len(),
    {
        let index: usize = self.counter % self.providers.len();
        self.counter += 1;
        OpenAction::Open(index)
    }

    /// Finds a provider for a new connection: `event` is what came of the last
    /// action, and the result is the next one.
    pub fn handle_connection(&mut self, event: OpenEvent) -> (action: OpenAction)
        requires
            event is Start ==> old(self)@.providers.len() > 0 && old(self)@.counter < usize::MAX,
            event matches OpenEvent::Failed(index) ==> index < old(self)@.providers.len()
                && old(self)@.counter > 0,
        ensures
            (final(self)@, action@) == open_step(old(self)@, event),
            action matches OpenAction::Open(index) ==> index < final(self)@.providers.len(),
            action is Relay <==> event is Opened,
            action matches OpenAction::Relay(bytes) ==> bytes@ == wire::chunk_bytes(
                vstd::utf8::encode_utf8(old(self)@.remote),
            ),
            action is Refuse <==> event is Failed && final(self)@.providers.len() == 0,
            action matches OpenAction::Refuse(e) ==> e.message@ == "Service '"@ + old(self)@.name
                + "' has no provider. Connection refused."@,
            event matches OpenEvent::Failed(index) ==> final(self)@.providers
                == old(self)@.providers.remove(index as int),
            !(event is Failed) ==> final(self)@.providers == old(self)@.providers,
    {
        match event {
            OpenEvent::Start => self.take_turn(),
            OpenEvent::Opened => OpenAction::Relay(StreamContext::send_str(self.remote.as_str())),
            OpenEvent::Failed(index) => {
                self.providers.remove(index);
                self.counter -= 1;
                if self.providers.len() == 0 {
                    let mut message = "Service '".to_owned();
                    message.append(self.name.as_str());
                    message.append("' has no provider. Connection refused.");
                    OpenAction::Refuse(UtilError { message })
                } else {
                    self.take_turn()
                }
            },
        }
    }
}

/// Once the provider that was asked has opened a stream, the connection is relayed,
/// for every service. The bytes to send first read as the service's remote address,
/// whatever follows them, and the service stays as it is.
pub proof fn opened_stream_is_relayed<C>(service: ServiceView<C>, rest: Seq<u8>)
    requires
        vstd::utf8::encode_utf8(service.remote).len() <= usize::MAX,
    ensures
        open_step(service, OpenEvent::Opened).0 == service,
        open_step(service, OpenEvent::Opened).1 matches OpenAsked::Relay(bytes) && wire::parse_str(
            bytes + rest,
        ) == wire::Parsed::Value(service.remote, rest),
{
    wire::str_roundtrip(service.remote, rest);
}

/// A new connection asks the provider whose turn it is, counted round the list, and
/// passes the turn on. Nothing else changes.
pub proof fn new_connection_takes_a_turn<C>(service: ServiceView<C>)
    requires
        service.providers.len() > 0,
    ensures
        ({
            let (next, asked) = open_step(service, OpenEvent::Start);
            &&& asked matches OpenAsked::Open(index) && index < service.providers.len() && (
            service.counter - index) % (service.providers.len() as int) == 0
            &&& next.counter == service.counter + 1
            &&& next.providers == service.providers
        }),
{
    let len = service.providers.len() as int;
    let counter = service.counter as int;
    vstd::arithmetic::div_mod::lemma_fundamental_div_mod(counter, len);
    vstd::arithmetic::div_mod::lemma_mod_multiples_basic(counter / len, len);
    assert(counter - counter % len == (counter / len) * len) by (nonlinear_arith)
        requires
            counter == len * (counter / len) + counter % len,
    ;
}

/// A provider that fails leaves the list, and it alone; the others keep their order.
/// The connection is refused if none is left, and then in the service's name;
/// otherwise the next provider is asked, counted round the list that is left, and the
/// failed one's turn is not counted.
pub proof fn failed_provider_leaves<C>(service: ServiceView<C>, index: usize)
    requires
        index < service.providers.len(),
        service.counter > 0,
    ensures
        ({
            let (next, asked) = open_step(service, OpenEvent::Failed(index));
            &&& next.providers.len() == service.providers.len() - 1
            &&& forall|i: int| 0 <= i < index ==> #[trigger] next.providers[i] == service.providers[i]
            &&& forall|i: int|
                index <= i < next.providers.len() ==> #[trigger] next.providers[i]
                    == service.providers[i + 1]
            &&& if next.providers.len() == 0 {
                &&& asked == OpenAsked::Refuse(
                    "Service '"@ + service.name + "' has no provider. Connection refused."@,
                )
                &&& next.counter == service.counter - 1
            } else {
                &&& asked matches OpenAsked::Open(i) && i < next.providers.len() && i == (
                service.counter - 1) % (next.providers.len() as int)
                &&& next.counter == service.counter
            }
        }),
{
}

/// A connection is refused only when the last provider has failed and none is left,
/// and what a service is called, listens on and leads to never changes.
pub proof fn refused_only_without_provider<C>(service: ServiceView<C>, event: OpenEvent)
    ensures
        ({
            let (next, asked) = open_step(service, event);
            &&& asked is Refuse ==> event is Failed && next.providers.len() == 0
            &&& asked is Relay <==> event is Opened
            &&& next.name == service.name && next.bind == service.bind
            &&& next.host_name == service.host_name && next.remote == service.remote
        }),
{
}

/// A record is accepted as a service exactly if it has each of `keys` and its name,
/// address and remote are texts. The service then has these texts, its host name if
/// that is a text, and no provider. A record that lacks a field is passed over, and
/// one whose texts are none is malformed in the first of them.
pub proof fn service_has_its_record<C>(record: RecordView, keys: Seq<Key>)
    ensures
        ({
            let admission = service_admission::<C>(record, keys);
            let complete = forall|i: int|
                0 <= i < keys.len() ==> !(record.get(#[trigger] keys[i]) is Absent);
            &&& admission is Ignored <==> !complete
            &&& admission matches Admission::Ignored(key) ==> keys.contains(key) && record.get(
                key,
            ) is Absent
            &&& admission is Accepted <==> complete && record.name is Text && record.bind is Text
                && record.remote is Text
            &&& admission matches Admission::Accepted(service) ==> {
                &&& record.name == FieldView::Text(service.name)
                &&& record.bind == FieldView::Text(service.bind)
                &&& record.remote == FieldView::Text(service.remote)
                &&& record.host_name matches FieldView::Text(t) ==> service.host_name == t
                &&& !(record.host_name is Text) ==> service.host_name.len() == 0
                &&& service.providers.len() == 0 && service.counter == 0
            }
            &&& admission == Admission::<ServiceView<C>>::Malformed(Key::Name) <==> complete
                && !(record.name is Text)
            &&& admission == Admission::<ServiceView<C>>::Malformed(Key::Bind) <==> complete
                && record.name is Text && !(record.bind is Text)
            &&& admission == Admission::<ServiceView<C>>::Malformed(Key::Remote) <==> complete
                && record.name is Text && record.bind is Text && !(record.remote is Text)
        }),
{
    missing_field_is_first(record, keys);
}

/// The values of the accepted records among `admissions`, in order.
pub open spec fn accepted_values<T>(admissions: Seq<Admission<T>>) -> Seq<T> {
    admissions.filter(|a: Admission<T>| a is Accepted).map_values(
        |a: Admission<T>| a->Accepted_0,
    )
}

/// What the ignored records among `admissions` lack, in order.
pub open spec fn ignored_keys<T>(admissions: Seq<Admission<T>>) -> Seq<Key> {
    admissions.filter(|a: Admission<T>| a is Ignored).map_values(|a: Admission<T>| a->Ignored_0)
}

proof fn lemma_filter_first<T>(items: Seq<T>, keep: spec_fn(T) -> bool)
    requires
        items.len() > 0,
    ensures
        items.filter(keep) == if keep(items.first()) {
            seq![items.first()] + items.drop_first().filter(keep)
        } else {
            items.drop_first().filter(keep)
        },
{
    let one = seq![items.first()];
    assert(items =~= one + items.drop_first());
    Seq::filter_distributes_over_add(one, items.drop_first(), keep);
    assert(one.drop_last() =~= Seq::empty());
    reveal_with_fuel(Seq::filter, 2);
    assert(one.filter(keep) =~= if keep(items.first()) {
        one
    } else {
        Seq::empty()
    });
    assert(Seq::empty() + items.drop_first().filter(keep) =~= items.drop_first().filter(keep));
}

/// Every accepted record in front of the first malformed one is used: the used values
/// are, in order, exactly the values of these records, as many as there are. So it is
/// with the records that are passed over. Where no record is malformed this is the
/// whole list.
pub proof fn accepted_records_are_used<T>(admissions: Seq<Admission<T>>, first: nat)
    requires
        first <= admissions.len(),
        first < admissions.len() ==> admissions[first as int] is Malformed,
        forall|i: int| 0 <= i < first ==> !((#[trigger] admissions[i]) is Malformed),
    ensures
        accepted_of(admissions) == accepted_values(admissions.take(first as int)),
        ignored_of(admissions) == ignored_keys(admissions.take(first as int)),
        accepted_of(admissions).len() + ignored_of(admissions).len() == first,
        first < admissions.len() ==> malformed_of(admissions) == Some(
            admissions[first as int]->Malformed_0,
        ),
        first == admissions.len() ==> malformed_of(admissions) is None,
    decreases admissions.len(),
{
    let front = admissions.take(first as int);
    if first == 0 {
        reveal(Seq::filter);
        assert(accepted_values(front) =~= Seq::empty());
        assert(ignored_keys(front) =~= Seq::empty());
    } else {
        let rest = admissions.drop_first();
        let next = (first - 1) as nat;
        assert(admissions[0] == admissions.first());
        assert forall|i: int| 0 <= i < next implies !((#[trigger] rest[i]) is Malformed) by {
            assert(rest[i] == admissions[i + 1]);
        }
        accepted_records_are_used(rest, next);
        assert(front.drop_first() =~= rest.take(next as int));
        assert(front.first() == admissions.first());
        lemma_filter_first(front, |a: Admission<T>| a is Accepted);
        lemma_filter_first(front, |a: Admission<T>| a is Ignored);
        match admissions.first() {
            Admission::Accepted(value) => {
                assert(accepted_values(front) =~= seq![value] + accepted_values(
                    front.drop_first(),
                ));
                assert(ignored_keys(front) =~= ignored_keys(front.drop_first()));
            },
            Admission::Ignored(key) => {
                assert(ignored_keys(front) =~= seq![key] + ignored_keys(front.drop_first()));
                assert(accepted_values(front) =~= accepted_values(front.drop_first()));
            },
            Admission::Malformed(_) => {},
        }
    }
}

} // verus!
