//! Connections between a client and a server.
//!
//! On its first stream a client greets the server with its host name and its
//! passkey. From then on either side may open streams; each is provided a TCP
//! connection. The server sends the code 0 on the first stream now and then, to
//! keep the connection alive.

use vstd::prelude::*;

use crate::arrival;
use crate::config::{Config, Field, FieldView, Key, Record, RecordView};
use crate::delivery;
use crate::delivery::Moment;
use crate::relay;
use crate::relay::{Asked, Phase, Told, CODE_CLOSE};
use crate::service;
use crate::service::{missing_field, Admission, OpenAsked, OpenEvent, ServiceView};
use crate::stream::{Step, StreamContext};
use crate::text::same_text;
use crate::wire;

verus! {

/// How long a server waits for a new stream before it sends a sign of life.
pub const KEEPALIVE_MILLIS: u64 = 5000;

/// How long a client waits before it connects again.
pub const RECONNECT_SECS: u64 = 5;

/// A host that may connect, and the passkey that it must give.
#[derive(Debug)]
pub struct Host {
    pub host_name: String,
    pub passkey: String,
}

/// The view of a `Host`.
#[verifier::ext_equal]
pub struct HostView {
    pub host_name: Seq<char>,
    pub passkey: Seq<char>,
}

impl View for Host {
    type V = HostView;

    open spec fn view(&self) -> HostView {
        HostView { host_name: self.host_name@, passkey: self.passkey@ }
    }
}

/// What becomes of `record` as the description of a host.
pub open spec fn host_admission(record: RecordView) -> Admission<HostView> {
    match service::first_absent(record, seq![Key::Passkey, Key::HostName]) {
        Some(key) => Admission::Ignored(key),
        None => match (record.host_name, record.passkey) {
            (FieldView::Text(host_name), FieldView::Text(passkey)) => Admission::Accepted(
                HostView { host_name, passkey },
            ),
            (FieldView::Text(_), _) => Admission::Malformed(Key::Passkey),
            _ => Admission::Malformed(Key::HostName),
        },
    }
}

impl Host {
    /// The host that `record` describes, if it has both fields and they are
    /// texts.
    pub fn from_record(record: &Record) -> (admission: Admission<Host>)
        ensures
            admission@ == host_admission(record@),
    {
        let keys: Vec<Key> = vec![Key::Passkey, Key::HostName];
        assert(keys@ =~= seq![Key::Passkey, Key::HostName]);
        if let Some(key) = missing_field(record, &keys) {
            return Admission::Ignored(key);
        }
        match (&record.host_name, &record.passkey) {
            (Field::Text(host_name), Field::Text(passkey)) => Admission::Accepted(
                Host { host_name: host_name.clone(), passkey: passkey.clone() },
            ),
            (Field::Text(_), _) => Admission::Malformed(Key::Passkey),
            _ => Admission::Malformed(Key::HostName),
        }
    }

    /// What becomes of each record under `hosts` in a configuration file. The
    /// result is `None` if there is no such entry, or it is no list.
    pub fn from_config(config: &Config) -> (hosts: Option<Vec<Admission<Host>>>)
        ensures
            hosts is Some <==> config@.contains_key("hosts"@) && config@["hosts"@].records is Some,
            hosts matches Some(h) ==> {
                let records = config@["hosts"@].records->0;
                &&& h@.len() == records.len()
                &&& forall|i: int|
                    0 <= i < records.len() ==> (#[trigger] h@[i])@ == host_admission(records[i])
            },
    {
        let records: &Vec<Record> = match config.records("hosts") {
            Some(records) => records,
            None => return None,
        };
        let mut hosts: Vec<Admission<Host>> = Vec::new();
        let mut i: usize = 0;
        while i < records.len()
            invariant
                i <= records@.len(),
                hosts@.len() == i,
                forall|j: int|
                    0 <= j < i ==> (#[trigger] hosts@[j])@ == host_admission(records@[j]@),
            decreases records@.len() - i,
        {
            hosts.push(Host::from_record(&records[i]));
            i += 1;
        }
        Some(hosts)
    }
}

/// The views of `hosts`.
pub open spec fn host_views(hosts: Seq<Host>) -> Seq<HostView> {
    hosts.map_values(|host: Host| host@)
}

/// Whether `hosts` let a client in: each that bears its name has its passkey. A
/// name that no host bears is let in.
pub open spec fn lets_in(hosts: Seq<HostView>, host_name: Seq<char>, passkey: Seq<char>) -> bool {
    forall|i: int|
        0 <= i < hosts.len() && (#[trigger] hosts[i]).host_name == host_name ==> hosts[i].passkey
            == passkey
}

/// Whether `hosts` let a client in.
pub fn authorize(hosts: &Vec<Host>, host_name: &str, passkey: &str) -> (authorized: bool)
    ensures
        authorized == lets_in(host_views(hosts@), host_name@, passkey@),
        authorized <==> forall|i: int|
            0 <= i < hosts@.len() && (#[trigger] hosts@[i]).host_name@ == host_name@
                ==> hosts@[i].passkey@ == passkey@,
{
    let ghost views = host_views(hosts@);
    let mut i: usize = 0;
    while i < hosts.len()
        invariant
            i <= hosts@.len(),
            views == host_views(hosts@),
            lets_in(views.take(i as int), host_name@, passkey@),
        decreases hosts@.len() - i,
    {
        assert(views[i as int] == hosts@[i as int]@);
        if same_text(host_name, hosts[i].host_name.as_str()) {
            if !same_text(passkey, hosts[i].passkey.as_str()) {
                assert(hosts@[i as int].passkey@ != passkey@);
                return false;
            }
        }
        assert forall|j: int|
            0 <= j < i + 1 && (#[trigger] views.take(i + 1)[j]).host_name
                == host_name@ implies views.take(i + 1)[j].passkey == passkey@ by {
            if j < i {
                assert(views.take(i as int)[j] == views[j]);
            }
        }
        i += 1;
    }
    assert(views.take(i as int) =~= views);
    assert forall|j: int|
        0 <= j < hosts@.len() && (#[trigger] hosts@[j]).host_name@ == host_name@ implies hosts@[j].passkey@
        == passkey@ by {
        assert(views[j] == hosts@[j]@);
    }
    true
}

/// What a server is doing for a connected client.
#[verifier::ext_equal]
pub enum ConnectPhase {
    /// It reads the client's host name.
    HostName,
    /// It reads the passkey of the client that calls itself so.
    Passkey(Seq<char>),
    /// It makes the connection a provider.
    Joining,
    /// It waits for a stream, or for the time to send a sign of life.
    Serving,
    /// It sends a sign of life.
    Sending,
    /// It has ended.
    Ended,
}

/// What a server is told of the work that it asked for.
pub enum ConnectEvent {
    /// The client sent this string; `None` at the end of its stream.
    Str(Option<String>),
    /// The connection is a provider.
    Joined,
    /// The client opened a stream.
    Accepted,
    /// No stream was opened for `KEEPALIVE_MILLIS`.
    Idle,
    /// The bytes were sent.
    Sent,
    /// What was asked for failed.
    Failed,
}

/// The view of a `ConnectEvent`.
#[verifier::ext_equal]
pub enum ConnectTold {
    Str(Option<Seq<char>>),
    Joined,
    Accepted,
    Idle,
    Sent,
    Failed,
}

impl View for ConnectEvent {
    type V = ConnectTold;

    open spec fn view(&self) -> ConnectTold {
        match self {
            ConnectEvent::Str(Some(text)) => ConnectTold::Str(Some(text@)),
            ConnectEvent::Str(None) => ConnectTold::Str(None),
            ConnectEvent::Joined => ConnectTold::Joined,
            ConnectEvent::Accepted => ConnectTold::Accepted,
            ConnectEvent::Idle => ConnectTold::Idle,
            ConnectEvent::Sent => ConnectTold::Sent,
            ConnectEvent::Failed => ConnectTold::Failed,
        }
    }
}

/// What a server asks for next.
pub enum ConnectAction {
    /// Read a string from the client's first stream.
    ReadStr,
    /// Make the connection a provider of the services of the host of this name.
    Join(String),
    /// Wait for the client to open a stream, for at most `KEEPALIVE_MILLIS`.
    Serve,
    /// Provide the stream that was opened, and send these bytes on the first.
    Provide(Vec<u8>),
    /// Send these bytes on the first stream.
    Send(Vec<u8>),
    /// The client's first stream ended too early: end the connection.
    Lost,
    /// The passkey is wrong: end the connection.
    Deny,
    /// End the connection because of the failure that it was told of.
    Fail,
}

/// The view of a `ConnectAction`.
#[verifier::ext_equal]
pub enum ConnectAsked {
    ReadStr,
    Join(Seq<char>),
    Serve,
    Provide(Seq<u8>),
    Send(Seq<u8>),
    Lost,
    Deny,
    Fail,
}

impl View for ConnectAction {
    type V = ConnectAsked;

    open spec fn view(&self) -> ConnectAsked {
        match self {
            ConnectAction::ReadStr => ConnectAsked::ReadStr,
            ConnectAction::Join(host_name) => ConnectAsked::Join(host_name@),
            ConnectAction::Serve => ConnectAsked::Serve,
            ConnectAction::Provide(bytes) => ConnectAsked::Provide(bytes@),
            ConnectAction::Send(bytes) => ConnectAsked::Send(bytes@),
            ConnectAction::Lost => ConnectAsked::Lost,
            ConnectAction::Deny => ConnectAsked::Deny,
            ConnectAction::Fail => ConnectAsked::Fail,
        }
    }
}

/// The events that can follow what a server asked for in `phase`.
pub open spec fn connect_expects(phase: ConnectPhase, told: ConnectTold) -> bool {
    match phase {
        ConnectPhase::HostName => told is Str || told is Failed,
        ConnectPhase::Passkey(_) => told is Str || told is Failed,
        ConnectPhase::Joining => told is Joined,
        ConnectPhase::Serving => told is Accepted || told is Idle || told is Failed,
        ConnectPhase::Sending => told is Sent || told is Failed,
        ConnectPhase::Ended => false,
    }
}

/// The sign of life.
pub open spec fn keepalive_bytes() -> Seq<u8> {
    wire::be_bytes(CODE_CLOSE as nat, 2)
}

proof fn lemma_keepalive_bytes()
    ensures
        keepalive_bytes() == seq![0u8, 0u8],
{
    reveal_with_fuel(wire::be_bytes, 3);
    assert(keepalive_bytes() =~= seq![0u8, 0u8]);
}

/// What a server does next: its phase, and what it asks for.
pub open spec fn connect_step(
    phase: ConnectPhase,
    told: ConnectTold,
    hosts: Seq<HostView>,
) -> (ConnectPhase, ConnectAsked) {
    match told {
        ConnectTold::Str(Some(text)) => match phase {
            ConnectPhase::Passkey(host_name) => if lets_in(hosts, host_name, text) {
                (ConnectPhase::Joining, ConnectAsked::Join(host_name))
            } else {
                (ConnectPhase::Ended, ConnectAsked::Deny)
            },
            _ => (ConnectPhase::Passkey(text), ConnectAsked::ReadStr),
        },
        ConnectTold::Str(None) => (ConnectPhase::Ended, ConnectAsked::Lost),
        ConnectTold::Joined => (ConnectPhase::Serving, ConnectAsked::Serve),
        ConnectTold::Accepted => (
            ConnectPhase::Sending,
            ConnectAsked::Provide(keepalive_bytes()),
        ),
        ConnectTold::Idle => (ConnectPhase::Sending, ConnectAsked::Send(keepalive_bytes())),
        ConnectTold::Sent => (ConnectPhase::Serving, ConnectAsked::Serve),
        ConnectTold::Failed => (ConnectPhase::Ended, ConnectAsked::Fail),
    }
}

enum ConnectState {
    HostName,
    Passkey(String),
    Joining,
    Serving,
    Sending,
    Ended,
}

/// A server's side of a connection.
pub struct ServerSession {
    state: ConnectState,
}

impl ServerSession {
    /// What the server is doing.
    pub closed spec fn phase(&self) -> ConnectPhase {
        match self.state {
            ConnectState::HostName => ConnectPhase::HostName,
            ConnectState::Passkey(host_name) => ConnectPhase::Passkey(host_name@),
            ConnectState::Joining => ConnectPhase::Joining,
            ConnectState::Serving => ConnectPhase::Serving,
            ConnectState::Sending => ConnectPhase::Sending,
            ConnectState::Ended => ConnectPhase::Ended,
        }
    }

    /// A connection whose first stream was just opened. The first action is
    /// `ConnectAction::ReadStr`.
    pub fn new() -> (session: ServerSession)
        ensures
            session.phase() == ConnectPhase::HostName,
    {
        ServerSession { state: ConnectState::HostName }
    }

    /// Goes on with the connection: `event` is what came of the last action, and
    /// the result is the next one.
    pub fn connect(&mut self, event: ConnectEvent, hosts: &Vec<Host>) -> (action: ConnectAction)
        requires
            connect_expects(old(self).phase(), event@),
        ensures
            (final(self).phase(), action@) == connect_step(
                old(self).phase(),
                event@,
                host_views(hosts@),
            ),
            action is Provide <==> event is Accepted,
            action is Send <==> event is Idle,
            action is Serve <==> event is Joined || event is Sent,
            action is Fail <==> event is Failed,
            action is Lost <==> event == ConnectEvent::Str(None),
            action matches ConnectAction::Provide(bytes) ==> bytes@ == seq![0u8, 0u8],
            action matches ConnectAction::Send(bytes) ==> bytes@ == seq![0u8, 0u8],
            action matches ConnectAction::Join(host_name) ==> old(self).phase()
                == ConnectPhase::Passkey(host_name@),
    {
        proof {
            lemma_keepalive_bytes();
        }
        match event {
            ConnectEvent::Str(Some(text)) => {
                let mut state = ConnectState::Joining;
                std::mem::swap(&mut state, &mut self.state);
                if let ConnectState::Passkey(host_name) = state {
                    if authorize(hosts, host_name.as_str(), text.as_str()) {
                        ConnectAction::Join(host_name)
                    } else {
                        self.state = ConnectState::Ended;
                        ConnectAction::Deny
                    }
                } else {
                    self.state = ConnectState::Passkey(text);
                    ConnectAction::ReadStr
                }
            },
            ConnectEvent::Str(None) => {
                self.state = ConnectState::Ended;
                ConnectAction::Lost
            },
            ConnectEvent::Joined | ConnectEvent::Sent => {
                self.state = ConnectState::Serving;
                ConnectAction::Serve
            },
            ConnectEvent::Accepted => {
                self.state = ConnectState::Sending;
                ConnectAction::Provide(StreamContext::send_u16(CODE_CLOSE))
            },
            ConnectEvent::Idle => {
                self.state = ConnectState::Sending;
                ConnectAction::Send(StreamContext::send_u16(CODE_CLOSE))
            },
            ConnectEvent::Failed => {
                self.state = ConnectState::Ended;
                ConnectAction::Fail
            },
        }
    }
}

/// What a client is doing with a connection.
#[derive(Debug, Clone, Copy, PartialEq, Eq, Structural)]
pub enum ClientPhase {
    /// It sends its host name and passkey.
    Greeting,
    /// It makes the connection a provider.
    Joining,
    /// It waits for a code on its first stream or a new stream.
    Serving,
    /// It hands a new stream on.
    Providing,
    /// It has ended.
    Ended,
}

/// What a client is told of the work that it asked for.
#[derive(Debug, Clone, Copy, PartialEq, Eq, Structural)]
pub enum ClientEvent {
    /// The greeting was sent.
    Sent,
    /// The connection is a provider.
    Joined,
    /// The server sent this code; `None` at the end of its stream.
    Code(Option<u16>),
    /// The server opened a stream.
    Accepted,
    /// The stream was handed on.
    Provided,
    /// What was asked for failed.
    Failed,
}

/// What a client asks for next.
#[derive(Debug, Clone, Copy, PartialEq, Eq, Structural)]
pub enum ClientAction {
    /// Make the connection a provider of every service.
    Join,
    /// Wait for a code on the first stream, or for the server to open a stream.
    Serve,
    /// Provide the stream that was opened.
    Provide,
    /// End the connection because of the failure that it was told of.
    Fail,
}

/// The events that can follow what a client asked for in `phase`.
pub open spec fn client_expects(phase: ClientPhase, event: ClientEvent) -> bool {
    match phase {
        ClientPhase::Greeting => event is Sent || event is Failed,
        ClientPhase::Joining => event is Joined,
        ClientPhase::Serving => event is Code || event is Accepted || event is Failed,
        ClientPhase::Providing => event is Provided,
        ClientPhase::Ended => false,
    }
}

/// What a client does next: its phase, and what it asks for. No code, nor the end
/// of the first stream, ends the connection.
pub open spec fn client_step(phase: ClientPhase, event: ClientEvent) -> (ClientPhase, ClientAction) {
    match event {
        ClientEvent::Sent => (ClientPhase::Joining, ClientAction::Join),
        ClientEvent::Joined => (ClientPhase::Serving, ClientAction::Serve),
        ClientEvent::Code(_) => (ClientPhase::Serving, ClientAction::Serve),
        ClientEvent::Accepted => (ClientPhase::Providing, ClientAction::Provide),
        ClientEvent::Provided => (ClientPhase::Serving, ClientAction::Serve),
        ClientEvent::Failed => (ClientPhase::Ended, ClientAction::Fail),
    }
}

/// The greeting of a client.
pub open spec fn greeting_bytes(host_name: Seq<char>, passkey: Seq<char>) -> Seq<u8> {
    wire::str_bytes(host_name) + wire::str_bytes(passkey)
}

/// A client's side of a connection.
pub struct ClientSession {
    phase: ClientPhase,
}

impl ClientSession {
    /// What the client is doing.
    pub closed spec fn phase_view(&self) -> ClientPhase {
        self.phase
    }

    /// A connection whose first stream was just opened, and the bytes that the
    /// client sends on it first.
    pub fn new(host_name: &str, passkey: &str) -> (session: (ClientSession, Vec<u8>))
        ensures
            session.0.phase_view() == ClientPhase::Greeting,
            session.1@ == greeting_bytes(host_name@, passkey@),
            session.1@ == wire::chunk_bytes(vstd::utf8::encode_utf8(host_name@))
                + wire::chunk_bytes(vstd::utf8::encode_utf8(passkey@)),
    {
        let mut greeting = StreamContext::send_str(host_name);
        let mut rest = StreamContext::send_str(passkey);
        greeting.append(&mut rest);
        (ClientSession { phase: ClientPhase::Greeting }, greeting)
    }

    /// Goes on with the connection: `event` is what came of the last action, and
    /// the result is the next one.
    pub fn new_connection(&mut self, event: ClientEvent) -> (action: ClientAction)
        requires
            client_expects(old(self).phase_view(), event),
        ensures
            (final(self).phase_view(), action) == client_step(old(self).phase_view(), event),
            action is Join <==> event is Sent,
            action is Serve <==> event is Joined || event is Code || event is Provided,
            action is Provide <==> event is Accepted,
            action is Fail <==> event is Failed,
    {
        match event {
            ClientEvent::Sent => {
                self.phase = ClientPhase::Joining;
                ClientAction::Join
            },
            ClientEvent::Joined | ClientEvent::Code(_) | ClientEvent::Provided => {
                self.phase = ClientPhase::Serving;
                ClientAction::Serve
            },
            ClientEvent::Accepted => {
                self.phase = ClientPhase::Providing;
                ClientAction::Provide
            },
            ClientEvent::Failed => {
                self.phase = ClientPhase::Ended;
                ClientAction::Fail
            },
        }
    }
}

/// What is heard of a stream that is to be provided a TCP connection.
pub enum ProvideEvent {
    /// The peer sent this address; `None` at the end of its stream.
    Addr(Option<String>),
    /// The address was connected to.
    Connected,
    /// It was not.
    ConnectFailed,
}

/// What is to be done next.
pub enum ProvideAction {
    /// Connect to this address.
    Connect(String),
    /// Relay between the connection and the stream.
    Relay,
    /// Send these bytes on the stream, and give it up.
    Refuse(Vec<u8>),
    /// The stream ended too early: give it up.
    Lost,
}

/// The view of a `ProvideEvent`.
#[verifier::ext_equal]
pub enum ProvideTold {
    Addr(Option<Seq<char>>),
    Connected,
    ConnectFailed,
}

impl View for ProvideEvent {
    type V = ProvideTold;

    open spec fn view(&self) -> ProvideTold {
        match self {
            ProvideEvent::Addr(Some(addr)) => ProvideTold::Addr(Some(addr@)),
            ProvideEvent::Addr(None) => ProvideTold::Addr(None),
            ProvideEvent::Connected => ProvideTold::Connected,
            ProvideEvent::ConnectFailed => ProvideTold::ConnectFailed,
        }
    }
}

/// The view of a `ProvideAction`.
#[verifier::ext_equal]
pub enum ProvideAsked {
    Connect(Seq<char>),
    Relay,
    Refuse(Seq<u8>),
    Lost,
}

impl View for ProvideAction {
    type V = ProvideAsked;

    open spec fn view(&self) -> ProvideAsked {
        match self {
            ProvideAction::Connect(addr) => ProvideAsked::Connect(addr@),
            ProvideAction::Relay => ProvideAsked::Relay,
            ProvideAction::Refuse(bytes) => ProvideAsked::Refuse(bytes@),
            ProvideAction::Lost => ProvideAsked::Lost,
        }
    }
}

/// How a stream is provided a TCP connection: to the address that the peer names.
/// A peer whose address cannot be reached is sent the closing code.
pub open spec fn provide_step(told: ProvideTold) -> ProvideAsked {
    match told {
        ProvideTold::Addr(Some(addr)) => ProvideAsked::Connect(addr),
        ProvideTold::Addr(None) => ProvideAsked::Lost,
        ProvideTold::Connected => ProvideAsked::Relay,
        ProvideTold::ConnectFailed => ProvideAsked::Refuse(
            wire::be_bytes(CODE_CLOSE as nat, 2),
        ),
    }
}

/// Provides a stream a TCP connection: `event` is what came of the last action,
/// and the result is the next one. The first is to read the peer's address.
pub fn provide_service(event: ProvideEvent) -> (action: ProvideAction)
    ensures
        action@ == provide_step(event@),
        match event {
            ProvideEvent::Addr(Some(addr)) => action matches ProvideAction::Connect(a) && a@
                == addr@,
            ProvideEvent::Addr(None) => action is Lost,
            ProvideEvent::Connected => action is Relay,
            ProvideEvent::ConnectFailed => action matches ProvideAction::Refuse(bytes) && bytes@
                == seq![0u8, 0u8],
        },
{
    proof {
        lemma_keepalive_bytes();
    }
    match event {
        ProvideEvent::Addr(Some(addr)) => ProvideAction::Connect(addr),
        ProvideEvent::Addr(None) => ProvideAction::Lost,
        ProvideEvent::Connected => ProvideAction::Relay,
        ProvideEvent::ConnectFailed => ProvideAction::Refuse(StreamContext::send_u16(CODE_CLOSE)),
    }
}

/// A server reads from a client's greeting the host name and the passkey that the
/// client gave, however the greeting arrives. It makes the connection a provider
/// of the services of that host if its hosts let the client in; otherwise it ends
/// the connection.
pub proof fn greeting_decides(
    host_name: Seq<char>,
    passkey: Seq<char>,
    hosts: Seq<HostView>,
    rest: Seq<u8>,
    pieces: Seq<Seq<u8>>,
)
    requires
        pieces.flatten() == greeting_bytes(host_name, passkey) + rest,
        vstd::utf8::encode_utf8(host_name).len() <= usize::MAX,
        vstd::utf8::encode_utf8(passkey).len() <= usize::MAX,
    ensures
        ({
            let first = arrival::str_run(Seq::empty(), pieces);
            let second = arrival::str_run(first.buffered, first.unread);
            &&& first.step matches Step::Done(h) && second.step matches Step::Done(p) && {
                let (named, asked) = connect_step(
                    ConnectPhase::HostName,
                    ConnectTold::Str(Some(h)),
                    hosts,
                );
                let (_, decided) = connect_step(named, ConnectTold::Str(Some(p)), hosts);
                &&& asked is ReadStr
                &&& decided == if lets_in(hosts, host_name, passkey) {
                    ConnectAsked::Join(host_name)
                } else {
                    ConnectAsked::Deny
                }
            }
            &&& second.buffered + second.unread.flatten() == rest
        }),
{
    let behind = wire::str_bytes(passkey) + rest;
    assert(Seq::<u8>::empty() + pieces.flatten() =~= wire::str_bytes(host_name) + behind);
    arrival::str_in_pieces(Seq::empty(), pieces);
    wire::str_roundtrip(host_name, behind);
    let first = arrival::str_run(Seq::empty(), pieces);
    arrival::str_in_pieces(first.buffered, first.unread);
    wire::str_roundtrip(passkey, rest);
}

/// A client that gives a wrong passkey for the name of a host is denied, and so
/// never becomes a provider.
pub proof fn wrong_passkey_is_denied(
    hosts: Seq<HostView>,
    index: int,
    passkey: Seq<char>,
)
    requires
        0 <= index < hosts.len(),
        hosts[index].passkey != passkey,
    ensures
        connect_step(
            ConnectPhase::Passkey(hosts[index].host_name),
            ConnectTold::Str(Some(passkey)),
            hosts,
        ) == (ConnectPhase::Ended, ConnectAsked::Deny),
{
}

/// The signs of life that a server sends do not end a client's connection,
/// however they arrive.
pub proof fn keepalive_is_harmless(
    rest: Seq<u8>,
    buffered: Seq<u8>,
    pieces: Seq<Seq<u8>>,
)
    requires
        buffered + pieces.flatten() == keepalive_bytes() + rest,
    ensures
        ({
            let code = arrival::u16_run(buffered, pieces);
            &&& code.step matches Step::Done(c) && client_step(
                ClientPhase::Serving,
                ClientEvent::Code(Some(c)),
            ) == (ClientPhase::Serving, ClientAction::Serve)
            &&& code.buffered + code.unread.flatten() == rest
        }),
{
    arrival::u16_in_pieces(buffered, pieces);
    wire::u16_roundtrip(CODE_CLOSE, rest);
}

/// A connection that a service takes to a provider is connected there to the
/// service's `remote`, however the stream arrives; what follows on the stream is
/// left to the relay.
pub proof fn provider_connects_to_remote<C>(
    service: ServiceView<C>,
    rest: Seq<u8>,
    pieces: Seq<Seq<u8>>,
)
    requires
        vstd::utf8::encode_utf8(service.remote).len() <= usize::MAX,
        service::open_step(service, OpenEvent::Opened).1 matches OpenAsked::Relay(bytes)
            && pieces.flatten() == bytes + rest,
    ensures
        ({
            let addr = arrival::str_run(Seq::empty(), pieces);
            &&& addr.step matches Step::Done(a) && provide_step(ProvideTold::Addr(Some(a)))
                == ProvideAsked::Connect(service.remote)
            &&& addr.buffered + addr.unread.flatten() == rest
        }),
{
    assert(Seq::<u8>::empty() + pieces.flatten() =~= wire::str_bytes(service.remote) + rest);
    arrival::str_in_pieces(Seq::empty(), pieces);
    wire::str_roundtrip(service.remote, rest);
}

/// A connection that a service takes to a provider reaches the service's `remote`.
/// The service sends the address and then relays, being told `near`; the provider
/// reads the address from `pieces`, connects, and relays what is behind it, going
/// through `far`. It connects to `remote`, and at no time has TCP taken anything
/// there but the first bytes that it had at the service, in order. Once all has
/// arrived and nothing is buffered any more, TCP has taken them all but for what
/// is left over of the last chunk.
pub proof fn service_reaches_remote<C>(
    service: ServiceView<C>,
    near: Seq<Told>,
    pieces: Seq<Seq<u8>>,
    far: Seq<Moment>,
)
    requires
        vstd::utf8::encode_utf8(service.remote).len() <= usize::MAX,
        forall|i: int|
            0 <= i < delivery::tcp_data(near).len() ==> (#[trigger] delivery::tcp_data(
                near,
            )[i]).len() <= usize::MAX,
        service::open_step(service, OpenEvent::Opened).1 matches OpenAsked::Relay(bytes) && (
        pieces.flatten() + delivery::arrived(far)).is_prefix_of(
            bytes + delivery::sent(Phase::Selecting, near),
        ),
        arrival::str_run(Seq::empty(), pieces).step is Done,
        arrival::str_run(Seq::empty(), pieces).unread.len() == 0,
        delivery::happens(
            Phase::Selecting,
            arrival::str_run(Seq::empty(), pieces).buffered,
            far,
        ),
    ensures
        ({
            let addr = arrival::str_run(Seq::empty(), pieces);
            let bytes = service::open_step(service, OpenEvent::Opened).1->Relay_0;
            let told = delivery::told_of(far);
            let had = delivery::tcp_data(near).flatten();
            &&& provide_step(ProvideTold::Addr(Some(addr.step->Done_0))) == ProvideAsked::Connect(
                service.remote,
            )
            &&& delivery::taken(Phase::Selecting, told).is_prefix_of(had)
            &&& pieces.flatten() + delivery::arrived(far) == bytes + delivery::sent(
                Phase::Selecting,
                near,
            ) && delivery::buffered_after(Phase::Selecting, addr.buffered, far).len() == 0
                ==> delivery::taken(Phase::Selecting, told) + delivery::left_over(
                Phase::Selecting,
                told,
            ) == had
        }),
{
    let addr = arrival::str_run(Seq::empty(), pieces);
    let frames = delivery::sent(Phase::Selecting, near);
    let bytes = wire::str_bytes(service.remote);
    let front = pieces.flatten();
    let stream = bytes + frames;
    let came = front + delivery::arrived(far);
    assert(Seq::<u8>::empty() + front =~= front);
    assert(front.is_prefix_of(stream)) by {
        assert(front.is_prefix_of(came));
    }
    arrival::str_in_pieces(Seq::empty(), pieces);
    assert(addr.buffered + addr.unread.flatten() =~= addr.buffered);
    wire::str_roundtrip(service.remote, frames);
    wire::longer_stream(front, stream);
    wire::lemma_chunk_off_front(front, vstd::utf8::encode_utf8(service.remote), frames);
    assert(front == bytes + addr.buffered);
    assert(came =~= bytes + (addr.buffered + delivery::arrived(far)));
    assert((addr.buffered + delivery::arrived(far)) =~= came.skip(bytes.len() as int));
    assert(frames =~= stream.skip(bytes.len() as int));
    delivery::tunnel_keeps_order(near, addr.buffered, far);
    if came == stream && delivery::buffered_after(
        Phase::Selecting,
        addr.buffered,
        far,
    ).len() == 0 {
        delivery::tunnel_carries_bytes(near, addr.buffered, far);
    }
}

/// A stream that cannot be provided a TCP connection closes the relay at its
/// other end.
pub proof fn refused_stream_stops_relay(pieces: Seq<Seq<u8>>)
    requires
        provide_step(ProvideTold::ConnectFailed) matches ProvideAsked::Refuse(bytes)
            && pieces.flatten() == bytes,
    ensures
        ({
            let code = arrival::u16_run(Seq::empty(), pieces);
            code.step matches Step::Done(c) && relay::pair_step(
                Phase::Selecting,
                Told::Code(Some(c)),
            ) == (Phase::Stopped, Asked::Stop)
        }),
{
    assert(Seq::<u8>::empty() + pieces.flatten() =~= wire::be_bytes(CODE_CLOSE as nat, 2)
        + Seq::<u8>::empty());
    delivery::closing_code_stops_relay(Seq::empty(), Seq::empty(), pieces);
}

/// A client is denied only by a host that bears its name and has another passkey;
/// one whose passkey is that of every host of its name is let in, whatever the passkey
/// is.
pub proof fn denied_only_by_its_host(
    hosts: Seq<HostView>,
    host_name: Seq<char>,
    passkey: Seq<char>,
)
    ensures
        !lets_in(hosts, host_name, passkey) <==> exists|i: int|
            0 <= i < hosts.len() && (#[trigger] hosts[i]).host_name == host_name && hosts[i].passkey
                != passkey,
{
}

/// Each host is asked for itself: hosts let a client in exactly if the first of them
/// and the others do, no host lets everybody in, and one host denies just those who
/// bear its name without its passkey.
pub proof fn hosts_decide_one_by_one(
    front: Seq<HostView>,
    host: HostView,
    host_name: Seq<char>,
    passkey: Seq<char>,
)
    ensures
        lets_in(Seq::empty(), host_name, passkey),
        lets_in(front.push(host), host_name, passkey) <==> lets_in(front, host_name, passkey) && (
        host.host_name == host_name ==> host.passkey == passkey),
{
    let all = front.push(host);
    if lets_in(all, host_name, passkey) {
        assert(all[front.len() as int] == host);
        assert forall|i: int|
            0 <= i < front.len() && (#[trigger] front[i]).host_name
                == host_name implies front[i].passkey == passkey by {
            assert(all[i] == front[i]);
        }
    }
    if lets_in(front, host_name, passkey) && (host.host_name == host_name ==> host.passkey
        == passkey) {
        assert forall|i: int|
            0 <= i < all.len() && (#[trigger] all[i]).host_name == host_name implies all[i].passkey
            == passkey by {
            if i < front.len() {
                assert(all[i] == front[i]);
            }
        }
    }
}

/// A record is accepted as a host exactly if its host name and passkey are texts,
/// which the host then has. One that lacks a field is passed over, the passkey being
/// missed first; otherwise it is malformed, the host name being looked at first.
pub proof fn host_has_its_record(record: RecordView)
    ensures
        ({
            let admission = host_admission(record);
            let complete = !(record.passkey is Absent) && !(record.host_name is Absent);
            &&& admission is Accepted <==> record.host_name is Text && record.passkey is Text
            &&& admission matches Admission::Accepted(host) ==> record.host_name == FieldView::Text(
                host.host_name,
            ) && record.passkey == FieldView::Text(host.passkey)
            &&& admission is Ignored <==> !complete
            &&& admission == Admission::<HostView>::Ignored(Key::Passkey) <==> record.passkey is Absent
            &&& admission == Admission::<HostView>::Ignored(Key::HostName) <==> !(
            record.passkey is Absent) && record.host_name is Absent
            &&& admission == Admission::<HostView>::Malformed(Key::HostName) <==> complete && !(
            record.host_name is Text)
            &&& admission == Admission::<HostView>::Malformed(Key::Passkey) <==> complete
                && record.host_name is Text && !(record.passkey is Text)
        }),
{
    let keys = seq![Key::Passkey, Key::HostName];
    reveal_with_fuel(service::first_absent, 3);
    assert(keys.drop_first() =~= seq![Key::HostName]);
    assert(keys.drop_first().drop_first() =~= Seq::empty());
}

/// A server first takes a string for the client's host name, whatever it is, and asks
/// for another, which it takes for the passkey. It joins the client under its name
/// exactly if each host of that name has that passkey, and otherwise ends the
/// connection; so it does if the strings do not come.
pub proof fn server_reads_name_and_passkey(
    hosts: Seq<HostView>,
    host_name: Seq<char>,
    passkey: Seq<char>,
)
    ensures
        ({
            let (named, asked) = connect_step(
                ConnectPhase::HostName,
                ConnectTold::Str(Some(host_name)),
                hosts,
            );
            let (decided, answer) = connect_step(named, ConnectTold::Str(Some(passkey)), hosts);
            let fits = forall|i: int|
                0 <= i < hosts.len() && (#[trigger] hosts[i]).host_name == host_name
                    ==> hosts[i].passkey == passkey;
            &&& asked is ReadStr && connect_expects(named, ConnectTold::Str(Some(passkey)))
            &&& fits ==> answer == ConnectAsked::Join(host_name) && connect_expects(
                decided,
                ConnectTold::Joined,
            )
            &&& !fits ==> answer is Deny && decided is Ended
            &&& connect_step(ConnectPhase::HostName, ConnectTold::Str(None), hosts) == (
                ConnectPhase::Ended,
                ConnectAsked::Lost,
            )
            &&& connect_step(named, ConnectTold::Str(None), hosts) == (
                ConnectPhase::Ended,
                ConnectAsked::Lost,
            )
        }),
{
}

/// When a client that is served opens a stream, the server asks for that stream to be
/// provided, whoever its hosts are. With it, and whenever no stream comes in time, it
/// sends a sign of life, which reads as the code 0, and once that is sent it serves
/// on. A client that has joined is served.
pub proof fn opened_stream_is_provided(hosts: Seq<HostView>, rest: Seq<u8>)
    ensures
        ({
            let (providing, provide) = connect_step(
                ConnectPhase::Serving,
                ConnectTold::Accepted,
                hosts,
            );
            let (idling, send) = connect_step(ConnectPhase::Serving, ConnectTold::Idle, hosts);
            let serving = (ConnectPhase::Serving, ConnectAsked::Serve);
            &&& provide matches ConnectAsked::Provide(bytes) && wire::parse_u16(bytes + rest)
                == wire::Parsed::Value(0u16, rest)
            &&& send matches ConnectAsked::Send(bytes) && wire::parse_u16(bytes + rest)
                == wire::Parsed::Value(0u16, rest)
            &&& connect_expects(providing, ConnectTold::Sent) && connect_expects(
                idling,
                ConnectTold::Sent,
            )
            &&& connect_step(providing, ConnectTold::Sent, hosts) == serving
            &&& connect_step(idling, ConnectTold::Sent, hosts) == serving
            &&& connect_step(ConnectPhase::Joining, ConnectTold::Joined, hosts) == serving
        }),
{
    wire::u16_roundtrip(CODE_CLOSE, rest);
}

/// A server ends a connection only if a string does not come, if a host denies the
/// client, or if something failed; and each of its actions comes of one kind of event.
pub proof fn server_ends_only_for_a_reason(
    phase: ConnectPhase,
    told: ConnectTold,
    hosts: Seq<HostView>,
)
    requires
        connect_expects(phase, told),
    ensures
        ({
            let (next, asked) = connect_step(phase, told, hosts);
            &&& next is Ended <==> asked is Lost || asked is Deny || asked is Fail
            &&& asked is Lost <==> told == ConnectTold::Str(None)
            &&& asked is Fail <==> told is Failed
            &&& asked is Provide <==> told is Accepted
            &&& asked is Send <==> told is Idle
            &&& asked is Serve <==> told is Joined || told is Sent
            &&& asked is Join || asked is Deny ==> phase is Passkey && told is Str
        }),
{
}

/// Whatever can come of what a server asks for, it can be told.
pub proof fn server_can_be_answered(
    phase: ConnectPhase,
    told: ConnectTold,
    hosts: Seq<HostView>,
)
    requires
        connect_expects(phase, told),
    ensures
        ({
            let (next, asked) = connect_step(phase, told, hosts);
            &&& forall|text: Option<Seq<char>>|
                asked is ReadStr ==> #[trigger] connect_expects(next, ConnectTold::Str(text))
            &&& asked is ReadStr || asked is Serve || asked is Send || asked is Provide
                ==> connect_expects(next, ConnectTold::Failed)
            &&& asked is Join ==> connect_expects(next, ConnectTold::Joined)
            &&& asked is Serve ==> connect_expects(next, ConnectTold::Accepted) && connect_expects(
                next,
                ConnectTold::Idle,
            )
            &&& asked is Send || asked is Provide ==> connect_expects(next, ConnectTold::Sent)
        }),
{
}

/// A client that has sent its greeting becomes a provider and then serves. It provides
/// each stream that the server opens, and serves on; no code, nor the end of the first
/// stream, changes that. It ends only if something failed.
pub proof fn client_serves_until_failure(phase: ClientPhase, event: ClientEvent)
    requires
        client_expects(phase, event),
    ensures
        ({
            let (next, action) = client_step(phase, event);
            &&& action is Join <==> event is Sent
            &&& action is Provide <==> event is Accepted
            &&& action is Serve <==> event is Joined || event is Code || event is Provided
            &&& action is Fail <==> event is Failed
            &&& next is Ended <==> event is Failed
            &&& action is Join ==> client_expects(next, ClientEvent::Joined)
            &&& action is Provide ==> client_expects(next, ClientEvent::Provided)
            &&& forall|code: Option<u16>|
                action is Serve ==> #[trigger] client_expects(next, ClientEvent::Code(code))
            &&& action is Serve ==> client_expects(next, ClientEvent::Accepted) && client_expects(
                next,
                ClientEvent::Failed,
            )
        }),
{
}

/// A greeting reads as the host name and then as the passkey, whatever follows.
pub proof fn greeting_names_client(host_name: Seq<char>, passkey: Seq<char>, rest: Seq<u8>)
    requires
        vstd::utf8::encode_utf8(host_name).len() <= usize::MAX,
        vstd::utf8::encode_utf8(passkey).len() <= usize::MAX,
    ensures
        wire::parse_str(greeting_bytes(host_name, passkey) + rest) matches wire::Parsed::Value(
            name,
            behind,
        ) && name == host_name && wire::parse_str(behind) == wire::Parsed::Value(passkey, rest),
{
    let behind = wire::str_bytes(passkey) + rest;
    assert(greeting_bytes(host_name, passkey) + rest =~= wire::str_bytes(host_name) + behind);
    wire::str_roundtrip(host_name, behind);
    wire::str_roundtrip(passkey, rest);
}

/// A stream is connected to the very address that the peer names, and relayed once it
/// is connected. If it cannot be connected, what the peer is sent reads as the code
/// that closes a relay; without an address nothing is sent.
pub proof fn stream_is_connected_as_named(addr: Seq<char>, rest: Seq<u8>)
    ensures
        provide_step(ProvideTold::Addr(Some(addr))) == ProvideAsked::Connect(addr),
        provide_step(ProvideTold::Connected) is Relay,
        provide_step(ProvideTold::Addr(None)) is Lost,
        provide_step(ProvideTold::ConnectFailed) matches ProvideAsked::Refuse(bytes)
            && wire::parse_u16(bytes + rest) == wire::Parsed::Value(0u16, rest),
{
    wire::u16_roundtrip(CODE_CLOSE, rest);
}

} // verus!
