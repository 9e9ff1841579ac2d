//! The life of the upload server: started, asked for its status, and stopped.
use crate::decimal::{decimal, decimal_text};
use crate::ids::{is_uuid_v4, new_uuid};
use crate::text::optional_text;
use vstd::prelude::*;

verus! {

/// The directory of uploads, below that of recordings.
pub const UPLOAD_FOLDER: &'static str = "phone-uploads";

/// The address of the machine itself, which stands in where it has none on the network.
pub const LOOPBACK: &'static str = "127.0.0.1";

/// How long the server sleeps while nobody connects, in milliseconds.
pub const IDLE_MILLIS: u64 = 50;

/// How long the server waits for the bytes of a request, in seconds.
pub const READ_TIMEOUT_SECONDS: u64 = 30;

/// A server that is running.
#[derive(Debug, Clone)]
pub struct PhoneUploadServer {
    pub port: u16,
    pub token: String,
    pub upload_dir: String,
}

/// The status of the server, for the user to see.
#[derive(Debug, Clone)]
pub struct PhoneUploadServerStatus {
    pub running: bool,
    pub port: Option<u16>,
    pub upload_url: Option<String>,
    pub local_url: Option<String>,
    pub upload_dir: String,
}

/// A running server, as a model.
#[verifier::ext_equal]
pub struct Server {
    pub port: u16,
    pub token: Seq<char>,
    pub upload_dir: Seq<char>,
}

/// The status of the server, as a model.
#[verifier::ext_equal]
pub struct Status {
    pub running: bool,
    pub port: Option<u16>,
    pub upload_url: Option<Seq<char>>,
    pub local_url: Option<Seq<char>>,
    pub upload_dir: Seq<char>,
}

impl View for PhoneUploadServer {
    type V = Server;

    open spec fn view(&self) -> Server {
        Server { port: self.port, token: self.token@, upload_dir: self.upload_dir@ }
    }
}

impl View for PhoneUploadServerStatus {
    type V = Status;

    open spec fn view(&self) -> Status {
        Status {
            running: self.running,
            port: self.port,
            upload_url: optional_text(self.upload_url),
            local_url: optional_text(self.local_url),
            upload_dir: self.upload_dir@,
        }
    }
}

/// An address on the network, of four numbers.
#[derive(Debug, Clone, Copy, PartialEq, Eq, Structural)]
pub struct NetworkIp(pub u8, pub u8, pub u8, pub u8);

impl NetworkIp {
    /// The address as text: its numbers in decimal, with full stops between them.
    pub open spec fn dotted(self) -> Seq<char> {
        decimal(self.0 as nat) + "."@ + decimal(self.1 as nat) + "."@ + decimal(self.2 as nat)
            + "."@ + decimal(self.3 as nat)
    }

    /// The address as text.
    pub fn text(&self) -> (text: String)
        ensures
            text@ == self.dotted(),
    {
        let mut text = decimal_text(self.0 as u64);
        text.append(".");
        let second = decimal_text(self.1 as u64);
        text.append(second.as_str());
        text.append(".");
        let third = decimal_text(self.2 as u64);
        text.append(third.as_str());
        text.append(".");
        let fourth = decimal_text(self.3 as u64);
        text.append(fourth.as_str());
        text
    }
}

/// The address of the upload page on a server at `host`.
pub open spec fn page_url(host: Seq<char>, port: u16, token: Seq<char>) -> Seq<char> {
    "http://"@ + host + ":"@ + decimal(port as nat) + "/?token="@ + token
}

/// The status of a running server, on a machine whose address on the network is `local_ip`.
pub open spec fn running_status(server: Server, local_ip: Option<NetworkIp>) -> Status {
    let host = match local_ip {
        Some(ip) => ip.dotted(),
        None => LOOPBACK@,
    };
    Status {
        running: true,
        port: Some(server.port),
        upload_url: Some(page_url(host, server.port, server.token)),
        local_url: Some(page_url(LOOPBACK@, server.port, server.token)),
        upload_dir: server.upload_dir,
    }
}

/// The status where no server is running.
pub open spec fn stopped_status(upload_dir: Seq<char>) -> Status {
    Status { running: false, port: None, upload_url: None, local_url: None, upload_dir }
}

/// The address of the upload page on a server at `host`.
fn url(host: &str, port: u16, token: &str) -> (text: String)
    ensures
        text@ == page_url(host@, port, token@),
{
    let mut text = "http://".to_owned();
    text.append(host);
    text.append(":");
    let digits = decimal_text(port as u64);
    text.append(digits.as_str());
    text.append("/?token=");
    text.append(token);
    text
}

/// The status of a running server, on a machine whose address on the network is `local_ip`.
pub fn server_status(server: &PhoneUploadServer, local_ip: Option<NetworkIp>) -> (status:
    PhoneUploadServerStatus)
    ensures
        status@ == running_status(server@, local_ip),
{
    let host = match local_ip {
        Some(ip) => ip.text(),
        None => LOOPBACK.to_owned(),
    };
    let upload_url = url(host.as_str(), server.port, server.token.as_str());
    let local_url = url(LOOPBACK, server.port, server.token.as_str());
    PhoneUploadServerStatus {
        running: true,
        port: Some(server.port),
        upload_url: Some(upload_url),
        local_url: Some(local_url),
        upload_dir: server.upload_dir.clone(),
    }
}

/// A token that uploads to a new server have to bear.
pub fn new_token() -> (token: String)
    ensures
        is_uuid_v4(token@),
{
    new_uuid()
}

// ---------------------------------------------------------------------------------------------
// Launching.
// ---------------------------------------------------------------------------------------------

/// What has to succeed before a server runs.
#[derive(Debug, Clone, Copy, PartialEq, Eq, Structural)]
pub enum LaunchStep {
    /// The directory of uploads is made.
    CreateDirectory,
    /// The server gets a port.
    Bind,
    /// The port is read.
    ReadPort,
    /// The server is told not to block.
    Configure,
}

/// What is said of a launch that failed at `step`, before the reason.
pub open spec fn failure_words(step: LaunchStep) -> Seq<char> {
    match step {
        LaunchStep::CreateDirectory => "Failed to create phone upload directory: "@,
        LaunchStep::Bind => "Failed to start phone upload server: "@,
        LaunchStep::ReadPort => "Failed to read phone upload server port: "@,
        LaunchStep::Configure => "Failed to configure phone upload server: "@,
    }
}

/// What is said of a launch that failed at `step`, for the given reason.
pub fn launch_failure(step: LaunchStep, reason: &str) -> (text: String)
    ensures
        text@ == failure_words(step) + reason@,
{
    let words = match step {
        LaunchStep::CreateDirectory => "Failed to create phone upload directory: ",
        LaunchStep::Bind => "Failed to start phone upload server: ",
        LaunchStep::ReadPort => "Failed to read phone upload server port: ",
        LaunchStep::Configure => "Failed to configure phone upload server: ",
    };
    let mut text = words.to_owned();
    text.append(reason);
    text
}

// ---------------------------------------------------------------------------------------------
// Starting and stopping.
// ---------------------------------------------------------------------------------------------

/// The place of the one server that may be running.
pub struct ServerSlot {
    pub server: Option<PhoneUploadServer>,
}

impl View for ServerSlot {
    type V = Option<Server>;

    open spec fn view(&self) -> Option<Server> {
        match self.server {
            Some(server) => Some(server@),
            None => None,
        }
    }
}

/// The status of whatever server there is; `upload_dir` is where uploads would go.
pub open spec fn slot_status(
    slot: Option<Server>,
    local_ip: Option<NetworkIp>,
    upload_dir: Seq<char>,
) -> Status {
    match slot {
        Some(server) => running_status(server, local_ip),
        None => stopped_status(upload_dir),
    }
}

impl ServerSlot {
    /// A slot without a server.
    pub fn new() -> (slot: ServerSlot)
        ensures
            slot@ is None,
    {
        ServerSlot { server: None }
    }

    /// Asks to start a server: the status of the one that is running; nothing, where a new one is
    /// to be launched.
    pub fn start(&self, local_ip: Option<NetworkIp>) -> (status: Option<PhoneUploadServerStatus>)
        ensures
            match status {
                Some(value) => self@ is Some && value@ == running_status(self@->0, local_ip),
                None => self@ is None,
            },
    {
        match &self.server {
            Some(server) => Some(server_status(server, local_ip)),
            None => None,
        }
    }

    /// Puts a server that was launched in place, and gives its status.
    pub fn launched(
        &mut self,
        port: u16,
        token: String,
        upload_dir: String,
        local_ip: Option<NetworkIp>,
    ) -> (status: PhoneUploadServerStatus)
        ensures
            final(self)@ == Some(Server { port, token: token@, upload_dir: upload_dir@ }),
            status@ == running_status(
                (Server { port, token: token@, upload_dir: upload_dir@ }),
                local_ip,
            ),
    {
        let server = PhoneUploadServer { port, token, upload_dir };
        let status = server_status(&server, local_ip);
        self.server = Some(server);
        status
    }

    /// Asks to stop the server: the port of the one that was running, which has to be told.
    pub fn stop(&mut self) -> (port: Option<u16>)
        ensures
            final(self)@ is None,
            port == match old(self)@ {
                Some(server) => Some(server.port),
                None => None,
            },
    {
        let port = match &self.server {
            Some(server) => Some(server.port),
            None => None,
        };
        self.server = None;
        port
    }

    /// Asks for the status; `upload_dir` is where uploads would go.
    pub fn status(&self, local_ip: Option<NetworkIp>, upload_dir: String) -> (status:
        PhoneUploadServerStatus)
        ensures
            status@ == slot_status(self@, local_ip, upload_dir@),
    {
        match &self.server {
            Some(server) => server_status(server, local_ip),
            None => PhoneUploadServerStatus {
                running: false,
                port: None,
                upload_url: None,
                local_url: None,
                upload_dir,
            },
        }
    }
}

// ---------------------------------------------------------------------------------------------
// Accepting connections.
// ---------------------------------------------------------------------------------------------

/// What came of waiting for a connection.
#[derive(Debug, Clone, Copy, PartialEq, Eq, Structural)]
pub enum AcceptEvent {
    /// The server was asked to stop before it waited.
    ShutDown,
    /// Somebody connected.
    Connected,
    /// Nobody did.
    WouldBlock,
    /// Connections can no longer be accepted.
    Failed,
}

/// What the server does next.
#[derive(Debug, Clone, Copy, PartialEq, Eq, Structural)]
pub enum AcceptAction {
    /// The connection is handled, and the next one waited for.
    Handle,
    /// The server sleeps so many milliseconds, and waits again.
    Sleep(u64),
    /// The server ends.
    End,
}

/// What the server does about what came of waiting for a connection.
pub open spec fn accept_action(event: AcceptEvent) -> AcceptAction {
    match event {
        AcceptEvent::ShutDown => AcceptAction::End,
        AcceptEvent::Connected => AcceptAction::Handle,
        AcceptEvent::WouldBlock => AcceptAction::Sleep(IDLE_MILLIS),
        AcceptEvent::Failed => AcceptAction::End,
    }
}

/// What the server does about what came of waiting for a connection.
pub fn after_accept(event: AcceptEvent) -> (action: AcceptAction)
    ensures
        action == accept_action(event),
{
    match event {
        AcceptEvent::ShutDown => AcceptAction::End,
        AcceptEvent::Connected => AcceptAction::Handle,
        AcceptEvent::WouldBlock => AcceptAction::Sleep(IDLE_MILLIS),
        AcceptEvent::Failed => AcceptAction::End,
    }
}

// ---------------------------------------------------------------------------------------------
// Laws.
// ---------------------------------------------------------------------------------------------

/// The addresses of a running server. The one for the phone leads to the machine's address on the
/// network, and to the machine itself only where it has none; the other always to the machine
/// itself. Both bear the port and the whole token.
pub proof fn lemma_link_leads_to_machine(server: Server, ip: NetworkIp)
    ensures
        ({
            let behind = ":"@ + decimal(server.port as nat) + "/?token="@ + server.token;
            let here = "http://127.0.0.1"@ + behind;
            let there = "http://"@ + decimal(ip.0 as nat) + "."@ + decimal(ip.1 as nat) + "."@
                + decimal(ip.2 as nat) + "."@ + decimal(ip.3 as nat) + behind;
            &&& running_status(server, Some(ip)).upload_url == Some(there)
            &&& running_status(server, None).upload_url == Some(here)
            &&& running_status(server, Some(ip)).local_url == Some(here)
            &&& running_status(server, None).local_url == Some(here)
        }),
{
    reveal_strlit("http://127.0.0.1");
    reveal_strlit("http://");
    reveal_strlit("127.0.0.1");
    reveal_strlit(".");
    let behind = ":"@ + decimal(server.port as nat) + "/?token="@ + server.token;
    assert("http://127.0.0.1"@ == "http://"@ + LOOPBACK@);
    assert(page_url(LOOPBACK@, server.port, server.token) == "http://127.0.0.1"@ + behind);
    assert(page_url(ip.dotted(), server.port, server.token) == "http://"@ + decimal(ip.0 as nat)
        + "."@ + decimal(ip.1 as nat) + "."@ + decimal(ip.2 as nat) + "."@ + decimal(ip.3 as nat)
        + behind);
}

/// The status is that of the server that runs, on its port and with its directory; where none does,
/// it has no port and no address, and the directory is the one that was asked about.
pub proof fn lemma_status_is(
    server: Server,
    local_ip: Option<NetworkIp>,
    upload_dir: Seq<char>,
)
    ensures
        ({
            let status = slot_status(Some(server), local_ip, upload_dir);
            &&& status.running
            &&& status.port == Some(server.port)
            &&& status.upload_dir == server.upload_dir
            &&& status.upload_url == running_status(server, local_ip).upload_url
            &&& status.local_url == running_status(server, local_ip).local_url
        }),
        ({
            let status = running_status(server, local_ip);
            &&& status.running
            &&& status.port == Some(server.port)
            &&& status.upload_dir == server.upload_dir
        }),
        ({
            let status = slot_status(None, local_ip, upload_dir);
            &&& !status.running
            &&& status.port is None
            &&& status.upload_url is None
            &&& status.local_url is None
            &&& status.upload_dir == upload_dir
        }),
{
}

/// A server, its status and its slot stand for their own fields.
pub proof fn lemma_server_views_are(
    server: PhoneUploadServer,
    status: PhoneUploadServerStatus,
    slot: ServerSlot,
)
    ensures
        server@.port == server.port,
        server@.token == server.token@,
        server@.upload_dir == server.upload_dir@,
        status@.running == status.running,
        status@.port == status.port,
        status@.upload_url is Some <==> status.upload_url is Some,
        status.upload_url matches Some(url) ==> status@.upload_url == Some(url@),
        status@.local_url is Some <==> status.local_url is Some,
        status.local_url matches Some(url) ==> status@.local_url == Some(url@),
        status@.upload_dir == status.upload_dir@,
        slot@ is Some <==> slot.server is Some,
        slot.server matches Some(found) ==> slot@ == Some(found@),
{
}

/// The server goes on after a connection and where nobody connects, and ends only where it is asked
/// to or can accept no more.
pub proof fn lemma_accept_is(event: AcceptEvent)
    ensures
        accept_action(event) == AcceptAction::End <==> event == AcceptEvent::ShutDown || event
            == AcceptEvent::Failed,
        accept_action(event) == AcceptAction::Handle <==> event == AcceptEvent::Connected,
        accept_action(event) == AcceptAction::Sleep(50) <==> event == AcceptEvent::WouldBlock,
{
}

/// The settings of the server.
pub proof fn lemma_settings_are()
    ensures
        UPLOAD_FOLDER@ == "phone-uploads"@,
        LOOPBACK@ == "127.0.0.1"@,
        IDLE_MILLIS == 50,
        READ_TIMEOUT_SECONDS == 30,
{
}

} // verus!
