//! The protocol host: message framing, session-name rules, and the
//! decisions of the request loop, with at most one active tracker.

use vstd::prelude::*;
use crate::session::{PersistenceError, SessionLoader, mismatch_text};
use crate::tracker::{
    Tracker, TrackingData, TrackerError, TabOperation, SerializedSession, swept, is_report, snapshot_of,
    records_view, record_entries, restored_tree, records_wf, after_event, tab_known,
};
use crate::model::{SegPath, keys_distinct};
use crate::node::NodeState;
use crate::segments::parsed_path;
use crate::session::session_names_of;
use crate::session::sorted_texts;
use crate::text::{decimal, decimal_text};

verus! {

/// The largest payload a frame may declare: 1 MiB.
pub const MAX_MESSAGE_SIZE: u32 = 1048576;

/// Why a frame could not be read or written, or a session name was refused.
#[derive(Debug)]
pub enum NativeMessagingError {
    Io(String),
    Json(String),
    InvalidLength(u32),
    MessageTooLarge(u32),
    InvalidSessionName(String),
}

impl NativeMessagingError {
    pub open spec fn text(&self) -> Seq<char> {
        match self {
            NativeMessagingError::Io(s) => "IO error: "@ + s@,
            NativeMessagingError::Json(s) => "JSON serialization error: "@ + s@,
            NativeMessagingError::InvalidLength(n) => "Invalid message length: "@ + decimal(*n as nat),
            NativeMessagingError::MessageTooLarge(n) => "Message too large: "@ + decimal(*n as nat) + " bytes"@,
            NativeMessagingError::InvalidSessionName(s) => "Invalid session name: "@ + s@,
        }
    }

    /// The human-readable text of the error.
    pub fn message(&self) -> (r: String)
        ensures
            r@ == self.text(),
    {
        match self {
            NativeMessagingError::Io(s) => String::from_str("IO error: ").concat(s.as_str()),
            NativeMessagingError::Json(s) => String::from_str("JSON serialization error: ").concat(s.as_str()),
            NativeMessagingError::InvalidLength(n) => {
                let d = decimal_text(*n as u64);
                String::from_str("Invalid message length: ").concat(d.as_str())
            },
            NativeMessagingError::MessageTooLarge(n) => {
                let d = decimal_text(*n as u64);
                String::from_str("Message too large: ").concat(d.as_str()).concat(" bytes")
            },
            NativeMessagingError::InvalidSessionName(s) => String::from_str("Invalid session name: ").concat(
                s.as_str(),
            ),
        }
    }
}

/// The length that a little-endian 4-byte header declares.
pub open spec fn le_u32(b: Seq<u8>) -> nat {
    b[0] as nat + 256 * (b[1] as nat) + 65536 * (b[2] as nat) + 16777216 * (b[3] as nat)
}

/// Reads the payload length from a frame header: rejected when it is over
/// 1 MiB or zero.
pub fn message_length(header: &[u8; 4]) -> (r: Result<usize, NativeMessagingError>)
    ensures
        le_u32(header@) > MAX_MESSAGE_SIZE ==> (r matches Err(NativeMessagingError::MessageTooLarge(n)) && n
            == le_u32(header@)),
        le_u32(header@) == 0 ==> (r matches Err(NativeMessagingError::InvalidLength(n)) && n == 0),
        0 < le_u32(header@) <= MAX_MESSAGE_SIZE ==> r == Ok::<usize, NativeMessagingError>(
            le_u32(header@) as usize,
        ),
{
    let v: u64 = header[0] as u64 + 256 * (header[1] as u64) + 65536 * (header[2] as u64) + 16777216 * (
    header[3] as u64);
    assert(v == le_u32(header@));
    if v > MAX_MESSAGE_SIZE as u64 {
        return Err(NativeMessagingError::MessageTooLarge(v as u32));
    }
    if v == 0 {
        return Err(NativeMessagingError::InvalidLength(0));
    }
    Ok(v as usize)
}

/// A frame: the payload's length in four little-endian bytes, then the
/// payload.
pub fn frame_message(payload: &[u8]) -> (r: Vec<u8>)
    requires
        payload@.len() <= u32::MAX,
    ensures
        r@.len() == payload@.len() + 4,
        le_u32(r@) == payload@.len(),
        r@.skip(4) == payload@,
{
    let n: u64 = payload.len() as u64;
    let b0 = (n % 256) as u8;
    let b1 = ((n / 256) % 256) as u8;
    let b2 = ((n / 65536) % 256) as u8;
    let b3 = ((n / 16777216) % 256) as u8;
    assert(n == b0 as nat + 256 * (b1 as nat) + 65536 * (b2 as nat) + 16777216 * (b3 as nat))
        by (nonlinear_arith)
        requires
            n <= u32::MAX,
            b0 == n % 256,
            b1 == (n / 256) % 256,
            b2 == (n / 65536) % 256,
            b3 == (n / 16777216) % 256,
    ;
    let mut r: Vec<u8> = Vec::new();
    r.push(b0);
    r.push(b1);
    r.push(b2);
    r.push(b3);
    let mut i: usize = 0;
    while i < payload.len()
        invariant
            r@.len() == 4 + i,
            r@[0] == b0 && r@[1] == b1 && r@[2] == b2 && r@[3] == b3,
            i <= payload@.len(),
            r@.skip(4) == payload@.take(i as int),
        decreases payload@.len() - i,
    {
        r.push(payload[i]);
        proof {
            assert(r@.skip(4) =~= payload@.take(i as int + 1));
        }
        i = i + 1;
    }
    proof {
        assert(payload@.take(payload@.len() as int) =~= payload@);
    }
    r
}

/// The characters a session name may not hold.
pub open spec fn forbidden_in_name(c: char) -> bool {
    c == '/' || c == '\\' || c == ':' || c == '*' || c == '?' || c == '"' || c == '<' || c == '>' || c == '|'
        || c == '\0'
}

/// The error text for a session name, or none when the name is accepted:
/// not empty, at most 100 characters, none of them forbidden.
pub open spec fn name_problem(name: Seq<char>) -> Option<Seq<char>> {
    if name.len() == 0 {
        Some("Session name cannot be empty"@)
    } else if name.len() > 100 {
        Some("Session name is too long. Allowed length: 100 characters"@)
    } else if exists|i: int| 0 <= i < name.len() && forbidden_in_name(#[trigger] name[i]) {
        Some("Session name contains invalid characters"@)
    } else {
        None
    }
}

/// Checks a session name.
pub fn verify_session_name(session_name: &str) -> (r: Result<(), NativeMessagingError>)
    ensures
        r is Ok <==> name_problem(session_name@) is None,
        r matches Err(e) ==> (e matches NativeMessagingError::InvalidSessionName(s) && Some(s@) == name_problem(
            session_name@,
        )),
{
    let n = session_name.unicode_len();
    if n == 0 {
        return Err(NativeMessagingError::InvalidSessionName(String::from_str("Session name cannot be empty")));
    }
    if n > 100 {
        return Err(
            NativeMessagingError::InvalidSessionName(
                String::from_str("Session name is too long. Allowed length: 100 characters"),
            ),
        );
    }
    let mut i: usize = 0;
    while i < n
        invariant
            n == session_name@.len(),
            0 < n <= 100,
            i <= n,
            forall|j: int| 0 <= j < i ==> !forbidden_in_name(#[trigger] session_name@[j]),
        decreases n - i,
    {
        let c = session_name.get_char(i);
        if c == '/' || c == '\\' || c == ':' || c == '*' || c == '?' || c == '"' || c == '<' || c == '>' || c
            == '|' || c == '\0' {
            proof {
                assert(forbidden_in_name(session_name@[i as int]));
            }
            return Err(
                NativeMessagingError::InvalidSessionName(String::from_str("Session name contains invalid characters")),
            );
        }
        i = i + 1;
    }
    Ok(())
}

/// The URL and tab of a tab event.
pub struct TabActionData {
    pub url: String,
    pub tab_id: u32,
}

/// A request of the browser extension.
pub enum IncomingMessage {
    TabFocused(TabActionData),
    TabUnfocused(TabActionData),
    TabClosed(TabActionData),
    Start { session_name: String },
    Stop,
    GetData,
    GetActive,
    Ping,
    GetSessions,
    DeleteSession { session_name: String },
}

/// A request with its correlation id.
pub struct MessageWithId {
    pub id: u32,
    pub message: IncomingMessage,
}

/// The payload of a successful response.
pub enum ResponseData {
    ActiveSession(String),
    Report(Vec<TrackingData>),
    Sessions(Vec<String>),
}

/// A response before its correlation id is attached.
pub struct OutgoingMessage {
    pub success: bool,
    pub data: Option<ResponseData>,
    pub error: Option<String>,
}

/// A response as it is sent.
pub struct OutgoingMessageWithId {
    pub success: bool,
    pub data: Option<ResponseData>,
    pub error: Option<String>,
    pub id: u32,
}

/// A failed response with exactly this text.
pub open spec fn is_error_reply(m: OutgoingMessage, text: Seq<char>) -> bool {
    &&& !m.success
    &&& m.data is None
    &&& m.error matches Some(e) && e@ == text
}

impl OutgoingMessage {
    pub fn success(data: Option<ResponseData>) -> (r: OutgoingMessage)
        ensures
            r.success,
            r.data == data,
            r.error is None,
    {
        OutgoingMessage { success: true, data, error: None }
    }

    pub fn error(error: String) -> (r: OutgoingMessage)
        ensures
            is_error_reply(r, error@),
            r.error == Some(error),
    {
        OutgoingMessage { success: false, data: None, error: Some(error) }
    }

    /// The response as sent for request `id`.
    pub fn with_id(self, id: u32) -> (r: OutgoingMessageWithId)
        ensures
            r.id == id,
            r.success == self.success,
            r.data == self.data,
            r.error == self.error,
    {
        OutgoingMessageWithId { success: self.success, data: self.data, error: self.error, id }
    }
}

/// The reply to a request that could not be read or decoded: it carries
/// the error, and the id 0, as the request's own id is unknown.
pub fn read_failure_reply(error: String) -> (r: OutgoingMessageWithId)
    ensures
        r.id == 0,
        !r.success,
        r.data is None,
        r.error == Some(error),
{
    OutgoingMessage::error(error).with_id(0)
}

/// Work for the session store that the host hands out.
pub enum StoreRequest {
    /// Read the named session, if it exists.
    Load(String),
    /// Write this session under its name.
    Save(SerializedSession),
    /// Name the files of the session directory.
    List,
    /// Delete the named session.
    Delete(String),
}

/// What the session store did with a request.
pub enum StoreOutcome {
    /// The stored session, or none when there is no such session.
    Loaded(Option<SerializedSession>),
    Saved,
    /// The names of the files in the session directory.
    Listed(Vec<String>),
    Deleted,
    Failed(PersistenceError),
}

/// What the host does with a request: answer it, or first have the
/// session store do something and then call `complete`.
pub enum HostStep {
    Reply(OutgoingMessage),
    Store(StoreRequest),
}

/// The request that waits for the session store.
pub enum Pending {
    Start(String),
    Stop,
    List,
    Delete,
}

pub open spec fn not_started_text() -> Seq<char> {
    "Tracker not started"@
}

pub open spec fn already_started_text() -> Seq<char> {
    "Tracker already started"@
}

pub open spec fn nothing_pending_text() -> Seq<char> {
    "No store request is pending"@
}

/// The reply and the tracker after tab event `op` at `now`, from the tracker
/// `before` (or none).
pub open spec fn tab_event_done(
    before: Option<Tracker>,
    after: Option<Tracker>,
    r: OutgoingMessage,
    op: TabOperation,
    data: TabActionData,
    now: u64,
) -> bool {
    match before {
        None => is_error_reply(r, not_started_text()) && after is None,
        Some(t) => after matches Some(t2) && t2.name() == t.name() && {
            &&& r.success <==> (parsed_path(data.url@) matches Some(p) && (op == TabOperation::Focus
                || tab_known(t.view(), p, data.tab_id)))
            &&& parsed_path(data.url@) matches Some(p) ==> t2.view() == after_event(t.view(), p, data.tab_id, op, now)
            &&& parsed_path(data.url@) is None ==> t2.view() == t.view()
            &&& r.data is None
            &&& r.success ==> r.error is None
            &&& parsed_path(data.url@) is None ==> !r.success && (r.error matches Some(e) && exists|d: Seq<char>|
                e@ == "Invalid URL: "@ + d)
            &&& data.url@.len() == 0 ==> is_error_reply(r, "Invalid URL: Empty URL"@)
            &&& (parsed_path(data.url@) is Some && !r.success) ==> is_error_reply(
                r,
                TrackerError::TabNotFound(data.tab_id).text(),
            )
        },
    }
}

/// The host: at most one active tracker, and the request that waits for
/// the session store.
pub struct NativeMessagingHost {
    tracker: Option<Tracker>,
    pending: Option<Pending>,
    session_loader: SessionLoader,
}

impl NativeMessagingHost {
    pub closed spec fn active(&self) -> Option<Tracker> {
        self.tracker
    }

    pub closed spec fn waiting(&self) -> Option<Pending> {
        self.pending
    }

    pub closed spec fn wf(&self) -> bool {
        self.tracker matches Some(t) ==> t.wf()
    }

    /// A host with no active tracker.
    pub fn new(session_loader: SessionLoader) -> (r: NativeMessagingHost)
        ensures
            r.wf(),
            r.active() is None,
            r.waiting() is None,
    {
        NativeMessagingHost { tracker: None, pending: None, session_loader }
    }

    pub fn get_session_loader(&self) -> &SessionLoader {
        &self.session_loader
    }

    /// The name of the active session, if there is one.
    pub fn active_session_name(&self) -> (r: Option<String>)
        requires
            self.wf(),
        ensures
            self.active() matches Some(t) ==> (r matches Some(n) && n@ == t.name()),
            self.active() is None ==> r is None,
    {
        match &self.tracker {
            Some(t) => Some(String::from_str(t.get_session_name())),
            None => None,
        }
    }

    /// Whether a session may start under this name: none is active and the
    /// name is accepted. The error is the response text.
    pub fn try_start_action(&self, session_name: &str) -> (r: Result<(), String>)
        ensures
            self.active() is Some ==> (r matches Err(e) && e@ == already_started_text()),
            self.active() is None ==> (name_problem(session_name@) matches Some(p) ==> (r matches Err(e) && e@
                == "Invalid session name: "@ + p)),
            r is Ok <==> self.active() is None && name_problem(session_name@) is None,
    {
        if self.tracker.is_some() {
            return Err(String::from_str("Tracker already started"));
        }
        match verify_session_name(session_name) {
            Ok(()) => Ok(()),
            Err(e) => Err(e.message()),
        }
    }

    /// The tracker for a session that starts: the stored one, resumed with
    /// its instances, when the store has one under this name; else a new one.
    pub fn create_or_load_tracker(&self, session_name: &str, stored: Option<SerializedSession>) -> (r: Result<
        Tracker,
        PersistenceError,
    >)
        ensures
            r is Err <==> (stored matches Some(s) && s.session_name@ != session_name@),
            r matches Err(e) ==> (e matches PersistenceError::JsonSerialization(m) && m@ == mismatch_text(
                session_name@,
                stored->0.session_name@,
            )),
            r matches Ok(t) ==> t.wf() && t.name() == session_name@,
            r matches Ok(t) ==> (stored is None ==> t.view() == Map::<SegPath, NodeState>::empty()),
            r matches Ok(t) ==> ((stored matches Some(s) && records_wf(s.data@)) ==> t.view() == restored_tree(
                stored->0.data@,
                false,
            )),
    {
        match stored {
            Some(s) => match self.session_loader.check_loaded_session(session_name, s) {
                Ok(s) => Ok(Tracker::from_serialized(s.session_name, s.data, false)),
                Err(e) => Err(e),
            },
            None => Ok(Tracker::new(String::from_str(session_name))),
        }
    }

    fn not_started() -> (r: OutgoingMessage)
        ensures
            is_error_reply(r, not_started_text()),
    {
        OutgoingMessage::error(String::from_str("Tracker not started"))
    }

    /// Routes a tab event to the active tracker.
    pub fn handle_tab_operation(&mut self, op: TabOperation, data: TabActionData, now: u64) -> (r: OutgoingMessage)
        requires
            old(self).wf(),
        ensures
            final(self).wf(),
            final(self).waiting() == old(self).waiting(),
            tab_event_done(old(self).active(), final(self).active(), r, op, data, now),
    {
        match self.tracker.as_mut() {
            Some(tracker) => {
                let result = tracker.apply_tab_event(op, data.url.as_str(), data.tab_id, now);
                match result {
                    Ok(()) => OutgoingMessage::success(None),
                    Err(e) => {
                        let m = OutgoingMessage::error(e.message());
                        proof {
                            if let TrackerError::InvalidUrl(d) = e {
                                assert(m.error->0@ == "Invalid URL: "@ + d@);
                                if data.url@.len() == 0 {
                                    reveal_strlit("Invalid URL: ");
                                    reveal_strlit("Empty URL");
                                    reveal_strlit("Invalid URL: Empty URL");
                                    assert(m.error->0@ =~= "Invalid URL: Empty URL"@);
                                }
                            }
                        }
                        m
                    },
                }
            },
            None => Self::not_started(),
        }
    }

    /// Decides what to do with a request received at `now`.
    pub fn handle_message(&mut self, message: IncomingMessage, now: u64) -> (r: HostStep)
        requires
            old(self).wf(),
        ensures
            final(self).wf(),
            match message {
                IncomingMessage::TabFocused(d) => r matches HostStep::Reply(m) && tab_event_done(
                    old(self).active(),
                    final(self).active(),
                    m,
                    TabOperation::Focus,
                    d,
                    now,
                ) && final(self).waiting() == old(self).waiting(),
                IncomingMessage::TabUnfocused(d) => r matches HostStep::Reply(m) && tab_event_done(
                    old(self).active(),
                    final(self).active(),
                    m,
                    TabOperation::Unfocus,
                    d,
                    now,
                ) && final(self).waiting() == old(self).waiting(),
                IncomingMessage::TabClosed(d) => r matches HostStep::Reply(m) && tab_event_done(
                    old(self).active(),
                    final(self).active(),
                    m,
                    TabOperation::Close,
                    d,
                    now,
                ) && final(self).waiting() == old(self).waiting(),
                IncomingMessage::Ping => r matches HostStep::Reply(m) && m.success && m.data is None
                    && m.error is None && final(self).active() == old(self).active() && final(self).waiting()
                    == old(self).waiting(),
                IncomingMessage::GetActive => r matches HostStep::Reply(m) && m.success && m.error is None
                    && final(self).waiting() == old(self).waiting() && final(self).active()
                    == old(self).active() && (old(self).active() is None ==> m.data is None) && (old(
                    self,
                ).active() matches Some(t) ==> (m.data matches Some(ResponseData::ActiveSession(n)) && n@
                    == t.name())),
                IncomingMessage::GetData => final(self).waiting() == old(self).waiting() && match old(self).active() {
                    None => r matches HostStep::Reply(m) && is_error_reply(m, not_started_text())
                        && final(self).active() is None,
                    Some(t) => r matches HostStep::Reply(m) && m.success && m.error is None && (m.data matches Some(
                        ResponseData::Report(rows),
                    ) && is_report(rows@, t.view(), now)) && (final(self).active() matches Some(t2)
                        && t2.name() == t.name() && t2.view() == swept(t.view(), now)),
                },
                IncomingMessage::Start { session_name } => match old(self).active() {
                    Some(_) => r matches HostStep::Reply(m) && is_error_reply(m, already_started_text())
                        && final(self).active() == old(self).active() && final(self).waiting() == old(
                        self,
                    ).waiting(),
                    None => match name_problem(session_name@) {
                        Some(p) => r matches HostStep::Reply(m) && is_error_reply(
                            m,
                            "Invalid session name: "@ + p,
                        ) && final(self).active() is None && final(self).waiting() == old(self).waiting(),
                        None => r matches HostStep::Store(StoreRequest::Load(n)) && n@ == session_name@
                            && final(self).active() is None && (final(self).waiting() matches Some(
                            Pending::Start(w),
                        ) && w@ == session_name@),
                    },
                },
                IncomingMessage::Stop => match old(self).active() {
                    None => r matches HostStep::Reply(m) && is_error_reply(m, not_started_text())
                        && final(self).active() is None && final(self).waiting() == old(self).waiting(),
                    Some(t) => r matches HostStep::Store(StoreRequest::Save(s)) && s.session_name@ == t.name()
                        && keys_distinct(record_entries(s.data@)) && records_view(s.data@) == snapshot_of(
                        swept(t.view(), now),
                        false,
                    ) && (final(self).active() matches Some(t2) && t2.name() == t.name() && t2.view()
                        == swept(t.view(), now)) && final(self).waiting() matches Some(Pending::Stop),
                },
                IncomingMessage::GetSessions => r matches HostStep::Store(StoreRequest::List)
                    && final(self).active() == old(self).active() && final(self).waiting() matches Some(
                    Pending::List,
                ),
                IncomingMessage::DeleteSession { session_name } => r matches HostStep::Store(
                    StoreRequest::Delete(n),
                ) && n@ == session_name@ && final(self).active() == old(self).active()
                    && final(self).waiting() matches Some(Pending::Delete),
            },
    {
        match message {
            IncomingMessage::TabFocused(data) => HostStep::Reply(
                self.handle_tab_operation(TabOperation::Focus, data, now),
            ),
            IncomingMessage::TabUnfocused(data) => HostStep::Reply(
                self.handle_tab_operation(TabOperation::Unfocus, data, now),
            ),
            IncomingMessage::TabClosed(data) => HostStep::Reply(
                self.handle_tab_operation(TabOperation::Close, data, now),
            ),
            IncomingMessage::Start { session_name } => match self.try_start_action(session_name.as_str()) {
                Ok(()) => {
                    self.pending = Some(Pending::Start(String::from_str(session_name.as_str())));
                    HostStep::Store(StoreRequest::Load(session_name))
                },
                Err(e) => HostStep::Reply(OutgoingMessage::error(e)),
            },
            IncomingMessage::Stop => match self.tracker.as_mut() {
                Some(tracker) => {
                    let session = tracker.serialize_at(now, false);
                    self.pending = Some(Pending::Stop);
                    HostStep::Store(StoreRequest::Save(session))
                },
                None => HostStep::Reply(Self::not_started()),
            },
            IncomingMessage::GetActive => {
                let data = match self.active_session_name() {
                    Some(n) => Some(ResponseData::ActiveSession(n)),
                    None => None,
                };
                HostStep::Reply(OutgoingMessage::success(data))
            },
            IncomingMessage::GetData => match self.tracker.as_mut() {
                Some(tracker) => {
                    let rows = tracker.collect_tracking_data(now);
                    HostStep::Reply(OutgoingMessage::success(Some(ResponseData::Report(rows))))
                },
                None => HostStep::Reply(Self::not_started()),
            },
            IncomingMessage::Ping => HostStep::Reply(OutgoingMessage::success(None)),
            IncomingMessage::GetSessions => {
                self.pending = Some(Pending::List);
                HostStep::Store(StoreRequest::List)
            },
            IncomingMessage::DeleteSession { session_name } => {
                self.pending = Some(Pending::Delete);
                HostStep::Store(StoreRequest::Delete(session_name))
            },
        }
    }

    /// Finishes the request that waited for the session store, with what
    /// the store did.
    pub fn complete(&mut self, outcome: StoreOutcome) -> (r: OutgoingMessage)
        requires
            old(self).wf(),
        ensures
            final(self).wf(),
            final(self).waiting() is None,
            match old(self).waiting() {
                None => is_error_reply(r, nothing_pending_text()) && final(self).active() == old(self).active(),
                Some(Pending::Start(name)) => match outcome {
                    StoreOutcome::Loaded(None) => r.success && r.error is None && (final(self).active() matches Some(t)
                        && t.name() == name@ && t.view() == Map::<SegPath, NodeState>::empty()),
                    StoreOutcome::Loaded(Some(s)) => if s.session_name@ == name@ {
                        r.success && r.error is None && (final(self).active() matches Some(t) && t.name() == name@ && (records_wf(
                            s.data@,
                        ) ==> t.view() == restored_tree(s.data@, false)))
                    } else {
                        is_error_reply(
                            r,
                            "JSON serialization error: "@ + mismatch_text(name@, s.session_name@),
                        ) && final(self).active() == old(self).active()
                    },
                    StoreOutcome::Failed(e) => is_error_reply(r, e.text()) && final(self).active() == old(
                        self,
                    ).active(),
                    _ => !r.success && final(self).active() == old(self).active(),
                },
                Some(Pending::Stop) => match outcome {
                    StoreOutcome::Saved => r.success && r.error is None && r.data is None && final(self).active() is None,
                    StoreOutcome::Failed(e) => is_error_reply(r, e.text()) && final(self).active() == old(
                        self,
                    ).active(),
                    _ => !r.success && final(self).active() == old(self).active(),
                },
                Some(Pending::List) => final(self).active() == old(self).active() && match outcome {
                    StoreOutcome::Listed(files) => r.success && r.error is None && (r.data matches Some(
                        ResponseData::Sessions(names),
                    ) && names.deep_view().to_multiset() == session_names_of(files.deep_view()).to_multiset()
                        && sorted_texts(names.deep_view()) && (files.deep_view().no_duplicates()
                        ==> names.deep_view().no_duplicates())),
                    StoreOutcome::Failed(e) => is_error_reply(r, e.text()),
                    _ => !r.success,
                },
                Some(Pending::Delete) => final(self).active() == old(self).active() && match outcome {
                    StoreOutcome::Deleted => r.success && r.data is None && r.error is None,
                    StoreOutcome::Failed(e) => is_error_reply(r, e.text()),
                    _ => !r.success,
                },
            },
    {
        let pending = self.pending.take();
        match pending {
            None => OutgoingMessage::error(String::from_str("No store request is pending")),
            Some(Pending::Start(name)) => match outcome {
                StoreOutcome::Loaded(stored) => match self.create_or_load_tracker(name.as_str(), stored) {
                    Ok(t) => {
                        self.tracker = Some(t);
                        OutgoingMessage::success(None)
                    },
                    Err(e) => OutgoingMessage::error(e.message()),
                },
                StoreOutcome::Failed(e) => OutgoingMessage::error(e.message()),
                _ => Self::unexpected_outcome(),
            },
            Some(Pending::Stop) => match outcome {
                StoreOutcome::Saved => {
                    self.tracker = None;
                    OutgoingMessage::success(None)
                },
                StoreOutcome::Failed(e) => OutgoingMessage::error(e.message()),
                _ => Self::unexpected_outcome(),
            },
            Some(Pending::List) => match outcome {
                StoreOutcome::Listed(files) => {
                    let names = self.session_loader.list_sessions(&files);
                    OutgoingMessage::success(Some(ResponseData::Sessions(names)))
                },
                StoreOutcome::Failed(e) => OutgoingMessage::error(e.message()),
                _ => Self::unexpected_outcome(),
            },
            Some(Pending::Delete) => match outcome {
                StoreOutcome::Deleted => OutgoingMessage::success(None),
                StoreOutcome::Failed(e) => OutgoingMessage::error(e.message()),
                _ => Self::unexpected_outcome(),
            },
        }
    }

    fn unexpected_outcome() -> (r: OutgoingMessage)
        ensures
            !r.success,
    {
        OutgoingMessage::error(String::from_str("The session store answered another request"))
    }

    /// The stream closed: the active session, if any, is persisted without
    /// its instances and the host is left with none.
    pub fn on_stream_closed(&mut self, now: u64) -> (r: Option<SerializedSession>)
        requires
            old(self).wf(),
        ensures
            final(self).wf(),
            final(self).active() is None,
            r is Some <==> old(self).active() is Some,
            old(self).active() matches Some(t) ==> (r matches Some(s) && s.session_name@ == t.name()
                && keys_distinct(record_entries(s.data@)) && records_view(s.data@) == snapshot_of(
                swept(t.view(), now),
                false,
            )),
    {
        match self.tracker.take() {
            Some(mut t) => Some(t.serialize_at(now, false)),
            None => None,
        }
    }

    /// The process is interrupted: the active session, if any, is persisted
    /// with its instances and the host is left with none.
    pub fn on_interrupt(&mut self, now: u64) -> (r: Option<SerializedSession>)
        requires
            old(self).wf(),
        ensures
            final(self).wf(),
            final(self).active() is None,
            r is Some <==> old(self).active() is Some,
            old(self).active() matches Some(t) ==> (r matches Some(s) && s.session_name@ == t.name()
                && keys_distinct(record_entries(s.data@)) && records_view(s.data@) == snapshot_of(
                swept(t.view(), now),
                true,
            )),
    {
        match self.tracker.take() {
            Some(mut t) => Some(t.serialize_at(now, true)),
            None => None,
        }
    }
}

} // verus!
