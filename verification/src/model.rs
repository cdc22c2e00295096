//! The data model of events, slots and participants, and the messages exchanged about them.
use vstd::prelude::*;
use crate::lang::Lang;

verus! {

/// A slot that participants are distributed into, with its quotas.
#[derive(Debug, Clone)]
pub struct Slot {
    pub name: String,
    pub vmin: u32,
    pub vmax: u32,
}

/// Where a participant stands in the mailing and wish process.
#[derive(Debug, Clone, Copy, PartialEq, Eq, Structural)]
pub enum ParticipantStatus {
    New,
    UpdatePending,
    MailError,
    Mailed,
    Visited,
    Done,
    Modified,
}

/// The numeric rank of a status.
pub open spec fn status_rank(s: ParticipantStatus) -> int {
    match s {
        ParticipantStatus::New => 0,
        ParticipantStatus::UpdatePending => 10,
        ParticipantStatus::MailError => -10,
        ParticipantStatus::Mailed => 20,
        ParticipantStatus::Visited => 30,
        ParticipantStatus::Done => 35,
        ParticipantStatus::Modified => 40,
    }
}

/// The text shown for a status.
pub open spec fn status_label(s: ParticipantStatus) -> Seq<char> {
    match s {
        ParticipantStatus::New => "mail not sent"@,
        ParticipantStatus::UpdatePending => "update mail not sent"@,
        ParticipantStatus::MailError => "mail error"@,
        ParticipantStatus::Mailed => "mail sent, no activity"@,
        ParticipantStatus::Visited => "visited wish page"@,
        ParticipantStatus::Done => "completed wishes"@,
        ParticipantStatus::Modified => "modified wishes"@,
    }
}

/// Whether a participant in this status has still to fill their wishes.
pub open spec fn status_needs_reminder(s: ParticipantStatus) -> bool {
    match s {
        ParticipantStatus::Done | ParticipantStatus::Modified => false,
        _ => true,
    }
}

impl Default for ParticipantStatus {
    fn default() -> (r: ParticipantStatus)
        ensures
            r == ParticipantStatus::New,
    {
        ParticipantStatus::New
    }
}

impl ParticipantStatus {
    pub fn as_i32(self) -> (r: i32)
        ensures
            r == status_rank(self),
    {
        match self {
            ParticipantStatus::New => 0,
            ParticipantStatus::UpdatePending => 10,
            ParticipantStatus::MailError => -10,
            ParticipantStatus::Mailed => 20,
            ParticipantStatus::Visited => 30,
            ParticipantStatus::Done => 35,
            ParticipantStatus::Modified => 40,
        }
    }

    pub fn label(self) -> (r: &'static str)
        ensures
            r@ == status_label(self),
    {
        match self {
            ParticipantStatus::New => "mail not sent",
            ParticipantStatus::UpdatePending => "update mail not sent",
            ParticipantStatus::MailError => "mail error",
            ParticipantStatus::Mailed => "mail sent, no activity",
            ParticipantStatus::Visited => "visited wish page",
            ParticipantStatus::Done => "completed wishes",
            ParticipantStatus::Modified => "modified wishes",
        }
    }

    /// Whether this participant still needs to fill their wishes.
    pub fn needs_reminder(self) -> (r: bool)
        ensures
            r == status_needs_reminder(self),
    {
        match self {
            ParticipantStatus::New | ParticipantStatus::UpdatePending | ParticipantStatus::MailError
            | ParticipantStatus::Mailed | ParticipantStatus::Visited => true,
            ParticipantStatus::Done | ParticipantStatus::Modified => false,
        }
    }
}

/// A participant of an event, with one wish value per slot.
#[derive(Debug, Clone)]
pub struct Participant {
    pub id: String,
    pub mail: String,
    pub wish: Vec<i32>,
    pub event: String,
    pub status: ParticipantStatus,
}

/// The mail templates of an event.
#[derive(Debug, Clone)]
pub struct EmailTemplates {
    pub invite: String,
    pub update: String,
    pub reminder: String,
    pub results: String,
}

/// An event: its slots, its participants (by id) and its mail templates.
#[derive(Debug, Clone)]
pub struct Event {
    pub id: String,
    pub name: String,
    pub admin_mail: String,
    pub slots: Vec<Slot>,
    pub url: String,
    pub participants: Vec<String>,
    pub creation_time: i64,
    pub templates: EmailTemplates,
}

#[derive(Debug, Clone)]
pub struct CreateEventRequest {
    pub name: String,
    pub admin_mail: String,
    pub mails: Vec<String>,
    pub slots: Vec<Slot>,
    pub lang: Lang,
}

#[derive(Debug, Clone)]
pub struct CreateEventResponse {
    pub event_id: String,
}

#[derive(Debug, Clone)]
pub struct AdminData {
    pub name: String,
    pub slots: Vec<Slot>,
    pub participants: Vec<Participant>,
    pub templates: EmailTemplates,
}

#[derive(Debug, Clone)]
pub struct SetDataRequest {
    pub slots: Vec<Slot>,
    pub participants: Vec<ParticipantInput>,
    pub send_mails: bool,
    pub templates: EmailTemplates,
}

#[derive(Debug, Clone)]
pub struct ParticipantInput {
    pub mail: String,
    pub wish: Vec<i32>,
}

#[derive(Debug, Clone)]
pub struct WishData {
    pub name: String,
    pub mail: String,
    pub slots: Vec<Slot>,
    pub wish: Vec<i32>,
}

#[derive(Debug, Clone)]
pub struct SetWishRequest {
    pub wish: Vec<i32>,
}

#[derive(Debug, Clone)]
pub struct SendResultsRequest {
    pub results: Vec<ResultEntry>,
}

/// The slot a participant was put in.
#[derive(Debug, Clone)]
pub struct ResultEntry {
    pub mail: String,
    pub slot: String,
}

#[derive(Debug, Clone)]
pub struct HistoryRequest {
    pub password: String,
}

#[derive(Debug, Clone)]
pub struct HistoryEntry {
    pub id: String,
    pub name: String,
    pub admin_mail: String,
    pub num_participants: usize,
    pub creation_time: i64,
}

#[derive(Debug, Clone)]
pub struct SendMailsResponse {
    pub total: usize,
}

#[derive(Debug, Clone)]
pub struct DebugEmailRequest {
    pub password: String,
    pub to: String,
    pub subject: String,
    pub html: String,
    pub text: String,
}

/// Messages pushed to the administrator's page.
#[derive(Debug, Clone)]
pub enum WsMsg {
    NewWish { mail: String },
    MailProgress { sent: usize, total: usize, mail: String, error: Option<String> },
    Feedback { title: String, html: String, msg_type: String },
}

/// Server settings.
#[derive(Debug, Clone)]
pub struct Config {
    pub port: u16,
    pub history_password: String,
    pub base_url: String,
}

} // verus!
