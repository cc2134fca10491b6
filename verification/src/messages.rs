//! The request, response and error types exchanged with the dongle,
//! together with their spec-level images.

use vstd::prelude::*;

verus! {

/// A name/secret pair for provisioning a new credential on the dongle.
#[derive(Debug, Clone)]
pub struct NewCard {
    pub name: String,
    pub password: String,
}

/// Spec-level image of [`NewCard`].
pub struct NewCardV {
    pub name: Seq<char>,
    pub password: Seq<char>,
}

impl View for NewCard {
    type V = NewCardV;

    open spec fn view(&self) -> NewCardV {
        NewCardV { name: self.name@, password: self.password@ }
    }
}

/// A request the application sends to the dongle.
#[derive(Debug, Clone)]
pub enum DongleRequest {
    /// Ask for the stored credential descriptions and switch the board
    /// into reader mode.
    GetPasswordDescriptionsAndSwitchReader,
    /// Switch the board back to its main mode; fire-and-forget.
    BoardSwitchMain,
    /// Provision a new credential; the dongle confirms.
    NewCard(NewCard),
    /// Erase the credential store; fire-and-forget.
    ClearPasswords,
}

/// Spec-level image of [`DongleRequest`].
pub enum RequestV {
    GetPassDescs,
    BoardSwitchMain,
    NewCard(NewCardV),
    ClearPasswords,
}

impl View for DongleRequest {
    type V = RequestV;

    open spec fn view(&self) -> RequestV {
        match self {
            DongleRequest::GetPasswordDescriptionsAndSwitchReader => RequestV::GetPassDescs,
            DongleRequest::BoardSwitchMain => RequestV::BoardSwitchMain,
            DongleRequest::NewCard(card) => RequestV::NewCard(card@),
            DongleRequest::ClearPasswords => RequestV::ClearPasswords,
        }
    }
}

impl RequestV {
    /// Which request kinds the dongle answers with a reply frame.
    pub open spec fn expects_reply(self) -> bool {
        match self {
            RequestV::GetPassDescs => true,
            RequestV::NewCard(_) => true,
            RequestV::BoardSwitchMain => false,
            RequestV::ClearPasswords => false,
        }
    }
}

impl DongleRequest {
    /// Whether the dongle answers this request with a reply frame; requests
    /// for which this is false are fire-and-forget.
    pub fn has_response(&self) -> (r: bool)
        ensures
            r == self@.expects_reply(),
    {
        match self {
            DongleRequest::GetPasswordDescriptionsAndSwitchReader => true,
            DongleRequest::NewCard(_) => true,
            _ => false,
        }
    }
}

/// One stored credential as the dongle describes it: a display name and
/// the identifier of the tag it is bound to.
#[derive(Debug, Clone)]
pub struct PasswordLessCard {
    pub name: String,
    pub rfid: u64,
}

/// Spec-level image of [`PasswordLessCard`].
pub struct CardV {
    pub name: Seq<char>,
    pub rfid: u64,
}

impl View for PasswordLessCard {
    type V = CardV;

    open spec fn view(&self) -> CardV {
        CardV { name: self.name@, rfid: self.rfid }
    }
}

impl DeepView for PasswordLessCard {
    type V = CardV;

    open spec fn deep_view(&self) -> CardV {
        self.view()
    }
}

/// The dongle's listing of stored credential descriptions.
#[derive(Debug, Clone)]
pub struct PasswordDescriptions {
    pub descriptions: Vec<PasswordLessCard>,
}

impl View for PasswordDescriptions {
    type V = Seq<CardV>;

    open spec fn view(&self) -> Seq<CardV> {
        self.descriptions.deep_view()
    }
}

/// An unsolicited tag detection payload.
#[derive(Debug, Clone)]
pub struct RFID {
    pub rfid: u64,
}

impl View for RFID {
    type V = u64;

    open spec fn view(&self) -> u64 {
        self.rfid
    }
}

/// A response decoded from one dongle frame.
#[derive(Debug, Clone)]
pub enum DongleResponse {
    /// Answer to [`DongleRequest::GetPasswordDescriptionsAndSwitchReader`].
    SendPasswordDescriptions(PasswordDescriptions),
    /// A tag was held against the reader; arrives unsolicited.
    RFIDDetected(RFID),
    /// Answer to [`DongleRequest::NewCard`].
    ConfirmNewCard,
}

/// Spec-level image of [`DongleResponse`].
pub enum ResponseV {
    Descriptions(Seq<CardV>),
    Rfid(u64),
    ConfirmNewCard,
}

impl View for DongleResponse {
    type V = ResponseV;

    open spec fn view(&self) -> ResponseV {
        match self {
            DongleResponse::SendPasswordDescriptions(d) => ResponseV::Descriptions(d@),
            DongleResponse::RFIDDetected(r) => ResponseV::Rfid(r@),
            DongleResponse::ConfirmNewCard => ResponseV::ConfirmNewCard,
        }
    }
}

/// The failure kinds the session surfaces to its caller.
#[derive(Debug, Clone, PartialEq, Eq)]
pub enum KeyDotErrors {
    /// The named port could not be opened; fatal to starting a session.
    CouldNotOpenPort { error: String },
    /// A read from the port failed mid-session; fatal to the worker.
    NoPortConnection { error: String },
    /// Joining the previous worker failed; its fate is unknown.
    CouldNotStopSerialThread { error: String },
    /// One frame was not a well-formed response; recovered locally.
    UndigestableJson { error: String, json: String },
    /// A failure in the surrounding application plumbing.
    ServerError { error: String },
}

/// Spec-level image of [`KeyDotErrors`].
pub enum ErrorV {
    CouldNotOpenPort { error: Seq<char> },
    NoPortConnection { error: Seq<char> },
    CouldNotStopSerialThread { error: Seq<char> },
    UndigestableJson { error: Seq<char>, json: Seq<char> },
    ServerError { error: Seq<char> },
}

impl View for KeyDotErrors {
    type V = ErrorV;

    open spec fn view(&self) -> ErrorV {
        match self {
            KeyDotErrors::CouldNotOpenPort { error } => ErrorV::CouldNotOpenPort { error: error@ },
            KeyDotErrors::NoPortConnection { error } => ErrorV::NoPortConnection { error: error@ },
            KeyDotErrors::CouldNotStopSerialThread { error } => ErrorV::CouldNotStopSerialThread {
                error: error@,
            },
            KeyDotErrors::UndigestableJson { error, json } => ErrorV::UndigestableJson {
                error: error@,
                json: json@,
            },
            KeyDotErrors::ServerError { error } => ErrorV::ServerError { error: error@ },
        }
    }
}

} // verus!
