//! Interpreting resolved replies for the caller-facing commands.
//!
//! The surrounding application submits a request, awaits its reply
//! slot, and hands the decoded response here to be checked against
//! what the command expected.

use vstd::prelude::*;
use vstd::string::StringExecFns;
use crate::messages::{DongleResponse, KeyDotErrors, PasswordDescriptions, ResponseV, ErrorV};

verus! {

/// The answer a credential listing command expects: exactly a
/// descriptions payload.
pub fn cards_from_reply(response: DongleResponse) -> (r: Result<
    PasswordDescriptions,
    KeyDotErrors,
>)
    ensures
        (response@ matches ResponseV::Descriptions(cards) ==> (r matches Ok(d) && d@ == cards)),
        (!(response@ is Descriptions) ==> (r matches Err(e) && e@ == (ErrorV::ServerError {
            error: "Did not get password payload"@,
        }))),
{
    match response {
        DongleResponse::SendPasswordDescriptions(d) => Ok(d),
        _ => Err(
            KeyDotErrors::ServerError {
                error: String::from_str("Did not get password payload"),
            },
        ),
    }
}

/// The answer a provisioning command expects: exactly the
/// confirmation.
pub fn confirm_new_card_reply(response: DongleResponse) -> (r: Result<(), KeyDotErrors>)
    ensures
        (response@ is ConfirmNewCard ==> r is Ok),
        (!(response@ is ConfirmNewCard) ==> (r matches Err(e) && e@ == (ErrorV::ServerError {
            error: "Did not get new card confirmation"@,
        }))),
{
    match response {
        DongleResponse::ConfirmNewCard => Ok(()),
        _ => Err(
            KeyDotErrors::ServerError {
                error: String::from_str("Did not get new card confirmation"),
            },
        ),
    }
}

} // verus!
