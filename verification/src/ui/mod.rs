//! What the client tells the user interface, what the user interface asks of
//! the client, and the bookkeeping of one shown message.
pub mod views;

use vstd::prelude::*;

use crate::addr::PeerAddr;
use vstd::string::StringExecFns;

verus! {

/// What happened on the network, for the user interface to show.
#[derive(Debug)]
pub enum Event {
    UserConnected { at: PeerAddr, username: Option<String> },
    UserDisconnected { at: PeerAddr, username: Option<String> },
    UpdateUserName { at: PeerAddr, new_username: String },
    NewMessage { at: PeerAddr, username: Option<String>, message: String },
}

/// What the user asked for.
#[derive(Debug)]
pub enum Request {
    SendMessage { body: String },
    ChangeName { name: String },
}

/// What an earlier user interface was told: users by name only.
#[derive(Debug)]
pub enum TuiMessage {
    UserConnected { username: String },
    UserDisconnected { username: String },
    NewMessage { username: String, message: String },
}

/// The name under which a user is shown: the name it said, or else where it
/// is connected from.
pub fn display_name(username: &Option<String>, at: &String) -> (r: String)
    ensures
        r@ == match username {
            Some(name) => name@,
            None => at@,
        },
{
    match username {
        Some(name) => name.clone(),
        None => at.clone(),
    }
}

/// The entry of a user in the list of users: its name, `@`, and where it is
/// connected from.
pub fn user_entry(name: &String, at: &String) -> (r: String)
    ensures
        r@ == name@ + seq!['@'] + at@,
{
    let mut r = name.clone();
    r.append("@");
    proof {
        reveal_strlit("@");
    }
    r.append(at.as_str());
    r
}

/// The notice that a user connected.
pub fn connected_notice(name: &String) -> (r: String)
    ensures
        r@ == "user "@ + name@ + " connected"@,
{
    let mut r = String::from_str("user ");
    r.append(name.as_str());
    r.append(" connected");
    r
}

/// The notice that a user went away.
pub fn disconnected_notice(name: &String) -> (r: String)
    ensures
        r@ == "user "@ + name@ + " disconnected"@,
{
    let mut r = String::from_str("user ");
    r.append(name.as_str());
    r.append(" disconnected");
    r
}

} // verus!
