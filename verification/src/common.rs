//! Session-wide state: the overall application mode and the login form's
//! fields, read by the connection lifecycle at connection time.

use vstd::prelude::*;

verus! {

/// The process-wide application mode.  It drives which per-tick loops are
/// active: admission, inbound and heartbeat run only in `Lobby`.
#[derive(Clone, Copy, Debug, PartialEq, Eq, Hash, Structural)]
pub enum GameState {
    /// The login form is shown; nothing polls the network.
    Login,
    /// The transport is being established in the background.
    Connecting,
    /// The session is live: peers are admitted, messages flow.
    Lobby,
}

impl GameState {
    /// The transition taken when the user submits the login form:
    /// `Login` moves to `Connecting`; any other mode is unchanged.
    pub fn on_login_submitted(self) -> (r: GameState)
        ensures
            r == (if self is Login { GameState::Connecting } else { self }),
    {
        match self {
            GameState::Login => GameState::Connecting,
            _ => self,
        }
    }

    /// The transition taken when the transport reports that the connection
    /// is established: `Connecting` moves to `Lobby`; any other mode is
    /// unchanged.
    pub fn on_connection_established(self) -> (r: GameState)
        ensures
            r == (if self is Connecting { GameState::Lobby } else { self }),
    {
        match self {
            GameState::Connecting => GameState::Lobby,
            _ => self,
        }
    }
}

/// The login form's fields: a display name and the room to join.  The room
/// name becomes the rendezvous key of the connection (see
/// [`crate::network::room_url`]); the display name is presentation only.
pub struct LoginState {
    pub name: String,
    pub room: String,
}

impl LoginState {
    /// A login state with the given fields.
    pub fn new(name: String, room: String) -> (r: LoginState)
        ensures
            r.name@ == name@,
            r.room@ == room@,
    {
        LoginState { name, room }
    }
}

} // verus!
