use vstd::prelude::*;

use crate::game_type::GameType;
use crate::lobby::LobbyStatus;

verus! {

/// A login attempt: the account ID as text.
#[derive(Debug, Clone)]
pub struct LoginAttempt {
    pub uuid: String,
}

/// A lobby as the list of lobbies shows it.
#[derive(Debug, Clone)]
pub struct LobbyListItem {
    pub lobby_id: u32,
    pub status: LobbyStatus,
    pub user_count: u32,
    pub game_type: GameType,
}

/// What a user asks of the lobbies.
#[derive(Debug, Clone, Copy, PartialEq, Eq, Structural)]
pub enum LobbyActionType {
    Create,
    Join,
    Leave,
    Start,
}

/// A user's request about a lobby: the lobby, what to do, the user's ID as text, and the
/// game type of a lobby to create.
#[derive(Debug, Clone)]
pub struct LobbyAction {
    pub lobby_id: u32,
    pub action_type: LobbyActionType,
    pub user_id: String,
    pub game_type: GameType,
}

/// A user of a lobby as the lobby's information shows it: the user's ID as text, and
/// whether the user plays in the lobby's game.
#[derive(Debug, Clone)]
pub struct LobbyUserInfo {
    pub user_id: String,
    pub is_active: bool,
}

/// The information about one lobby: its ID, its status, its users and its game type.
#[derive(Debug, Clone)]
pub struct LobbyInfo {
    pub lobby_id: u32,
    pub status: LobbyStatus,
    pub users: Vec<LobbyUserInfo>,
    pub game_type: GameType,
}

} // verus!
