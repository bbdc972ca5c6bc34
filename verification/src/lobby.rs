use vstd::prelude::*;
use vstd::arithmetic::power::pow;

use crate::game::fresh_id;
use crate::game_type::GameType;
use crate::input::Input;
use crate::player::{Player, PlayerView};
use crate::rules::{Rules, RulesEnum};
use crate::rules::five_card_draw::FiveCardDraw;
use crate::rules::seven_card_stud::SevenCardStud;
use crate::rules::texas_holdem::TexasHoldem;
use crate::rules::table::views;
use crate::rules::round::{players_given_back, error_of};
use crate::server::http_requests::{LobbyInfo, LobbyListItem, LobbyUserInfo};

verus! {

/// Whether a lobby is gathering users or playing.
#[derive(Debug, Clone, Copy, PartialEq, Eq, Structural)]
pub enum LobbyStatus {
    InLobby,
    InGame,
}

/// The character of the hexadecimal digit `d` (0 to 15), lower case.
pub open spec fn hex_char(d: int) -> char {
    if d < 10 {
        (48 + d) as char
    } else {
        (87 + d) as char
    }
}

/// The 32 lower-case hexadecimal digits of `id`, the most significant first.
pub open spec fn simple_text(id: u128) -> Seq<char> {
    Seq::new(32, |k: int| hex_char((id as int / pow(16, (31 - k) as nat)) % 16))
}

/// The name a lobby gives a user's player: `uuid::Uuid::from_u128(id).simple().to_string()`.
/// The crate writes the 16 big-endian bytes of the ID as two hexadecimal digits each, `a`
/// to `f` for ten to fifteen: the 32 digits of `id`, most significant first.
#[verifier::external_body]
fn simple_name(id: u128) -> (s: String)
    ensures
        s@ == simple_text(id),
{
    uuid::Uuid::from_u128(id).simple().to_string()
}

/// The balance each player of a lobby starts a game with.
pub const STARTING_BALANCE: usize = 1000;

/// The players that a lobby's users play as: one per user, in order, named by the user's ID,
/// with the starting balance and no cards.
pub open spec fn players_of_users(users: Seq<u128>) -> Seq<PlayerView> {
    Seq::new(users.len(), |k: int| PlayerView {
        account_id: users[k],
        name: simple_text(users[k]),
        balance: STARTING_BALANCE as nat,
        cards: Seq::empty(),
    })
}

/// Some player of `active` has the account `user`.
pub open spec fn is_active(active: Seq<PlayerView>, user: u128) -> bool {
    exists|j: int| 0 <= j < active.len() && (#[trigger] active[j]).account_id == user
}

/// Where `id` stands in `users`, when it does.
pub open spec fn position(users: Seq<u128>, id: u128) -> int {
    choose|i: int| 0 <= i < users.len() && users[i] == id
}

/// The first position of `id` in `users`, if it occurs.
fn position_of(users: &Vec<u128>, id: u128) -> (r: Option<usize>)
    ensures
        r is None <==> !users@.contains(id),
        r matches Some(i) ==> i < users@.len() && users@[i as int] == id,
{
    let mut i: usize = 0;
    while i < users.len()
        invariant
            i <= users@.len(),
            forall|j: int| 0 <= j < i ==> users@[j] != id,
        decreases users@.len() - i,
    {
        if users[i] == id {
            return Some(i);
        }
        i = i + 1;
    }
    None
}

/// A lobby where users gather to play a game of one poker variant.
pub struct Lobby<I: Input> {
    id: u32,
    status: LobbyStatus,
    users: Vec<u128>,
    active_players: Vec<Player>,
    rules: RulesEnum<I>,
}

/// What a lobby is: its ID, its status, its users (each once), the players of its last game,
/// and the game type of its rules.
pub struct LobbyView {
    pub id: u32,
    pub status: LobbyStatus,
    pub users: Seq<u128>,
    pub active_players: Seq<PlayerView>,
    pub game_type: GameType,
}

impl<I: Input> View for Lobby<I> {
    type V = LobbyView;

    closed spec fn view(&self) -> LobbyView {
        LobbyView {
            id: self.id,
            status: self.status,
            users: self.users@,
            active_players: views(self.active_players@),
            game_type: match self.rules {
                RulesEnum::FiveCardDraw(_) => GameType::FiveCardDraw,
                RulesEnum::SevenCardStud(_) => GameType::SevenCardStud,
                RulesEnum::TexasHoldem(_) => GameType::TexasHoldem,
            },
        }
    }
}

impl<I: Input> Lobby<I> {
    /// The lobby's rules.
    pub closed spec fn game_rules(&self) -> RulesEnum<I> {
        self.rules
    }

    /// The lobby is consistent: no user is in it twice, and its rules are consistent.
    pub closed spec fn wf(&self) -> bool {
        &&& self.users@.no_duplicates()
        &&& self.rules.wf()
    }

    /// A new lobby, gathering users for the game type, whose rules have a raise limit of 1000,
    /// a minimum bet of 1 and a fresh game ID.
    pub fn new(id: u32, game_type: GameType) -> (l: Lobby<I>)
        ensures
            l.wf(),
            l@ == (LobbyView {
                id,
                status: LobbyStatus::InLobby,
                users: Seq::empty(),
                active_players: Seq::empty(),
                game_type,
            }),
    {
        let rules = match game_type {
            GameType::FiveCardDraw => RulesEnum::FiveCardDraw(FiveCardDraw::new(1000, 1, fresh_id())),
            GameType::SevenCardStud => RulesEnum::SevenCardStud(SevenCardStud::new(1000, 1, fresh_id())),
            GameType::TexasHoldem => RulesEnum::TexasHoldem(TexasHoldem::new(1000, 1, fresh_id())),
        };
        let l = Lobby { id, status: LobbyStatus::InLobby, users: Vec::new(), active_players: Vec::new(), rules };
        assert(l@.users =~= Seq::<u128>::empty());
        assert(l@.active_players =~= Seq::<PlayerView>::empty());
        l
    }

    /// Starts a game: each user joins as a player named by their ID with the starting
    /// balance, the lobby goes in game, and the players play a round by the lobby's rules
    /// (see `Rules::round_played`). The active players are the players as they joined; what
    /// the round gives back is not kept.
    #[verifier::rlimit(50)]
    #[verifier::spinoff_prover]
    pub fn start_game(&mut self)
        requires
            old(self).wf(),
        ensures
            final(self).wf(),
            final(self)@ == (LobbyView {
                status: LobbyStatus::InGame,
                active_players: players_of_users(old(self)@.users),
                ..old(self)@
            }),
            exists|back: Seq<PlayerView>, err: Option<&'static str>|
                RulesEnum::round_played(
                    old(self).game_rules(),
                    final(self).game_rules(),
                    players_of_users(old(self)@.users),
                    back,
                    err,
                ),
    {
        self.active_players.clear();
        let mut players: Vec<Player> = Vec::new();
        let mut k: usize = 0;
        while k < self.users.len()
            invariant
                k <= self.users@.len(),
                self.users@ == old(self).users@,
                self.rules == old(self).rules,
                self.status == old(self).status,
                self.id == old(self).id,
                views(self.active_players@) =~= players_of_users(self.users@).subrange(0, k as int),
                views(players@) =~= players_of_users(self.users@).subrange(0, k as int),
            decreases self.users@.len() - k,
        {
            let user = self.users[k];
            let player = Player::new(user, simple_name(user), STARTING_BALANCE);
            let same = Player::new(user, simple_name(user), STARTING_BALANCE);
            let ghost before = self.active_players@;
            let ghost before_players = players@;
            self.active_players.push(player);
            players.push(same);
            proof {
                assert(self.active_players@ == before.push(player));
                assert(views(self.active_players@) =~= views(before).push(player@));
                assert(views(players@) =~= views(before_players).push(same@));
                assert(player@ == players_of_users(self.users@)[k as int]);
                assert(same@ == players_of_users(self.users@)[k as int]);
                assert(views(self.active_players@) =~= players_of_users(self.users@).subrange(0, k + 1));
                assert(views(players@) =~= players_of_users(self.users@).subrange(0, k + 1));
            }
            k = k + 1;
        }
        self.status = LobbyStatus::InGame;
        proof {
            assert(players_of_users(self.users@).subrange(0, self.users@.len() as int) =~= players_of_users(
                self.users@,
            ));
        }
        let ghost before = self.rules;
        let ghost given = views(players@);
        let r = match &mut self.rules {
            RulesEnum::FiveCardDraw(rules) => rules.play_round(players),
            RulesEnum::SevenCardStud(rules) => rules.play_round(players),
            RulesEnum::TexasHoldem(rules) => rules.play_round(players),
        };
        proof {
            assert(given == players_of_users(old(self)@.users));
            assert(RulesEnum::round_played(before, self.rules, given, players_given_back(r), error_of(r)));
        }
    }

    /// The lobby's status.
    pub fn status(&self) -> (s: LobbyStatus)
        ensures
            s == self@.status,
    {
        self.status
    }

    /// How many users are in the lobby, as 32 bits.
    pub fn count_users(&self) -> (n: u32)
        ensures
            n == self@.users.len() as u32,
    {
        #[verifier::truncate]
        (self.users.len() as u32)
    }

    /// The lobby's rules.
    pub fn rules(&self) -> (r: &RulesEnum<I>)
        ensures
            self.wf() ==> r.wf(),
            *r == self.game_rules(),
            *r is FiveCardDraw <==> self@.game_type == GameType::FiveCardDraw,
            *r is SevenCardStud <==> self@.game_type == GameType::SevenCardStud,
            *r is TexasHoldem <==> self@.game_type == GameType::TexasHoldem,
    {
        &self.rules
    }

    /// Adds the user to the lobby. Ok(()) if the user joined, last; Err(()) if the user is
    /// already in the lobby, which then stays as it is.
    pub fn join_user(&mut self, user_id: u128) -> (r: Result<(), ()>)
        requires
            old(self).wf(),
        ensures
            final(self).wf(),
            r is Err <==> old(self)@.users.contains(user_id),
            r is Err ==> final(self)@ == old(self)@,
            r is Ok ==> final(self)@ == (LobbyView { users: old(self)@.users.push(user_id), ..old(self)@ }),
    {
        match self.get_user(user_id) {
            Some(_) => Err(()),
            None => {
                self.users.push(user_id);
                proof {
                    assert forall|a: int, b: int| 0 <= a < b < self.users@.len() implies self.users@[a] != self.users@[b] by {
                        if b == self.users@.len() - 1 {
                            assert(!old(self)@.users.contains(user_id));
                            assert(old(self)@.users[a] == self.users@[a]);
                        } else {
                            assert(old(self).users@[a] == self.users@[a]);
                            assert(old(self).users@[b] == self.users@[b]);
                        }
                    }
                }
                Ok(())
            },
        }
    }

    /// Removes the user from the lobby. Ok(()) if the user left, the others keeping their
    /// order; Err(()) if the user is not in the lobby, which then stays as it is.
    pub fn leave_user(&mut self, user_id: u128) -> (r: Result<(), ()>)
        requires
            old(self).wf(),
        ensures
            final(self).wf(),
            r is Err <==> !old(self)@.users.contains(user_id),
            r is Err ==> final(self)@ == old(self)@,
            r is Ok ==> final(self)@ == (LobbyView {
                users: old(self)@.users.remove(position(old(self)@.users, user_id)),
                ..old(self)@
            }),
            r is Ok ==> !final(self)@.users.contains(user_id),
    {
        match position_of(&self.users, user_id) {
            None => Err(()),
            Some(i) => {
                let ghost u = self.users@;
                proof {
                    let k = position(u, user_id);
                    assert(u[k] == user_id);
                    assert(k == i) by {
                        if k != i {
                            assert(u[i as int] == user_id);
                        }
                    }
                }
                let _ = self.users.remove(i);
                proof {
                    assert(self.users@ == u.remove(i as int));
                    assert forall|a: int, b: int| 0 <= a < b < self.users@.len() implies self.users@[a] != self.users@[b] by {
                        let a0 = if a < i { a } else { a + 1 };
                        let b0 = if b < i { b } else { b + 1 };
                        assert(self.users@[a] == u[a0]);
                        assert(self.users@[b] == u[b0]);
                    }
                    assert forall|j: int| 0 <= j < self.users@.len() implies self.users@[j] != user_id by {
                        let j0 = if j < i { j } else { j + 1 };
                        assert(self.users@[j] == u[j0]);
                        assert(u[i as int] == user_id);
                    }
                }
                Ok(())
            },
        }
    }

    /// The lobby's ID.
    pub fn id(&self) -> (i: u32)
        ensures
            i == self@.id,
    {
        self.id
    }

    /// The user with this ID, if they are in the lobby.
    pub fn get_user(&self, user_id: u128) -> (r: Option<&u128>)
        ensures
            r is Some <==> self@.users.contains(user_id),
            r matches Some(u) ==> *u == user_id,
    {
        match position_of(&self.users, user_id) {
            Some(i) => Some(&self.users[i]),
            None => None,
        }
    }

    /// The users in the lobby, in the order they joined.
    pub fn users(&self) -> (u: &Vec<u128>)
        ensures
            u@ == self@.users,
    {
        &self.users
    }

    /// The players of the lobby's last game.
    pub fn active_players(&self) -> (p: &Vec<Player>)
        ensures
            views(p@) == self@.active_players,
    {
        &self.active_players
    }

    /// The game type of the lobby's rules.
    pub fn game_type(&self) -> (g: GameType)
        ensures
            g == self@.game_type,
    {
        match self.rules {
            RulesEnum::FiveCardDraw(_) => GameType::FiveCardDraw,
            RulesEnum::SevenCardStud(_) => GameType::SevenCardStud,
            RulesEnum::TexasHoldem(_) => GameType::TexasHoldem,
        }
    }

    /// The lobby as the list of lobbies shows it.
    pub fn list_item(&self) -> (item: LobbyListItem)
        ensures
            item.lobby_id == self@.id,
            item.status == self@.status,
            item.user_count == self@.users.len() as u32,
            item.game_type == self@.game_type,
    {
        LobbyListItem {
            lobby_id: self.id(),
            status: self.status(),
            user_count: self.count_users(),
            game_type: self.game_type(),
        }
    }

    /// The information about the lobby: each user in order, named by their ID, and whether
    /// they play in the lobby's game.
    pub fn info(&self) -> (info: LobbyInfo)
        ensures
            info.lobby_id == self@.id,
            info.status == self@.status,
            info.game_type == self@.game_type,
            info.users@.len() == self@.users.len(),
            forall|k: int| 0 <= k < self@.users.len() ==> (#[trigger] info.users@[k]).user_id@ == simple_text(self@.users[k])
                && info.users@[k].is_active == is_active(self@.active_players, self@.users[k]),
    {
        let ghost active = self@.active_players;
        let mut user_infos: Vec<LobbyUserInfo> = Vec::new();
        let mut k: usize = 0;
        while k < self.users.len()
            invariant
                k <= self.users@.len(),
                active == views(self.active_players@),
                user_infos@.len() == k,
                forall|i: int| 0 <= i < k ==> (#[trigger] user_infos@[i]).user_id@ == simple_text(self.users@[i])
                    && user_infos@[i].is_active == is_active(active, self.users@[i]),
            decreases self.users@.len() - k,
        {
            let user = self.users[k];
            let mut is_active = false;
            let mut j: usize = 0;
            while j < self.active_players.len()
                invariant
                    j <= self.active_players@.len(),
                    active == views(self.active_players@),
                    is_active <==> exists|a: int| 0 <= a < j && (#[trigger] active[a]).account_id == user,
                decreases self.active_players@.len() - j,
            {
                assert(active[j as int] == self.active_players@[j as int]@);
                if self.active_players[j].account_id() == user {
                    is_active = true;
                }
                j = j + 1;
            }
            user_infos.push(LobbyUserInfo { user_id: simple_name(user), is_active });
            k = k + 1;
        }
        LobbyInfo { lobby_id: self.id, status: self.status, users: user_infos, game_type: self.game_type() }
    }
}

/// A user who joins a lobby and then leaves it leaves the lobby's users as they were.
pub proof fn lemma_join_then_leave(users: Seq<u128>, user_id: u128)
    requires
        users.no_duplicates(),
        !users.contains(user_id),
    ensures
        users.push(user_id).contains(user_id),
        users.push(user_id).remove(position(users.push(user_id), user_id)) == users,
{
    let joined = users.push(user_id);
    assert(joined[users.len() as int] == user_id);
    let k = position(joined, user_id);
    assert(k == users.len()) by {
        if k < users.len() {
            assert(joined[k] == users[k]);
        }
    }
    assert(joined.remove(k) =~= users);
}

} // verus!
