use vstd::prelude::*;
use vstd::string::StringExecFns;

use crate::enums::{Action, CellType};
use crate::json::{json_quoted, json_string};
use crate::models::{copy_player, Bomb, Field, GameState, Player, Position};
use crate::text::str_equal;

verus! {

/// Where the client connects when no address is configured.
pub const DEFAULT_WS_URL: &'static str = "ws://localhost:8038/ws";

/// The token the client presents when none is configured.
pub const DEFAULT_TOKEN: &'static str = "dev-token-local";

/// The kinds of message the server sends.
#[derive(Debug, Clone, Copy, PartialEq, Eq, Structural)]
pub enum MessageKind {
    Welcome,
    BackToLobby,
    UpdateLobby,
    ServerError,
    ClassicState,
    GameStart,
    Other,
}

/// The kind of a message whose `type` field is `t`.
pub open spec fn kind_of(t: Seq<char>) -> MessageKind {
    if t == "welcome"@ {
        MessageKind::Welcome
    } else if t == "back_to_lobby"@ {
        MessageKind::BackToLobby
    } else if t == "update_lobby"@ {
        MessageKind::UpdateLobby
    } else if t == "error"@ {
        MessageKind::ServerError
    } else if t == "classic_state"@ {
        MessageKind::ClassicState
    } else if t == "game_start"@ {
        MessageKind::GameStart
    } else {
        MessageKind::Other
    }
}

/// The kind of a message whose `type` field is `msg_type`.
pub fn message_kind(msg_type: &str) -> (k: MessageKind)
    ensures
        k == kind_of(msg_type@),
{
    if str_equal(msg_type, "welcome") {
        MessageKind::Welcome
    } else if str_equal(msg_type, "back_to_lobby") {
        MessageKind::BackToLobby
    } else if str_equal(msg_type, "update_lobby") {
        MessageKind::UpdateLobby
    } else if str_equal(msg_type, "error") {
        MessageKind::ServerError
    } else if str_equal(msg_type, "classic_state") {
        MessageKind::ClassicState
    } else if str_equal(msg_type, "game_start") {
        MessageKind::GameStart
    } else {
        MessageKind::Other
    }
}

/// The server address: the configured one, else the default.
pub fn choose_ws_url(configured: Option<String>) -> (url: String)
    ensures
        url@ == match configured {
            Some(u) => u@,
            None => DEFAULT_WS_URL@,
        },
{
    match configured {
        Some(u) => u,
        None => String::from_str(DEFAULT_WS_URL),
    }
}

/// The token: the primary setting, else the fallback setting, else the default.
pub fn choose_token(primary: Option<String>, fallback: Option<String>) -> (token: String)
    ensures
        token@ == match primary {
            Some(t) => t@,
            None => match fallback {
                Some(t) => t@,
                None => DEFAULT_TOKEN@,
            },
        },
{
    match primary {
        Some(t) => t,
        None => match fallback {
            Some(t) => t,
            None => String::from_str(DEFAULT_TOKEN),
        },
    }
}

/// The value of the `Authorization` header for `token`.
pub fn bearer(token: &str) -> (value: String)
    ensures
        value@ == "Bearer "@ + token@,
{
    let mut v = String::from_str("Bearer ");
    v.append(token);
    v
}

/// The message that marks the player ready, carrying the token when given.
pub open spec fn ready_text(token: Option<Seq<char>>) -> Seq<char> {
    match token {
        Some(t) => "{\"type\":\"player_status_update\",\"payload\":{\"isReady\":true,\"authToken\":"@
            + json_quoted(t) + "}}"@,
        None => "{\"type\":\"player_status_update\",\"payload\":{\"isReady\":true}}"@,
    }
}

/// The message that marks the player ready, carrying the token when given.
pub fn ready_message(token: Option<&str>) -> (text: String)
    ensures
        text@ == ready_text(
            match token {
                Some(t) => Some(t@),
                None => None,
            },
        ),
{
    match token {
        Some(t) => {
            let mut m = String::from_str(
                "{\"type\":\"player_status_update\",\"payload\":{\"isReady\":true,\"authToken\":",
            );
            let quoted = json_string(t);
            m.append(quoted.as_str());
            m.append("}}");
            m
        },
        None => String::from_str("{\"type\":\"player_status_update\",\"payload\":{\"isReady\":true}}"),
    }
}

/// The message that sends `action` for this tick.
pub open spec fn action_text(action: Action) -> Seq<char> {
    "{\"type\":\"classic_input\",\"payload\":{\"move\":\""@ + action.wire_text() + "\"}}"@
}

/// The message that sends `action` for this tick.
pub fn action_message(action: Action) -> (text: String)
    ensures
        text@ == action_text(action),
{
    let mut m = String::from_str("{\"type\":\"classic_input\",\"payload\":{\"move\":\"");
    m.append(action.wire_name());
    m.append("\"}}");
    m
}

/// The state of one tick as the server sends it.
pub struct ClassicState {
    pub players: Vec<Player>,
    pub width: i32,
    pub height: i32,
    pub cells: Vec<CellType>,
    pub bombs: Vec<Bomb>,
    pub explosions: Vec<Position>,
}

/// `cells` cut or padded with air to `n` squares.
pub open spec fn fit_cells(cells: Seq<CellType>, n: int) -> Seq<CellType> {
    if n <= cells.len() {
        cells.take(n)
    } else {
        cells + Seq::new((n - cells.len()) as nat, |i: int| CellType::Air)
    }
}

/// The last player with id `id`, if any.
pub open spec fn last_with_id(players: Seq<Player>, id: Seq<char>) -> Option<Player>
    decreases players.len(),
{
    if players.len() == 0 {
        None
    } else if players.last().id@ == id {
        Some(players.last())
    } else {
        last_with_id(players.drop_last(), id)
    }
}

/// The players whose id is not `id`, in order.
pub open spec fn others(players: Seq<Player>, id: Seq<char>) -> Seq<Player>
    decreases players.len(),
{
    if players.len() == 0 {
        seq![]
    } else if players.last().id@ == id {
        others(players.drop_last(), id)
    } else {
        others(players.drop_last(), id).push(players.last())
    }
}

/// `g` is the game state a bot sees for `payload` when its own id is `my_id`:
/// the board is padded or cut to `width * height` squares; this bot's player is
/// the last player with its id, the opponents are the others; when no player
/// has its id, the first player stands for it and the rest are opponents.
pub open spec fn state_from_payload(g: GameState, payload: ClassicState, my_id: Seq<char>) -> bool {
    let players = payload.players@;
    &&& g.current_tick == 0
    &&& g.field.width == payload.width
    &&& g.field.height == payload.height
    &&& g.field.cells@ == fit_cells(payload.cells@, payload.width * payload.height)
    &&& g.players@ == players
    &&& g.bombs@ == payload.bombs@
    &&& g.explosions@ == payload.explosions@
    &&& if last_with_id(players, my_id) is Some {
        g.me == last_with_id(players, my_id) && g.opponents@ == others(players, my_id)
    } else if players.len() > 0 {
        g.me == Some(players[0]) && g.opponents@ == players.drop_first()
    } else {
        g.me is None && g.opponents@.len() == 0
    }
}

/// Builds the game state a bot sees from a tick's payload (see
/// `state_from_payload`).
pub fn build_game_state(payload: ClassicState, my_id: &str) -> (g: GameState)
    requires
        0 <= payload.width * payload.height <= i32::MAX,
    ensures
        state_from_payload(g, payload, my_id@),
        g.players@ == payload.players@,
        g.bombs@ == payload.bombs@,
        g.explosions@ == payload.explosions@,
        g.field.width == payload.width,
        g.field.height == payload.height,
        g.current_tick == 0,
{
    let ghost given = payload;
    let ClassicState { players, width, height, cells, bombs, explosions } = payload;
    let mut cells = cells;
    let expected_cells = (width * height) as usize;
    cells.resize(expected_cells, CellType::Air);
    proof {
        assert(cells@ =~= fit_cells(given.cells@, width * height)) by {
            if expected_cells > given.cells@.len() {
                assert forall|i: int| given.cells@.len() <= i < expected_cells implies cells@[i] == CellType::Air by {
                    assert(vstd::pervasive::cloned::<CellType>(CellType::Air, cells@[i]));
                }
                assert forall|i: int| 0 <= i < given.cells@.len() implies cells@[i] == given.cells@[i] by {
                    assert(cells@.subrange(0, given.cells@.len() as int)[i] == cells@[i]);
                }
            }
        }
    }
    let field = Field { width, height, cells };
    let mut me: Option<Player> = None;
    let mut opponents: Vec<Player> = Vec::new();
    let mut i: usize = 0;
    assert(players@.take(0) =~= Seq::<Player>::empty());
    while i < players.len()
        invariant
            i <= players.len(),
            me == last_with_id(players@.take(i as int), my_id@),
            opponents@ == others(players@.take(i as int), my_id@),
        decreases players.len() - i,
    {
        proof {
            let t = players@.take(i + 1);
            assert(t.drop_last() =~= players@.take(i as int));
            assert(t.last() == players@[i as int]);
        }
        if str_equal(players[i].id.as_str(), my_id) {
            me = Some(copy_player(&players[i]));
        } else {
            opponents.push(copy_player(&players[i]));
        }
        i = i + 1;
    }
    assert(players@.take(players@.len() as int) =~= players@);
    if me.is_none() && players.len() > 0 {
        me = Some(copy_player(&players[0]));
        let mut rest: Vec<Player> = Vec::new();
        let mut k: usize = 1;
        while k < players.len()
            invariant
                1 <= k <= players.len(),
                rest@ == players@.subrange(1, k as int),
            decreases players.len() - k,
        {
            rest.push(copy_player(&players[k]));
            k = k + 1;
            assert(rest@ =~= players@.subrange(1, k as int));
        }
        opponents = rest;
        assert(players@.drop_first() =~= players@.subrange(1, players@.len() as int));
    } else {
        proof {
            if last_with_id(players@, my_id@) is None && players@.len() == 0 {
                assert(players@.take(0) =~= players@);
            }
        }
    }
    GameState { current_tick: 0, me, opponents, players, field, bombs, explosions }
}

/// What the client remembers between messages: the id the server gave it.
pub struct Session {
    pub my_id: String,
}

impl Session {
    /// A session that has not been welcomed yet.
    pub fn new() -> (s: Session)
        ensures
            s.my_id@ == Seq::<char>::empty(),
    {
        Session { my_id: String::new() }
    }
}

/// A message from the server, its payload already decoded.
pub enum Event {
    /// `welcome`, with the client id when the payload could be read.
    Welcome(Option<String>),
    /// `update_lobby`.
    UpdateLobby,
    /// `error`, with the error text when the payload could be read, and the
    /// payload as sent.
    ServerError { message: Option<String>, raw_payload: String },
    /// `game_start`.
    GameStart,
    /// `back_to_lobby`.
    BackToLobby,
    /// `classic_state`, or why its payload could not be read.
    ClassicState(Result<ClassicState, String>),
    /// Any other message type.
    Unknown(String),
    /// Reading from the connection failed, for the given reason.
    ReadFailed(String),
    /// A frame that is not text arrived.
    NonText,
    /// A text frame that is not a message envelope arrived, for the given reason.
    BadEnvelope(String),
}

/// What the client does next.
pub enum Step {
    /// Nothing.
    Idle,
    /// Print a line.
    Print(String),
    /// Send `text`; when sending fails, print `on_failure` and stop.
    Send { text: String, on_failure: String },
    /// Print a line and stop.
    Stop(String),
    /// Ask the bot for its move in this state, and send it (see
    /// `action_message`); when sending fails, print `TURN_SEND_FAILED` and stop.
    Play(GameState),
}

/// Printed when the move of a turn cannot be sent.
pub const TURN_SEND_FAILED: &'static str = "Failed to send action";

/// `step` prints exactly `line`.
pub open spec fn prints(step: Step, line: Seq<char>) -> bool {
    step matches Step::Print(t) && t@ == line
}

/// Decides what to do with what arrived from the server. Only a welcome with a
/// readable payload changes the session: it records the client id.
pub fn on_event(session: &mut Session, event: Event) -> (step: Step)
    requires
        event matches Event::ClassicState(Ok(p)) ==> 0 <= p.width * p.height <= i32::MAX,
    ensures
        final(session).my_id@ == (match event {
            Event::Welcome(Some(id)) => id@,
            _ => old(session).my_id@,
        }),
        match event {
            Event::Welcome(Some(id)) => prints(step, "Connected as "@ + id@),
            Event::Welcome(None) => step is Idle,
            Event::UpdateLobby => step is Idle,
            Event::ServerError { message: Some(m), raw_payload: _ } => prints(
                step,
                "Server error: "@ + m@,
            ),
            Event::ServerError { message: None, raw_payload: raw } => prints(
                step,
                "Server error (unparsed payload): "@ + raw@,
            ),
            Event::GameStart => prints(step, "Game started"@),
            Event::BackToLobby => step matches Step::Send { text, on_failure } && text@ == ready_text(
                None,
            ) && on_failure@ == "Failed to re-ready in lobby"@,
            Event::ClassicState(Ok(p)) => step matches Step::Play(g) && state_from_payload(
                g,
                p,
                old(session).my_id@,
            ),
            Event::ClassicState(Err(e)) => prints(step, "Failed to parse classic state: "@ + e@),
            Event::Unknown(t) => prints(step, "Ignoring message type \""@ + t@ + "\""@),
            Event::ReadFailed(e) => step matches Step::Stop(t) && t@ == "Error reading message: "@ + e@,
            Event::NonText => step is Idle,
            Event::BadEnvelope(e) => prints(step, "Invalid message envelope: "@ + e@),
        },
{
    match event {
        Event::Welcome(Some(id)) => {
            let mut line = String::from_str("Connected as ");
            line.append(id.as_str());
            session.my_id = id;
            Step::Print(line)
        },
        Event::Welcome(None) => Step::Idle,
        Event::UpdateLobby => Step::Idle,
        Event::ServerError { message, raw_payload } => match message {
            Some(m) => {
                let mut line = String::from_str("Server error: ");
                line.append(m.as_str());
                Step::Print(line)
            },
            None => {
                let mut line = String::from_str("Server error (unparsed payload): ");
                line.append(raw_payload.as_str());
                Step::Print(line)
            },
        },
        Event::GameStart => Step::Print(String::from_str("Game started")),
        Event::BackToLobby => Step::Send {
            text: ready_message(None),
            on_failure: String::from_str("Failed to re-ready in lobby"),
        },
        Event::ClassicState(Ok(payload)) => {
            let g = build_game_state(payload, session.my_id.as_str());
            Step::Play(g)
        },
        Event::ClassicState(Err(e)) => {
            let mut line = String::from_str("Failed to parse classic state: ");
            line.append(e.as_str());
            Step::Print(line)
        },
        Event::Unknown(t) => {
            let mut line = String::from_str("Ignoring message type \"");
            line.append(t.as_str());
            line.append("\"");
            Step::Print(line)
        },
        Event::ReadFailed(e) => {
            let mut line = String::from_str("Error reading message: ");
            line.append(e.as_str());
            Step::Stop(line)
        },
        Event::NonText => Step::Idle,
        Event::BadEnvelope(e) => {
            let mut line = String::from_str("Invalid message envelope: ");
            line.append(e.as_str());
            Step::Print(line)
        },
    }
}

/// `last_with_id` finds a player exactly when one has the id, and `others`
/// keeps only players with other ids.
proof fn lemma_split_players(players: Seq<Player>, id: Seq<char>)
    ensures
        last_with_id(players, id) is Some <==> exists|i: int|
            0 <= i < players.len() && #[trigger] players[i].id@ == id,
        last_with_id(players, id) matches Some(p) ==> p.id@ == id,
        forall|i: int| 0 <= i < others(players, id).len() ==> #[trigger] others(players, id)[i].id@ != id,
    decreases players.len(),
{
    if players.len() > 0 {
        let prefix = players.drop_last();
        lemma_split_players(prefix, id);
        if exists|i: int| 0 <= i < players.len() && #[trigger] players[i].id@ == id {
            let i = choose|i: int| 0 <= i < players.len() && #[trigger] players[i].id@ == id;
            if i < players.len() - 1 {
                assert(prefix[i] == players[i]);
            }
        }
        if exists|i: int| 0 <= i < prefix.len() && #[trigger] prefix[i].id@ == id {
            let i = choose|i: int| 0 <= i < prefix.len() && #[trigger] prefix[i].id@ == id;
            assert(players[i] == prefix[i]);
        }
        let o = others(players, id);
        let o0 = others(prefix, id);
        assert forall|i: int| 0 <= i < o.len() implies #[trigger] o[i].id@ != id by {
            if players.last().id@ != id && i == o.len() - 1 {
                assert(o[i] == players.last());
            } else {
                assert(o[i] == o0[i]);
            }
        }
    }
}

/// Once the server has welcomed the client with an id that one of the players
/// carries, the bot plays that player, and none of its opponents carries the id.
pub proof fn law_welcomed_player_is_me(g: GameState, payload: ClassicState, my_id: Seq<char>, i: int)
    requires
        state_from_payload(g, payload, my_id),
        0 <= i < payload.players@.len(),
        payload.players@[i].id@ == my_id,
    ensures
        g.me matches Some(me) && me.id@ == my_id,
        forall|k: int| 0 <= k < g.opponents@.len() ==> #[trigger] g.opponents@[k].id@ != my_id,
{
    lemma_split_players(payload.players@, my_id);
}

/// The state built from a payload keeps what the server sent: the same players,
/// bombs and explosions in the same order, a board of the payload's size that
/// holds the payload's squares in order (air after them when the payload sent
/// too few), and tick 0.
pub proof fn law_state_keeps_payload(g: GameState, payload: ClassicState, my_id: Seq<char>)
    requires
        state_from_payload(g, payload, my_id),
        0 <= payload.width * payload.height,
    ensures
        g.players@ == payload.players@,
        g.bombs@ == payload.bombs@,
        g.explosions@ == payload.explosions@,
        g.field.width == payload.width,
        g.field.height == payload.height,
        g.field.cells@.len() == payload.width * payload.height,
        forall|i: int|
            0 <= i < g.field.cells@.len() ==> #[trigger] g.field.cells@[i] == (if i < payload.cells@.len() {
                payload.cells@[i]
            } else {
                CellType::Air
            }),
        g.current_tick == 0,
{
}

/// `last_with_id` gives the last player that carries the id.
proof fn lemma_last_with_id_is_last(players: Seq<Player>, id: Seq<char>)
    requires
        last_with_id(players, id) is Some,
    ensures
        exists|j: int|
            #![trigger players[j]]
            0 <= j < players.len() && players[j].id@ == id && last_with_id(players, id) == Some(players[j])
                && forall|k: int| j < k < players.len() ==> #[trigger] players[k].id@ != id,
    decreases players.len(),
{
    let j = players.len() - 1;
    if players.last().id@ == id {
        assert(players[j] == players.last());
    } else {
        let prefix = players.drop_last();
        lemma_last_with_id_is_last(prefix, id);
        let i = choose|i: int|
            #![trigger prefix[i]]
            0 <= i < prefix.len() && prefix[i].id@ == id && last_with_id(prefix, id) == Some(prefix[i])
                && forall|k: int| i < k < prefix.len() ==> #[trigger] prefix[k].id@ != id;
        assert(players[i] == prefix[i]);
        assert forall|k: int| i < k < players.len() implies #[trigger] players[k].id@ != id by {
            if k < j {
                assert(players[k] == prefix[k]);
            }
        }
    }
}

/// `others` keeps, in order, the players whose id differs.
proof fn lemma_others_is_filter(players: Seq<Player>, id: Seq<char>)
    ensures
        others(players, id) == players.filter(|p: Player| p.id@ != id),
    decreases players.len(),
{
    reveal(Seq::filter);
    if players.len() > 0 {
        lemma_others_is_filter(players.drop_last(), id);
    }
}

/// Who the bot is: when some player carries `my_id`, the bot plays the last
/// player that does, and its opponents are all players with another id, in the
/// payload's order; when none does, the first player stands for the bot and
/// the others are its opponents; with no players, the bot has neither.
pub proof fn law_me_and_opponents(g: GameState, payload: ClassicState, my_id: Seq<char>)
    requires
        state_from_payload(g, payload, my_id),
    ensures
        ({
            let ps = payload.players@;
            if exists|i: int| 0 <= i < ps.len() && #[trigger] ps[i].id@ == my_id {
                &&& exists|j: int|
                    #![trigger ps[j]]
                    0 <= j < ps.len() && ps[j].id@ == my_id && g.me == Some(ps[j]) && forall|k: int|
                        j < k < ps.len() ==> #[trigger] ps[k].id@ != my_id
                &&& g.opponents@ == ps.filter(|p: Player| p.id@ != my_id)
            } else if ps.len() > 0 {
                g.me == Some(ps[0]) && g.opponents@ == ps.drop_first()
            } else {
                g.me is None && g.opponents@.len() == 0
            }
        }),
{
    let ps = payload.players@;
    lemma_split_players(ps, my_id);
    lemma_others_is_filter(ps, my_id);
    if last_with_id(ps, my_id) is Some {
        lemma_last_with_id_is_last(ps, my_id);
    }
}

} // verus!
