use vstd::prelude::*;
use vstd::string::{StrSliceExecFns, StringExecFns};

use crate::board::{bomb_at, bomb_on};
use crate::enums::CellType;
use crate::helpers::contains_position;
use crate::models::{copy_player, Bomb, GameState, Player, Position};
use crate::text::{
    int_text, lemma_lex_less_irreflexive, lemma_lex_less_transitive, lex_less, push_int, push_repeated,
    repeat_text, str_equal, str_less,
};

verus! {

/// What one square of the rendered board shows.
#[derive(Debug, Clone, Copy, PartialEq, Eq, Structural)]
pub enum Tile {
    Air,
    Wall,
    Box,
    Bomb,
    Explosion,
    Me,
    /// The opponent icon with this index (taken modulo the number of icons).
    Opponent(usize),
}

/// The number of distinct opponent icons.
pub const OPPONENT_ICON_COUNT: usize = 8;

/// The opponent icon with index `i`, modulo the number of icons.
pub open spec fn opponent_icon_text(i: int) -> Seq<char> {
    let k = i % 8;
    if k == 0 {
        "👾"@
    } else if k == 1 {
        "🏃"@
    } else if k == 2 {
        "🚶"@
    } else if k == 3 {
        "💃"@
    } else if k == 4 {
        "🕺"@
    } else if k == 5 {
        "🦊"@
    } else if k == 6 {
        "🐼"@
    } else {
        "🐸"@
    }
}

/// The two-column text of a square.
pub open spec fn tile_text(t: Tile) -> Seq<char> {
    match t {
        Tile::Air => "  "@,
        Tile::Wall => "🧱"@,
        Tile::Box => "📦"@,
        Tile::Bomb => "💣"@,
        Tile::Explosion => "💥"@,
        Tile::Me => "🤖"@,
        Tile::Opponent(i) => opponent_icon_text(i as int),
    }
}

/// The icon given to each player id: pairs of an id and an icon index.
pub type IconTable = Seq<(Seq<char>, int)>;

/// The icon index recorded for `id`, if any.
pub open spec fn icon_lookup(icons: IconTable, id: Seq<char>) -> Option<int>
    decreases icons.len(),
{
    if icons.len() == 0 {
        None
    } else if icons[0].0 == id {
        Some(icons[0].1)
    } else {
        icon_lookup(icons.drop_first(), id)
    }
}

/// The position in `sorted` before which a player with id `id` goes so that it
/// follows every player whose id is not greater.
pub open spec fn player_slot(sorted: Seq<Player>, id: Seq<char>, i: int) -> int
    decreases sorted.len() - i,
{
    if i < 0 || i >= sorted.len() {
        sorted.len() as int
    } else if lex_less(id, sorted[i].id@) {
        i
    } else {
        player_slot(sorted, id, i + 1)
    }
}

/// `players` sorted by id, players with equal ids kept in their given order.
pub open spec fn sort_players(players: Seq<Player>) -> Seq<Player>
    decreases players.len(),
{
    if players.len() == 0 {
        players
    } else {
        let r = sort_players(players.drop_last());
        r.insert(player_slot(r, players.last().id@, 0), players.last())
    }
}

/// The players listed under the board: the reported players sorted by id, or,
/// when there are none, this bot's player and the opponents sorted by id.
pub open spec fn stable_players_of(state: GameState) -> Seq<Player> {
    if state.players@.len() > 0 {
        sort_players(state.players@)
    } else {
        let mine = match state.me {
            Some(m) => seq![m],
            None => Seq::<Player>::empty(),
        };
        sort_players(mine + state.opponents@)
    }
}

/// The ids of the first `n` opponents, each once, in order of first appearance,
/// leaving out this bot's own id.
pub open spec fn opponent_ids_upto(state: GameState, n: int) -> Seq<Seq<char>>
    decreases n,
{
    if n <= 0 {
        seq![]
    } else {
        let prev = opponent_ids_upto(state, n - 1);
        let id = state.opponents@[n - 1].id@;
        if (state.me is Some && state.me->0.id@ == id) || prev.contains(id) {
            prev
        } else {
            prev.push(id)
        }
    }
}

/// The position in `sorted` before which `id` goes.
pub open spec fn id_slot(sorted: Seq<Seq<char>>, id: Seq<char>, i: int) -> int
    decreases sorted.len() - i,
{
    if i < 0 || i >= sorted.len() {
        sorted.len() as int
    } else if lex_less(id, sorted[i]) {
        i
    } else {
        id_slot(sorted, id, i + 1)
    }
}

/// `ids` in increasing order.
pub open spec fn sort_ids(ids: Seq<Seq<char>>) -> Seq<Seq<char>>
    decreases ids.len(),
{
    if ids.len() == 0 {
        ids
    } else {
        let r = sort_ids(ids.drop_last());
        r.insert(id_slot(r, ids.last(), 0), ids.last())
    }
}

/// Gives every listed player that has no icon yet the next icon in turn.
pub open spec fn fill_icons(icons: IconTable, players: Seq<Player>) -> IconTable
    decreases players.len(),
{
    if players.len() == 0 {
        icons
    } else {
        let prev = fill_icons(icons, players.drop_last());
        let id = players.last().id@;
        if icon_lookup(prev, id) is Some {
            prev
        } else {
            prev.push((id, (prev.len() % 8) as int))
        }
    }
}

/// The icons of the players: the opponents' distinct ids, sorted, take the
/// icons in turn; every other listed player then gets the next icon in turn.
pub open spec fn icon_map(state: GameState) -> IconTable {
    let ids = sort_ids(opponent_ids_upto(state, state.opponents@.len() as int));
    let base = Seq::new(ids.len(), |i: int| (ids[i], i % 8));
    fill_icons(base, stable_players_of(state))
}

/// The icon of the last opponent standing on `pos` that has an icon.
pub open spec fn last_opponent_icon(opponents: Seq<Player>, icons: IconTable, pos: Position) -> Option<int>
    decreases opponents.len(),
{
    if opponents.len() == 0 {
        None
    } else {
        let p = opponents.last();
        if p.pos == pos && icon_lookup(icons, p.id@) is Some {
            icon_lookup(icons, p.id@)
        } else {
            last_opponent_icon(opponents.drop_last(), icons, pos)
        }
    }
}

/// What the board square `pos` shows: this bot's player over an opponent, over a
/// bomb, over an explosion, over the square itself.
pub open spec fn tile_at(state: GameState, icons: IconTable, pos: Position) -> Tile {
    if state.me is Some && state.me->0.pos == pos {
        Tile::Me
    } else {
        match last_opponent_icon(state.opponents@, icons, pos) {
            Some(i) => Tile::Opponent((i % 8) as usize),
            None => if bomb_at(state, pos) {
                Tile::Bomb
            } else if state.explosions@.contains(pos) {
                Tile::Explosion
            } else {
                match state.field.cell(pos) {
                    CellType::Wall => Tile::Wall,
                    CellType::Box => Tile::Box,
                    CellType::Air => Tile::Air,
                }
            },
        }
    }
}

/// The first `n` squares of row `y`.
pub open spec fn cells_text(state: GameState, icons: IconTable, y: int, n: int) -> Seq<char>
    decreases n,
{
    if n <= 0 {
        seq![]
    } else {
        cells_text(state, icons, y, n - 1) + tile_text(
            tile_at(state, icons, Position { x: (n - 1) as i32, y: y as i32 }),
        )
    }
}

/// The first `n` rows of the board, each framed left and right.
pub open spec fn rows_text(state: GameState, icons: IconTable, n: int) -> Seq<char>
    decreases n,
{
    if n <= 0 {
        seq![]
    } else {
        rows_text(state, icons, n - 1) + "║"@ + cells_text(state, icons, n - 1, state.field.width as int)
            + "║\n"@
    }
}

/// A player id as shown: `<unknown>` when empty, its last four characters after
/// `...` when longer than four.
pub open spec fn short_id_text(id: Seq<char>) -> Seq<char> {
    if id.len() == 0 {
        "<unknown>"@
    } else if id.len() <= 4 {
        id
    } else {
        "..."@ + id.subrange(id.len() - 4, id.len() as int)
    }
}

/// The icon shown in front of a player in the player list.
pub open spec fn player_icon_text(state: GameState, icons: IconTable, p: Player) -> Seq<char> {
    if state.me is Some && p.id@ == state.me->0.id@ {
        "🤖"@
    } else {
        match icon_lookup(icons, p.id@) {
            Some(i) => opponent_icon_text(i),
            None => opponent_icon_text(0),
        }
    }
}

/// One line of the player list.
pub open spec fn player_line(state: GameState, icons: IconTable, p: Player) -> Seq<char> {
    player_icon_text(state, icons, p) + " Player "@ + short_id_text(p.id@) + " | Health: "@ + int_text(
        p.health as int,
    ) + ", Score: "@ + int_text(p.score as int) + " | Pos: ("@ + int_text(p.pos.x as int) + ","@
        + int_text(p.pos.y as int) + ")\n"@
}

/// The lines of the player list for `players`.
pub open spec fn player_lines(state: GameState, icons: IconTable, players: Seq<Player>) -> Seq<char>
    decreases players.len(),
{
    if players.len() == 0 {
        seq![]
    } else {
        player_lines(state, icons, players.drop_last()) + player_line(state, icons, players.last())
    }
}

/// The player list, with its heading; empty when there are no players.
pub open spec fn players_section(state: GameState, icons: IconTable) -> Seq<char> {
    let players = stable_players_of(state);
    if players.len() == 0 {
        seq![]
    } else {
        "--- PLAYERS ---\n"@ + player_lines(state, icons, players)
    }
}

/// Bomb `a` is listed before bomb `b`: by row, then column, then fuse.
pub open spec fn bomb_before(a: Bomb, b: Bomb) -> bool {
    ||| a.pos.y < b.pos.y
    ||| a.pos.y == b.pos.y && a.pos.x < b.pos.x
    ||| a.pos.y == b.pos.y && a.pos.x == b.pos.x && a.fuse < b.fuse
}

/// The position in `sorted` before which `b` goes.
pub open spec fn bomb_slot(sorted: Seq<Bomb>, b: Bomb, i: int) -> int
    decreases sorted.len() - i,
{
    if i < 0 || i >= sorted.len() {
        sorted.len() as int
    } else if bomb_before(b, sorted[i]) {
        i
    } else {
        bomb_slot(sorted, b, i + 1)
    }
}

/// `bombs` sorted by row, column and fuse.
pub open spec fn sort_bombs(bombs: Seq<Bomb>) -> Seq<Bomb>
    decreases bombs.len(),
{
    if bombs.len() == 0 {
        bombs
    } else {
        let r = sort_bombs(bombs.drop_last());
        r.insert(bomb_slot(r, bombs.last(), 0), bombs.last())
    }
}

/// One line of the bomb list.
pub open spec fn bomb_line(b: Bomb) -> Seq<char> {
    "💣 at ("@ + int_text(b.pos.x as int) + ","@ + int_text(b.pos.y as int) + ") | Fuse: "@ + int_text(
        b.fuse as int,
    ) + "\n"@
}

/// The lines of the bomb list for `bombs`.
pub open spec fn bomb_lines(bombs: Seq<Bomb>) -> Seq<char>
    decreases bombs.len(),
{
    if bombs.len() == 0 {
        seq![]
    } else {
        bomb_lines(bombs.drop_last()) + bomb_line(bombs.last())
    }
}

/// The bomb list, with its heading; empty when there are no bombs.
pub open spec fn bombs_section(bombs: Seq<Bomb>) -> Seq<char> {
    if bombs.len() == 0 {
        seq![]
    } else {
        "--- BOMBS ---\n"@ + bomb_lines(sort_bombs(bombs))
    }
}

/// The rendered board of a state: the framed grid, the player list, the bomb
/// list and the legend.
pub open spec fn field_text(state: GameState) -> Seq<char> {
    let w = state.field.width as int;
    let h = state.field.height as int;
    let icons = icon_map(state);
    "╔"@ + repeat_text("══"@, w) + "╗\n"@ + rows_text(state, icons, h) + "╚"@ + repeat_text("══"@, w)
        + "╝\n"@ + players_section(state, icons) + bombs_section(state.bombs@)
        + "Legend: [space] AIR  🧱 WALL  📦 BOX  💣 BOMB  💥 EXPLOSION  🤖 ME\n"@
}

/// What `render_field` returns.
pub open spec fn render_text(state: Option<GameState>) -> Seq<char> {
    match state {
        None => "<nil game state>\n"@,
        Some(s) => if s.field.width <= 0 || s.field.height <= 0 {
            "<empty field>\n"@
        } else {
            field_text(s)
        },
    }
}

/// A player id as shown in the player list (see `short_id_text`).
fn short_player_id(id: &str) -> (s: String)
    ensures
        s@ == short_id_text(id@),
{
    let count = id.unicode_len();
    if count == 0 {
        return String::from_str("<unknown>");
    }
    if count <= 4 {
        String::from_str(id)
    } else {
        let suffix = id.substring_char(count - 4, count);
        let mut s = String::from_str("...");
        s.append(suffix);
        s
    }
}

/// Where a player with id `id` goes in `sorted` (see `player_slot`).
fn find_player_slot(sorted: &Vec<Player>, id: &String) -> (j: usize)
    ensures
        j == player_slot(sorted@, id@, 0),
{
    let mut i: usize = 0;
    while i < sorted.len()
        invariant
            i <= sorted.len(),
            player_slot(sorted@, id@, 0) == player_slot(sorted@, id@, i as int),
        decreases sorted.len() - i,
    {
        if str_less(id.as_str(), sorted[i].id.as_str()) {
            return i;
        }
        i = i + 1;
    }
    i
}

/// `players` sorted by id, players with equal ids kept in their given order.
fn sort_by_id(players: &Vec<Player>) -> (r: Vec<Player>)
    ensures
        r@ == sort_players(players@),
{
    let mut res: Vec<Player> = Vec::new();
    let mut i: usize = 0;
    assert(players@.take(0) =~= Seq::<Player>::empty());
    while i < players.len()
        invariant
            i <= players.len(),
            res@ == sort_players(players@.take(i as int)),
        decreases players.len() - i,
    {
        let p = copy_player(&players[i]);
        let j = find_player_slot(&res, &p.id);
        proof {
            let t = players@.take(i + 1);
            assert(t.drop_last() =~= players@.take(i as int));
            assert(t.last() == players@[i as int]);
            lemma_player_slot_bound(res@, p.id@, 0);
        }
        res.insert(j, p);
        i = i + 1;
    }
    assert(players@.take(players@.len() as int) =~= players@);
    res
}

/// The players listed under the board (see `stable_players_of`).
fn stable_players(state: &GameState) -> (v: Vec<Player>)
    ensures
        v@ == stable_players_of(*state),
{
    if state.players.len() > 0 {
        return sort_by_id(&state.players);
    }
    let mut all: Vec<Player> = Vec::new();
    match &state.me {
        Some(me) => {
            all.push(copy_player(me));
        },
        None => {},
    }
    let ghost mine = all@;
    let mut i: usize = 0;
    while i < state.opponents.len()
        invariant
            i <= state.opponents.len(),
            all@ == mine + state.opponents@.take(i as int),
        decreases state.opponents.len() - i,
    {
        all.push(copy_player(&state.opponents[i]));
        i = i + 1;
        assert(all@ =~= mine + state.opponents@.take(i as int));
    }
    assert(state.opponents@.take(state.opponents@.len() as int) =~= state.opponents@);
    proof {
        if state.me is Some {
            assert(mine =~= seq![state.me->0]);
        } else {
            assert(mine =~= Seq::<Player>::empty());
        }
    }
    sort_by_id(&all)
}

/// A player slot lies within the sorted sequence.
proof fn lemma_player_slot_bound(sorted: Seq<Player>, id: Seq<char>, i: int)
    requires
        0 <= i,
    ensures
        0 <= player_slot(sorted, id, i) <= sorted.len(),
    decreases sorted.len() - i,
{
    if i < sorted.len() && !lex_less(id, sorted[i].id@) {
        lemma_player_slot_bound(sorted, id, i + 1);
    }
}

/// The icon given to one player id.
struct IconEntry {
    id: String,
    icon: usize,
}

/// The icon table an icon list stands for.
spec fn table_of(v: Seq<IconEntry>) -> IconTable {
    v.map_values(|e: IconEntry| (e.id@, e.icon as int))
}

/// The texts of a list of strings.
spec fn texts_of(v: Seq<String>) -> Seq<Seq<char>> {
    v.map_values(|s: String| s@)
}

/// The icon recorded for `id`, if any.
fn lookup_icon(icons: &Vec<IconEntry>, id: &str) -> (r: Option<usize>)
    ensures
        match r {
            Some(i) => icon_lookup(table_of(icons@), id@) == Some(i as int),
            None => icon_lookup(table_of(icons@), id@) is None,
        },
{
    let ghost t = table_of(icons@);
    let mut i: usize = 0;
    assert(t.skip(0) =~= t);
    while i < icons.len()
        invariant
            i <= icons.len(),
            t == table_of(icons@),
            icon_lookup(t, id@) == icon_lookup(t.skip(i as int), id@),
        decreases icons.len() - i,
    {
        assert(t.skip(i as int)[0] == t[i as int]);
        if str_equal(icons[i].id.as_str(), id) {
            return Some(icons[i].icon);
        }
        assert(t.skip(i as int).drop_first() =~= t.skip(i + 1));
        i = i + 1;
    }
    None
}

/// `id` occurs among `ids`.
fn contains_id(ids: &Vec<String>, id: &str) -> (found: bool)
    ensures
        found == texts_of(ids@).contains(id@),
{
    let mut i: usize = 0;
    while i < ids.len()
        invariant
            i <= ids.len(),
            forall|j: int| 0 <= j < i ==> texts_of(ids@)[j] != id@,
        decreases ids.len() - i,
    {
        if str_equal(ids[i].as_str(), id) {
            assert(texts_of(ids@)[i as int] == id@);
            return true;
        }
        i = i + 1;
    }
    false
}

/// An id slot lies within the sorted sequence.
proof fn lemma_id_slot_bound(sorted: Seq<Seq<char>>, id: Seq<char>, i: int)
    requires
        0 <= i,
    ensures
        0 <= id_slot(sorted, id, i) <= sorted.len(),
    decreases sorted.len() - i,
{
    if i < sorted.len() && !lex_less(id, sorted[i]) {
        lemma_id_slot_bound(sorted, id, i + 1);
    }
}

/// `ids` in increasing order.
fn sort_id_list(ids: &Vec<String>) -> (r: Vec<String>)
    ensures
        texts_of(r@) == sort_ids(texts_of(ids@)),
{
    let mut res: Vec<String> = Vec::new();
    let mut i: usize = 0;
    assert(texts_of(ids@).take(0) =~= Seq::<Seq<char>>::empty());
    assert(texts_of(res@) =~= Seq::<Seq<char>>::empty());
    while i < ids.len()
        invariant
            i <= ids.len(),
            texts_of(res@) == sort_ids(texts_of(ids@).take(i as int)),
        decreases ids.len() - i,
    {
        let id = ids[i].clone();
        let mut j: usize = 0;
        while j < res.len()
            invariant
                j <= res.len(),
                id_slot(texts_of(res@), id@, 0) == id_slot(texts_of(res@), id@, j as int),
            ensures
                j == id_slot(texts_of(res@), id@, 0),
            decreases res.len() - j,
        {
            if str_less(id.as_str(), res[j].as_str()) {
                assert(texts_of(res@)[j as int] == res@[j as int]@);
                break;
            }
            assert(texts_of(res@)[j as int] == res@[j as int]@);
            j = j + 1;
        }
        proof {
            let t = texts_of(ids@).take(i + 1);
            assert(t.drop_last() =~= texts_of(ids@).take(i as int));
            assert(t.last() == id@);
            lemma_id_slot_bound(texts_of(res@), id@, 0);
        }
        let ghost before = res@;
        res.insert(j, id);
        assert(texts_of(res@) =~= texts_of(before).insert(j as int, ids@[i as int]@));
        i = i + 1;
    }
    assert(texts_of(ids@).take(ids@.len() as int) =~= texts_of(ids@));
    res
}

/// The icons of the players (see `icon_map`).
fn opponent_icon_map(state: &GameState) -> (icons: Vec<IconEntry>)
    ensures
        table_of(icons@) == icon_map(*state),
{
    let mut ids: Vec<String> = Vec::new();
    let mut i: usize = 0;
    assert(texts_of(ids@) =~= opponent_ids_upto(*state, 0));
    while i < state.opponents.len()
        invariant
            i <= state.opponents.len(),
            texts_of(ids@) == opponent_ids_upto(*state, i as int),
        decreases state.opponents.len() - i,
    {
        let id = &state.opponents[i].id;
        let mine = match &state.me {
            Some(me) => str_equal(me.id.as_str(), id.as_str()),
            None => false,
        };
        if !mine && !contains_id(&ids, id.as_str()) {
            ids.push(id.clone());
        }
        i = i + 1;
        assert(texts_of(ids@) =~= opponent_ids_upto(*state, i as int));
    }
    let sorted = sort_id_list(&ids);
    let ghost sids = sort_ids(opponent_ids_upto(*state, state.opponents@.len() as int));
    let ghost base = Seq::new(sids.len(), |k: int| (sids[k], k % 8));
    let mut icons: Vec<IconEntry> = Vec::new();
    let mut k: usize = 0;
    while k < sorted.len()
        invariant
            k <= sorted.len(),
            texts_of(sorted@) == sids,
            base == Seq::new(sids.len(), |k: int| (sids[k], k % 8)),
            table_of(icons@) == base.take(k as int),
        decreases sorted.len() - k,
    {
        let entry = IconEntry { id: sorted[k].clone(), icon: k % OPPONENT_ICON_COUNT };
        let ghost before = icons@;
        icons.push(entry);
        proof {
            assert(texts_of(sorted@)[k as int] == sorted@[k as int]@);
            assert(table_of(icons@) =~= table_of(before).push((sids[k as int], k as int % 8)));
            assert(base.take(k + 1) =~= base.take(k as int).push(base[k as int]));
        }
        k = k + 1;
        assert(table_of(icons@) =~= base.take(k as int));
    }
    assert(base.take(base.len() as int) =~= base);
    let players = stable_players(state);
    let mut p: usize = 0;
    assert(players@.take(0) =~= Seq::<Player>::empty());
    while p < players.len()
        invariant
            p <= players.len(),
            players@ == stable_players_of(*state),
            table_of(icons@) == fill_icons(base, players@.take(p as int)),
        decreases players.len() - p,
    {
        proof {
            let t = players@.take(p + 1);
            assert(t.drop_last() =~= players@.take(p as int));
            assert(t.last() == players@[p as int]);
        }
        if lookup_icon(&icons, players[p].id.as_str()).is_none() {
            let slot = icons.len() % OPPONENT_ICON_COUNT;
            let ghost before = icons@;
            icons.push(IconEntry { id: players[p].id.clone(), icon: slot });
            assert(table_of(icons@) =~= table_of(before).push((players@[p as int].id@, (table_of(before).len() % 8) as int)));
        }
        p = p + 1;
    }
    assert(players@.take(players@.len() as int) =~= players@);
    icons
}

/// The text of the opponent icon with index `i`.
fn opponent_icon(i: usize) -> (s: &'static str)
    ensures
        s@ == opponent_icon_text(i as int),
{
    let k = i % OPPONENT_ICON_COUNT;
    if k == 0 {
        "👾"
    } else if k == 1 {
        "🏃"
    } else if k == 2 {
        "🚶"
    } else if k == 3 {
        "💃"
    } else if k == 4 {
        "🕺"
    } else if k == 5 {
        "🦊"
    } else if k == 6 {
        "🐼"
    } else {
        "🐸"
    }
}

/// The text of a square.
fn tile_str(t: Tile) -> (s: &'static str)
    ensures
        s@ == tile_text(t),
{
    match t {
        Tile::Air => "  ",
        Tile::Wall => "🧱",
        Tile::Box => "📦",
        Tile::Bomb => "💣",
        Tile::Explosion => "💥",
        Tile::Me => "🤖",
        Tile::Opponent(i) => opponent_icon(i),
    }
}

/// What the board square `pos` shows (see `tile_at`).
fn tile_for(state: &GameState, icons: &Vec<IconEntry>, pos: &Position) -> (t: Tile)
    requires
        state.field.in_bounds(*pos),
        state.field.index_fits(),
    ensures
        t == tile_at(*state, table_of(icons@), *pos),
{
    let on_me = match &state.me {
        Some(me) => me.pos == *pos,
        None => false,
    };
    if on_me {
        return Tile::Me;
    }
    assert(!(state.me is Some && state.me->0.pos == *pos));
    let ghost tab = table_of(icons@);
    let opponents = &state.opponents;
    let mut i: usize = opponents.len();
    assert(opponents@.take(opponents@.len() as int) =~= opponents@);
    while i > 0
        invariant
            i <= opponents.len(),
            opponents == state.opponents,
            !(state.me is Some && state.me->0.pos == *pos),
            tab == table_of(icons@),
            last_opponent_icon(opponents@, tab, *pos) == last_opponent_icon(opponents@.take(i as int), tab, *pos),
        decreases i,
    {
        let ghost pre = opponents@.take(i as int);
        assert(pre.last() == opponents@[i - 1]);
        assert(pre.drop_last() =~= opponents@.take(i - 1));
        if opponents[i - 1].pos == *pos {
            match lookup_icon(icons, opponents[i - 1].id.as_str()) {
                Some(icon) => {
                    proof {
                        assert(pre.last().pos == *pos);
                        assert(last_opponent_icon(pre, tab, *pos) == Some(icon as int));
                        assert(last_opponent_icon(opponents@, tab, *pos) == Some(icon as int));
                        assert(((icon as int) % 8) as usize == icon % OPPONENT_ICON_COUNT);
                    }
                    return Tile::Opponent(icon % OPPONENT_ICON_COUNT);
                },
                None => {},
            }
        }
        i = i - 1;
    }
    if bomb_on(state, pos) {
        return Tile::Bomb;
    }
    if contains_position(&state.explosions, pos) {
        return Tile::Explosion;
    }
    proof {
        crate::models::lemma_index_in_range(state.field, *pos);
    }
    match state.field.cell_at(pos) {
        CellType::Wall => Tile::Wall,
        CellType::Box => Tile::Box,
        CellType::Air => Tile::Air,
    }
}

/// Appends the player list (see `players_section`).
fn append_players_section(sb: &mut String, state: &GameState, icons: &Vec<IconEntry>)
    ensures
        final(sb)@ == old(sb)@ + players_section(*state, table_of(icons@)),
{
    let players = stable_players(state);
    if players.len() == 0 {
        assert(final(sb)@ =~= old(sb)@ + players_section(*state, table_of(icons@)));
        return;
    }
    let ghost t = table_of(icons@);
    sb.append("--- PLAYERS ---\n");
    let ghost head = sb@;
    let mut i: usize = 0;
    assert(players@.take(0) =~= Seq::<Player>::empty());
    assert(sb@ =~= head + player_lines(*state, t, players@.take(0)));
    while i < players.len()
        invariant
            i <= players.len(),
            t == table_of(icons@),
            sb@ == head + player_lines(*state, t, players@.take(i as int)),
        decreases players.len() - i,
    {
        let p = &players[i];
        let mut icon = match lookup_icon(icons, p.id.as_str()) {
            Some(k) => opponent_icon(k),
            None => opponent_icon(0),
        };
        match &state.me {
            Some(me) => {
                if str_equal(p.id.as_str(), me.id.as_str()) {
                    icon = "🤖";
                }
            },
            None => {},
        }
        let ghost before = sb@;
        sb.append(icon);
        sb.append(" Player ");
        let short = short_player_id(p.id.as_str());
        sb.append(short.as_str());
        sb.append(" | Health: ");
        push_int(sb, p.health);
        sb.append(", Score: ");
        push_int(sb, p.score);
        sb.append(" | Pos: (");
        push_int(sb, p.pos.x);
        sb.append(",");
        push_int(sb, p.pos.y);
        sb.append(")\n");
        proof {
            assert(icon@ == player_icon_text(*state, t, *p));
            assert(sb@ =~= before + player_line(*state, t, *p));
            let q = players@.take(i + 1);
            assert(q.drop_last() =~= players@.take(i as int));
            assert(q.last() == *p);
        }
        i = i + 1;
    }
    assert(players@.take(players@.len() as int) =~= players@);
}

/// Bomb `a` is listed before bomb `b`.
fn bomb_listed_before(a: &Bomb, b: &Bomb) -> (r: bool)
    ensures
        r == bomb_before(*a, *b),
{
    if a.pos.y != b.pos.y {
        a.pos.y < b.pos.y
    } else if a.pos.x != b.pos.x {
        a.pos.x < b.pos.x
    } else {
        a.fuse < b.fuse
    }
}

/// A bomb slot lies within the sorted sequence.
proof fn lemma_bomb_slot_bound(sorted: Seq<Bomb>, b: Bomb, i: int)
    requires
        0 <= i,
    ensures
        0 <= bomb_slot(sorted, b, i) <= sorted.len(),
    decreases sorted.len() - i,
{
    if i < sorted.len() && !bomb_before(b, sorted[i]) {
        lemma_bomb_slot_bound(sorted, b, i + 1);
    }
}

/// Appends the bomb list (see `bombs_section`).
fn append_bombs_section(sb: &mut String, bombs: &Vec<Bomb>)
    ensures
        final(sb)@ == old(sb)@ + bombs_section(bombs@),
{
    if bombs.len() == 0 {
        assert(final(sb)@ =~= old(sb)@ + bombs_section(bombs@));
        return;
    }
    let mut sorted: Vec<Bomb> = Vec::new();
    let mut i: usize = 0;
    assert(bombs@.take(0) =~= Seq::<Bomb>::empty());
    while i < bombs.len()
        invariant
            i <= bombs.len(),
            sorted@ == sort_bombs(bombs@.take(i as int)),
        decreases bombs.len() - i,
    {
        let b = bombs[i];
        let mut j: usize = 0;
        while j < sorted.len()
            invariant
                j <= sorted.len(),
                bomb_slot(sorted@, b, 0) == bomb_slot(sorted@, b, j as int),
            ensures
                j == bomb_slot(sorted@, b, 0),
            decreases sorted.len() - j,
        {
            if bomb_listed_before(&b, &sorted[j]) {
                break;
            }
            j = j + 1;
        }
        proof {
            let t = bombs@.take(i + 1);
            assert(t.drop_last() =~= bombs@.take(i as int));
            assert(t.last() == b);
            lemma_bomb_slot_bound(sorted@, b, 0);
        }
        sorted.insert(j, b);
        i = i + 1;
    }
    assert(bombs@.take(bombs@.len() as int) =~= bombs@);
    sb.append("--- BOMBS ---\n");
    let ghost head = sb@;
    let mut k: usize = 0;
    assert(sorted@.take(0) =~= Seq::<Bomb>::empty());
    assert(sb@ =~= head + bomb_lines(sorted@.take(0)));
    while k < sorted.len()
        invariant
            k <= sorted.len(),
            sb@ == head + bomb_lines(sorted@.take(k as int)),
        decreases sorted.len() - k,
    {
        let b = sorted[k];
        let ghost before = sb@;
        sb.append("💣 at (");
        push_int(sb, b.pos.x);
        sb.append(",");
        push_int(sb, b.pos.y);
        sb.append(") | Fuse: ");
        push_int(sb, b.fuse);
        sb.append("\n");
        proof {
            assert(sb@ =~= before + bomb_line(b));
            let q = sorted@.take(k + 1);
            assert(q.drop_last() =~= sorted@.take(k as int));
            assert(q.last() == b);
        }
        k = k + 1;
    }
    assert(sorted@.take(sorted@.len() as int) =~= sorted@);
}

/// The board of `state` as text: a framed grid of two-column squares (this
/// bot's player over opponents, over bombs, over explosions, over the squares
/// themselves), then the player list, the bomb list and a legend.
pub fn render_field(state: Option<&GameState>) -> (text: String)
    requires
        state matches Some(s) ==> s.field.index_fits(),
    ensures
        text@ == render_text(
            match state {
                Some(s) => Some(*s),
                None => None,
            },
        ),
{
    let state = match state {
        Some(s) => s,
        None => {
            return String::from_str("<nil game state>\n");
        },
    };
    let w = state.field.width;
    let h = state.field.height;
    if w <= 0 || h <= 0 {
        return String::from_str("<empty field>\n");
    }
    let icons = opponent_icon_map(state);
    let ghost t = table_of(icons@);
    let mut sb = String::new();
    sb.append("╔");
    push_repeated(&mut sb, "══", w);
    sb.append("╗\n");
    let ghost top = sb@;
    let mut y: i32 = 0;
    assert(sb@ =~= top + rows_text(*state, t, 0));
    while y < h
        invariant
            0 <= y <= h,
            w == state.field.width,
            h == state.field.height,
            w > 0,
            state.field.index_fits(),
            t == table_of(icons@),
            sb@ == top + rows_text(*state, t, y as int),
        decreases h - y,
    {
        sb.append("║");
        let ghost row_start = sb@;
        let mut x: i32 = 0;
        assert(sb@ =~= row_start + cells_text(*state, t, y as int, 0));
        while x < w
            invariant
                0 <= x <= w,
                0 <= y < h,
                w == state.field.width,
                h == state.field.height,
                state.field.index_fits(),
                t == table_of(icons@),
                sb@ == row_start + cells_text(*state, t, y as int, x as int),
            decreases w - x,
        {
            let pos = Position { x, y };
            let tile = tile_for(state, &icons, &pos);
            sb.append(tile_str(tile));
            x = x + 1;
            assert(sb@ =~= row_start + cells_text(*state, t, y as int, x as int));
        }
        sb.append("║\n");
        y = y + 1;
        assert(sb@ =~= top + rows_text(*state, t, y as int));
    }
    sb.append("╚");
    push_repeated(&mut sb, "══", w);
    sb.append("╝\n");
    append_players_section(&mut sb, state, &icons);
    append_bombs_section(&mut sb, &state.bombs);
    sb.append("Legend: [space] AIR  🧱 WALL  📦 BOX  💣 BOMB  💥 EXPLOSION  🤖 ME\n");
    assert(sb@ =~= field_text(*state));
    sb
}

/// Inserting `x` at `j` adds `x` to the multiset of the elements.
proof fn lemma_insert_multiset<A>(r: Seq<A>, j: int, x: A)
    requires
        0 <= j <= r.len(),
    ensures
        r.insert(j, x).to_multiset() =~= r.to_multiset().insert(x),
{
    broadcast use vstd::seq_lib::group_to_multiset_ensures;

    let t = r.insert(j, x);
    assert(t.remove(j) =~= r);
    assert(t[j] == x);
    assert(t.to_multiset().remove(x) =~= r.to_multiset());
    assert(t.to_multiset().count(x) > 0) by {
        assert(t.contains(x));
    }
}

/// Players are in order of id.
pub open spec fn sorted_by_id(players: Seq<Player>) -> bool {
    forall|i: int, j: int| 0 <= i < j < players.len() ==> !lex_less(players[j].id@, players[i].id@)
}

/// The slot `player_slot` finds leaves every earlier player not after `id` and
/// the player in it, if any, after `id`.
proof fn lemma_player_slot(sorted: Seq<Player>, id: Seq<char>, i: int)
    requires
        0 <= i <= sorted.len(),
        forall|k: int| 0 <= k < i ==> !lex_less(id, #[trigger] sorted[k].id@),
    ensures
        i <= player_slot(sorted, id, i) <= sorted.len(),
        forall|k: int| 0 <= k < player_slot(sorted, id, i) ==> !lex_less(id, #[trigger] sorted[k].id@),
        player_slot(sorted, id, i) < sorted.len() ==> lex_less(id, sorted[player_slot(sorted, id, i)].id@),
    decreases sorted.len() - i,
{
    if i < sorted.len() && !lex_less(id, sorted[i].id@) {
        lemma_player_slot(sorted, id, i + 1);
    }
}

/// The player list is sorted by id and holds exactly the given players.
pub proof fn law_players_sorted_by_id(players: Seq<Player>)
    ensures
        sorted_by_id(sort_players(players)),
        sort_players(players).to_multiset() =~= players.to_multiset(),
    decreases players.len(),
{
    if players.len() > 0 {
        let prefix = players.drop_last();
        let x = players.last();
        law_players_sorted_by_id(prefix);
        let r = sort_players(prefix);
        lemma_player_slot(r, x.id@, 0);
        let j = player_slot(r, x.id@, 0);
        let t = r.insert(j, x);
        assert forall|a: int, b: int| 0 <= a < b < t.len() implies !lex_less(t[b].id@, t[a].id@) by {
            if a < j && b == j {
                assert(t[a] == r[a]);
                assert(!lex_less(x.id@, r[a].id@));
            } else if a == j {
                assert(t[b] == r[b - 1]);
                if lex_less(t[b].id@, x.id@) {
                    lemma_lex_less_transitive(t[b].id@, x.id@, r[j].id@, 0);
                    if b - 1 > j {
                        assert(!lex_less(r[b - 1].id@, r[j].id@));
                    } else {
                        lemma_lex_less_irreflexive(r[j].id@, 0);
                    }
                }
            } else {
                let ra = if a < j { a } else { a - 1 };
                let rb = if b < j { b } else { b - 1 };
                assert(t[a] == r[ra]);
                assert(t[b] == r[rb]);
            }
        }
        lemma_insert_multiset(r, j, x);
        broadcast use vstd::seq_lib::group_to_multiset_ensures;

        assert(players =~= prefix.push(x));
    }
}

/// Bombs are listed by row, column and fuse.
pub open spec fn sorted_bombs(bombs: Seq<Bomb>) -> bool {
    forall|i: int, j: int| 0 <= i < j < bombs.len() ==> !bomb_before(bombs[j], bombs[i])
}

/// The slot `bomb_slot` finds leaves every earlier bomb not after `b` and the
/// bomb in it, if any, after `b`.
proof fn lemma_bomb_slot(sorted: Seq<Bomb>, b: Bomb, i: int)
    requires
        0 <= i <= sorted.len(),
        forall|k: int| 0 <= k < i ==> !bomb_before(b, #[trigger] sorted[k]),
    ensures
        i <= bomb_slot(sorted, b, i) <= sorted.len(),
        forall|k: int| 0 <= k < bomb_slot(sorted, b, i) ==> !bomb_before(b, #[trigger] sorted[k]),
        bomb_slot(sorted, b, i) < sorted.len() ==> bomb_before(b, sorted[bomb_slot(sorted, b, i)]),
    decreases sorted.len() - i,
{
    if i < sorted.len() && !bomb_before(b, sorted[i]) {
        lemma_bomb_slot(sorted, b, i + 1);
    }
}

/// The bomb list is sorted by row, column and fuse, and holds exactly the given
/// bombs.
pub proof fn law_bombs_sorted(bombs: Seq<Bomb>)
    ensures
        sorted_bombs(sort_bombs(bombs)),
        sort_bombs(bombs).to_multiset() =~= bombs.to_multiset(),
    decreases bombs.len(),
{
    if bombs.len() > 0 {
        let prefix = bombs.drop_last();
        let x = bombs.last();
        law_bombs_sorted(prefix);
        let r = sort_bombs(prefix);
        lemma_bomb_slot(r, x, 0);
        let j = bomb_slot(r, x, 0);
        let t = r.insert(j, x);
        assert forall|a: int, b: int| 0 <= a < b < t.len() implies !bomb_before(t[b], t[a]) by {
            if a < j && b == j {
            } else if a == j {
                assert(t[b] == r[b - 1]);
                if b - 1 > j {
                    assert(!bomb_before(r[b - 1], r[j]));
                }
            } else {
                let ra = if a < j { a } else { a - 1 };
                let rb = if b < j { b } else { b - 1 };
                assert(t[a] == r[ra]);
                assert(t[b] == r[rb]);
            }
        }
        lemma_insert_multiset(r, j, x);
        broadcast use vstd::seq_lib::group_to_multiset_ensures;

        assert(bombs =~= prefix.push(x));
    }
}

/// Rendering is deterministic: equal states render to the same text, whatever
/// order the players, bombs and explosions were gathered in memory.
pub proof fn law_render_deterministic(a: Option<GameState>, b: Option<GameState>)
    requires
        a == b,
    ensures
        render_text(a) == render_text(b),
{
}

} // verus!
