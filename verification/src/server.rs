//! The authoritative game coordinator: the single owner of the player and
//! game tables, of every game's state machine, of the periodic scoring tick
//! and of the fan-out of events to sessions.
//!
//! Handlers mutate the tables and append the events to deliver to `out`;
//! the caller performs the deliveries, in order, and keeps one scheduled
//! tick per code listed by [`GameServer::active_ticks`].

use vstd::prelude::*;
use crate::message::{ClientEvent, ServerEvent, Outbound, is_error};
use crate::table::{has_key, keys_unique, key_index, lookup, lemma_key_index_unique};
use crate::util::{contains_key_i64, generate_id, generate_code, random_below};
use crate::score::{gain_spec, tick_gain, sat_add, sat_add_spec, is_winner, find_winner};

verus! {

/// A position in micro-degrees of latitude and longitude.
#[derive(Clone, Copy)]
pub struct Coord {
    pub x: i64,
    pub y: i64,
}

/// A connected player: display name and last reported position.
pub struct Player {
    pub name: String,
    pub pos: Option<Coord>,
}

/// The lifecycle of one game. While `Playing`, `elapsed` counts the ticks
/// fired since the start and `scores` maps roster members at start time to
/// milli-points.
pub enum GameState {
    Waiting,
    Playing { seeker: i64, elapsed: u64, scores: Vec<(i64, u64)> },
    Ended,
}

/// One lobby or running match.
pub struct Game {
    pub host: i64,
    pub players: Vec<i64>,
    pub pos: Coord,
    pub length: u64,
    pub state: GameState,
}

impl Game {
    /// A fresh lobby: the host is the sole roster member, the match will
    /// run for `length` seconds once started.
    pub fn new(host: i64, pos: Coord, length: u64) -> (g: Game)
        ensures
            g.host == host,
            g.players@ =~= seq![host],
            g.pos == pos,
            g.length == length,
            g.state is Waiting,
    {
        let players: Vec<i64> = vec![host];
        Game { host, pos, players, length, state: GameState::Waiting }
    }
}

/// The coordinator's entire state.
pub struct GameServer {
    pub players: Vec<(i64, Player)>,
    pub games: Vec<(u16, Game)>,
    pub ticks: Vec<u16>,
}

/// Per-game well-formedness against the player table: a non-empty,
/// duplicate-free roster of connected players; a waiting game's host is in
/// the roster; a playing game has at least two members, a seeker drawn from
/// the roster, and a score entry for every member.
pub open spec fn game_ok(players: Seq<(i64, Player)>, g: Game) -> bool {
    &&& g.players@.len() > 0
    &&& g.players@.no_duplicates()
    &&& forall|k: int| 0 <= k < g.players@.len() ==> has_key(players, #[trigger] g.players@[k])
    &&& (g.state is Waiting ==> g.players@.contains(g.host))
    &&& (g.state matches GameState::Playing { seeker, scores, .. } ==> {
        &&& g.players@.len() >= 2
        &&& g.players@.contains(seeker)
        &&& keys_unique(scores@)
        &&& scores@.len() >= 1
        &&& forall|k: int| 0 <= k < g.players@.len() ==> has_key(scores@, #[trigger] g.players@[k])
    })
}

/// No player sits in two rosters at once.
pub open spec fn games_disjoint(games: Seq<(u16, Game)>) -> bool {
    forall|i: int, j: int, p: i64|
        0 <= i < games.len() && 0 <= j < games.len() && #[trigger] games[i].1.players@.contains(p)
            && #[trigger] games[j].1.players@.contains(p) ==> i == j
}

/// Some game with code `c` is in the `Playing` state.
pub open spec fn playing_code(games: Seq<(u16, Game)>, c: u16) -> bool {
    exists|i: int| 0 <= i < games.len() && (#[trigger] games[i]).0 == c && games[i].1.state is Playing
}

impl GameServer {
    /// The coordinator's sole invariant, preserved by every handler:
    /// distinct player ids and game codes, well-formed games over the
    /// player table, disjoint rosters, and exactly the playing games'
    /// codes carrying a scheduled tick.
    pub open spec fn inv(self) -> bool {
        &&& keys_unique(self.players@)
        &&& keys_unique(self.games@)
        &&& forall|i: int|
            0 <= i < self.games@.len() ==> game_ok(self.players@, (#[trigger] self.games@[i]).1)
        &&& games_disjoint(self.games@)
        &&& self.ticks@.no_duplicates()
        &&& forall|c: u16|
            #![trigger self.ticks@.contains(c)]
            #![trigger playing_code(self.games@, c)]
            self.ticks@.contains(c) <==> playing_code(self.games@, c)
    }

    /// Player `p` sits in some roster.
    pub open spec fn in_any_game(self, p: i64) -> bool {
        exists|i: int| 0 <= i < self.games@.len() && (#[trigger] self.games@[i]).1.players@.contains(p)
    }

    /// An empty coordinator.
    pub fn new() -> (s: GameServer)
        ensures
            s.inv(),
            s.players@ =~= Seq::<(i64, Player)>::empty(),
            s.games@ =~= Seq::<(u16, Game)>::empty(),
            s.ticks@ =~= Seq::<u16>::empty(),
    {
        GameServer { players: Vec::new(), games: Vec::new(), ticks: Vec::new() }
    }

    /// The codes that must have a scheduled tick: those of playing games.
    pub fn active_ticks(&self) -> (t: &Vec<u16>)
        ensures
            t@ == self.ticks@,
    {
        &self.ticks
    }

    /// Whether a player is registered under `id`.
    pub fn has_player(&self, id: i64) -> (r: bool)
        ensures
            r == has_key(self.players@, id),
    {
        contains_key_i64(&self.players, id)
    }

    /// How many players are registered.
    pub fn player_count(&self) -> (n: usize)
        ensures
            n == self.players@.len(),
    {
        self.players.len()
    }

    /// Index of the player entry with this id.
    fn player_idx(&self, id: i64) -> (r: Option<usize>)
        ensures
            match r {
                Some(i) => i < self.players@.len() && self.players@[i as int].0 == id,
                None => !has_key(self.players@, id),
            },
    {
        let mut i: usize = 0;
        while i < self.players.len()
            invariant
                0 <= i <= self.players@.len(),
                forall|j: int| 0 <= j < i ==> self.players@[j].0 != id,
            decreases self.players@.len() - i,
        {
            if self.players[i].0 == id {
                return Some(i);
            }
            i = i + 1;
        }
        None
    }

    /// Index of the game entry with this code.
    fn game_idx(&self, code: u16) -> (r: Option<usize>)
        ensures
            match r {
                Some(i) => i < self.games@.len() && self.games@[i as int].0 == code,
                None => !has_key(self.games@, code),
            },
    {
        let mut i: usize = 0;
        while i < self.games.len()
            invariant
                0 <= i <= self.games@.len(),
                forall|j: int| 0 <= j < i ==> self.games@[j].0 != code,
            decreases self.games@.len() - i,
        {
            if self.games[i].0 == code {
                return Some(i);
            }
            i = i + 1;
        }
        None
    }

    /// The code of the game whose roster holds `player_id`, if any.
    pub fn find_game(&self, player_id: i64) -> (r: Option<u16>)
        ensures
            match r {
                Some(code) => exists|i: int|
                    0 <= i < self.games@.len() && (#[trigger] self.games@[i]).0 == code
                        && self.games@[i].1.players@.contains(player_id),
                None => !self.in_any_game(player_id),
            },
    {
        let mut i: usize = 0;
        while i < self.games.len()
            invariant
                0 <= i <= self.games@.len(),
                forall|j: int| 0 <= j < i ==> !(#[trigger] self.games@[j]).1.players@.contains(player_id),
            decreases self.games@.len() - i,
        {
            if vec_contains_i64(&self.games[i].1.players, player_id) {
                return Some(self.games[i].0);
            }
            i = i + 1;
        }
        None
    }
}

/// Whether the vector holds `x`.
pub fn vec_contains_i64(v: &Vec<i64>, x: i64) -> (r: bool)
    ensures
        r == v@.contains(x),
{
    let mut i: usize = 0;
    while i < v.len()
        invariant
            0 <= i <= v@.len(),
            forall|j: int| 0 <= j < i ==> v@[j] != x,
        decreases v@.len() - i,
    {
        if v[i] == x {
            return true;
        }
        i = i + 1;
    }
    false
}

/// The roster members an event fans out to: every member but the excluded
/// one that is still in the player table, in roster order.
pub open spec fn recipients(
    players: Seq<(i64, Player)>,
    roster: Seq<i64>,
    excl: Option<i64>,
) -> Seq<i64> {
    roster.filter(|id: i64| Some(id) != excl && has_key(players, id))
}

impl GameServer {
    /// Queue `event` for every roster member of the game with this code,
    /// except `excl`; a no-op when no game carries the code.
    pub fn fanout(&self, game_id: u16, event: ServerEvent, excl: Option<i64>, out: &mut Vec<Outbound>)
        requires
            keys_unique(self.games@),
        ensures
            has_key(self.games@, game_id) ==> {
                &&& final(out)@.len() == old(out)@.len() + 1
                &&& final(out)@.drop_last() == old(out)@
                &&& final(out)@.last().event == event
                &&& final(out)@.last().to@ == recipients(
                    self.players@,
                    self.games@[key_index(self.games@, game_id)].1.players@,
                    excl,
                )
            },
            !has_key(self.games@, game_id) ==> final(out)@ == old(out)@,
    {
        let idx = self.game_idx(game_id);
        match idx {
            None => {},
            Some(i) => {
                proof {
                    lemma_key_index_unique(self.games@, game_id, i as int);
                }
                let ghost pred = |id: i64| Some(id) != excl && has_key(self.players@, id);
                let mut to: Vec<i64> = Vec::new();
                let mut k: usize = 0;
                while k < self.games[i].1.players.len()
                    invariant
                        0 <= k <= self.games@[i as int].1.players@.len(),
                        i < self.games@.len(),
                        pred == (|id: i64| Some(id) != excl && has_key(self.players@, id)),
                        to@ == self.games@[i as int].1.players@.take(k as int).filter(pred),
                    decreases self.games@[i as int].1.players@.len() - k,
                {
                    let ghost roster = self.games@[i as int].1.players@;
                    let id = self.games[i].1.players[k];
                    let excluded = match excl {
                        Some(e) => e == id,
                        None => false,
                    };
                    proof {
                        assert(roster.take(k as int + 1) =~= roster.take(k as int).push(id));
                        roster.take(k as int).lemma_filter_push(id, pred);
                    }
                    if !excluded && contains_key_i64(&self.players, id) {
                        to.push(id);
                    }
                    k = k + 1;
                }
                proof {
                    let roster = self.games@[i as int].1.players@;
                    assert(roster.take(roster.len() as int) =~= roster);
                }
                out.push(Outbound { to, event });
                proof {
                    assert(out@.drop_last() =~= old(out)@);
                }
            },
        }
    }
}

// ---------------------------------------------------------------------------
// Invariant preservation
// ---------------------------------------------------------------------------

/// Tables with pointwise-equal keys agree on `has_key`.
proof fn lemma_same_keys_has_key(pre: Seq<(i64, Player)>, post: Seq<(i64, Player)>)
    requires
        post.len() == pre.len(),
        forall|j: int| 0 <= j < pre.len() ==> post[j].0 == pre[j].0,
    ensures
        forall|k: i64|
            #![trigger has_key(pre, k)]
            #![trigger has_key(post, k)]
            has_key(pre, k) <==> has_key(post, k),
{
    assert forall|k: i64| has_key(pre, k) implies has_key(post, k) by {
        let j = choose|j: int| 0 <= j < pre.len() && pre[j].0 == k;
        assert(post[j].0 == k);
    }
    assert forall|k: i64| has_key(post, k) implies has_key(pre, k) by {
        let j = choose|j: int| 0 <= j < post.len() && post[j].0 == k;
        assert(pre[j].0 == k);
    }
}

/// A change of the player table that keeps every key in place preserves the
/// invariant: nothing else depends on the values.
proof fn lemma_players_values_changed(pre: GameServer, post: GameServer)
    requires
        pre.inv(),
        post.games == pre.games,
        post.ticks == pre.ticks,
        post.players@.len() == pre.players@.len(),
        forall|j: int| 0 <= j < pre.players@.len() ==> post.players@[j].0 == pre.players@[j].0,
    ensures
        post.inv(),
{
    lemma_same_keys_has_key(pre.players@, post.players@);
    assert forall|i: int| 0 <= i < post.games@.len() implies game_ok(
        post.players@,
        (#[trigger] post.games@[i]).1,
    ) by {
        let g = post.games@[i].1;
        assert(game_ok(pre.players@, g));
        assert forall|k: int| 0 <= k < g.players@.len() implies has_key(
            post.players@,
            #[trigger] g.players@[k],
        ) by {
            assert(has_key(pre.players@, g.players@[k]));
        }
    }
}

/// Replacing one game by a well-formed game with the same code, a roster
/// that grew only by players in no game, and the same `Playing`-ness,
/// preserves the invariant.
proof fn lemma_replace_game_inv(pre: GameServer, post: GameServer, i: int, g2: Game)
    requires
        pre.inv(),
        0 <= i < pre.games@.len(),
        post.players == pre.players,
        post.ticks == pre.ticks,
        post.games@ == pre.games@.update(i, (pre.games@[i].0, g2)),
        game_ok(pre.players@, g2),
        forall|p: i64|
            #[trigger] g2.players@.contains(p) ==> pre.games@[i].1.players@.contains(p)
                || !pre.in_any_game(p),
        (g2.state is Playing) <==> (pre.games@[i].1.state is Playing),
    ensures
        post.inv(),
{
    let pg = pre.games@;
    let qg = post.games@;
    assert(keys_unique(qg)) by {
        assert forall|a: int, b: int| 0 <= a < b < qg.len() implies qg[a].0 != qg[b].0 by {
            assert(pg[a].0 != pg[b].0);
        }
    }
    assert forall|j: int| 0 <= j < qg.len() implies game_ok(post.players@, (#[trigger] qg[j]).1) by {
        if j != i {
            assert(game_ok(pre.players@, pg[j].1));
        }
    }
    assert(games_disjoint(qg)) by {
        assert forall|a: int, b: int, p: i64|
            0 <= a < qg.len() && 0 <= b < qg.len() && #[trigger] qg[a].1.players@.contains(p)
                && #[trigger] qg[b].1.players@.contains(p) implies a == b by {
            if a == i && b != i {
                assert(pg[b].1.players@.contains(p));
                if pre.games@[i].1.players@.contains(p) {
                    assert(pg[a].1.players@.contains(p));
                } else {
                    assert(pre.in_any_game(p));
                    assert(false);
                }
            } else if b == i && a != i {
                assert(pg[a].1.players@.contains(p));
                if pre.games@[i].1.players@.contains(p) {
                    assert(pg[b].1.players@.contains(p));
                } else {
                    assert(pre.in_any_game(p));
                    assert(false);
                }
            } else if a != i && b != i {
                assert(pg[a].1.players@.contains(p) && pg[b].1.players@.contains(p));
            }
        }
    }
    assert forall|c: u16| #![trigger post.ticks@.contains(c)] #![trigger playing_code(qg, c)]
        post.ticks@.contains(c) <==> playing_code(qg, c) by {
        if playing_code(qg, c) {
            let j = choose|j: int| 0 <= j < qg.len() && qg[j].0 == c && qg[j].1.state is Playing;
            if j == i {
                assert(pg[i].0 == c && pg[i].1.state is Playing);
            } else {
                assert(pg[j].0 == c && pg[j].1.state is Playing);
            }
            assert(playing_code(pg, c));
        }
        if pre.ticks@.contains(c) {
            assert(playing_code(pg, c));
            let j = choose|j: int| 0 <= j < pg.len() && pg[j].0 == c && pg[j].1.state is Playing;
            if j == i {
                assert(qg[i].0 == c && qg[i].1.state is Playing);
            } else {
                assert(qg[j].0 == c && qg[j].1.state is Playing);
            }
            assert(playing_code(qg, c));
        }
    }
}

/// Adding a fresh player preserves the invariant.
proof fn lemma_push_player_inv(pre: GameServer, post: GameServer, id: i64, p: Player)
    requires
        pre.inv(),
        !has_key(pre.players@, id),
        post.players@ == pre.players@.push((id, p)),
        post.games == pre.games,
        post.ticks == pre.ticks,
    ensures
        post.inv(),
{
    assert(keys_unique(post.players@)) by {
        assert forall|a: int, b: int| 0 <= a < b < post.players@.len() implies post.players@[a].0
            != post.players@[b].0 by {
            if b < pre.players@.len() {
                assert(pre.players@[a].0 != pre.players@[b].0);
            } else {
                assert(post.players@[b].0 == id);
                if post.players@[a].0 == id {
                    assert(has_key(pre.players@, id));
                }
            }
        }
    }
    assert forall|i: int| 0 <= i < post.games@.len() implies game_ok(
        post.players@,
        (#[trigger] post.games@[i]).1,
    ) by {
        let g = post.games@[i].1;
        assert(game_ok(pre.players@, g));
        assert forall|k: int| 0 <= k < g.players@.len() implies has_key(
            post.players@,
            #[trigger] g.players@[k],
        ) by {
            assert(has_key(pre.players@, g.players@[k]));
            let j = choose|j: int| 0 <= j < pre.players@.len() && pre.players@[j].0
                == g.players@[k];
            assert(post.players@[j].0 == g.players@[k]);
        }
    }
}

/// Adding a fresh waiting game whose sole member is a connected player in
/// no game preserves the invariant.
proof fn lemma_push_game_inv(pre: GameServer, post: GameServer, code: u16, g: Game)
    requires
        pre.inv(),
        !has_key(pre.games@, code),
        post.games@ == pre.games@.push((code, g)),
        post.players == pre.players,
        post.ticks == pre.ticks,
        game_ok(pre.players@, g),
        g.state is Waiting,
        forall|p: i64| #[trigger] g.players@.contains(p) ==> !pre.in_any_game(p),
    ensures
        post.inv(),
{
    let pg = pre.games@;
    let qg = post.games@;
    assert(keys_unique(qg)) by {
        assert forall|a: int, b: int| 0 <= a < b < qg.len() implies qg[a].0 != qg[b].0 by {
            if b < pg.len() {
                assert(pg[a].0 != pg[b].0);
            } else {
                if qg[a].0 == code {
                    assert(has_key(pg, code));
                }
            }
        }
    }
    assert forall|j: int| 0 <= j < qg.len() implies game_ok(post.players@, (#[trigger] qg[j]).1) by {
        if j < pg.len() {
            assert(game_ok(pre.players@, pg[j].1));
        }
    }
    assert(games_disjoint(qg)) by {
        assert forall|a: int, b: int, p: i64|
            0 <= a < qg.len() && 0 <= b < qg.len() && #[trigger] qg[a].1.players@.contains(p)
                && #[trigger] qg[b].1.players@.contains(p) implies a == b by {
            let n = pg.len() as int;
            if a < n && b < n {
                assert(pg[a].1.players@.contains(p) && pg[b].1.players@.contains(p));
            } else if a == n && b < n {
                assert(g.players@.contains(p));
                assert(pg[b].1.players@.contains(p));
                assert(pre.in_any_game(p));
                assert(false);
            } else if b == n && a < n {
                assert(g.players@.contains(p));
                assert(pg[a].1.players@.contains(p));
                assert(pre.in_any_game(p));
                assert(false);
            }
        }
    }
    assert forall|c: u16| #![trigger post.ticks@.contains(c)] #![trigger playing_code(qg, c)]
        post.ticks@.contains(c) <==> playing_code(qg, c) by {
        if playing_code(qg, c) {
            let j = choose|j: int| 0 <= j < qg.len() && qg[j].0 == c && qg[j].1.state is Playing;
            assert(j < pg.len());
            assert(playing_code(pg, c));
        }
        if pre.ticks@.contains(c) {
            assert(playing_code(pg, c));
            let j = choose|j: int| 0 <= j < pg.len() && pg[j].0 == c && pg[j].1.state is Playing;
            assert(qg[j].0 == c && qg[j].1.state is Playing);
            assert(playing_code(qg, c));
        }
    }
}

/// Everything `join` promises. Checks run in order — unknown player,
/// duplicate membership, dead code, wrong state — and on success the joiner
/// is appended to the roster, answered `JoinedGame` with the pre-join
/// member snapshot, while the previous members are told `PlayerJoined`.
pub open spec fn join_post(
    pre: GameServer,
    post: GameServer,
    player_id: i64,
    game_id: u16,
    out0: Seq<Outbound>,
    out1: Seq<Outbound>,
    r: Option<ServerEvent>,
) -> bool {
    if !has_key(pre.players@, player_id) {
        &&& post == pre
        &&& out1 == out0
        &&& (r matches Some(e) && is_error(e, "Player not found"@))
    } else if pre.in_any_game(player_id) {
        &&& post == pre
        &&& out1 == out0
        &&& (r matches Some(e) && is_error(e, "Already in a game"@))
    } else if !has_key(pre.games@, game_id) {
        &&& post == pre
        &&& out1 == out0
        &&& (r matches Some(e) && is_error(e, "Game does not exist"@))
    } else {
        let gi = key_index(pre.games@, game_id);
        let g = pre.games@[gi].1;
        match g.state {
            GameState::Playing { .. } => {
                &&& post == pre
                &&& out1 == out0
                &&& (r matches Some(e) && is_error(e, "Game already started"@))
            },
            GameState::Ended => {
                &&& post == pre
                &&& out1 == out0
                &&& (r matches Some(e) && is_error(e, "Game already ended"@))
            },
            GameState::Waiting => {
                &&& post.players == pre.players
                &&& post.ticks == pre.ticks
                &&& post.games@ == pre.games@.update(gi, (game_id, post.games@[gi].1))
                &&& ({
                    let g2 = post.games@[gi].1;
                    &&& g2.host == g.host
                    &&& g2.pos == g.pos
                    &&& g2.length == g.length
                    &&& g2.state is Waiting
                    &&& g2.players@ == g.players@.push(player_id)
                })
                &&& out1.len() == out0.len() + 1
                &&& out1.drop_last() == out0
                &&& (out1.last().event matches ServerEvent::PlayerJoined { id, name } && id
                    == player_id && name@ == lookup(pre.players@, player_id).name@)
                &&& out1.last().to@ == recipients(pre.players@, g.players@, Some(player_id))
                &&& (r matches Some(e) && e matches ServerEvent::JoinedGame {
                    id,
                    x,
                    y,
                    players: ps,
                    host,
                } && id == game_id && x == g.pos.x && y == g.pos.y && host == g.host && ps@.len()
                    == g.players@.len() && (forall|k: int|
                    0 <= k < g.players@.len() ==> (#[trigger] ps@[k]).0 == g.players@[k]
                        && ps@[k].1@ == lookup(pre.players@, g.players@[k]).name@))
            },
        }
    }
}

/// Everything `set_pos` promises: a known sender's record gets the new
/// position, an unknown one is answered `Error{"Player not found"}`, and
/// nothing else moves.
pub open spec fn set_pos_post(
    pre: GameServer,
    post: GameServer,
    player_id: i64,
    pos: Coord,
    r: Option<ServerEvent>,
) -> bool {
    &&& post.games == pre.games
    &&& post.ticks == pre.ticks
    &&& (has_key(pre.players@, player_id) ==> {
        &&& r is None
        &&& post.players@ == pre.players@.update(
            key_index(pre.players@, player_id),
            (
                player_id,
                (Player {
                    name: pre.players@[key_index(pre.players@, player_id)].1.name,
                    pos: Some(pos),
                }),
            ),
        )
    })
    &&& (!has_key(pre.players@, player_id) ==> {
        &&& post == pre
        &&& (r matches Some(e) && is_error(e, "Player not found"@))
    })
}

/// Everything `chat` promises: a sender in a game has the line fanned out
/// to their whole roster, themself included; a sender in none is silently
/// dropped. State never changes.
pub open spec fn chat_post(
    pre: GameServer,
    post: GameServer,
    player_id: i64,
    message: String,
    out0: Seq<Outbound>,
    out1: Seq<Outbound>,
) -> bool {
    &&& post == pre
    &&& (pre.in_any_game(player_id) ==> {
        &&& out1.len() == out0.len() + 1
        &&& out1.drop_last() == out0
        &&& (out1.last().event matches ServerEvent::Chat { sender, message: m } && sender
            == player_id && m == message)
        &&& exists|i: int|
            0 <= i < pre.games@.len() && (#[trigger] pre.games@[i]).1.players@.contains(player_id)
                && out1.last().to@ == recipients(pre.players@, pre.games@[i].1.players@, None)
    })
    &&& (!pre.in_any_game(player_id) ==> out1 == out0)
}

/// Everything `create` promises: a host in a game is refused; with every
/// code taken the request fails; otherwise a waiting game appears under a
/// fresh code with the host as sole member, who is answered `JoinedGame`
/// with an empty member list.
pub open spec fn create_post(
    pre: GameServer,
    post: GameServer,
    host_id: i64,
    pos: Coord,
    minutes: u64,
    r: Option<ServerEvent>,
) -> bool {
    &&& post.players == pre.players
    &&& post.ticks == pre.ticks
    &&& (pre.in_any_game(host_id) ==> {
        &&& post == pre
        &&& (r matches Some(e) && is_error(e, "Already in a game"@))
    })
    &&& (!pre.in_any_game(host_id) && pre.games@.len() > 0xffff ==> {
        &&& post == pre
        &&& (r matches Some(e) && is_error(e, "Could not create game"@))
    })
    &&& (!pre.in_any_game(host_id) && pre.games@.len() <= 0xffff ==> {
        &&& post.games@.len() == pre.games@.len() + 1
        &&& post.games@.drop_last() == pre.games@
        &&& ({
            let code = post.games@.last().0;
            let g = post.games@.last().1;
            &&& !has_key(pre.games@, code)
            &&& g.host == host_id
            &&& g.players@ =~= seq![host_id]
            &&& g.pos == pos
            &&& g.length == length_secs(minutes)
            &&& g.state is Waiting
            &&& (r matches Some(e) && e matches ServerEvent::JoinedGame {
                id,
                x,
                y,
                players,
                host,
            } && id == code && x == pos.x && y == pos.y && players@.len() == 0 && host == host_id)
        })
    })
}

/// The storage index of the game holding player `p` (meaningful when
/// `in_any_game`; unique by roster disjointness).
pub open spec fn game_of(s: GameServer, p: i64) -> int {
    choose|i: int| 0 <= i < s.games@.len() && (#[trigger] s.games@[i]).1.players@.contains(p)
}

/// Under disjoint rosters, any index whose roster holds `p` is `game_of`.
pub proof fn lemma_game_of_unique(s: GameServer, p: i64, i: int)
    requires
        games_disjoint(s.games@),
        0 <= i < s.games@.len(),
        s.games@[i].1.players@.contains(p),
    ensures
        s.in_any_game(p),
        game_of(s, p) == i,
{
    assert(s.in_any_game(p));
    let j = game_of(s, p);
    assert(s.games@[j].1.players@.contains(p));
}

/// Zero starting milli-points for every roster member, in roster order.
pub open spec fn init_scores(roster: Seq<i64>) -> Seq<(i64, u64)> {
    roster.map_values(|id: i64| (id, 0u64))
}

/// Everything `start` promises. Only the host of a waiting game with at
/// least two members may start it; then every member starts at score zero,
/// a seeker is drawn from the roster, a tick is scheduled for the code,
/// and the whole roster learns `GameStarted`.
pub open spec fn start_post(
    pre: GameServer,
    post: GameServer,
    player_id: i64,
    out0: Seq<Outbound>,
    out1: Seq<Outbound>,
    r: Option<ServerEvent>,
) -> bool {
    if !pre.in_any_game(player_id) {
        &&& post == pre
        &&& out1 == out0
        &&& (r matches Some(e) && is_error(e, "Could not start game"@))
    } else {
        let gi = game_of(pre, player_id);
        let code = pre.games@[gi].0;
        let g = pre.games@[gi].1;
        if g.host != player_id {
            &&& post == pre
            &&& out1 == out0
            &&& (r matches Some(e) && is_error(e, "Only the host can start the game"@))
        } else if g.players@.len() < 2 {
            &&& post == pre
            &&& out1 == out0
            &&& (r matches Some(e) && is_error(e, "Not enough players to start the game"@))
        } else if !(g.state is Waiting) {
            &&& post == pre
            &&& out1 == out0
            &&& (r matches Some(e) && is_error(e, "Could not start game"@))
        } else {
            &&& post.players == pre.players
            &&& post.games@ == pre.games@.update(gi, (code, post.games@[gi].1))
            &&& ({
                let g2 = post.games@[gi].1;
                &&& g2.host == g.host
                &&& g2.pos == g.pos
                &&& g2.length == g.length
                &&& g2.players@ == g.players@
                &&& (g2.state matches GameState::Playing { seeker, elapsed, scores } && elapsed
                    == 0 && scores@ == init_scores(g.players@) && g.players@.contains(seeker)
                    && (out1.last().event matches ServerEvent::GameStarted { seeker: s2 } && s2
                    == seeker))
            })
            &&& post.ticks@ == pre.ticks@.push(code)
            &&& out1.len() == out0.len() + 1
            &&& out1.drop_last() == out0
            &&& out1.last().to@ == recipients(pre.players@, g.players@, None)
            &&& r is None
        }
    }
}

/// Everything `tag` promises. Only the seeker of a playing game may tag a
/// roster member; the seeker role transfers to the tagged player and the
/// whole roster learns `PlayerTagged`. Any other use is refused.
pub open spec fn tag_post(
    pre: GameServer,
    post: GameServer,
    player_id: i64,
    other_id: i64,
    photo: String,
    out0: Seq<Outbound>,
    out1: Seq<Outbound>,
    r: Option<ServerEvent>,
) -> bool {
    let can = pre.in_any_game(player_id) && {
        let g = pre.games@[game_of(pre, player_id)].1;
        (g.state matches GameState::Playing { seeker, .. } && seeker == player_id)
            && g.players@.contains(other_id)
    };
    if can {
        let gi = game_of(pre, player_id);
        let code = pre.games@[gi].0;
        let g = pre.games@[gi].1;
        &&& post.players == pre.players
        &&& post.ticks == pre.ticks
        &&& post.games@ == pre.games@.update(gi, (code, post.games@[gi].1))
        &&& ({
            let g2 = post.games@[gi].1;
            &&& g2.host == g.host
            &&& g2.pos == g.pos
            &&& g2.length == g.length
            &&& g2.players@ == g.players@
            &&& (g.state matches GameState::Playing { elapsed, scores, .. } && g2.state
                == (GameState::Playing { seeker: other_id, elapsed, scores }))
        })
        &&& out1.len() == out0.len() + 1
        &&& out1.drop_last() == out0
        &&& (out1.last().event matches ServerEvent::PlayerTagged { tagger, tagged, photo: ph }
            && tagger == player_id && tagged == other_id && ph == photo)
        &&& out1.last().to@ == recipients(pre.players@, g.players@, None)
        &&& r is None
    } else {
        &&& post == pre
        &&& out1 == out0
        &&& (r matches Some(e) && is_error(e, "Could not tag player"@))
    }
}

/// Starting a waiting game — same roster, now `Playing`, its code newly
/// ticked — preserves the invariant.
proof fn lemma_start_inv(pre: GameServer, post: GameServer, i: int, g2: Game)
    requires
        pre.inv(),
        0 <= i < pre.games@.len(),
        post.players == pre.players,
        post.games@ == pre.games@.update(i, (pre.games@[i].0, g2)),
        post.ticks@ == pre.ticks@.push(pre.games@[i].0),
        game_ok(pre.players@, g2),
        g2.players@ == pre.games@[i].1.players@,
        pre.games@[i].1.state is Waiting,
        g2.state is Playing,
    ensures
        post.inv(),
{
    let pg = pre.games@;
    let qg = post.games@;
    let code = pg[i].0;
    assert(keys_unique(qg)) by {
        assert forall|a: int, b: int| 0 <= a < b < qg.len() implies qg[a].0 != qg[b].0 by {
            assert(pg[a].0 != pg[b].0);
        }
    }
    assert forall|j: int| 0 <= j < qg.len() implies game_ok(post.players@, (#[trigger] qg[j]).1) by {
        if j != i {
            assert(game_ok(pre.players@, pg[j].1));
        }
    }
    assert(games_disjoint(qg)) by {
        assert forall|a: int, b: int, p: i64|
            0 <= a < qg.len() && 0 <= b < qg.len() && #[trigger] qg[a].1.players@.contains(p)
                && #[trigger] qg[b].1.players@.contains(p) implies a == b by {
            assert(pg[a].1.players@.contains(p));
            assert(pg[b].1.players@.contains(p));
        }
    }
    assert(!pre.ticks@.contains(code)) by {
        if pre.ticks@.contains(code) {
            assert(playing_code(pg, code));
            let j = choose|j: int| 0 <= j < pg.len() && pg[j].0 == code && pg[j].1.state is Playing;
            if j != i {
                assert(pg[j].0 == pg[i].0);
            }
        }
    }
    assert(post.ticks@.no_duplicates());
    assert forall|c: u16| #![trigger post.ticks@.contains(c)] #![trigger playing_code(qg, c)]
        post.ticks@.contains(c) <==> playing_code(qg, c) by {
        if c == code {
            assert(post.ticks@.last() == code);
            assert(post.ticks@.contains(code));
            assert(qg[i].0 == code && qg[i].1.state is Playing);
            assert(playing_code(qg, c));
        } else {
            assert(post.ticks@.contains(c) <==> pre.ticks@.contains(c)) by {
                if pre.ticks@.contains(c) {
                    let j = choose|j: int| 0 <= j < pre.ticks@.len() && pre.ticks@[j] == c;
                    assert(post.ticks@[j] == c);
                }
                if post.ticks@.contains(c) {
                    let j = choose|j: int| 0 <= j < post.ticks@.len() && post.ticks@[j] == c;
                    assert(j < pre.ticks@.len());
                }
            }
            assert(playing_code(pg, c) <==> playing_code(qg, c)) by {
                if playing_code(pg, c) {
                    let j = choose|j: int| 0 <= j < pg.len() && pg[j].0 == c
                        && pg[j].1.state is Playing;
                    assert(j != i);
                    assert(qg[j].0 == c && qg[j].1.state is Playing);
                }
                if playing_code(qg, c) {
                    let j = choose|j: int| 0 <= j < qg.len() && qg[j].0 == c
                        && qg[j].1.state is Playing;
                    assert(j != i);
                    assert(pg[j].0 == c && pg[j].1.state is Playing);
                }
            }
        }
    }
}

/// The roster with every occurrence of `p` removed, order kept.
pub open spec fn roster_without(roster: Seq<i64>, p: i64) -> Seq<i64>
    decreases roster.len(),
{
    if roster.len() == 0 {
        Seq::empty()
    } else {
        let sub = roster_without(roster.drop_last(), p);
        if roster.last() == p {
            sub
        } else {
            sub.push(roster.last())
        }
    }
}

/// What removing `p` from a roster leaves: `p` is gone, everyone else
/// stays, no duplicate appears, and on a duplicate-free roster holding `p`
/// exactly one entry goes.
pub proof fn lemma_roster_without_props(roster: Seq<i64>, p: i64)
    ensures
        !roster_without(roster, p).contains(p),
        forall|y: i64|
            y != p ==> (#[trigger] roster_without(roster, p).contains(y) <==> roster.contains(y)),
        roster.no_duplicates() ==> roster_without(roster, p).no_duplicates(),
        roster_without(roster, p).len() <= roster.len(),
        roster.no_duplicates() && roster.contains(p) ==> roster_without(roster, p).len()
            == roster.len() - 1,
        !roster.contains(p) ==> roster_without(roster, p) == roster,
    decreases roster.len(),
{
    let out = roster_without(roster, p);
    if roster.len() == 0 {
        assert(out =~= roster);
        assert forall|y: i64| y != p implies (#[trigger] out.contains(y) <==> roster.contains(
            y,
        )) by {}
    } else {
        let rest = roster.drop_last();
        let last = roster.last();
        lemma_roster_without_props(rest, p);
        let sub = roster_without(rest, p);
        assert(!out.contains(p)) by {
            if last != p && out.contains(p) {
                let j = choose|j: int| 0 <= j < out.len() && out[j] == p;
                if j < sub.len() {
                    assert(sub.contains(p));
                } else {
                    assert(out[j] == last);
                }
            }
        }
        assert forall|y: i64| y != p implies (#[trigger] out.contains(y) <==> roster.contains(
            y,
        )) by {
            if roster.contains(y) {
                let j = choose|j: int| 0 <= j < roster.len() && roster[j] == y;
                if j < rest.len() {
                    assert(rest[j] == y);
                    assert(rest.contains(y));
                    assert(sub.contains(y));
                    if last != p {
                        let m = choose|m: int| 0 <= m < sub.len() && sub[m] == y;
                        assert(out[m] == y);
                    }
                } else {
                    assert(last == y);
                    assert(out.last() == y);
                }
            }
            if out.contains(y) {
                let j = choose|j: int| 0 <= j < out.len() && out[j] == y;
                if last != p && j == out.len() - 1 {
                    assert(roster.last() == y);
                } else {
                    assert(sub.contains(y));
                    assert(rest.contains(y));
                    let m = choose|m: int| 0 <= m < rest.len() && rest[m] == y;
                    assert(roster[m] == y);
                }
            }
        }
        if roster.no_duplicates() {
            assert(rest.no_duplicates());
            if last != p {
                assert(!sub.contains(last)) by {
                    if sub.contains(last) {
                        assert(rest.contains(last));
                        let m = choose|m: int| 0 <= m < rest.len() && rest[m] == last;
                        assert(roster[m] == roster[roster.len() - 1]);
                    }
                }
                assert(out.no_duplicates()) by {
                    assert(out == sub.push(last));
                    assert forall|a: int, b: int|
                        0 <= a < out.len() && 0 <= b < out.len() && a != b implies out[a]
                        != out[b] by {
                        if a < sub.len() && b < sub.len() {
                            assert(sub[a] != sub[b]);
                        } else if a < sub.len() {
                            assert(out[b] == last);
                            if out[a] == last {
                                assert(sub.contains(last));
                            }
                        } else {
                            assert(out[a] == last);
                            if out[b] == last && b < sub.len() {
                                assert(sub.contains(last));
                            }
                        }
                    }
                }
            }
            if roster.contains(p) {
                if last == p {
                    assert(!rest.contains(p)) by {
                        if rest.contains(p) {
                            let m = choose|m: int| 0 <= m < rest.len() && rest[m] == p;
                            assert(roster[m] == roster[roster.len() - 1]);
                        }
                    }
                    assert(out.len() == roster.len() - 1);
                } else {
                    assert(rest.contains(p)) by {
                        let m = choose|m: int| 0 <= m < roster.len() && roster[m] == p;
                        assert(m < rest.len());
                        assert(rest[m] == p);
                    }
                    assert(out.len() == roster.len() - 1);
                }
            }
        }
        if !roster.contains(p) {
            assert(!rest.contains(p)) by {
                if rest.contains(p) {
                    let m = choose|m: int| 0 <= m < rest.len() && rest[m] == p;
                    assert(roster[m] == p);
                }
            }
            assert(last != p) by {
                if last == p {
                    assert(roster.contains(p));
                }
            }
            assert(out =~= roster);
        }
    }
}

/// The roster vector with every occurrence of `x` removed.
fn remove_val_i64(v: &Vec<i64>, x: i64) -> (r: Vec<i64>)
    ensures
        r@ == roster_without(v@, x),
{
    let mut r: Vec<i64> = Vec::new();
    let mut k: usize = 0;
    while k < v.len()
        invariant
            0 <= k <= v@.len(),
            r@ == roster_without(v@.take(k as int), x),
        decreases v@.len() - k,
    {
        let y = v[k];
        proof {
            let t = v@.take(k as int);
            assert(v@.take(k as int + 1) =~= t.push(y));
            assert(t.push(y).drop_last() =~= t);
            assert(t.push(y).last() == y);
        }
        if y != x {
            r.push(y);
        }
        k = k + 1;
    }
    proof {
        assert(v@.take(v@.len() as int) =~= v@);
    }
    r
}

/// `post` is `pre` with the one occurrence of `code` gone.
pub open spec fn ticks_removed(pre: Seq<u16>, post: Seq<u16>, code: u16) -> bool {
    &&& post.no_duplicates()
    &&& !post.contains(code)
    &&& forall|c: u16| c != code ==> (#[trigger] post.contains(c) <==> pre.contains(c))
    &&& post.len() <= pre.len()
}

/// Ending a playing game — roster only shrunk, state now `Ended`, its code
/// no longer ticked — preserves the invariant.
proof fn lemma_end_inv(pre: GameServer, post: GameServer, i: int, g2: Game)
    requires
        pre.inv(),
        0 <= i < pre.games@.len(),
        post.players == pre.players,
        post.games@ == pre.games@.update(i, (pre.games@[i].0, g2)),
        pre.games@[i].1.state is Playing,
        g2.state is Ended,
        game_ok(pre.players@, g2),
        forall|p: i64| #[trigger] g2.players@.contains(p) ==> pre.games@[i].1.players@.contains(p),
        ticks_removed(pre.ticks@, post.ticks@, pre.games@[i].0),
    ensures
        post.inv(),
{
    let pg = pre.games@;
    let qg = post.games@;
    let code = pg[i].0;
    assert(keys_unique(qg)) by {
        assert forall|a: int, b: int| 0 <= a < b < qg.len() implies qg[a].0 != qg[b].0 by {
            assert(pg[a].0 != pg[b].0);
        }
    }
    assert forall|j: int| 0 <= j < qg.len() implies game_ok(post.players@, (#[trigger] qg[j]).1) by {
        if j != i {
            assert(game_ok(pre.players@, pg[j].1));
        }
    }
    assert(games_disjoint(qg)) by {
        assert forall|a: int, b: int, p: i64|
            0 <= a < qg.len() && 0 <= b < qg.len() && #[trigger] qg[a].1.players@.contains(p)
                && #[trigger] qg[b].1.players@.contains(p) implies a == b by {
            assert(pg[a].1.players@.contains(p));
            assert(pg[b].1.players@.contains(p));
        }
    }
    assert forall|c: u16| #![trigger post.ticks@.contains(c)] #![trigger playing_code(qg, c)]
        post.ticks@.contains(c) <==> playing_code(qg, c) by {
        if c == code {
            assert(!post.ticks@.contains(c));
            if playing_code(qg, c) {
                let j = choose|j: int| 0 <= j < qg.len() && qg[j].0 == c
                    && qg[j].1.state is Playing;
                if j != i {
                    assert(pg[j].0 == pg[i].0);
                }
            }
        } else {
            if playing_code(qg, c) {
                let j = choose|j: int| 0 <= j < qg.len() && qg[j].0 == c
                    && qg[j].1.state is Playing;
                assert(j != i);
                assert(pg[j].0 == c && pg[j].1.state is Playing);
                assert(playing_code(pg, c));
            }
            if pre.ticks@.contains(c) {
                assert(playing_code(pg, c));
                let j = choose|j: int| 0 <= j < pg.len() && pg[j].0 == c
                    && pg[j].1.state is Playing;
                assert(j != i);
                assert(qg[j].0 == c && qg[j].1.state is Playing);
                assert(playing_code(qg, c));
            }
        }
    }
}

/// Dropping a non-playing game record preserves the invariant.
proof fn lemma_cancel_inv(pre: GameServer, post: GameServer, i: int)
    requires
        pre.inv(),
        0 <= i < pre.games@.len(),
        post.players == pre.players,
        post.games@ == pre.games@.remove(i),
        post.ticks == pre.ticks,
        !(pre.games@[i].1.state is Playing),
    ensures
        post.inv(),
{
    let pg = pre.games@;
    let qg = post.games@;
    assert(keys_unique(qg)) by {
        assert forall|a: int, b: int| 0 <= a < b < qg.len() implies qg[a].0 != qg[b].0 by {
            let a0 = if a < i { a } else { a + 1 };
            let b0 = if b < i { b } else { b + 1 };
            assert(qg[a] == pg[a0]);
            assert(qg[b] == pg[b0]);
            assert(pg[a0].0 != pg[b0].0);
        }
    }
    assert forall|j: int| 0 <= j < qg.len() implies game_ok(post.players@, (#[trigger] qg[j]).1) by {
        let j0 = if j < i { j } else { j + 1 };
        assert(qg[j] == pg[j0]);
        assert(game_ok(pre.players@, pg[j0].1));
    }
    assert(games_disjoint(qg)) by {
        assert forall|a: int, b: int, p: i64|
            0 <= a < qg.len() && 0 <= b < qg.len() && #[trigger] qg[a].1.players@.contains(p)
                && #[trigger] qg[b].1.players@.contains(p) implies a == b by {
            let a0 = if a < i { a } else { a + 1 };
            let b0 = if b < i { b } else { b + 1 };
            assert(qg[a] == pg[a0]);
            assert(qg[b] == pg[b0]);
            assert(pg[a0].1.players@.contains(p) && pg[b0].1.players@.contains(p));
        }
    }
    assert forall|c: u16| #![trigger post.ticks@.contains(c)] #![trigger playing_code(qg, c)]
        post.ticks@.contains(c) <==> playing_code(qg, c) by {
        if playing_code(qg, c) {
            let j = choose|j: int| 0 <= j < qg.len() && qg[j].0 == c && qg[j].1.state is Playing;
            let j0 = if j < i { j } else { j + 1 };
            assert(qg[j] == pg[j0]);
            assert(playing_code(pg, c));
        }
        if pre.ticks@.contains(c) {
            assert(playing_code(pg, c));
            let j = choose|j: int| 0 <= j < pg.len() && pg[j].0 == c && pg[j].1.state is Playing;
            assert(j != i);
            let jq = if j < i { j } else { j - 1 };
            assert(qg[jq] == pg[j]);
            assert(playing_code(qg, c));
        }
    }
}

/// Everything `leave` promises. A player in no game is refused and nothing
/// changes. Otherwise the player is taken out of their game's roster and
/// answered `LeftGame`; then, in order of precedence: a playing game left
/// with fewer than two members ends with a winner announcement; a playing
/// game losing its seeker draws a new one from the remaining roster; a
/// waiting or ended game left empty is dropped after an empty farewell
/// fan-out; a waiting or ended game losing its host promotes the oldest
/// member. The remaining members learn `PlayerLeft` with the host after
/// any promotion.
pub open spec fn leave_post(
    pre: GameServer,
    post: GameServer,
    player_id: i64,
    out0: Seq<Outbound>,
    out1: Seq<Outbound>,
    r: Option<ServerEvent>,
) -> bool {
    if !pre.in_any_game(player_id) {
        &&& post == pre
        &&& out1 == out0
        &&& (r matches Some(e) && is_error(e, "Could not leave game"@))
    } else {
        let gi = game_of(pre, player_id);
        let code = pre.games@[gi].0;
        let g = pre.games@[gi].1;
        let roster2 = roster_without(g.players@, player_id);
        &&& post.players == pre.players
        &&& (r matches Some(e) && e is LeftGame)
        &&& if g.state is Playing && roster2.len() < 2 {
            &&& post.games@ == pre.games@.update(gi, (code, post.games@[gi].1))
            &&& ({
                let g2 = post.games@[gi].1;
                &&& g2.host == g.host
                &&& g2.pos == g.pos
                &&& g2.length == g.length
                &&& g2.players@ == roster2
                &&& g2.state is Ended
            })
            &&& ticks_removed(pre.ticks@, post.ticks@, code)
            &&& out1.len() == out0.len() + 2
            &&& out1.take(out0.len() as int) == out0
            &&& (out1[out0.len() as int].event matches ServerEvent::GameEnded { winner }
                && (g.state matches GameState::Playing { scores, .. } && exists|m: u64|
                is_winner(scores@, winner, m)))
            &&& out1[out0.len() as int].to@ == recipients(pre.players@, roster2, None)
            &&& (out1.last().event matches ServerEvent::PlayerLeft { id, new_host } && id
                == player_id && new_host == g.host)
            &&& out1.last().to@ == recipients(pre.players@, roster2, Some(player_id))
        } else if g.state is Playing {
            &&& post.games@ == pre.games@.update(gi, (code, post.games@[gi].1))
            &&& ({
                let g2 = post.games@[gi].1;
                &&& g2.host == g.host
                &&& g2.pos == g.pos
                &&& g2.length == g.length
                &&& g2.players@ == roster2
                &&& (g.state matches GameState::Playing { seeker, elapsed, scores } ==> {
                    &&& (g2.state matches GameState::Playing {
                        seeker: s2,
                        elapsed: e2,
                        scores: sc2,
                    } && e2 == elapsed && sc2 == scores && (if seeker == player_id {
                        roster2.contains(s2)
                    } else {
                        s2 == seeker
                    }))
                })
            })
            &&& post.ticks == pre.ticks
            &&& out1.len() == out0.len() + 1
            &&& out1.drop_last() == out0
            &&& (out1.last().event matches ServerEvent::PlayerLeft { id, new_host } && id
                == player_id && new_host == g.host)
            &&& out1.last().to@ == recipients(pre.players@, roster2, Some(player_id))
        } else if roster2.len() == 0 {
            &&& post.games@ == pre.games@.remove(gi)
            &&& post.ticks == pre.ticks
            &&& out1.len() == out0.len() + 1
            &&& out1.drop_last() == out0
            &&& (out1.last().event is LeftGame)
            &&& out1.last().to@.len() == 0
        } else {
            let host2 = if g.host == player_id {
                roster2[0]
            } else {
                g.host
            };
            &&& post.games@ == pre.games@.update(gi, (code, post.games@[gi].1))
            &&& ({
                let g2 = post.games@[gi].1;
                &&& g2.host == host2
                &&& g2.pos == g.pos
                &&& g2.length == g.length
                &&& g2.players@ == roster2
                &&& g2.state == g.state
            })
            &&& post.ticks == pre.ticks
            &&& out1.len() == out0.len() + 1
            &&& out1.drop_last() == out0
            &&& (out1.last().event matches ServerEvent::PlayerLeft { id, new_host } && id
                == player_id && new_host == host2)
            &&& out1.last().to@ == recipients(pre.players@, roster2, Some(player_id))
        }
    }
}

/// The distance reported for `id`: the first entry under that key, if any.
pub open spec fn first_dist(dists: Seq<(i64, u64)>, id: i64) -> Option<u64>
    decreases dists.len(),
{
    if dists.len() == 0 {
        None
    } else if dists[0].0 == id {
        Some(dists[0].1)
    } else {
        first_dist(dists.drop_first(), id)
    }
}

proof fn lemma_first_dist_at(dists: Seq<(i64, u64)>, id: i64, k: int)
    requires
        0 <= k < dists.len(),
        dists[k].0 == id,
        forall|j: int| 0 <= j < k ==> dists[j].0 != id,
    ensures
        first_dist(dists, id) == Some(dists[k].1),
    decreases k,
{
    if k > 0 {
        lemma_first_dist_at(dists.drop_first(), id, k - 1);
    }
}

proof fn lemma_first_dist_none(dists: Seq<(i64, u64)>, id: i64)
    requires
        forall|j: int| 0 <= j < dists.len() ==> dists[j].0 != id,
    ensures
        first_dist(dists, id) is None,
    decreases dists.len(),
{
    if dists.len() > 0 {
        lemma_first_dist_none(dists.drop_first(), id);
    }
}

/// The first distance entry for `id`, as `first_dist` names it.
fn find_dist(dists: &Vec<(i64, u64)>, id: i64) -> (r: Option<u64>)
    ensures
        r == first_dist(dists@, id),
{
    let mut k: usize = 0;
    while k < dists.len()
        invariant
            0 <= k <= dists@.len(),
            forall|j: int| 0 <= j < k ==> dists@[j].0 != id,
        decreases dists@.len() - k,
    {
        if dists[k].0 == id {
            proof {
                lemma_first_dist_at(dists@, id, k as int);
            }
            return Some(dists[k].1);
        }
        k = k + 1;
    }
    proof {
        lemma_first_dist_none(dists@, id);
    }
    None
}

/// One scoring pass: every entry but the seeker's gains `gain_spec` of its
/// reported distance, capped; entries without a report and the seeker's
/// entry stay as they are.
pub open spec fn tick_scores(scores: Seq<(i64, u64)>, dists: Seq<(i64, u64)>, seeker: i64) -> Seq<
    (i64, u64),
> {
    scores.map_values(
        |e: (i64, u64)|
            if e.0 == seeker {
                e
            } else {
                match first_dist(dists, e.0) {
                    Some(d) => (e.0, sat_add_spec(e.1, gain_spec(d))),
                    None => e,
                }
            },
    )
}

/// A copy of a score table.
fn copy_scores(v: &Vec<(i64, u64)>) -> (r: Vec<(i64, u64)>)
    ensures
        r@ == v@,
{
    let mut r: Vec<(i64, u64)> = Vec::new();
    let mut k: usize = 0;
    while k < v.len()
        invariant
            0 <= k <= v@.len(),
            r@ == v@.take(k as int),
        decreases v@.len() - k,
    {
        proof {
            assert(v@.take(k as int + 1) =~= v@.take(k as int).push(v@[k as int]));
        }
        r.push(v[k]);
        k = k + 1;
    }
    proof {
        assert(v@.take(v@.len() as int) =~= v@);
    }
    r
}

/// Everything `end_game` promises. A playing game's tick is dropped, its
/// state becomes `Ended`, and the roster learns `GameEnded` with the
/// first-placed scorer; any other code is left alone.
pub open spec fn end_post(
    pre: GameServer,
    post: GameServer,
    game_id: u16,
    out0: Seq<Outbound>,
    out1: Seq<Outbound>,
) -> bool {
    if has_key(pre.games@, game_id) && pre.games@[key_index(pre.games@, game_id)].1.state is Playing {
        let gi = key_index(pre.games@, game_id);
        let g = pre.games@[gi].1;
        &&& post.players == pre.players
        &&& post.games@ == pre.games@.update(gi, (game_id, post.games@[gi].1))
        &&& ({
            let g2 = post.games@[gi].1;
            &&& g2.host == g.host
            &&& g2.pos == g.pos
            &&& g2.length == g.length
            &&& g2.players@ == g.players@
            &&& g2.state is Ended
        })
        &&& ticks_removed(pre.ticks@, post.ticks@, game_id)
        &&& out1.len() == out0.len() + 1
        &&& out1.drop_last() == out0
        &&& (out1.last().event matches ServerEvent::GameEnded { winner } && (g.state matches
        GameState::Playing { scores, .. } && exists|m: u64| is_winner(scores@, winner, m)))
        &&& out1.last().to@ == recipients(pre.players@, g.players@, None)
    } else {
        &&& post == pre
        &&& out1 == out0
    }
}

/// The reporting targets of one scoring pass: every scored player but the
/// seeker that is connected and has a position, with that position, in
/// score order.
pub open spec fn scored_targets(
    players: Seq<(i64, Player)>,
    scores: Seq<(i64, u64)>,
    seeker: i64,
) -> Seq<(i64, Coord)>
    decreases scores.len(),
{
    if scores.len() == 0 {
        Seq::empty()
    } else {
        let rest = scored_targets(players, scores.drop_last(), seeker);
        let e = scores.last();
        if e.0 != seeker && has_key(players, e.0) && lookup(players, e.0).pos is Some {
            rest.push((e.0, lookup(players, e.0).pos.unwrap()))
        } else {
            rest
        }
    }
}

/// Everything `update_game` promises. For a playing game: scores advance
/// by `tick_scores` of the reported distances, the clock gains a second,
/// the roster learns `ScoreUpdate` with the new table and the seconds
/// left, and once the configured length is reached the game ends as
/// `end_post` says. Other codes are left alone.
pub open spec fn update_post(
    pre: GameServer,
    post: GameServer,
    game_id: u16,
    dists: Seq<(i64, u64)>,
    out0: Seq<Outbound>,
    out1: Seq<Outbound>,
) -> bool {
    if has_key(pre.games@, game_id) && pre.games@[key_index(pre.games@, game_id)].1.state is Playing {
        let gi = key_index(pre.games@, game_id);
        let g = pre.games@[gi].1;
        g.state matches GameState::Playing { seeker, elapsed, scores } ==> {
            let ns = tick_scores(scores@, dists, seeker);
            let e2: u64 = if elapsed < u64::MAX {
                (elapsed + 1) as u64
            } else {
                elapsed
            };
            let left: u64 = if g.length >= e2 {
                (g.length - e2) as u64
            } else {
                0
            };
            let ended = e2 >= g.length;
            &&& post.players == pre.players
            &&& post.games@ == pre.games@.update(gi, (game_id, post.games@[gi].1))
            &&& ({
                let g2 = post.games@[gi].1;
                &&& g2.host == g.host
                &&& g2.pos == g.pos
                &&& g2.length == g.length
                &&& g2.players@ == g.players@
                &&& if ended {
                    g2.state is Ended
                } else {
                    g2.state matches GameState::Playing { seeker: s2, elapsed: ee, scores: sc2 }
                        && s2 == seeker && ee == e2 && sc2@ == ns
                }
            })
            &&& (if ended {
                ticks_removed(pre.ticks@, post.ticks@, game_id)
            } else {
                post.ticks == pre.ticks
            })
            &&& out1.len() == out0.len() + (if ended {
                2int
            } else {
                1int
            })
            &&& out1.take(out0.len() as int) == out0
            &&& (out1[out0.len() as int].event matches ServerEvent::ScoreUpdate {
                scores: sc,
                seconds_left,
            } && sc@ == ns && seconds_left == left)
            &&& out1[out0.len() as int].to@ == recipients(pre.players@, g.players@, None)
            &&& (ended ==> {
                &&& (out1.last().event matches ServerEvent::GameEnded { winner } && exists|m: u64|
                is_winner(ns, winner, m))
                &&& out1.last().to@ == recipients(pre.players@, g.players@, None)
            })
        }
    } else {
        &&& post == pre
        &&& out1 == out0
    }
}

/// From `find_game`'s success: the code is live, the player sits in the
/// game stored under it, and so in some game.
proof fn lemma_find_pins(s: GameServer, p: i64, code: u16)
    requires
        keys_unique(s.games@),
        exists|i: int|
            0 <= i < s.games@.len() && (#[trigger] s.games@[i]).0 == code
                && s.games@[i].1.players@.contains(p),
    ensures
        has_key(s.games@, code),
        s.in_any_game(p),
        s.games@[key_index(s.games@, code)].1.players@.contains(p),
{
    let i = choose|i: int|
        0 <= i < s.games@.len() && (#[trigger] s.games@[i]).0 == code
            && s.games@[i].1.players@.contains(p);
    lemma_key_index_unique(s.games@, code, i);
    assert(s.games@[i].1.players@.contains(p));
}

/// Everything `disconnect` promises: an unknown id moves nothing; a known
/// one first leaves their game exactly as `leave` says, with its fan-out
/// and some swallowed reply, then has their player record dropped.
pub open spec fn disconnect_post(
    pre: GameServer,
    post: GameServer,
    id: i64,
    out0: Seq<Outbound>,
    out1: Seq<Outbound>,
) -> bool {
    if has_key(pre.players@, id) {
        exists|mid: GameServer, r: Option<ServerEvent>|
            {
                &&& #[trigger] leave_post(pre, mid, id, out0, out1, r)
                &&& post.games == mid.games
                &&& post.ticks == mid.ticks
                &&& post.players@ == pre.players@.remove(key_index(pre.players@, id))
            }
    } else {
        &&& post == pre
        &&& out1 == out0
    }
}

/// Everything `handle` promises: each request resolves exactly as its
/// handler's contract says; `Connect` is refused here.
pub open spec fn handle_post(
    pre: GameServer,
    post: GameServer,
    sender: i64,
    event: ClientEvent,
    out0: Seq<Outbound>,
    out1: Seq<Outbound>,
    r: Option<ServerEvent>,
) -> bool {
    match event {
        ClientEvent::Connect { .. } => {
            &&& post == pre
            &&& out1 == out0
            &&& (r matches Some(e) && is_error(
                e,
                "Connect should be handled with Handler<Connect>"@,
            ))
        },
        ClientEvent::Chat { message } => {
            &&& r is None
            &&& chat_post(pre, post, sender, message, out0, out1)
        },
        ClientEvent::JoinGame { game } => join_post(pre, post, sender, game, out0, out1, r),
        ClientEvent::LeaveGame => leave_post(pre, post, sender, out0, out1, r),
        ClientEvent::CreateGame { x, y, minutes } => {
            &&& out1 == out0
            &&& create_post(pre, post, sender, (Coord { x, y }), minutes, r)
        },
        ClientEvent::StartGame => start_post(pre, post, sender, out0, out1, r),
        ClientEvent::UpdatePosition { x, y } => {
            &&& out1 == out0
            &&& set_pos_post(pre, post, sender, (Coord { x, y }), r)
        },
        ClientEvent::TagPlayer { player, photo } => tag_post(
            pre,
            post,
            sender,
            player,
            photo,
            out0,
            out1,
            r,
        ),
    }
}

/// Dropping a player whom no roster references preserves the invariant.
proof fn lemma_remove_player_inv(pre: GameServer, post: GameServer, i: int)
    requires
        pre.inv(),
        0 <= i < pre.players@.len(),
        post.players@ == pre.players@.remove(i),
        post.games == pre.games,
        post.ticks == pre.ticks,
        forall|j: int|
            0 <= j < pre.games@.len() ==> !(#[trigger] pre.games@[j]).1.players@.contains(
                pre.players@[i].0,
            ),
    ensures
        post.inv(),
{
    let pp = pre.players@;
    let qp = post.players@;
    let id = pp[i].0;
    assert(keys_unique(qp)) by {
        assert forall|a: int, b: int| 0 <= a < b < qp.len() implies qp[a].0 != qp[b].0 by {
            let a0 = if a < i { a } else { a + 1 };
            let b0 = if b < i { b } else { b + 1 };
            assert(qp[a] == pp[a0]);
            assert(qp[b] == pp[b0]);
            assert(pp[a0].0 != pp[b0].0);
        }
    }
    assert forall|j: int| 0 <= j < post.games@.len() implies game_ok(
        post.players@,
        (#[trigger] post.games@[j]).1,
    ) by {
        let g = post.games@[j].1;
        assert(game_ok(pre.players@, g));
        assert forall|k: int| 0 <= k < g.players@.len() implies has_key(
            qp,
            #[trigger] g.players@[k],
        ) by {
            let p = g.players@[k];
            assert(has_key(pp, p));
            let m = choose|m: int| 0 <= m < pp.len() && pp[m].0 == p;
            assert(g.players@.contains(p));
            assert(p != id);
            assert(m != i);
            let mq = if m < i { m } else { m - 1 };
            assert(qp[mq] == pp[m]);
        }
    }
}

// ---------------------------------------------------------------------------
// Handlers: position, chat, create, connect
// ---------------------------------------------------------------------------

/// The seconds a game created for `minutes` minutes runs, capped at the
/// largest representable duration.
pub open spec fn length_secs(minutes: u64) -> u64 {
    if minutes * 60 <= u64::MAX {
        (minutes * 60) as u64
    } else {
        u64::MAX
    }
}

impl GameServer {
    /// Store a reported position on the sender's player record.
    /// Unknown ids are answered `Error{"Player not found"}`.
    pub fn set_pos(&mut self, player_id: i64, pos: Coord) -> (r: Option<ServerEvent>)
        requires
            old(self).inv(),
        ensures
            final(self).inv(),
            set_pos_post(*old(self), *final(self), player_id, pos, r),
    {
        let idx = self.player_idx(player_id);
        match idx {
            None => Some(ServerEvent::error("Player not found")),
            Some(i) => {
                proof {
                    lemma_key_index_unique(self.players@, player_id, i as int);
                }
                let (id0, p) = self.players.remove(i);
                let name = p.name;
                self.players.insert(i, (id0, Player { name, pos: Some(pos) }));
                proof {
                    crate::table::lemma_remove_insert(
                        old(self).players@,
                        i as int,
                        (id0, Player { name: old(self).players@[i as int].1.name, pos: Some(pos) }),
                    );
                    lemma_players_values_changed(*old(self), *self);
                }
                None
            },
        }
    }

    /// Relay a chat line to the whole roster of the sender's game,
    /// including the sender; a no-op when the sender is in no game.
    pub fn chat(&mut self, player_id: i64, message: String, out: &mut Vec<Outbound>) -> (r: Option<
        ServerEvent,
    >)
        requires
            old(self).inv(),
        ensures
            final(self).inv(),
            r is None,
            chat_post(*old(self), *final(self), player_id, message, old(out)@, final(out)@),
    {
        let found = self.find_game(player_id);
        match found {
            None => None,
            Some(code) => {
                proof {
                    let i = choose|i: int|
                        0 <= i < self.games@.len() && (#[trigger] self.games@[i]).0 == code
                            && self.games@[i].1.players@.contains(player_id);
                    lemma_key_index_unique(self.games@, code, i);
                }
                self.fanout(
                    code,
                    ServerEvent::Chat { sender: player_id, message },
                    None,
                    out,
                );
                None
            },
        }
    }

    /// Open a new lobby for `host_id` at `pos`, running `minutes` minutes
    /// once started, and reply `JoinedGame` with the fresh code and an
    /// empty member list. A host already in a game is refused.
    pub fn create(&mut self, host_id: i64, pos: Coord, minutes: u64) -> (r: Option<ServerEvent>)
        requires
            old(self).inv(),
            has_key(old(self).players@, host_id),
        ensures
            final(self).inv(),
            create_post(*old(self), *final(self), host_id, pos, minutes, r),
    {
        let found = self.find_game(host_id);
        match found {
            Some(code0) => {
                proof {
                    let i = choose|i: int|
                        0 <= i < self.games@.len() && (#[trigger] self.games@[i]).0 == code0
                            && self.games@[i].1.players@.contains(host_id);
                    assert(self.games@[i].1.players@.contains(host_id));
                    assert(self.in_any_game(host_id));
                }
                Some(ServerEvent::error("Already in a game"))
            },
            None => {
                let fresh = generate_code(&self.games);
                match fresh {
                    None => Some(ServerEvent::error("Could not create game")),
                    Some(code) => {
                        let length: u64 = if minutes <= u64::MAX / 60 {
                            minutes * 60
                        } else {
                            u64::MAX
                        };
                        let g = Game::new(host_id, pos, length);
                        self.games.push((code, g));
                        proof {
                            let g2 = self.games@.last().1;
                            assert(g2.players@ =~= seq![host_id]);
                            assert(g2.players@[0] == host_id);
                            assert(g2.players@.contains(host_id));
                            assert forall|p: i64| #[trigger] g2.players@.contains(p) implies
                                !old(self).in_any_game(p) by {
                                let k = choose|k: int| 0 <= k < g2.players@.len() && g2.players@[k]
                                    == p;
                                assert(p == host_id);
                            }
                            lemma_push_game_inv(*old(self), *self, code, g2);
                            assert(self.games@.drop_last() =~= old(self).games@);
                        }
                        Some(
                            ServerEvent::JoinedGame {
                                id: code,
                                x: pos.x,
                                y: pos.y,
                                players: Vec::new(),
                                host: host_id,
                            },
                        )
                    },
                }
            },
        }
    }

    /// The members of `roster` paired with their display names, in roster
    /// order.
    fn roster_snapshot(&self, roster: &Vec<i64>) -> (snap: Vec<(i64, String)>)
        requires
            keys_unique(self.players@),
            forall|k: int| 0 <= k < roster@.len() ==> has_key(self.players@, #[trigger] roster@[k]),
        ensures
            snap@.len() == roster@.len(),
            forall|k: int|
                0 <= k < roster@.len() ==> (#[trigger] snap@[k]).0 == roster@[k] && snap@[k].1@
                    == lookup(self.players@, roster@[k]).name@,
    {
        let mut snap: Vec<(i64, String)> = Vec::new();
        let mut k: usize = 0;
        while k < roster.len()
            invariant
                0 <= k <= roster@.len(),
                keys_unique(self.players@),
                forall|j: int| 0 <= j < roster@.len() ==> has_key(self.players@, #[trigger] roster@[j]),
                snap@.len() == k,
                forall|j: int|
                    0 <= j < k ==> (#[trigger] snap@[j]).0 == roster@[j] && snap@[j].1@
                        == lookup(self.players@, roster@[j]).name@,
            decreases roster@.len() - k,
        {
            let id = roster[k];
            let idx = self.player_idx(id);
            match idx {
                Some(j) => {
                    proof {
                        lemma_key_index_unique(self.players@, id, j as int);
                    }
                    snap.push((id, self.players[j].1.name.clone()));
                },
                None => {
                    proof {
                        assert(has_key(self.players@, id));
                        assert(false);
                    }
                },
            }
            k = k + 1;
        }
        snap
    }

    /// Put `player_id` into the waiting game under `game_id`: the joiner is
    /// answered `JoinedGame` with a member snapshot taken before the join,
    /// and the previous members learn `PlayerJoined`. Refused when the
    /// player is unknown or already in a game, the code is dead, or the
    /// game has started or ended.
    pub fn join(&mut self, player_id: i64, game_id: u16, out: &mut Vec<Outbound>) -> (r: Option<
        ServerEvent,
    >)
        requires
            old(self).inv(),
        ensures
            final(self).inv(),
            join_post(*old(self), *final(self), player_id, game_id, old(out)@, final(out)@, r),
    {
        let pidx = match self.player_idx(player_id) {
            None => { return Some(ServerEvent::error("Player not found")) },
            Some(i) => i,
        };
        proof {
            lemma_key_index_unique(self.players@, player_id, pidx as int);
        }
        let name = self.players[pidx].1.name.clone();
        match self.find_game(player_id) {
            Some(c) => {
                proof {
                    lemma_find_pins(*self, player_id, c);
                }
                return Some(ServerEvent::error("Already in a game"));
            },
            None => {},
        }
        let gidx = match self.game_idx(game_id) {
            None => { return Some(ServerEvent::error("Game does not exist")) },
            Some(i) => i,
        };
        proof {
            lemma_key_index_unique(self.games@, game_id, gidx as int);
        }
        match &self.games[gidx].1.state {
            GameState::Playing { .. } => {
                return Some(ServerEvent::error("Game already started"));
            },
            GameState::Ended => { return Some(ServerEvent::error("Game already ended")) },
            GameState::Waiting => {},
        }
        let snap = self.roster_snapshot(&self.games[gidx].1.players);
        let (code, mut g) = self.games.remove(gidx);
        let host = g.host;
        let gx = g.pos.x;
        let gy = g.pos.y;
        let ghost roster0 = g.players@;
        g.players.push(player_id);
        self.games.insert(gidx, (code, g));
        proof {
            crate::table::lemma_remove_insert(
                old(self).games@,
                gidx as int,
                self.games@[gidx as int],
            );
            let g2 = self.games@[gidx as int].1;
            assert(g2.players@ == roster0.push(player_id));
            assert(game_ok(old(self).players@, g2)) by {
                assert(game_ok(old(self).players@, old(self).games@[gidx as int].1));
                assert forall|k: int| 0 <= k < g2.players@.len() implies has_key(
                    old(self).players@,
                    #[trigger] g2.players@[k],
                ) by {
                    if k < roster0.len() {
                        assert(g2.players@[k] == roster0[k]);
                    } else {
                        assert(g2.players@[k] == player_id);
                    }
                }
                assert(g2.players@.no_duplicates()) by {
                    if roster0.contains(player_id) {
                        assert(old(self).in_any_game(player_id));
                    }
                }
                assert(g2.players@.contains(g2.host)) by {
                    assert(roster0.contains(g2.host));
                    let k = choose|k: int| 0 <= k < roster0.len() && roster0[k] == g2.host;
                    assert(g2.players@[k] == g2.host);
                }
            }
            assert forall|p: i64| #[trigger] g2.players@.contains(p) implies
                old(self).games@[gidx as int].1.players@.contains(p) || !old(self).in_any_game(
                p,
            ) by {
                let k = choose|k: int| 0 <= k < g2.players@.len() && g2.players@[k] == p;
                if k < roster0.len() {
                    assert(roster0[k] == p);
                }
            }
            lemma_replace_game_inv(*old(self), *self, gidx as int, g2);
        }
        self.fanout(game_id, ServerEvent::PlayerJoined { id: player_id, name }, Some(player_id), out);
        proof {
            lemma_key_index_unique(self.games@, game_id, gidx as int);
            let pred = |id: i64| Some(id) != Some(player_id) && has_key(old(self).players@, id);
            assert(self.games@[gidx as int].1.players@ == roster0.push(player_id));
            roster0.lemma_filter_push(player_id, pred);
            assert(recipients(old(self).players@, roster0.push(player_id), Some(player_id))
                == recipients(old(self).players@, roster0, Some(player_id)));
        }
        Some(ServerEvent::JoinedGame { id: game_id, x: gx, y: gy, players: snap, host })
    }

    /// Start the waiting game hosted by `player_id`: every member starts
    /// at zero, a random member becomes the seeker, a tick is scheduled,
    /// and the roster learns `GameStarted`.
    pub fn start(&mut self, player_id: i64, out: &mut Vec<Outbound>) -> (r: Option<ServerEvent>)
        requires
            old(self).inv(),
        ensures
            final(self).inv(),
            start_post(*old(self), *final(self), player_id, old(out)@, final(out)@, r),
    {
        let code = match self.find_game(player_id) {
            None => { return Some(ServerEvent::error("Could not start game")) },
            Some(c) => c,
        };
        proof {
            lemma_find_pins(*self, player_id, code);
        }
        let gidx = match self.game_idx(code) {
            None => {
                proof {
                    assert(false);
                }
                return None;
            },
            Some(i) => i,
        };
        proof {
            lemma_key_index_unique(self.games@, code, gidx as int);
            lemma_game_of_unique(*self, player_id, gidx as int);
        }
        if self.games[gidx].1.host != player_id {
            return Some(ServerEvent::error("Only the host can start the game"));
        }
        if self.games[gidx].1.players.len() < 2 {
            return Some(ServerEvent::error("Not enough players to start the game"));
        }
        match &self.games[gidx].1.state {
            GameState::Waiting => {},
            _ => { return Some(ServerEvent::error("Could not start game")) },
        }
        let (code0, g) = self.games.remove(gidx);
        let Game { host, players: roster, pos, length, state: _ } = g;
        let mut scores: Vec<(i64, u64)> = Vec::new();
        let mut k: usize = 0;
        while k < roster.len()
            invariant
                0 <= k <= roster@.len(),
                scores@.len() == k,
                forall|j: int| 0 <= j < k ==> #[trigger] scores@[j] == (roster@[j], 0u64),
            decreases roster@.len() - k,
        {
            scores.push((roster[k], 0));
            k = k + 1;
        }
        proof {
            assert(scores@ =~= init_scores(roster@));
        }
        let j = random_below(roster.len());
        let seeker = roster[j];
        let g2 = Game {
            host,
            players: roster,
            pos,
            length,
            state: GameState::Playing { seeker, elapsed: 0, scores },
        };
        self.games.insert(gidx, (code0, g2));
        self.ticks.push(code0);
        proof {
            crate::table::lemma_remove_insert(
                old(self).games@,
                gidx as int,
                self.games@[gidx as int],
            );
            let g2v = self.games@[gidx as int].1;
            assert(game_ok(old(self).players@, g2v)) by {
                let g0 = old(self).games@[gidx as int].1;
                assert(game_ok(old(self).players@, g0));
                assert(g2v.players@ =~= g0.players@);
                assert(g2v.players@.contains(seeker)) by {
                    assert(g2v.players@[j as int] == seeker);
                }
                let sc = init_scores(g2v.players@);
                assert(keys_unique(sc)) by {
                    assert forall|a: int, b: int| 0 <= a < b < sc.len() implies sc[a].0
                        != sc[b].0 by {
                        assert(g2v.players@[a] != g2v.players@[b]);
                    }
                }
                assert forall|m: int| 0 <= m < g2v.players@.len() implies has_key(
                    sc,
                    #[trigger] g2v.players@[m],
                ) by {
                    assert(sc[m].0 == g2v.players@[m]);
                }
            }
            lemma_start_inv(*old(self), *self, gidx as int, g2v);
        }
        self.fanout(code, ServerEvent::GameStarted { seeker }, None, out);
        proof {
            lemma_key_index_unique(self.games@, code, gidx as int);
        }
        None
    }

    /// Transfer the seeker role of a playing game from its seeker
    /// `player_id` to roster member `other_id`, telling the whole roster
    /// `PlayerTagged`. Any precondition failure is answered
    /// `Error{"Could not tag player"}`.
    pub fn tag(&mut self, player_id: i64, other_id: i64, photo: String, out: &mut Vec<Outbound>) -> (r:
        Option<ServerEvent>)
        requires
            old(self).inv(),
        ensures
            final(self).inv(),
            tag_post(*old(self), *final(self), player_id, other_id, photo, old(out)@, final(out)@, r),
    {
        let code = match self.find_game(player_id) {
            None => { return Some(ServerEvent::error("Could not tag player")) },
            Some(c) => c,
        };
        proof {
            lemma_find_pins(*self, player_id, code);
        }
        let gidx = match self.game_idx(code) {
            None => {
                proof {
                    assert(false);
                }
                return None;
            },
            Some(i) => i,
        };
        proof {
            lemma_key_index_unique(self.games@, code, gidx as int);
            lemma_game_of_unique(*self, player_id, gidx as int);
        }
        let sk: i64 = match &self.games[gidx].1.state {
            GameState::Playing { seeker, .. } => *seeker,
            _ => { return Some(ServerEvent::error("Could not tag player")) },
        };
        if sk != player_id {
            return Some(ServerEvent::error("Could not tag player"));
        }
        if !vec_contains_i64(&self.games[gidx].1.players, other_id) {
            return Some(ServerEvent::error("Could not tag player"));
        }
        let (code0, g) = self.games.remove(gidx);
        let Game { host, players: roster, pos, length, state } = g;
        match state {
            GameState::Playing { seeker: _, elapsed, scores } => {
                let g2 = Game {
                    host,
                    players: roster,
                    pos,
                    length,
                    state: GameState::Playing { seeker: other_id, elapsed, scores },
                };
                self.games.insert(gidx, (code0, g2));
                proof {
                    crate::table::lemma_remove_insert(
                        old(self).games@,
                        gidx as int,
                        self.games@[gidx as int],
                    );
                    let g2v = self.games@[gidx as int].1;
                    let g0 = old(self).games@[gidx as int].1;
                    assert(game_ok(old(self).players@, g0));
                    assert(g2v.players@ =~= g0.players@);
                    assert(game_ok(old(self).players@, g2v));
                    lemma_replace_game_inv(*old(self), *self, gidx as int, g2v);
                }
                self.fanout(code, ServerEvent::PlayerTagged { tagger: player_id, tagged: other_id, photo }, None, out);
                proof {
                    lemma_key_index_unique(self.games@, code, gidx as int);
                }
                None
            },
            _ => {
                proof {
                    assert(false);
                }
                None
            },
        }
    }

    /// Drop the scheduled tick for `code`, if one is listed.
    fn remove_tick(&mut self, code: u16)
        requires
            old(self).ticks@.no_duplicates(),
        ensures
            final(self).players == old(self).players,
            final(self).games == old(self).games,
            ticks_removed(old(self).ticks@, final(self).ticks@, code),
    {
        let mut j: usize = 0;
        while j < self.ticks.len()
            invariant
                0 <= j <= self.ticks@.len(),
                forall|m: int| 0 <= m < j ==> self.ticks@[m] != code,
                self.ticks@.no_duplicates(),
                self.players == old(self).players,
                self.games == old(self).games,
                self.ticks == old(self).ticks,
            decreases self.ticks@.len() - j,
        {
            if self.ticks[j] == code {
                proof {
                    crate::table::lemma_remove_no_dup(self.ticks@, j as int);
                }
                self.ticks.remove(j);
                return;
            }
            j = j + 1;
        }
        proof {
            assert(!self.ticks@.contains(code)) by {
                if self.ticks@.contains(code) {
                    let m = choose|m: int| 0 <= m < self.ticks@.len() && self.ticks@[m] == code;
                    assert(self.ticks@[m] != code);
                }
            }
        }
    }

    /// Take `player_id` out of their game, resolving the game as the state
    /// machine demands, answer them `LeftGame`, and tell the remaining
    /// members `PlayerLeft`. A player in no game is answered
    /// `Error{"Could not leave game"}`.
    #[verifier::rlimit(100)]
    #[verifier::spinoff_prover]
    pub fn leave(&mut self, player_id: i64, out: &mut Vec<Outbound>) -> (r: Option<ServerEvent>)
        requires
            old(self).inv(),
        ensures
            final(self).inv(),
            leave_post(*old(self), *final(self), player_id, old(out)@, final(out)@, r),
            !final(self).in_any_game(player_id),
    {
        let code = match self.find_game(player_id) {
            None => {
                return Some(ServerEvent::error("Could not leave game"));
            },
            Some(c) => c,
        };
        proof {
            lemma_find_pins(*self, player_id, code);
        }
        let gidx = match self.game_idx(code) {
            None => {
                proof {
                    assert(false);
                }
                return None;
            },
            Some(i) => i,
        };
        proof {
            lemma_key_index_unique(self.games@, code, gidx as int);
            lemma_game_of_unique(*self, player_id, gidx as int);
            lemma_roster_without_props(self.games@[gidx as int].1.players@, player_id);
        }
        let (code0, g) = self.games.remove(gidx);
        let Game { host, players: roster, pos, length, state } = g;
        let roster2 = remove_val_i64(&roster, player_id);
        match state {
            GameState::Playing { seeker, elapsed, scores } => {
                if roster2.len() < 2 {
                    self.remove_tick(code0);
                    let w: i64 = match find_winner(&scores) {
                        Some(wm) => wm.0,
                        None => {
                            proof {
                                assert(false);
                            }
                            0
                        },
                    };
                    let g2 = Game {
                        host,
                        players: roster2,
                        pos,
                        length,
                        state: GameState::Ended,
                    };
                    self.games.insert(gidx, (code0, g2));
                    proof {
                        crate::table::lemma_remove_insert(
                            old(self).games@,
                            gidx as int,
                            self.games@[gidx as int],
                        );
                        let g2v = self.games@[gidx as int].1;
                        let g0 = old(self).games@[gidx as int].1;
                        assert(game_ok(old(self).players@, g2v)) by {
                            assert(game_ok(old(self).players@, g0));
                            assert(g2v.players@.len() > 0);
                            assert forall|k: int| 0 <= k < g2v.players@.len() implies has_key(
                                old(self).players@,
                                #[trigger] g2v.players@[k],
                            ) by {
                                assert(g2v.players@.contains(g2v.players@[k]));
                                assert(g0.players@.contains(g2v.players@[k]));
                            }
                        }
                        assert forall|p: i64| #[trigger] self.games@[gidx as int].1.players@.contains(
                            p,
                        ) implies g0.players@.contains(p) by {}
                        lemma_end_inv(*old(self), *self, gidx as int, g2v);
                    }
                    self.fanout(code0, ServerEvent::GameEnded { winner: w }, None, out);
                    self.fanout(
                        code0,
                        ServerEvent::PlayerLeft { id: player_id, new_host: host },
                        Some(player_id),
                        out,
                    );
                    proof {
                        lemma_key_index_unique(self.games@, code0, gidx as int);
                        assert(!self.in_any_game(player_id)) by {
                            if self.in_any_game(player_id) {
                                let j = choose|j: int|
                                    0 <= j < self.games@.len() && (#[trigger] self.games@[j]).1.players@.contains(
                                        player_id,
                                    );
                                if j != gidx as int {
                                    assert(old(self).games@[j].1.players@.contains(player_id));
                                    assert(old(self).games@[gidx as int].1.players@.contains(
                                        player_id,
                                    ));
                                }
                            }
                        }
                        assert(out@.take(old(out)@.len() as int) =~= old(out)@);
                        assert(out@[old(out)@.len() as int].event matches ServerEvent::GameEnded { winner } && winner == w);
                    }
                    Some(ServerEvent::LeftGame)
                } else {
                    let s2: i64 = if seeker == player_id {
                        let j = random_below(roster2.len());
                        roster2[j]
                    } else {
                        seeker
                    };
                    proof {
                        if seeker == player_id {
                            assert(roster2@.contains(s2)) by {
                                assert(exists|j: int|
                                    0 <= j < roster2@.len() && roster2@[j] == s2);
                            }
                        }
                    }
                    let g2 = Game {
                        host,
                        players: roster2,
                        pos,
                        length,
                        state: GameState::Playing { seeker: s2, elapsed, scores },
                    };
                    self.games.insert(gidx, (code0, g2));
                    proof {
                        crate::table::lemma_remove_insert(
                            old(self).games@,
                            gidx as int,
                            self.games@[gidx as int],
                        );
                        let g2v = self.games@[gidx as int].1;
                        let g0 = old(self).games@[gidx as int].1;
                        assert(game_ok(old(self).players@, g2v)) by {
                            assert(game_ok(old(self).players@, g0));
                            assert forall|k: int| 0 <= k < g2v.players@.len() implies has_key(
                                old(self).players@,
                                #[trigger] g2v.players@[k],
                            ) by {
                                assert(g2v.players@.contains(g2v.players@[k]));
                                assert(g0.players@.contains(g2v.players@[k]));
                            }
                            assert(g2v.players@.contains(s2)) by {
                                if seeker != player_id {
                                    assert(g0.players@.contains(seeker));
                                }
                            }
                            assert(g2v.state matches GameState::Playing { scores: sc, .. }
                                ==> sc == scores);
                            assert forall|k: int| 0 <= k < g2v.players@.len() implies has_key(
                                scores@,
                                #[trigger] g2v.players@[k],
                            ) by {
                                assert(g2v.players@.contains(g2v.players@[k]));
                                assert(g0.players@.contains(g2v.players@[k]));
                                let m = choose|m: int|
                                    0 <= m < g0.players@.len() && g0.players@[m]
                                        == g2v.players@[k];
                                assert(has_key(scores@, g0.players@[m]));
                            }
                        }
                        assert forall|p: i64| #[trigger] g2v.players@.contains(p) implies
                            g0.players@.contains(p) || !old(self).in_any_game(p) by {}
                        lemma_replace_game_inv(*old(self), *self, gidx as int, g2v);
                    }
                    self.fanout(
                        code0,
                        ServerEvent::PlayerLeft { id: player_id, new_host: host },
                        Some(player_id),
                        out,
                    );
                    proof {
                        lemma_key_index_unique(self.games@, code0, gidx as int);
                        assert(!self.in_any_game(player_id)) by {
                            if self.in_any_game(player_id) {
                                let j = choose|j: int|
                                    0 <= j < self.games@.len() && (#[trigger] self.games@[j]).1.players@.contains(
                                        player_id,
                                    );
                                if j != gidx as int {
                                    assert(old(self).games@[j].1.players@.contains(player_id));
                                    assert(old(self).games@[gidx as int].1.players@.contains(
                                        player_id,
                                    ));
                                }
                            }
                        }
                    }
                    Some(ServerEvent::LeftGame)
                }
            },
            st => {
                if roster2.len() == 0 {
                    proof {
                        lemma_cancel_inv(*old(self), *self, gidx as int);
                        assert(!self.in_any_game(player_id)) by {
                            if self.in_any_game(player_id) {
                                let j = choose|j: int|
                                    0 <= j < self.games@.len() && (#[trigger] self.games@[j]).1.players@.contains(
                                        player_id,
                                    );
                                let j0 = if j < gidx as int {
                                    j
                                } else {
                                    j + 1
                                };
                                assert(self.games@[j] == old(self).games@[j0]);
                                assert(old(self).games@[j0].1.players@.contains(player_id));
                                assert(old(self).games@[gidx as int].1.players@.contains(
                                    player_id,
                                ));
                            }
                        }
                    }
                    out.push(Outbound { to: Vec::new(), event: ServerEvent::LeftGame });
                    proof {
                        assert(final(out)@.drop_last() =~= old(out)@);
                    }
                    Some(ServerEvent::LeftGame)
                } else {
                    let host2: i64 = if host == player_id {
                        roster2[0]
                    } else {
                        host
                    };
                    let g2 = Game { host: host2, players: roster2, pos, length, state: st };
                    self.games.insert(gidx, (code0, g2));
                    proof {
                        crate::table::lemma_remove_insert(
                            old(self).games@,
                            gidx as int,
                            self.games@[gidx as int],
                        );
                        let g2v = self.games@[gidx as int].1;
                        let g0 = old(self).games@[gidx as int].1;
                        assert(game_ok(old(self).players@, g2v)) by {
                            assert(game_ok(old(self).players@, g0));
                            assert forall|k: int| 0 <= k < g2v.players@.len() implies has_key(
                                old(self).players@,
                                #[trigger] g2v.players@[k],
                            ) by {
                                assert(g2v.players@.contains(g2v.players@[k]));
                                assert(g0.players@.contains(g2v.players@[k]));
                            }
                            if g2v.state is Waiting {
                                assert(g2v.players@.contains(g2v.host)) by {
                                    if host == player_id {
                                        assert(g2v.players@[0] == host2);
                                    } else {
                                        assert(g0.players@.contains(host));
                                    }
                                }
                            }
                        }
                        assert forall|p: i64| #[trigger] g2v.players@.contains(p) implies
                            g0.players@.contains(p) || !old(self).in_any_game(p) by {}
                        lemma_replace_game_inv(*old(self), *self, gidx as int, g2v);
                    }
                    self.fanout(
                        code0,
                        ServerEvent::PlayerLeft { id: player_id, new_host: host2 },
                        Some(player_id),
                        out,
                    );
                    proof {
                        lemma_key_index_unique(self.games@, code0, gidx as int);
                        assert(!self.in_any_game(player_id)) by {
                            if self.in_any_game(player_id) {
                                let j = choose|j: int|
                                    0 <= j < self.games@.len() && (#[trigger] self.games@[j]).1.players@.contains(
                                        player_id,
                                    );
                                if j != gidx as int {
                                    assert(old(self).games@[j].1.players@.contains(player_id));
                                    assert(old(self).games@[gidx as int].1.players@.contains(
                                        player_id,
                                    ));
                                }
                            }
                        }
                    }
                    Some(ServerEvent::LeftGame)
                }
            },
        }
    }

    /// End the playing game under `game_id`: drop its tick, mark it
    /// `Ended`, and announce `GameEnded` with the first-placed scorer to
    /// the roster. Codes of waiting or ended games are left alone.
    pub fn end_game(&mut self, game_id: u16, out: &mut Vec<Outbound>)
        requires
            old(self).inv(),
        ensures
            final(self).inv(),
            end_post(*old(self), *final(self), game_id, old(out)@, final(out)@),
    {
        let gidx = match self.game_idx(game_id) {
            None => { return ; },
            Some(i) => i,
        };
        proof {
            lemma_key_index_unique(self.games@, game_id, gidx as int);
        }
        match &self.games[gidx].1.state {
            GameState::Playing { .. } => {},
            _ => { return ; },
        }
        self.remove_tick(game_id);
        let (code0, g) = self.games.remove(gidx);
        let Game { host, players: roster, pos, length, state } = g;
        match state {
            GameState::Playing { seeker: _, elapsed: _, scores } => {
                let w: i64 = match find_winner(&scores) {
                    Some(wm) => wm.0,
                    None => {
                        proof {
                            assert(false);
                        }
                        0
                    },
                };
                let g2 = Game { host, players: roster, pos, length, state: GameState::Ended };
                self.games.insert(gidx, (code0, g2));
                proof {
                    crate::table::lemma_remove_insert(
                        old(self).games@,
                        gidx as int,
                        self.games@[gidx as int],
                    );
                    let g2v = self.games@[gidx as int].1;
                    let g0 = old(self).games@[gidx as int].1;
                    assert(game_ok(old(self).players@, g2v)) by {
                        assert(game_ok(old(self).players@, g0));
                        assert(g2v.players@ =~= g0.players@);
                    }
                    assert forall|p: i64| #[trigger] g2v.players@.contains(p) implies
                        g0.players@.contains(p) by {}
                    lemma_end_inv(*old(self), *self, gidx as int, g2v);
                }
                self.fanout(game_id, ServerEvent::GameEnded { winner: w }, None, out);
                proof {
                    lemma_key_index_unique(self.games@, game_id, gidx as int);
                    assert(out@.last().event matches ServerEvent::GameEnded { winner }
                        && winner == w);
                }
            },
            _ => {
                proof {
                    assert(false);
                }
            },
        }
    }

    /// The origin and the reporting targets of the playing game under
    /// `game_id`: every scored player but the seeker that is still
    /// connected and has reported a position, with that position. The
    /// caller measures each target's distance from the origin and hands
    /// the results to `update_game`.
    pub fn tick_inputs(&self, game_id: u16) -> (r: Option<(Coord, Vec<(i64, Coord)>)>)
        requires
            self.inv(),
        ensures
            match r {
                Some(oc) => has_key(self.games@, game_id) && ({
                    let g = self.games@[key_index(self.games@, game_id)].1;
                    &&& g.state is Playing
                    &&& oc.0 == g.pos
                    &&& (g.state matches GameState::Playing { seeker, scores, .. } ==> oc.1@
                        == scored_targets(self.players@, scores@, seeker))
                }),
                None => !has_key(self.games@, game_id) || !(self.games@[key_index(
                    self.games@,
                    game_id,
                )].1.state is Playing),
            },
    {
        let gidx = match self.game_idx(game_id) {
            None => { return None },
            Some(i) => i,
        };
        proof {
            lemma_key_index_unique(self.games@, game_id, gidx as int);
        }
        match &self.games[gidx].1.state {
            GameState::Playing { seeker, scores, .. } => {
                let sk: i64 = *seeker;
                let mut targets: Vec<(i64, Coord)> = Vec::new();
                let mut k: usize = 0;
                while k < scores.len()
                    invariant
                        0 <= k <= scores@.len(),
                        keys_unique(self.players@),
                        targets@ == scored_targets(self.players@, scores@.take(k as int), sk),
                    decreases scores@.len() - k,
                {
                    proof {
                        let t = scores@.take(k as int);
                        assert(scores@.take(k as int + 1) =~= t.push(scores@[k as int]));
                        assert(t.push(scores@[k as int]).drop_last() =~= t);
                    }
                    let id = scores[k].0;
                    if id != sk {
                        match self.player_idx(id) {
                            Some(j) => {
                                proof {
                                    lemma_key_index_unique(self.players@, id, j as int);
                                }
                                match &self.players[j].1.pos {
                                    Some(c) => { targets.push((id, *c)) },
                                    None => {},
                                }
                            },
                            None => {},
                        }
                    }
                    k = k + 1;
                }
                proof {
                    assert(scores@.take(scores@.len() as int) =~= scores@);
                }
                Some((self.games[gidx].1.pos, targets))
            },
            _ => None,
        }
    }

    /// One scoring tick for the playing game under `game_id`, with the
    /// measured distances in millimetres. Every reported non-seeker gains
    /// by their distance, the clock advances one second, and the roster
    /// learns `ScoreUpdate`; when the configured length is reached the
    /// game ends. Codes of waiting or ended games are left alone.
    pub fn update_game(&mut self, game_id: u16, dists: &Vec<(i64, u64)>, out: &mut Vec<Outbound>)
        requires
            old(self).inv(),
        ensures
            final(self).inv(),
            update_post(*old(self), *final(self), game_id, dists@, old(out)@, final(out)@),
    {
        let gidx = match self.game_idx(game_id) {
            None => { return ; },
            Some(i) => i,
        };
        proof {
            lemma_key_index_unique(self.games@, game_id, gidx as int);
        }
        match &self.games[gidx].1.state {
            GameState::Playing { .. } => {},
            _ => { return ; },
        }
        let (code0, g) = self.games.remove(gidx);
        let Game { host, players: roster, pos, length, state } = g;
        match state {
            GameState::Playing { seeker, elapsed, scores } => {
                let mut ns: Vec<(i64, u64)> = Vec::new();
                let mut k: usize = 0;
                while k < scores.len()
                    invariant
                        0 <= k <= scores@.len(),
                        ns@.len() == k,
                        forall|j: int|
                            0 <= j < k ==> #[trigger] ns@[j] == tick_scores(
                                scores@,
                                dists@,
                                seeker,
                            )[j],
                    decreases scores@.len() - k,
                {
                    let (id, sc) = scores[k];
                    if id == seeker {
                        ns.push((id, sc));
                    } else {
                        match find_dist(dists, id) {
                            Some(d) => { ns.push((id, sat_add(sc, tick_gain(d)))) },
                            None => { ns.push((id, sc)) },
                        }
                    }
                    k = k + 1;
                }
                proof {
                    assert(ns@ =~= tick_scores(scores@, dists@, seeker));
                }
                let e2: u64 = if elapsed < u64::MAX {
                    elapsed + 1
                } else {
                    elapsed
                };
                let left: u64 = if length >= e2 {
                    length - e2
                } else {
                    0
                };
                let ended: bool = e2 >= length;
                let ns_copy = copy_scores(&ns);
                let g2 = Game {
                    host,
                    players: roster,
                    pos,
                    length,
                    state: GameState::Playing { seeker, elapsed: e2, scores: ns },
                };
                self.games.insert(gidx, (code0, g2));
                proof {
                    crate::table::lemma_remove_insert(
                        old(self).games@,
                        gidx as int,
                        self.games@[gidx as int],
                    );
                    let g2v = self.games@[gidx as int].1;
                    let g0 = old(self).games@[gidx as int].1;
                    assert(game_ok(old(self).players@, g2v)) by {
                        assert(game_ok(old(self).players@, g0));
                        assert(g2v.players@ =~= g0.players@);
                        let sc0 = scores@;
                        let scn = tick_scores(sc0, dists@, seeker);
                        assert(g2v.state matches GameState::Playing { scores: s, .. } && s@
                            == scn);
                        assert(keys_unique(scn)) by {
                            assert forall|a: int, b: int| 0 <= a < b < scn.len() implies scn[a].0
                                != scn[b].0 by {
                                assert(scn[a].0 == sc0[a].0);
                                assert(scn[b].0 == sc0[b].0);
                            }
                        }
                        assert forall|m: int| 0 <= m < g2v.players@.len() implies has_key(
                            scn,
                            #[trigger] g2v.players@[m],
                        ) by {
                            assert(has_key(sc0, g2v.players@[m]));
                            let j = choose|j: int| 0 <= j < sc0.len() && sc0[j].0
                                == g2v.players@[m];
                            assert(scn[j].0 == g2v.players@[m]);
                        }
                    }
                    assert forall|p: i64| #[trigger] g2v.players@.contains(p) implies
                        g0.players@.contains(p) || !old(self).in_any_game(p) by {}
                    lemma_replace_game_inv(*old(self), *self, gidx as int, g2v);
                }
                self.fanout(
                    game_id,
                    ServerEvent::ScoreUpdate { scores: ns_copy, seconds_left: left },
                    None,
                    out,
                );
                proof {
                    lemma_key_index_unique(self.games@, game_id, gidx as int);
                }
                if ended {
                    self.end_game(game_id, out);
                    proof {
                        assert(self.games@ =~= old(self).games@.update(
                            gidx as int,
                            (game_id, self.games@[gidx as int].1),
                        ));
                        assert(out@.take(old(out)@.len() as int) =~= old(out)@);
                    }
                }
            },
            _ => {
                proof {
                    assert(false);
                }
            },
        }
    }

    /// A session went away: take its player out of their game as `leave`
    /// does, swallowing any error, then drop the player record. Unknown
    /// ids are a no-op.
    pub fn disconnect(&mut self, id: i64, out: &mut Vec<Outbound>)
        requires
            old(self).inv(),
        ensures
            final(self).inv(),
            !has_key(final(self).players@, id),
            !final(self).in_any_game(id),
            disconnect_post(*old(self), *final(self), id, old(out)@, final(out)@),
    {
        match self.player_idx(id) {
            None => {
                proof {
                    assert(!self.in_any_game(id)) by {
                        if self.in_any_game(id) {
                            let j = choose|j: int|
                                0 <= j < self.games@.len() && (#[trigger] self.games@[j]).1.players@.contains(
                                    id,
                                );
                            let g = self.games@[j].1;
                            assert(game_ok(self.players@, g));
                            let k = choose|k: int| 0 <= k < g.players@.len() && g.players@[k]
                                == id;
                            assert(has_key(self.players@, g.players@[k]));
                        }
                    }
                }
            },
            Some(_) => {
                let r1 = self.leave(id, out);
                let ghost mid = *self;
                let ghost out_mid = out@;
                let ghost r1g = r1;
                let j = match self.player_idx(id) {
                    Some(j) => j,
                    None => {
                        proof {
                            assert(has_key(old(self).players@, id));
                            assert(false);
                        }
                        0
                    },
                };
                proof {
                    lemma_key_index_unique(self.players@, id, j as int);
                }
                self.players.remove(j);
                proof {
                    assert(!mid.in_any_game(id));
                    assert forall|m: int| 0 <= m < mid.games@.len() implies !(
                    #[trigger] mid.games@[m]).1.players@.contains(id) by {
                        if mid.games@[m].1.players@.contains(id) {
                            assert(mid.in_any_game(id));
                        }
                    }
                    lemma_remove_player_inv(mid, *self, j as int);
                    assert(disconnect_post(*old(self), *self, id, old(out)@, out@)) by {
                        assert(leave_post(*old(self), mid, id, old(out)@, out_mid, r1g)
                            && self.games == mid.games && self.ticks == mid.ticks
                            && self.players@ == old(self).players@.remove(
                            key_index(old(self).players@, id),
                        ) && out@ == out_mid);
                    }
                    assert(!self.in_any_game(id)) by {
                        if self.in_any_game(id) {
                            let m = choose|m: int|
                                0 <= m < self.games@.len() && (#[trigger] self.games@[m]).1.players@.contains(
                                    id,
                                );
                            assert(mid.games@[m].1.players@.contains(id));
                        }
                    }
                }
            },
        }
    }

    /// Dispatch one decoded client request, credited to `sender`, to its
    /// handler. `Connect` is not accepted here: a session registers
    /// through `connect` before it can speak.
    pub fn handle(&mut self, sender: i64, event: ClientEvent, out: &mut Vec<Outbound>) -> (r:
        Option<ServerEvent>)
        requires
            old(self).inv(),
            event matches ClientEvent::CreateGame { .. } ==> has_key(old(self).players@, sender),
        ensures
            final(self).inv(),
            handle_post(*old(self), *final(self), sender, event, old(out)@, final(out)@, r),
    {
        match event {
            ClientEvent::Connect { name: _ } => Some(
                ServerEvent::error("Connect should be handled with Handler<Connect>"),
            ),
            ClientEvent::Chat { message } => self.chat(sender, message, out),
            ClientEvent::JoinGame { game } => self.join(sender, game, out),
            ClientEvent::LeaveGame => self.leave(sender, out),
            ClientEvent::CreateGame { x, y, minutes } => self.create(
                sender,
                Coord { x, y },
                minutes,
            ),
            ClientEvent::StartGame => self.start(sender, out),
            ClientEvent::UpdatePosition { x, y } => self.set_pos(sender, Coord { x, y }),
            ClientEvent::TagPlayer { player, photo } => self.tag(sender, player, photo, out),
        }
    }

    /// Register a connected session under a fresh player id; an empty name
    /// becomes "Anonymous". Returns the id the session is known by.
    pub fn connect(&mut self, name: String) -> (id: i64)
        requires
            old(self).inv(),
            old(self).players@.len() + 1 < 0x7fff_ffff,
        ensures
            final(self).inv(),
            final(self).games == old(self).games,
            final(self).ticks == old(self).ticks,
            !has_key(old(self).players@, id),
            final(self).players@.len() == old(self).players@.len() + 1,
            final(self).players@.drop_last() == old(self).players@,
            final(self).players@.last().0 == id,
            final(self).players@.last().1.pos is None,
            final(self).players@.last().1.name@ == if name@.len() == 0 {
                "Anonymous"@
            } else {
                name@
            },
    {
        let id = generate_id(&self.players);
        let final_name: String = if name.as_str().is_empty() {
            "Anonymous".to_string()
        } else {
            name
        };
        self.players.push((id, Player { name: final_name, pos: None }));
        proof {
            lemma_push_player_inv(
                *old(self),
                *self,
                id,
                self.players@.last().1,
            );
            assert(self.players@.drop_last() =~= old(self).players@);
        }
        id
    }
}

} // verus!
