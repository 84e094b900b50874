use tag_server::message::{Outbound, ServerEvent};
use tag_server::server::{Coord, Game, GameServer};

fn connect(s: &mut GameServer, name: &str) -> i64 {
    s.connect(name.to_string())
}

fn expect_error(r: Option<ServerEvent>, want: &str) {
    match r {
        Some(ServerEvent::Error { message }) => assert_eq!(message, want),
        other => panic!("expected Error {:?}, got {:?}", want, other.is_some()),
    }
}

fn created_game(r: Option<ServerEvent>) -> (u16, i64) {
    match r {
        Some(ServerEvent::JoinedGame { id, x, y, players, host }) => {
            assert_eq!(x, 0);
            assert_eq!(y, 0);
            assert!(players.is_empty());
            (id, host)
        },
        _ => panic!("expected JoinedGame"),
    }
}

#[test]
fn lone_create() {
    let mut s = GameServer::new();
    let a = connect(&mut s, "Alice");
    let r = s.create(a, Coord { x: 0, y: 0 }, 1);
    let (_, host) = created_game(r);
    assert_eq!(host, a);
    let mut out: Vec<Outbound> = Vec::new();
    let r2 = s.start(a, &mut out);
    expect_error(r2, "Not enough players to start the game");
    assert!(out.is_empty());
}

#[test]
fn join_happy_path() {
    let mut s = GameServer::new();
    let a = connect(&mut s, "Alice");
    let (g, _) = created_game(s.create(a, Coord { x: 0, y: 0 }, 1));
    let b = connect(&mut s, "Bob");
    let mut out: Vec<Outbound> = Vec::new();
    let r = s.join(b, g, &mut out);
    match r {
        Some(ServerEvent::JoinedGame { id, x, y, players, host }) => {
            assert_eq!(id, g);
            assert_eq!(x, 0);
            assert_eq!(y, 0);
            assert_eq!(players.len(), 1);
            assert_eq!(players[0].0, a);
            assert_eq!(players[0].1, "Alice");
            assert_eq!(host, a);
        },
        _ => panic!("expected JoinedGame"),
    }
    assert_eq!(out.len(), 1);
    assert_eq!(out[0].to, vec![a]);
    match &out[0].event {
        ServerEvent::PlayerJoined { id, name } => {
            assert_eq!(*id, b);
            assert_eq!(name, "Bob");
        },
        _ => panic!("expected PlayerJoined"),
    }
}

fn two_player_playing() -> (GameServer, i64, i64, u16, i64, i64) {
    let mut s = GameServer::new();
    let a = connect(&mut s, "Alice");
    let (g, _) = created_game(s.create(a, Coord { x: 0, y: 0 }, 1));
    let b = connect(&mut s, "Bob");
    let mut out: Vec<Outbound> = Vec::new();
    s.join(b, g, &mut out);
    out.clear();
    let r = s.start(a, &mut out);
    assert!(r.is_none());
    assert_eq!(out.len(), 1);
    assert_eq!(out[0].to, vec![a, b]);
    let seeker = match &out[0].event {
        ServerEvent::GameStarted { seeker } => *seeker,
        _ => panic!("expected GameStarted"),
    };
    assert!(seeker == a || seeker == b);
    let runner = if seeker == a { b } else { a };
    (s, a, b, g, seeker, runner)
}

#[test]
fn start_and_tick() {
    let (mut s, a, b, g, seeker, runner) = two_player_playing();
    assert_eq!(s.active_ticks(), &vec![g]);
    let r = s.set_pos(runner, Coord { x: 100, y: 0 });
    assert!(r.is_none());
    let (origin, targets) = s.tick_inputs(g).expect("playing game has tick inputs");
    assert_eq!(origin.x, 0);
    assert_eq!(origin.y, 0);
    assert_eq!(targets.len(), 1);
    assert_eq!(targets[0].0, runner);
    assert_eq!(targets[0].1.x, 100);
    let mut out: Vec<Outbound> = Vec::new();
    // 11.13 m from the origin, in millimetres
    s.update_game(g, &vec![(runner, 11_130)], &mut out);
    assert_eq!(out.len(), 1);
    assert_eq!(out[0].to, vec![a, b]);
    match &out[0].event {
        ServerEvent::ScoreUpdate { scores, seconds_left } => {
            assert_eq!(*seconds_left, 59);
            let sk = scores.iter().find(|e| e.0 == seeker).unwrap().1;
            let rn = scores.iter().find(|e| e.0 == runner).unwrap().1;
            assert_eq!(sk, 0);
            // 20_000_000 / (11_130 + 2_000) milli-points
            assert_eq!(rn, 1523);
        },
        _ => panic!("expected ScoreUpdate"),
    }
}

#[test]
fn tag_transfer() {
    let (mut s, a, b, g, seeker, runner) = two_player_playing();
    let mut out: Vec<Outbound> = Vec::new();
    let r = s.tag(seeker, runner, "x".to_string(), &mut out);
    assert!(r.is_none());
    assert_eq!(out.len(), 1);
    assert_eq!(out[0].to, vec![a, b]);
    match &out[0].event {
        ServerEvent::PlayerTagged { tagger, tagged, photo } => {
            assert_eq!(*tagger, seeker);
            assert_eq!(*tagged, runner);
            assert_eq!(photo, "x");
        },
        _ => panic!("expected PlayerTagged"),
    }
    // After the transfer the old runner is the seeker: their score is
    // frozen, the old seeker's begins accumulating.
    out.clear();
    s.update_game(g, &vec![(seeker, 0), (runner, 0)], &mut out);
    match &out[0].event {
        ServerEvent::ScoreUpdate { scores, .. } => {
            let old_seeker = scores.iter().find(|e| e.0 == seeker).unwrap().1;
            let new_seeker = scores.iter().find(|e| e.0 == runner).unwrap().1;
            assert_eq!(old_seeker, 10_000);
            assert_eq!(new_seeker, 0);
        },
        _ => panic!("expected ScoreUpdate"),
    }
}

#[test]
fn host_leaves_in_waiting() {
    let mut s = GameServer::new();
    let a = connect(&mut s, "Alice");
    let (g, _) = created_game(s.create(a, Coord { x: 0, y: 0 }, 1));
    let b = connect(&mut s, "Bob");
    let mut out: Vec<Outbound> = Vec::new();
    s.join(b, g, &mut out);
    out.clear();
    let r = s.leave(b, &mut out);
    assert!(matches!(r, Some(ServerEvent::LeftGame)));
    assert_eq!(out.len(), 1);
    assert_eq!(out[0].to, vec![a]);
    match &out[0].event {
        ServerEvent::PlayerLeft { id, new_host } => {
            assert_eq!(*id, b);
            assert_eq!(*new_host, a);
        },
        _ => panic!("expected PlayerLeft"),
    }
    out.clear();
    let r2 = s.leave(a, &mut out);
    assert!(matches!(r2, Some(ServerEvent::LeftGame)));
    assert_eq!(out.len(), 1);
    assert!(out[0].to.is_empty());
    assert!(matches!(out[0].event, ServerEvent::LeftGame));
    assert!(s.games.is_empty());
    assert!(s.find_game(a).is_none());
}

#[test]
fn timeout_ends_game() {
    let (mut s, _a, _b, g, seeker, runner) = two_player_playing();
    // Shorten the match to two tick intervals.
    let gi = s.games.iter().position(|e| e.0 == g).unwrap();
    s.games[gi].1.length = 2;
    let mut out: Vec<Outbound> = Vec::new();
    s.update_game(g, &vec![(runner, 0)], &mut out);
    assert_eq!(out.len(), 1);
    match &out[0].event {
        ServerEvent::ScoreUpdate { seconds_left, .. } => assert_eq!(*seconds_left, 1),
        _ => panic!("expected ScoreUpdate"),
    }
    out.clear();
    s.update_game(g, &vec![(runner, 0)], &mut out);
    assert_eq!(out.len(), 2);
    match &out[0].event {
        ServerEvent::ScoreUpdate { seconds_left, .. } => assert_eq!(*seconds_left, 0),
        _ => panic!("expected ScoreUpdate"),
    }
    match &out[1].event {
        ServerEvent::GameEnded { winner } => {
            assert_eq!(*winner, runner);
            assert_ne!(*winner, seeker);
        },
        _ => panic!("expected GameEnded"),
    }
    assert!(s.active_ticks().is_empty());
    // The record is retained in the ended state until the last member leaves.
    assert_eq!(s.games.len(), 1);
}

#[test]
fn player_ids_and_codes_are_distinct() {
    let mut s = GameServer::new();
    let mut ids: Vec<i64> = Vec::new();
    for k in 0..8 {
        ids.push(connect(&mut s, &format!("p{}", k)));
    }
    for i in 0..ids.len() {
        for j in 0..i {
            assert_ne!(ids[i], ids[j]);
        }
    }
    let mut codes: Vec<u16> = Vec::new();
    for id in &ids {
        let (g, _) = created_game(s.create(*id, Coord { x: 0, y: 0 }, 1));
        codes.push(g);
    }
    for i in 0..codes.len() {
        for j in 0..i {
            assert_ne!(codes[i], codes[j]);
        }
    }
}

#[test]
fn one_game_per_player() {
    let mut s = GameServer::new();
    let a = connect(&mut s, "Alice");
    let (g, _) = created_game(s.create(a, Coord { x: 0, y: 0 }, 1));
    expect_error(s.create(a, Coord { x: 0, y: 0 }, 1), "Already in a game");
    let mut out: Vec<Outbound> = Vec::new();
    expect_error(s.join(a, g, &mut out), "Already in a game");
    assert!(out.is_empty());
}

#[test]
fn host_stays_in_roster() {
    let mut s = GameServer::new();
    let a = connect(&mut s, "Alice");
    let (g, _) = created_game(s.create(a, Coord { x: 0, y: 0 }, 1));
    let gi = s.games.iter().position(|e| e.0 == g).unwrap();
    assert_eq!(s.games[gi].1.host, a);
    assert!(s.games[gi].1.players.contains(&a));
}

#[test]
fn ticks_track_playing_games() {
    let (mut s, a, b, g, _seeker, _runner) = two_player_playing();
    assert_eq!(s.active_ticks(), &vec![g]);
    let mut out: Vec<Outbound> = Vec::new();
    // One player leaving a two-member playing game ends it; the tick goes.
    let r = s.leave(a, &mut out);
    assert!(matches!(r, Some(ServerEvent::LeftGame)));
    assert!(s.active_ticks().is_empty());
    match &out[0].event {
        ServerEvent::GameEnded { winner } => assert!(*winner == a || *winner == b),
        _ => panic!("expected GameEnded first"),
    }
}

#[test]
fn leave_twice_errors_and_changes_nothing() {
    let mut s = GameServer::new();
    let a = connect(&mut s, "Alice");
    let b = connect(&mut s, "Bob");
    let (g, _) = created_game(s.create(a, Coord { x: 0, y: 0 }, 1));
    let mut out: Vec<Outbound> = Vec::new();
    s.join(b, g, &mut out);
    out.clear();
    let r1 = s.leave(b, &mut out);
    assert!(matches!(r1, Some(ServerEvent::LeftGame)));
    let games_after: Vec<(u16, Vec<i64>)> =
        s.games.iter().map(|e| (e.0, e.1.players.clone())).collect();
    let out_len = out.len();
    let r2 = s.leave(b, &mut out);
    expect_error(r2, "Could not leave game");
    assert_eq!(out.len(), out_len);
    let games_now: Vec<(u16, Vec<i64>)> =
        s.games.iter().map(|e| (e.0, e.1.players.clone())).collect();
    assert_eq!(games_after, games_now);
}

#[test]
fn chat_reaches_whole_roster_or_nobody() {
    let mut s = GameServer::new();
    let a = connect(&mut s, "Alice");
    let mut out: Vec<Outbound> = Vec::new();
    let r = s.chat(a, "hello?".to_string(), &mut out);
    assert!(r.is_none());
    assert!(out.is_empty());
    let (g, _) = created_game(s.create(a, Coord { x: 0, y: 0 }, 1));
    let b = connect(&mut s, "Bob");
    s.join(b, g, &mut out);
    out.clear();
    let r2 = s.chat(a, "hello!".to_string(), &mut out);
    assert!(r2.is_none());
    assert_eq!(out.len(), 1);
    assert_eq!(out[0].to, vec![a, b]);
    match &out[0].event {
        ServerEvent::Chat { sender, message } => {
            assert_eq!(*sender, a);
            assert_eq!(message, "hello!");
        },
        _ => panic!("expected Chat"),
    }
}

#[test]
fn disconnect_is_leave_then_removal() {
    let mut s = GameServer::new();
    let a = connect(&mut s, "Alice");
    let b = connect(&mut s, "Bob");
    let (g, _) = created_game(s.create(a, Coord { x: 0, y: 0 }, 1));
    let mut out: Vec<Outbound> = Vec::new();
    s.join(b, g, &mut out);
    out.clear();
    s.disconnect(b, &mut out);
    assert!(!s.has_player(b));
    assert!(s.find_game(b).is_none());
    assert_eq!(out.len(), 1);
    match &out[0].event {
        ServerEvent::PlayerLeft { id, .. } => assert_eq!(*id, b),
        _ => panic!("expected PlayerLeft"),
    }
    // Unknown ids are a no-op.
    let n = s.player_count();
    out.clear();
    s.disconnect(b, &mut out);
    assert!(out.is_empty());
    assert_eq!(s.player_count(), n);
}

#[test]
fn empty_name_becomes_anonymous() {
    let mut s = GameServer::new();
    let a = connect(&mut s, "");
    let (g, _) = created_game(s.create(a, Coord { x: 0, y: 0 }, 1));
    let b = connect(&mut s, "Bob");
    let mut out: Vec<Outbound> = Vec::new();
    match s.join(b, g, &mut out) {
        Some(ServerEvent::JoinedGame { players, .. }) => {
            assert_eq!(players.len(), 1);
            assert_eq!(players[0].1, "Anonymous");
        },
        _ => panic!("expected JoinedGame"),
    }
}

#[test]
fn join_error_cases() {
    let mut s = GameServer::new();
    let a = connect(&mut s, "Alice");
    let (g, _) = created_game(s.create(a, Coord { x: 0, y: 0 }, 1));
    let b = connect(&mut s, "Bob");
    let mut out: Vec<Outbound> = Vec::new();
    expect_error(s.join(b, g.wrapping_add(1), &mut out), "Game does not exist");
    let unknown = a.wrapping_add(1) ^ b;
    if !s.has_player(unknown) {
        expect_error(s.join(unknown, g, &mut out), "Player not found");
    }
    s.join(b, g, &mut out);
    let c = connect(&mut s, "Carol");
    s.start(a, &mut out);
    expect_error(s.join(c, g, &mut out), "Game already started");
    // End the game by timeout, then try to join the ended record.
    let gi = s.games.iter().position(|e| e.0 == g).unwrap();
    s.games[gi].1.length = 1;
    s.update_game(g, &vec![], &mut out);
    expect_error(s.join(c, g, &mut out), "Game already ended");
}

#[test]
fn start_error_cases() {
    let mut s = GameServer::new();
    let a = connect(&mut s, "Alice");
    let b = connect(&mut s, "Bob");
    let mut out: Vec<Outbound> = Vec::new();
    expect_error(s.start(a, &mut out), "Could not start game");
    let (g, _) = created_game(s.create(a, Coord { x: 0, y: 0 }, 1));
    s.join(b, g, &mut out);
    expect_error(s.start(b, &mut out), "Only the host can start the game");
    out.clear();
    assert!(s.start(a, &mut out).is_none());
    // A game already running cannot be started again.
    expect_error(s.start(a, &mut out), "Could not start game");
    assert_eq!(s.active_ticks(), &vec![g]);
}

#[test]
fn tag_error_cases() {
    let mut s = GameServer::new();
    let a = connect(&mut s, "Alice");
    let b = connect(&mut s, "Bob");
    let mut out: Vec<Outbound> = Vec::new();
    expect_error(s.tag(a, b, "p".to_string(), &mut out), "Could not tag player");
    let (g, _) = created_game(s.create(a, Coord { x: 0, y: 0 }, 1));
    s.join(b, g, &mut out);
    // Not started yet.
    expect_error(s.tag(a, b, "p".to_string(), &mut out), "Could not tag player");
    out.clear();
    s.start(a, &mut out);
    let seeker = match &out[0].event {
        ServerEvent::GameStarted { seeker } => *seeker,
        _ => panic!("expected GameStarted"),
    };
    let runner = if seeker == a { b } else { a };
    // Only the seeker can tag.
    expect_error(s.tag(runner, seeker, "p".to_string(), &mut out), "Could not tag player");
    // The tagged player must be a roster member.
    let c = connect(&mut s, "Carol");
    expect_error(s.tag(seeker, c, "p".to_string(), &mut out), "Could not tag player");
}

#[test]
fn set_pos_unknown_player() {
    let mut s = GameServer::new();
    let a = connect(&mut s, "Alice");
    let unknown = a.wrapping_add(1);
    if !s.has_player(unknown) {
        match s.set_pos(unknown, Coord { x: 1, y: 2 }) {
            Some(ServerEvent::Error { message }) => assert_eq!(message, "Player not found"),
            _ => panic!("expected Error"),
        }
    }
    assert!(s.set_pos(a, Coord { x: 1, y: 2 }).is_none());
}

#[test]
fn create_fails_when_every_code_is_taken() {
    let mut s = GameServer::new();
    let a = connect(&mut s, "Alice");
    let ghost_host = a.wrapping_add(1);
    for c in 0..=u16::MAX {
        s.games.push((c, Game::new(ghost_host, Coord { x: 0, y: 0 }, 60)));
    }
    expect_error(s.create(a, Coord { x: 0, y: 0 }, 1), "Could not create game");
}

#[test]
fn seeker_replaced_when_leaving_mid_game() {
    let mut s = GameServer::new();
    let a = connect(&mut s, "Alice");
    let b = connect(&mut s, "Bob");
    let c = connect(&mut s, "Carol");
    let (g, _) = created_game(s.create(a, Coord { x: 0, y: 0 }, 1));
    let mut out: Vec<Outbound> = Vec::new();
    s.join(b, g, &mut out);
    s.join(c, g, &mut out);
    out.clear();
    s.start(a, &mut out);
    let seeker = match &out[0].event {
        ServerEvent::GameStarted { seeker } => *seeker,
        _ => panic!("expected GameStarted"),
    };
    out.clear();
    let r = s.leave(seeker, &mut out);
    assert!(matches!(r, Some(ServerEvent::LeftGame)));
    // Still playing: the remaining two keep the match alive with a fresh
    // seeker drawn from the remaining roster.
    assert_eq!(s.active_ticks(), &vec![g]);
    let gi = s.games.iter().position(|e| e.0 == g).unwrap();
    match &s.games[gi].1.state {
        tag_server::server::GameState::Playing { seeker: s2, .. } => {
            assert_ne!(*s2, seeker);
            assert!(s.games[gi].1.players.contains(s2));
        },
        _ => panic!("expected Playing"),
    }
}

#[test]
fn dispatcher_routes_events() {
    let mut s = GameServer::new();
    let a = connect(&mut s, "Alice");
    let mut out: Vec<Outbound> = Vec::new();
    let r = s.handle(
        a,
        tag_server::message::ClientEvent::Connect { name: "again".to_string() },
        &mut out,
    );
    match r {
        Some(ServerEvent::Error { message }) => {
            assert_eq!(message, "Connect should be handled with Handler<Connect>")
        },
        _ => panic!("expected Error"),
    }
    let r2 = s.handle(
        a,
        tag_server::message::ClientEvent::CreateGame { x: 0, y: 0, minutes: 1 },
        &mut out,
    );
    created_game(r2);
    let r3 = s.handle(a, tag_server::message::ClientEvent::LeaveGame, &mut out);
    assert!(matches!(r3, Some(ServerEvent::LeftGame)));
}

#[test]
fn host_leaving_mid_game_keeps_host_field() {
    let mut s = GameServer::new();
    let a = connect(&mut s, "Alice");
    let b = connect(&mut s, "Bob");
    let c = connect(&mut s, "Carol");
    let (g, _) = created_game(s.create(a, Coord { x: 0, y: 0 }, 1));
    let mut out: Vec<Outbound> = Vec::new();
    s.join(b, g, &mut out);
    s.join(c, g, &mut out);
    s.start(a, &mut out);
    out.clear();
    // During play the host field is not promoted when the host leaves;
    // only a waiting or ended game promotes the oldest member.
    let r = s.leave(a, &mut out);
    assert!(matches!(r, Some(ServerEvent::LeftGame)));
    let last = out.last().unwrap();
    match &last.event {
        ServerEvent::PlayerLeft { id, new_host } => {
            assert_eq!(*id, a);
            assert_eq!(*new_host, a);
        },
        _ => panic!("expected PlayerLeft"),
    }
    let gi = s.games.iter().position(|e| e.0 == g).unwrap();
    assert_eq!(s.games[gi].1.host, a);
    assert!(!s.games[gi].1.players.contains(&a));
}
