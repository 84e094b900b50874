use tag_server::json::Message;
use tag_server::message::ServerEvent;
use tag_server::score::{find_winner, sat_add, tick_gain};
use tag_server::server::{Coord, Game, GameServer, Player};
use tag_server::util::{contains_key_i64, contains_key_u16, generate_code, generate_id};

#[test]
fn gain_is_twenty_over_distance_plus_two() {
    // At the origin: 20 / 2 points, in milli-points.
    assert_eq!(tick_gain(0), 10_000);
    // 11.13 m away: 20 / 13.13 points.
    assert_eq!(tick_gain(11_130), 1_523);
    // One metre: 20 / 3 points.
    assert_eq!(tick_gain(1_000), 6_666);
    // Far away the gain rounds down to nothing.
    assert_eq!(tick_gain(20_000_000), 0);
    assert_eq!(tick_gain(u64::MAX), 0);
}

#[test]
fn saturating_score_addition() {
    assert_eq!(sat_add(1, 2), 3);
    assert_eq!(sat_add(u64::MAX - 1, 5), u64::MAX);
    assert_eq!(sat_add(u64::MAX, 0), u64::MAX);
}

#[test]
fn winner_is_first_maximum() {
    assert!(find_winner(&vec![]).is_none());
    assert_eq!(find_winner(&vec![(7, 0)]), Some((7, 0)));
    assert_eq!(find_winner(&vec![(1, 5), (2, 9), (3, 9)]), Some((2, 9)));
    assert_eq!(find_winner(&vec![(1, 4), (2, 4), (3, 1)]), Some((1, 4)));
}

#[test]
fn generated_keys_are_fresh() {
    let players: Vec<(i64, Player)> = vec![
        (0, Player { name: "a".to_string(), pos: None }),
        (1, Player { name: "b".to_string(), pos: None }),
    ];
    let id = generate_id(&players);
    assert!(!contains_key_i64(&players, id));
    let games: Vec<(u16, Game)> = vec![(5, Game::new(0, Coord { x: 0, y: 0 }, 60))];
    let code = generate_code(&games).expect("codes are free");
    assert!(!contains_key_u16(&games, code));
}

#[test]
fn every_code_taken_yields_none() {
    let mut games: Vec<(u16, ())> = Vec::new();
    for c in 0..=u16::MAX {
        games.push((c, ()));
    }
    games.push((0, ()));
    assert!(generate_code(&games).is_none());
}

#[test]
fn error_event_carries_text() {
    match ServerEvent::error("boom") {
        ServerEvent::Error { message } => assert_eq!(message, "boom"),
        _ => panic!("expected Error"),
    }
}

#[test]
fn lobby_messages_round_trip_fields() {
    let m = Message::JoinGame { game: 17 };
    match m {
        Message::JoinGame { game } => assert_eq!(game, 17),
        _ => panic!("expected JoinGame"),
    }
    assert!(matches!(Message::StartGame, Message::StartGame));
    assert!(matches!(Message::CreateGame, Message::CreateGame));
    match (Message::Info { message: "i".to_string() }, Message::Error { message: "e".to_string() })
    {
        (Message::Info { message: i }, Message::Error { message: e }) => {
            assert_eq!(i, "i");
            assert_eq!(e, "e");
        },
        _ => panic!("expected Info and Error"),
    }
    match (Message::SetName { name: "n".to_string() }) {
        Message::SetName { name } => assert_eq!(name, "n"),
        _ => panic!("expected SetName"),
    }
}

#[test]
fn fresh_coordinator_is_empty() {
    let s = GameServer::new();
    assert_eq!(s.player_count(), 0);
    assert!(s.games.is_empty());
    assert!(s.active_ticks().is_empty());
    assert!(!s.has_player(0));
}

#[test]
fn new_game_record_shape() {
    let g = Game::new(9, Coord { x: 3, y: 4 }, 120);
    assert_eq!(g.host, 9);
    assert_eq!(g.players, vec![9]);
    assert_eq!(g.pos.x, 3);
    assert_eq!(g.pos.y, 4);
    assert_eq!(g.length, 120);
    assert!(matches!(g.state, tag_server::server::GameState::Waiting));
}
