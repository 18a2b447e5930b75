use battleship::game::{Game, GameMessage};
use battleship::grid::Grid;
use battleship::grid::Cell;
use battleship::misc::take_one;
use battleship::turn::{run_session, wants, Expect, Role, StepOutcome, Termination};

fn empty_game() -> Game {
    Game { player: Grid::new_empty(), enemy: Grid::new_empty() }
}

#[test]
fn message_predicates() {
    let attack = GameMessage::Attack { x: 1, y: 2 };
    let answer = GameMessage::Answer { x: 1, y: 2, r: true };
    assert!(attack.is_attack() && !attack.is_answer() && !attack.is_ack() && !attack.is_stop());
    assert!(answer.is_answer() && !answer.is_attack());
    assert!(GameMessage::Ack.is_ack() && !GameMessage::Ack.is_stop());
    assert!(GameMessage::Stop.is_stop() && !GameMessage::Stop.is_ack());
}

#[test]
fn attack_misses_empty_tagged_wreckage_without_mutation() {
    let mut player = Grid::new_empty();
    player.set(0, 1, Cell::Tagged);
    player.set(0, 2, Cell::Wreckage);
    let mut game = Game { player, enemy: Grid::new_empty() };

    assert_eq!(game.receive_attack(0, 0), GameMessage::Answer { x: 0, y: 0, r: false });
    assert_eq!(game.player.at(0, 0), Cell::Empty);
    assert_eq!(game.receive_attack(0, 1), GameMessage::Answer { x: 0, y: 1, r: false });
    assert_eq!(game.player.at(0, 1), Cell::Tagged);
    assert_eq!(game.receive_attack(0, 2), GameMessage::Answer { x: 0, y: 2, r: false });
    assert_eq!(game.player.at(0, 2), Cell::Wreckage);
}

#[test]
fn attack_hits_ship_exactly_once() {
    let mut player = Grid::new_empty();
    player.set(3, 4, Cell::Ship);
    let mut game = Game { player, enemy: Grid::new_empty() };

    assert_eq!(game.receive_attack(3, 4), GameMessage::Answer { x: 3, y: 4, r: true });
    assert_eq!(game.player.at(3, 4), Cell::Wreckage);
    // re-attacking the wreckage is a miss and changes nothing further
    assert_eq!(game.receive_attack(3, 4), GameMessage::Answer { x: 3, y: 4, r: false });
    assert_eq!(game.player.at(3, 4), Cell::Wreckage);
}

#[test]
fn answer_marks_enemy_view() {
    let mut game = empty_game();
    assert_eq!(game.acknowledge_answer(2, 5, true), GameMessage::Ack);
    assert_eq!(game.enemy.at(2, 5), Cell::Wreckage);
    assert_eq!(game.acknowledge_answer(1, 1, false), GameMessage::Ack);
    assert_eq!(game.enemy.at(1, 1), Cell::Tagged);
    // the earlier mark is untouched by the later answer
    assert_eq!(game.enemy.at(2, 5), Cell::Wreckage);
    // the own board is untouched throughout
    assert_eq!(game.player.at(2, 5), Cell::Empty);
}

#[test]
fn answer_never_rederives_a_mark() {
    let mut game = empty_game();
    assert_eq!(game.acknowledge_answer(2, 5, true), GameMessage::Ack);
    assert_eq!(game.enemy.at(2, 5), Cell::Wreckage);
    // a later answer for the same cell does not downgrade the mark
    assert_eq!(game.acknowledge_answer(2, 5, false), GameMessage::Ack);
    assert_eq!(game.enemy.at(2, 5), Cell::Wreckage);
    // nor does a later hit overwrite a miss mark
    assert_eq!(game.acknowledge_answer(0, 0, false), GameMessage::Ack);
    assert_eq!(game.acknowledge_answer(0, 0, true), GameMessage::Ack);
    assert_eq!(game.enemy.at(0, 0), Cell::Tagged);
}

#[test]
fn make_attack_wraps_coordinate() {
    let game = empty_game();
    assert_eq!(game.make_attack((7, 8)), GameMessage::Attack { x: 7, y: 8 });
}

#[test]
fn scenario_attack_answer_acknowledge() {
    // responder's board has a ship section at (3, 4)
    let mut rplayer = Grid::new_empty();
    rplayer.set(3, 4, Cell::Ship);
    let mut responder = Game { player: rplayer, enemy: Grid::new_empty() };
    let out = responder.step(GameMessage::Attack { x: 3, y: 4 }, (0, 0));
    assert_eq!(
        out,
        StepOutcome::Reply {
            sent: GameMessage::Answer { x: 3, y: 4, r: true },
            next: Expect::AckOrStop,
        }
    );

    // the initiator records the confirmed hit and closes the half-round
    let mut initiator = empty_game();
    let out = initiator.step(GameMessage::Answer { x: 3, y: 4, r: true }, (0, 0));
    assert_eq!(
        out,
        StepOutcome::Reply { sent: GameMessage::Ack, next: Expect::AttackOrStop }
    );
    assert_eq!(initiator.enemy.at(3, 4), Cell::Wreckage);
}

#[test]
fn stop_finishes_in_every_state() {
    let mut game = empty_game();
    assert_eq!(game.step(GameMessage::Stop, (0, 0)), StepOutcome::Finished);
    assert_eq!(game.enemy.at(0, 0), Cell::Empty);
    assert_eq!(game.player.at(0, 0), Cell::Empty);
}

#[test]
fn wants_matches_expectation() {
    assert!(wants(Expect::AttackOrStop, &GameMessage::Attack { x: 0, y: 0 }));
    assert!(wants(Expect::AttackOrStop, &GameMessage::Stop));
    assert!(!wants(Expect::AttackOrStop, &GameMessage::Ack));
    assert!(wants(Expect::AnswerOrStop, &GameMessage::Answer { x: 0, y: 0, r: false }));
    assert!(!wants(Expect::AnswerOrStop, &GameMessage::Attack { x: 0, y: 0 }));
    assert!(wants(Expect::AckOrStop, &GameMessage::Ack));
    assert!(!wants(Expect::AckOrStop, &GameMessage::Answer { x: 0, y: 0, r: true }));
}

#[test]
fn take_one_skips_unmatched_messages() {
    let items = vec![
        GameMessage::Ack,
        GameMessage::Answer { x: 1, y: 1, r: true },
        GameMessage::Attack { x: 0, y: 0 },
    ];
    assert_eq!(
        take_one(&items, 0, Expect::AttackOrStop),
        Ok((GameMessage::Attack { x: 0, y: 0 }, 2))
    );
    assert_eq!(
        take_one(&items, 0, Expect::AnswerOrStop),
        Ok((GameMessage::Answer { x: 1, y: 1, r: true }, 1))
    );
    assert!(take_one(&items, 2, Expect::AnswerOrStop).is_err());
    assert!(take_one(&items, 0, Expect::AckOrStop).is_ok());
    assert!(take_one(&vec![], 0, Expect::AckOrStop).is_err());
}

#[test]
fn session_initiator_alternates_and_stops() {
    let mut game = empty_game();
    let inbound = vec![
        GameMessage::Answer { x: 0, y: 0, r: false },
        GameMessage::Attack { x: 2, y: 2 },
        GameMessage::Ack,
        GameMessage::Stop,
    ];
    let moves = vec![(0, 0), (1, 1), (9, 9), (9, 8), (8, 8)];
    let end = run_session(&mut game, Role::Initiator, &inbound, &moves);
    assert_eq!(end.why, Termination::PeerStopped);
    assert_eq!(
        end.sent,
        vec![
            GameMessage::Attack { x: 0, y: 0 },
            GameMessage::Ack,
            GameMessage::Answer { x: 2, y: 2, r: false },
            GameMessage::Attack { x: 1, y: 1 },
        ]
    );
    assert_eq!(end.taken, inbound);
    assert_eq!(end.read, 4);
    assert_eq!(end.moves_used, 2);
    // strict alternation: one reply per message acted on
    assert_eq!(end.sent.len(), end.taken.len());
    // the missed attack was recorded on the enemy view
    assert_eq!(game.enemy.at(0, 0), Cell::Tagged);
}

#[test]
fn session_responder_answers_then_stops() {
    let mut game = empty_game();
    let inbound = vec![
        GameMessage::Attack { x: 5, y: 5 },
        GameMessage::Ack,
        GameMessage::Stop,
    ];
    let moves = vec![(4, 4), (3, 3), (2, 2), (1, 1)];
    let end = run_session(&mut game, Role::Responder, &inbound, &moves);
    assert_eq!(end.why, Termination::PeerStopped);
    assert_eq!(
        end.sent,
        vec![
            GameMessage::Answer { x: 5, y: 5, r: false },
            GameMessage::Attack { x: 4, y: 4 },
        ]
    );
    assert_eq!(end.taken, inbound);
    assert_eq!(end.sent.len() + 1, end.taken.len());
    assert_eq!(end.moves_used, 1);
}

#[test]
fn session_stop_first_sends_nothing_more() {
    let mut game = empty_game();
    let inbound = vec![GameMessage::Stop];
    let moves = vec![(0, 0), (1, 1)];
    let end = run_session(&mut game, Role::Responder, &inbound, &moves);
    assert_eq!(end.why, Termination::PeerStopped);
    assert!(end.sent.is_empty());
    assert_eq!(end.taken, vec![GameMessage::Stop]);
    assert_eq!(end.moves_used, 0);

    let mut game = empty_game();
    let end = run_session(&mut game, Role::Initiator, &inbound, &moves);
    assert_eq!(end.why, Termination::PeerStopped);
    // the initiator had already sent its first attack when the stop came
    assert_eq!(end.sent, vec![GameMessage::Attack { x: 0, y: 0 }]);
    assert_eq!(end.taken, vec![GameMessage::Stop]);
}

#[test]
fn session_channel_close_terminates() {
    let mut game = empty_game();
    let inbound: Vec<GameMessage> = vec![];
    let moves = vec![(6, 6)];
    let end = run_session(&mut game, Role::Initiator, &inbound, &moves);
    assert_eq!(end.why, Termination::ChannelClosed);
    assert_eq!(end.sent, vec![GameMessage::Attack { x: 6, y: 6 }]);
    assert!(end.taken.is_empty());
    assert_eq!(end.read, 0);

    let mut game = empty_game();
    let end = run_session(&mut game, Role::Responder, &inbound, &moves);
    assert_eq!(end.why, Termination::ChannelClosed);
    assert!(end.sent.is_empty());
    assert!(end.taken.is_empty());
}

#[test]
fn session_skips_unawaited_messages() {
    let mut game = empty_game();
    // the stray Ack and Attack while an Answer is awaited are discarded
    let inbound = vec![
        GameMessage::Ack,
        GameMessage::Attack { x: 9, y: 9 },
        GameMessage::Answer { x: 7, y: 7, r: true },
        GameMessage::Stop,
    ];
    let moves = vec![(7, 7), (0, 0), (1, 1), (2, 2), (3, 3)];
    let end = run_session(&mut game, Role::Initiator, &inbound, &moves);
    assert_eq!(end.why, Termination::PeerStopped);
    assert_eq!(
        end.sent,
        vec![GameMessage::Attack { x: 7, y: 7 }, GameMessage::Ack]
    );
    assert_eq!(
        end.taken,
        vec![GameMessage::Answer { x: 7, y: 7, r: true }, GameMessage::Stop]
    );
    // the two skipped messages were read past, never acted on
    assert_eq!(end.read, 4);
    assert_eq!(game.enemy.at(7, 7), Cell::Wreckage);
}
