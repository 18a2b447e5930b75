use vstd::prelude::*;

use crate::game::{
    attack_hits, board_after_attack, view_after_answer, Game, GameMessage,
};
use crate::grid::{in_bounds, Cell};
use crate::misc::take_one;

verus! {

/// What the engine is prepared to act on next; any other inbound message
/// is skipped. A stop signal is acted on in every state.
#[derive(Copy, Clone, PartialEq, Eq, Structural, Debug)]
pub enum Expect {
    AttackOrStop,
    AnswerOrStop,
    AckOrStop,
}

/// The message matches what is awaited.
pub open spec fn awaited(e: Expect, m: GameMessage) -> bool {
    match e {
        Expect::AttackOrStop => m is Attack || m is Stop,
        Expect::AnswerOrStop => m is Answer || m is Stop,
        Expect::AckOrStop => m is Ack || m is Stop,
    }
}

pub fn wants(e: Expect, m: &GameMessage) -> (b: bool)
    ensures
        b == awaited(e, *m),
{
    match e {
        Expect::AttackOrStop => m.is_attack() || m.is_stop(),
        Expect::AnswerOrStop => m.is_answer() || m.is_stop(),
        Expect::AckOrStop => m.is_ack() || m.is_stop(),
    }
}

/// Every coordinate the message carries lies on the board.
pub open spec fn msg_in_bounds(m: GameMessage) -> bool {
    match m {
        GameMessage::Attack { x, y } => in_bounds(x as int, y as int),
        GameMessage::Answer { x, y, r } => in_bounds(x as int, y as int),
        GameMessage::Ack => true,
        GameMessage::Stop => true,
    }
}

/// What the engine awaits after it has acted on the given message.
pub open spec fn expect_after(m: GameMessage) -> Expect {
    match m {
        GameMessage::Attack { .. } => Expect::AckOrStop,
        GameMessage::Answer { .. } => Expect::AttackOrStop,
        GameMessage::Ack => Expect::AnswerOrStop,
        GameMessage::Stop => Expect::AttackOrStop,
    }
}

/// The kind of message the engine sends in reply to the one it acted on.
pub open spec fn reply_to(m: GameMessage, s: GameMessage) -> bool {
    match m {
        GameMessage::Attack { .. } => s is Answer,
        GameMessage::Answer { .. } => s is Ack,
        GameMessage::Ack => s is Attack,
        GameMessage::Stop => false,
    }
}

/// What one transition asks of the caller: send a message and await the
/// next matching one, or end the session.
#[derive(Copy, Clone, PartialEq, Eq, Structural, Debug)]
pub enum StepOutcome {
    Reply { sent: GameMessage, next: Expect },
    Finished,
}

/// The two fixed roles: the initiator sends the first attack, the
/// responder waits for it.
#[derive(Copy, Clone, PartialEq, Eq, Structural, Debug)]
pub enum Role {
    Initiator,
    Responder,
}

/// What the first consumed message must match, per role.
pub open spec fn first_expect(role: Role) -> Expect {
    match role {
        Role::Initiator => Expect::AnswerOrStop,
        Role::Responder => Expect::AttackOrStop,
    }
}

/// Why a session ended: the peer said stop, or the inbound stream ended.
#[derive(Copy, Clone, PartialEq, Eq, Structural, Debug)]
pub enum Termination {
    PeerStopped,
    ChannelClosed,
}

impl Game {
    /// One transition of the turn state machine: act on the message that
    /// drives the current state, mutate the boards as the rules say, and
    /// report what to send and what to await next - or, on a stop, that
    /// the session is over with nothing further sent.
    pub fn step(&mut self, current: GameMessage, mv: (i32, i32)) -> (out: StepOutcome)
        requires
            msg_in_bounds(current),
            current is Ack ==> in_bounds(mv.0 as int, mv.1 as int),
        ensures
            match current {
                GameMessage::Attack { x, y } => {
                    &&& out == (StepOutcome::Reply {
                        sent: GameMessage::Answer {
                            x,
                            y,
                            r: attack_hits(old(self).player.spec_at(x as int, y as int)),
                        },
                        next: Expect::AckOrStop,
                    })
                    &&& final(self).enemy == old(self).enemy
                    &&& board_after_attack(old(self).player, final(self).player, x as int, y as int)
                },
                GameMessage::Answer { x, y, r } => {
                    &&& out == (StepOutcome::Reply {
                        sent: GameMessage::Ack,
                        next: Expect::AttackOrStop,
                    })
                    &&& final(self).player == old(self).player
                    &&& view_after_answer(old(self).enemy, final(self).enemy, x as int, y as int, r)
                },
                GameMessage::Ack => {
                    &&& out == (StepOutcome::Reply {
                        sent: GameMessage::Attack { x: mv.0, y: mv.1 },
                        next: Expect::AnswerOrStop,
                    })
                    &&& *final(self) == *old(self)
                },
                GameMessage::Stop => {
                    &&& out == StepOutcome::Finished
                    &&& *final(self) == *old(self)
                },
            },
            out is Reply ==> !(out->Reply_sent is Stop),
            (out is Finished) == (current is Stop),
            out is Reply ==> out->Reply_next == expect_after(current),
            out is Reply ==> reply_to(current, out->Reply_sent),
    {
        match current {
            GameMessage::Attack { x, y } => {
                let m = self.receive_attack(x, y);
                StepOutcome::Reply { sent: m, next: Expect::AckOrStop }
            },
            GameMessage::Answer { x, y, r } => {
                let m = self.acknowledge_answer(x, y, r);
                StepOutcome::Reply { sent: m, next: Expect::AttackOrStop }
            },
            GameMessage::Ack => {
                let m = self.make_attack(mv);
                StepOutcome::Reply { sent: m, next: Expect::AnswerOrStop }
            },
            GameMessage::Stop => StepOutcome::Finished,
        }
    }
}

/// Everything a finished session produced: the messages sent, the inbound
/// messages that drove transitions, in order, how far the inbound stream
/// was consumed, how many moves were spent, and why the session ended.
#[derive(Debug)]
pub struct SessionEnd {
    pub sent: Vec<GameMessage>,
    pub taken: Vec<GameMessage>,
    pub read: usize,
    pub moves_used: usize,
    pub why: Termination,
}

/// Picks the attacks out of a transcript.
pub open spec fn attack_filter() -> spec_fn(GameMessage) -> bool {
    |m: GameMessage| m is Attack
}

/// The moves as the attack messages that carry them.
pub open spec fn attacks_of(moves: Seq<(i32, i32)>) -> Seq<GameMessage> {
    moves.map_values(|mv: (i32, i32)| GameMessage::Attack { x: mv.0, y: mv.1 })
}

/// Filtering a transcript extended by one message keeps the filtered part
/// and appends the message exactly when it passes.
proof fn lemma_filter_push(s: Seq<GameMessage>, e: GameMessage, pred: spec_fn(GameMessage) -> bool)
    ensures
        s.push(e).filter(pred) == (if pred(e) {
            s.filter(pred).push(e)
        } else {
            s.filter(pred)
        }),
{
    reveal(Seq::filter);
    assert(s.push(e).drop_last() =~= s);
}

/// The attacks in the transcript are exactly the first `used` moves, in
/// order, each wrapped as an attack message.
#[verifier::opaque]
pub open spec fn attacks_are_moves(sent: Seq<GameMessage>, moves: Seq<(i32, i32)>, used: int) -> bool {
    sent.filter(attack_filter()) == attacks_of(moves.subrange(0, used))
}

/// Sending a reply that is not an attack spends no move.
proof fn lemma_attacks_push_other(
    sent: Seq<GameMessage>,
    moves: Seq<(i32, i32)>,
    used: int,
    reply: GameMessage,
)
    requires
        attacks_are_moves(sent, moves, used),
        !(reply is Attack),
    ensures
        attacks_are_moves(sent.push(reply), moves, used),
{
    reveal(attacks_are_moves);
    lemma_filter_push(sent, reply, attack_filter());
}

/// Sending an attack spends exactly the next move.
proof fn lemma_attacks_push_attack(
    sent: Seq<GameMessage>,
    moves: Seq<(i32, i32)>,
    used: int,
    mv: (i32, i32),
)
    requires
        attacks_are_moves(sent, moves, used),
        0 <= used < moves.len(),
        mv == moves[used],
    ensures
        attacks_are_moves(
            sent.push(GameMessage::Attack { x: mv.0, y: mv.1 }),
            moves,
            used + 1,
        ),
{
    reveal(attacks_are_moves);
    let a = GameMessage::Attack { x: mv.0, y: mv.1 };
    lemma_filter_push(sent, a, attack_filter());
    assert(moves.subrange(0, used + 1) =~= moves.subrange(0, used).push(moves[used]));
    assert(attacks_of(moves.subrange(0, used + 1)) =~= attacks_of(moves.subrange(0, used)).push(
        a,
    ));
}

/// What the engine awaits once it has acted on every message taken so far.
pub open spec fn next_expect(role: Role, taken: Seq<GameMessage>) -> Expect {
    if taken.len() == 0 {
        first_expect(role)
    } else {
        expect_after(taken[taken.len() - 1])
    }
}

/// The messages acted on stand in the inbound stream at the positions
/// given, in increasing order read from the front, and every message
/// passed over on the way to one of them matched nothing the engine then
/// awaited; `read` is one past the last match, or 0 when there was none.
#[verifier::opaque]
pub open spec fn taken_from(
    role: Role,
    inbound: Seq<GameMessage>,
    taken: Seq<GameMessage>,
    read: int,
    pos: Seq<int>,
) -> bool {
    &&& pos.len() == taken.len()
    &&& forall|i: int| 0 <= i < pos.len() ==> 0 <= #[trigger] pos[i] < inbound.len()
    &&& forall|i: int| 0 < i < pos.len() ==> pos[i - 1] < #[trigger] pos[i]
    &&& forall|i: int| 0 <= i < pos.len() ==> taken[i] == inbound[#[trigger] pos[i]]
    &&& forall|i: int, j: int|
        #![trigger pos[i], inbound[j]]
        0 <= i < pos.len() && (if i == 0 {
            0
        } else {
            pos[i - 1] + 1
        }) <= j < pos[i] ==> !awaited(
            if i == 0 {
                first_expect(role)
            } else {
                expect_after(taken[i - 1])
            },
            inbound[j],
        )
    &&& read == (if pos.len() == 0 {
        0
    } else {
        pos[pos.len() - 1] + 1
    })
}

/// The message the engine acted on for its i-th send: the initiator's
/// first turn is driven by its own opening acknowledgement, every later
/// one by a consumed message.
pub open spec fn acted_on(role: Role, taken: Seq<GameMessage>, i: int) -> GameMessage {
    match role {
        Role::Initiator => if i == 0 {
            GameMessage::Ack
        } else {
            taken[i - 1]
        },
        Role::Responder => taken[i],
    }
}

/// One transition's full effect, as `Game::step` ensures it: what the
/// reply is and how the boards change for each message acted on.
pub open spec fn step_spec(before: Game, m: GameMessage, reply: GameMessage, after: Game) -> bool {
    match m {
        GameMessage::Attack { x, y } => {
            &&& reply == (GameMessage::Answer {
                x,
                y,
                r: attack_hits(before.player.spec_at(x as int, y as int)),
            })
            &&& after.enemy == before.enemy
            &&& board_after_attack(before.player, after.player, x as int, y as int)
        },
        GameMessage::Answer { x, y, r } => {
            &&& reply == GameMessage::Ack
            &&& after.player == before.player
            &&& view_after_answer(before.enemy, after.enemy, x as int, y as int, r)
        },
        GameMessage::Ack => {
            &&& reply is Attack
            &&& after == before
        },
        GameMessage::Stop => false,
    }
}

/// The session's boards and replies, transition by transition: `states`
/// runs from the state `before` the session to the state `after` it, and
/// each reply with its board change is what the turn rules make of the
/// message acted on there.
#[verifier::opaque]
pub open spec fn session_chain(
    role: Role,
    before: Game,
    after: Game,
    taken: Seq<GameMessage>,
    sent: Seq<GameMessage>,
    states: Seq<Game>,
) -> bool {
    &&& states.len() == sent.len() + 1
    &&& states[0] == before
    &&& states[states.len() - 1] == after
    &&& forall|i: int|
        0 <= i < sent.len() ==> step_spec(
            states[i],
            acted_on(role, taken, i),
            #[trigger] sent[i],
            states[i + 1],
        )
}

/// Consuming the first awaited message at `at` extends the position map.
proof fn lemma_taken_from_extend(
    role: Role,
    inbound: Seq<GameMessage>,
    taken: Seq<GameMessage>,
    read: int,
    pos: Seq<int>,
    m: GameMessage,
    at: int,
    e: Expect,
)
    requires
        taken_from(role, inbound, taken, read, pos),
        read <= at < inbound.len(),
        m == inbound[at],
        e == next_expect(role, taken),
        forall|j: int| read <= j < at ==> !awaited(e, #[trigger] inbound[j]),
    ensures
        taken_from(role, inbound, taken.push(m), at + 1, pos.push(at)),
{
    reveal(taken_from);
    let taken2 = taken.push(m);
    let pos2 = pos.push(at);
    assert forall|i: int, j: int|
        #![trigger pos2[i], inbound[j]]
        0 <= i < pos2.len() && (if i == 0 {
            0
        } else {
            pos2[i - 1] + 1
        }) <= j < pos2[i] implies !awaited(
        if i == 0 {
            first_expect(role)
        } else {
            expect_after(taken2[i - 1])
        },
        inbound[j],
    ) by {
        if i < pos.len() {
            assert(pos2[i] == pos[i]);
            if i > 0 {
                assert(pos2[i - 1] == pos[i - 1]);
                assert(taken2[i - 1] == taken[i - 1]);
            }
        } else {
            assert(pos2[i] == at);
            if i > 0 {
                assert(pos2[i - 1] == pos[pos.len() - 1]);
                assert(taken2[i - 1] == taken[taken.len() - 1]);
            }
        }
    }
}

/// Appending one verified transition extends the session's state chain.
proof fn lemma_chain_extend(
    role: Role,
    before: Game,
    mid: Game,
    after: Game,
    taken: Seq<GameMessage>,
    sent: Seq<GameMessage>,
    states: Seq<Game>,
    m: GameMessage,
    reply: GameMessage,
)
    requires
        session_chain(role, before, mid, taken, sent, states),
        m == acted_on(role, taken, sent.len() as int),
        step_spec(mid, m, reply, after),
    ensures
        session_chain(role, before, after, taken, sent.push(reply), states.push(after)),
{
    reveal(session_chain);
    let states2 = states.push(after);
    let sent2 = sent.push(reply);
    assert forall|i: int| 0 <= i < sent2.len() implies step_spec(
        states2[i],
        acted_on(role, taken, i),
        #[trigger] sent2[i],
        states2[i + 1],
    ) by {
        if i < sent.len() {
            assert(states2[i] == states[i] && states2[i + 1] == states[i + 1] && sent2[i]
                == sent[i]);
        } else {
            assert(states2[i] == states[states.len() - 1] && sent2[i] == reply && states2[i + 1]
                == after);
        }
    }
}

/// Across a whole session the boards move one way only: an own-board cell
/// keeps its value or a hit ship section turns to wreckage, and an
/// enemy-view cell keeps its value or gains a mark while unknown.
proof fn lemma_chain_monotonic(
    role: Role,
    before: Game,
    after: Game,
    taken: Seq<GameMessage>,
    sent: Seq<GameMessage>,
    states: Seq<Game>,
)
    requires
        session_chain(role, before, after, taken, sent, states),
    ensures
        forall|i: int, j: int|
            in_bounds(i, j) ==> (#[trigger] after.player.spec_at(i, j)) == before.player.spec_at(
                i,
                j,
            ) || (before.player.spec_at(i, j) == Cell::Ship && after.player.spec_at(i, j)
                == Cell::Wreckage),
        forall|i: int, j: int|
            in_bounds(i, j) ==> (#[trigger] after.enemy.spec_at(i, j)) == before.enemy.spec_at(
                i,
                j,
            ) || (before.enemy.spec_at(i, j) == Cell::Empty && (after.enemy.spec_at(i, j)
                == Cell::Tagged || after.enemy.spec_at(i, j) == Cell::Wreckage)),
    decreases sent.len(),
{
    reveal(session_chain);
    if sent.len() > 0 {
        let n = sent.len() as int;
        let mid = states[n - 1];
        assert(session_chain(role, before, mid, taken, sent.drop_last(), states.drop_last())) by {
            reveal(session_chain);
            assert forall|i: int| 0 <= i < sent.drop_last().len() implies step_spec(
                states.drop_last()[i],
                acted_on(role, taken, i),
                #[trigger] sent.drop_last()[i],
                states.drop_last()[i + 1],
            ) by {
                assert(sent.drop_last()[i] == sent[i]);
                assert(states.drop_last()[i] == states[i] && states.drop_last()[i + 1] == states[i
                    + 1]);
            }
        }
        lemma_chain_monotonic(role, before, mid, taken, sent.drop_last(), states.drop_last());
        assert(step_spec(mid, acted_on(role, taken, n - 1), sent[n - 1], states[n]));
        assert(states[n] == after);
    }
}

/// Sending one reply keeps the transcript's protocol shape: no stop is
/// ever sent, the initiator opens with an attack, and each reply answers
/// the message acted on.
proof fn lemma_shape_push_sent(
    role: Role,
    taken: Seq<GameMessage>,
    sent: Seq<GameMessage>,
    state: GameMessage,
    reply: GameMessage,
)
    requires
        forall|i: int| 0 <= i < sent.len() ==> !((#[trigger] sent[i]) is Stop),
        role == Role::Initiator && sent.len() > 0 ==> sent[0] is Attack,
        role == Role::Initiator ==> forall|i: int|
            1 <= i < sent.len() ==> reply_to(taken[i - 1], #[trigger] sent[i]),
        role == Role::Responder ==> forall|i: int|
            0 <= i < sent.len() ==> reply_to(taken[i], #[trigger] sent[i]),
        taken.len() == 0 ==> role == Role::Initiator && state == GameMessage::Ack && sent.len()
            == 0,
        taken.len() > 0 ==> state == taken[taken.len() - 1],
        role == Role::Initiator ==> sent.len() == taken.len(),
        role == Role::Responder ==> sent.len() + 1 == taken.len(),
        reply_to(state, reply),
        !(reply is Stop),
    ensures
        forall|i: int| 0 <= i < sent.push(reply).len() ==> !((#[trigger] sent.push(reply)[i]) is Stop),
        role == Role::Initiator ==> sent.push(reply)[0] is Attack,
        role == Role::Initiator ==> forall|i: int|
            1 <= i < sent.push(reply).len() ==> reply_to(taken[i - 1], #[trigger] sent.push(reply)[i]),
        role == Role::Responder ==> forall|i: int|
            0 <= i < sent.push(reply).len() ==> reply_to(taken[i], #[trigger] sent.push(reply)[i]),
{
    let sent2 = sent.push(reply);
    assert(sent2[sent.len() as int] == reply);
    assert(forall|i: int| 0 <= i < sent.len() ==> sent2[i] == sent[i]);
}

/// Consuming the next awaited message keeps the transcript's protocol
/// shape: a stop can stand only last, and each consumed message matches
/// what was awaited after its predecessor.
proof fn lemma_shape_push_taken(
    role: Role,
    taken: Seq<GameMessage>,
    sent: Seq<GameMessage>,
    state: GameMessage,
    m: GameMessage,
    e: Expect,
)
    requires
        forall|i: int| 0 <= i < taken.len() - 1 ==> !((#[trigger] taken[i]) is Stop),
        taken.len() > 0 ==> awaited(first_expect(role), taken[0]),
        forall|i: int|
            0 < i < taken.len() ==> awaited(expect_after(taken[i - 1]), #[trigger] taken[i]),
        role == Role::Initiator ==> forall|i: int|
            1 <= i < sent.len() ==> reply_to(taken[i - 1], #[trigger] sent[i]),
        role == Role::Responder ==> forall|i: int|
            0 <= i < sent.len() ==> reply_to(taken[i], #[trigger] sent[i]),
        taken.len() == 0 ==> role == Role::Initiator && state == GameMessage::Ack,
        taken.len() > 0 ==> state == taken[taken.len() - 1],
        role == Role::Initiator ==> sent.len() == taken.len() + 1,
        role == Role::Responder ==> sent.len() == taken.len(),
        !(state is Stop),
        e == expect_after(state),
        e == first_expect(role) || taken.len() > 0,
        awaited(e, m),
    ensures
        forall|i: int|
            0 <= i < taken.push(m).len() - 1 ==> !((#[trigger] taken.push(m)[i]) is Stop),
        awaited(first_expect(role), taken.push(m)[0]),
        forall|i: int|
            0 < i < taken.push(m).len() ==> awaited(
                expect_after(taken.push(m)[i - 1]),
                #[trigger] taken.push(m)[i],
            ),
        role == Role::Initiator ==> forall|i: int|
            1 <= i < sent.len() ==> reply_to(taken.push(m)[i - 1], #[trigger] sent[i]),
        role == Role::Responder ==> forall|i: int|
            0 <= i < sent.len() ==> reply_to(taken.push(m)[i], #[trigger] sent[i]),
{
    let taken2 = taken.push(m);
    assert(taken2[taken.len() as int] == m);
    assert(forall|i: int| 0 <= i < taken.len() ==> taken2[i] == taken[i]);
}

/// Consuming one more message leaves the chain of past transitions as it
/// was: each one acted on a message before the new arrival.
proof fn lemma_chain_retaken(
    role: Role,
    before: Game,
    after: Game,
    taken: Seq<GameMessage>,
    sent: Seq<GameMessage>,
    states: Seq<Game>,
    m: GameMessage,
)
    requires
        session_chain(role, before, after, taken, sent, states),
        role == Role::Initiator ==> sent.len() <= taken.len() + 1,
        role == Role::Responder ==> sent.len() <= taken.len(),
    ensures
        session_chain(role, before, after, taken.push(m), sent, states),
{
    reveal(session_chain);
    assert forall|i: int| 0 <= i < sent.len() implies step_spec(
        states[i],
        acted_on(role, taken.push(m), i),
        #[trigger] sent[i],
        states[i + 1],
    ) by {
        assert(acted_on(role, taken.push(m), i) == acted_on(role, taken, i));
    }
}

/// Drive one full game over a recorded inbound stream: act on matching
/// messages one at a time, skipping the rest, sending exactly one reply
/// per message acted on, until a stop signal or the end of the stream.
/// The move list supplies the local attack coordinates; one past the
/// inbound length is always enough, since every turn consumes a message.
#[verifier::rlimit(100)]
pub fn run_session(
    game: &mut Game,
    role: Role,
    inbound: &Vec<GameMessage>,
    moves: &Vec<(i32, i32)>,
) -> (end: SessionEnd)
    requires
        forall|k: int| 0 <= k < inbound@.len() ==> msg_in_bounds(#[trigger] inbound@[k]),
        forall|k: int|
            0 <= k < moves@.len() ==> in_bounds(
                (#[trigger] moves@[k]).0 as int,
                moves@[k].1 as int,
            ),
        moves@.len() > inbound@.len(),
    ensures
        end.taken@.len() <= end.read <= inbound@.len(),
        // the messages acted on stand in the inbound stream, in order,
        // and nothing awaited was passed over on the way to any of them
        exists|pos: Seq<int>| taken_from(role, inbound@, end.taken@, end.read as int, pos),
        // the replies and the boards are exactly what the turn rules make
        // of the messages acted on, transition by transition
        exists|states: Seq<Game>|
            session_chain(role, *old(game), *final(game), end.taken@, end.sent@, states),
        // the attacks sent are exactly the moves spent, in order
        end.moves_used <= moves@.len(),
        attacks_are_moves(end.sent@, moves@, end.moves_used as int),
        // the stream end is only reported once nothing awaited is left
        end.why == Termination::ChannelClosed ==> forall|j: int|
            end.read <= j < inbound@.len() ==> !awaited(
                next_expect(role, end.taken@),
                #[trigger] inbound@[j],
            ),
        // strict alternation: one reply per message acted on, the
        // initiator one send ahead, the responder one receive ahead
        role == Role::Initiator && end.why == Termination::PeerStopped ==> end.sent@.len()
            == end.taken@.len(),
        role == Role::Initiator && end.why == Termination::ChannelClosed ==> end.sent@.len()
            == end.taken@.len() + 1,
        role == Role::Responder && end.why == Termination::PeerStopped ==> end.sent@.len() + 1
            == end.taken@.len(),
        role == Role::Responder && end.why == Termination::ChannelClosed ==> end.sent@.len()
            == end.taken@.len(),
        // a stop ends the session at once and only a stop does
        (end.why == Termination::PeerStopped) == (end.taken@.len() > 0 && end.taken@[
            end.taken@.len() - 1
        ] is Stop),
        forall|i: int| 0 <= i < end.taken@.len() - 1 ==> !((#[trigger] end.taken@[i]) is Stop),
        // every message acted on matched what the protocol awaited there
        end.taken@.len() > 0 ==> awaited(first_expect(role), end.taken@[0]),
        forall|i: int|
            0 < i < end.taken@.len() ==> awaited(
                expect_after(end.taken@[i - 1]),
                #[trigger] end.taken@[i],
            ),
        // the replies follow the protocol in turn
        forall|i: int| 0 <= i < end.sent@.len() ==> !((#[trigger] end.sent@[i]) is Stop),
        role == Role::Initiator && end.sent@.len() > 0 ==> end.sent@[0] is Attack,
        role == Role::Initiator ==> forall|i: int|
            1 <= i < end.sent@.len() ==> reply_to(end.taken@[i - 1], #[trigger] end.sent@[i]),
        role == Role::Responder ==> forall|i: int|
            0 <= i < end.sent@.len() ==> reply_to(end.taken@[i], #[trigger] end.sent@[i]),
        // own-board cells never revert: a cell keeps its value or a hit
        // ship section turns to wreckage
        forall|i: int, j: int|
            in_bounds(i, j) ==> (#[trigger] final(game).player.spec_at(i, j)) == old(
                game
            ).player.spec_at(i, j) || (old(game).player.spec_at(i, j) == Cell::Ship
                && final(game).player.spec_at(i, j) == Cell::Wreckage),
        // enemy-view cells never revert: an unknown cell may gain a mark
        // learned from an answer, a marked cell keeps its mark
        forall|i: int, j: int|
            in_bounds(i, j) ==> (#[trigger] final(game).enemy.spec_at(i, j)) == old(
                game
            ).enemy.spec_at(i, j) || (old(game).enemy.spec_at(i, j) == Cell::Empty && (final(
                game
            ).enemy.spec_at(i, j) == Cell::Tagged || final(game).enemy.spec_at(i, j)
                == Cell::Wreckage)),
{
    let inbound_len = inbound.len();
    let moves_len = moves.len();
    let mut sent: Vec<GameMessage> = Vec::new();
    let mut taken: Vec<GameMessage> = Vec::new();
    let mut cursor: usize = 0;
    let mut used_moves: usize = 0;
    let mut state: GameMessage = GameMessage::Ack;
    let ghost mut pos: Seq<int> = Seq::empty();
    let ghost mut states: Seq<Game> = seq![*game];
    proof {
        reveal(attacks_are_moves);
        reveal(Seq::filter);
        assert(sent@.filter(attack_filter()) =~= attacks_of(moves@.subrange(0, 0)));
        reveal(taken_from);
        assert(taken_from(role, inbound@, taken@, 0, pos));
        reveal(session_chain);
        assert(session_chain(role, *game, *game, taken@, sent@, states));
    }
    match role {
        Role::Initiator => {},
        Role::Responder => {
            match take_one(inbound, 0, Expect::AttackOrStop) {
                Ok((m, idx)) => {
                    proof {
                        lemma_taken_from_extend(
                            role,
                            inbound@,
                            taken@,
                            0,
                            pos,
                            m,
                            idx as int,
                            Expect::AttackOrStop,
                        );
                        pos = pos.push(idx as int);
                    }
                    taken.push(m);
                    cursor = idx + 1;
                    state = m;
                },
                Err(_) => {
                    proof {
                        lemma_chain_monotonic(role, *old(game), *game, taken@, sent@, states);
                    }
                    return SessionEnd {
                        sent,
                        taken,
                        read: 0,
                        moves_used: 0,
                        why: Termination::ChannelClosed,
                    };
                },
            }
        },
    }
    let mut why: Termination = Termination::PeerStopped;
    loop
        invariant_except_break
            used_moves <= taken@.len(),
            taken@.len() == 0 ==> role == Role::Initiator && state == GameMessage::Ack
                && sent@.len() == 0,
            role == Role::Initiator ==> sent@.len() == taken@.len(),
            role == Role::Responder ==> sent@.len() + 1 == taken@.len(),
        invariant
            forall|k: int| 0 <= k < inbound@.len() ==> msg_in_bounds(#[trigger] inbound@[k]),
            forall|k: int|
                0 <= k < moves@.len() ==> in_bounds(
                    (#[trigger] moves@[k]).0 as int,
                    moves@[k].1 as int,
                ),
            moves@.len() > inbound@.len(),
            inbound_len == inbound@.len(),
            moves_len == moves@.len(),
            cursor <= inbound@.len(),
            taken@.len() <= cursor,
            attacks_are_moves(sent@, moves@, used_moves as int),
            taken_from(role, inbound@, taken@, cursor as int, pos),
            session_chain(role, *old(game), *game, taken@, sent@, states),
            msg_in_bounds(state),
            taken@.len() > 0 ==> state == taken@[taken@.len() - 1],
            forall|i: int| 0 <= i < taken@.len() - 1 ==> !((#[trigger] taken@[i]) is Stop),
            taken@.len() > 0 ==> awaited(first_expect(role), taken@[0]),
            forall|i: int|
                0 < i < taken@.len() ==> awaited(
                    expect_after(taken@[i - 1]),
                    #[trigger] taken@[i],
                ),
            forall|i: int| 0 <= i < sent@.len() ==> !((#[trigger] sent@[i]) is Stop),
            role == Role::Initiator && sent@.len() > 0 ==> sent@[0] is Attack,
            role == Role::Initiator ==> forall|i: int|
                1 <= i < sent@.len() ==> reply_to(taken@[i - 1], #[trigger] sent@[i]),
            role == Role::Responder ==> forall|i: int|
                0 <= i < sent@.len() ==> reply_to(taken@[i], #[trigger] sent@[i]),
        ensures
            why == Termination::PeerStopped ==> taken@.len() > 0 && state is Stop && used_moves
                <= taken@.len() && (role == Role::Initiator ==> sent@.len() == taken@.len()) && (
            role == Role::Responder ==> sent@.len() + 1 == taken@.len()),
            why == Termination::ChannelClosed ==> !(state is Stop) && used_moves <= taken@.len()
                + 1 && (role == Role::Initiator ==> sent@.len() == taken@.len() + 1) && (role
                == Role::Responder ==> sent@.len() == taken@.len()) && (forall|j: int|
                cursor <= j < inbound@.len() ==> !awaited(
                    next_expect(role, taken@),
                    #[trigger] inbound@[j],
                )),
        decreases inbound@.len() - cursor,
    {
        let mv: (i32, i32) = if state.is_ack() {
            let m = moves[used_moves];
            used_moves += 1;
            m
        } else {
            (0, 0)
        };
        let ghost gprev = *game;
        match game.step(state, mv) {
            StepOutcome::Finished => {
                why = Termination::PeerStopped;
                break;
            },
            StepOutcome::Reply { sent: reply, next } => {
                let ghost sent_before = sent@;
                proof {
                    lemma_chain_extend(
                        role,
                        *old(game),
                        gprev,
                        *game,
                        taken@,
                        sent@,
                        states,
                        state,
                        reply,
                    );
                    states = states.push(*game);
                }
                sent.push(reply);
                proof {
                    if state is Ack {
                        lemma_attacks_push_attack(sent_before, moves@, used_moves - 1, mv);
                    } else {
                        lemma_attacks_push_other(sent_before, moves@, used_moves as int, reply);
                    }
                    lemma_shape_push_sent(role, taken@, sent_before, state, reply);
                }
                match take_one(inbound, cursor, next) {
                    Ok((m, idx)) => {
                        proof {
                            lemma_taken_from_extend(
                                role,
                                inbound@,
                                taken@,
                                cursor as int,
                                pos,
                                m,
                                idx as int,
                                next,
                            );
                            pos = pos.push(idx as int);
                            lemma_chain_retaken(
                                role,
                                *old(game),
                                *game,
                                taken@,
                                sent@,
                                states,
                                m,
                            );
                            lemma_shape_push_taken(role, taken@, sent@, state, m, next);
                        }
                        taken.push(m);
                        cursor = idx + 1;
                        state = m;
                    },
                    Err(_) => {
                        why = Termination::ChannelClosed;
                        break;
                    },
                }
            },
        }
    }
    proof {
        lemma_chain_monotonic(role, *old(game), *game, taken@, sent@, states);
    }
    SessionEnd { sent, taken, read: cursor, moves_used: used_moves, why }
}

} // verus!
