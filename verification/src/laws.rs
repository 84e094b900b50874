//! The library's laws: what holds of every coordinator state and of every
//! scoring pass, stated once and proved from what [`crate::server`] defines.

use vstd::prelude::*;
use crate::message::{Outbound, ServerEvent, is_error};
use crate::server::{
    GameServer, GameState, game_ok, games_disjoint, handle_post, leave_post, playing_code,
    tick_scores, update_post,
};
use crate::message::ClientEvent;
use crate::table::{has_key, keys_unique};

verus! {

/// During play no score ever falls: one tick takes every entry to at least
/// its old value, under the same key and in the same order, whatever
/// distances are reported.
pub proof fn lemma_tick_scores_monotone(scores: Seq<(i64, u64)>, dists: Seq<(i64, u64)>, seeker: i64)
    ensures
        tick_scores(scores, dists, seeker).len() == scores.len(),
        forall|j: int|
            0 <= j < scores.len() ==> (#[trigger] tick_scores(scores, dists, seeker)[j]).0
                == scores[j].0 && tick_scores(scores, dists, seeker)[j].1 >= scores[j].1,
{
}

/// The seeker is never credited: one tick leaves every entry under the
/// seeker's key exactly as it was, whatever distances are reported.
pub proof fn lemma_tick_seeker_exempt(scores: Seq<(i64, u64)>, dists: Seq<(i64, u64)>, seeker: i64)
    ensures
        forall|j: int|
            0 <= j < scores.len() && scores[j].0 == seeker ==> #[trigger] tick_scores(
                scores,
                dists,
                seeker,
            )[j] == scores[j],
{
}

/// The quantified invariants, read off the coordinator's well-formedness:
/// live game codes and player ids are pairwise distinct; no player id sits
/// in two rosters; every waiting game's host is a roster member, every
/// playing game's seeker is, with at least two members and a score entry
/// for each; and a code has a scheduled tick exactly when its game is
/// playing, never twice.
pub proof fn lemma_inv_laws(s: GameServer)
    requires
        s.inv(),
    ensures
        keys_unique(s.players@),
        keys_unique(s.games@),
        games_disjoint(s.games@),
        forall|i: int|
            0 <= i < s.games@.len() && (#[trigger] s.games@[i]).1.state is Waiting
                ==> s.games@[i].1.players@.contains(s.games@[i].1.host),
        forall|i: int|
            0 <= i < s.games@.len() && (#[trigger] s.games@[i]).1.state is Playing
                ==> s.games@[i].1.players@.len() >= 2 && s.games@[i].1.players@.contains(
                s.games@[i].1.state->Playing_seeker,
            ) && has_key(s.games@[i].1.state->Playing_scores@, s.games@[i].1.state->Playing_seeker),
        s.ticks@.no_duplicates(),
        forall|c: u16|
            #![trigger s.ticks@.contains(c)]
            #![trigger playing_code(s.games@, c)]
            s.ticks@.contains(c) <==> playing_code(s.games@, c),
{
    assert forall|i: int|
        0 <= i < s.games@.len() && (#[trigger] s.games@[i]).1.state is Playing implies
        s.games@[i].1.players@.len() >= 2 && s.games@[i].1.players@.contains(
        s.games@[i].1.state->Playing_seeker,
    ) && has_key(s.games@[i].1.state->Playing_scores@, s.games@[i].1.state->Playing_seeker) by {
        let g = s.games@[i].1;
        assert(game_ok(s.players@, g));
        match g.state {
            GameState::Playing { seeker, scores, .. } => {
                let k = choose|k: int| 0 <= k < g.players@.len() && g.players@[k] == seeker;
                assert(has_key(scores@, g.players@[k]));
            },
            _ => {},
        }
    }
}

/// Leaving is idempotent: once a leave has gone through, the player is in
/// no game, so a second leave is answered `Error{"Could not leave game"}`
/// and moves nothing.
pub proof fn lemma_leave_idempotent(
    pre: GameServer,
    mid: GameServer,
    post: GameServer,
    player_id: i64,
    out0: Seq<Outbound>,
    out1: Seq<Outbound>,
    out2: Seq<Outbound>,
    r1: Option<ServerEvent>,
    r2: Option<ServerEvent>,
)
    requires
        leave_post(pre, mid, player_id, out0, out1, r1),
        !mid.in_any_game(player_id),
        leave_post(mid, post, player_id, out1, out2, r2),
    ensures
        post == mid,
        out2 == out1,
        r2 matches Some(e) && is_error(e, "Could not leave game"@),
{
}

/// The coordinator only appends to the outbound queue: whatever a handler
/// does, the events already enqueued stay, in their order, as a prefix of
/// the queue — so what each recipient has been sent is never reordered or
/// withdrawn by a later step.
pub proof fn lemma_handle_appends(
    pre: GameServer,
    post: GameServer,
    sender: i64,
    event: ClientEvent,
    out0: Seq<Outbound>,
    out1: Seq<Outbound>,
    r: Option<ServerEvent>,
)
    requires
        handle_post(pre, post, sender, event, out0, out1, r),
    ensures
        out1.len() >= out0.len(),
        out1.take(out0.len() as int) == out0,
{
    if out1 == out0 {
        assert(out1.take(out0.len() as int) =~= out0);
    } else if out1.len() == out0.len() + 1 && out1.drop_last() == out0 {
        assert(out1.take(out0.len() as int) =~= out1.drop_last());
    }
}

/// The scoring tick likewise only appends to the outbound queue.
pub proof fn lemma_update_appends(
    pre: GameServer,
    post: GameServer,
    game_id: u16,
    dists: Seq<(i64, u64)>,
    out0: Seq<Outbound>,
    out1: Seq<Outbound>,
)
    requires
        update_post(pre, post, game_id, dists, out0, out1),
    ensures
        out1.len() >= out0.len(),
        out1.take(out0.len() as int) == out0,
{
    if out1 == out0 {
        assert(out1.take(out0.len() as int) =~= out0);
    } else if out1.len() == out0.len() + 1 && out1.drop_last() == out0 {
        assert(out1.take(out0.len() as int) =~= out1.drop_last());
    }
}

} // verus!
