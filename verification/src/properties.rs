//! Properties of the rules that span several actions or hold in every state.
use vstd::prelude::*;
use crate::types::{Pos, Building, BuildingType, Phase, ErrorCode, Action, ACTION_LIMIT, MOVES_PER_ROUND, spec_cost};
use crate::game::{
    GameView, game_wf, board_wf, apply_fits, spec_apply, spec_try, spec_build, spec_sell, spec_move,
    spec_resolve, attempted, with_error, with_forced, forced, counted, error_count, code_index, id_index,
    lemma_build_keeps_board, lemma_sell_keeps_board, lemma_move_keeps_board, lemma_resolve_keeps_game,
    lemma_try_keeps_board, try_fits, route_exists, refund_of, placement_error, lemma_id_index, sell_fits, move_fits,
    spec_new_game, current_report, credited, lemma_credited_frame,
};
use crate::sim::{walls, spec_wave_report};

verus! {

/// Counting an error adds one to its count.
pub proof fn lemma_counted(errs: Seq<(ErrorCode, u32)>, code: ErrorCode)
    requires
        match code_index(errs, code, errs.len() as int) {
            Some(i) => errs[i].1 < u32::MAX,
            None => true,
        },
    ensures
        error_count(counted(errs, code), code) == error_count(errs, code) + 1,
{
    lemma_code_index_props(errs, code, errs.len() as int);
    let c = counted(errs, code);
    match code_index(errs, code, errs.len() as int) {
        Some(i) => {
            lemma_code_index_update(errs, code, i, (code, (errs[i].1 + 1) as u32), errs.len() as int);
        },
        None => {
            lemma_code_index_push(errs, code, (code, 1u32), errs.len() as int);
        },
    }
}

proof fn lemma_code_index_props(errs: Seq<(ErrorCode, u32)>, code: ErrorCode, n: int)
    requires
        0 <= n <= errs.len(),
    ensures
        code_index(errs, code, n) matches Some(i) ==> 0 <= i < n && errs[i].0 == code && forall|j: int|
            0 <= j < i ==> (#[trigger] errs[j]).0 != code,
        code_index(errs, code, n) is None ==> forall|j: int| 0 <= j < n ==> (#[trigger] errs[j]).0 != code,
    decreases n,
{
    if n > 0 {
        lemma_code_index_props(errs, code, n - 1);
    }
}

proof fn lemma_code_index_update(errs: Seq<(ErrorCode, u32)>, code: ErrorCode, i: int, e: (ErrorCode, u32), n: int)
    requires
        0 <= i < n <= errs.len(),
        errs[i].0 == code,
        e.0 == code,
        forall|j: int| 0 <= j < i ==> (#[trigger] errs[j]).0 != code,
    ensures
        code_index(errs.update(i, e), code, n) == Some(i),
    decreases n,
{
    if n > i + 1 {
        lemma_code_index_update(errs, code, i, e, n - 1);
    } else {
        lemma_code_index_none(errs.update(i, e), code, i);
    }
}

proof fn lemma_code_index_none(errs: Seq<(ErrorCode, u32)>, code: ErrorCode, n: int)
    requires
        0 <= n <= errs.len(),
        forall|j: int| 0 <= j < n ==> (#[trigger] errs[j]).0 != code,
    ensures
        code_index(errs, code, n) is None,
    decreases n,
{
    if n > 0 {
        lemma_code_index_none(errs, code, n - 1);
    }
}

proof fn lemma_code_index_push(errs: Seq<(ErrorCode, u32)>, code: ErrorCode, e: (ErrorCode, u32), n: int)
    requires
        n == errs.len(),
        e.0 == code,
        forall|j: int| 0 <= j < n ==> (#[trigger] errs[j]).0 != code,
    ensures
        code_index(errs.push(e), code, n + 1) == Some(n),
{
    let p = errs.push(e);
    assert forall|j: int| 0 <= j < n implies (#[trigger] p[j]).0 != code by {
        assert(p[j] == errs[j]);
    }
    lemma_code_index_none(p, code, n);
}


// ------------------------------------------------------------ laws of the game

/// Every action keeps the game sound: in particular the exit stays
/// reachable whatever is attempted, since a placement that would cut it off
/// is refused.
pub proof fn lemma_apply_keeps_game(g: GameView, a: Action)
    requires
        game_wf(g),
        apply_fits(g, a),
    ensures
        game_wf(spec_apply(g, a).0),
        route_exists(spec_apply(g, a).0.entry, spec_apply(g, a).0.exit, walls(spec_apply(g, a).0.buildings)),
{
    if g.phase == Phase::Preparation {
        let g1 = GameView { actions_used: (g.actions_used + 1) as u32, ..g };
        lemma_try_keeps_board(g1, a);
        let g3 = attempted(g, a).0;
        if forced(g3) {
            lemma_resolve_keeps_game(with_forced(g3));
        }
    }
}

/// A refused action is counted under its error code.
pub proof fn lemma_refusal_is_counted(g: GameView, a: Action)
    requires
        game_wf(g),
        apply_fits(g, a),
        spec_apply(g, a).1 is Err,
    ensures
        error_count(spec_apply(g, a).0.metrics.errors, spec_apply(g, a).1->Err_0) == error_count(
            g.metrics.errors,
            spec_apply(g, a).1->Err_0,
        ) + 1,
{
    let c = spec_apply(g, a).1->Err_0;
    if g.phase != Phase::Preparation {
        lemma_counted(g.metrics.errors, c);
    } else {
        let g1 = GameView { actions_used: (g.actions_used + 1) as u32, ..g };
        let (g2, res) = spec_try(g1, a);
        assert(g2.metrics.errors == g.metrics.errors);
        lemma_counted(g2.metrics.errors, c);
    }
}

/// A refused action spends one action credit and is counted, and changes
/// nothing else, unless it was the last credit of the round.
pub proof fn lemma_refusal_changes_nothing_else(g: GameView, a: Action)
    requires
        game_wf(g),
        g.phase == Phase::Preparation,
        g.actions_used + 1 < ACTION_LIMIT,
        spec_apply(g, a).1 is Err,
    ensures
        spec_apply(g, a).0 == with_error(
            GameView { actions_used: (g.actions_used + 1) as u32, ..g },
            spec_apply(g, a).1->Err_0,
        ),
{
}

/// The attempt that spends the last action credit of a round closes it:
/// the forced end of turn is counted and the wave is resolved.
pub proof fn lemma_action_limit_closes_round(g: GameView, a: Action)
    requires
        game_wf(g),
        apply_fits(g, a),
        g.phase == Phase::Preparation,
        g.actions_used + 1 == ACTION_LIMIT,
        !(a is EndTurn),
    ensures
        spec_apply(g, a).0.metrics.forced_end_turns == g.metrics.forced_end_turns + 1,
        spec_apply(g, a).0.phase == Phase::GameOver || (spec_apply(g, a).0.wave == g.wave + 1
            && spec_apply(g, a).0.actions_used == 0),
{
    let g3 = attempted(g, a).0;
    assert(forced(g3));
}

/// Selling a building refunds half its cost and removes it.
pub proof fn lemma_sell_refunds_half(g: GameView, id: u32)
    requires
        board_wf(g),
        sell_fits(g, id),
        id_index(g.buildings, id, g.buildings.len() as int) is Some,
    ensures
        ({
            let i = id_index(g.buildings, id, g.buildings.len() as int)->0;
            let (h, r) = spec_sell(g, id);
            &&& r is Ok
            &&& h.gold == g.gold + spec_cost(g.buildings[i].kind) / 2
            &&& h.buildings.len() == g.buildings.len() - 1
            &&& id_index(h.buildings, id, h.buildings.len() as int) is None
        }),
{
    let n = g.buildings.len() as int;
    let i = id_index(g.buildings, id, n)->0;
    lemma_id_index(g.buildings, id, n);
    let h = spec_sell(g, id).0;
    assert forall|j: int| 0 <= j < h.buildings.len() implies (#[trigger] h.buildings[j]).id != id by {
        if j < i {
            assert(h.buildings[j] == g.buildings[j]);
        } else {
            assert(h.buildings[j] == g.buildings[j + 1]);
            assert(g.buildings[i].id != g.buildings[j + 1].id);
        }
    }
    lemma_id_index_absent(h.buildings, id, h.buildings.len() as int);
}

proof fn lemma_id_index_absent(bs: Seq<Building>, id: u32, n: int)
    requires
        0 <= n <= bs.len(),
        forall|j: int| 0 <= j < n ==> (#[trigger] bs[j]).id != id,
    ensures
        id_index(bs, id, n) is None,
    decreases n,
{
    if n > 0 {
        lemma_id_index_absent(bs, id, n - 1);
    }
}

/// Moves are rationed: with none left, moving any building is refused and
/// changes nothing; a move that succeeds uses one up and is counted.
pub proof fn lemma_moves_are_rationed(g: GameView, id: u32, pos: Pos)
    requires
        id_index(g.buildings, id, g.buildings.len() as int) is Some,
        move_fits(g, id, pos),
    ensures
        g.moves_remaining == 0 ==> spec_move(g, id, pos) == (g, Err::<(), ErrorCode>(ErrorCode::NoMovesLeft)),
        spec_move(g, id, pos).1 is Ok ==> {
            let h = spec_move(g, id, pos).0;
            let i = id_index(g.buildings, id, g.buildings.len() as int)->0;
            &&& h.moves_remaining == g.moves_remaining - 1
            &&& h.metrics.moves_used == g.metrics.moves_used + 1
            &&& h.buildings[i].pos == pos
            &&& h.buildings[i].id == id
        },
{
    lemma_id_index(g.buildings, id, g.buildings.len() as int);
}

/// Once the game is over, every action is refused with `WRONG_PHASE` and
/// only the error count moves.
pub proof fn lemma_game_over_is_final(g: GameView, a: Action)
    requires
        g.phase == Phase::GameOver,
    ensures
        spec_apply(g, a).0 == with_error(g, ErrorCode::WrongPhase),
        spec_apply(g, a).1 == Err::<(), ErrorCode>(ErrorCode::WrongPhase),
{
}

/// Lives never grow back, and the game is over exactly when no life is left.
pub proof fn lemma_lives_and_game_over(g: GameView, a: Action)
    requires
        game_wf(g),
        apply_fits(g, a),
        g.phase == Phase::GameOver <==> g.lives == 0,
    ensures
        spec_apply(g, a).0.lives <= g.lives,
        spec_apply(g, a).0.phase == Phase::GameOver <==> spec_apply(g, a).0.lives == 0,
{
}


/// Every action in a preparation round makes progress: it spends a credit of
/// the round, or the wave is resolved (the next round opens, or the game ends).
/// A round therefore ends after at most `ACTION_LIMIT` actions.
pub proof fn lemma_apply_progress(g: GameView, a: Action)
    requires
        game_wf(g),
        apply_fits(g, a),
        g.phase == Phase::Preparation,
    ensures
        ({
            let h = spec_apply(g, a).0;
            ||| h.phase == Phase::GameOver
            ||| h.wave == g.wave + 1 && h.actions_used == 0
            ||| h.wave == g.wave && h.actions_used == g.actions_used + 1
        }),
{
}


/// A survived wave opens a fresh round: the move and the action credit of
/// the round are restored.
pub proof fn lemma_new_round(g: GameView, a: Action)
    requires
        game_wf(g),
        apply_fits(g, a),
        g.phase == Phase::Preparation,
        spec_apply(g, a).0.wave == g.wave + 1,
    ensures
        spec_apply(g, a).0.phase == Phase::Preparation,
        spec_apply(g, a).0.moves_remaining == MOVES_PER_ROUND,
        spec_apply(g, a).0.actions_used == 0,
{
}

/// Ending the turn resolves the announced wave on the board as it stands:
/// the recorded report is the simulation of the current wave.
pub proof fn lemma_end_turn_reports_the_wave(g: GameView)
    requires
        game_wf(g),
        apply_fits(g, Action::EndTurn),
        g.phase == Phase::Preparation,
    ensures
        spec_apply(g, Action::EndTurn).1 is Ok,
        spec_apply(g, Action::EndTurn).0.last_report == Some(spec_wave_report(g.seed, g.wave, g.entry, g.exit, g.buildings)),
{
}


// ------------------------------------------------------------ the game invariant

/// Building ids increase in building order (each new building gets the next id).
pub open spec fn ids_increasing(bs: Seq<Building>) -> bool {
    forall|i: int, j: int| 0 <= i < j < bs.len() ==> #[trigger] bs[i].id < #[trigger] bs[j].id
}

/// No building stands on the entry or the exit.
pub open spec fn off_the_gates(g: GameView) -> bool {
    forall|i: int| 0 <= i < g.buildings.len() ==> #[trigger] g.buildings[i].pos != g.entry && g.buildings[i].pos != g.exit
}

/// What holds of every game: a sound board with a route to the exit, ids in
/// building order, entry and exit free, at most one move a round, a wave
/// number from 1 on, and a preparation round exactly while lives are left.
pub open spec fn game_inv(g: GameView) -> bool {
    &&& game_wf(g)
    &&& ids_increasing(g.buildings)
    &&& off_the_gates(g)
    &&& g.moves_remaining <= MOVES_PER_ROUND
    &&& g.wave >= 1
    &&& (g.phase == Phase::Preparation <==> g.lives > 0)
}

/// Buildings that keep their ids and cells, in order, keep the order of the
/// ids and leave the gates free.
proof fn lemma_same_ids_and_cells(g: GameView, h: GameView)
    requires
        ids_increasing(g.buildings),
        off_the_gates(g),
        h.entry == g.entry && h.exit == g.exit,
        h.buildings.len() == g.buildings.len(),
        forall|i: int| 0 <= i < g.buildings.len() ==> (#[trigger] h.buildings[i]).id == g.buildings[i].id
            && h.buildings[i].pos == g.buildings[i].pos,
    ensures
        ids_increasing(h.buildings),
        off_the_gates(h),
{
    assert forall|i: int, j: int| 0 <= i < j < h.buildings.len() implies #[trigger] h.buildings[i].id
        < #[trigger] h.buildings[j].id by {
        assert(g.buildings[i].id < g.buildings[j].id);
    }
    assert forall|i: int| 0 <= i < h.buildings.len() implies #[trigger] h.buildings[i].pos != h.entry
        && h.buildings[i].pos != h.exit by {
        assert(g.buildings[i].pos != g.entry && g.buildings[i].pos != g.exit);
    }
}

/// Resolving a wave keeps ids and cells.
proof fn lemma_resolve_keeps_order(g: GameView)
    requires
        ids_increasing(g.buildings),
        off_the_gates(g),
    ensures
        ids_increasing(spec_resolve(g).buildings),
        off_the_gates(spec_resolve(g)),
{
    let r = current_report(g);
    lemma_credited_frame(g.buildings, r.damage_by_building, r.damage_by_building.len() as int);
    lemma_same_ids_and_cells(g, spec_resolve(g));
}

/// An action of the preparation round keeps the ids in order and the gates free.
proof fn lemma_try_keeps_order(g: GameView, a: Action)
    requires
        board_wf(g),
        ids_increasing(g.buildings),
        off_the_gates(g),
    ensures
        ids_increasing(spec_try(g, a).0.buildings),
        off_the_gates(spec_try(g, a).0),
        spec_try(g, a).0.entry == g.entry && spec_try(g, a).0.exit == g.exit,
{
    let h = spec_try(g, a).0;
    match a {
        Action::Build { kind, pos } => {
            if spec_try(g, a).1 is Ok {
                let bs = g.buildings;
                assert forall|i: int, j: int| 0 <= i < j < h.buildings.len() implies #[trigger] h.buildings[i].id
                    < #[trigger] h.buildings[j].id by {
                    if j == bs.len() {
                        assert(bs[i].id < g.next_id);
                    } else {
                        assert(bs[i].id < bs[j].id);
                    }
                }
                assert forall|i: int| 0 <= i < h.buildings.len() implies #[trigger] h.buildings[i].pos != h.entry
                    && h.buildings[i].pos != h.exit by {
                    if i < bs.len() {
                        assert(bs[i].pos != g.entry && bs[i].pos != g.exit);
                    }
                }
            }
        },
        Action::Sell { id } => {
            match id_index(g.buildings, id, g.buildings.len() as int) {
                Some(k) => {
                    lemma_id_index(g.buildings, id, g.buildings.len() as int);
                    let bs = g.buildings;
                    assert forall|i: int, j: int| 0 <= i < j < h.buildings.len() implies #[trigger] h.buildings[i].id
                        < #[trigger] h.buildings[j].id by {
                        let i0 = if i < k { i } else { i + 1 };
                        let j0 = if j < k { j } else { j + 1 };
                        assert(h.buildings[i] == bs[i0]);
                        assert(h.buildings[j] == bs[j0]);
                        assert(bs[i0].id < bs[j0].id);
                    }
                    assert forall|i: int| 0 <= i < h.buildings.len() implies #[trigger] h.buildings[i].pos != h.entry
                        && h.buildings[i].pos != h.exit by {
                        let i0 = if i < k { i } else { i + 1 };
                        assert(h.buildings[i] == bs[i0]);
                        assert(bs[i0].pos != g.entry && bs[i0].pos != g.exit);
                    }
                },
                None => {},
            }
        },
        Action::Move { id, pos } => {
            if spec_try(g, a).1 is Ok {
                lemma_id_index(g.buildings, id, g.buildings.len() as int);
                let bs = g.buildings;
                assert forall|i: int, j: int| 0 <= i < j < h.buildings.len() implies #[trigger] h.buildings[i].id
                    < #[trigger] h.buildings[j].id by {
                    assert(bs[i].id < bs[j].id);
                }
                assert forall|i: int| 0 <= i < h.buildings.len() implies #[trigger] h.buildings[i].pos != h.entry
                    && h.buildings[i].pos != h.exit by {
                    assert(bs[i].pos != g.entry && bs[i].pos != g.exit);
                }
            }
        },
        Action::EndTurn => {
            lemma_resolve_keeps_order(g);
        },
    }
}

/// A new game satisfies the invariant.
pub proof fn lemma_new_game_inv(seed: u64)
    ensures
        game_inv(spec_new_game(seed)),
{
    crate::game::lemma_new_game_wf(seed);
}

/// Every action, legal or refused, a forced end of round included, keeps the
/// invariant of the game.
#[verifier::rlimit(50)]
pub proof fn lemma_apply_keeps_invariant(g: GameView, a: Action)
    requires
        game_inv(g),
        apply_fits(g, a),
    ensures
        game_inv(spec_apply(g, a).0),
{
    let h = spec_apply(g, a).0;
    lemma_apply_keeps_game(g, a);
    lemma_lives_and_game_over(g, a);
    if g.phase == Phase::Preparation {
        let g1 = GameView { actions_used: (g.actions_used + 1) as u32, ..g };
        let (g2, res) = spec_try(g1, a);
        lemma_try_keeps_order(g1, a);
        let g3 = attempted(g, a).0;
        assert(g3.buildings == g2.buildings && g3.entry == g.entry && g3.exit == g.exit);
        assert(ids_increasing(g3.buildings) && off_the_gates(g3));
        if forced(g3) {
            let g4 = with_forced(g3);
            lemma_resolve_keeps_order(g4);
            assert(h == spec_resolve(g4));
        } else {
            assert(h == g3);
        }
        lemma_apply_progress(g, a);
    } else {
        assert(h == with_error(g, ErrorCode::WrongPhase));
    }
}

} // verus!
