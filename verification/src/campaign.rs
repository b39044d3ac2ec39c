//! Benchmark campaigns: playing a whole game with an agent, the row it gives,
//! and the CSV file the rows are kept in.
use vstd::prelude::*;
use crate::types::{ErrorCode, Action, Phase, ACTION_LIMIT};
use crate::text::{push_decimal, spec_decimal, chars_of, parse_unsigned_in, spec_parse_unsigned};
use crate::game::{Game, GameView, game_wf, apply_fits, spec_apply, spec_replay, replay_fits, error_count, spec_new_game};
use crate::protocol::{Mode, observe, observes, Observation};
use crate::agents::{Agent, Greedy, greedy_alike, lemma_greedy_ignores_the_observation};

verus! {

/// The error codes, in the order of the CSV columns.
pub open spec fn spec_error_codes() -> Seq<ErrorCode> {
    seq![
        ErrorCode::PathBlocked,
        ErrorCode::InsufficientGold,
        ErrorCode::CellOccupied,
        ErrorCode::NoMovesLeft,
        ErrorCode::InvalidCell,
        ErrorCode::WrongPhase,
        ErrorCode::UnknownBuilding,
    ]
}

pub fn error_codes() -> (v: Vec<ErrorCode>)
    ensures
        v@ == spec_error_codes(),
{
    vec![
        ErrorCode::PathBlocked,
        ErrorCode::InsufficientGold,
        ErrorCode::CellOccupied,
        ErrorCode::NoMovesLeft,
        ErrorCode::InvalidCell,
        ErrorCode::WrongPhase,
        ErrorCode::UnknownBuilding,
    ]
}

/// One game of a campaign.
pub struct RunResult {
    pub agent: String,
    pub seed: u64,
    pub run: u32,
    pub wave: u32,
    pub actions: u32,
    /// Refused actions per error code, in the order of `error_codes`.
    pub errors: [u32; 7],
    pub forced: u32,
    pub moves: u32,
    pub refunded: u32,
    pub parse_failures: u32,
    pub tokens: u64,
}

/// The sum of the first `n` counts.
pub open spec fn sum_upto(e: Seq<u32>, n: int) -> int
    decreases n,
{
    if n <= 0 {
        0
    } else {
        sum_upto(e, n - 1) + e[n - 1]
    }
}

proof fn lemma_sum_upto_mono(e: Seq<u32>, m: int, n: int)
    requires
        0 <= m <= n <= e.len(),
    ensures
        sum_upto(e, m) <= sum_upto(e, n),
    decreases n,
{
    if m < n {
        lemma_sum_upto_mono(e, m, n - 1);
    }
}

impl RunResult {
    /// All refused actions.
    pub fn illegal(&self) -> (n: u32)
        requires
            sum_upto(self.errors@, 7) <= u32::MAX,
        ensures
            n == sum_upto(self.errors@, 7),
    {
        let mut n: u32 = 0;
        let mut i: usize = 0;
        while i < 7
            invariant
                i <= 7,
                n == sum_upto(self.errors@, i as int),
                sum_upto(self.errors@, 7) <= u32::MAX,
            decreases 7 - i,
        {
            proof {
                lemma_sum_upto_mono(self.errors@, i as int + 1, 7);
            }
            n = n + self.errors[i];
            i += 1;
        }
        n
    }
}

/// The row name of an agent: the mode is part of it, so that both modes
/// can stand in the same table.
pub open spec fn row_name(name: Seq<char>, mode: Mode) -> Seq<char> {
    match mode {
        Mode::Detailed => name + "+detailed"@,
        Mode::Minimal => name,
    }
}

/// Whether `r` is the row of game `g`, played by agent `name` in mode `mode`.
pub open spec fn shows_run(r: RunResult, name: Seq<char>, mode: Mode, seed: u64, run: u32, g: GameView, actions: u32, parse_failures: u32, tokens: u64) -> bool {
    &&& r.agent@ == row_name(name, mode)
    &&& r.seed == seed
    &&& r.run == run
    &&& r.wave == g.wave
    &&& r.actions == actions
    &&& forall|i: int| 0 <= i < 7 ==> #[trigger] r.errors@[i] == error_count(g.metrics.errors, spec_error_codes()[i])
    &&& r.forced == g.metrics.forced_end_turns
    &&& r.moves == g.metrics.moves_used
    &&& r.refunded == g.metrics.gold_refunded
    &&& r.parse_failures == parse_failures
    &&& r.tokens == tokens
}

/// The row of a finished game.
pub fn run_result(name: &str, mode: Mode, seed: u64, run: u32, g: &Game, actions: u32, parse_failures: u32, tokens: u64) -> (r: RunResult)
    ensures
        shows_run(r, name@, mode, seed, run, g@, actions, parse_failures, tokens),
{
    let agent = match mode {
        Mode::Detailed => {
            let mut s = String::from_str(name);
            s.append("+detailed");
            s
        },
        Mode::Minimal => String::from_str(name),
    };
    let codes = error_codes();
    let errors = [
        g.metrics.get(codes[0]),
        g.metrics.get(codes[1]),
        g.metrics.get(codes[2]),
        g.metrics.get(codes[3]),
        g.metrics.get(codes[4]),
        g.metrics.get(codes[5]),
        g.metrics.get(codes[6]),
    ];
    RunResult {
        agent,
        seed,
        run,
        wave: g.score(),
        actions,
        errors,
        forced: g.metrics.forced_end_turns,
        moves: g.metrics.moves_used,
        refunded: g.metrics.gold_refunded,
        parse_failures,
        tokens,
    }
}

/// The game after action `a`.
#[verifier::opaque]
pub open spec fn after(g: GameView, a: Action) -> GameView {
    spec_apply(g, a).0
}

/// The answer an agent gets after action `a` in game `g`: the refusal, if
/// the action was refused, and nothing after it ended the turn.
#[verifier::opaque]
pub open spec fn answer(g: GameView, a: Action) -> Option<ErrorCode> {
    match a {
        Action::EndTurn => None,
        _ => match spec_apply(g, a).1 {
            Ok(_) => None,
            Err(e) => Some(e),
        },
    }
}

/// Action `a` can be applied to game `g` without overflow.
#[verifier::opaque]
pub open spec fn fits(g: GameView, a: Action) -> bool {
    apply_fits(g, a)
}

/// `o` is the observation of game `g` in mode `mode`, as the campaign names it.
#[verifier::opaque]
pub open spec fn shown_as(o: Observation, g: GameView, mode: Mode) -> bool {
    observes(o, "g0"@, g, mode)
}

/// The game is still on: a preparation round of a wave not past `max_waves`.
pub open spec fn in_play(g: GameView, max_waves: u32) -> bool {
    g.phase == Phase::Preparation && g.wave <= max_waves
}

/// The log `acts` was played by the successive states `agents` of an agent
/// through the games `games`, shown the observations `obs`: the game starts
/// anew from the seed, and each action is the agent's answer to the game so
/// far, in mode `mode`, after the answer to its previous action.
#[verifier::opaque]
pub open spec fn played_by<A: Agent>(
    seed: u64,
    mode: Mode,
    max_waves: u32,
    acts: Seq<Action>,
    games: Seq<GameView>,
    agents: Seq<A>,
    obs: Seq<Observation>,
) -> bool {
    &&& games.len() == acts.len() + 1
    &&& agents.len() == acts.len() + 1
    &&& obs.len() == acts.len()
    &&& games[0] == spec_new_game(seed)
    &&& forall|i: int|
        0 <= i < acts.len() ==> {
            let g = games[i];
            let last = if i == 0 { None } else { answer(games[i - 1], acts[i - 1]) };
            &&& in_play(g, max_waves)
            &&& fits(g, acts[i])
            &&& games[i + 1] == after(g, acts[i])
            &&& shown_as(obs[i], g, mode)
            &&& agents[i].can_act(g)
            &&& agents[i].chooses(g, obs[i], last, #[trigger] acts[i], agents[i + 1])
        }
}

/// The answer to the last action of a log (nothing before the first one).
pub open spec fn last_answer(acts: Seq<Action>, games: Seq<GameView>) -> Option<ErrorCode> {
    if acts.len() == 0 {
        None
    } else {
        answer(games[acts.len() - 1], acts.last())
    }
}

/// The games through which a log was played are its replay.
proof fn lemma_played_replays<A: Agent>(
    seed: u64,
    mode: Mode,
    max_waves: u32,
    acts: Seq<Action>,
    games: Seq<GameView>,
    agents: Seq<A>,
    obs: Seq<Observation>,
)
    requires
        played_by(seed, mode, max_waves, acts, games, agents, obs),
    ensures
        games.last() == spec_replay(seed, acts),
        replay_fits(seed, acts),
    decreases acts.len(),
{
    reveal(played_by);
    reveal(after);
    reveal(fits);
    if acts.len() > 0 {
        let n = acts.len() - 1;
        let acts1 = acts.drop_last();
        let games1 = games.drop_last();
        let agents1 = agents.drop_last();
        let obs1 = obs.drop_last();
        assert forall|i: int| 0 <= i < acts1.len() implies {
            let g = games1[i];
            let last = if i == 0 { None } else { answer(games1[i - 1], acts1[i - 1]) };
            &&& in_play(g, max_waves)
            &&& fits(g, acts1[i])
            &&& games1[i + 1] == after(g, acts1[i])
            &&& shown_as(obs1[i], g, mode)
            &&& agents1[i].can_act(g)
            &&& agents1[i].chooses(g, obs1[i], last, #[trigger] acts1[i], agents1[i + 1])
        } by {
            assert(acts[i] == acts1[i]);
        }
        assert(played_by(seed, mode, max_waves, acts1, games1, agents1, obs1));
        lemma_played_replays(seed, mode, max_waves, acts1, games1, agents1, obs1);
        assert(acts[n] == acts.last());
    }
}

/// Nothing is played yet by an agent that has not acted.
proof fn lemma_played_start<A: Agent>(seed: u64, mode: Mode, max_waves: u32, start: A)
    ensures
        played_by(
            seed,
            mode,
            max_waves,
            Seq::<Action>::empty(),
            seq![spec_new_game(seed)],
            seq![start],
            Seq::<Observation>::empty(),
        ),
{
    reveal(played_by);
}

/// One more answer of the agent, on the game so far, extends what it played.
proof fn lemma_played_step<A: Agent>(
    seed: u64,
    mode: Mode,
    max_waves: u32,
    acts: Seq<Action>,
    games: Seq<GameView>,
    agents: Seq<A>,
    shown: Seq<Observation>,
    o: Observation,
    a: Action,
    next: A,
)
    requires
        played_by(seed, mode, max_waves, acts, games, agents, shown),
        in_play(games.last(), max_waves),
        fits(games.last(), a),
        shown_as(o, games.last(), mode),
        agents.last().can_act(games.last()),
        agents.last().chooses(games.last(), o, last_answer(acts, games), a, next),
    ensures
        played_by(
            seed,
            mode,
            max_waves,
            acts.push(a),
            games.push(after(games.last(), a)),
            agents.push(next),
            shown.push(o),
        ),
        acts.len() + 1 == games.len() == agents.len(),
        shown.len() == acts.len(),
{
    reveal(played_by);
    let acts2 = acts.push(a);
    let games2 = games.push(after(games.last(), a));
    let agents2 = agents.push(next);
    let shown2 = shown.push(o);
    assert forall|i: int| 0 <= i < acts2.len() implies {
        let g = games2[i];
        let last = if i == 0 { None } else { answer(games2[i - 1], acts2[i - 1]) };
        &&& in_play(g, max_waves)
        &&& fits(g, acts2[i])
        &&& games2[i + 1] == after(g, acts2[i])
        &&& shown_as(shown2[i], g, mode)
        &&& agents2[i].can_act(g)
        &&& agents2[i].chooses(g, shown2[i], last, #[trigger] acts2[i], agents2[i + 1])
    } by {
        if i < acts.len() {
            assert(acts[i] == acts2[i]);
            if i > 0 {
                assert(acts[i - 1] == acts2[i - 1]);
            }
        } else if i > 0 {
            assert(acts[i - 1] == acts2[i - 1]);
        }
    }
}

/// A step of play keeps the count of the actions within the rounds played:
/// the wave goes up by one at most, and a round spends one credit per action.
proof fn lemma_step_bounds(g: GameView, a: Action)
    requires
        game_wf(g),
        apply_fits(g, a),
        g.phase == Phase::Preparation,
    ensures
        ({
            let h = spec_apply(g, a).0;
            &&& g.wave <= h.wave <= g.wave + 1
            &&& h.wave == g.wave + 1 ==> h.actions_used == 0
            &&& h.wave == g.wave ==> h.actions_used <= g.actions_used + 1
        }),
{
    crate::properties::lemma_apply_progress(g, a);
}

/// Plays a whole game: the agent acts through `Action` only, with the limits
/// and metrics of the contract, until the game is over or `max_waves` is
/// passed. Each action is the agent's answer to the game and to its
/// observation in the contract. The action limit ends every round, so the
/// game always ends. `None` when, during the game, the agent cannot act, or
/// its action or going on would overflow a counter.
pub fn play<A: Agent>(agent: &mut A, seed: u64, run: u32, max_waves: u32, mode: Mode) -> (r: Option<RunResult>)
    ensures
        exists|acts: Seq<Action>, games: Seq<GameView>, agents: Seq<A>, obs: Seq<Observation>|
            #![trigger played_by(seed, mode, max_waves, acts, games, agents, obs)]
            {
                let g = games.last();
                &&& played_by(seed, mode, max_waves, acts, games, agents, obs)
                &&& g == spec_replay(seed, acts) && replay_fits(seed, acts)
                &&& agents[0] == *old(agent)
                &&& match r {
                    Some(row) => {
                        &&& agents.last() == *final(agent)
                        &&& exists|n: Seq<char>| #[trigger] final(agent).named(n) && row.agent@ == row_name(n, mode)
                        &&& !in_play(g, max_waves)
                        &&& row.seed == seed && row.run == run && row.wave == g.wave
                        &&& row.wave <= max_waves + 1
                        &&& row.actions == acts.len()
                        &&& row.actions <= ACTION_LIMIT * max_waves
                        &&& forall|i: int|
                            0 <= i < 7 ==> #[trigger] row.errors@[i] == error_count(
                                g.metrics.errors,
                                spec_error_codes()[i],
                            )
                        &&& row.forced == g.metrics.forced_end_turns
                        &&& row.moves == g.metrics.moves_used
                        &&& row.refunded == g.metrics.gold_refunded
                    },
                    None => {
                        &&& in_play(g, max_waves)
                        &&& {
                            ||| agents.last() == *final(agent) && (g.wave == u32::MAX || acts.len() == u32::MAX
                                || !agents.last().can_act(g))
                            ||| exists|a: Action, o: Observation|
                                #![trigger agents.last().chooses(g, o, last_answer(acts, games), a, *final(agent))]
                                {
                                    &&& observes(o, "g0"@, g, mode)
                                    &&& agents.last().can_act(g)
                                    &&& agents.last().chooses(g, o, last_answer(acts, games), a, *final(agent))
                                    &&& !apply_fits(g, a)
                                }
                        }
                    },
                }
            },
{
    let mut g = Game::new(seed);
    let mut actions: u32 = 0;
    let mut last: Option<ErrorCode> = None;
    let t0 = agent.tokens();
    let p0 = agent.parse_failures();
    let ghost mut acts: Seq<Action> = Seq::empty();
    let ghost mut games: Seq<GameView> = seq![g@];
    let ghost mut agents: Seq<A> = seq![*agent];
    let ghost mut shown: Seq<Observation> = Seq::empty();
    proof {
        lemma_played_start(seed, mode, max_waves, *agent);
    }
    while g.phase == Phase::Preparation && g.wave <= max_waves
        invariant
            game_wf(g@),
            g@ == games.last(),
            played_by(seed, mode, max_waves, acts, games, agents, shown),
            acts.len() + 1 == games.len() == agents.len(),
            shown.len() == acts.len(),
            agents[0] == *old(agent),
            agents.last() == *agent,
            last == last_answer(acts, games),
            actions == acts.len(),
            1 <= g.wave <= max_waves + 1,
            g.wave == max_waves + 1 ==> g.actions_used == 0,
            g.actions_used <= ACTION_LIMIT,
            acts.len() <= ACTION_LIMIT * (g.wave - 1) + g.actions_used,
        decreases max_waves + 1 - g.wave, 20 - g.actions_used,
    {
        if g.wave == u32::MAX || actions == u32::MAX || !agent.ready(&g) {
            proof {
                lemma_played_replays(seed, mode, max_waves, acts, games, agents, shown);
            }
            return None;
        }
        let obs = observe("g0", &g, mode);
        let ghost before = *agent;
        let action = agent.act(&g, &obs, last);
        if !g.can_apply(action) {
            proof {
                lemma_played_replays(seed, mode, max_waves, acts, games, agents, shown);
                assert(agents.last().chooses(games.last(), obs, last_answer(acts, games), action, *agent));
                assert(observes(obs, "g0"@, games.last(), mode));
                assert(!apply_fits(games.last(), action));
            }
            return None;
        }
        let ghost g0 = g@;
        let ghost answered = *agent;
        proof {
            lemma_step_bounds(g@, action);
            assert(fits(g@, action)) by {
                reveal(fits);
            }
            assert(shown_as(obs, g@, mode)) by {
                reveal(shown_as);
            }
            lemma_played_step(seed, mode, max_waves, acts, games, agents, shown, obs, action, answered);
        }
        let res = g.apply(action);
        last = match res {
            Ok(()) => None,
            Err(e) => Some(e),
        };
        actions = actions + 1;
        match action {
            Action::EndTurn => {
                last = None;
            },
            _ => {},
        }
        proof {
            assert(g@ == after(g0, action)) by {
                reveal(after);
            }
            let acts2 = acts.push(action);
            let games2 = games.push(after(g0, action));
            assert(last == last_answer(acts2, games2)) by {
                reveal(answer);
                assert(acts2.last() == action);
                assert(games2[acts2.len() - 1] == g0);
            }
            acts = acts2;
            games = games2;
            assert(agents.push(answered)[0] == agents[0]);
            agents = agents.push(answered);
            shown = shown.push(obs);
        }
    }
    let t1 = agent.tokens();
    let p1 = agent.parse_failures();
    // Counters that went down count as nothing spent.
    let tokens = if t1 < t0 { 0 } else { t1 - t0 };
    let failures = if p1 < p0 { 0 } else { p1 - p0 };
    let nm = agent.name();
    let row = run_result(nm, mode, seed, run, &g, actions, failures, tokens);
    proof {
        assert(agent.named(nm@));
        lemma_played_replays(seed, mode, max_waves, acts, games, agents, shown);
        assert(acts.len() <= ACTION_LIMIT * max_waves) by (nonlinear_arith)
            requires
                acts.len() <= ACTION_LIMIT * (g.wave - 1) + g.actions_used,
                g.actions_used <= ACTION_LIMIT,
                1 <= g.wave <= max_waves + 1,
                g.wave == max_waves + 1 ==> g.actions_used == 0,
                ACTION_LIMIT == 20,
        ;
    }
    Some(row)
}


// ------------------------------------------------------------ the mode does not change the game

/// The lengths of a played log and the game it starts from.
proof fn lemma_played_shape<A: Agent>(
    seed: u64,
    mode: Mode,
    max_waves: u32,
    acts: Seq<Action>,
    games: Seq<GameView>,
    agents: Seq<A>,
    obs: Seq<Observation>,
)
    requires
        played_by(seed, mode, max_waves, acts, games, agents, obs),
    ensures
        games.len() == acts.len() + 1,
        agents.len() == acts.len() + 1,
        obs.len() == acts.len(),
        games[0] == spec_new_game(seed),
{
    reveal(played_by);
}

/// Step `i` of a played log.
proof fn lemma_played_at<A: Agent>(
    seed: u64,
    mode: Mode,
    max_waves: u32,
    acts: Seq<Action>,
    games: Seq<GameView>,
    agents: Seq<A>,
    obs: Seq<Observation>,
    i: int,
)
    requires
        played_by(seed, mode, max_waves, acts, games, agents, obs),
        0 <= i < acts.len(),
    ensures
        in_play(games[i], max_waves),
        games[i + 1] == after(games[i], acts[i]),
        agents[i].chooses(
            games[i],
            obs[i],
            if i == 0 {
                None
            } else {
                answer(games[i - 1], acts[i - 1])
            },
            acts[i],
            agents[i + 1],
        ),
{
    reveal(played_by);
    assert(acts[i] == acts[i]);
}

proof fn lemma_greedy_logs_agree(
    seed: u64,
    max_waves: u32,
    m1: Mode,
    m2: Mode,
    acts1: Seq<Action>,
    games1: Seq<GameView>,
    agents1: Seq<Greedy>,
    obs1: Seq<Observation>,
    acts2: Seq<Action>,
    games2: Seq<GameView>,
    agents2: Seq<Greedy>,
    obs2: Seq<Observation>,
    n: int,
)
    requires
        played_by(seed, m1, max_waves, acts1, games1, agents1, obs1),
        played_by(seed, m2, max_waves, acts2, games2, agents2, obs2),
        greedy_alike(agents1[0], agents2[0]),
        0 <= n <= acts1.len(),
        n <= acts2.len(),
    ensures
        forall|i: int| 0 <= i <= n ==> games1[i] == games2[i],
        forall|i: int| 0 <= i < n ==> acts1[i] == acts2[i],
        greedy_alike(agents1[n], agents2[n]),
    decreases n,
{
    lemma_played_shape(seed, m1, max_waves, acts1, games1, agents1, obs1);
    lemma_played_shape(seed, m2, max_waves, acts2, games2, agents2, obs2);
    if n > 0 {
        let k = n - 1;
        lemma_greedy_logs_agree(seed, max_waves, m1, m2, acts1, games1, agents1, obs1, acts2, games2, agents2, obs2, k);
        let last1 = if k == 0 { None } else { answer(games1[k - 1], acts1[k - 1]) };
        let last2 = if k == 0 { None } else { answer(games2[k - 1], acts2[k - 1]) };
        lemma_played_at(seed, m1, max_waves, acts1, games1, agents1, obs1, k);
        lemma_played_at(seed, m2, max_waves, acts2, games2, agents2, obs2, k);
        if k > 0 {
            assert(games1[k - 1] == games2[k - 1] && acts1[k - 1] == acts2[k - 1]);
        }
        lemma_greedy_ignores_the_observation(
            agents1[k],
            agents2[k],
            games1[k],
            obs1[k],
            obs2[k],
            last1,
            acts1[k],
            acts2[k],
            agents1[k + 1],
            agents2[k + 1],
        );
    }
}

/// The observation mode changes only the text an agent reads: greedy agents
/// that start alike and play a game to its end from the same seed, one in
/// each mode, play the same actions through the same games, and so reach the
/// same wave.
pub proof fn lemma_greedy_plays_alike_in_both_modes(
    seed: u64,
    max_waves: u32,
    m1: Mode,
    m2: Mode,
    acts1: Seq<Action>,
    games1: Seq<GameView>,
    agents1: Seq<Greedy>,
    obs1: Seq<Observation>,
    acts2: Seq<Action>,
    games2: Seq<GameView>,
    agents2: Seq<Greedy>,
    obs2: Seq<Observation>,
)
    requires
        played_by(seed, m1, max_waves, acts1, games1, agents1, obs1),
        played_by(seed, m2, max_waves, acts2, games2, agents2, obs2),
        greedy_alike(agents1[0], agents2[0]),
        !in_play(games1.last(), max_waves),
        !in_play(games2.last(), max_waves),
    ensures
        acts1 == acts2,
        games1 == games2,
        games1.last().wave == games2.last().wave,
{
    lemma_played_shape(seed, m1, max_waves, acts1, games1, agents1, obs1);
    lemma_played_shape(seed, m2, max_waves, acts2, games2, agents2, obs2);
    let n = if acts1.len() <= acts2.len() { acts1.len() as int } else { acts2.len() as int };
    lemma_greedy_logs_agree(seed, max_waves, m1, m2, acts1, games1, agents1, obs1, acts2, games2, agents2, obs2, n);
    if acts1.len() < acts2.len() {
        lemma_played_at(seed, m2, max_waves, acts2, games2, agents2, obs2, n);
        assert(games1[n] == games2[n]);
        assert(false);
    }
    if acts2.len() < acts1.len() {
        lemma_played_at(seed, m1, max_waves, acts1, games1, agents1, obs1, n);
        assert(games1[n] == games2[n]);
        assert(false);
    }
    assert(acts1 =~= acts2);
    assert(games1 =~= games2);
}


// ------------------------------------------------------------ CSV

pub open spec fn spec_csv_header() -> Seq<char> {
    "agent,seed,run,wave_reached,actions,illegal,path_blocked,insufficient_gold,cell_occupied,no_moves_left,invalid_cell,wrong_phase,unknown_building,forced_end_turns,moves_used,gold_refunded,parse_failures,tokens\n"@
}

/// The first `n` error counts, separated by commas.
pub open spec fn spec_error_cells(e: Seq<u32>, n: int) -> Seq<char>
    decreases n,
{
    if n <= 0 {
        Seq::empty()
    } else if n == 1 {
        spec_decimal(e[0] as nat)
    } else {
        spec_error_cells(e, n - 1) + ","@ + spec_decimal(e[n - 1] as nat)
    }
}

/// The CSV cells of a row before the error counts.
pub open spec fn spec_csv_lead(r: RunResult) -> Seq<char> {
    r.agent@ + ","@ + spec_decimal(r.seed as nat) + ","@ + spec_decimal(r.run as nat) + ","@ + spec_decimal(r.wave as nat)
        + ","@ + spec_decimal(r.actions as nat) + ","@ + spec_decimal(sum_upto(r.errors@, 7) as nat) + ","@
}

/// The CSV cells of a row after the error counts.
pub open spec fn spec_csv_trail(r: RunResult) -> Seq<char> {
    ","@ + spec_decimal(r.forced as nat) + ","@ + spec_decimal(r.moves as nat) + ","@ + spec_decimal(r.refunded as nat)
        + ","@ + spec_decimal(r.parse_failures as nat) + ","@ + spec_decimal(r.tokens as nat) + "\n"@
}

/// The CSV line of a row.
pub open spec fn spec_csv_row(r: RunResult) -> Seq<char> {
    spec_csv_lead(r) + spec_error_cells(r.errors@, 7) + spec_csv_trail(r)
}

/// The CSV lines of the first `n` rows.
pub open spec fn spec_csv_rows(rows: Seq<RunResult>, n: int) -> Seq<char>
    decreases n,
{
    if n <= 0 {
        Seq::empty()
    } else {
        spec_csv_rows(rows, n - 1) + spec_csv_row(rows[n - 1])
    }
}

fn push_csv_row(s: &mut String, r: &RunResult)
    requires
        sum_upto(r.errors@, 7) <= u32::MAX,
    ensures
        final(s)@ == old(s)@ + spec_csv_row(*r),
{
    let ghost s0 = s@;
    s.append(r.agent.as_str());
    s.append(",");
    push_decimal(s, r.seed);
    s.append(",");
    push_decimal(s, r.run as u64);
    s.append(",");
    push_decimal(s, r.wave as u64);
    s.append(",");
    push_decimal(s, r.actions as u64);
    s.append(",");
    push_decimal(s, r.illegal() as u64);
    s.append(",");
    let ghost s1 = s@;
    assert(s1 =~= s0 + spec_csv_lead(*r));
    let mut i: usize = 0;
    while i < 7
        invariant
            i <= 7,
            s@ == s1 + spec_error_cells(r.errors@, i as int),
        decreases 7 - i,
    {
        if i > 0 {
            s.append(",");
        }
        push_decimal(s, r.errors[i] as u64);
        i += 1;
    }
    let ghost s2 = s@;
    s.append(",");
    push_decimal(s, r.forced as u64);
    s.append(",");
    push_decimal(s, r.moves as u64);
    s.append(",");
    push_decimal(s, r.refunded as u64);
    s.append(",");
    push_decimal(s, r.parse_failures as u64);
    s.append(",");
    push_decimal(s, r.tokens);
    s.append("\n");
    assert(s@ =~= s2 + spec_csv_trail(*r));
    assert(s@ =~= s0 + spec_csv_row(*r));
}

/// The campaign as CSV: a header, then one line per row.
pub fn csv(rows: &[RunResult]) -> (s: String)
    requires
        forall|i: int| 0 <= i < rows@.len() ==> sum_upto((#[trigger] rows@[i]).errors@, 7) <= u32::MAX,
    ensures
        s@ == spec_csv_header() + spec_csv_rows(rows@, rows@.len() as int),
{
    let mut s = String::from_str(
        "agent,seed,run,wave_reached,actions,illegal,path_blocked,insufficient_gold,cell_occupied,no_moves_left,invalid_cell,wrong_phase,unknown_building,forced_end_turns,moves_used,gold_refunded,parse_failures,tokens\n",
    );
    let mut i: usize = 0;
    while i < rows.len()
        invariant
            i <= rows@.len(),
            forall|j: int| 0 <= j < rows@.len() ==> sum_upto((#[trigger] rows@[j]).errors@, 7) <= u32::MAX,
            s@ == spec_csv_header() + spec_csv_rows(rows@, i as int),
        decreases rows@.len() - i,
    {
        push_csv_row(&mut s, &rows[i]);
        i += 1;
    }
    s
}


/// Index of the first `c` of `s` at or after `from`; the length when there is none.
pub open spec fn next_at(s: Seq<char>, c: char, from: int) -> int
    decreases s.len() - from,
{
    if from >= s.len() {
        s.len() as int
    } else if s[from] == c {
        from
    } else {
        next_at(s, c, from + 1)
    }
}

pub proof fn lemma_next_at(s: Seq<char>, c: char, from: int)
    requires
        0 <= from <= s.len(),
    ensures
        from <= next_at(s, c, from) <= s.len(),
        next_at(s, c, from) < s.len() ==> s[next_at(s, c, from)] == c,
        forall|j: int| from <= j < next_at(s, c, from) ==> s[j] != c,
    decreases s.len() - from,
{
    if from < s.len() && s[from] != c {
        lemma_next_at(s, c, from + 1);
    }
}

/// The lines of `s` from position `p`, as Rust's `lines` cuts them: at each
/// `\n`, a `\r` before it dropped; no line after a final `\n`.
pub open spec fn lines_from(s: Seq<char>, p: int) -> Seq<Seq<char>>
    decreases s.len() - p,
{
    if p >= s.len() || p < 0 {
        seq![]
    } else {
        let e = next_at(s, '\n', p);
        let seg = s.subrange(p, e);
        let line = if e < s.len() && seg.len() > 0 && seg.last() == '\r' {
            seg.drop_last()
        } else {
            seg
        };
        proof {
            lemma_next_at(s, '\n', p);
        }
        if e >= s.len() {
            seq![line]
        } else {
            seq![line] + lines_from(s, e + 1)
        }
    }
}

/// The comma-separated fields of `l` from position `p`.
pub open spec fn fields_from(l: Seq<char>, p: int) -> Seq<Seq<char>>
    decreases l.len() - p,
{
    if p < 0 || p > l.len() {
        seq![]
    } else {
        let e = next_at(l, ',', p);
        proof {
            lemma_next_at(l, ',', p);
        }
        if e >= l.len() {
            seq![l.subrange(p, l.len() as int)]
        } else {
            seq![l.subrange(p, e)] + fields_from(l, e + 1)
        }
    }
}

/// A number cell, `0` when unreadable.
pub open spec fn cell_value(f: Seq<char>) -> u64 {
    match spec_parse_unsigned(f, u64::MAX as nat) {
        Some(v) => v as u64,
        None => 0,
    }
}

/// Whether `r` is the row read from the 18 cells `f`.
pub open spec fn read_row(r: RunResult, f: Seq<Seq<char>>) -> bool {
    &&& r.agent@ == f[0]
    &&& r.seed == cell_value(f[1])
    &&& r.run == cell_value(f[2]) as u32
    &&& r.wave == cell_value(f[3]) as u32
    &&& r.actions == cell_value(f[4]) as u32
    &&& forall|i: int| 0 <= i < 7 ==> #[trigger] r.errors@[i] == cell_value(f[6 + i]) as u32
    &&& r.forced == cell_value(f[13]) as u32
    &&& r.moves == cell_value(f[14]) as u32
    &&& r.refunded == cell_value(f[15]) as u32
    &&& r.parse_failures == cell_value(f[16]) as u32
    &&& r.tokens == cell_value(f[17])
}

/// The cells of the rows among the first `n` lines: every line but the
/// header that has the 18 cells of a row.
pub open spec fn csv_records(ls: Seq<Seq<char>>, n: int) -> Seq<Seq<Seq<char>>>
    decreases n,
{
    if n <= 1 {
        seq![]
    } else {
        let f = fields_from(ls[n - 1], 0);
        if f.len() == 18 {
            csv_records(ls, n - 1).push(f)
        } else {
            csv_records(ls, n - 1)
        }
    }
}

// ------------------------------------------------------------ reading a CSV back

/// The first `c` from `q` on, in `l` or in its part from `p`, is the same place.
proof fn lemma_next_at_shift(l: Seq<char>, c: char, p: int, q: int)
    requires
        0 <= p <= q <= l.len(),
    ensures
        next_at(l, c, q) == p + next_at(l.subrange(p, l.len() as int), c, q - p),
    decreases l.len() - q,
{
    let sub = l.subrange(p, l.len() as int);
    if q < l.len() {
        assert(sub[q - p] == l[q]);
        if l[q] != c {
            lemma_next_at_shift(l, c, p, q + 1);
        }
    }
}

/// The fields of `l` from `p` are those of its part from `p`.
proof fn lemma_fields_shift(l: Seq<char>, p: int)
    requires
        0 <= p <= l.len(),
    ensures
        fields_from(l, p) == fields_from(l.subrange(p, l.len() as int), 0),
    decreases l.len() - p,
{
    let sub = l.subrange(p, l.len() as int);
    lemma_next_at_shift(l, ',', p, p);
    lemma_next_at(l, ',', p);
    let e = next_at(l, ',', p);
    if e < l.len() {
        lemma_fields_shift(l, e + 1);
        lemma_fields_shift(sub, e - p + 1);
        assert(sub.subrange(e - p + 1, sub.len() as int) =~= l.subrange(e + 1, l.len() as int));
        assert(sub.subrange(0, e - p) =~= l.subrange(p, e));
    } else {
        assert(sub.subrange(0, sub.len() as int) =~= l.subrange(p, l.len() as int));
    }
}

/// A text without `c`.
pub open spec fn free_of(x: Seq<char>, c: char) -> bool {
    forall|i: int| 0 <= i < x.len() ==> x[i] != c
}

/// The first `c` of `x + [c] + y` follows `x` when `x` holds none.
proof fn lemma_next_after(x: Seq<char>, c: char, y: Seq<char>)
    requires
        free_of(x, c),
    ensures
        next_at(x + seq![c] + y, c, 0) == x.len(),
{
    let l = x + seq![c] + y;
    lemma_next_at(l, c, 0);
    let e = next_at(l, c, 0);
    if e < x.len() {
        assert(l[e] == x[e]);
    }
    assert(l[x.len() as int] == c);
}

/// A text without commas is one field.
proof fn lemma_fields_single(x: Seq<char>)
    requires
        free_of(x, ','),
    ensures
        fields_from(x, 0) == seq![x],
{
    lemma_next_at(x, ',', 0);
    assert(x.subrange(0, x.len() as int) =~= x);
}

/// The first `n` cells, joined by commas.
pub open spec fn joined_upto(cells: Seq<Seq<char>>, n: int) -> Seq<char>
    decreases n,
{
    if n <= 1 {
        if n == 1 {
            cells[0]
        } else {
            Seq::empty()
        }
    } else {
        joined_upto(cells, n - 1) + seq![','] + cells[n - 1]
    }
}

/// Where `a` and `a + t` agree, their first `c` agrees.
proof fn lemma_next_at_prefix(a: Seq<char>, t: Seq<char>, c: char, p: int)
    requires
        0 <= p <= a.len(),
    ensures
        next_at(a, c, p) < a.len() ==> next_at(a + t, c, p) == next_at(a, c, p),
        next_at(a, c, p) == a.len() ==> next_at(a + t, c, p) == a.len() + next_at(t, c, 0),
    decreases a.len() - p,
{
    let l = a + t;
    if p < a.len() {
        assert(l[p] == a[p]);
        if a[p] != c {
            lemma_next_at_prefix(a, t, c, p + 1);
        }
    } else {
        lemma_next_at_shift(l, c, a.len() as int, a.len() as int);
        assert(l.subrange(a.len() as int, l.len() as int) =~= t);
    }
}

/// A last field without commas, appended after a comma.
proof fn lemma_fields_snoc(a: Seq<char>, b: Seq<char>, p: int)
    requires
        free_of(b, ','),
        0 <= p <= a.len(),
    ensures
        fields_from(a + seq![','] + b, p) == fields_from(a, p) + seq![b],
    decreases a.len() - p,
{
    let t = seq![','] + b;
    let l = a + seq![','] + b;
    assert(l =~= a + t);
    lemma_next_at_prefix(a, t, ',', p);
    lemma_next_at(a, ',', p);
    let e = next_at(a, ',', p);
    if e < a.len() {
        lemma_fields_snoc(a, b, e + 1);
        assert(l.subrange(p, e) =~= a.subrange(p, e));
        assert(seq![a.subrange(p, e)] + (fields_from(a, e + 1) + seq![b]) =~= (seq![a.subrange(p, e)] + fields_from(a, e + 1)) + seq![b]);
    } else {
        assert(next_at(t, ',', 0) == 0);
        lemma_fields_shift(l, a.len() as int + 1);
        assert(l.subrange(a.len() as int + 1, l.len() as int) =~= b);
        lemma_fields_single(b);
        assert(l.subrange(p, a.len() as int) =~= a.subrange(p, a.len() as int));
    }
}

/// Cells without commas, joined by commas, split back into themselves.
proof fn lemma_fields_joined(cells: Seq<Seq<char>>, n: int)
    requires
        1 <= n <= cells.len(),
        forall|j: int| 0 <= j < cells.len() ==> free_of(#[trigger] cells[j], ','),
    ensures
        fields_from(joined_upto(cells, n), 0) == cells.subrange(0, n),
    decreases n,
{
    if n == 1 {
        lemma_fields_single(cells[0]);
        assert(seq![cells[0]] =~= cells.subrange(0, 1));
    } else {
        lemma_fields_joined(cells, n - 1);
        lemma_fields_snoc(joined_upto(cells, n - 1), cells[n - 1], 0);
        assert(cells.subrange(0, n - 1) + seq![cells[n - 1]] =~= cells.subrange(0, n));
    }
}

/// Cells without newlines, joined by commas, hold no newline.
proof fn lemma_joined_free(cells: Seq<Seq<char>>, n: int)
    requires
        n <= cells.len(),
        forall|j: int| 0 <= j < cells.len() ==> free_of(#[trigger] cells[j], '\n'),
    ensures
        free_of(joined_upto(cells, n), '\n'),
    decreases n,
{
    if n > 1 {
        lemma_joined_free(cells, n - 1);
        let x = joined_upto(cells, n - 1);
        let y = cells[n - 1];
        assert(free_of(y, '\n'));
        assert forall|k: int| 0 <= k < (x + seq![','] + y).len() implies (x + seq![','] + y)[k] != '\n' by {
            if k > x.len() {
                assert((x + seq![','] + y)[k] == y[k - x.len() - 1]);
            }
        }
    } else if n == 1 {
        assert(free_of(cells[0], '\n'));
    }
}

/// The lines of `s` from `p` are those of its part from `p`.
proof fn lemma_lines_shift(s: Seq<char>, p: int)
    requires
        0 <= p <= s.len(),
    ensures
        lines_from(s, p) == lines_from(s.subrange(p, s.len() as int), 0),
    decreases s.len() - p,
{
    let sub = s.subrange(p, s.len() as int);
    if p < s.len() {
        lemma_next_at_shift(s, '\n', p, p);
        lemma_next_at(s, '\n', p);
        let e = next_at(s, '\n', p);
        assert(sub.subrange(0, e - p) =~= s.subrange(p, e));
        if e < s.len() {
            lemma_lines_shift(s, e + 1);
            lemma_lines_shift(sub, e - p + 1);
            assert(sub.subrange(e - p + 1, sub.len() as int) =~= s.subrange(e + 1, s.len() as int));
        }
    }
}

/// Lines split at the first newline, when the line does not end with `\r`.
proof fn lemma_lines_cons(x: Seq<char>, y: Seq<char>)
    requires
        free_of(x, '\n'),
        x.len() > 0,
        x.last() != '\r',
    ensures
        lines_from(x + seq!['\n'] + y, 0) == seq![x] + lines_from(y, 0),
{
    let l = x + seq!['\n'] + y;
    lemma_next_after(x, '\n', y);
    lemma_lines_shift(l, x.len() as int + 1);
    assert(l.subrange(x.len() as int + 1, l.len() as int) =~= y);
    assert(l.subrange(0, x.len() as int) =~= x);
}

/// The 18 cells of the CSV line of a row.
pub open spec fn row_cells(r: RunResult) -> Seq<Seq<char>> {
    let e = r.errors@;
    seq![
        r.agent@,
        spec_decimal(r.seed as nat),
        spec_decimal(r.run as nat),
        spec_decimal(r.wave as nat),
        spec_decimal(r.actions as nat),
        spec_decimal(sum_upto(e, 7) as nat),
        spec_decimal(e[0] as nat),
        spec_decimal(e[1] as nat),
        spec_decimal(e[2] as nat),
        spec_decimal(e[3] as nat),
        spec_decimal(e[4] as nat),
        spec_decimal(e[5] as nat),
        spec_decimal(e[6] as nat),
        spec_decimal(r.forced as nat),
        spec_decimal(r.moves as nat),
        spec_decimal(r.refunded as nat),
        spec_decimal(r.parse_failures as nat),
        spec_decimal(r.tokens as nat),
    ]
}

/// The CSV line of a row is its cells joined by commas, then a newline.
#[verifier::rlimit(40)]
proof fn lemma_row_is_joined(r: RunResult)
    ensures
        spec_csv_row(r) == joined_upto(row_cells(r), 18) + seq!['\n'],
{
    let c = row_cells(r);
    reveal_strlit(",");
    reveal_strlit("\n");
    reveal_with_fuel(spec_error_cells, 8);
    assert(joined_upto(c, 1) == c[0]);
    assert(joined_upto(c, 2) == joined_upto(c, 1) + seq![','] + c[1]);
    assert(joined_upto(c, 3) == joined_upto(c, 2) + seq![','] + c[2]);
    assert(joined_upto(c, 4) == joined_upto(c, 3) + seq![','] + c[3]);
    assert(joined_upto(c, 5) == joined_upto(c, 4) + seq![','] + c[4]);
    assert(joined_upto(c, 6) == joined_upto(c, 5) + seq![','] + c[5]);
    assert(joined_upto(c, 7) == joined_upto(c, 6) + seq![','] + c[6]);
    assert(joined_upto(c, 8) == joined_upto(c, 7) + seq![','] + c[7]);
    assert(joined_upto(c, 9) == joined_upto(c, 8) + seq![','] + c[8]);
    assert(joined_upto(c, 10) == joined_upto(c, 9) + seq![','] + c[9]);
    assert(joined_upto(c, 11) == joined_upto(c, 10) + seq![','] + c[10]);
    assert(joined_upto(c, 12) == joined_upto(c, 11) + seq![','] + c[11]);
    assert(joined_upto(c, 13) == joined_upto(c, 12) + seq![','] + c[12]);
    assert(joined_upto(c, 14) == joined_upto(c, 13) + seq![','] + c[13]);
    assert(joined_upto(c, 15) == joined_upto(c, 14) + seq![','] + c[14]);
    assert(joined_upto(c, 16) == joined_upto(c, 15) + seq![','] + c[15]);
    assert(joined_upto(c, 17) == joined_upto(c, 16) + seq![','] + c[16]);
    assert(joined_upto(c, 18) == joined_upto(c, 17) + seq![','] + c[17]);
    assert(spec_csv_row(r) =~= joined_upto(c, 18) + seq!['\n']);
}

/// The text of a row's line, without its newline.
pub open spec fn row_text(r: RunResult) -> Seq<char> {
    joined_upto(row_cells(r), 18)
}

/// The cells of a row hold no comma and no newline when its agent's name holds none.
proof fn lemma_row_cells_clean(r: RunResult)
    requires
        free_of(r.agent@, ','),
        free_of(r.agent@, '\n'),
    ensures
        forall|j: int| 0 <= j < row_cells(r).len() ==> free_of(#[trigger] row_cells(r)[j], ','),
        forall|j: int| 0 <= j < row_cells(r).len() ==> free_of(#[trigger] row_cells(r)[j], '\n'),
{
    let c = row_cells(r);
    assert forall|j: int| 1 <= j < c.len() implies free_of(#[trigger] c[j], ',') && free_of(c[j], '\n') by {
        let e = r.errors@;
        let n: nat = if j == 1 {
            r.seed as nat
        } else if j == 2 {
            r.run as nat
        } else if j == 3 {
            r.wave as nat
        } else if j == 4 {
            r.actions as nat
        } else if j == 5 {
            sum_upto(e, 7) as nat
        } else if 6 <= j < 13 {
            e[j - 6] as nat
        } else if j == 13 {
            r.forced as nat
        } else if j == 14 {
            r.moves as nat
        } else if j == 15 {
            r.refunded as nat
        } else if j == 16 {
            r.parse_failures as nat
        } else {
            r.tokens as nat
        };
        assert(c[j] == spec_decimal(n));
        crate::text::lemma_decimal_digits(n);
        assert forall|i: int| 0 <= i < c[j].len() implies c[j][i] != ',' && c[j][i] != '\n' by {
            assert(crate::text::is_digit(spec_decimal(n)[i]));
        }
    }
}

/// A row's line splits into its 18 cells, holds no newline, and ends with a digit.
proof fn lemma_row_text(r: RunResult)
    requires
        free_of(r.agent@, ','),
        free_of(r.agent@, '\n'),
    ensures
        fields_from(row_text(r), 0) == row_cells(r),
        free_of(row_text(r), '\n'),
        row_text(r).len() > 0,
        row_text(r).last() != '\r',
        spec_csv_row(r) == row_text(r) + seq!['\n'],
{
    let c = row_cells(r);
    lemma_row_cells_clean(r);
    lemma_fields_joined(c, 18);
    assert(c.subrange(0, 18) =~= c);
    lemma_joined_free(c, 18);
    lemma_row_is_joined(r);
    let t = row_text(r);
    assert(t == joined_upto(c, 17) + seq![','] + c[17]);
    crate::text::lemma_decimal_digits(r.tokens as nat);
    assert(t.last() == c[17].last());
    assert(crate::text::is_digit(c[17][c[17].len() - 1]));
}

/// The lines of the first `n` rows, each followed by its newline.
proof fn lemma_rows_cons(rows: Seq<RunResult>, n: int)
    requires
        1 <= n <= rows.len(),
    ensures
        spec_csv_rows(rows, n) == spec_csv_row(rows[0]) + spec_csv_rows(rows.drop_first(), n - 1),
    decreases n,
{
    if n == 1 {
        assert(spec_csv_rows(rows, 0) =~= Seq::<char>::empty());
        assert(spec_csv_rows(rows.drop_first(), 0) =~= Seq::<char>::empty());
        assert(spec_csv_rows(rows, 1) =~= spec_csv_row(rows[0]) + spec_csv_rows(rows.drop_first(), 0));
    } else {
        lemma_rows_cons(rows, n - 1);
        assert(rows.drop_first()[n - 2] == rows[n - 1]);
        assert(spec_csv_rows(rows, n) =~= spec_csv_row(rows[0]) + spec_csv_rows(rows.drop_first(), n - 1));
    }
}

/// Agents whose names hold no comma and no newline.
pub open spec fn clean_names(rows: Seq<RunResult>) -> bool {
    forall|i: int| 0 <= i < rows.len() ==> free_of((#[trigger] rows[i]).agent@, ',') && free_of(rows[i].agent@, '\n')
}

/// The lines of the rows' CSV text are the rows' lines.
proof fn lemma_lines_of_rows(rows: Seq<RunResult>)
    requires
        clean_names(rows),
    ensures
        lines_from(spec_csv_rows(rows, rows.len() as int), 0) == Seq::new(rows.len(), |i: int| row_text(rows[i])),
    decreases rows.len(),
{
    if rows.len() == 0 {
        assert(Seq::new(rows.len(), |i: int| row_text(rows[i])) =~= Seq::<Seq<char>>::empty());
    } else {
        let rest = rows.drop_first();
        assert(clean_names(rest)) by {
            assert forall|i: int| 0 <= i < rest.len() implies free_of((#[trigger] rest[i]).agent@, ',') && free_of(
                rest[i].agent@,
                '\n',
            ) by {
                assert(rest[i] == rows[i + 1]);
            }
        }
        lemma_lines_of_rows(rest);
        lemma_rows_cons(rows, rows.len() as int);
        lemma_row_text(rows[0]);
        lemma_lines_cons(row_text(rows[0]), spec_csv_rows(rest, rest.len() as int));
        assert(seq![row_text(rows[0])] + Seq::new(rest.len(), |i: int| row_text(rest[i])) =~= Seq::new(
            rows.len(),
            |i: int| row_text(rows[i]),
        ));
    }
}

/// The header of the CSV text, without its newline.
pub open spec fn header_text() -> Seq<char> {
    spec_csv_header().drop_last()
}

/// The names of the 18 columns.
pub open spec fn header_cells() -> Seq<Seq<char>> {
    seq![
        "agent"@,
        "seed"@,
        "run"@,
        "wave_reached"@,
        "actions"@,
        "illegal"@,
        "path_blocked"@,
        "insufficient_gold"@,
        "cell_occupied"@,
        "no_moves_left"@,
        "invalid_cell"@,
        "wrong_phase"@,
        "unknown_building"@,
        "forced_end_turns"@,
        "moves_used"@,
        "gold_refunded"@,
        "parse_failures"@,
        "tokens"@,
    ]
}

/// The header line splits into the 18 column names.
#[verifier::rlimit(40)]
proof fn lemma_header_fields()
    ensures
        fields_from(header_text(), 0).len() == 18,
        free_of(header_text(), '\n'),
        header_text().len() > 0 && header_text().last() != '\r',
        spec_csv_header() == header_text() + seq!['\n'],
{
    let c = header_cells();
    reveal_strlit("agent");
    reveal_strlit("seed");
    reveal_strlit("run");
    reveal_strlit("wave_reached");
    reveal_strlit("actions");
    reveal_strlit("illegal");
    reveal_strlit("path_blocked");
    reveal_strlit("insufficient_gold");
    reveal_strlit("cell_occupied");
    reveal_strlit("no_moves_left");
    reveal_strlit("invalid_cell");
    reveal_strlit("wrong_phase");
    reveal_strlit("unknown_building");
    reveal_strlit("forced_end_turns");
    reveal_strlit("moves_used");
    reveal_strlit("gold_refunded");
    reveal_strlit("parse_failures");
    reveal_strlit("tokens");
    reveal_strlit("agent,seed,run,wave_reached,actions,illegal,path_blocked,insufficient_gold,cell_occupied,no_moves_left,invalid_cell,wrong_phase,unknown_building,forced_end_turns,moves_used,gold_refunded,parse_failures,tokens\n");
    assert(joined_upto(c, 1) == c[0]);
    assert(joined_upto(c, 2) == joined_upto(c, 1) + seq![','] + c[1]);
    assert(joined_upto(c, 3) == joined_upto(c, 2) + seq![','] + c[2]);
    assert(joined_upto(c, 4) == joined_upto(c, 3) + seq![','] + c[3]);
    assert(joined_upto(c, 5) == joined_upto(c, 4) + seq![','] + c[4]);
    assert(joined_upto(c, 6) == joined_upto(c, 5) + seq![','] + c[5]);
    assert(joined_upto(c, 7) == joined_upto(c, 6) + seq![','] + c[6]);
    assert(joined_upto(c, 8) == joined_upto(c, 7) + seq![','] + c[7]);
    assert(joined_upto(c, 9) == joined_upto(c, 8) + seq![','] + c[8]);
    assert(joined_upto(c, 10) == joined_upto(c, 9) + seq![','] + c[9]);
    assert(joined_upto(c, 11) == joined_upto(c, 10) + seq![','] + c[10]);
    assert(joined_upto(c, 12) == joined_upto(c, 11) + seq![','] + c[11]);
    assert(joined_upto(c, 13) == joined_upto(c, 12) + seq![','] + c[12]);
    assert(joined_upto(c, 14) == joined_upto(c, 13) + seq![','] + c[13]);
    assert(joined_upto(c, 15) == joined_upto(c, 14) + seq![','] + c[14]);
    assert(joined_upto(c, 16) == joined_upto(c, 15) + seq![','] + c[15]);
    assert(joined_upto(c, 17) == joined_upto(c, 16) + seq![','] + c[16]);
    assert(joined_upto(c, 18) == joined_upto(c, 17) + seq![','] + c[17]);
    assert(header_text() =~= joined_upto(c, 18));
    assert forall|j: int| 0 <= j < c.len() implies free_of(#[trigger] c[j], ',') by {}
    lemma_fields_joined(c, 18);
    assert(spec_csv_header() =~= header_text() + seq!['\n']);
}

/// The records read from the header line then the rows' lines are the rows' cells.
proof fn lemma_records_of_rows(rows: Seq<RunResult>, ls: Seq<Seq<char>>, k: int)
    requires
        clean_names(rows),
        ls.len() == rows.len() + 1,
        forall|i: int| 0 <= i < rows.len() ==> ls[i + 1] == row_text(#[trigger] rows[i]),
        1 <= k <= ls.len(),
    ensures
        csv_records(ls, k) == Seq::new((k - 1) as nat, |i: int| row_cells(rows[i])),
    decreases k,
{
    if k == 1 {
        assert(Seq::new(0, |i: int| row_cells(rows[i])) =~= Seq::<Seq<Seq<char>>>::empty());
    } else {
        lemma_records_of_rows(rows, ls, k - 1);
        let r = rows[k - 2];
        assert(ls[k - 1] == row_text(r));
        lemma_row_text(r);
        assert(Seq::new((k - 2) as nat, |i: int| row_cells(rows[i])).push(row_cells(r)) =~= Seq::new(
            (k - 1) as nat,
            |i: int| row_cells(rows[i]),
        ));
    }
}

/// Two rows say the same (the `illegal` column is the sum of the error counts).
pub open spec fn same_row(a: RunResult, b: RunResult) -> bool {
    &&& a.agent@ == b.agent@
    &&& a.seed == b.seed && a.run == b.run && a.wave == b.wave && a.actions == b.actions
    &&& a.errors@ == b.errors@
    &&& a.forced == b.forced && a.moves == b.moves && a.refunded == b.refunded
    &&& a.parse_failures == b.parse_failures && a.tokens == b.tokens
}

/// The rows written as CSV and read back are the same rows, when no agent
/// name holds a comma or a newline: the text has a header line and one line
/// of 18 cells per row, and each record reads as the row it came from.
pub proof fn lemma_csv_reads_back(rows: Seq<RunResult>)
    requires
        clean_names(rows),
    ensures
        ({
            let ls = lines_from(spec_csv_header() + spec_csv_rows(rows, rows.len() as int), 0);
            let recs = csv_records(ls, ls.len() as int);
            &&& ls.len() == rows.len() + 1
            &&& forall|i: int| 0 <= i < ls.len() ==> fields_from(#[trigger] ls[i], 0).len() == 18
            &&& recs.len() == rows.len()
            &&& forall|i: int, r: RunResult| 0 <= i < rows.len() && #[trigger] read_row(r, recs[i]) ==> same_row(
                r,
                rows[i],
            )
        }),
{
    lemma_header_fields();
    let h = header_text();
    let body = spec_csv_rows(rows, rows.len() as int);
    lemma_lines_cons(h, body);
    lemma_lines_of_rows(rows);
    let ls = lines_from(spec_csv_header() + body, 0);
    assert(ls == seq![h] + Seq::new(rows.len(), |i: int| row_text(rows[i])));
    lemma_records_of_rows(rows, ls, ls.len() as int);
    let recs = csv_records(ls, ls.len() as int);
    assert forall|i: int| 0 <= i < ls.len() implies fields_from(#[trigger] ls[i], 0).len() == 18 by {
        if i > 0 {
            lemma_row_text(rows[i - 1]);
        }
    }
    assert forall|i: int, r: RunResult| 0 <= i < rows.len() && #[trigger] read_row(r, recs[i]) implies same_row(
        r,
        rows[i],
    ) by {
        let x = rows[i];
        let f = recs[i];
        assert(f == row_cells(x));
        crate::text::lemma_decimal_reads_back(x.seed as nat, u64::MAX as nat);
        crate::text::lemma_decimal_reads_back(x.run as nat, u64::MAX as nat);
        crate::text::lemma_decimal_reads_back(x.wave as nat, u64::MAX as nat);
        crate::text::lemma_decimal_reads_back(x.actions as nat, u64::MAX as nat);
        crate::text::lemma_decimal_reads_back(x.forced as nat, u64::MAX as nat);
        crate::text::lemma_decimal_reads_back(x.moves as nat, u64::MAX as nat);
        crate::text::lemma_decimal_reads_back(x.refunded as nat, u64::MAX as nat);
        crate::text::lemma_decimal_reads_back(x.parse_failures as nat, u64::MAX as nat);
        crate::text::lemma_decimal_reads_back(x.tokens as nat, u64::MAX as nat);
        assert forall|j: int| 0 <= j < 7 implies r.errors@[j] == x.errors@[j] by {
            crate::text::lemma_decimal_reads_back(x.errors@[j] as nat, u64::MAX as nat);
            assert(f[6 + j] == spec_decimal(x.errors@[j] as nat));
            assert(r.errors@[j] == cell_value(f[6 + j]) as u32);
        }
        assert(r.errors@ =~= x.errors@);
    }
}

/// Rows that say the same are written the same.
proof fn lemma_same_rows_same_text(a: Seq<RunResult>, b: Seq<RunResult>, n: int)
    requires
        a.len() == b.len(),
        0 <= n <= a.len(),
        forall|i: int| 0 <= i < a.len() ==> same_row(#[trigger] a[i], b[i]),
    ensures
        spec_csv_rows(a, n) == spec_csv_rows(b, n),
    decreases n,
{
    if n > 0 {
        lemma_same_rows_same_text(a, b, n - 1);
        assert(same_row(a[n - 1], b[n - 1]));
        assert(spec_csv_row(a[n - 1]) == spec_csv_row(b[n - 1]));
    }
}

/// Reading a CSV text back and writing the rows read gives the same text,
/// when no agent name holds a comma or a newline.
pub proof fn lemma_csv_rewrites_the_same_text(rows: Seq<RunResult>, back: Seq<RunResult>)
    requires
        clean_names(rows),
        ({
            let ls = lines_from(spec_csv_header() + spec_csv_rows(rows, rows.len() as int), 0);
            let recs = csv_records(ls, ls.len() as int);
            &&& back.len() == recs.len()
            &&& forall|i: int| 0 <= i < recs.len() ==> read_row(#[trigger] back[i], recs[i])
        }),
    ensures
        spec_csv_header() + spec_csv_rows(back, back.len() as int) == spec_csv_header() + spec_csv_rows(
            rows,
            rows.len() as int,
        ),
{
    lemma_csv_reads_back(rows);
    let ls = lines_from(spec_csv_header() + spec_csv_rows(rows, rows.len() as int), 0);
    let recs = csv_records(ls, ls.len() as int);
    assert forall|i: int| 0 <= i < back.len() implies same_row(#[trigger] back[i], rows[i]) by {
        assert(read_row(back[i], recs[i]));
    }
    lemma_same_rows_same_text(back, rows, back.len() as int);
}

/// Cuts `cs[a..b]` at its commas.
fn split_cells(text: &str, cs: &Vec<char>, a: usize, b: usize) -> (r: Vec<(usize, usize)>)
    requires
        cs@ == text@,
        a <= b <= cs@.len(),
    ensures
        r@.len() == fields_from(cs@.subrange(a as int, b as int), 0).len(),
        forall|i: int|
            0 <= i < r@.len() ==> {
                let (x, y) = #[trigger] r@[i];
                &&& a <= x <= y <= b
                &&& cs@.subrange(x as int, y as int) == fields_from(cs@.subrange(a as int, b as int), 0)[i]
            },
{
    let ghost l = cs@.subrange(a as int, b as int);
    let mut r: Vec<(usize, usize)> = Vec::new();
    let mut q: usize = a;
    let ghost mut done: Seq<Seq<char>> = seq![];
    loop
        invariant
            a <= q <= b <= cs@.len(),
            l == cs@.subrange(a as int, b as int),
            fields_from(l, 0) == done + fields_from(l, q - a),
            r@.len() == done.len(),
            forall|i: int|
                0 <= i < r@.len() ==> {
                    let (x, y) = #[trigger] r@[i];
                    &&& a <= x <= y <= b
                    &&& cs@.subrange(x as int, y as int) == done[i]
                },
        decreases b - q,
    {
        let mut e = q;
        while e < b && cs[e] != ','
            invariant
                q <= e <= b <= cs@.len(),
                forall|j: int| q <= j < e ==> cs@[j] != ',',
            decreases b - e,
        {
            e += 1;
        }
        proof {
            lemma_next_at(l, ',', q - a);
            let k = next_at(l, ',', q - a);
            if k < e - a {
                assert(l[k] == cs@[a + k]);
            } else if k > e - a {
                assert(l[e - a] == cs@[e as int]);
            }
            assert(k == e - a);
        }
        r.push((q, e));
        proof {
            assert(cs@.subrange(q as int, e as int) =~= l.subrange(q - a, e - a));
            done = done.push(l.subrange(q - a, e - a));
        }
        if e >= b {
            proof {
                assert(fields_from(l, q - a) == seq![l.subrange(q - a, l.len() as int)]);
            }
            return r;
        }
        proof {
            assert(fields_from(l, q - a) == seq![l.subrange(q - a, e - a)] + fields_from(l, e - a + 1));
        }
        q = e + 1;
    }
}

/// The number in cell `cs[x..y]`, `0` when unreadable.
fn cell(cs: &Vec<char>, x: usize, y: usize) -> (v: u64)
    requires
        x <= y <= cs@.len(),
    ensures
        v == cell_value(cs@.subrange(x as int, y as int)),
{
    match parse_unsigned_in(cs, x, y, u64::MAX) {
        Some(v) => v,
        None => 0,
    }
}

/// The row of line `cs[a..b]`, if it has the 18 cells of one.
fn read_line(text: &str, cs: &Vec<char>, a: usize, b: usize) -> (r: Option<RunResult>)
    requires
        cs@ == text@,
        a <= b <= cs@.len(),
    ensures
        ({
            let f = fields_from(cs@.subrange(a as int, b as int), 0);
            match r {
                Some(row) => f.len() == 18 && read_row(row, f),
                None => f.len() != 18,
            }
        }),
{
    let cells = split_cells(text, cs, a, b);
    if cells.len() != 18 {
        return None;
    }
    let (a0, b0) = cells[0];
    let agent = String::from_str(text.substring_char(a0, b0));
    Some(
        RunResult {
            agent,
            seed: cell(cs, cells[1].0, cells[1].1),
            run: cell(cs, cells[2].0, cells[2].1) as u32,
            wave: cell(cs, cells[3].0, cells[3].1) as u32,
            actions: cell(cs, cells[4].0, cells[4].1) as u32,
            errors: [
                cell(cs, cells[6].0, cells[6].1) as u32,
                cell(cs, cells[7].0, cells[7].1) as u32,
                cell(cs, cells[8].0, cells[8].1) as u32,
                cell(cs, cells[9].0, cells[9].1) as u32,
                cell(cs, cells[10].0, cells[10].1) as u32,
                cell(cs, cells[11].0, cells[11].1) as u32,
                cell(cs, cells[12].0, cells[12].1) as u32,
            ],
            forced: cell(cs, cells[13].0, cells[13].1) as u32,
            moves: cell(cs, cells[14].0, cells[14].1) as u32,
            refunded: cell(cs, cells[15].0, cells[15].1) as u32,
            parse_failures: cell(cs, cells[16].0, cells[16].1) as u32,
            tokens: cell(cs, cells[17].0, cells[17].1),
        },
    )
}

/// Reads back the rows of a campaign CSV: the header is skipped, and so is
/// any line without the 18 cells of a row; unreadable numbers read as 0.
pub fn parse_csv(text: &str) -> (rows: Vec<RunResult>)
    ensures
        ({
            let ls = lines_from(text@, 0);
            let recs = csv_records(ls, ls.len() as int);
            &&& rows@.len() == recs.len()
            &&& forall|i: int| 0 <= i < recs.len() ==> read_row(#[trigger] rows@[i], recs[i])
        }),
{
    let cs = chars_of(text);
    let n = cs.len();
    let ghost s = cs@;
    let mut rows: Vec<RunResult> = Vec::new();
    let mut p: usize = 0;
    let mut k: usize = 0;
    let ghost mut done: Seq<Seq<char>> = seq![];
    while p < n
        invariant
            p <= n == s.len(),
            s == cs@,
            cs@ == text@,
            lines_from(s, 0) == done + lines_from(s, p as int),
            k == done.len(),
            k <= p,
            p > 0 ==> k > 0,
            rows@.len() == csv_records(done, k as int).len(),
            forall|i: int| 0 <= i < rows@.len() ==> read_row(#[trigger] rows@[i], csv_records(done, k as int)[i]),
        decreases n - p,
    {
        let mut e = p;
        while e < n && cs[e] != '\n'
            invariant
                p <= e <= n == cs@.len(),
                forall|j: int| p <= j < e ==> cs@[j] != '\n',
            decreases n - e,
        {
            e += 1;
        }
        proof {
            lemma_next_at(s, '\n', p as int);
            let m = next_at(s, '\n', p as int);
            if m < e {
                assert(s[m] == cs@[m]);
            } else if m > e {
                assert(s[e as int] == cs@[e as int]);
            }
            assert(m == e);
        }
        let le = if e < n && e > p && cs[e - 1] == '\r' {
            e - 1
        } else {
            e
        };
        let ghost line = s.subrange(p as int, le as int);
        proof {
            let seg = s.subrange(p as int, e as int);
            if e < n && e > p && cs@[e - 1] == '\r' {
                assert(seg.drop_last() =~= line);
            } else {
                assert(seg =~= line);
            }
            assert(lines_from(s, p as int) == seq![line] + lines_from(s, e + 1));
        }
        if k > 0 {
            match read_line(text, &cs, p, le) {
                Some(row) => rows.push(row),
                None => {},
            }
        }
        proof {
            let nd = done.push(line);
            assert(nd.drop_last() =~= done);
            assert(csv_records(nd, k as int + 1) == (if k >= 1 && fields_from(line, 0).len() == 18 {
                csv_records(done, k as int).push(fields_from(line, 0))
            } else {
                csv_records(done, k as int)
            })) by {
                lemma_csv_records_prefix(done, nd, k as int);
            }
            done = nd;
        }
        k += 1;
        p = if e < n {
            e + 1
        } else {
            n
        };
    }
    proof {
        assert(lines_from(s, p as int) == Seq::<Seq<char>>::empty());
        assert(done + Seq::<Seq<char>>::empty() =~= done);
    }
    rows
}

/// Records only look at the lines they cover.
proof fn lemma_csv_records_prefix(a: Seq<Seq<char>>, b: Seq<Seq<char>>, n: int)
    requires
        0 <= n <= a.len(),
        n <= b.len(),
        forall|i: int| 0 <= i < n ==> a[i] == b[i],
    ensures
        csv_records(a, n) == csv_records(b, n),
    decreases n,
{
    if n > 1 {
        lemma_csv_records_prefix(a, b, n - 1);
    }
}

} // verus!
