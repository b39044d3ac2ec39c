use gamebenchy::report::{agents_in_order, detailed_pairs, error_totals, tokens_per_wave};
use gamebenchy::agents::{Agent, Greedy, Random};
use gamebenchy::campaign::{csv, play, RunResult};
use gamebenchy::protocol::Mode;

#[test]
fn campaign_is_reproducible() {
    let one = || {
        let rows: Vec<RunResult> = [101u64, 102]
            .iter()
            .map(|s| play(&mut Random::new(*s), *s, 0, 20, Mode::Minimal).unwrap())
            .collect();
        csv(&rows)
    };
    assert_eq!(one(), one());
}

#[test]
fn baselines_are_ordered_and_metrics_are_collected() {
    let m = Mode::Minimal;
    let r = play(&mut Random::new(7), 101, 0, 100, m).unwrap();
    let g = play(&mut Greedy::new(None), 101, 0, 100, m).unwrap();
    assert!(r.illegal() > 0, "le random doit taper dans les erreurs");
    assert!(g.wave > r.wave * 2, "greedy {} vs random {}", g.wave, r.wave);
    assert_eq!(g.parse_failures, 0);
    assert!(r.actions > 0 && g.actions > 0);

    let text = csv(&[r, g]);
    assert_eq!(text.lines().count(), 3);
    assert_eq!(
        text.lines().next().unwrap().split(',').count(),
        text.lines().nth(1).unwrap().split(',').count(),
        "en-tête et lignes doivent avoir le même nombre de colonnes"
    );

    // CSV round trip: it is what lets two passes of a campaign be merged
    // (one language model at a time).
    let back = gamebenchy::campaign::parse_csv(&text);
    assert_eq!(csv(&back), text);
}

#[test]
fn detailed_mode_is_a_separate_row_and_changes_only_the_text() {
    let mini = play(&mut Greedy::new(None), 101, 0, 30, Mode::Minimal).unwrap();
    let det = play(&mut Greedy::new(None), 101, 0, 30, Mode::Detailed).unwrap();
    assert_eq!(mini.wave, det.wave, "greedy ne lit pas l'intel");
    assert_eq!(det.agent, "greedy+detailed");
    assert_eq!(mini.agent, "greedy");
}

#[test]
fn agent_names() {
    assert_eq!(Random::new(1).name(), "random");
    assert_eq!(Greedy::new(None).name(), "greedy");
    assert_eq!(
        Greedy::new(Some(gamebenchy::types::BuildingType::Mortar)).name(),
        "greedy[mortar]"
    );
}

#[test]
fn a_campaign_row_is_written_in_column_order() {
    let row = RunResult {
        agent: "x".to_string(),
        seed: 5,
        run: 1,
        wave: 9,
        actions: 40,
        errors: [1, 2, 0, 0, 3, 0, 0],
        forced: 1,
        moves: 2,
        refunded: 25,
        parse_failures: 0,
        tokens: 12345,
    };
    assert_eq!(row.illegal(), 6);
    let text = csv(&[row]);
    assert_eq!(text.lines().nth(1).unwrap(), "x,5,1,9,40,6,1,2,0,0,3,0,0,1,2,25,0,12345");
}

/// An agent written outside the library: it only ever ends the turn.
struct Idle;

impl Agent for Idle {
    fn name(&self) -> &str {
        "idle"
    }

    fn ready(&self, _g: &gamebenchy::game::Game) -> bool {
        true
    }

    fn act(
        &mut self,
        _g: &gamebenchy::game::Game,
        _obs: &gamebenchy::protocol::Observation,
        _last: Option<gamebenchy::types::ErrorCode>,
    ) -> gamebenchy::types::Action {
        gamebenchy::types::Action::EndTurn
    }
}

#[test]
fn an_agent_of_ones_own_plays_a_campaign() {
    let r = play(&mut Idle, 3, 0, 100, Mode::Minimal).unwrap();
    assert_eq!(r.agent, "idle");
    assert_eq!(r.actions, r.wave);
    assert_eq!(r.illegal(), 0);
    assert!(r.wave < 6);
}

#[test]
fn a_campaign_is_read_back_from_its_csv() {
    let m = Mode::Minimal;
    let rows = vec![
        play(&mut Random::new(7), 101, 0, 30, m).unwrap(),
        play(&mut Greedy::new(None), 101, 0, 30, Mode::Detailed).unwrap(),
    ];
    let text = csv(&rows);
    let back = gamebenchy::campaign::parse_csv(&text);
    assert_eq!(back.len(), 2);
    assert_eq!(csv(&back), text);
}

#[test]
fn unreadable_csv_lines_are_skipped() {
    let text = "header\r\nx,1,2,3,4,5,6,7,8,9,10,11,12,13,14,15,16,17\r\ntoo,short\nbad,zz,2,3,4,5,6,7,8,9,10,11,12,13,14,15,16,99999999999999999999";
    let rows = gamebenchy::campaign::parse_csv(text);
    assert_eq!(rows.len(), 2);
    assert_eq!(rows[0].agent, "x");
    assert_eq!(rows[0].tokens, 17);
    assert_eq!(rows[0].errors, [6, 7, 8, 9, 10, 11, 12]);
    assert_eq!(rows[1].agent, "bad");
    assert_eq!(rows[1].seed, 0);
    assert_eq!(rows[1].tokens, 0);
    assert!(gamebenchy::campaign::parse_csv("").is_empty());
}

#[test]
fn scripted_agents_report_no_tokens_and_no_failures() {
    let r = Random::new(1);
    let g = Greedy::new(None);
    assert_eq!((r.tokens(), r.parse_failures()), (0, 0));
    assert_eq!((g.tokens(), g.parse_failures()), (0, 0));
    let row = play(&mut Greedy::new(None), 1, 0, 3, Mode::Minimal).unwrap();
    assert_eq!((row.tokens, row.parse_failures), (0, 0));
}

#[test]
fn the_table_counts_agents_pairs_errors_and_tokens() {
    let row = |agent: &str, wave: u32, e0: u32, tokens: u64| RunResult {
        agent: agent.to_string(),
        seed: 1,
        run: 0,
        wave,
        actions: 3,
        errors: [e0, 0, 0, 0, 0, 0, 1],
        forced: 0,
        moves: 0,
        refunded: 0,
        parse_failures: 0,
        tokens,
    };
    let rows = vec![
        row("greedy", 10, 0, 0),
        row("gemma", 4, 2, 400),
        row("greedy+detailed", 10, 0, 0),
        row("gemma", 6, 3, 600),
        row("qwen+detailed", 5, 0, 50),
    ];
    let agents = agents_in_order(&rows);
    assert_eq!(agents, vec!["greedy", "gemma", "greedy+detailed", "qwen+detailed"]);
    assert_eq!(detailed_pairs(&agents), vec![2]);
    assert_eq!(error_totals(&rows, "gemma"), [5, 0, 0, 0, 0, 0, 2]);
    assert_eq!(tokens_per_wave(&rows, "gemma"), Some(100));
    assert_eq!(tokens_per_wave(&rows, "greedy"), None);
    assert_eq!(tokens_per_wave(&rows, "qwen+detailed"), Some(10));
}

#[test]
fn writing_the_rows_read_back_gives_the_same_text() {
    let rows = vec![
        play(&mut Random::new(3), 3, 0, 5, Mode::Minimal).unwrap(),
        play(&mut Greedy::new(None), 3, 1, 5, Mode::Detailed).unwrap(),
    ];
    let text = csv(&rows);
    let back = gamebenchy::campaign::parse_csv(&text);
    assert_eq!(back.len(), 2);
    assert_eq!(csv(&back), text);
}
