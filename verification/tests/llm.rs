use gamebenchy::llm::{first_json_object, system_prompt, user_message, Llm};
use gamebenchy::reply::{after_answer, reply_object, Retry};
use gamebenchy::protocol::ActionDto;
use gamebenchy::types::{Action, BuildingType, ErrorCode};
use serde_json::Value;

/// The request an answer stands for, read the way the contract spells it.
fn dto_of(v: &Value) -> ActionDto {
    let text = |k: &str| v[k].as_str().unwrap().to_string();
    let num = |k: &str| v[k].as_i64().unwrap() as i32;
    match v["action"].as_str().unwrap() {
        "build" => ActionDto::Build {
            building_type: text("building_type"),
            x: num("x"),
            y: num("y"),
        },
        "sell" => ActionDto::Sell {
            building_id: text("building_id"),
        },
        "move" => ActionDto::Move {
            building_id: text("building_id"),
            x: num("x"),
            y: num("y"),
        },
        "end_turn" => ActionDto::EndTurn,
        other => panic!("action inconnue : {other}"),
    }
}

#[test]
fn extracts_the_action_from_a_chatty_answer() {
    let text = "Voici mon coup :\n```json\n{\"action\": \"build\", \
                \"building_type\": \"sniper\", \"x\": 3, \"y\": 2}\n```\nVoilà.";
    let obj = first_json_object(text).unwrap();
    let value: Value = serde_json::from_str(&obj).unwrap();
    let dto = dto_of(&value);
    assert!(matches!(
        dto.to_action().unwrap(),
        Action::Build {
            kind: BuildingType::Sniper,
            ..
        }
    ));
    // A brace inside a string must not close the object early.
    let tricky = r#"blah {"action":"sell","building_id":"b{1}"} fin"#;
    assert_eq!(
        first_json_object(tricky).unwrap(),
        r#"{"action":"sell","building_id":"b{1}"}"#
    );
    assert!(first_json_object("aucun json ici").is_none());
}

#[test]
fn the_prompt_states_the_real_prices() {
    let p = system_prompt();
    assert!(p.contains("sniper : 50 or"), "{p}");
    assert!(p.contains("20 actions maximum"), "{p}");
}

#[test]
fn the_prompt_lists_every_building_with_its_role() {
    let p = system_prompt();
    assert!(p.starts_with("Tu joues à un tower defense sur une grille 10x10"));
    assert!(p.contains("- anti_armor : 70 or, portée² 9, dégâts 5 (+40 contre les blindés), ne touche pas les volants"));
    assert!(p.contains("- mortar : 90 or, portée² 36, dégâts 13, zone, ne touche pas les volants"));
    assert!(p.contains("- eco : 60 or, portée² 0, dégâts 0, ne tire pas, +8 or/vague"));
    assert!(p.contains("- sniper : 50 or, portée² 16, dégâts 7, touche les volants\n- flamethrower"));
    assert!(p.ends_with("{\"action\":\"end_turn\"}"));
}

#[test]
fn nested_objects_and_escaped_quotes_are_kept_whole() {
    let t = r#"x {"a":{"b":"\"}"},"c":1} y {"d":2}"#;
    assert_eq!(first_json_object(t).unwrap(), r#"{"a":{"b":"\"}"},"c":1}"#);
    assert!(first_json_object("{ jamais fermé").is_none());
}

#[test]
fn agent_spec_is_parsed() {
    let l = Llm::new("gemma@127.0.0.1:8080");
    assert_eq!(l.name, "gemma");
    assert_eq!(l.host, "127.0.0.1:8080");
    assert_eq!(l.model, None);
    assert!(l.thinking);
    assert_eq!(l.max_tokens, 1400);

    let l = Llm::new("qwen@http://localhost:9000/#qwen3+nothink");
    assert_eq!(l.name, "qwen");
    assert_eq!(l.host, "localhost:9000");
    assert_eq!(l.model.as_deref(), Some("qwen3"));
    assert!(!l.thinking);

    let l = Llm::new("127.0.0.1:8080//");
    assert_eq!(l.name, "llm");
    assert_eq!(l.host, "127.0.0.1:8080");
}

#[test]
fn a_refusal_is_reported_before_the_state() {
    let m = user_message("{}", Some(ErrorCode::NoMovesLeft));
    assert_eq!(
        m,
        "Ton action précédente a été REFUSÉE : NO_MOVES_LEFT — Plus de déplacement disponible ce round.\n\nÉtat de la partie :\n{}\n\nQuelle est ta prochaine action ?"
    );
    let m = user_message("{}", None);
    assert_eq!(m, "État de la partie :\n{}\n\nQuelle est ta prochaine action ?");
}

#[test]
fn the_reply_counts_tokens_and_reads_content_then_reasoning() {
    let mut llm = Llm::new("m@127.0.0.1:1");
    let raw = r#"{"usage":{"total_tokens":42},"choices":[{"message":{"content":"voici ","reasoning_content":"{\"action\":\"end_turn\"} fin"}}]}"#;
    let o = reply_object(&mut llm, raw);
    assert_eq!(o.as_deref(), Some(r#"{"action":"end_turn"}"#));
    assert_eq!(llm.tokens, 42);
    assert_eq!(reply_object(&mut llm, "pas du json"), None);
    assert_eq!(llm.tokens, 42);
    let raw = r#"{"choices":[{"message":{"content":"rien"}}]}"#;
    assert_eq!(reply_object(&mut llm, raw), None);
    assert_eq!(llm.tokens, 42);
}

#[test]
fn an_unusable_answer_is_retried_once_with_a_larger_budget() {
    let mut llm = Llm::new("m@127.0.0.1:1");
    assert!(matches!(after_answer(&mut llm, 0, Some(Action::EndTurn)), Retry::Play(Action::EndTurn)));
    assert_eq!((llm.parse_failures, llm.max_tokens), (0, 1400));
    assert!(matches!(after_answer(&mut llm, 0, None), Retry::AskAgain));
    assert_eq!((llm.parse_failures, llm.max_tokens), (1, 2000));
    assert!(matches!(after_answer(&mut llm, 1, None), Retry::EndTurn));
    assert_eq!((llm.parse_failures, llm.max_tokens), (2, 2000));
}
