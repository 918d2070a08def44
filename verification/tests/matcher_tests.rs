use parser_core::matcher::match_intent;
use parser_core::types::{ParseResult, Trigger};

fn trigger(pattern: &str, intent: &str, provider: &str, weight: u64, aliases: Vec<&str>) -> Trigger {
    Trigger {
        pattern: pattern.to_string(),
        intent_name: intent.to_string(),
        provider_name: provider.to_string(),
        weight,
        aliases: aliases.into_iter().map(|a| a.to_string()).collect(),
    }
}

#[test]
fn matcher_test_exact_match() {
    let triggers = vec![trigger("open desktop", "open_desktop", "filesystem", 1000, Vec::new())];
    match match_intent("open desktop", &triggers) {
        ParseResult::Match(m) => {
            assert_eq!(m.intent_name, "open_desktop");
            assert!(m.confidence as f64 / 1000.0 >= 0.9);
        }
        _ => panic!("Expected match"),
    }
}

#[test]
fn matcher_test_no_match() {
    let triggers = vec![trigger("open desktop", "open_desktop", "filesystem", 1000, Vec::new())];
    match match_intent("completely unrelated query", &triggers) {
        ParseResult::NoMatch => {}
        _ => panic!("Expected no match"),
    }
}

#[test]
fn empty_trigger_list_never_matches() {
    match match_intent("open desktop", &[]) {
        ParseResult::NoMatch => {}
        _ => panic!("Expected no match"),
    }
    match match_intent("", &[]) {
        ParseResult::NoMatch => {}
        _ => panic!("Expected no match"),
    }
}

#[test]
fn input_is_normalized_before_scoring() {
    let triggers = vec![trigger("open desktop", "open_desktop", "filesystem", 1000, Vec::new())];
    match match_intent("  OPEN DESKTOP  ", &triggers) {
        ParseResult::Match(m) => {
            assert_eq!(m.confidence, 1000);
            assert_eq!(m.original_input, "  OPEN DESKTOP  ");
            assert_eq!(m.trigger_pattern, "open desktop");
            assert_eq!(m.source, "rule_based");
            assert!(m.entities.is_empty());
        }
        _ => panic!("Expected match"),
    }
}

#[test]
fn alias_scores_count_toward_the_trigger() {
    let triggers = vec![trigger(
        "launch workspace shell",
        "open_desktop",
        "filesystem",
        1000,
        vec!["open desktop"],
    )];
    match match_intent("open desktop", &triggers) {
        ParseResult::Match(m) => {
            assert_eq!(m.intent_name, "open_desktop");
            assert_eq!(m.confidence, 1000);
            // The reported pattern is the trigger's pattern, not the alias.
            assert_eq!(m.trigger_pattern, "launch workspace shell");
        }
        _ => panic!("Expected match"),
    }
}

#[test]
fn two_close_scores_in_the_zone_are_ambiguous() {
    // Both triggers match the input perfectly; their weights place the
    // final scores at 700 and 650, inside [600, 900) and within 100.
    let triggers = vec![
        trigger("open desktop", "first_intent", "filesystem", 700, Vec::new()),
        trigger("open desktop", "second_intent", "filesystem", 650, Vec::new()),
    ];
    match match_intent("open desktop", &triggers) {
        ParseResult::Ambiguous(a) => {
            assert_eq!(a.original_input, "open desktop");
            assert_eq!(a.suggestions.len(), 2);
            assert_eq!(a.suggestions[0].intent_name, "first_intent");
            assert_eq!(a.suggestions[0].confidence, 700);
            assert_eq!(a.suggestions[1].intent_name, "second_intent");
            assert_eq!(a.suggestions[1].confidence, 650);
            assert!(a.suggestions[0].confidence >= a.suggestions[1].confidence);
        }
        _ => panic!("Expected ambiguous"),
    }
}

#[test]
fn suggestions_are_capped_at_five() {
    let mut triggers = Vec::new();
    for name in ["i0", "i1", "i2", "i3", "i4", "i5"] {
        triggers.push(trigger("open desktop", name, "filesystem", 700, Vec::new()));
    }
    match match_intent("open desktop", &triggers) {
        ParseResult::Ambiguous(a) => {
            assert_eq!(a.suggestions.len(), 5);
            for (k, m) in a.suggestions.iter().enumerate() {
                assert_eq!(m.intent_name, format!("i{}", k));
                assert_eq!(m.confidence, 700);
            }
        }
        _ => panic!("Expected ambiguous"),
    }
}

#[test]
fn single_score_in_zone_is_returned_as_match() {
    let triggers = vec![trigger("open desktop", "open_desktop", "filesystem", 700, Vec::new())];
    match match_intent("open desktop", &triggers) {
        ParseResult::Match(m) => {
            assert_eq!(m.confidence, 700);
        }
        _ => panic!("Expected match"),
    }
}

#[test]
fn score_below_minimum_is_discarded() {
    // A perfect similarity weighted down to 400 falls below the
    // minimum confidence of 500.
    let triggers = vec![trigger("open desktop", "open_desktop", "filesystem", 400, Vec::new())];
    match match_intent("open desktop", &triggers) {
        ParseResult::NoMatch => {}
        _ => panic!("Expected no match"),
    }
}
