use espanso::clock::elapsed_ms_between;
use espanso::config::Configs;
use espanso::event::{ActionType, KeyModifier};
use espanso::matcher::scrolling::ScrollingMatcher;
use espanso::matcher::Match;

fn m(trigger: &str, replace: &str) -> Match {
    Match { trigger: trigger.to_string(), replace: replace.to_string() }
}

fn config(backspace_limit: i32) -> Configs {
    Configs { backspace_limit, toggle_key: KeyModifier::ALT, toggle_interval: 230 }
}

fn type_str<'a>(
    matcher: &mut ScrollingMatcher<'a>,
    matches: &'a Vec<Match>,
    cfg: &Configs,
    text: &str,
) -> Vec<Option<String>> {
    let mut out = Vec::new();
    for ch in text.chars() {
        let s = ch.to_string();
        out.push(matcher.handle_char(matches, cfg, &s).map(|x| x.trigger.clone()));
    }
    out
}

#[test]
fn typing_a_trigger_reports_its_match() {
    let matches = vec![m(":hi", "hello")];
    let cfg = config(3);
    let mut matcher = ScrollingMatcher::new();
    assert!(matcher.handle_char(&matches, &cfg, ":").is_none());
    assert!(matcher.handle_char(&matches, &cfg, "h").is_none());
    let found = matcher.handle_char(&matches, &cfg, "i");
    assert_eq!(found.map(|x| x.replace.as_str()), Some("hello"));
}

#[test]
fn trigger_inside_other_text_is_reported() {
    let matches = vec![m(":hi", "hello")];
    let cfg = config(3);
    let mut matcher = ScrollingMatcher::new();
    let out = type_str(&mut matcher, &matches, &cfg, "ab:hi");
    assert_eq!(out, vec![None, None, None, None, Some(":hi".to_string())]);
}

#[test]
fn wrong_character_breaks_the_trigger() {
    let matches = vec![m(":hi", "hello")];
    let cfg = config(3);
    let mut matcher = ScrollingMatcher::new();
    let out = type_str(&mut matcher, &matches, &cfg, ":hxi");
    assert!(out.iter().all(|x| x.is_none()));
}

#[test]
fn after_a_match_the_entries_start_over() {
    let matches = vec![m("aa", "x")];
    let cfg = config(3);
    let mut matcher = ScrollingMatcher::new();
    let out = type_str(&mut matcher, &matches, &cfg, "aaa");
    assert_eq!(out, vec![None, Some("aa".to_string()), None]);
    let out = type_str(&mut matcher, &matches, &cfg, "a");
    assert_eq!(out, vec![Some("aa".to_string())]);
}

#[test]
fn older_entry_is_reported_before_a_new_one() {
    let matches = vec![m("ab", "first"), m("b", "second")];
    let cfg = config(3);
    let mut matcher = ScrollingMatcher::new();
    let out = type_str(&mut matcher, &matches, &cfg, "ab");
    assert_eq!(out, vec![None, Some("ab".to_string())]);
}

#[test]
fn first_match_in_list_order_wins_among_new_entries() {
    let matches = vec![m("x", "one"), m("x", "two")];
    let cfg = config(3);
    let mut matcher = ScrollingMatcher::new();
    let found = matcher.handle_char(&matches, &cfg, "x");
    assert_eq!(found.map(|x| x.replace.as_str()), Some("one"));
}

#[test]
fn multi_character_input_opens_an_entry_for_triggers_it_begins() {
    let matches = vec![m("abc", "x")];
    let cfg = config(3);
    let mut matcher = ScrollingMatcher::new();
    assert!(matcher.handle_char(&matches, &cfg, "ab").is_none());
    assert!(matcher.handle_char(&matches, &cfg, "b").is_none());
    let found = matcher.handle_char(&matches, &cfg, "c");
    assert_eq!(found.map(|x| x.trigger.as_str()), Some("abc"));
}

#[test]
fn empty_trigger_is_never_reported() {
    let matches = vec![m("", "x")];
    let cfg = config(3);
    let mut matcher = ScrollingMatcher::new();
    assert!(matcher.handle_char(&matches, &cfg, "").is_none());
    assert!(matcher.handle_char(&matches, &cfg, "a").is_none());
    assert!(matcher.handle_char(&matches, &cfg, "").is_none());
}

#[test]
fn empty_input_opens_an_entry_for_every_trigger() {
    // Every trigger begins with the empty string, so the next character is taken as the
    // trigger's second one.
    let matches = vec![m("xb", "x")];
    let cfg = config(3);
    let mut matcher = ScrollingMatcher::new();
    assert!(matcher.handle_char(&matches, &cfg, "a").is_none());
    assert!(matcher.handle_char(&matches, &cfg, "").is_none());
    let found = matcher.handle_char(&matches, &cfg, "b");
    assert_eq!(found.map(|x| x.trigger.as_str()), Some("xb"));
}

#[test]
fn unicode_triggers_are_followed_by_character() {
    let matches = vec![m(":é✓", "x")];
    let cfg = config(3);
    let mut matcher = ScrollingMatcher::new();
    let out = type_str(&mut matcher, &matches, &cfg, ":é✓");
    assert_eq!(out, vec![None, None, Some(":é✓".to_string())]);
}

#[test]
fn backspace_takes_back_the_last_character() {
    let matches = vec![m(":hi", "hello")];
    let cfg = config(3);
    let mut matcher = ScrollingMatcher::new();
    type_str(&mut matcher, &matches, &cfg, ":hx");
    assert_eq!(matcher.handle_modifier(&cfg, KeyModifier::BACKSPACE), None);
    let found = matcher.handle_char(&matches, &cfg, "i");
    assert_eq!(found.map(|x| x.trigger.as_str()), Some(":hi"));
}

#[test]
fn backspace_beyond_the_limit_loses_history() {
    let matches = vec![m(":hi", "hello")];
    let cfg = config(0);
    let mut matcher = ScrollingMatcher::new();
    type_str(&mut matcher, &matches, &cfg, ":hx");
    matcher.handle_modifier(&cfg, KeyModifier::BACKSPACE);
    assert!(matcher.handle_char(&matches, &cfg, "i").is_none());
}

#[test]
fn backspace_limit_keeps_enough_history_for_two_backspaces() {
    let matches = vec![m(":hi", "hello")];
    let cfg = config(3);
    let mut matcher = ScrollingMatcher::new();
    type_str(&mut matcher, &matches, &cfg, ":hxy");
    matcher.handle_modifier(&cfg, KeyModifier::BACKSPACE);
    matcher.handle_modifier(&cfg, KeyModifier::BACKSPACE);
    let found = matcher.handle_char(&matches, &cfg, "i");
    assert_eq!(found.map(|x| x.trigger.as_str()), Some(":hi"));
}

#[test]
fn negative_backspace_limit_keeps_nothing_between_characters() {
    let matches = vec![m("ab", "x"), m("c", "y")];
    let cfg = config(-1);
    let mut matcher = ScrollingMatcher::new();
    let out = type_str(&mut matcher, &matches, &cfg, "abc");
    assert_eq!(out, vec![None, None, Some("c".to_string())]);
}

#[test]
fn backspace_on_a_fresh_matcher_changes_nothing() {
    let matches = vec![m("ab", "x")];
    let cfg = config(3);
    let mut matcher = ScrollingMatcher::new();
    assert_eq!(matcher.handle_modifier(&cfg, KeyModifier::BACKSPACE), None);
    let out = type_str(&mut matcher, &matches, &cfg, "ab");
    assert_eq!(out, vec![None, Some("ab".to_string())]);
}

#[test]
fn other_modifiers_change_nothing() {
    let matches = vec![m("ab", "x")];
    let cfg = config(3);
    let mut matcher = ScrollingMatcher::new();
    matcher.handle_char(&matches, &cfg, "a");
    assert_eq!(matcher.handle_modifier(&cfg, KeyModifier::SHIFT), None);
    assert_eq!(matcher.handle_modifier(&cfg, KeyModifier::CTRL), None);
    let found = matcher.handle_char(&matches, &cfg, "b");
    assert_eq!(found.map(|x| x.trigger.as_str()), Some("ab"));
}

#[test]
fn disabled_matcher_ignores_input() {
    let matches = vec![m(":hi", "hello")];
    let cfg = config(3);
    let mut matcher = ScrollingMatcher::new();
    assert!(!matcher.set_enabled(false));
    let out = type_str(&mut matcher, &matches, &cfg, ":hi");
    assert!(out.iter().all(|x| x.is_none()));
    assert!(matcher.set_enabled(true));
    let out = type_str(&mut matcher, &matches, &cfg, ":hi");
    assert_eq!(out[2], Some(":hi".to_string()));
}

#[test]
fn toggle_flips_and_reports_the_flag() {
    let mut matcher: ScrollingMatcher = ScrollingMatcher::new();
    assert!(!matcher.toggle());
    assert!(matcher.toggle());
}

#[test]
fn quick_double_press_of_toggle_key_toggles() {
    let matches = vec![m(":hi", "hello")];
    let cfg = config(3);
    let mut matcher = ScrollingMatcher::new();
    assert_eq!(matcher.handle_modifier_elapsed(&cfg, KeyModifier::ALT, Some(100)), Some(false));
    let out = type_str(&mut matcher, &matches, &cfg, ":hi");
    assert!(out.iter().all(|x| x.is_none()));
    assert_eq!(matcher.handle_modifier_elapsed(&cfg, KeyModifier::ALT, Some(229)), Some(true));
    let out = type_str(&mut matcher, &matches, &cfg, ":hi");
    assert_eq!(out[2], Some(":hi".to_string()));
}

#[test]
fn slow_or_unknown_press_of_toggle_key_does_not_toggle() {
    let cfg = config(3);
    let mut matcher: ScrollingMatcher = ScrollingMatcher::new();
    assert_eq!(matcher.handle_modifier_elapsed(&cfg, KeyModifier::ALT, Some(230)), None);
    assert_eq!(matcher.handle_modifier_elapsed(&cfg, KeyModifier::ALT, Some(5000)), None);
    assert_eq!(matcher.handle_modifier_elapsed(&cfg, KeyModifier::ALT, None), None);
    assert_eq!(matcher.handle_modifier_elapsed(&cfg, KeyModifier::SHIFT, Some(1)), None);
}

#[test]
fn disabling_with_toggle_key_forgets_pending_triggers() {
    let matches = vec![m(":hi", "hello")];
    let cfg = config(3);
    let mut matcher = ScrollingMatcher::new();
    type_str(&mut matcher, &matches, &cfg, ":h");
    matcher.handle_modifier_elapsed(&cfg, KeyModifier::ALT, Some(10));
    matcher.handle_modifier_elapsed(&cfg, KeyModifier::ALT, Some(10));
    assert!(matcher.handle_char(&matches, &cfg, "i").is_none());
}

#[test]
fn disabling_with_an_action_keeps_pending_triggers() {
    let matches = vec![m(":hi", "hello")];
    let cfg = config(3);
    let mut matcher = ScrollingMatcher::new();
    type_str(&mut matcher, &matches, &cfg, ":h");
    assert_eq!(matcher.on_action_event(ActionType::Disable), Some(false));
    assert_eq!(matcher.on_action_event(ActionType::Enable), Some(true));
    let found = matcher.handle_char(&matches, &cfg, "i");
    assert_eq!(found.map(|x| x.trigger.as_str()), Some(":hi"));
}

#[test]
fn actions_report_the_new_flag() {
    let mut matcher: ScrollingMatcher = ScrollingMatcher::new();
    assert_eq!(matcher.on_action_event(ActionType::Toggle), Some(false));
    assert_eq!(matcher.on_action_event(ActionType::Toggle), Some(true));
    assert_eq!(matcher.on_action_event(ActionType::Enable), Some(true));
    assert_eq!(matcher.on_action_event(ActionType::Disable), Some(false));
    assert_eq!(matcher.on_action_event(ActionType::Disable), Some(false));
    assert_eq!(matcher.on_action_event(ActionType::Exit), None);
    assert_eq!(matcher.on_action_event(ActionType::Noop), None);
    assert_eq!(matcher.on_action_event(ActionType::IconClick), None);
}

#[test]
fn toggle_key_with_no_time_limit_toggles_on_the_clock() {
    let cfg = Configs { backspace_limit: 3, toggle_key: KeyModifier::ALT, toggle_interval: u32::MAX };
    let mut matcher: ScrollingMatcher = ScrollingMatcher::new();
    assert_eq!(matcher.handle_modifier(&cfg, KeyModifier::ALT), Some(false));
    assert_eq!(matcher.handle_modifier(&cfg, KeyModifier::ALT), Some(true));
}

#[test]
fn toggle_key_with_zero_interval_never_toggles() {
    let cfg = Configs { backspace_limit: 3, toggle_key: KeyModifier::ALT, toggle_interval: 0 };
    let mut matcher: ScrollingMatcher = ScrollingMatcher::new();
    assert_eq!(matcher.handle_modifier(&cfg, KeyModifier::ALT), None);
    assert_eq!(matcher.handle_modifier(&cfg, KeyModifier::ALT), None);
}

#[test]
fn backspace_as_toggle_key_also_rewinds() {
    let matches = vec![m(":hi", "hello")];
    let cfg = Configs { backspace_limit: 3, toggle_key: KeyModifier::BACKSPACE, toggle_interval: 230 };
    let mut matcher = ScrollingMatcher::new();
    type_str(&mut matcher, &matches, &cfg, ":hx");
    assert_eq!(matcher.handle_modifier_elapsed(&cfg, KeyModifier::BACKSPACE, Some(1000)), None);
    let found = matcher.handle_char(&matches, &cfg, "i");
    assert_eq!(found.map(|x| x.trigger.as_str()), Some(":hi"));
}

#[test]
fn longest_trigger_wins_over_list_order() {
    let matches = vec![m("b", "short"), m("ab", "long")];
    let cfg = config(3);
    let mut matcher = ScrollingMatcher::new();
    let out = type_str(&mut matcher, &matches, &cfg, "ab");
    assert_eq!(out, vec![None, Some("ab".to_string())]);
}

#[test]
fn backspace_at_the_limit_takes_back_the_input() {
    let matches = vec![m("ab", "x")];
    let cfg = config(1);
    let mut matcher = ScrollingMatcher::new();
    type_str(&mut matcher, &matches, &cfg, "xaq");
    matcher.handle_modifier(&cfg, KeyModifier::BACKSPACE);
    let found = matcher.handle_char(&matches, &cfg, "b");
    assert_eq!(found.map(|x| x.trigger.as_str()), Some("ab"));
}

#[test]
fn backspaces_within_the_limit_rewind_the_inputs() {
    let matches = vec![m("abc", "x")];
    let cfg = config(2);
    let mut matcher = ScrollingMatcher::new();
    type_str(&mut matcher, &matches, &cfg, "abxy");
    matcher.handle_modifier(&cfg, KeyModifier::BACKSPACE);
    matcher.handle_modifier(&cfg, KeyModifier::BACKSPACE);
    let found = matcher.handle_char(&matches, &cfg, "c");
    assert_eq!(found.map(|x| x.trigger.as_str()), Some("abc"));
}

#[test]
fn backspaces_beyond_the_limit_leave_a_fresh_matcher() {
    let matches = vec![m("abc", "x"), m("c", "y")];
    let cfg = config(2);
    let mut matcher = ScrollingMatcher::new();
    type_str(&mut matcher, &matches, &cfg, "abxy");
    for _ in 0..3 {
        assert_eq!(matcher.handle_modifier(&cfg, KeyModifier::BACKSPACE), None);
    }
    let found = matcher.handle_char(&matches, &cfg, "c");
    assert_eq!(found.map(|x| x.trigger.as_str()), Some("c"));
}

#[test]
fn is_enabled_follows_the_flag() {
    let mut matcher: ScrollingMatcher = ScrollingMatcher::new();
    assert!(matcher.is_enabled());
    matcher.set_enabled(false);
    assert!(!matcher.is_enabled());
}

#[test]
fn disabled_matcher_accepts_the_largest_backspace_limit() {
    let matches = vec![m("a", "x")];
    let cfg = config(i32::MAX);
    let mut matcher = ScrollingMatcher::new();
    matcher.set_enabled(false);
    assert!(matcher.handle_char(&matches, &cfg, "a").is_none());
}

const MS: u128 = 1_000_000;

#[test]
fn toggle_key_presses_within_the_interval_toggle() {
    let cfg = config(3);
    let mut matcher: ScrollingMatcher = ScrollingMatcher::new();
    assert_eq!(matcher.handle_modifier_at(&cfg, KeyModifier::ALT, Some(10_000 * MS)), None);
    assert_eq!(
        matcher.handle_modifier_at(&cfg, KeyModifier::ALT, Some(10_100 * MS)),
        Some(false)
    );
    assert_eq!(
        matcher.handle_modifier_at(&cfg, KeyModifier::ALT, Some(10_329 * MS + 999_999)),
        Some(true)
    );
}

#[test]
fn toggle_key_presses_apart_do_not_toggle() {
    let cfg = config(3);
    let mut matcher: ScrollingMatcher = ScrollingMatcher::new();
    assert_eq!(matcher.handle_modifier_at(&cfg, KeyModifier::ALT, Some(10_000 * MS)), None);
    assert_eq!(matcher.handle_modifier_at(&cfg, KeyModifier::ALT, Some(10_230 * MS)), None);
    // The press is recorded each time, so the next quick one toggles.
    assert_eq!(
        matcher.handle_modifier_at(&cfg, KeyModifier::ALT, Some(10_300 * MS)),
        Some(false)
    );
}

#[test]
fn toggle_key_with_a_clock_gone_back_or_missing_does_not_toggle() {
    let cfg = config(3);
    let mut matcher: ScrollingMatcher = ScrollingMatcher::new();
    assert_eq!(matcher.handle_modifier_at(&cfg, KeyModifier::ALT, Some(10_000 * MS)), None);
    assert_eq!(matcher.handle_modifier_at(&cfg, KeyModifier::ALT, Some(9_990 * MS)), None);
    assert_eq!(matcher.handle_modifier_at(&cfg, KeyModifier::ALT, None), None);
    assert_eq!(matcher.handle_modifier_at(&cfg, KeyModifier::ALT, Some(9_995 * MS)), None);
}

#[test]
fn other_modifiers_do_not_record_a_press() {
    let cfg = config(3);
    let mut matcher: ScrollingMatcher = ScrollingMatcher::new();
    assert_eq!(matcher.handle_modifier_at(&cfg, KeyModifier::ALT, Some(10_000 * MS)), None);
    assert_eq!(matcher.handle_modifier_at(&cfg, KeyModifier::SHIFT, Some(20_000 * MS)), None);
    assert_eq!(
        matcher.handle_modifier_at(&cfg, KeyModifier::ALT, Some(10_050 * MS)),
        Some(false)
    );
}

#[test]
fn elapsed_milliseconds_between_readings() {
    assert_eq!(elapsed_ms_between(Some(0), Some(1_999_999)), Some(1));
    assert_eq!(elapsed_ms_between(Some(5), Some(5)), Some(0));
    assert_eq!(elapsed_ms_between(Some(6), Some(5)), None);
    assert_eq!(elapsed_ms_between(None, Some(5)), None);
    assert_eq!(elapsed_ms_between(Some(5), None), None);
}
