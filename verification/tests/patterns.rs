use owo_bot::matching::PatternMatch;
use owo_bot::patterns::{
    emoji_text, find_id, match_count, CHANNEL_PATTERN, EMOJI_PATTERN, MENTION_PATTERN, modify_encapsulated_text, protect_brackets, remove_colons_outside_angle_brackets, restore_brackets,
    resolve_channels, resolve_emojis, resolve_mentions, resolve_references, NamedId,
};

fn entry(name: &str, id: u64) -> NamedId {
    NamedId { name: name.to_string(), id }
}

#[test]
fn mentions_of_known_members_become_markup() {
    let members = vec![entry("bob", 42), entry("carol", 7)];
    let out = resolve_mentions("hi @bob and @alice", &members).unwrap();
    assert_eq!(out, "hi <@42> and @alice");
}

#[test]
fn every_captured_mention_is_replaced() {
    let members = vec![entry("bob", 42)];
    let out = resolve_mentions("@bob @bob", &members).unwrap();
    assert_eq!(out, "<@42> <@42>");
}

#[test]
fn names_sharing_a_prefix_resolve_to_their_own_member() {
    let both = vec![entry("bob", 1), entry("bobby", 2)];
    assert_eq!(resolve_mentions("@bob @bobby", &both).unwrap(), "<@1> <@2>");
    let only_bob = vec![entry("bob", 1)];
    assert_eq!(resolve_mentions("@bob @bobby", &only_bob).unwrap(), "<@1> @bobby");
    assert_eq!(resolve_mentions("@bobby @bob", &only_bob).unwrap(), "@bobby <@1>");
}

#[test]
fn a_captured_name_with_trailing_punctuation_is_its_own_name() {
    let members = vec![entry("bob", 42)];
    assert_eq!(resolve_mentions("@bob @bob!", &members).unwrap(), "<@42> @bob!");
}

#[test]
fn channel_names_sharing_a_prefix_stay_apart() {
    let channels = vec![entry("gen", 5)];
    assert_eq!(resolve_channels("#gen #general", &channels).unwrap(), "<#5> #general");
}

#[test]
fn unknown_names_leave_the_message_unchanged() {
    let members = vec![entry("carol", 3)];
    let msg = "héllo @bob and @eve, see #x";
    assert_eq!(resolve_mentions(msg, &members).unwrap(), msg);
}

#[test]
fn first_member_of_a_name_wins() {
    let members = vec![entry("bob", 1), entry("bob", 2)];
    assert_eq!(resolve_mentions("@bob", &members).unwrap(), "<@1>");
    assert_eq!(find_id(&members, &"bob".to_string()), Some(1));
    assert_eq!(find_id(&members, &"eve".to_string()), None);
}

#[test]
fn message_without_references_is_unchanged() {
    let members = vec![entry("bob", 42)];
    assert_eq!(resolve_mentions("plain text", &members).unwrap(), "plain text");
    assert_eq!(resolve_channels("plain text", &members).unwrap(), "plain text");
}

#[test]
fn channels_become_markup() {
    let channels = vec![entry("general", 1234567890123)];
    let out = resolve_channels("see #general and #nowhere", &channels).unwrap();
    assert_eq!(out, "see <#1234567890123> and #nowhere");
}

#[test]
fn references_follow_the_given_captures() {
    let caps = vec![
        PatternMatch { start: 0, end: 4, group: Some("bob".to_string()) },
        PatternMatch { start: 5, end: 6, group: None },
    ];
    let out = resolve_references("@bob x", '@', &caps, &vec![entry("bob", 5)]);
    assert_eq!(out, "<@5> x");
}

#[test]
fn emoji_markup_for_known_and_unknown_names() {
    let emojis = vec![entry("smile", 7)];
    let known: Vec<char> = "smile".chars().collect();
    let unknown: Vec<char> = "foo".chars().collect();
    assert_eq!(emoji_text(&known, &emojis).into_iter().collect::<String>(), "<:smile:7>");
    assert_eq!(emoji_text(&unknown, &emojis).into_iter().collect::<String>(), "!(!foo!)!");
}

#[test]
fn emojis_resolve_and_unknown_keep_their_colons() {
    let emojis = vec![entry("smile", 7)];
    let out = resolve_emojis(":smile: hello :foo:", &emojis).unwrap();
    assert_eq!(out, "<:smile:7> hello :foo:");
}

#[test]
fn unknown_emoji_with_space_stays_escaped() {
    let out = resolve_emojis("a:b c:d", &vec![]).unwrap();
    assert_eq!(out, "a!(!b c!)!d");
}

#[test]
fn emoji_in_non_ascii_text() {
    let emojis = vec![entry("wave", 99)];
    let out = resolve_emojis("héllo :wave: ünïcode", &emojis).unwrap();
    assert_eq!(out, "héllo <:wave:99> ünïcode");
}

#[test]
fn rebuild_keeps_text_between_matches() {
    let caps = vec![
        PatternMatch { start: 2, end: 7, group: Some("abc".to_string()) },
        PatternMatch { start: 8, end: 11, group: Some("d".to_string()) },
    ];
    let out = modify_encapsulated_text("x :abc: :d: y", &caps, &vec![entry("d", 3)]);
    assert_eq!(out, "x !(!abc!)! <:d:3> y");
}

#[test]
fn colons_inside_angle_brackets_survive() {
    let out = remove_colons_outside_angle_brackets("<a:b:c> :x: y").unwrap();
    assert_eq!(out, "<a:b:c> x y");
}

#[test]
fn colons_outside_brackets_are_dropped() {
    let out = remove_colons_outside_angle_brackets(":hi: there").unwrap();
    assert_eq!(out, "hi there");
}

#[test]
fn brackets_without_outside_colons_come_back() {
    let out = remove_colons_outside_angle_brackets("<x> and <y:z> here").unwrap();
    assert_eq!(out, "<x> and <y:z> here");
}

#[test]
fn eleven_bracketed_spans_come_back() {
    let input = "<0><1><2><3><4><5><6><7><8><9><10>";
    assert_eq!(remove_colons_outside_angle_brackets(input).unwrap(), input);
}

#[test]
fn many_bracketed_spans_survive_colon_stripping() {
    let out = remove_colons_outside_angle_brackets("<0><1><2><3><4><5><6><7><8><9><10><11> :x: <1:2>").unwrap();
    assert_eq!(out, "<0><1><2><3><4><5><6><7><8><9><10><11> x <1:2>");
}

#[test]
fn brackets_hide_behind_placeholders_and_come_back() {
    let spans = vec![
        PatternMatch { start: 0, end: 3, group: None },
        PatternMatch { start: 6, end: 9, group: None },
    ];
    let (saved, protected) = protect_brackets("<a> x <b> <a>", &spans);
    assert_eq!(saved, vec!["<a>".to_string(), "<b>".to_string()]);
    assert_eq!(protected, "@placeholder0; x @placeholder1; @placeholder0;");
    assert_eq!(restore_brackets("@placeholder0; y @placeholder1;", &saved), "<a> y <b>");
}

#[test]
fn placeholder_ten_is_not_taken_for_placeholder_one() {
    let saved: Vec<String> = (0..11).map(|k| format!("<{k}>")).collect();
    assert_eq!(restore_brackets("@placeholder10;@placeholder1;", &saved), "<10><1>");
}

#[test]
fn brackets_and_text_with_at_signs_come_back() {
    assert_eq!(remove_colons_outside_angle_brackets("mail me @ <a:b> :x:").unwrap(), "mail me @ <a:b> x");
    assert_eq!(remove_colons_outside_angle_brackets("<@42> :wave: <#7>").unwrap(), "<@42> wave <#7>");
    assert_eq!(remove_colons_outside_angle_brackets("@@<x>@").unwrap(), "@@<x>@");
}

#[test]
fn matches_are_counted() {
    assert_eq!(match_count(MENTION_PATTERN, "hi @bob and @eve"), Some(2));
    assert_eq!(match_count(CHANNEL_PATTERN, "no channels here"), Some(0));
    assert_eq!(match_count(EMOJI_PATTERN, ":a: b :c:"), Some(2));
    assert_eq!(match_count("(", "x"), None);
}
