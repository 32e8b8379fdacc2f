use owo_bot::bot::{
    channel_listing, confession_line, find_channel_by_name, find_guild_of_channel, next_stage,
    parse_args, plan_message, resolve_target, store_entry, unrecognized_message, Action,
    ComposeStage, GuildChannels, GuildListing, TargetError, HELPER_BOT_A, NERD, OWNER, QUIET_BOT,
};
use owo_bot::patterns::NamedId;

fn entry(name: &str, id: u64) -> NamedId {
    NamedId { name: name.to_string(), id }
}

#[test]
fn owner_commands_are_planned_in_order() {
    let plan = plan_message(OWNER, "!user_info sigma /confess", false, false);
    assert!(plan.store);
    assert!(plan.interact);
    assert!(plan.list_channels);
    assert_eq!(plan.actions, vec![Action::ReplySigma, Action::Confess, Action::ReplyUserInfo]);
    assert!(!plan.react);
}

#[test]
fn exact_commands() {
    assert_eq!(plan_message(OWNER, "crazy", false, true).actions, vec![Action::ReplyCrazy]);
    assert_eq!(plan_message(OWNER, "crazy!", false, true).actions, vec![]);
    assert_eq!(plan_message(OWNER, "!help", false, true).actions, vec![Action::ReplyHelp]);
    assert_eq!(plan_message(OWNER, "--help", false, true).actions, vec![Action::ReplyHelp]);
    assert_eq!(plan_message(OWNER, "!yap", false, true).actions, vec![Action::ReplyYap]);
}

#[test]
fn strangers_reach_the_bot_only_when_anyone_may() {
    let plan = plan_message(5, "crazy", false, false);
    assert!(!plan.interact);
    assert!(!plan.list_channels);
    assert!(plan.actions.is_empty());
    let plan = plan_message(5, "crazy", true, true);
    assert!(plan.interact);
    assert!(!plan.list_channels);
    assert_eq!(plan.actions, vec![Action::ReplyCrazy]);
}

#[test]
fn helper_bots_are_neither_stored_nor_answered() {
    let plan = plan_message(HELPER_BOT_A, "sigma !yap", true, true);
    assert!(!plan.store);
    assert!(plan.actions.is_empty());
    let plan = plan_message(HELPER_BOT_A, "!yap", true, true);
    assert!(plan.actions.is_empty());
    let plan = plan_message(QUIET_BOT, "sigma", true, true);
    assert!(!plan.store);
    assert_eq!(plan.actions, vec![Action::ReplySigma]);
}

#[test]
fn nerd_gets_a_reaction() {
    assert!(plan_message(NERD, "hello", false, false).react);
}

#[test]
fn store_filters_bad_words() {
    assert_eq!(store_entry("hello there").as_deref(), Some("hello there "));
    assert_eq!(store_entry("let us !work now"), None);
    assert_eq!(store_entry("!yap"), None);
    assert_eq!(store_entry("").as_deref(), Some(" "));
}

#[test]
fn confession_text() {
    assert_eq!(confession_line("ann", "/confess I ate it"), "User ann tried to confess /confess I ate it");
}

#[test]
fn listing_of_guilds() {
    let guilds = vec![
        GuildListing { name: Some("Home".to_string()), channels: Some(vec![entry("general", 11), entry("memes", 12)]) },
        GuildListing { name: None, channels: None },
    ];
    let text = channel_listing(&guilds);
    assert_eq!(
        text,
        "Name of guild: Home\n\nChannel ID: 11,\nName: general\n\nChannel ID: 12,\nName: memes\nCould not get name of guild!\n"
    );
}

#[test]
fn arguments_are_read() {
    let args = vec!["--anyone".to_string(), "--bogus".to_string(), "--respond".to_string(), "x".to_string()];
    let plan = parse_args(&args);
    assert!(plan.respond);
    assert!(plan.anyone);
    assert_eq!(plan.notices, vec!["Anyone can activate!".to_string(), "You can respond back!".to_string()]);
    assert_eq!(plan.unrecognized, vec!["--bogus".to_string(), "x".to_string()]);
    assert_eq!(
        unrecognized_message(&plan.unrecognized).as_deref(),
        Some("The following args were not recognized: --bogus, x")
    );
    assert_eq!(unrecognized_message(&vec![]), None);
    let plan = parse_args(&vec![]);
    assert!(!plan.respond && !plan.anyone && plan.notices.is_empty() && plan.unrecognized.is_empty());
}

#[test]
fn targets() {
    assert_eq!(resolve_target("1234", Some(9), None, None), Ok(1234));
    assert_eq!(resolve_target("+77", None, None, None), Ok(77));
    assert_eq!(resolve_target("general", Some(9), None, None), Ok(9));
    assert_eq!(resolve_target("!mylast", None, Some(5), Some(6)), Ok(5));
    assert_eq!(resolve_target("!thelast", None, Some(5), Some(6)), Ok(6));
    assert_eq!(resolve_target("!mylast", None, None, Some(6)), Err(TargetError::NoOwnLast));
    assert_eq!(resolve_target("!thelast", None, Some(5), None), Err(TargetError::NoLast));
    assert_eq!(resolve_target("!other", None, Some(5), Some(6)), Err(TargetError::InvalidCommand));
    assert_eq!(resolve_target("nothing", None, Some(5), Some(6)), Err(TargetError::InvalidTarget));
    assert_eq!(resolve_target("0", None, None, None), Err(TargetError::InvalidTarget));
    assert_eq!(TargetError::NoOwnLast.describe(), "There is no previous message of yours cached!");
    assert_eq!(TargetError::NoLast.describe(), "There is no previous message at all cached!");
    assert_eq!(TargetError::InvalidCommand.describe(), "Invalid ! command.");
    assert_eq!(TargetError::InvalidTarget.describe(), "Invalid channel ID or channel command!");
}

#[test]
fn channel_lookup_by_name() {
    let guilds = vec![vec![entry("a", 1)], vec![entry("b", 2), entry("a", 3)]];
    assert_eq!(find_channel_by_name(&guilds, &"a".to_string()), Some(1));
    assert_eq!(find_channel_by_name(&guilds, &"b".to_string()), Some(2));
    assert_eq!(find_channel_by_name(&guilds, &"c".to_string()), None);
}

#[test]
fn guild_of_a_channel() {
    let guilds = vec![
        GuildChannels { guild_id: 10, channel_ids: vec![1, 2] },
        GuildChannels { guild_id: 20, channel_ids: vec![3] },
    ];
    assert_eq!(find_guild_of_channel(&guilds, 3), Some(20));
    assert_eq!(find_guild_of_channel(&guilds, 2), Some(10));
    assert_eq!(find_guild_of_channel(&guilds, 4), None);
}

#[test]
fn compose_stages() {
    assert_eq!(next_stage(ComposeStage::Start, "hi :x: @y #z"), ComposeStage::Emojis);
    assert_eq!(next_stage(ComposeStage::Emojis, "hi :x: @y #z"), ComposeStage::Mentions);
    assert_eq!(next_stage(ComposeStage::Mentions, "hi :x: @y #z"), ComposeStage::Channels);
    assert_eq!(next_stage(ComposeStage::Channels, "hi :x: @y #z"), ComposeStage::Send);
    assert_eq!(next_stage(ComposeStage::Start, "!yap"), ComposeStage::Yap);
    assert_eq!(next_stage(ComposeStage::Yap, "!yap"), ComposeStage::Send);
    assert_eq!(next_stage(ComposeStage::Start, "plain"), ComposeStage::Send);
}

#[test]
fn channels_are_listed_once_over_a_run() {
    let run = [(5, false), (OWNER, false), (5, true), (OWNER, false), (7, true)];
    let mut listed = false;
    let mut listings = 0;
    for (author, anyone) in run {
        let plan = plan_message(author, "hello", anyone, listed);
        if plan.list_channels {
            listings += 1;
        }
        assert!(plan.channels_listed || !listed);
        listed = plan.channels_listed;
    }
    assert_eq!(listings, 1);
    assert!(listed);
    let first = plan_message(5, "hello", false, false);
    assert!(!first.list_channels);
    assert!(!first.channels_listed);
}
