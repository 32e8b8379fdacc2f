//! The decisions the bot takes: for each incoming message, for the
//! command line, and for each message the user composes.

use vstd::prelude::*;

use crate::patterns::{directory, find_id, lookup_id, NamedId};
use crate::text::{
    chars_of, contains_exec, contains_seq, decimal, join_with, parse_id, parse_id_exec, push_decimal,
    push_str, same_chars, string_of,
};

verus! {

/// The first helper bot, whose messages neither trigger the reply commands
/// nor are learnt from.
pub const HELPER_BOT_A: u64 = 1_271_514_040_786_747_495;

/// The second helper bot.
pub const HELPER_BOT_B: u64 = 1_271_653_492_049_576_026;

/// A third bot whose messages are not learnt from.
pub const QUIET_BOT: u64 = 810_609_798_268_715_029;

/// The owner, whose messages always reach the bot.
pub const OWNER: u64 = 1_102_939_243_954_847_745;

/// The user whose messages get a nerd-face reaction.
pub const NERD: u64 = 1_252_795_706_188_496_906;

pub const CRAZY_COMMAND: &'static str = "crazy";
pub const SIGMA_WORD: &'static str = "sigma";
pub const CONFESS_WORD: &'static str = "/confess";
pub const HELP_COMMAND: &'static str = "!help";

/// The help command as the help text lists it.
pub const HELP_FLAG: &'static str = "--help";
pub const USER_INFO_WORD: &'static str = "!user_info";
pub const YAP_COMMAND: &'static str = "!yap";

/// The answer to `crazy`.
pub const CRAZY_TEXT: &'static str = "Crazy? I was crazy once. They locked me in a room. A rubber room. A rubber room with rats. The rats made me crazy.";

/// The answer to `sigma`.
pub const SIGMA_GIF: &'static str = "https://tenor.com/nmfj36p1Tdl.gif";

/// The answer to `!help`.
pub const HELP_TEXT: &'static str = "
                Displaying Help messages for Owo-bot...

                Commands:
                \"crazy\" -- crazy meme
                \"!user_info\" -- displays user info from bot perspective
                \"--help\" -- displays this message
                \"sigma\" -- displays what the sigma gif
                \"/confess\" -- confess your sins!
                \"!yap\" -- the bot will yap

                contact @t3rabit3 for more info


                ";

/// Words whose presence keeps a message out of the learning input.
pub const BAD_WORDS: [&'static str; 9] = [
    "fag",
    "nig",
    "higgers",
    "f@g",
    "!yap",
    "!work",
    "!slut",
    "!roulette",
    "!blackjack",
];

/// What the bot does about a message, in this order.
#[derive(Debug, PartialEq, Eq, Structural, Clone, Copy)]
pub enum Action {
    /// Answers with the crazy copypasta.
    ReplyCrazy,
    /// Answers with the sigma gif.
    ReplySigma,
    /// Writes the confession to the confession log.
    Confess,
    /// Answers with the help text.
    ReplyHelp,
    /// Answers with the report about the message.
    ReplyUserInfo,
    /// Answers with a babble.
    ReplyYap,
}

/// What to do with one incoming message.
pub struct MessagePlan {
    /// Whether the message is offered to the learning input.
    pub store: bool,
    /// Whether the message reaches the bot: the report is shown, the content
    /// is logged and the commands are looked at.
    pub interact: bool,
    /// Whether the guild channels are listed (once, on the first message that reaches the bot).
    pub list_channels: bool,
    /// Whether the channels have been listed once this message is handled.
    pub channels_listed: bool,
    /// The commands that the message triggers, in order.
    pub actions: Vec<Action>,
    /// Whether the message gets the nerd-face reaction.
    pub react: bool,
}

pub open spec fn is_helper_bot(author: u64) -> bool {
    author == HELPER_BOT_A || author == HELPER_BOT_B
}

pub open spec fn is_bot(author: u64) -> bool {
    is_helper_bot(author) || author == QUIET_BOT
}

/// Whether a message from `author` reaches the bot.
pub open spec fn reaches(author: u64, anyone: bool) -> bool {
    author == OWNER || anyone
}

/// Whether handling a message lists the guild channels: it reaches the bot
/// and they were not listed yet.
pub open spec fn lists_channels(author: u64, anyone: bool, listed: bool) -> bool {
    reaches(author, anyone) && !listed
}

/// Whether the channels have been listed once the message is handled.
pub open spec fn listed_after(author: u64, anyone: bool, listed: bool) -> bool {
    listed || lists_channels(author, anyone, listed)
}

/// How many times a run of messages lists the channels, each message given
/// by its author and whether anyone may use the bot at that moment, starting
/// from whether they were listed already.
pub open spec fn listings(run: Seq<(u64, bool)>, listed: bool) -> nat
    decreases run.len(),
{
    if run.len() == 0 {
        0
    } else {
        (if lists_channels(run[0].0, run[0].1, listed) { 1nat } else { 0nat })
            + listings(run.drop_first(), listed_after(run[0].0, run[0].1, listed))
    }
}

/// Whether the channels have been listed after a run of messages.
pub open spec fn listed_after_run(run: Seq<(u64, bool)>, listed: bool) -> bool
    decreases run.len(),
{
    if run.len() == 0 {
        listed
    } else {
        listed_after_run(run.drop_first(), listed_after(run[0].0, run[0].1, listed))
    }
}

/// Over any run of messages the channels are listed at most once, never
/// again once they have been, and once listed they stay listed.
pub proof fn law_channels_listed_once(run: Seq<(u64, bool)>, listed: bool)
    ensures
        listings(run, listed) <= 1,
        listed ==> listings(run, listed) == 0,
        listed ==> listed_after_run(run, listed),
        listed_after_run(run, listed) == (listed || listings(run, listed) == 1),
    decreases run.len(),
{
    if run.len() > 0 {
        let next = listed_after(run[0].0, run[0].1, listed);
        law_channels_listed_once(run.drop_first(), next);
    }
}

/// The commands of a message that reaches the bot, in order.
pub open spec fn planned_actions(author: u64, content: Seq<char>) -> Seq<Action> {
    (if content == CRAZY_COMMAND@ { seq![Action::ReplyCrazy] } else { seq![] })
    + (if contains_seq(content, SIGMA_WORD@) && !is_helper_bot(author) { seq![Action::ReplySigma] } else { seq![] })
    + (if contains_seq(content, CONFESS_WORD@) { seq![Action::Confess] } else { seq![] })
    + (if content == HELP_COMMAND@ || content == HELP_FLAG@ { seq![Action::ReplyHelp] } else { seq![] })
    + (if contains_seq(content, USER_INFO_WORD@) && !is_helper_bot(author) { seq![Action::ReplyUserInfo] } else { seq![] })
    + (if content == YAP_COMMAND@ && !is_helper_bot(author) { seq![Action::ReplyYap] } else { seq![] })
}

/// Whether the message's text equals the literal.
fn is_literal(content: &Vec<char>, lit: &str) -> (r: bool)
    ensures
        r == (content@ == lit@),
{
    same_chars(content, &chars_of(lit))
}

/// Whether the literal occurs in the message's text.
fn has_literal(content: &Vec<char>, lit: &str) -> (r: bool)
    ensures
        r == contains_seq(content@, lit@),
{
    contains_exec(content, &chars_of(lit))
}

/// Decides what to do with a message from `author`, given whether anyone may
/// use the bot and whether the channels were listed already.
pub fn plan_message(author: u64, content: &str, anyone: bool, channels_listed: bool) -> (r: MessagePlan)
    ensures
        r.store == !is_bot(author),
        r.interact == (author == OWNER || anyone),
        r.list_channels == lists_channels(author, anyone, channels_listed),
        r.channels_listed == listed_after(author, anyone, channels_listed),
        r.actions@ == if r.interact { planned_actions(author, content@) } else { seq![] },
        r.react == (author == NERD),
{
    let interact = author == OWNER || anyone;
    let helper = author == HELPER_BOT_A || author == HELPER_BOT_B;
    let mut actions: Vec<Action> = Vec::new();
    if interact {
        let c = chars_of(content);
        if is_literal(&c, CRAZY_COMMAND) {
            actions.push(Action::ReplyCrazy);
        }
        if has_literal(&c, SIGMA_WORD) && !helper {
            actions.push(Action::ReplySigma);
        }
        if has_literal(&c, CONFESS_WORD) {
            actions.push(Action::Confess);
        }
        if is_literal(&c, HELP_COMMAND) || is_literal(&c, HELP_FLAG) {
            actions.push(Action::ReplyHelp);
        }
        if has_literal(&c, USER_INFO_WORD) && !helper {
            actions.push(Action::ReplyUserInfo);
        }
        if is_literal(&c, YAP_COMMAND) && !helper {
            actions.push(Action::ReplyYap);
        }
        assert(actions@ =~= planned_actions(author, content@));
    }
    MessagePlan {
        store: !(helper || author == QUIET_BOT),
        interact,
        list_channels: interact && !channels_listed,
        channels_listed: channels_listed || (interact && !channels_listed),
        actions,
        react: author == NERD,
    }
}

/// Whether any of the bad words occurs in the text.
pub open spec fn has_bad_word(content: Seq<char>) -> bool {
    exists|i: int| 0 <= i < 9 && contains_seq(content, #[trigger] BAD_WORDS[i]@)
}

/// Each command fires exactly on its own words, for a message that reaches
/// the bot: `crazy` and `!yap` on the whole text, help on `!help` or
/// `--help`, and sigma, `/confess` and `!user_info` wherever their word
/// occurs (at the very start too); sigma, `!user_info` and `!yap` are not
/// answered for the helper bots.
pub proof fn law_commands_fire_on_their_words(author: u64, content: Seq<char>)
    ensures
        planned_actions(author, content).contains(Action::ReplyCrazy) <==> content == "crazy"@,
        planned_actions(author, content).contains(Action::ReplySigma) <==> contains_seq(content, "sigma"@)
            && author != HELPER_BOT_A && author != HELPER_BOT_B,
        planned_actions(author, content).contains(Action::Confess) <==> contains_seq(content, "/confess"@),
        planned_actions(author, content).contains(Action::ReplyHelp) <==> content == "!help"@ || content
            == "--help"@,
        planned_actions(author, content).contains(Action::ReplyUserInfo) <==> contains_seq(
            content,
            "!user_info"@,
        ) && author != HELPER_BOT_A && author != HELPER_BOT_B,
        planned_actions(author, content).contains(Action::ReplyYap) <==> content == "!yap"@ && author
            != HELPER_BOT_A && author != HELPER_BOT_B,
{
    broadcast use vstd::seq_lib::lemma_seq_concat_contains_all_elements;

    assert(CRAZY_COMMAND@ == "crazy"@);
    assert(SIGMA_WORD@ == "sigma"@);
    assert(CONFESS_WORD@ == "/confess"@);
    assert(HELP_COMMAND@ == "!help"@);
    assert(HELP_FLAG@ == "--help"@);
    assert(USER_INFO_WORD@ == "!user_info"@);
    assert(YAP_COMMAND@ == "!yap"@);
    let e = Seq::<Action>::empty();
    assert(!e.contains(Action::ReplyCrazy) && !e.contains(Action::ReplySigma) && !e.contains(Action::Confess));
    assert(!e.contains(Action::ReplyHelp) && !e.contains(Action::ReplyUserInfo) && !e.contains(Action::ReplyYap));
    assert(seq![Action::ReplyCrazy][0] == Action::ReplyCrazy);
    assert(seq![Action::ReplySigma][0] == Action::ReplySigma);
    assert(seq![Action::Confess][0] == Action::Confess);
    assert(seq![Action::ReplyHelp][0] == Action::ReplyHelp);
    assert(seq![Action::ReplyUserInfo][0] == Action::ReplyUserInfo);
    assert(seq![Action::ReplyYap][0] == Action::ReplyYap);
}

/// Every one of the nine bad words keeps a message out of the learning
/// input, wherever it occurs, and a message holding none of them is kept.
pub proof fn law_bad_words_keep_messages_out(content: Seq<char>)
    ensures
        has_bad_word(content) <==> (contains_seq(content, "fag"@) || contains_seq(content, "nig"@)
            || contains_seq(content, "higgers"@) || contains_seq(content, "f@g"@) || contains_seq(content, "!yap"@)
            || contains_seq(content, "!work"@) || contains_seq(content, "!slut"@) || contains_seq(
            content,
            "!roulette"@,
        ) || contains_seq(content, "!blackjack"@)),
{
    assert(BAD_WORDS[0]@ == "fag"@);
    assert(BAD_WORDS[1]@ == "nig"@);
    assert(BAD_WORDS[2]@ == "higgers"@);
    assert(BAD_WORDS[3]@ == "f@g"@);
    assert(BAD_WORDS[4]@ == "!yap"@);
    assert(BAD_WORDS[5]@ == "!work"@);
    assert(BAD_WORDS[6]@ == "!slut"@);
    assert(BAD_WORDS[7]@ == "!roulette"@);
    assert(BAD_WORDS[8]@ == "!blackjack"@);
    if has_bad_word(content) {
        let i = choose|i: int| 0 <= i < 9 && contains_seq(content, #[trigger] BAD_WORDS[i]@);
        assert(0 <= i < 9);
    }
}

/// The entry that a message adds to the learning input: its text and a
/// space, unless it holds a bad word.
pub fn store_entry(content: &str) -> (r: Option<String>)
    ensures
        r is None <==> has_bad_word(content@),
        r matches Some(s) ==> s@ == content@.push(' '),
{
    let c = chars_of(content);
    let mut i: usize = 0;
    while i < 9
        invariant
            i <= 9,
            c@ == content@,
            forall|j: int| 0 <= j < i ==> !contains_seq(content@, #[trigger] BAD_WORDS[j]@),
        decreases 9 - i,
    {
        if has_literal(&c, BAD_WORDS[i]) {
            return None;
        }
        i += 1;
    }
    let mut out = c;
    out.push(' ');
    Some(string_of(&out))
}

/// The line of the log that a confession writes.
pub open spec fn confession(author: Seq<char>, content: Seq<char>) -> Seq<char> {
    "User "@ + author + " tried to confess "@ + content
}

/// `User <author> tried to confess <content>`.
pub fn confession_line(author: &str, content: &str) -> (r: String)
    ensures
        r@ == confession(author@, content@),
{
    let mut out: Vec<char> = Vec::new();
    push_str(&mut out, "User ");
    push_str(&mut out, author);
    push_str(&mut out, " tried to confess ");
    push_str(&mut out, content);
    string_of(&out)
}

/// A guild as the channel listing shows it: its name and its channels, each
/// absent when it could not be fetched.
pub struct GuildListing {
    pub name: Option<String>,
    pub channels: Option<Vec<NamedId>>,
}

/// The listing's line for one channel.
pub open spec fn channel_line(c: (Seq<char>, u64)) -> Seq<char> {
    "\nChannel ID: "@ + decimal(c.1 as nat) + ",\nName: "@ + c.0 + "\n"@
}

/// The listing's lines for the channels, in order.
pub open spec fn channel_lines(cs: Seq<(Seq<char>, u64)>) -> Seq<char>
    decreases cs.len(),
{
    if cs.len() == 0 {
        seq![]
    } else {
        channel_lines(cs.drop_last()) + channel_line(cs.last())
    }
}

/// The listing's block for one guild.
pub open spec fn guild_block(g: GuildListing) -> Seq<char> {
    (match g.name {
        Some(n) => "Name of guild: "@ + n@ + "\n"@,
        None => "Could not get name of guild!\n"@,
    }) + (match g.channels {
        Some(cs) => channel_lines(directory(cs@)),
        None => seq![],
    })
}

/// The whole listing: the guild blocks in order.
pub open spec fn listing(gs: Seq<GuildListing>) -> Seq<char>
    decreases gs.len(),
{
    if gs.len() == 0 {
        seq![]
    } else {
        listing(gs.drop_last()) + guild_block(gs.last())
    }
}

/// The text of the channel listing file.
pub fn channel_listing(guilds: &Vec<GuildListing>) -> (r: String)
    ensures
        r@ == listing(guilds@),
{
    let mut out: Vec<char> = Vec::new();
    let mut i: usize = 0;
    while i < guilds.len()
        invariant
            i <= guilds.len(),
            out@ == listing(guilds@.take(i as int)),
        decreases guilds.len() - i,
    {
        let ghost before = out@;
        let g = &guilds[i];
        match &g.name {
            Some(n) => {
                push_str(&mut out, "Name of guild: ");
                push_str(&mut out, n.as_str());
                push_str(&mut out, "\n");
            },
            None => {
                push_str(&mut out, "Could not get name of guild!\n");
            },
        }
        let ghost head = out@;
        match &g.channels {
            Some(cs) => {
                let ghost d = directory(cs@);
                let mut k: usize = 0;
                while k < cs.len()
                    invariant
                        k <= cs.len(),
                        d == directory(cs@),
                        out@ == head + channel_lines(d.take(k as int)),
                    decreases cs.len() - k,
                {
                    push_str(&mut out, "\nChannel ID: ");
                    push_decimal(&mut out, cs[k].id);
                    push_str(&mut out, ",\nName: ");
                    push_str(&mut out, cs[k].name.as_str());
                    push_str(&mut out, "\n");
                    proof {
                        assert(d.take(k + 1).drop_last() =~= d.take(k as int));
                        assert(d.take(k + 1).last() == (cs@[k as int].name@, cs@[k as int].id));
                        assert(out@ =~= head + channel_lines(d.take(k + 1)));
                    }
                    k += 1;
                }
                assert(d.take(cs.len() as int) =~= d);
            },
            None => {},
        }
        proof {
            assert(guilds@.take(i + 1).drop_last() =~= guilds@.take(i as int));
            assert(guilds@.take(i + 1).last() == guilds@[i as int]);
            assert(out@ =~= before + guild_block(guilds@[i as int]));
        }
        i += 1;
    }
    assert(guilds@.take(guilds.len() as int) =~= guilds@);
    string_of(&out)
}

pub const RESPOND_FLAG: &'static str = "--respond";
pub const ANYONE_FLAG: &'static str = "--anyone";
pub const RESPOND_NOTICE: &'static str = "You can respond back!";
pub const ANYONE_NOTICE: &'static str = "Anyone can activate!";

/// Character sequences of a vector of strings.
pub open spec fn strings(v: Seq<String>) -> Seq<Seq<char>> {
    v.map_values(|s: String| s@)
}

/// The settings that the command-line arguments give.
pub struct ArgsPlan {
    /// Whether the user may send messages from the terminal.
    pub respond: bool,
    /// Whether anyone, not only the owner, may use the bot.
    pub anyone: bool,
    /// What to tell the user, one line per recognised argument.
    pub notices: Vec<String>,
    /// The arguments that were not recognised, in order.
    pub unrecognized: Vec<String>,
}

pub open spec fn arg_notices(args: Seq<Seq<char>>) -> Seq<Seq<char>>
    decreases args.len(),
{
    if args.len() == 0 {
        seq![]
    } else {
        arg_notices(args.drop_last()) + if args.last() == RESPOND_FLAG@ {
            seq![RESPOND_NOTICE@]
        } else if args.last() == ANYONE_FLAG@ {
            seq![ANYONE_NOTICE@]
        } else {
            seq![]
        }
    }
}

pub open spec fn arg_unrecognized(args: Seq<Seq<char>>) -> Seq<Seq<char>>
    decreases args.len(),
{
    if args.len() == 0 {
        seq![]
    } else {
        arg_unrecognized(args.drop_last()) + if args.last() == RESPOND_FLAG@ || args.last() == ANYONE_FLAG@ {
            seq![]
        } else {
            seq![args.last()]
        }
    }
}

/// Reads the command-line arguments (without the program name).
pub fn parse_args(args: &Vec<String>) -> (r: ArgsPlan)
    ensures
        r.respond == strings(args@).contains(RESPOND_FLAG@),
        r.anyone == strings(args@).contains(ANYONE_FLAG@),
        strings(r.notices@) == arg_notices(strings(args@)),
        strings(r.unrecognized@) == arg_unrecognized(strings(args@)),
{
    let ghost a = strings(args@);
    let mut respond = false;
    let mut anyone = false;
    let mut notices: Vec<String> = Vec::new();
    let mut unrecognized: Vec<String> = Vec::new();
    let mut i: usize = 0;
    while i < args.len()
        invariant
            i <= args.len(),
            a == strings(args@),
            respond == a.take(i as int).contains(RESPOND_FLAG@),
            anyone == a.take(i as int).contains(ANYONE_FLAG@),
            strings(notices@) == arg_notices(a.take(i as int)),
            strings(unrecognized@) == arg_unrecognized(a.take(i as int)),
        decreases args.len() - i,
    {
        let ghost t = a.take(i + 1);
        proof {
            assert(t.drop_last() =~= a.take(i as int));
            assert(t.last() == args@[i as int]@);
        }
        let c = chars_of(args[i].as_str());
        let is_respond = same_chars(&c, &chars_of(RESPOND_FLAG));
        let is_anyone = same_chars(&c, &chars_of(ANYONE_FLAG));
        proof {
            reveal_strlit("--respond");
            reveal_strlit("--anyone");
            assert(RESPOND_FLAG@[2] != ANYONE_FLAG@[2]);
        }
        if is_respond {
            respond = true;
            notices.push(RESPOND_NOTICE.to_owned());
        } else if is_anyone {
            anyone = true;
            notices.push(ANYONE_NOTICE.to_owned());
        } else {
            unrecognized.push(args[i].clone());
        }
        proof {
            assert(strings(notices@) =~= arg_notices(t));
            assert(strings(unrecognized@) =~= arg_unrecognized(t));
            assert(t.contains(RESPOND_FLAG@) == (a.take(i as int).contains(RESPOND_FLAG@) || t.last() == RESPOND_FLAG@)) by {
                if t.contains(RESPOND_FLAG@) {
                    let j = choose|j: int| 0 <= j < t.len() && t[j] == RESPOND_FLAG@;
                    if j < i {
                        assert(a.take(i as int)[j] == t[j]);
                    }
                }
                if a.take(i as int).contains(RESPOND_FLAG@) {
                    let j = choose|j: int| 0 <= j < i && a.take(i as int)[j] == RESPOND_FLAG@;
                    assert(t[j] == a.take(i as int)[j]);
                }
            }
            assert(t.contains(ANYONE_FLAG@) == (a.take(i as int).contains(ANYONE_FLAG@) || t.last() == ANYONE_FLAG@)) by {
                if t.contains(ANYONE_FLAG@) {
                    let j = choose|j: int| 0 <= j < t.len() && t[j] == ANYONE_FLAG@;
                    if j < i {
                        assert(a.take(i as int)[j] == t[j]);
                    }
                }
                if a.take(i as int).contains(ANYONE_FLAG@) {
                    let j = choose|j: int| 0 <= j < i && a.take(i as int)[j] == ANYONE_FLAG@;
                    assert(t[j] == a.take(i as int)[j]);
                }
            }
        }
        i += 1;
    }
    assert(a.take(args.len() as int) =~= a);
    ArgsPlan { respond, anyone, notices, unrecognized }
}

/// The complaint about unrecognised arguments, when there are any.
pub open spec fn unrecognized_complaint(invalid: Seq<Seq<char>>) -> Option<Seq<char>> {
    if invalid.len() == 0 {
        None
    } else {
        Some("The following args were not recognized: "@ + join_with(invalid, ", "@))
    }
}

/// `The following args were not recognized: a, b, ...`, or `None` when all
/// arguments were recognised.
pub fn unrecognized_message(invalid: &Vec<String>) -> (r: Option<String>)
    ensures
        r matches Some(s) ==> unrecognized_complaint(strings(invalid@)) == Some(s@),
        r is None ==> unrecognized_complaint(strings(invalid@)) is None,
{
    if invalid.len() == 0 {
        return None;
    }
    let ghost a = strings(invalid@);
    let mut out: Vec<char> = Vec::new();
    push_str(&mut out, "The following args were not recognized: ");
    let ghost head = out@;
    let mut i: usize = 0;
    while i < invalid.len()
        invariant
            i <= invalid.len(),
            a == strings(invalid@),
            out@ == head + join_with(a.take(i as int), ", "@),
        decreases invalid.len() - i,
    {
        let ghost t = a.take(i + 1);
        proof {
            assert(t.drop_last() =~= a.take(i as int));
            assert(t.last() == invalid@[i as int]@);
        }
        if i > 0 {
            push_str(&mut out, ", ");
        } else {
            assert(t =~= seq![invalid@[0]@]);
        }
        push_str(&mut out, invalid[i].as_str());
        assert(out@ =~= head + join_with(t, ", "@));
        i += 1;
    }
    assert(a.take(invalid.len() as int) =~= a);
    Some(string_of(&out))
}

pub const MY_LAST_COMMAND: &'static str = "!mylast";
pub const THE_LAST_COMMAND: &'static str = "!thelast";

/// Why the user's answer names no channel to send to.
#[derive(Debug, PartialEq, Eq, Structural, Clone, Copy)]
pub enum TargetError {
    /// `!mylast`, but the user has sent nothing yet.
    NoOwnLast,
    /// `!thelast`, but no message was seen yet.
    NoLast,
    /// A `!` command other than the two known ones.
    InvalidCommand,
    /// Neither an id, nor a channel name, nor a command.
    InvalidTarget,
}

impl TargetError {
    /// What the user is told.
    pub fn describe(&self) -> (r: &'static str)
        ensures
            r@ == match *self {
                TargetError::NoOwnLast => "There is no previous message of yours cached!"@,
                TargetError::NoLast => "There is no previous message at all cached!"@,
                TargetError::InvalidCommand => "Invalid ! command."@,
                TargetError::InvalidTarget => "Invalid channel ID or channel command!"@,
            },
    {
        match self {
            TargetError::NoOwnLast => "There is no previous message of yours cached!",
            TargetError::NoLast => "There is no previous message at all cached!",
            TargetError::InvalidCommand => "Invalid ! command.",
            TargetError::InvalidTarget => "Invalid channel ID or channel command!",
        }
    }
}

/// The channel that the user's answer names: an id; else a channel of that
/// name (`by_name`, looked up only when the answer is no id); else one of the
/// commands `!mylast` (the channel the user last sent to) and `!thelast`
/// (the channel of the last message seen).
pub open spec fn target_of(
    input: Seq<char>,
    by_name: Option<u64>,
    your_last: Option<u64>,
    the_last: Option<u64>,
) -> Result<u64, TargetError> {
    match parse_id(input) {
        Some(id) => Ok(id),
        None => match by_name {
            Some(id) => Ok(id),
            None => if input.contains('!') {
                if input == MY_LAST_COMMAND@ {
                    match your_last {
                        Some(id) => Ok(id),
                        None => Err(TargetError::NoOwnLast),
                    }
                } else if input == THE_LAST_COMMAND@ {
                    match the_last {
                        Some(id) => Ok(id),
                        None => Err(TargetError::NoLast),
                    }
                } else {
                    Err(TargetError::InvalidCommand)
                }
            } else {
                Err(TargetError::InvalidTarget)
            },
        },
    }
}

/// Decides the channel to send to.
pub fn resolve_target(
    input: &str,
    by_name: Option<u64>,
    your_last: Option<u64>,
    the_last: Option<u64>,
) -> (r: Result<u64, TargetError>)
    ensures
        r == target_of(input@, by_name, your_last, the_last),
{
    if let Some(id) = parse_id_exec(input) {
        return Ok(id);
    }
    if let Some(id) = by_name {
        return Ok(id);
    }
    let c = chars_of(input);
    if !has_char(&c, '!') {
        return Err(TargetError::InvalidTarget);
    }
    if same_chars(&c, &chars_of(MY_LAST_COMMAND)) {
        match your_last {
            Some(id) => Ok(id),
            None => Err(TargetError::NoOwnLast),
        }
    } else if same_chars(&c, &chars_of(THE_LAST_COMMAND)) {
        match the_last {
            Some(id) => Ok(id),
            None => Err(TargetError::NoLast),
        }
    } else {
        Err(TargetError::InvalidCommand)
    }
}

/// The first channel of that name, guild by guild.
pub open spec fn channel_by_name(guilds: Seq<Seq<(Seq<char>, u64)>>, name: Seq<char>) -> Option<u64>
    decreases guilds.len(),
{
    if guilds.len() == 0 {
        None
    } else {
        match lookup_id(guilds[0], name) {
            Some(id) => Some(id),
            None => channel_by_name(guilds.drop_first(), name),
        }
    }
}

pub open spec fn directories(v: Seq<Vec<NamedId>>) -> Seq<Seq<(Seq<char>, u64)>> {
    v.map_values(|g: Vec<NamedId>| directory(g@))
}

/// Looks for a channel of that name among the channels of each guild, in
/// order.
pub fn find_channel_by_name(guilds: &Vec<Vec<NamedId>>, name: &String) -> (r: Option<u64>)
    ensures
        r == channel_by_name(directories(guilds@), name@),
{
    let ghost d = directories(guilds@);
    let mut i: usize = 0;
    assert(d.skip(0) =~= d);
    while i < guilds.len()
        invariant
            i <= guilds.len(),
            d == directories(guilds@),
            channel_by_name(d.skip(i as int), name@) == channel_by_name(d, name@),
        decreases guilds.len() - i,
    {
        proof {
            assert(d.skip(i as int).drop_first() =~= d.skip(i + 1));
            assert(d.skip(i as int)[0] == directory(guilds@[i as int]@));
        }
        if let Some(id) = find_id(&guilds[i], name) {
            return Some(id);
        }
        i += 1;
    }
    assert(d.skip(i as int).len() == 0);
    None
}

/// A guild and the ids of its channels.
pub struct GuildChannels {
    pub guild_id: u64,
    pub channel_ids: Vec<u64>,
}

/// The first guild that has the channel.
pub open spec fn guild_of(guilds: Seq<(u64, Seq<u64>)>, channel: u64) -> Option<u64>
    decreases guilds.len(),
{
    if guilds.len() == 0 {
        None
    } else if guilds[0].1.contains(channel) {
        Some(guilds[0].0)
    } else {
        guild_of(guilds.drop_first(), channel)
    }
}

pub open spec fn guild_channel_sets(v: Seq<GuildChannels>) -> Seq<(u64, Seq<u64>)> {
    v.map_values(|g: GuildChannels| (g.guild_id, g.channel_ids@))
}

/// Finds the guild that a channel belongs to.
pub fn find_guild_of_channel(guilds: &Vec<GuildChannels>, channel: u64) -> (r: Option<u64>)
    ensures
        r == guild_of(guild_channel_sets(guilds@), channel),
{
    let ghost d = guild_channel_sets(guilds@);
    let mut i: usize = 0;
    assert(d.skip(0) =~= d);
    while i < guilds.len()
        invariant
            i <= guilds.len(),
            d == guild_channel_sets(guilds@),
            guild_of(d.skip(i as int), channel) == guild_of(d, channel),
        decreases guilds.len() - i,
    {
        proof {
            assert(d.skip(i as int).drop_first() =~= d.skip(i + 1));
            assert(d.skip(i as int)[0] == (guilds@[i as int].guild_id, guilds@[i as int].channel_ids@));
        }
        let ids = &guilds[i].channel_ids;
        let mut k: usize = 0;
        while k < ids.len()
            invariant
                i < guilds.len(),
                k <= ids.len(),
                d == guild_channel_sets(guilds@),
                guild_of(d.skip(i as int), channel) == guild_of(d, channel),
                d.skip(i as int)[0] == (guilds@[i as int].guild_id, guilds@[i as int].channel_ids@),
                ids@ == guilds@[i as int].channel_ids@,
                forall|j: int| 0 <= j < k ==> ids@[j] != channel,
            decreases ids.len() - k,
        {
            if ids[k] == channel {
                assert(d.skip(i as int)[0].1[k as int] == channel);
                return Some(guilds[i].guild_id);
            }
            k += 1;
        }
        assert(!d.skip(i as int)[0].1.contains(channel));
        i += 1;
    }
    assert(d.skip(i as int).len() == 0);
    None
}

/// The steps an outgoing message goes through, in order.
#[derive(Debug, PartialEq, Eq, Structural, Clone, Copy)]
pub enum ComposeStage {
    /// Nothing done yet.
    Start,
    /// Resolve `:emoji:` tokens.
    Emojis,
    /// Resolve `@user` tokens.
    Mentions,
    /// Resolve `#channel` tokens.
    Channels,
    /// Replace the message by a babble.
    Yap,
    /// Send the message.
    Send,
}

pub open spec fn stage_rank(s: ComposeStage) -> nat {
    match s {
        ComposeStage::Start => 0,
        ComposeStage::Emojis => 1,
        ComposeStage::Mentions => 2,
        ComposeStage::Channels => 3,
        ComposeStage::Yap => 4,
        ComposeStage::Send => 5,
    }
}

/// Whether the step applies to the message as it stands.
pub open spec fn stage_applies(s: ComposeStage, msg: Seq<char>) -> bool {
    match s {
        ComposeStage::Start => false,
        ComposeStage::Emojis => msg.contains(':'),
        ComposeStage::Mentions => msg.contains('@'),
        ComposeStage::Channels => msg.contains('#'),
        ComposeStage::Yap => msg == YAP_COMMAND@,
        ComposeStage::Send => true,
    }
}

fn has_char(c: &Vec<char>, ch: char) -> (r: bool)
    ensures
        r == c@.contains(ch),
{
    let mut i: usize = 0;
    while i < c.len()
        invariant
            i <= c.len(),
            forall|j: int| 0 <= j < i ==> c@[j] != ch,
        decreases c.len() - i,
    {
        if c[i] == ch {
            return true;
        }
        i += 1;
    }
    false
}

/// The step that follows `after` for the message as it stands: the first
/// later step that applies to it.
pub fn next_stage(after: ComposeStage, message: &str) -> (r: ComposeStage)
    requires
        after != ComposeStage::Send,
    ensures
        stage_rank(r) > stage_rank(after),
        stage_applies(r, message@),
        forall|s: ComposeStage| stage_rank(after) < stage_rank(s) < stage_rank(r) ==> !stage_applies(s, message@),
{
    let c = chars_of(message);
    let rank: u8 = match after {
        ComposeStage::Start => 0,
        ComposeStage::Emojis => 1,
        ComposeStage::Mentions => 2,
        ComposeStage::Channels => 3,
        ComposeStage::Yap => 4,
        ComposeStage::Send => 5,
    };
    if rank < 1 && has_char(&c, ':') {
        return ComposeStage::Emojis;
    }
    if rank < 2 && has_char(&c, '@') {
        return ComposeStage::Mentions;
    }
    if rank < 3 && has_char(&c, '#') {
        return ComposeStage::Channels;
    }
    if rank < 4 && same_chars(&c, &chars_of(YAP_COMMAND)) {
        return ComposeStage::Yap;
    }
    ComposeStage::Send
}

} // verus!
