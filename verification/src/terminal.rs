//! The terminal side: editing the input line, which messages fit on screen,
//! where the panels go, and the report shown about a message.

use vstd::prelude::*;

use crate::text::{chars_of, decimal, push_decimal, push_str, string_of};

verus! {

/// A key press, as far as the input line cares.
#[derive(Debug, PartialEq, Eq, Structural, Clone, Copy)]
pub enum KeyInput {
    Enter,
    Char(char),
    Backspace,
    Other,
}

/// The line that the user is typing.
pub struct InputLine {
    chars: Vec<char>,
}

impl View for InputLine {
    type V = Seq<char>;

    closed spec fn view(&self) -> Seq<char> {
        self.chars@
    }
}

/// The line after a key press: a character is typed at the end, backspace
/// removes the last one, anything else leaves the line alone.
pub open spec fn key_effect(line: Seq<char>, key: KeyInput) -> Seq<char> {
    match key {
        KeyInput::Char(c) => line.push(c),
        KeyInput::Backspace => if line.len() > 0 {
            line.drop_last()
        } else {
            line
        },
        _ => line,
    }
}

/// The cursor drawn after the text.
pub const CURSOR: char = '█';

impl InputLine {
    /// An empty line.
    pub fn new() -> (r: InputLine)
        ensures
            r@ == Seq::<char>::empty(),
    {
        InputLine { chars: Vec::new() }
    }

    /// Applies a key press; returns whether it submits the line, which Enter
    /// does on a line that is not empty.
    pub fn apply_key(&mut self, key: KeyInput) -> (submitted: bool)
        ensures
            submitted == (key == KeyInput::Enter && old(self)@.len() > 0),
            final(self)@ == key_effect(old(self)@, key),
    {
        match key {
            KeyInput::Enter => self.chars.len() > 0,
            KeyInput::Char(c) => {
                self.chars.push(c);
                false
            },
            KeyInput::Backspace => {
                if self.chars.len() > 0 {
                    self.chars.pop();
                }
                false
            },
            KeyInput::Other => false,
        }
    }

    /// The text typed so far.
    pub fn text(&self) -> (r: String)
        ensures
            r@ == self@,
    {
        string_of(&self.chars)
    }

    /// The line as drawn: the text and the cursor.
    pub fn display(&self) -> (r: String)
        ensures
            r@ == self@.push(CURSOR),
    {
        let mut v = self.chars.clone();
        assert(v@ =~= self.chars@);
        v.push(CURSOR);
        string_of(&v)
    }
}

/// Typing a character and then pressing backspace gives the line back.
pub proof fn law_backspace_undoes_typing(line: Seq<char>, c: char)
    ensures
        key_effect(key_effect(line, KeyInput::Char(c)), KeyInput::Backspace) == line,
{
    assert(line.push(c).drop_last() =~= line);
}

/// The index of the first message shown when an area of `height` rows (one
/// of them taken by the border) shows the tail of `len` messages.
pub fn visible_start(len: usize, height: u16) -> (r: usize)
    requires
        height >= 1,
    ensures
        r == if len > height - 1 { len - (height - 1) } else { 0 },
{
    let rows = (height - 1) as usize;
    len.saturating_sub(rows)
}

/// A rectangle of the terminal.
#[derive(Debug, PartialEq, Eq, Structural, Clone, Copy)]
pub struct Area {
    pub x: u16,
    pub y: u16,
    pub width: u16,
    pub height: u16,
}

/// The input panel and the information panel in the bottom area: the left
/// half, starting at the left edge, and the right half.
pub fn split_bottom(bottom: Area) -> (r: (Area, Area))
    ensures
        r.0.x == 0,
        r.0.y == bottom.y,
        r.0.width == bottom.width / 2,
        r.0.height == bottom.height,
        r.1.x == bottom.width / 2,
        r.1.y == bottom.y,
        r.1.width == bottom.width / 2,
        r.1.height == bottom.height,
{
    let half = bottom.width / 2;
    (
        Area { x: 0, y: bottom.y, width: half, height: bottom.height },
        Area { x: half, y: bottom.y, width: half, height: bottom.height },
    )
}

/// The messages shown at the top after an input is taken: the prompt (the
/// last message) gives way to the input and a line break.
pub open spec fn after_input(log: Seq<Seq<char>>, input: Seq<char>) -> Seq<Seq<char>> {
    (if log.len() > 0 {
        log.drop_last()
    } else {
        log
    }).push(input.push('\n'))
}

pub open spec fn lines(v: Seq<String>) -> Seq<Seq<char>> {
    v.map_values(|s: String| s@)
}

/// Replaces the prompt at the end of the top messages by the input.
pub fn record_input(log: &mut Vec<String>, input: &str)
    ensures
        lines(final(log)@) == after_input(lines(old(log)@), input@),
{
    if log.len() > 0 {
        log.pop();
    }
    let mut v = chars_of(input);
    v.push('\n');
    log.push(string_of(&v));
    assert(lines(log@) =~= after_input(lines(old(log)@), input@));
}

/// What the report shows about a message, each field already rendered.
pub struct MessageReport {
    pub author: String,
    pub message_id: u64,
    pub channel_id: u64,
    pub timestamp: String,
    pub content: String,
    pub edited: Option<String>,
    pub tts: bool,
    pub mention_everyone: bool,
    pub mentions: String,
    pub mention_roles: String,
    pub mention_channels: String,
    pub attachments: String,
    pub embeds: String,
    pub reactions: String,
    pub pinned: bool,
    pub webhook: String,
    pub kind: String,
    pub activity: String,
    pub application: String,
    pub application_id: String,
    pub referenced_message: String,
    pub interaction: String,
    pub thread: String,
    pub components: String,
    pub member: String,
}

pub open spec fn bool_text(b: bool) -> Seq<char> {
    if b {
        "true"@
    } else {
        "false"@
    }
}

pub open spec fn edited_text(e: Option<String>) -> Seq<char> {
    match e {
        Some(s) => s@,
        None => "Not edited"@,
    }
}

/// The report's text.
pub open spec fn report_text(r: MessageReport) -> Seq<char> {
    report_head(r) + edited_text(r.edited) + report_tail(r)
}

/// The report up to the edit timestamp.
pub open spec fn report_head(r: MessageReport) -> Seq<char> {
    "Author: "@ + r.author@ + ", Message ID: "@ + decimal(r.message_id as nat)
        + ", \n        Channel ID: "@ + decimal(r.channel_id as nat) + " \n, Timestamp: "@
        + r.timestamp@ + ".\nContent: `"@ + r.content@ + "`\nEdited Timestamp: "@
}

/// The report after the edit timestamp.
pub open spec fn report_tail(r: MessageReport) -> Seq<char> {
    ", TTS: "@ + bool_text(r.tts) + ", Mentions Everyone: "@
        + bool_text(r.mention_everyone) + "\n, Mentions: "@ + r.mentions@
        + ", Mentioned Roles: "@ + r.mention_roles@ + ", Mentioned Channels: "@
        + r.mention_channels@ + ", Attachments: "@ + r.attachments@ + "\n, Embeds: "@
        + r.embeds@ + ", Reactions: "@ + r.reactions@ + "\n, Pinned: "@ + bool_text(r.pinned)
        + ", Webhook: "@ + r.webhook@ + ", Message Kind: "@ + r.kind@ + ", Activity: "@
        + r.activity@ + "\n, Application: "@ + r.application@ + ", Application ID: "@
        + r.application_id@ + ", Referenced Message: "@ + r.referenced_message@
        + ", Interaction\n: "@ + r.interaction@ + ", Thread: "@ + r.thread@
        + ", Components: "@ + r.components@ + ", Member Info: "@ + r.member@
}

/// The report shows the edit timestamp of an edited message right after
/// `Edited Timestamp: `, where the report of the same message unedited shows
/// `Not edited`; nothing else in the two reports differs.
pub proof fn law_report_shows_edit(r: MessageReport, unedited: MessageReport, t: String)
    requires
        r.edited == Some(t),
        unedited == (MessageReport { edited: None, ..r }),
    ensures
        report_text(r) == report_head(r) + t@ + report_tail(r),
        report_text(unedited) == report_head(r) + "Not edited"@ + report_tail(r),
        report_head(r).len() >= 18,
        report_head(r).skip(report_head(r).len() - 18) == "Edited Timestamp: "@,
        report_tail(r).take(7) == ", TTS: "@,
{
    reveal_strlit("Edited Timestamp: ");
    reveal_strlit("`\nEdited Timestamp: ");
    reveal_strlit(", TTS: ");
    let h = report_head(r);
    let pre = "Author: "@ + r.author@ + ", Message ID: "@ + decimal(r.message_id as nat)
        + ", \n        Channel ID: "@ + decimal(r.channel_id as nat) + " \n, Timestamp: "@
        + r.timestamp@ + ".\nContent: `"@ + r.content@;
    assert(h == pre + "`\nEdited Timestamp: "@);
    assert(h.skip(h.len() - 18) =~= "Edited Timestamp: "@);
    assert(report_head(unedited) == h);
    assert(report_tail(unedited) == report_tail(r));
    let tl = report_tail(r);
    assert(tl.take(7) =~= ", TTS: "@);
}

fn push_bool(out: &mut Vec<char>, b: bool)
    ensures
        final(out)@ == old(out)@ + bool_text(b),
{
    if b {
        push_str(out, "true");
    } else {
        push_str(out, "false");
    }
}

/// The report about a message that is shown in the information panel and
/// sent for `!user_info`.
pub fn yap_about_user(r: &MessageReport) -> (s: String)
    ensures
        s@ == report_text(*r),
{
    let mut out: Vec<char> = Vec::new();
    push_str(&mut out, "Author: ");
    push_str(&mut out, r.author.as_str());
    push_str(&mut out, ", Message ID: ");
    push_decimal(&mut out, r.message_id);
    push_str(&mut out, ", \n        Channel ID: ");
    push_decimal(&mut out, r.channel_id);
    push_str(&mut out, " \n, Timestamp: ");
    push_str(&mut out, r.timestamp.as_str());
    push_str(&mut out, ".\nContent: `");
    push_str(&mut out, r.content.as_str());
    push_str(&mut out, "`\nEdited Timestamp: ");
    assert(out@ =~= report_head(*r));
    match &r.edited {
        Some(e) => push_str(&mut out, e.as_str()),
        None => push_str(&mut out, "Not edited"),
    }
    assert(out@ =~= report_head(*r) + edited_text(r.edited));
    let mut tail: Vec<char> = Vec::new();
    push_str(&mut tail, ", TTS: ");
    push_bool(&mut tail, r.tts);
    push_str(&mut tail, ", Mentions Everyone: ");
    push_bool(&mut tail, r.mention_everyone);
    push_str(&mut tail, "\n, Mentions: ");
    push_str(&mut tail, r.mentions.as_str());
    push_str(&mut tail, ", Mentioned Roles: ");
    push_str(&mut tail, r.mention_roles.as_str());
    push_str(&mut tail, ", Mentioned Channels: ");
    push_str(&mut tail, r.mention_channels.as_str());
    push_str(&mut tail, ", Attachments: ");
    push_str(&mut tail, r.attachments.as_str());
    push_str(&mut tail, "\n, Embeds: ");
    push_str(&mut tail, r.embeds.as_str());
    push_str(&mut tail, ", Reactions: ");
    push_str(&mut tail, r.reactions.as_str());
    push_str(&mut tail, "\n, Pinned: ");
    push_bool(&mut tail, r.pinned);
    push_str(&mut tail, ", Webhook: ");
    push_str(&mut tail, r.webhook.as_str());
    push_str(&mut tail, ", Message Kind: ");
    push_str(&mut tail, r.kind.as_str());
    push_str(&mut tail, ", Activity: ");
    push_str(&mut tail, r.activity.as_str());
    push_str(&mut tail, "\n, Application: ");
    push_str(&mut tail, r.application.as_str());
    push_str(&mut tail, ", Application ID: ");
    push_str(&mut tail, r.application_id.as_str());
    push_str(&mut tail, ", Referenced Message: ");
    push_str(&mut tail, r.referenced_message.as_str());
    push_str(&mut tail, ", Interaction\n: ");
    push_str(&mut tail, r.interaction.as_str());
    push_str(&mut tail, ", Thread: ");
    push_str(&mut tail, r.thread.as_str());
    push_str(&mut tail, ", Components: ");
    push_str(&mut tail, r.components.as_str());
    push_str(&mut tail, ", Member Info: ");
    push_str(&mut tail, r.member.as_str());
    assert(tail@ =~= report_tail(*r));
    out.extend_from_slice(tail.as_slice());
    string_of(&out)
}

} // verus!
