use owo_bot::terminal::{record_input, split_bottom, visible_start, yap_about_user, Area, InputLine, KeyInput, MessageReport};

#[test]
fn typing_editing_and_submitting() {
    let mut line = InputLine::new();
    assert!(!line.apply_key(KeyInput::Enter));
    assert!(!line.apply_key(KeyInput::Char('h')));
    assert!(!line.apply_key(KeyInput::Char('i')));
    assert!(!line.apply_key(KeyInput::Char('x')));
    assert!(!line.apply_key(KeyInput::Backspace));
    assert!(!line.apply_key(KeyInput::Other));
    assert_eq!(line.text(), "hi");
    assert_eq!(line.display(), "hi█");
    assert!(line.apply_key(KeyInput::Enter));
    assert_eq!(line.text(), "hi");
}

#[test]
fn backspace_on_empty_line() {
    let mut line = InputLine::new();
    assert!(!line.apply_key(KeyInput::Backspace));
    assert_eq!(line.text(), "");
}

#[test]
fn backspace_undoes_typing() {
    let mut line = InputLine::new();
    line.apply_key(KeyInput::Char('a'));
    let before = line.text();
    line.apply_key(KeyInput::Char('z'));
    line.apply_key(KeyInput::Backspace);
    assert_eq!(line.text(), before);
}

#[test]
fn tail_of_messages_that_fits() {
    assert_eq!(visible_start(10, 4), 7);
    assert_eq!(visible_start(2, 4), 0);
    assert_eq!(visible_start(5, 1), 5);
}

#[test]
fn bottom_panels() {
    let (input, info) = split_bottom(Area { x: 3, y: 20, width: 81, height: 9 });
    assert_eq!(input, Area { x: 0, y: 20, width: 40, height: 9 });
    assert_eq!(info, Area { x: 40, y: 20, width: 40, height: 9 });
}

#[test]
fn input_replaces_prompt() {
    let mut log = vec!["a".to_string(), "Enter message".to_string()];
    record_input(&mut log, "hello");
    assert_eq!(log, vec!["a".to_string(), "hello\n".to_string()]);
    let mut empty: Vec<String> = vec![];
    record_input(&mut empty, "x");
    assert_eq!(empty, vec!["x\n".to_string()]);
}

#[test]
fn report_text() {
    let r = MessageReport {
        author: "ann".to_string(),
        message_id: 1,
        channel_id: 2,
        timestamp: "T".to_string(),
        content: "hi".to_string(),
        edited: None,
        tts: false,
        mention_everyone: true,
        mentions: "[]".to_string(),
        mention_roles: "[]".to_string(),
        mention_channels: "[]".to_string(),
        attachments: "[]".to_string(),
        embeds: "[]".to_string(),
        reactions: "[]".to_string(),
        pinned: false,
        webhook: "None".to_string(),
        kind: "Regular".to_string(),
        activity: "None".to_string(),
        application: "None".to_string(),
        application_id: "None".to_string(),
        referenced_message: "None".to_string(),
        interaction: "None".to_string(),
        thread: "None".to_string(),
        components: "[]".to_string(),
        member: "None".to_string(),
    };
    let expected = format!(
        "Author: {}, Message ID: {}, 
        Channel ID: {} \n, Timestamp: {}.\nContent: `{}`\n\
        Edited Timestamp: {}, TTS: {}, Mentions Everyone: {}\n, Mentions: {}, \
        Mentioned Roles: {}, Mentioned Channels: {}, Attachments: {}\n, \
        Embeds: {}, Reactions: {}\n, Pinned: {}, Webhook: {}, Message Kind: {}, \
        Activity: {}\n, Application: {}, Application ID: {}, \
        Referenced Message: {}, Interaction\n: {}, Thread: {}, Components: {}, \
        Member Info: {}",
        "ann", 1, 2, "T", "hi", "Not edited", false, true, "[]", "[]", "[]", "[]", "[]", "[]", false,
        "None", "Regular", "None", "None", "None", "None", "None", "None", "[]", "None"
    );
    assert_eq!(yap_about_user(&r), expected);
}
