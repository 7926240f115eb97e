use edit_files::request::MessageContent;
use edit_files::request::RequestMessage;
use edit_files::request::Role;
use edit_files::request::prepare_request_messages;
use edit_files::request::strip_trailing_tool_use;
use edit_files::tool::EditFilesTool;
use edit_files::tool::EditFilesToolInput;

fn text(s: &str) -> MessageContent {
    MessageContent::Text(s.to_string())
}

#[test]
fn trailing_tool_use_is_removed() {
    let mut messages = vec![
        RequestMessage { role: Role::User, content: vec![text("please edit")], cache: false },
        RequestMessage {
            role: Role::Assistant,
            content: vec![text("on it"), MessageContent::ToolUse("call-1".to_string())],
            cache: false,
        },
    ];
    strip_trailing_tool_use(&mut messages);
    assert_eq!(messages.len(), 2);
    assert_eq!(messages[1].content.len(), 1);
    assert!(matches!(messages[1].content[0], MessageContent::Text(_)));
    assert_eq!(messages[0].content.len(), 1);
}

#[test]
fn answered_tool_use_is_kept() {
    let mut messages = vec![
        RequestMessage {
            role: Role::Assistant,
            content: vec![MessageContent::ToolUse("call-1".to_string())],
            cache: false,
        },
        RequestMessage {
            role: Role::User,
            content: vec![MessageContent::ToolResult("call-1".to_string())],
            cache: false,
        },
    ];
    strip_trailing_tool_use(&mut messages);
    assert_eq!(messages.len(), 2);
    assert_eq!(messages[0].content.len(), 1);
    assert_eq!(messages[1].content.len(), 1);
    assert!(matches!(messages[1].content[0], MessageContent::ToolResult(_)));
}

#[test]
fn conversation_without_tools_is_unchanged() {
    let mut messages = vec![
        RequestMessage { role: Role::System, content: vec![text("rules")], cache: false },
        RequestMessage {
            role: Role::User,
            content: vec![text("hello"), MessageContent::Image],
            cache: false,
        },
    ];
    strip_trailing_tool_use(&mut messages);
    assert_eq!(messages.len(), 2);
    assert_eq!(messages[0].content.len(), 1);
    assert_eq!(messages[1].content.len(), 2);
}

#[test]
fn tool_use_in_an_earlier_message_is_found() {
    let mut messages = vec![
        RequestMessage {
            role: Role::Assistant,
            content: vec![text("working"), MessageContent::ToolUse("call-9".to_string())],
            cache: false,
        },
        RequestMessage { role: Role::Assistant, content: vec![text("notes")], cache: false },
    ];
    strip_trailing_tool_use(&mut messages);
    assert_eq!(messages[0].content.len(), 1);
    assert!(matches!(messages[0].content[0], MessageContent::Text(_)));
    assert_eq!(messages[1].content.len(), 1);
}

#[test]
fn prepared_request_ends_with_the_edit_prompt() {
    let mut messages = vec![RequestMessage {
        role: Role::User,
        content: vec![text("context"), MessageContent::ToolUse("call-2".to_string())],
        cache: false,
    }];
    prepare_request_messages(&mut messages, "Rename foo to bar in a.rs".to_string());
    assert_eq!(messages.len(), 2);
    assert_eq!(messages[0].content.len(), 1);
    let last = &messages[1];
    assert_eq!(last.role, Role::User);
    assert!(!last.cache);
    assert_eq!(last.content.len(), 2);
    match (&last.content[0], &last.content[1]) {
        (MessageContent::Text(prompt), MessageContent::Text(instructions)) => {
            assert!(prompt.contains("<<<<<<< SEARCH"));
            assert!(prompt.contains(">>>>>>> REPLACE"));
            assert!(prompt.contains("<<<<<<< WRITE"));
            assert_eq!(instructions, "Rename foo to bar in a.rs");
        },
        _ => panic!("expected two text pieces"),
    }
}

#[test]
fn tool_presents_itself() {
    let tool = EditFilesTool;
    assert_eq!(tool.name(), "edit-files");
    assert!(tool.description().contains("search/replace"));
    let input = EditFilesToolInput {
        edit_instructions: "Change the greeting in root-1/src/main.rs".to_string(),
        display_description: "Update greeting".to_string(),
    };
    assert_eq!(tool.ui_text(&Some(input)), "Update greeting");
    assert_eq!(tool.ui_text(&None), "Edit files");
}
