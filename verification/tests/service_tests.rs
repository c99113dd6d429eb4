use talkcody::feishu::{
    build_attachment_filename, chat_kind, is_open_id_allowed, parse_text_content, sender_kind,
    FeishuChatKind, FeishuSenderKind,
};
use talkcody::title::{language_instruction, TaskTitleService};

#[test]
fn open_id_allowlist_allows_when_empty() {
    assert!(is_open_id_allowed(&[], "ou_test"));
}

#[test]
fn open_id_allowlist_blocks_when_missing() {
    let allowed = vec!["ou_allowed".to_string()];
    assert!(!is_open_id_allowed(&allowed, "ou_other"));
}

#[test]
fn open_id_allowlist_admits_listed_id() {
    let allowed = vec!["ou_a".to_string(), "ou_b".to_string()];
    assert!(is_open_id_allowed(&allowed, "ou_b"));
}

#[test]
fn sender_kind_filters_non_user() {
    assert_eq!(sender_kind("user"), FeishuSenderKind::User);
    assert_eq!(sender_kind("app"), FeishuSenderKind::Other);
}

#[test]
fn chat_kind_filters_non_p2p() {
    assert_eq!(chat_kind("p2p"), FeishuChatKind::P2p);
    assert_eq!(chat_kind("group"), FeishuChatKind::Other);
}

#[test]
fn attachment_filename_replaces_slashes() {
    assert_eq!(
        build_attachment_filename("feishu", Some("dir/report.pdf"), "123"),
        "dir_report.pdf"
    );
}

#[test]
fn attachment_filename_falls_back_to_prefix_and_suffix() {
    assert_eq!(build_attachment_filename("feishu", None, "123"), "feishu-123.bin");
}

#[test]
fn text_content_reads_json_text_field() {
    assert_eq!(parse_text_content("{\"text\":\"hello\"}"), "hello");
    assert_eq!(parse_text_content("plain words"), "plain words");
}

#[test]
fn build_prompt_includes_user_input() {
    let service = TaskTitleService::new();
    let prompt = service.build_prompt(
        "How do I use React hooks?",
        "Generate the title in English.",
    );

    assert!(prompt.contains("How do I use React hooks?"));
    assert!(prompt.contains("User's message"));
}

#[test]
fn build_prompt_contains_guidelines() {
    let service = TaskTitleService::new();
    let prompt = service.build_prompt("test", "Generate the title in English.");

    assert!(prompt.contains("5-10 words maximum"));
    assert!(prompt.contains("title case"));
    assert!(prompt.contains("specific and descriptive"));
}

#[test]
fn build_prompt_contains_examples() {
    let service = TaskTitleService::new();
    let prompt = service.build_prompt("test", "Generate the title in English.");

    assert!(prompt.contains("Fix Login Bug"));
    assert!(prompt.contains("Create User Dashboard"));
    assert!(prompt.contains("Explain React Hooks"));
}

#[test]
fn build_prompt_uses_english_instruction() {
    let service = TaskTitleService::new();
    let prompt = service.build_prompt("test", "Generate the title in English.");

    assert!(prompt.contains("Generate the title in English."));
}

#[test]
fn build_prompt_uses_chinese_instruction() {
    let service = TaskTitleService::new();
    let prompt = service.build_prompt("test", "Generate the title in Chinese.");

    assert!(prompt.contains("Generate the title in Chinese."));
}

#[test]
fn preferred_model_type_returns_small() {
    assert_eq!(TaskTitleService::preferred_model_type(), "small");
}

#[test]
fn language_instruction_picks_by_mark() {
    assert_eq!(language_instruction("zh"), "Generate the title in Chinese.");
    assert_eq!(language_instruction("en"), "Generate the title in English.");
    assert_eq!(language_instruction("fr"), "Generate the title in English.");
}

#[test]
fn post_process_title_takes_first_line_and_strips_quotes() {
    let service = TaskTitleService::new();
    assert_eq!(service.post_process_title("  \"Fix Login Bug\"  \nmore"), "Fix Login Bug");
    assert_eq!(service.post_process_title("   "), "");
    assert_eq!(service.post_process_title("\u{201c}Quoted\u{201d}"), "Quoted");
}
