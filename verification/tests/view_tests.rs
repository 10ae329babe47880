use chat_core::codec::ChatMessage;
use chat_core::session::SessionState;
use chat_core::view::avatar_url;
use chat_core::view::classify;
use chat_core::view::project_log;
use chat_core::view::project_message;
use chat_core::view::RowKind;

fn msg(sender: &str, text: &str) -> ChatMessage {
    ChatMessage { sender: sender.to_string(), text: text.to_string() }
}

#[test]
fn avatar_url_is_templated_and_stable() {
    let expected = "https://avatars.dicebear.com/api/adventurer-neutral/alice.svg";
    assert_eq!(avatar_url("alice"), expected);
    assert_eq!(avatar_url("alice"), avatar_url("alice"));
}

#[test]
fn classify_media_suffix() {
    assert_eq!(classify("party.gif"), RowKind::Media);
    assert_eq!(classify("party.gifx"), RowKind::Text);
}

#[test]
fn classify_edge_cases() {
    assert_eq!(classify(""), RowKind::Text);
    assert_eq!(classify(".gif"), RowKind::Media);
    assert_eq!(classify("gif"), RowKind::Text);
    assert_eq!(classify("a.gif.txt"), RowKind::Text);
}

#[test]
fn project_uses_roster_avatar() {
    let (mut st, _) = SessionState::start("alice");
    st.apply_frame("{\"messageType\":\"users\",\"dataArray\":[\"bob\"]}").unwrap();
    let row = project_message(&st.roster, &msg("bob", "hi"));
    assert_eq!(row.sender, "bob");
    assert_eq!(row.avatar_url, avatar_url("bob"));
    assert_eq!(row.body, "hi");
    assert_eq!(row.kind, RowKind::Text);
}

#[test]
fn project_unknown_sender_gets_fallback_avatar() {
    let roster = Vec::new();
    let row = project_message(&roster, &msg("stranger", "cat.gif"));
    assert_eq!(row.sender, "stranger");
    assert_eq!(row.avatar_url, avatar_url("stranger"));
    assert_eq!(row.kind, RowKind::Media);
}

#[test]
fn project_log_keeps_order() {
    let roster = Vec::new();
    let log = vec![msg("a", "one"), msg("b", "pic.gif"), msg("a", "three")];
    let rows = project_log(&roster, &log);
    assert_eq!(rows.len(), 3);
    assert_eq!(rows[0].body, "one");
    assert_eq!(rows[0].kind, RowKind::Text);
    assert_eq!(rows[1].body, "pic.gif");
    assert_eq!(rows[1].kind, RowKind::Media);
    assert_eq!(rows[2].sender, "a");
}
