use clap_core::{
    handle_filer_message, preview_error, preview_size, read_dir_entries, strip_icon, DisplayPath, FilerAction,
    FilerMessageHandler, FilerResponse, FilerSession, Message, MoveMessage, PathInfo, RpcMessage,
    SessionContext,
};

fn entry(name: &str, is_dir: bool, icon: &str) -> PathInfo {
    PathInfo { file_name: name.to_string(), is_dir, icon: icon.to_string() }
}

fn message(id: u64, cwd: &str) -> Message {
    Message { id, session_id: 1, provider_id: "filer".to_string(), cwd: cwd.to_string() }
}

#[test]
fn test_dir() {
    let entries = read_dir_entries(vec![entry("src", true, ""), entry("Cargo.toml", false, "")], false, None);
    assert_eq!(entries, vec!["Cargo.toml", "src/"]);
}

#[test]
fn listing_is_cut_before_it_is_sorted() {
    let all = vec![entry("c", false, ""), entry("a", false, ""), entry("b", true, "")];
    let entries = read_dir_entries(all, false, Some(2));
    assert_eq!(entries, vec!["a", "c"]);
}

#[test]
fn listing_bound_larger_than_directory_keeps_all() {
    let all = vec![entry("z", false, ""), entry("y", false, "")];
    assert_eq!(read_dir_entries(all, false, Some(5)), vec!["y", "z"]);
    assert_eq!(read_dir_entries(vec![], false, Some(0)), Vec::<String>::new());
    assert_eq!(read_dir_entries(vec![entry("q", false, "")], false, Some(0)), Vec::<String>::new());
}

#[test]
fn listing_with_icons_sorts_decorated_text() {
    let all = vec![entry("lib.rs", false, "B"), entry("docs", true, "A")];
    assert_eq!(read_dir_entries(all, true, None), vec!["A docs/", "B lib.rs"]);
}

#[test]
fn display_path_shows_directories_with_separator() {
    let d = DisplayPath::new(entry("src", true, "I"), false);
    assert_eq!(d.to_display_string(), "src/");
    assert_eq!(d.to_file_name_str(), "src");
    let d = DisplayPath::new(entry("main.rs", false, "I"), true);
    assert_eq!(d.to_display_string(), "I main.rs");
}

#[test]
fn listing_response_counts_entries() {
    let listing = Ok(read_dir_entries(
        vec![entry("c", false, ""), entry("a", false, ""), entry("b", false, "")],
        false,
        Some(2),
    ));
    match handle_filer_message(message(7, "/tmp/x"), listing) {
        FilerResponse::Listing { id, entries, dir, total } => {
            assert_eq!(id, 7);
            assert_eq!(entries, vec!["a", "c"]);
            assert_eq!(dir, "/tmp/x");
            assert_eq!(total, 2);
        }
        FilerResponse::Failure { .. } => panic!("expected a listing"),
    }
}

#[test]
fn failed_listing_reports_directory() {
    let r = handle_filer_message(message(3, "/no/such/dir"), Err("No such file or directory".to_string()));
    match r {
        FilerResponse::Failure { id, message, dir } => {
            assert_eq!(id, 3);
            assert_eq!(dir, "/no/such/dir");
            assert!(!message.is_empty());
        }
        FilerResponse::Listing { .. } => panic!("expected a failure"),
    }
}

#[test]
fn preview_failure_reports_path() {
    match preview_error(4, "/a/b".to_string(), "denied".to_string()) {
        FilerResponse::Failure { id, message, dir } => {
            assert_eq!((id, message.as_str(), dir.as_str()), (4, "denied", "/a/b"));
        }
        FilerResponse::Listing { .. } => panic!("expected a failure"),
    }
}

fn context(size: usize, winheight: usize) -> SessionContext {
    SessionContext {
        provider_id: "filer".to_string(),
        provider_preview_size: size,
        preview_winheight: winheight,
        enable_icon: false,
    }
}

#[test]
fn preview_size_is_the_larger_of_default_and_half_window() {
    assert_eq!(preview_size(&context(5, 30)), 15);
    assert_eq!(preview_size(&context(20, 30)), 20);
    assert_eq!(preview_size(&context(7, 15)), 7);
    assert_eq!(preview_size(&context(0, 0)), 0);
}

#[test]
fn move_asks_for_a_preview() {
    let msg = RpcMessage::OnMove(MoveMessage { id: 9, cwd: "/home".to_string(), curline: "src/".to_string() });
    match FilerMessageHandler.handle(msg, &context(4, 41)) {
        FilerAction::Preview { msg_id, cwd, curline, size } => {
            assert_eq!((msg_id, cwd.as_str(), curline.as_str(), size), (9, "/home", "src/", 20));
        }
        FilerAction::List(_) => panic!("expected a preview"),
    }
}

#[test]
fn typing_and_init_ask_for_a_listing() {
    match FilerMessageHandler.handle(RpcMessage::OnTyped(message(2, "/w")), &context(4, 10)) {
        FilerAction::List(m) => assert_eq!((m.id, m.cwd.as_str()), (2, "/w")),
        FilerAction::Preview { .. } => panic!("expected a listing"),
    }
    match FilerSession.on_init(message(1, "/v")) {
        FilerAction::List(m) => assert_eq!((m.id, m.cwd.as_str()), (1, "/v")),
        FilerAction::Preview { .. } => panic!("expected a listing"),
    }
}

#[test]
fn strip_icon_removes_glyph_and_space() {
    assert_eq!(strip_icon("\u{f115} src/", true), "src/");
    assert_eq!(strip_icon("src/", false), "src/");
    assert_eq!(strip_icon("a", true), "a");
    let shown = DisplayPath::new(entry("lib.rs", false, "\u{f15b}"), true).to_display_string();
    assert_eq!(strip_icon(&shown, true), "lib.rs");
}

#[test]
fn move_with_icons_previews_the_entry_itself() {
    let mut ctx = context(3, 10);
    ctx.enable_icon = true;
    let msg = RpcMessage::OnMove(MoveMessage { id: 5, cwd: "/r".to_string(), curline: "X docs/".to_string() });
    match FilerMessageHandler.handle(msg, &ctx) {
        FilerAction::Preview { curline, size, .. } => assert_eq!((curline.as_str(), size), ("docs/", 5)),
        FilerAction::List(_) => panic!("expected a preview"),
    }
}
