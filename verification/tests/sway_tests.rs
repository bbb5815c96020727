use quiet::ipc::sway::{
    fallback_focus_target, find_best_matching_container, frame_ipc_message, is_i3_socket_name, is_sway_socket_name,
    is_urgent_event, parse_ipc_header,
    score_sway_container, needs_tree_search, urgency_window_ns, FocusTargetHints, IpcError, SwayNode, SwayWindowProperties, IPC_MAGIC,
};

#[test]
fn test_ipc_magic() {
    assert_eq!(&IPC_MAGIC, b"i3-ipc");
}

#[test]
fn test_score_sway_container_whatsapp_chrome() {
    let hints = FocusTargetHints {
        app_name: "WhatsApp".into(),
        summary: "Mom".into(),
        body: "Dinner on Sunday?".into(),
    };

    let score1 = score_sway_container(
        Some("(2) WhatsApp - Mom - Google Chrome"),
        Some("google-chrome"),
        Some("Google-chrome"),
        &hints,
    );
    assert!(score1 >= 200);

    let score2 = score_sway_container(
        Some("WhatsApp - Google Chrome"),
        Some("google-chrome"),
        Some("Google-chrome"),
        &hints,
    );
    assert!(score2 >= 100 && score2 < score1);

    let score3 = score_sway_container(
        Some("quiet PR #42 - GitHub - Google Chrome"),
        Some("google-chrome"),
        Some("Google-chrome"),
        &hints,
    );
    assert_eq!(score3, 0);

    let score4 = score_sway_container(Some("zsh"), Some("Alacritty"), Some("Alacritty"), &hints);
    assert_eq!(score4, 0);
}

#[test]
fn test_score_sway_container_native_app() {
    let hints = FocusTargetHints {
        app_name: "Spotify".into(),
        summary: "Daft Punk".into(),
        body: "Get Lucky".into(),
    };

    let score = score_sway_container(Some("Spotify Free"), Some("spotify"), Some("Spotify"), &hints);
    assert!(score >= 100);
}

#[test]
fn exact_scores_of_each_rule() {
    let hints = FocusTargetHints { app_name: "WhatsApp".into(), summary: "Mom".into(), body: "".into() };
    // title holds summary (100) and app (40), browser title holds app (60)
    assert_eq!(
        score_sway_container(Some("WhatsApp - Mom"), Some("google-chrome"), None, &hints),
        200
    );
    // app id equal to app name, case aside
    assert_eq!(score_sway_container(None, Some("whatsapp"), None, &hints), 60);
    // app id holds the app name
    assert_eq!(score_sway_container(None, Some("whatsapp-desktop"), None, &hints), 50);
    // app name holds the app id
    assert_eq!(score_sway_container(None, Some("whats"), None, &hints), 40);
    let empty = FocusTargetHints { app_name: "".into(), summary: "".into(), body: "".into() };
    assert_eq!(score_sway_container(Some("anything"), Some("x"), Some("y"), &empty), 0);
}

fn window(id: i64, name: &str, app_id: &str) -> SwayNode {
    SwayNode {
        id,
        name: Some(name.into()),
        node_type: Some("con".into()),
        app_id: Some(app_id.into()),
        window_properties: None,
        nodes: vec![],
        floating_nodes: vec![],
    }
}

#[test]
fn best_container_is_found_in_nested_and_floating_nodes() {
    let hints = FocusTargetHints { app_name: "Spotify".into(), summary: "Song".into(), body: "".into() };
    let root = SwayNode {
        id: 1,
        name: Some("root".into()),
        node_type: Some("root".into()),
        app_id: None,
        window_properties: None,
        nodes: vec![SwayNode {
            id: 2,
            name: None,
            node_type: Some("workspace".into()),
            app_id: None,
            window_properties: None,
            nodes: vec![window(10, "zsh", "Alacritty"), window(11, "Spotify", "spotify")],
            floating_nodes: vec![],
        }],
        floating_nodes: vec![SwayNode {
            id: 12,
            name: None,
            node_type: Some("floating_con".into()),
            app_id: None,
            window_properties: Some(SwayWindowProperties { class: Some("Spotify".into()), title: Some("Song - Spotify".into()) }),
            nodes: vec![],
            floating_nodes: vec![],
        }],
    };
    // 11: app id equal (60) + title holds app (40) = 100; 12: class equal (60) + title holds
    // summary (100) + title holds app (40) = 200
    assert_eq!(find_best_matching_container(&root, &hints), (12, 200));
    assert_eq!(fallback_focus_target(&root, &hints), Some(12));
    let none = FocusTargetHints { app_name: "".into(), summary: "".into(), body: "".into() };
    assert_eq!(fallback_focus_target(&root, &none), None);
}

#[test]
fn ipc_frames_round_trip() {
    let framed = frame_ipc_message(4, b"abc");
    assert_eq!(&framed[0..6], b"i3-ipc");
    assert_eq!(&framed[6..10], &3u32.to_le_bytes());
    assert_eq!(&framed[10..14], &4u32.to_le_bytes());
    assert_eq!(&framed[14..], b"abc");
    let mut header = [0u8; 14];
    header.copy_from_slice(&framed[0..14]);
    assert_eq!(parse_ipc_header(&header), Ok((4, 3)));
}

#[test]
fn ipc_header_errors() {
    let mut header = [0u8; 14];
    header[0..6].copy_from_slice(b"i3-ipx");
    assert_eq!(parse_ipc_header(&header), Err(IpcError::BadMagic));
    header[0..6].copy_from_slice(b"i3-ipc");
    header[6..10].copy_from_slice(&(16 * 1024 * 1024 + 1u32).to_le_bytes());
    assert_eq!(parse_ipc_header(&header), Err(IpcError::TooLarge));
    header[6..10].copy_from_slice(&(16 * 1024 * 1024u32).to_le_bytes());
    assert_eq!(parse_ipc_header(&header), Ok((0, 16 * 1024 * 1024)));
}

#[test]
fn urgent_events_are_recognised() {
    let ev = 0x8000_0000u32 | 3;
    assert!(is_urgent_event(ev, br#"{"change":"urgent","container":{}}"#));
    assert!(is_urgent_event(ev, br#"{"container":{"urgent":true}}"#));
    assert!(!is_urgent_event(ev, br#"{"container":{"urgent":false}}"#));
    assert!(!is_urgent_event(3, br#"{"change":"urgent"}"#));
}

#[test]
fn socket_names_of_sway_and_i3() {
    assert!(is_sway_socket_name("sway-ipc.1000.1234.sock"));
    assert!(is_sway_socket_name("sway-1.sock"));
    assert!(!is_sway_socket_name("sway-ipc.1000.1234"));
    assert!(!is_sway_socket_name("wayland-1.sock"));
    assert!(!is_sway_socket_name("sway.sock"));
    assert!(is_i3_socket_name("ipc-socket.4242"));
    assert!(!is_i3_socket_name("i3-ipc-socket"));
}

#[test]
fn score_ignores_the_body_and_stays_in_range() {
    let a = FocusTargetHints { app_name: "Chrome".into(), summary: "Mom".into(), body: "one".into() };
    let b = FocusTargetHints { app_name: "Chrome".into(), summary: "Mom".into(), body: "other text".into() };
    let sa = score_sway_container(Some("Mom - Chrome"), Some("google-chrome"), Some("Google-chrome"), &a);
    let sb = score_sway_container(Some("Mom - Chrome"), Some("google-chrome"), Some("Google-chrome"), &b);
    assert_eq!(sa, sb);
    assert_eq!(sa, 100 + 50 + 40 + 60);
    assert!(sa <= 260);
}

#[test]
fn score_ignores_ascii_case() {
    let a = FocusTargetHints { app_name: "WhatsApp".into(), summary: "Mom".into(), body: "".into() };
    let b = FocusTargetHints { app_name: "WHATSAPP".into(), summary: "mOM".into(), body: "".into() };
    let sa = score_sway_container(Some("Mom | WhatsApp - Google Chrome"), Some("google-chrome"), None, &a);
    let sb = score_sway_container(Some("MOM | whatsapp - GOOGLE CHROME"), Some("Google-Chrome"), None, &b);
    assert_eq!(sa, sb);
    assert!(sa > 0);
    let empty = FocusTargetHints { app_name: "".into(), summary: "".into(), body: "anything".into() };
    assert_eq!(score_sway_container(Some("Anything"), Some("any"), Some("Any"), &empty), 0);
}

#[test]
fn urgency_window_is_at_most_75_ms() {
    assert_eq!(urgency_window_ns(10_000_000), 10_000_000);
    assert_eq!(urgency_window_ns(75_000_000), 75_000_000);
    assert_eq!(urgency_window_ns(5_000_000_000), 75_000_000);
}

#[test]
fn tree_search_only_without_urgent_focus_and_with_hints() {
    let named = FocusTargetHints { app_name: "Slack".into(), summary: "".into(), body: "".into() };
    let blank = FocusTargetHints { app_name: "".into(), summary: "".into(), body: "b".into() };
    assert!(needs_tree_search(false, &named));
    assert!(!needs_tree_search(true, &named));
    assert!(!needs_tree_search(false, &blank));
}
