use laya_snake::http::{content_length, ends_head, request_line, route, sent_moves_start, status_word, Route, MOVES_SENT};

#[test]
fn request_lines_give_method_and_target() {
    assert_eq!(request_line("GET /api/state HTTP/1.1\r\n"), ("GET".to_string(), "/api/state".to_string()));
    assert_eq!(request_line("  POST\t/api/cmd/pause  "), ("POST".to_string(), "/api/cmd/pause".to_string()));
    assert_eq!(request_line("GET"), ("GET".to_string(), "/".to_string()));
    assert_eq!(request_line(""), (String::new(), "/".to_string()));
}

#[test]
fn only_content_length_counts() {
    assert_eq!(content_length("Content-Length: 12\r\n"), Some(12));
    assert_eq!(content_length("content-LENGTH:7"), Some(7));
    assert_eq!(content_length("Content-Length: 99999\r\n"), Some(4096));
    assert_eq!(content_length("Content-Length: lots\r\n"), Some(0));
    assert_eq!(content_length("Content-Type: text/plain\r\n"), None);
    assert_eq!(content_length("no colon here"), None);
    assert!(ends_head("\r\n"));
    assert!(ends_head("\n"));
    assert!(!ends_head("Host: x\r\n"));
}

#[test]
fn requests_are_routed() {
    assert_eq!(route("GET", "/"), Route::Page);
    assert_eq!(route("GET", "/index.html?x=1"), Route::Page);
    assert_eq!(route("GET", "/api/state"), Route::State);
    assert_eq!(route("GET", "/api/events"), Route::Events);
    assert_eq!(route("POST", "/api/cmd/speed/3?now"), Route::Command("speed/3".to_string()));
    assert_eq!(route("GET", "/api/cmd/pause"), Route::NotFound);
    assert_eq!(route("GET", "/favicon.ico"), Route::Icon);
    assert_eq!(route("DELETE", "/"), Route::NotFound);
}

#[test]
fn dashboard_status_and_move_window() {
    assert_eq!(status_word(true, true), "paused");
    assert_eq!(status_word(false, true), "over");
    assert_eq!(status_word(false, false), "live");
    assert_eq!(MOVES_SENT, 160);
    assert_eq!(sent_moves_start(20), 0);
    assert_eq!(sent_moves_start(160), 0);
    assert_eq!(sent_moves_start(500), 340);
}
