use leaf::download::{download, progress_message, Transfer, TransferOutcome, LOW_SPEED_LIMIT, LOW_SPEED_TIME};
use leaf::error::{LError, LErrorClass};
use leaf::pbar::Template;

#[test]
fn status_2xx_is_success() {
    let t = Transfer::new();
    assert_eq!(download(&t, &TransferOutcome::Completed { code: 200 }).unwrap(), 200);
    assert_eq!(download(&t, &TransferOutcome::Completed { code: 204 }).unwrap(), 204);
    assert_eq!(download(&t, &TransferOutcome::Completed { code: 299 }).unwrap(), 299);
}

#[test]
fn other_status_is_not_2xx() {
    let t = Transfer::new();
    for code in [0u32, 199, 300, 404, 500] {
        let e = download(&t, &TransferOutcome::Completed { code }).unwrap_err();
        assert_eq!(e.class, LErrorClass::CURLHttpNot2xx);
        assert_eq!(e.messages, vec![format!("Expected 2xx, got {}", code)]);
    }
}

#[test]
fn write_error_is_unknown_unless_the_process_was_stopped() {
    let mut t = Transfer::new();
    let e = download(&t, &TransferOutcome::WriteError).unwrap_err();
    assert_eq!(e.class, LErrorClass::Unknown);
    assert!(e.messages.is_empty());
    assert_eq!(t.before_chunk(true, 10), None);
    assert_eq!(t.reason, LErrorClass::Unknown);
    assert_eq!(t.before_chunk(false, 10), Some(9));
    let e = download(&t, &TransferOutcome::WriteError).unwrap_err();
    assert_eq!(e.class, LErrorClass::Abort);
}

#[test]
fn transport_failures_are_curl_errors() {
    let t = Transfer::new();
    let outcome = TransferOutcome::Failed { description: "Couldn't connect".to_string(), extra: Some("refused".to_string()) };
    let e = download(&t, &outcome).unwrap_err();
    assert_eq!(e.class, LErrorClass::CURL);
    assert_eq!(e.messages, vec!["Couldn't connect (refused)".to_string()]);
    let outcome = TransferOutcome::Failed { description: "Timeout".to_string(), extra: None };
    let e = download(&t, &outcome).unwrap_err();
    assert_eq!(e.messages, vec!["Timeout ()".to_string()]);
    let e = LError::from_curl("a", Some("b"));
    assert_eq!(e.messages, vec!["a (b)".to_string()]);
}

#[test]
fn chunks_are_taken_whole_or_refused() {
    assert_eq!(Transfer::after_chunk(100, true), 100);
    assert_eq!(Transfer::after_chunk(100, false), 99);
    assert_eq!(Transfer::after_chunk(0, true), 0);
    assert_ne!(Transfer::after_chunk(0, false), 0);
    assert_eq!(Transfer::refuse(1), 0);
    assert_ne!(Transfer::refuse(0), 0);
    let mut t = Transfer::new();
    assert_ne!(t.before_chunk(false, 0), Some(0));
}

#[test]
fn low_speed_bounds() {
    assert_eq!(LOW_SPEED_LIMIT, 1000);
    assert_eq!(LOW_SPEED_TIME, 30);
}

#[test]
fn progress_line_shows_received_and_total() {
    assert_eq!(progress_message(0, 0), "0 B / 0 B");
    assert_eq!(progress_message(1024, 2048), "1.00 KiB / 2.00 KiB");
    assert_eq!(progress_message(1536, 1048576), "1.50 KiB / 1.00 MiB");
}

#[test]
fn download_bar_layout() {
    assert_eq!(
        Template::Download.pattern(),
        "{prefix:<60} [{elapsed_precise}] [{msg:>23.yellow}] [{percent:>3.green}%] [{wide_bar}] "
    );
    assert_eq!(Template::Download.progress_chars(), "##-");
}
