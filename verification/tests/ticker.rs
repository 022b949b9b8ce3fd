use price::ticker::{
    after_connect_attempt, after_read, frame_to_draw, is_success_status, parse_interval_secs,
    synced_epoch, timestamp_label, AppState, BodyRead, WifiStep, WIFI_RETRY_DELAY_MS,
};

fn price(display: &str, updated_at: Option<i64>) -> AppState {
    AppState::Price { display: display.to_string(), updated_at }
}

#[test]
fn first_frames_are_drawn() {
    assert_eq!(frame_to_draw(&AppState::Waiting, &None), Some(AppState::Waiting));
    assert_eq!(frame_to_draw(&AppState::Error, &None), Some(AppState::Error));
    let p = price("$67,432", Some(1_790_021_160));
    assert_eq!(frame_to_draw(&p, &None), Some(p.clone()));
}

#[test]
fn unchanged_content_is_not_redrawn() {
    let p = price("$67,432", Some(1_790_021_160));
    assert_eq!(frame_to_draw(&p, &Some(p.clone())), None);
    assert_eq!(frame_to_draw(&AppState::Waiting, &Some(AppState::Waiting)), None);
    assert_eq!(frame_to_draw(&AppState::Error, &Some(AppState::Error)), None);
}

#[test]
fn changed_price_or_time_is_redrawn() {
    let old = price("$67,432", Some(1_790_021_160));
    let new_price = price("$67,433", Some(1_790_021_160));
    let new_time = price("$67,432", Some(1_790_021_220));
    let unsynced = price("$67,432", None);
    assert_eq!(frame_to_draw(&new_price, &Some(old.clone())), Some(new_price.clone()));
    assert_eq!(frame_to_draw(&new_time, &Some(old.clone())), Some(new_time.clone()));
    assert_eq!(frame_to_draw(&unsynced, &Some(old.clone())), Some(unsynced.clone()));
}

#[test]
fn failed_fetch_keeps_a_known_price() {
    let p = price("$67,432", None);
    assert_eq!(frame_to_draw(&AppState::Error, &Some(p)), None);
    assert_eq!(
        frame_to_draw(&AppState::Error, &Some(AppState::Waiting)),
        Some(AppState::Error)
    );
}

#[test]
fn state_after_a_fetch() {
    assert_eq!(
        AppState::after_fetch(Some("$1".to_string()), Some(7)),
        price("$1", Some(7))
    );
    assert_eq!(AppState::after_fetch(None, Some(7)), AppState::Error);
}

#[test]
fn labels_of_the_update_time() {
    assert_eq!(timestamp_label(Some(1_790_021_160), -21_600), "21-Sep-2026 14:06");
    assert_eq!(timestamp_label(Some(0), -21_600), "31-Dec-1969 18:00");
    assert_eq!(timestamp_label(None, 19_800), "--");
}

#[test]
fn clock_counts_as_synced_only_after_2020() {
    assert_eq!(synced_epoch(1_600_000_001), Some(1_600_000_001));
    assert_eq!(synced_epoch(1_600_000_000), None);
    assert_eq!(synced_epoch(12), None);
}

#[test]
fn http_statuses() {
    assert!(is_success_status(200));
    assert!(is_success_status(299));
    assert!(!is_success_status(199));
    assert!(!is_success_status(300));
    assert!(!is_success_status(404));
}

#[test]
fn body_reading_stops_past_the_limit() {
    assert_eq!(after_read(100, 0), BodyRead::Complete);
    assert_eq!(after_read(3_584, 512), BodyRead::More);
    assert_eq!(after_read(3_585, 512), BodyRead::TooLarge);
    assert_eq!(after_read(0, usize::MAX), BodyRead::TooLarge);
}

#[test]
fn interval_configuration() {
    assert_eq!(parse_interval_secs("60"), Some(60));
    assert_eq!(parse_interval_secs("+10"), Some(10));
    assert_eq!(parse_interval_secs("0"), Some(0));
    assert_eq!(parse_interval_secs("18446744073709551615"), Some(u64::MAX));
    for bad in ["", "+", "-1", " 60", "60s", "18446744073709551616", "١٠"] {
        assert_eq!(parse_interval_secs(bad), None, "{bad:?}");
    }
}

/// Feeds reads of `sizes` bytes through `after_read` as the fetch loop does.
fn read_all(sizes: &[usize]) -> Result<usize, &'static str> {
    let mut len = 0;
    for &n in sizes {
        match after_read(len, n) {
            BodyRead::Complete => return Ok(len),
            BodyRead::TooLarge => return Err("too large"),
            BodyRead::More => len += n,
        }
    }
    Err("unfinished")
}

#[test]
fn whole_response_is_too_large_exactly_past_the_limit() {
    assert_eq!(read_all(&[512; 8].iter().copied().chain([0]).collect::<Vec<_>>()), Ok(4096));
    assert_eq!(read_all(&[512, 512, 512, 512, 512, 512, 512, 513, 0]), Err("too large"));
    assert_eq!(read_all(&[4096, 0]), Ok(4096));
    assert_eq!(read_all(&[4097, 0]), Err("too large"));
    assert_eq!(read_all(&[0, 5000]), Ok(0));
    assert_eq!(read_all(&[10, 20]), Err("unfinished"));
}

#[test]
fn wifi_attempts_retry_until_connected() {
    assert_eq!(after_connect_attempt(true), WifiStep::Connected);
    assert_eq!(after_connect_attempt(false), WifiStep::RetryAfterMs(WIFI_RETRY_DELAY_MS));
    assert_eq!(WIFI_RETRY_DELAY_MS, 5000);
}
