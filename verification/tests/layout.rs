use price::layout::{
    doubled_area, doubled_pixel, frame_ops, logo_black_pixels, logo_pixel_is_black, DrawOp,
    TextStyle,
};
use price::ticker::AppState;

fn text(t: &str, x: i32, y: i32, style: TextStyle) -> DrawOp {
    DrawOp::Text { text: t.to_string(), x, y, style }
}

#[test]
fn waiting_frame() {
    assert_eq!(
        frame_ops(&AppState::Waiting, -21_600),
        vec![
            DrawOp::Clear,
            text("BTC/USD", 107, 30, TextStyle::Body),
            text("Waiting for first price...", 41, 90, TextStyle::Body),
        ]
    );
}

#[test]
fn price_frame() {
    let state = AppState::Price { display: "$67,432".to_string(), updated_at: Some(1_790_021_160) };
    assert_eq!(
        frame_ops(&state, -21_600),
        vec![
            DrawOp::Clear,
            DrawOp::Logo { x: 53, y: 11 },
            text("BTC/USD", 98, 14, TextStyle::Pair),
            DrawOp::DoubledText { text: "$67,432".to_string(), x: 10, y: 29 },
            text("21-Sep-2026 14:06", 125, 157, TextStyle::Body),
        ]
    );
}

#[test]
fn price_frame_before_clock_sync() {
    let state = AppState::Price { display: "$1,000,000,000".to_string(), updated_at: None };
    let ops = frame_ops(&state, 0);
    // 14 characters doubled are wider than the screen: the price starts at the left edge.
    assert_eq!(ops[3], DrawOp::DoubledText { text: "$1,000,000,000".to_string(), x: 0, y: 29 });
    assert_eq!(ops[4], text("--", 230, 157, TextStyle::Body));
}

#[test]
fn error_frame() {
    assert_eq!(
        frame_ops(&AppState::Error, 0),
        vec![
            DrawOp::Clear,
            DrawOp::DoubledText { text: "ERROR".to_string(), x: 26, y: 30 },
            text("API unreachable, retrying...", 34, 130, TextStyle::Body),
        ]
    );
}

#[test]
fn logo_bits_are_read_most_significant_first() {
    let mut bitmap = vec![0u8; 5 * 35];
    bitmap[0] = 0b1000_0001;
    bitmap[5 * 34 + 4] = 0b0010_0000;
    assert!(logo_pixel_is_black(&bitmap, 0, 0));
    assert!(!logo_pixel_is_black(&bitmap, 0, 1));
    assert!(logo_pixel_is_black(&bitmap, 0, 7));
    assert!(logo_pixel_is_black(&bitmap, 34, 34));
    assert!(!logo_pixel_is_black(&bitmap, 34, 33));
}

#[test]
fn doubling() {
    assert_eq!(doubled_pixel(3, -2), [(6, -4), (7, -4), (6, -3), (7, -3)]);
    assert_eq!(doubled_area(-1, 2, 3, 4), (-2, 4, 6, 8));
}

#[test]
fn black_logo_pixels_row_by_row() {
    let mut bitmap = vec![0u8; 5 * 35];
    bitmap[0] = 0b1000_0001;
    bitmap[5 + 4] = 0b0010_0000;
    bitmap[5 * 34 + 4] = 0b0010_0000;
    assert_eq!(
        logo_black_pixels(&bitmap, 10, -3),
        vec![(10, -3), (17, -3), (44, -2), (44, 31)]
    );
    assert_eq!(logo_black_pixels(&vec![0u8; 175], 0, 0), vec![]);
    assert_eq!(logo_black_pixels(&vec![0xffu8; 175], 0, 0).len(), 35 * 35);
}
