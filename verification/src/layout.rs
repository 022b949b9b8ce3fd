//! The ticker frame: where each element of a state goes on the 264x176 landscape panel.
use vstd::prelude::*;
use vstd::utf8::{encode_utf8, is_ascii_chars, is_ascii_chars_encode_utf8};

use crate::ticker::{timestamp_label, AppState, AppStateView};
use crate::timestamp::{lemma_timestamp_text_ascii, timestamp_text};

verus! {

/// Logical (rotated) display width in pixels: 264x176 landscape.
pub const LOGICAL_WIDTH: i32 = 264;

/// Ticker frame height; the frame has three equal-height rows.
pub const FRAME_HEIGHT: i32 = 176;

/// Height of one of the three rows: a third of `FRAME_HEIGHT`.
pub const ROW_HEIGHT: i32 = 58;

/// Gap between the logo and the pair label.
pub const LOGO_LABEL_GAP: i32 = 10;

/// Distance of the timestamp from the bottom edge.
pub const BOTTOM_INSET: i32 = 4;

/// The timestamp is inset further so the last digit never clips.
pub const TIMESTAMP_RIGHT_INSET: i32 = 20;

/// Pair label shown next to the logo (row 1) and on the waiting screen.
pub const PAIR_LABEL: &'static str = "BTC/USD";

/// Width of the 1-bit logo bitmap in pixels.
pub const LOGO_WIDTH: u32 = 35;

/// Height of the 1-bit logo bitmap in pixels.
pub const LOGO_HEIGHT: u32 = 35;

/// Character cell of the body font (profont 12 point), as its source gives it.
pub open spec fn body_cell() -> (u32, u32) {
    (7, 15)
}

/// Character cell of the pair-label font (profont 24 point), as its source gives it.
pub open spec fn pair_cell() -> (u32, u32) {
    (16, 29)
}

/// `PROFONT_12_POINT.character_size`: the body font's character cell, `(width, height)`.
#[verifier::external_body]
fn body_font_cell() -> (r: (u32, u32))
    ensures
        r == body_cell(),
{
    let size = profont::PROFONT_12_POINT.character_size;
    (size.width, size.height)
}

/// `PROFONT_24_POINT.character_size`: the pair font's character cell, `(width, height)`.
#[verifier::external_body]
fn pair_font_cell() -> (r: (u32, u32))
    ensures
        r == pair_cell(),
{
    let size = profont::PROFONT_24_POINT.character_size;
    (size.width, size.height)
}

/// The two text sizes: body text and the pair label (which doubled is the price).
#[derive(Clone, Copy, Debug, PartialEq, Eq)]
pub enum TextStyle {
    /// profont 12 point (`1em`).
    Body,
    /// profont 24 point (`h2`).
    Pair,
}

/// One drawing step of a frame. Text positions are the top-left corner of the text.
#[derive(Clone, Debug, PartialEq, Eq)]
pub enum DrawOp {
    /// Fill the whole screen white.
    Clear,
    /// Text at `(x, y)`.
    Text { text: String, x: i32, y: i32, style: TextStyle },
    /// Pair-style text drawn with every pixel doubled, at `(x, y)` before doubling.
    DoubledText { text: String, x: i32, y: i32 },
    /// The logo bitmap with its top-left corner at `(x, y)`.
    Logo { x: i32, y: i32 },
}

/// A drawing step with its text taken as characters.
pub enum DrawOpView {
    Clear,
    Text { text: Seq<char>, x: int, y: int, style: TextStyle },
    DoubledText { text: Seq<char>, x: int, y: int },
    Logo { x: int, y: int },
}

impl View for DrawOp {
    type V = DrawOpView;

    open spec fn view(&self) -> DrawOpView {
        match self {
            DrawOp::Clear => DrawOpView::Clear,
            DrawOp::Text { text, x, y, style } => DrawOpView::Text {
                text: text@,
                x: *x as int,
                y: *y as int,
                style: *style,
            },
            DrawOp::DoubledText { text, x, y } => DrawOpView::DoubledText {
                text: text@,
                x: *x as int,
                y: *y as int,
            },
            DrawOp::Logo { x, y } => DrawOpView::Logo { x: *x as int, y: *y as int },
        }
    }
}

/// The views of a sequence of drawing steps.
pub open spec fn ops_view(ops: Seq<DrawOp>) -> Seq<DrawOpView> {
    ops.map_values(|op: DrawOp| op@)
}

/// Length in bytes of a text.
pub open spec fn byte_len(text: Seq<char>) -> int {
    encode_utf8(text).len() as int
}

/// `len` as the display code sees it: the byte length cast to `i32`.
pub open spec fn len_i32(len: int) -> int {
    (len as i32) as int
}

/// Left edge of a text of `len` bytes in cells `char_w` wide centred on the screen
/// (half the leftover width, rounded toward zero, and never left of the screen).
pub open spec fn centered_x(len: int, char_w: int) -> int {
    let leftover = LOGICAL_WIDTH - len_i32(len) * char_w;
    if leftover > 0 { leftover / 2 } else { 0 }
}

/// Left edge of a text of `len` bytes in cells `char_w` wide that ends at `right_edge`.
pub open spec fn right_aligned_x(len: int, char_w: int, right_edge: int) -> int {
    let x = right_edge - len_i32(len) * char_w;
    if x > 0 { x } else { 0 }
}

/// The text is short enough for the position arithmetic of body-style text.
pub open spec fn body_text_fits(len: int) -> bool {
    let w = len_i32(len) * body_cell().0;
    i32::MIN <= w <= i32::MAX && i32::MIN <= LOGICAL_WIDTH - w <= i32::MAX
}

/// The text is short enough for the position arithmetic of doubled pair-style text.
pub open spec fn doubled_text_fits(len: int) -> bool {
    let w = len_i32(len) * pair_cell().0;
    i32::MIN <= w <= i32::MAX && i32::MIN <= w * 2 <= i32::MAX && i32::MIN <= LOGICAL_WIDTH - w
        * 2 <= i32::MAX
}

/// Body text centred horizontally with its top at `y`.
pub open spec fn centered_body(text: Seq<char>, y: int) -> DrawOpView {
    DrawOpView::Text {
        text,
        x: centered_x(byte_len(text), body_cell().0 as int),
        y,
        style: TextStyle::Body,
    }
}

/// Doubled pair-style text centred horizontally with its (doubled) top at `visual_y`.
pub open spec fn centered_doubled(text: Seq<char>, visual_y: int) -> DrawOpView {
    DrawOpView::DoubledText {
        text,
        x: centered_x(byte_len(text), 2 * pair_cell().0) / 2,
        y: visual_y / 2,
    }
}

/// The pair label shown next to the logo (row 1) and on the waiting screen.
pub open spec fn pair_label_text() -> Seq<char> {
    seq!['B', 'T', 'C', '/', 'U', 'S', 'D']
}

/// The last-update label of a price state.
pub open spec fn stamp_text(updated_at: Option<i64>, tz_offset_secs: int) -> Seq<char> {
    match updated_at {
        Some(epoch) => timestamp_text(epoch + tz_offset_secs),
        None => seq!['-', '-'],
    }
}

/// The steps that draw `frame`: a white screen, then
/// - waiting: the pair label and a waiting message, centred;
/// - a price: row 1 the logo and the pair label centred as a group, row 2 the
///   doubled price centred and bottom-aligned, row 3 the last-update label
///   end-aligned and bottom-aligned;
/// - an error: a doubled `ERROR` and a retry message, centred.
pub open spec fn frame_plan(frame: AppStateView, tz_offset_secs: int) -> Seq<DrawOpView> {
    match frame {
        AppStateView::Waiting => seq![
            DrawOpView::Clear,
            centered_body(pair_label_text(), 30),
            centered_body("Waiting for first price..."@, 90),
        ],
        AppStateView::Price { display, updated_at } => {
            let label_w = pair_label_text().len() * pair_cell().0;
            let group_w = LOGO_WIDTH + LOGO_LABEL_GAP + label_w;
            let group_x = (LOGICAL_WIDTH - group_w) / 2;
            let stamp = stamp_text(updated_at, tz_offset_secs);
            seq![
                DrawOpView::Clear,
                DrawOpView::Logo { x: group_x, y: (ROW_HEIGHT - LOGO_HEIGHT) / 2 },
                DrawOpView::Text {
                    text: pair_label_text(),
                    x: group_x + LOGO_WIDTH + LOGO_LABEL_GAP,
                    y: (ROW_HEIGHT - pair_cell().1) / 2,
                    style: TextStyle::Pair,
                },
                centered_doubled(display, 2 * ROW_HEIGHT - 2 * pair_cell().1),
                DrawOpView::Text {
                    text: stamp,
                    x: right_aligned_x(
                        byte_len(stamp),
                        body_cell().0 as int,
                        LOGICAL_WIDTH - TIMESTAMP_RIGHT_INSET,
                    ),
                    y: FRAME_HEIGHT - body_cell().1 - BOTTOM_INSET,
                    style: TextStyle::Body,
                },
            ]
        },
        AppStateView::Error => seq![
            DrawOpView::Clear,
            centered_doubled("ERROR"@, 60),
            centered_body("API unreachable, retrying..."@, 130),
        ],
    }
}

/// Body text centred horizontally with its top at `y`.
fn centered_body_op(text: String, y: i32) -> (op: DrawOp)
    requires
        byte_len(text@) <= usize::MAX,
        body_text_fits(byte_len(text@)),
    ensures
        op@ == centered_body(text@, y as int),
{
    let (char_w, _) = body_font_cell();
    let x = (LOGICAL_WIDTH - text.as_str().len() as i32 * char_w as i32) / 2;
    DrawOp::Text { text, x: x.max(0), y, style: TextStyle::Body }
}

/// Doubled pair-style text centred horizontally with its top at `visual_y` in real pixels.
fn centered_doubled_op(text: String, visual_y: i32) -> (op: DrawOp)
    requires
        byte_len(text@) <= usize::MAX,
        doubled_text_fits(byte_len(text@)),
        visual_y >= 0,
    ensures
        op@ == centered_doubled(text@, visual_y as int),
{
    let (char_w, _) = pair_font_cell();
    let visual_w = text.as_str().len() as i32 * char_w as i32 * 2;
    let visual_x = ((LOGICAL_WIDTH - visual_w) / 2).max(0);
    DrawOp::DoubledText { text, x: visual_x / 2, y: visual_y / 2 }
}

/// An ASCII text takes one byte per character.
proof fn lemma_ascii_byte_len(text: Seq<char>)
    requires
        is_ascii_chars(text),
    ensures
        byte_len(text) == text.len(),
{
    is_ascii_chars_encode_utf8(text);
}

/// The drawing steps of `frame`, with the last-update time shown
/// `tz_offset_secs` seconds east of UTC.
pub fn frame_ops(frame: &AppState, tz_offset_secs: i32) -> (ops: Vec<DrawOp>)
    requires
        frame matches AppState::Price { display, updated_at } ==> {
            &&& byte_len(display@) <= usize::MAX
            &&& doubled_text_fits(byte_len(display@))
            &&& updated_at matches Some(epoch) ==> i64::MIN <= epoch + tz_offset_secs <= i64::MAX
        },
    ensures
        ops_view(ops@) == frame_plan(frame@, tz_offset_secs as int),
{
    let mut ops: Vec<DrawOp> = Vec::new();
    ops.push(DrawOp::Clear);
    match frame {
        AppState::Waiting => {
            let label = String::from_str(PAIR_LABEL);
            let waiting = String::from_str("Waiting for first price...");
            proof {
                reveal_strlit("BTC/USD");
                reveal_strlit("Waiting for first price...");
                assert(label@ =~= pair_label_text());
                assert(is_ascii_chars(label@));
                assert(is_ascii_chars(waiting@));
                lemma_ascii_byte_len(label@);
                lemma_ascii_byte_len(waiting@);
            }
            ops.push(centered_body_op(label, 30));
            ops.push(centered_body_op(waiting, 90));
            assert(ops_view(ops@) =~= frame_plan(frame@, tz_offset_secs as int));
        },
        AppState::Price { display, updated_at } => {
            proof {
                reveal_strlit("BTC/USD");
                assert(PAIR_LABEL@ =~= pair_label_text());
                assert(is_ascii_chars(PAIR_LABEL@));
                lemma_ascii_byte_len(PAIR_LABEL@);
            }
            let (pair_w, pair_h) = pair_font_cell();
            let (body_w, body_h) = body_font_cell();
            let label_w = PAIR_LABEL.len() as i32 * pair_w as i32;
            let group_w = LOGO_WIDTH as i32 + LOGO_LABEL_GAP + label_w;
            let group_x = (LOGICAL_WIDTH - group_w) / 2;
            let logo_y = (ROW_HEIGHT - LOGO_HEIGHT as i32) / 2;
            ops.push(DrawOp::Logo { x: group_x, y: logo_y });
            ops.push(
                DrawOp::Text {
                    text: String::from_str(PAIR_LABEL),
                    x: group_x + LOGO_WIDTH as i32 + LOGO_LABEL_GAP,
                    y: (ROW_HEIGHT - pair_h as i32) / 2,
                    style: TextStyle::Pair,
                },
            );
            let price_h = 2 * pair_h as i32;
            ops.push(centered_doubled_op(display.clone(), 2 * ROW_HEIGHT - price_h));
            let stamp = timestamp_label(*updated_at, tz_offset_secs);
            proof {
                if let Some(epoch) = updated_at {
                    lemma_timestamp_text_ascii(epoch + tz_offset_secs);
                } else {
                    reveal_strlit("--");
                    assert(stamp@ =~= seq!['-', '-']);
                }
                lemma_ascii_byte_len(stamp@);
            }
            let stamp_h = body_h as i32;
            let x = (LOGICAL_WIDTH - TIMESTAMP_RIGHT_INSET - stamp.as_str().len() as i32 * body_w as i32).max(0);
            ops.push(
                DrawOp::Text {
                    text: stamp,
                    x,
                    y: FRAME_HEIGHT - stamp_h - BOTTOM_INSET,
                    style: TextStyle::Body,
                },
            );
            assert(ops_view(ops@) =~= frame_plan(frame@, tz_offset_secs as int));
        },
        AppState::Error => {
            let error = String::from_str("ERROR");
            let retrying = String::from_str("API unreachable, retrying...");
            proof {
                reveal_strlit("ERROR");
                reveal_strlit("API unreachable, retrying...");
                assert(is_ascii_chars(error@));
                assert(is_ascii_chars(retrying@));
                lemma_ascii_byte_len(error@);
                lemma_ascii_byte_len(retrying@);
            }
            ops.push(centered_doubled_op(error, 60));
            ops.push(centered_body_op(retrying, 130));
            assert(ops_view(ops@) =~= frame_plan(frame@, tz_offset_secs as int));
        },
    }
    assert(ops_view(ops@) =~= frame_plan(frame@, tz_offset_secs as int));
    ops
}

/// The price frame keeps its three equal rows and its text hierarchy: the logo
/// and the pair label lie in row 1, the doubled price is bottom-aligned in row 2,
/// the last-update label is bottom-aligned (less its inset) in row 3 and ends
/// at the right inset; the price is the largest text, then the pair label, then body text.
pub proof fn lemma_price_frame_rows(display: Seq<char>, updated_at: Option<i64>, tz_offset_secs: int)
    requires
        updated_at matches Some(epoch) ==> i64::MIN <= epoch + tz_offset_secs <= i64::MAX,
    ensures
        ({
            let plan = frame_plan(AppStateView::Price { display, updated_at }, tz_offset_secs);
            let stamp = stamp_text(updated_at, tz_offset_secs);
            &&& 3 * ROW_HEIGHT <= FRAME_HEIGHT < 3 * ROW_HEIGHT + 3
            &&& plan[1] matches DrawOpView::Logo { y, .. } && 0 <= y && y + LOGO_HEIGHT
                <= ROW_HEIGHT
            &&& plan[2] matches DrawOpView::Text { y, .. } && 0 <= y && y + pair_cell().1
                <= ROW_HEIGHT
            &&& plan[3] matches DrawOpView::DoubledText { y, .. } && ROW_HEIGHT <= 2 * y && 2 * y
                + 2 * pair_cell().1 == 2 * ROW_HEIGHT
            &&& plan[4] matches DrawOpView::Text { x, y, .. } && 2 * ROW_HEIGHT <= y && y
                + body_cell().1 + BOTTOM_INSET == FRAME_HEIGHT && x + byte_len(stamp)
                * body_cell().0 == LOGICAL_WIDTH - TIMESTAMP_RIGHT_INSET
            &&& 2 * pair_cell().1 > pair_cell().1 > body_cell().1
        }),
{
    let stamp = stamp_text(updated_at, tz_offset_secs);
    if let Some(epoch) = updated_at {
        lemma_timestamp_text_ascii(epoch + tz_offset_secs);
    } else {
        assert(is_ascii_chars(stamp));
    }
    lemma_ascii_byte_len(stamp);
    assert(len_i32(byte_len(stamp)) == byte_len(stamp));
}

/// The doubled price is centred on the panel: each byte of the price takes 32
/// pixels once doubled (16-pixel cells); a price of `n` bytes that fits leaves
/// equal margins left and right of it (`4x + 32n == 264`, `x` being half its
/// left edge), and a longer one starts at the left edge.
pub proof fn lemma_price_centred(display: Seq<char>, updated_at: Option<i64>, tz_offset_secs: int)
    requires
        byte_len(display) <= i32::MAX,
    ensures
        ({
            let plan = frame_plan(AppStateView::Price { display, updated_at }, tz_offset_secs);
            let n = byte_len(display);
            &&& plan[3] matches DrawOpView::DoubledText { text, x, .. } && text == display && (32
                * n <= LOGICAL_WIDTH ==> 2 * x + 32 * n <= LOGICAL_WIDTH && 4 * x + 32 * n
                == LOGICAL_WIDTH) && (32 * n > LOGICAL_WIDTH ==> x == 0)
        }),
{
    let n = byte_len(display);
    assert(len_i32(n) == n);
}

/// Row 1 of the price frame holds the logo and then, after a 10-pixel gap, the
/// pair label (16-pixel cells), the two centred together as one group: the
/// margin right of the label equals the margin left of the logo or is one pixel wider.
pub proof fn lemma_price_header_centred(display: Seq<char>, updated_at: Option<i64>, tz_offset_secs: int)
    ensures
        ({
            let plan = frame_plan(AppStateView::Price { display, updated_at }, tz_offset_secs);
            &&& plan[1] matches DrawOpView::Logo { x, .. } && plan[2] matches DrawOpView::Text {
                text,
                x: label_x,
                style,
                ..
            } && text == pair_label_text() && style == TextStyle::Pair && label_x == x + LOGO_WIDTH
                + LOGO_LABEL_GAP && x <= LOGICAL_WIDTH - (label_x + 16 * text.len()) <= x + 1
        }),
{
}

/// The texts of the waiting and error frames are centred: a body text of `n`
/// bytes (7-pixel cells) at `x` leaves a right margin `264 - x - 7n` equal to
/// its left margin `x` or one pixel wider, and the doubled `ERROR` (5 bytes,
/// 32 pixels each) leaves equal margins.
pub proof fn lemma_message_frames_centred()
    ensures
        ({
            let waiting = frame_plan(AppStateView::Waiting, 0);
            let error = frame_plan(AppStateView::Error, 0);
            &&& waiting[1] matches DrawOpView::Text { text, x, .. } && x <= LOGICAL_WIDTH - x - 7
                * text.len() <= x + 1
            &&& waiting[2] matches DrawOpView::Text { text, x, .. } && x <= LOGICAL_WIDTH - x - 7
                * text.len() <= x + 1
            &&& error[1] matches DrawOpView::DoubledText { x, .. } && 4 * x + 32 * 5 == LOGICAL_WIDTH
            &&& error[2] matches DrawOpView::Text { text, x, .. } && x <= LOGICAL_WIDTH - x - 7
                * text.len() <= x + 1
        }),
{
    reveal_strlit("Waiting for first price...");
    reveal_strlit("ERROR");
    reveal_strlit("API unreachable, retrying...");
    lemma_ascii_byte_len(pair_label_text());
    lemma_ascii_byte_len("Waiting for first price..."@);
    lemma_ascii_byte_len("ERROR"@);
    lemma_ascii_byte_len("API unreachable, retrying..."@);
}

/// Bytes per row of the logo bitmap: one bit per pixel, rows padded to whole bytes.
pub const LOGO_BYTES_PER_ROW: u32 = 5;

/// Pixel (`col`, `row`) of the logo bitmap is black: the bit for it, counted
/// from the most significant bit of its byte, is set.
pub open spec fn logo_bit(bitmap: Seq<u8>, row: int, col: int) -> bool {
    (bitmap[row * LOGO_BYTES_PER_ROW + col / 8] >> (7 - col % 8) as u8) & 1 == 1
}

/// Pixel (`col`, `row`) of the logo is black exactly when its byte, masked with
/// `0x80` shifted right by `col % 8`, is not zero: the most significant bit of
/// every byte is its leftmost pixel, in every byte of a row.
pub proof fn lemma_logo_bit_mask(bitmap: Seq<u8>, row: int, col: int)
    requires
        0 <= row < LOGO_HEIGHT,
        0 <= col < LOGO_WIDTH,
        row * LOGO_BYTES_PER_ROW + col / 8 < bitmap.len(),
    ensures
        logo_bit(bitmap, row, col) == (bitmap[row * LOGO_BYTES_PER_ROW + col / 8] & (0x80u8 >> (col
            % 8) as u8) != 0),
{
    let byte = bitmap[row * LOGO_BYTES_PER_ROW + col / 8];
    let k = (col % 8) as u8;
    assert(k < 8 ==> ((byte & (0x80u8 >> k) != 0) == ((byte >> (7 - k) as u8) & 1 == 1)))
        by (bit_vector);
    assert((7 - col % 8) as u8 == (7 - k) as u8);
}

/// The black pixels among the first `n` pixels of the logo in row-major order
/// (row by row, left to right), placed with the logo's top-left corner at (`x`, `y`).
pub open spec fn logo_black_points(bitmap: Seq<u8>, x: int, y: int, n: int) -> Seq<(int, int)>
    decreases n,
{
    if n <= 0 {
        Seq::empty()
    } else {
        let row = (n - 1) / LOGO_WIDTH as int;
        let col = (n - 1) % LOGO_WIDTH as int;
        logo_black_points(bitmap, x, y, n - 1) + (if logo_bit(bitmap, row, col) {
            seq![(x + col, y + row)]
        } else {
            Seq::empty()
        })
    }
}

/// Whether pixel (`col`, `row`) of the logo is black: the bit for it, counted
/// from the most significant bit of its byte, is set.
pub fn logo_pixel_is_black(bitmap: &[u8], row: u32, col: u32) -> (r: bool)
    requires
        row < LOGO_HEIGHT,
        col < LOGO_WIDTH,
        row * LOGO_BYTES_PER_ROW + col / 8 < bitmap@.len(),
    ensures
        r == logo_bit(bitmap@, row as int, col as int),
        r == (bitmap@[row * LOGO_BYTES_PER_ROW + col / 8] & (0x80u8 >> (col % 8) as u8) != 0),
{
    let bytes_per_row = ((LOGO_WIDTH + 7) / 8) as usize;
    let byte = bitmap[row as usize * bytes_per_row + (col / 8) as usize];
    let k = col % 8;
    let r = byte & (0x80u8 >> k) != 0;
    proof {
        assert(k < 8 ==> ((byte & (0x80u8 >> k) != 0) == ((byte >> (7 - k) as u8) & 1 == 1)))
            by (bit_vector);
    }
    r
}

/// The black pixels of the logo drawn with its top-left corner at (`x`, `y`), row
/// by row from the top and left to right within a row.
pub fn logo_black_pixels(bitmap: &[u8], x: i32, y: i32) -> (r: Vec<(i32, i32)>)
    requires
        bitmap@.len() >= LOGO_HEIGHT * LOGO_BYTES_PER_ROW,
        forall|row: int, col: int|
            0 <= row < LOGO_HEIGHT && 0 <= col < LOGO_WIDTH && #[trigger] logo_bit(bitmap@, row, col)
                ==> x + col <= i32::MAX && y + row <= i32::MAX,
    ensures
        r@.map_values(|p: (i32, i32)| (p.0 as int, p.1 as int)) == logo_black_points(
            bitmap@,
            x as int,
            y as int,
            (LOGO_WIDTH * LOGO_HEIGHT) as int,
        ),
{
    let mut out: Vec<(i32, i32)> = Vec::new();
    let mut row: u32 = 0;
    while row < LOGO_HEIGHT
        invariant
            row <= LOGO_HEIGHT,
            bitmap@.len() >= LOGO_HEIGHT * LOGO_BYTES_PER_ROW,
            forall|r: int, c: int|
                0 <= r < LOGO_HEIGHT && 0 <= c < LOGO_WIDTH && #[trigger] logo_bit(bitmap@, r, c)
                    ==> x + c <= i32::MAX && y + r <= i32::MAX,
            out@.map_values(|p: (i32, i32)| (p.0 as int, p.1 as int)) == logo_black_points(
                bitmap@,
                x as int,
                y as int,
                row * LOGO_WIDTH,
            ),
        decreases LOGO_HEIGHT - row,
    {
        let mut col: u32 = 0;
        while col < LOGO_WIDTH
            invariant
                row < LOGO_HEIGHT,
                col <= LOGO_WIDTH,
                bitmap@.len() >= LOGO_HEIGHT * LOGO_BYTES_PER_ROW,
                forall|r: int, c: int|
                    0 <= r < LOGO_HEIGHT && 0 <= c < LOGO_WIDTH && #[trigger] logo_bit(bitmap@, r, c)
                        ==> x + c <= i32::MAX && y + r <= i32::MAX,
                out@.map_values(|p: (i32, i32)| (p.0 as int, p.1 as int)) == logo_black_points(
                    bitmap@,
                    x as int,
                    y as int,
                    row * LOGO_WIDTH + col,
                ),
            decreases LOGO_WIDTH - col,
        {
            let ghost before = out@;
            let ghost n = row * LOGO_WIDTH + col + 1;
            assert((n - 1) / LOGO_WIDTH as int == row && (n - 1) % LOGO_WIDTH as int == col);
            if logo_pixel_is_black(bitmap, row, col) {
                let p = (x + col as i32, y + row as i32);
                out.push(p);
                assert(out@ =~= before.push(p));
            }
            assert(out@.map_values(|p: (i32, i32)| (p.0 as int, p.1 as int)) =~= logo_black_points(
                bitmap@,
                x as int,
                y as int,
                n,
            ));
            col = col + 1;
        }
        row = row + 1;
    }
    out
}

/// The four pixels that stand for pixel (`x`, `y`) when every pixel is doubled.
pub fn doubled_pixel(x: i32, y: i32) -> (r: [(i32, i32); 4])
    requires
        i32::MIN <= 2 * x,
        2 * x + 1 <= i32::MAX,
        i32::MIN <= 2 * y,
        2 * y + 1 <= i32::MAX,
    ensures
        forall|i: int|
            0 <= i < 4 ==> #[trigger] r@[i].0 == 2 * x + i % 2 && r@[i].1 == 2 * y + i / 2,
{
    let (x, y) = (x * 2, y * 2);
    [(x, y), (x + 1, y), (x, y + 1), (x + 1, y + 1)]
}

/// The area that stands for the area at (`x`, `y`) of `width` by `height`
/// pixels when every pixel is doubled: `(x, y, width, height)` doubled.
pub fn doubled_area(x: i32, y: i32, width: u32, height: u32) -> (r: (i32, i32, u32, u32))
    requires
        i32::MIN <= 2 * x <= i32::MAX,
        i32::MIN <= 2 * y <= i32::MAX,
        2 * width <= u32::MAX,
        2 * height <= u32::MAX,
    ensures
        r.0 == 2 * x && r.1 == 2 * y && r.2 == 2 * width && r.3 == 2 * height,
{
    (x * 2, y * 2, width * 2, height * 2)
}

} // verus!
