//! The ticker's decisions: what the screen shows, when it is refreshed, and
//! how a fetch, the clock and the configuration are judged.
use vstd::prelude::*;

use crate::decimal::{
    all_ascii_digits, decimal, digits_value, is_ascii_digit, lemma_digits_value_of_decimal,
    lemma_digits_value_prefix,
};
use crate::text::collect_chars;
use crate::timestamp::{format_timestamp, timestamp_text};

verus! {

/// Epoch seconds above which the clock counts as synchronised (2020-09-13);
/// before SNTP sync the clock sits near 1970.
pub const CLOCK_SYNCED_EPOCH: i64 = 1_600_000_000;

/// Largest accepted response body, in bytes.
pub const MAX_BODY_LEN: usize = 4096;

/// Shared application state.
#[derive(Clone, Debug, PartialEq, Eq)]
pub enum AppState {
    /// Booting / no price fetched yet.
    Waiting,
    /// Latest successful fetch; `updated_at` is the epoch second of that fetch,
    /// or `None` while the device clock is not yet synchronised.
    Price { display: String, updated_at: Option<i64> },
    /// Last fetch failed (and, for rendering, no price is known).
    Error,
}

/// What an [`AppState`] shows: its price text taken as characters.
pub enum AppStateView {
    Waiting,
    Price { display: Seq<char>, updated_at: Option<i64> },
    Error,
}

impl View for AppState {
    type V = AppStateView;

    open spec fn view(&self) -> AppStateView {
        match self {
            AppState::Waiting => AppStateView::Waiting,
            AppState::Price { display, updated_at } => AppStateView::Price {
                display: display@,
                updated_at: *updated_at,
            },
            AppState::Error => AppStateView::Error,
        }
    }
}

/// The view of an optional state.
pub open spec fn option_view(s: Option<AppState>) -> Option<AppStateView> {
    match s {
        Some(state) => Some(state@),
        None => None,
    }
}

/// The frame the screen should show for `current`, given the frame `last_drawn`
/// on it: the state itself, except that a failed fetch keeps a price on screen.
pub open spec fn target_frame(current: AppStateView, last_drawn: Option<AppStateView>) -> Option<
    AppStateView,
> {
    match current {
        AppStateView::Error => match last_drawn {
            Some(AppStateView::Price { .. }) => None,
            _ => Some(AppStateView::Error),
        },
        _ => Some(current),
    }
}

/// The frame to draw now, if any: the target frame when it differs from what is on screen.
pub open spec fn next_frame(current: AppStateView, last_drawn: Option<AppStateView>) -> Option<
    AppStateView,
> {
    let target = target_frame(current, last_drawn);
    if target is Some && target != last_drawn {
        target
    } else {
        None
    }
}

/// The frame on screen after deciding on `current`.
pub open spec fn frame_after(current: AppStateView, last_drawn: Option<AppStateView>) -> Option<
    AppStateView,
> {
    match next_frame(current, last_drawn) {
        Some(f) => Some(f),
        None => last_drawn,
    }
}

impl AppState {
    /// A copy of this state.
    pub fn duplicate(&self) -> (r: AppState)
        ensures
            r@ == self@,
    {
        match self {
            AppState::Waiting => AppState::Waiting,
            AppState::Price { display, updated_at } => AppState::Price {
                display: display.clone(),
                updated_at: *updated_at,
            },
            AppState::Error => AppState::Error,
        }
    }

    /// Whether two states show the same thing.
    pub fn same_as(&self, other: &AppState) -> (r: bool)
        ensures
            r == (self@ == other@),
    {
        match (self, other) {
            (AppState::Waiting, AppState::Waiting) => true,
            (AppState::Error, AppState::Error) => true,
            (
                AppState::Price { display: d1, updated_at: u1 },
                AppState::Price { display: d2, updated_at: u2 },
            ) => {
                let same_time = match (u1, u2) {
                    (Some(a), Some(b)) => *a == *b,
                    (None, None) => true,
                    _ => false,
                };
                d1.eq(d2) && same_time
            },
            _ => false,
        }
    }

    /// The state after a fetch: the new price text and its fetch time after a
    /// success (`Some` text), the error state after a failure (`None`).
    pub fn after_fetch(display: Option<String>, updated_at: Option<i64>) -> (r: AppState)
        ensures
            r@ == (match display {
                Some(d) => AppStateView::Price { display: d@, updated_at },
                None => AppStateView::Error,
            }),
    {
        match display {
            Some(display) => AppState::Price { display, updated_at },
            None => AppState::Error,
        }
    }
}

/// Redraw only on state change; if a fetch fails after a price is known, keep
/// showing the last known price. Returns the frame to draw, or `None` when the
/// screen is to stay as it is.
pub fn frame_to_draw(current: &AppState, last_drawn: &Option<AppState>) -> (r: Option<AppState>)
    ensures
        option_view(r) == next_frame(current@, option_view(*last_drawn)),
{
    let target: Option<AppState> = match current {
        AppState::Error => match last_drawn {
            Some(AppState::Price { .. }) => None,
            _ => Some(AppState::Error),
        },
        _ => Some(current.duplicate()),
    };
    assert(option_view(target) == target_frame(current@, option_view(*last_drawn)));
    match target {
        Some(t) => {
            let unchanged = match last_drawn {
                Some(l) => t.same_as(l),
                None => false,
            };
            if unchanged {
                None
            } else {
                Some(t)
            }
        },
        None => None,
    }
}

/// A frame is drawn only when it differs from the one on screen.
pub proof fn lemma_redraw_only_on_change(current: AppStateView, last_drawn: Option<AppStateView>)
    ensures
        next_frame(current, last_drawn) is Some ==> next_frame(current, last_drawn) != last_drawn,
{
}

/// Once the chosen frame is on screen, the same state asks for no further refresh.
pub proof fn lemma_refresh_settles(current: AppStateView, last_drawn: Option<AppStateView>)
    ensures
        next_frame(current, frame_after(current, last_drawn)) is None,
{
}

/// A failed fetch leaves a known price on screen.
pub proof fn lemma_error_keeps_price(display: Seq<char>, updated_at: Option<i64>)
    ensures
        next_frame(
            AppStateView::Error,
            Some(AppStateView::Price { display, updated_at }),
        ) is None,
{
}

/// A failed fetch with no price on screen shows the error state (unless already shown).
pub proof fn lemma_error_without_price(last_drawn: Option<AppStateView>)
    requires
        !(last_drawn matches Some(AppStateView::Price { .. })),
        last_drawn != Some(AppStateView::Error),
    ensures
        next_frame(AppStateView::Error, last_drawn) == Some(AppStateView::Error),
{
}

/// A new price, or a new fetch time, is always drawn.
pub proof fn lemma_new_price_drawn(current: AppStateView, last_drawn: Option<AppStateView>)
    requires
        current is Price,
        last_drawn != Some(current),
    ensures
        next_frame(current, last_drawn) == Some(current),
{
}

/// The last-update label: the fetch time shifted by the display offset as
/// `dd-MMM-yyyy HH:mm`, or `--` while the clock was not synchronised.
pub fn timestamp_label(updated_at: Option<i64>, tz_offset_secs: i32) -> (s: String)
    requires
        updated_at matches Some(epoch) ==> i64::MIN <= epoch + tz_offset_secs <= i64::MAX,
    ensures
        s@ == (match updated_at {
            Some(epoch) => timestamp_text(epoch + tz_offset_secs),
            None => "--"@,
        }),
{
    match updated_at {
        Some(epoch) => format_timestamp(epoch + tz_offset_secs as i64),
        None => String::from_str("--"),
    }
}

/// The clock reading `secs`, or `None` while the clock is unsynchronised.
pub fn synced_epoch(secs: i64) -> (r: Option<i64>)
    ensures
        r == (if secs > CLOCK_SYNCED_EPOCH { Some(secs) } else { None::<i64> }),
{
    if secs > CLOCK_SYNCED_EPOCH {
        Some(secs)
    } else {
        None
    }
}

/// Whether an HTTP status is a success (2xx).
pub fn is_success_status(status: u16) -> (r: bool)
    ensures
        r == (200 <= status < 300),
{
    200 <= status && status < 300
}

/// What to do after a read of `n` bytes into a body of `body_len` bytes.
#[derive(Clone, Copy, Debug, PartialEq, Eq)]
pub enum BodyRead {
    /// The response is complete (the read returned no bytes).
    Complete,
    /// Keep reading.
    More,
    /// The body has grown past [`MAX_BODY_LEN`]: give up.
    TooLarge,
}

/// The step after reading `n` bytes into a body that held `body_len` bytes:
/// complete on an empty read, too large once the body would pass
/// [`MAX_BODY_LEN`], otherwise more to read.
pub open spec fn read_step(body_len: int, n: int) -> BodyRead {
    if n == 0 {
        BodyRead::Complete
    } else if body_len + n > MAX_BODY_LEN {
        BodyRead::TooLarge
    } else {
        BodyRead::More
    }
}

/// The step after reading `n` bytes into a body that held `body_len` bytes.
pub fn after_read(body_len: usize, n: usize) -> (r: BodyRead)
    ensures
        r == read_step(body_len as int, n as int),
{
    if n == 0 {
        BodyRead::Complete
    } else if n > MAX_BODY_LEN || body_len > MAX_BODY_LEN - n {
        BodyRead::TooLarge
    } else {
        BodyRead::More
    }
}

/// How a whole response read ends.
pub enum ReadOutcome {
    /// An empty read came with `len` bytes in the body.
    Complete { len: int },
    /// The body passed [`MAX_BODY_LEN`].
    TooLarge,
    /// The reads ran out before an empty one, with `len` bytes in the body.
    Unfinished { len: int },
}

/// The outcome of reads of the sizes `sizes`, in order, into a body of `body_len`
/// bytes, each taken by [`read_step`].
pub open spec fn read_outcome(body_len: int, sizes: Seq<nat>) -> ReadOutcome
    decreases sizes.len(),
{
    if sizes.len() == 0 {
        ReadOutcome::Unfinished { len: body_len }
    } else {
        match read_step(body_len, sizes[0] as int) {
            BodyRead::Complete => ReadOutcome::Complete { len: body_len },
            BodyRead::TooLarge => ReadOutcome::TooLarge,
            BodyRead::More => read_outcome(body_len + sizes[0], sizes.drop_first()),
        }
    }
}

/// Sum of `sizes`.
pub open spec fn total_size(sizes: Seq<nat>) -> int
    decreases sizes.len(),
{
    if sizes.len() == 0 {
        0
    } else {
        sizes[0] + total_size(sizes.drop_first())
    }
}

proof fn lemma_read_outcome_from(body_len: int, sizes: Seq<nat>, k: int)
    requires
        0 <= body_len <= MAX_BODY_LEN,
        0 <= k < sizes.len(),
        sizes[k] == 0,
        forall|i: int| 0 <= i < k ==> #[trigger] sizes[i] > 0,
    ensures
        read_outcome(body_len, sizes) == (if body_len + total_size(sizes.take(k)) > MAX_BODY_LEN {
            ReadOutcome::TooLarge
        } else {
            ReadOutcome::Complete { len: body_len + total_size(sizes.take(k)) }
        }),
    decreases k,
{
    if k == 0 {
        assert(sizes.take(0) =~= Seq::<nat>::empty());
    } else {
        let rest = sizes.drop_first();
        assert(sizes[0] > 0);
        assert(sizes.take(k).drop_first() =~= rest.take(k - 1));
        assert(total_size(sizes.take(k)) == sizes[0] + total_size(rest.take(k - 1)));
        if body_len + sizes[0] <= MAX_BODY_LEN {
            assert forall|i: int| 0 <= i < k - 1 implies #[trigger] rest[i] > 0 by {
                assert(rest[i] == sizes[i + 1]);
            }
            lemma_read_outcome_from(body_len + sizes[0], rest, k - 1);
        } else {
            lemma_total_size_nonneg(rest.take(k - 1));
        }
    }
}

proof fn lemma_total_size_nonneg(sizes: Seq<nat>)
    ensures
        total_size(sizes) >= 0,
    decreases sizes.len(),
{
    if sizes.len() > 0 {
        lemma_total_size_nonneg(sizes.drop_first());
    }
}

/// A whole response ends too large exactly when the bytes read before the
/// first empty read pass [`MAX_BODY_LEN`]; otherwise it is complete with all of them.
pub proof fn lemma_response_too_large(sizes: Seq<nat>, k: int)
    requires
        0 <= k < sizes.len(),
        sizes[k] == 0,
        forall|i: int| 0 <= i < k ==> #[trigger] sizes[i] > 0,
    ensures
        read_outcome(0, sizes) == (if total_size(sizes.take(k)) > MAX_BODY_LEN {
            ReadOutcome::TooLarge
        } else {
            ReadOutcome::Complete { len: total_size(sizes.take(k)) }
        }),
{
    lemma_read_outcome_from(0, sizes, k);
}

/// The connection step after a WiFi connection attempt.
#[derive(Clone, Copy, Debug, PartialEq, Eq)]
pub enum WifiStep {
    /// The network is up.
    Connected,
    /// Disconnect, wait this many milliseconds, and try again.
    RetryAfterMs(u32),
}

/// Milliseconds to wait before the next WiFi connection attempt.
pub const WIFI_RETRY_DELAY_MS: u32 = 5000;

/// The step after a WiFi connection attempt: done when connected, otherwise a
/// retry after [`WIFI_RETRY_DELAY_MS`]; the attempts go on until the network is up.
pub fn after_connect_attempt(connected: bool) -> (r: WifiStep)
    ensures
        r == (if connected { WifiStep::Connected } else { WifiStep::RetryAfterMs(WIFI_RETRY_DELAY_MS) }),
{
    if connected {
        WifiStep::Connected
    } else {
        WifiStep::RetryAfterMs(WIFI_RETRY_DELAY_MS)
    }
}

/// The number that `str::parse::<u64>` reads from `text`: an optional `+`, then
/// one or more ASCII digits whose value fits in a `u64`; `None` for anything else.
pub open spec fn u64_text_value(text: Seq<char>) -> Option<u64> {
    let digits = if text.len() > 0 && text[0] == '+' { text.drop_first() } else { text };
    if digits.len() == 0 || !all_ascii_digits(digits) || digits_value(digits) > u64::MAX {
        None
    } else {
        Some(digits_value(digits) as u64)
    }
}

/// The decimal digits of any `u64`, as `to_string` writes it, read back as that
/// number of seconds, and so do the same digits after a `+`.
pub proof fn lemma_interval_reads_decimal(n: u64)
    ensures
        u64_text_value(decimal(n as nat)) == Some(n),
        u64_text_value(seq!['+'] + decimal(n as nat)) == Some(n),
{
    let d = decimal(n as nat);
    lemma_digits_value_of_decimal(n as nat);
    assert(is_ascii_digit(d[0]));
    assert(d[0] != '+');
    let p = seq!['+'] + d;
    assert(p[0] == '+');
    assert(p.drop_first() =~= d);
}

/// A text with no digits, or with anything but digits after its optional
/// leading `+` (a sign `-`, a space, a decimal point), gives no interval.
pub proof fn lemma_interval_rejects(text: Seq<char>, at: int)
    requires
        (text.len() == 0 || text == seq!['+']) || (0 <= at < text.len() && !is_ascii_digit(text[at])
            && (at > 0 || text[0] != '+')),
    ensures
        u64_text_value(text) is None,
{
    if 0 <= at < text.len() && !is_ascii_digit(text[at]) && (at > 0 || text[0] != '+') {
        if text[0] == '+' {
            assert(text.drop_first()[at - 1] == text[at]);
        }
    } else if text == seq!['+'] {
        assert(text.drop_first().len() == 0);
    }
}

/// The refresh interval in seconds that the configuration text `text` gives,
/// or `None` when it is not a whole number of seconds.
pub fn parse_interval_secs(text: &str) -> (r: Option<u64>)
    ensures
        r == u64_text_value(text@),
{
    let cs = collect_chars(text);
    let start: usize = if cs.len() > 0 && cs[0] == '+' { 1 } else { 0 };
    let ghost digits = cs@.skip(start as int);
    assert(digits =~= (if text@.len() > 0 && text@[0] == '+' { text@.drop_first() } else { text@ }));
    if start == cs.len() {
        return None;
    }
    let mut v: u64 = 0;
    let mut i: usize = start;
    while i < cs.len()
        invariant
            start < cs.len(),
            start <= i <= cs.len(),
            cs@ == text@,
            digits == cs@.skip(start as int),
            digits == (if text@.len() > 0 && text@[0] == '+' { text@.drop_first() } else { text@ }),
            all_ascii_digits(cs@.subrange(start as int, i as int)),
            v == digits_value(cs@.subrange(start as int, i as int)),
        decreases cs.len() - i,
    {
        let c = cs[i];
        let pre = Ghost(cs@.subrange(start as int, i as int));
        let cur = Ghost(cs@.subrange(start as int, i + 1));
        proof {
            assert(cur@.drop_last() =~= pre@);
            assert(cur@.last() == c);
        }
        if !('0' <= c && c <= '9') {
            proof {
                assert(digits[i - start] == c);
            }
            return None;
        }
        proof {
            assert forall|j: int| 0 <= j < cur@.len() implies is_ascii_digit(#[trigger] cur@[j]) by {
                if j < pre@.len() {
                    assert(cur@[j] == pre@[j]);
                }
            }
        }
        let d = (c as u32 - 48) as u64;
        let next = match v.checked_mul(10) {
            Some(t) => t.checked_add(d),
            None => None,
        };
        match next {
            Some(n) => {
                v = n;
            },
            None => {
                proof {
                    if all_ascii_digits(digits) {
                        assert(digits.take(i + 1 - start) =~= cur@);
                        lemma_digits_value_prefix(digits, i + 1 - start);
                    }
                }
                return None;
            },
        }
        i = i + 1;
    }
    assert(cs@.subrange(start as int, i as int) =~= digits);
    Some(v)
}

} // verus!
