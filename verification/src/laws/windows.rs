//! Laws of windows: how long things last, in seconds and nanoseconds.

use vstd::prelude::*;

use crate::learning::LearningConfig;
use crate::time::{saturated, NANOS_PER_SEC};

verus! {

/// A decision is overdue once its window has passed, and not before: the
/// deadline lies at or before what was decided less than a window ago, and after
/// what was decided longer ago than that. The same holds of what a peer has
/// gained within the influence window.
pub proof fn lemma_windows_last_their_seconds(
    config: LearningConfig,
    now_ns: u64,
    made_ns: u64,
    deadline: u64,
    start: u64,
)
    requires
        made_ns <= now_ns,
        call_ensures(LearningConfig::receipt_deadline, (&config, now_ns), deadline),
        call_ensures(LearningConfig::influence_window_start, (&config, now_ns), start),
    ensures
        now_ns - made_ns < config.receipt_window_secs * 1_000_000_000 ==> deadline <= made_ns,
        made_ns + config.receipt_window_secs * 1_000_000_000 < now_ns ==> made_ns < deadline,
        now_ns - made_ns < config.influence_window_secs * 1_000_000_000 ==> start <= made_ns,
        made_ns + config.influence_window_secs * 1_000_000_000 < now_ns ==> made_ns < start,
        deadline <= now_ns,
        start <= now_ns,
{
    lemma_a_window_lasts_its_seconds(now_ns, made_ns, config.receipt_window_secs);
    lemma_a_window_lasts_its_seconds(now_ns, made_ns, config.influence_window_secs);
}

/// A window of some seconds starts that many thousand million nanoseconds ago.
pub proof fn lemma_a_window_lasts_its_seconds(now_ns: u64, made_ns: u64, secs: u64)
    requires
        made_ns <= now_ns,
    ensures
        now_ns - made_ns < secs * 1_000_000_000 ==> LearningConfig::window_start(now_ns, secs)
            <= made_ns,
        made_ns + secs * 1_000_000_000 < now_ns ==> made_ns < LearningConfig::window_start(
            now_ns,
            secs,
        ),
        LearningConfig::window_start(now_ns, secs) <= now_ns,
{
}

/// A longer window starts earlier, and a window moves with the time.
pub proof fn lemma_longer_windows_start_earlier(a_ns: u64, b_ns: u64, short: u64, long: u64)
    requires
        a_ns <= b_ns,
        short <= long,
    ensures
        LearningConfig::window_start(a_ns, long) <= LearningConfig::window_start(a_ns, short),
        LearningConfig::window_start(a_ns, short) <= LearningConfig::window_start(b_ns, short),
{
    assert(short * 1_000_000_000 <= long * 1_000_000_000);
}

/// A second has a thousand million nanoseconds, and what does not fit is held at
/// the largest number.
pub proof fn lemma_seconds(secs: u64)
    ensures
        secs <= 18_446_744_073 ==> saturated(secs * NANOS_PER_SEC) == secs * 1_000_000_000,
        saturated(secs * NANOS_PER_SEC) <= secs * 1_000_000_000,
        secs > 18_446_744_073 ==> saturated(secs * NANOS_PER_SEC) == u64::MAX,
{
}

} // verus!
