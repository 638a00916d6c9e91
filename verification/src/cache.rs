//! The bootstrap cache: when it is fresh, when it is replayed to a node, when and from which peers
//! it is filled again, and what makes a file on disk a usable cache.
use vstd::prelude::*;
use crate::frames::{
    clustered_max, complete_bootstrap_at_frame_boundary, complete_frame_count,
    four_close_rounds_show_the_end, in_order, join_frames, join_then_split,
    max_block_round_in_frames, order_is_rising, rounds_from, split_frames, split_then_join,
    Frame, MAX_ROUND_CLUSTER_GAP, MIN_ROUND_CLUSTER,
};
use crate::lists::step_round;
use crate::peerd::opt_text;
use crate::peers::{beside, path_beside};
use crate::protocol::MIN_COMPLETE_BOOTSTRAP_BYTES;
use crate::text::{decimal, push_decimal, push_text, texts, texts_push};

verus! {

/// Seconds between two replays to one node.
pub const CACHE_REPLAY_COOLDOWN_SECS: u64 = 30;

/// Age up to which a cache is replayed, in seconds. A node that starts from an older one has too
/// much to catch up on before its reader gives up.
pub const MAX_BOOTSTRAP_CACHE_AGE_SECS: u64 = 480;

/// Age from which a cache is filled again, in seconds.
pub const CACHE_REFRESH_SECS: u64 = 240;

/// Longest wait before the cache is looked at again, in seconds.
pub const CACHE_REFRESH_RETRY_SECS: u64 = 30;

/// How long before its end a cache is filled again though few peers are live, in seconds.
pub const CACHE_REFRESH_FORCE_BEFORE_EXPIRY_SECS: u64 = 90;

/// Live peers below which a fresh cache is not filled again yet.
pub const MIN_LIVE_PEERS_FOR_CACHE_REFRESH: usize = 4;

/// Captures at a time while the cache is fresh.
pub const FRESH_CACHE_REFRESH_MAX_INFLIGHT: usize = 2;

/// Captures at a time while it is not.
pub const COLD_CACHE_REFRESH_MAX_INFLIGHT: usize = 3;

/// Longest round of captures while the cache is fresh, in seconds.
pub const FRESH_BOOTSTRAP_REFRESH_MAX_SECS: u64 = 300;

/// Longest round of captures while it is not, in seconds.
pub const COLD_BOOTSTRAP_REFRESH_MAX_SECS: u64 = 900;

/// Peers that a round of captures takes while the cache is fresh.
pub const FRESH_WINDOW: usize = 24;

/// Peers that a round of captures takes while it is not.
pub const COLD_WINDOW: usize = 64;

/// Bytes of a replay that are written at once.
pub const REPLAY_CHUNK: usize = 8_388_608;

/// The age of a cache in seconds; 0 where it was made later than now.
pub open spec fn cache_age(now: u64, cached_at: u64) -> nat {
    if now > cached_at {
        (now - cached_at) as nat
    } else {
        0
    }
}

/// A cache was made (at another time than 0) and is not too old.
pub open spec fn cache_fresh(now: u64, cached_at: u64) -> bool {
    cached_at != 0 && cache_age(now, cached_at) <= MAX_BOOTSTRAP_CACHE_AGE_SECS
}

/// Seconds until a cache is too old.
pub open spec fn seconds_left(now: u64, cached_at: u64) -> nat {
    if cache_age(now, cached_at) < MAX_BOOTSTRAP_CACHE_AGE_SECS {
        (MAX_BOOTSTRAP_CACHE_AGE_SECS - cache_age(now, cached_at)) as nat
    } else {
        0
    }
}

/// A cache is fresh for eight minutes from the second in which it was made, and a cache that is
/// made in the future is as fresh as can be.
pub proof fn cache_lasts_eight_minutes(now: u64, cached_at: u64)
    ensures
        cache_fresh(now, cached_at) <==> 0 < cached_at && now <= cached_at + 480,
        now <= cached_at ==> cache_age(now, cached_at) == 0 && seconds_left(now, cached_at) == 480,
        cached_at <= now ==> cache_age(now, cached_at) + cached_at == now,
        cached_at <= now <= cached_at + 480 ==> now + seconds_left(now, cached_at) == cached_at + 480,
        now > cached_at + 480 ==> seconds_left(now, cached_at) == 0,
{
}

/// Whether the cache made at `cached_at` is fresh.
pub fn is_bootstrap_cache_fresh(now: u64, cached_at: u64) -> (r: bool)
    ensures
        r == cache_fresh(now, cached_at),
{
    cached_at != 0 && now.saturating_sub(cached_at) <= MAX_BOOTSTRAP_CACHE_AGE_SECS
}

/// Whether filling a fresh cache again waits for more live peers: there are few, and the cache has
/// time left beyond the margin.
pub fn should_delay_cache_refresh_for_live_pool(now: u64, cached_at: u64, live_count: usize) -> (r:
    bool)
    ensures
        r == (live_count < 4 && seconds_left(now, cached_at) > 90),
{
    if live_count >= MIN_LIVE_PEERS_FOR_CACHE_REFRESH {
        return false;
    }
    let age: u64 = now.saturating_sub(cached_at);
    MAX_BOOTSTRAP_CACHE_AGE_SECS.saturating_sub(age) > CACHE_REFRESH_FORCE_BEFORE_EXPIRY_SECS
}

/// Seconds before a fresh cache is looked at again: up to the margin before its end, but no more
/// than the retry time and no less than one second.
pub open spec fn retry_delay(now: u64, cached_at: u64) -> nat {
    let left = seconds_left(now, cached_at);
    if left <= 90 {
        1
    } else if left - 90 < 30 {
        (left - 90) as nat
    } else {
        30
    }
}

/// Seconds before a fresh cache is looked at again.
pub fn fresh_cache_retry_delay_secs(now: u64, cached_at: u64) -> (r: u64)
    ensures
        r == retry_delay(now, cached_at),
{
    let age: u64 = now.saturating_sub(cached_at);
    let left: u64 = MAX_BOOTSTRAP_CACHE_AGE_SECS.saturating_sub(age);
    if left <= CACHE_REFRESH_FORCE_BEFORE_EXPIRY_SECS {
        1
    } else if left - CACHE_REFRESH_FORCE_BEFORE_EXPIRY_SECS < CACHE_REFRESH_RETRY_SECS {
        left - CACHE_REFRESH_FORCE_BEFORE_EXPIRY_SECS
    } else {
        CACHE_REFRESH_RETRY_SECS
    }
}

/// A look at a fresh cache waits half a minute, but not beyond the point where 90 seconds are left,
/// that is 390 seconds after the cache was made; from there on it waits a second.
pub proof fn retry_waits_for_the_margin(now: u64, cached_at: u64)
    requires
        cached_at <= now,
    ensures
        now + 30 <= cached_at + 390 ==> retry_delay(now, cached_at) == 30,
        cached_at + 390 - 30 < now < cached_at + 390 ==> now + retry_delay(now, cached_at)
            == cached_at + 390,
        now >= cached_at + 390 ==> retry_delay(now, cached_at) == 1,
{
}

/// A wait that begins before the margin ends no later than the margin begins.
pub proof fn retry_stays_before_margin(now: u64, cached_at: u64)
    requires
        cached_at <= now,
        seconds_left(now, cached_at) > 90,
        now <= u64::MAX - 30,
    ensures
        seconds_left((now + retry_delay(now, cached_at)) as u64, cached_at) >= 90,
        1 <= retry_delay(now, cached_at) <= 30,
{
}

/// The longest time for a round of captures, in seconds. A cold cache gets more than a fresh one.
pub fn bootstrap_capture_deadline_secs(have_fresh_cache: bool) -> (r: u64)
    ensures
        r == if have_fresh_cache {
            300u64
        } else {
            900u64
        },
{
    if have_fresh_cache {
        FRESH_BOOTSTRAP_REFRESH_MAX_SECS
    } else {
        COLD_BOOTSTRAP_REFRESH_MAX_SECS
    }
}

/// The cooldown since the last replay to a node is over; there is none before the first.
pub open spec fn cooldown_over(now: u64, last: u64) -> bool {
    last == 0 || now - last >= CACHE_REPLAY_COOLDOWN_SECS
}

/// Whether the cooldown since the last replay to a node is over.
pub fn cache_replay_allowed(now: u64, last: u64) -> (r: bool)
    ensures
        r == cooldown_over(now, last),
{
    last == 0 || now.saturating_sub(last) >= CACHE_REPLAY_COOLDOWN_SECS
}

/// The cache is replayed to a node: it has no active session, the cache is fresh and the cooldown
/// is over.
pub open spec fn replays(now: u64, last: u64, has_active_session: bool, cached_at: u64) -> bool {
    !has_active_session && cache_fresh(now, cached_at) && cooldown_over(now, last)
}

/// Whether the cache is replayed to a node.
pub fn should_replay_cache(now: u64, last: u64, has_active_session: bool, cached_at: u64) -> (r:
    bool)
    ensures
        r == replays(now, last, has_active_session, cached_at),
{
    !has_active_session && is_bootstrap_cache_fresh(now, cached_at) && cache_replay_allowed(
        now,
        last,
    )
}

/// After a replay the next one to the same node waits for the cooldown, whatever the cache.
pub proof fn replay_is_not_repeated(at: u64, now: u64, has_active_session: bool, cached_at: u64)
    requires
        at != 0,
        now < at + CACHE_REPLAY_COOLDOWN_SECS,
    ensures
        !replays(now, at, has_active_session, cached_at),
{
}

/// What is decided on a node's request for a bootstrap.
#[derive(Clone, Copy, Debug, PartialEq, Eq, Structural)]
pub enum ReplayDecision {
    /// There is no cache.
    NoCache,
    /// Replay the cache.
    Replay,
    /// The node has an active session.
    ActiveSession,
    /// The cache is too old: its age in seconds.
    Stale(u64),
    /// The node had a replay this many seconds ago.
    Cooldown(u64),
}

/// What is decided on a node's request for a bootstrap: the cache is replayed, or the first reason
/// against it.
pub open spec fn replay_decision(
    have_cache: bool,
    now: u64,
    last: u64,
    has_active_session: bool,
    cached_at: u64,
) -> ReplayDecision {
    if !have_cache {
        ReplayDecision::NoCache
    } else if has_active_session {
        ReplayDecision::ActiveSession
    } else if !cache_fresh(now, cached_at) {
        ReplayDecision::Stale(cache_age(now, cached_at) as u64)
    } else if !cooldown_over(now, last) {
        ReplayDecision::Cooldown(cache_age(now, last) as u64)
    } else {
        ReplayDecision::Replay
    }
}

/// Decides whether a node gets the cache, and if not, why.
pub fn decide_replay(
    have_cache: bool,
    now: u64,
    last: u64,
    has_active_session: bool,
    cached_at: u64,
) -> (r: ReplayDecision)
    ensures
        r == replay_decision(have_cache, now, last, has_active_session, cached_at),
        r is Replay <==> have_cache && replays(now, last, has_active_session, cached_at),
{
    if !have_cache {
        return ReplayDecision::NoCache;
    }
    if should_replay_cache(now, last, has_active_session, cached_at) {
        return ReplayDecision::Replay;
    }
    if has_active_session {
        ReplayDecision::ActiveSession
    } else if !is_bootstrap_cache_fresh(now, cached_at) {
        ReplayDecision::Stale(now.saturating_sub(cached_at))
    } else {
        ReplayDecision::Cooldown(now.saturating_sub(last))
    }
}

/// A node without an active session gets a cache that was made at most 480 seconds ago, unless it
/// had a replay less than 30 seconds ago; and only then. A refusal names the first of the reasons
/// that holds.
pub proof fn cold_node_gets_a_fresh_cache(
    have_cache: bool,
    now: u64,
    last: u64,
    has_active_session: bool,
    cached_at: u64,
)
    ensures
        ({
            let decision = replay_decision(have_cache, now, last, has_active_session, cached_at);
            let fresh = 0 < cached_at && now <= cached_at + 480;
            let rested = last == 0 || last + 30 <= now;
            &&& decision is Replay <==> have_cache && !has_active_session && fresh && rested
            &&& decision is NoCache <==> !have_cache
            &&& decision is ActiveSession <==> have_cache && has_active_session
            &&& decision is Stale <==> have_cache && !has_active_session && !fresh
            &&& decision is Cooldown <==> have_cache && !has_active_session && fresh && !rested
            &&& decision matches ReplayDecision::Stale(age) ==> age == if now > cached_at {
                now - cached_at
            } else {
                0
            }
            &&& decision matches ReplayDecision::Cooldown(ago) ==> ago == if now > last {
                now - last
            } else {
                0
            }
            &&& replays(now, last, has_active_session, cached_at) <==> !has_active_session && fresh
                && rested
        }),
{
}

/// Once the cooldown is over, what a node was given before plays no part: neither whether it ever
/// had a replay, nor whether that came before or after the cache was made.
pub proof fn past_replay_plays_no_part(
    have_cache: bool,
    now: u64,
    last: u64,
    other: u64,
    has_active_session: bool,
    cached_at: u64,
)
    requires
        last == 0 || last + 30 <= now,
        other == 0 || other + 30 <= now,
    ensures
        replay_decision(have_cache, now, last, has_active_session, cached_at) == replay_decision(
            have_cache,
            now,
            other,
            has_active_session,
            cached_at,
        ),
        replays(now, last, has_active_session, cached_at) == replays(
            now,
            other,
            has_active_session,
            cached_at,
        ),
{
}

/// A node that may have the cache may have it until the cache is too old.
pub proof fn replay_stays_open(now: u64, later: u64, last: u64, cached_at: u64)
    requires
        replays(now, last, false, cached_at),
        now <= later <= cached_at + 480,
    ensures
        replays(later, last, false, cached_at),
{
}

/// Raises `floor` to `round` where that is higher; whether it was.
pub fn raise_round_floor(floor: &mut u32, round: u32) -> (r: bool)
    ensures
        r == (round > *old(floor)),
        *final(floor) == if round > *old(floor) {
            round
        } else {
            *old(floor)
        },
{
    if round > *floor {
        *floor = round;
        true
    } else {
        false
    }
}

/// Why a file on disk is not used as a cache.
#[derive(Clone, Copy, Debug, PartialEq, Eq, Structural)]
pub enum CacheError {
    /// It is too old: its age in seconds.
    TooOld(u64),
    /// It is too small: its bytes.
    TooSmall(u64),
    /// It does not end on a frame boundary: its bytes.
    IncompleteFrame(u64),
    /// It is not a whole bootstrap: its bytes and frames.
    Incomplete(u64, u64),
}

/// The message of an error.
pub open spec fn cache_error_text(error: CacheError) -> Seq<char> {
    match error {
        CacheError::TooOld(age) => "disk cache too old: "@ + decimal(age as nat) + "s"@,
        CacheError::TooSmall(bytes) => "disk cache too small: "@ + decimal(bytes as nat)
            + " bytes"@,
        CacheError::IncompleteFrame(bytes) => "disk cache has incomplete frame boundary: "@
            + decimal(bytes as nat) + " bytes"@,
        CacheError::Incomplete(bytes, frames) => "disk cache incomplete: "@ + decimal(bytes as nat)
            + " bytes, "@ + decimal(frames as nat) + " frames"@,
    }
}

impl CacheError {
    /// The message of the error.
    pub fn message(&self) -> (r: String)
        ensures
            r@ == cache_error_text(*self),
    {
        let mut r = String::new();
        match self {
            CacheError::TooOld(age) => {
                push_text(&mut r, "disk cache too old: ");
                push_decimal(&mut r, *age);
                push_text(&mut r, "s");
            },
            CacheError::TooSmall(bytes) => {
                push_text(&mut r, "disk cache too small: ");
                push_decimal(&mut r, *bytes);
                push_text(&mut r, " bytes");
            },
            CacheError::IncompleteFrame(bytes) => {
                push_text(&mut r, "disk cache has incomplete frame boundary: ");
                push_decimal(&mut r, *bytes);
                push_text(&mut r, " bytes");
            },
            CacheError::Incomplete(bytes, frames) => {
                push_text(&mut r, "disk cache incomplete: ");
                push_decimal(&mut r, *bytes);
                push_text(&mut r, " bytes, ");
                push_decimal(&mut r, *frames);
                push_text(&mut r, " frames");
            },
        }
        assert(r@ =~= cache_error_text(*self));
        r
    }
}

/// Looks at the age and the size of a cache file before it is read.
pub fn check_cache_file(now: u64, cached_at: u64, bytes: u64) -> (r: Result<(), CacheError>)
    ensures
        r == if !cache_fresh(now, cached_at) {
            Err::<(), CacheError>(CacheError::TooOld(cache_age(now, cached_at) as u64))
        } else if bytes < 4_400_000_000 {
            Err(CacheError::TooSmall(bytes))
        } else {
            Ok(())
        },
{
    if !is_bootstrap_cache_fresh(now, cached_at) {
        return Err(CacheError::TooOld(now.saturating_sub(cached_at)));
    }
    if bytes < MIN_COMPLETE_BOOTSTRAP_BYTES {
        return Err(CacheError::TooSmall(bytes));
    }
    Ok(())
}

/// What is wrong with the contents of a cache file: they must be whole frames, and enough of them.
pub open spec fn blob_outcome(blob: Seq<u8>) -> Result<u64, CacheError> {
    match split_frames(blob) {
        None => Err(CacheError::IncompleteFrame(blob.len() as u64)),
        Some(frames) => if blob.len() >= 4_400_000_000 && frames.len() >= 4_000 {
            Ok(frames.len() as u64)
        } else {
            Err(CacheError::Incomplete(blob.len() as u64, frames.len() as u64))
        },
    }
}

/// The contents of a cache file are used just where they are whole frames, at least 4,400,000,000
/// bytes and at least 4,000 frames: whatever a row of frames is made of, its bytes pass where it is
/// that long, and nothing but such a row passes.
pub proof fn usable_cache_is_a_long_row_of_frames(frames: Seq<Frame>, blob: Seq<u8>)
    requires
        forall|i: int| 0 <= i < frames.len() ==> (#[trigger] frames[i]).1.len() <= 1_500_000_000,
        frames.len() <= u64::MAX,
    ensures
        ({
            let row = join_frames(frames);
            &&& blob_outcome(row) is Ok <==> row.len() >= 4_400_000_000 && frames.len() >= 4_000
            &&& blob_outcome(row) matches Ok(n) ==> n == frames.len()
            &&& blob_outcome(row) is Err ==> blob_outcome(row) == Err::<u64, CacheError>(
                CacheError::Incomplete(row.len() as u64, frames.len() as u64),
            )
        }),
        blob_outcome(blob) is Ok ==> split_frames(blob) is Some && join_frames(split_frames(blob)->0)
            == blob && blob.len() >= 4_400_000_000 && (split_frames(blob)->0).len() >= 4_000,
        split_frames(blob) is None ==> blob_outcome(blob) == Err::<u64, CacheError>(
            CacheError::IncompleteFrame(blob.len() as u64),
        ),
{
    join_then_split(frames);
    if split_frames(blob) is Some {
        split_then_join(blob);
    }
}

/// Looks at the contents of a cache file; the number of its frames.
pub fn load_bootstrap_cache(blob: &[u8]) -> (r: Result<u64, CacheError>)
    ensures
        r == blob_outcome(blob@),
{
    match complete_frame_count(blob) {
        None => Err(CacheError::IncompleteFrame(blob.len() as u64)),
        Some(frames) => {
            if complete_bootstrap_at_frame_boundary(blob.len() as u64, frames) {
                Ok(frames)
            } else {
                Err(CacheError::Incomplete(blob.len() as u64, frames))
            }
        },
    }
}

/// Where the cache lies on disk: where the setting says, else beside the peer file where that
/// directory can be written, else in the temporary directory.
pub open spec fn cache_path(setting: Option<Seq<char>>, peer_file: Seq<char>, writable: bool) -> Seq<
    char,
> {
    match setting {
        Some(path) => path,
        None => if writable {
            beside(peer_file, "bootstrap.cache"@)
        } else {
            "/tmp/hypersync-bootstrap.cache"@
        },
    }
}

/// Where the cache lies on disk. `writable` says whether a file can be made beside the peer file.
pub fn bootstrap_cache_path(setting: Option<&str>, node_peer_file: &str, writable: bool) -> (r:
    String)
    ensures
        r@ == cache_path(opt_text(setting), node_peer_file@, writable),
{
    match setting {
        Some(path) => path.to_owned(),
        None => if writable {
            path_beside(node_peer_file, "bootstrap.cache")
        } else {
            "/tmp/hypersync-bootstrap.cache".to_owned()
        },
    }
}

/// A path that is set is used as it is, whatever else holds. Without one the cache lies beside the
/// peer file where a file can be made there, else in the temporary directory.
pub proof fn set_path_wins(path: Seq<char>, peer_file: Seq<char>, writable: bool)
    ensures
        cache_path(Some(path), peer_file, writable) == path,
        cache_path(None, peer_file, true) == beside(peer_file, "bootstrap.cache"@),
        cache_path(None, peer_file, false) == "/tmp/hypersync-bootstrap.cache"@,
{
}

/// What the refresh loop does next.
#[derive(Clone, Copy, Debug, PartialEq, Eq, Structural)]
pub enum RefreshStep {
    /// Look again after this many seconds: the cache is young.
    Young(u64),
    /// Look again after this many seconds: too few peers are live.
    FewLive(u64),
    /// Capture now; whether the cache is fresh.
    Capture { fresh: bool },
}

/// What the refresh loop does at a time.
pub open spec fn refresh_step(have_cache: bool, now: u64, cached_at: u64, live: nat) -> RefreshStep {
    if have_cache && cache_fresh(now, cached_at) {
        if now < cached_at + CACHE_REFRESH_SECS && now < u64::MAX {
            let wait = if cached_at + CACHE_REFRESH_SECS < u64::MAX {
                cached_at + CACHE_REFRESH_SECS - now
            } else {
                u64::MAX - now
            };
            RefreshStep::Young(
                if wait < CACHE_REFRESH_RETRY_SECS {
                    wait as u64
                } else {
                    CACHE_REFRESH_RETRY_SECS
                },
            )
        } else if live < 4 && seconds_left(now, cached_at) > 90 {
            RefreshStep::FewLive(retry_delay(now, cached_at) as u64)
        } else {
            RefreshStep::Capture { fresh: true }
        }
    } else {
        RefreshStep::Capture { fresh: false }
    }
}

/// Decides what the refresh loop does next.
pub fn plan_refresh(have_cache: bool, now: u64, cached_at: u64, live_count: usize) -> (r:
    RefreshStep)
    ensures
        r == refresh_step(have_cache, now, cached_at, live_count as nat),
{
    if !(have_cache && is_bootstrap_cache_fresh(now, cached_at)) {
        return RefreshStep::Capture { fresh: false };
    }
    let next_refresh: u64 = cached_at.saturating_add(CACHE_REFRESH_SECS);
    if now < next_refresh {
        let wait: u64 = next_refresh - now;
        return RefreshStep::Young(
            if wait < CACHE_REFRESH_RETRY_SECS {
                wait
            } else {
                CACHE_REFRESH_RETRY_SECS
            },
        );
    }
    if should_delay_cache_refresh_for_live_pool(now, cached_at, live_count) {
        return RefreshStep::FewLive(fresh_cache_retry_delay_secs(now, cached_at));
    }
    RefreshStep::Capture { fresh: true }
}

/// A fresh cache is filled again before it is too old, however few peers are live: within the
/// margin before its end the loop captures.
pub proof fn cache_is_refilled_in_time(now: u64, cached_at: u64, live: nat)
    requires
        cache_fresh(now, cached_at),
        seconds_left(now, cached_at) <= 90,
        cached_at <= now < u64::MAX,
    ensures
        refresh_step(true, now, cached_at, live) == (RefreshStep::Capture { fresh: true }),
{
}

/// However long the loop waits on a fresh cache, it looks again no later than the margin before
/// the cache's end begins; so a cache is never found too old by a loop that has only waited.
pub proof fn next_look_comes_in_time(now: u64, cached_at: u64, live: nat)
    requires
        cached_at <= now <= u64::MAX - 240,
    ensures
        match refresh_step(true, now, cached_at, live) {
            RefreshStep::Young(delay) | RefreshStep::FewLive(delay) => {
                &&& 1 <= delay <= 30
                &&& seconds_left((now + delay) as u64, cached_at) >= 90
            },
            RefreshStep::Capture { .. } => true,
        },
{
}

/// When the loop captures and when it waits: without a fresh cache it captures at once; a fresh one
/// is left alone for 240 seconds, and then until 390 seconds as long as fewer than four peers are
/// live. It never waits beyond the point that it waits for, nor longer than half a minute.
pub proof fn refresh_keeps_to_its_times(have_cache: bool, now: u64, cached_at: u64, live: nat)
    requires
        cached_at <= now,
        cached_at <= u64::MAX - 480,
    ensures
        ({
            let step = refresh_step(have_cache, now, cached_at, live);
            let fresh = have_cache && 0 < cached_at && now <= cached_at + 480;
            &&& step == (RefreshStep::Capture { fresh: false }) <==> !fresh
            &&& step is Young <==> fresh && now < cached_at + 240
            &&& step is FewLive <==> fresh && cached_at + 240 <= now < cached_at + 390 && live < 4
            &&& step == (RefreshStep::Capture { fresh: true }) <==> fresh && now >= cached_at + 240
                && (live >= 4 || now >= cached_at + 390)
            &&& step matches RefreshStep::Young(delay) ==> delay == if now + 30 <= cached_at + 240 {
                30
            } else {
                cached_at + 240 - now
            }
            &&& step matches RefreshStep::FewLive(delay) ==> delay == if now + 30 <= cached_at + 390 {
                30
            } else {
                cached_at + 390 - now
            }
        }),
{
}

/// The peers of a round of captures: a window of `peers`. It starts at the first, or, where the
/// cache is fresh or a round failed before, at a place that moves on with every round.
pub open spec fn capture_window(peers: Seq<Seq<char>>, fresh: bool, fails: u32, cycle: usize) -> Seq<
    Seq<char>,
> {
    let n = peers.len() as int;
    let window = if fresh {
        FRESH_WINDOW as int
    } else {
        COLD_WINDOW as int
    };
    let take = if window < n {
        window
    } else {
        n
    };
    let off = if fresh || fails > 0 {
        cycle.wrapping_mul(take as usize) as int % n
    } else {
        0
    };
    Seq::new(take as nat, |k: int| peers[(off + k) % n])
}

/// A round of captures takes 24 peers while the cache is fresh and 64 while it is not, or all where
/// there are fewer. It takes them in their order and round, from the first one while nothing has
/// failed and the cache is cold, else from where the round before it ended.
pub proof fn windows_follow_each_other(
    peers: Seq<Seq<char>>,
    fresh: bool,
    fails: u32,
    cycle: usize,
    k: int,
)
    requires
        peers.len() > 0,
        cycle * 64 <= usize::MAX,
    ensures
        ({
            let n = peers.len() as int;
            let window = capture_window(peers, fresh, fails, cycle);
            let most: int = if fresh {
                24
            } else {
                64
            };
            &&& window.len() == if most < n {
                most
            } else {
                n
            }
            &&& !fresh && fails == 0 ==> window == peers.take(window.len() as int)
            &&& (fresh || fails > 0) && 0 <= k < window.len() ==> window[k] == peers[(cycle
                * window.len() + k) % n]
        }),
{
    let n = peers.len() as int;
    let window = capture_window(peers, fresh, fails, cycle);
    let take = window.len() as int;
    assert(cycle * take <= usize::MAX) by (nonlinear_arith)
        requires
            cycle * 64 <= usize::MAX,
            0 <= take <= 64,
            0 <= cycle,
    ;
    assert(cycle * take >= 0) by (nonlinear_arith)
        requires
            0 <= take,
            0 <= cycle,
    ;
    if !fresh && fails == 0 {
        assert forall|i: int| 0 <= i < take implies window[i] == peers.take(take)[i] by {
            assert((0 + i) % n == i) by (nonlinear_arith)
                requires
                    0 <= i < n,
            ;
        }
        assert(window =~= peers.take(take));
    } else if 0 <= k < take {
        let whole = cycle * take;
        assert(cycle.wrapping_mul(take as usize) == whole);
        assert((whole % n + k) % n == (whole + k) % n) by {
            vstd::arithmetic::div_mod::lemma_add_mod_noop_right(k, whole, n);
            assert((k + whole % n) % n == (k + whole) % n);
        }
    }
}

/// Failed rounds in a row, counted up to four, after one more.
pub open spec fn fails_after(fails: u32) -> u32 {
    if fails < 4 {
        (fails + 1) as u32
    } else {
        4
    }
}

/// Seconds to wait after so many failed rounds in a row on a cold cache.
pub open spec fn cold_delay(fails: u32) -> u64 {
    if fails == 1 {
        60
    } else if fails == 2 {
        120
    } else if fails == 3 {
        300
    } else {
        600
    }
}

/// Failed rounds on a cold cache are followed by waits of one, two, five and then always ten
/// minutes.
pub proof fn cold_waits_grow(fails: u32)
    ensures
        fails == 0 ==> fails_after(fails) == 1 && cold_delay(fails_after(fails)) == 60,
        fails == 1 ==> fails_after(fails) == 2 && cold_delay(fails_after(fails)) == 120,
        fails == 2 ==> fails_after(fails) == 3 && cold_delay(fails_after(fails)) == 300,
        fails >= 3 ==> fails_after(fails) == 4 && cold_delay(fails_after(fails)) == 600,
{
}

/// The loop that keeps the cache filled.
pub struct RefreshLoop {
    cycle: usize,
    fails: u32,
}

impl RefreshLoop {
    /// Rounds so far, from where the loop started counting.
    pub closed spec fn cycle(&self) -> usize {
        self.cycle
    }

    /// Failed rounds in a row on a cold cache, counted up to four.
    pub closed spec fn fails(&self) -> u32 {
        self.fails
    }

    /// A loop whose window starts to move at `seed`.
    pub fn new(seed: usize) -> (r: RefreshLoop)
        ensures
            r.cycle() == seed,
            r.fails() == 0,
    {
        RefreshLoop { cycle: seed, fails: 0 }
    }

    /// The peers of the next round of captures.
    pub fn next_window(&mut self, peers: &Vec<String>, fresh: bool) -> (r: Vec<String>)
        ensures
            texts(r@) == capture_window(
                texts(peers@),
                fresh,
                old(self).fails(),
                old(self).cycle(),
            ),
            final(self).cycle() == old(self).cycle().wrapping_add(1),
            final(self).fails() == old(self).fails(),
    {
        let cycle: usize = self.cycle;
        self.cycle = cycle.wrapping_add(1);
        let ghost all = texts(peers@);
        let ghost want = capture_window(all, fresh, self.fails, cycle);
        let n = peers.len();
        assert(all.len() == n);
        let mut out: Vec<String> = Vec::new();
        if n == 0 {
            assert(texts(out@) =~= want);
            return out;
        }
        let window: usize = if fresh {
            FRESH_WINDOW
        } else {
            COLD_WINDOW
        };
        let take: usize = if window < n {
            window
        } else {
            n
        };
        let off: usize = if fresh || self.fails > 0 {
            cycle.wrapping_mul(take) % n
        } else {
            0
        };
        let mut k: usize = 0;
        assert(texts(out@) =~= want.take(0));
        while k < take
            invariant
                k <= take <= n,
                n == peers@.len() == all.len(),
                0 < n,
                off < n,
                all == texts(peers@),
                want == Seq::new(take as nat, |k: int| all[(off + k) % (n as int)]),
                texts(out@) == want.take(k as int),
            decreases take - k,
        {
            let ghost before = out@;
            let j = step_round(off, k, n);
            let ip = peers[j].clone();
            out.push(ip);
            proof {
                texts_push(before, ip);
            }
            k = k + 1;
            assert(texts(out@) =~= want.take(k as int));
        }
        assert(want.take(k as int) =~= want);
        out
    }

    /// Ends a round of captures: seconds to wait before the next look. `now` is the time after the
    /// round, `cached_at` the time of the cache before it.
    pub fn finish_round(&mut self, got: bool, fresh: bool, now: u64, cached_at: u64) -> (r: u64)
        ensures
            final(self).cycle() == old(self).cycle(),
            final(self).fails() == if got {
                0
            } else if fresh {
                old(self).fails()
            } else {
                fails_after(old(self).fails())
            },
            r == if got {
                CACHE_REFRESH_SECS as nat
            } else if fresh {
                retry_delay(now, cached_at)
            } else {
                cold_delay(final(self).fails()) as nat
            },
    {
        if got {
            self.fails = 0;
            return CACHE_REFRESH_SECS;
        }
        if fresh {
            return fresh_cache_retry_delay_secs(now, cached_at);
        }
        self.fails = if self.fails < 4 {
            self.fails + 1
        } else {
            4
        };
        if self.fails == 1 {
            60
        } else if self.fails == 2 {
            120
        } else if self.fails == 3 {
            300
        } else {
            600
        }
    }
}

/// A window names no more peers than there are, and no place of the list twice.
pub proof fn window_places_are_distinct(n: int, take: int, off: int, j: int, k: int)
    requires
        0 < n,
        0 <= j < k < take <= n,
        0 <= off < n,
    ensures
        0 <= (off + j) % n < n,
        (off + j) % n != (off + k) % n,
{
    assert((off + j) % n == if off + j < n {
        off + j
    } else {
        off + j - n
    }) by (nonlinear_arith)
        requires
            0 <= off < n,
            0 <= j < n,
    ;
    assert((off + k) % n == if off + k < n {
        off + k
    } else {
        off + k - n
    }) by (nonlinear_arith)
        requires
            0 <= off < n,
            0 <= k < n,
    ;
}

/// The round that a replayed cache takes a node to; 0 where it shows none.
pub open spec fn cache_floor_of(blob: Seq<u8>) -> u32 {
    match clustered_max(
        in_order(rounds_from(blob, 0)),
        MIN_ROUND_CLUSTER as nat,
        MAX_ROUND_CLUSTER_GAP,
    ) {
        Some(round) => round,
        None => 0,
    }
}

/// The round that a replayed cache takes a node to.
pub fn cache_floor(blob: &[u8]) -> (r: u32)
    ensures
        r == cache_floor_of(blob@),
{
    match max_block_round_in_frames(blob) {
        Some(round) => round,
        None => 0,
    }
}

/// What a replay of the cache does next.
#[derive(Clone, Copy, Debug, PartialEq, Eq, Structural)]
pub enum ReplayPhase {
    /// Write the bytes from here up to there to the node.
    Write { from: usize, to: usize },
    /// All is written: go on with live blocks.
    Written,
    /// The node is gone.
    Failed,
}

/// The piece of a blob of `len` bytes that starts at `from`.
pub open spec fn replay_piece(len: int, from: int) -> ReplayPhase {
    if from >= len {
        ReplayPhase::Written
    } else {
        ReplayPhase::Write {
            from: from as usize,
            to: (if len - from > REPLAY_CHUNK {
                from + REPLAY_CHUNK
            } else {
                len
            }) as usize,
        }
    }
}

/// A replay goes on until the last byte is written, in pieces of 8,388,608 bytes and a shorter last
/// one, each where the one before it ended.
pub proof fn pieces_abut(len: int, from: int)
    requires
        0 <= from,
        0 <= len <= usize::MAX,
    ensures
        replay_piece(len, from) is Written <==> from >= len,
        replay_piece(len, from) matches ReplayPhase::Write { from: a, to: b } ==> a == from && b
            == if from + 8_388_608 < len {
            from + 8_388_608
        } else {
            len
        },
        !(replay_piece(len, from) is Failed),
{
}

/// A replay of a cache, piece by piece.
pub struct CacheReplay {
    len: usize,
    phase: ReplayPhase,
}

impl CacheReplay {
    /// The bytes of the cache.
    pub closed spec fn len(&self) -> usize {
        self.len
    }

    /// What to do next.
    pub closed spec fn at(&self) -> ReplayPhase {
        self.phase
    }

    /// A piece lies within the cache.
    pub open spec fn well_formed(&self) -> bool {
        self.at() matches ReplayPhase::Write { from, to } ==> from < to <= self.len()
    }

    fn piece(len: usize, from: usize) -> (r: ReplayPhase)
        requires
            from <= len,
        ensures
            r == replay_piece(len as int, from as int),
    {
        if from >= len {
            ReplayPhase::Written
        } else if len - from > REPLAY_CHUNK {
            ReplayPhase::Write { from, to: from + REPLAY_CHUNK }
        } else {
            ReplayPhase::Write { from, to: len }
        }
    }

    /// A replay of `len` bytes.
    pub fn new(len: usize) -> (r: CacheReplay)
        ensures
            r.well_formed(),
            r.len() == len,
            r.at() == replay_piece(len as int, 0),
    {
        CacheReplay { len, phase: CacheReplay::piece(len, 0) }
    }

    /// What to do next.
    pub fn phase(&self) -> (r: ReplayPhase)
        ensures
            r == self.at(),
    {
        self.phase
    }

    /// Takes whether the last piece could be written.
    pub fn step(&mut self, written: bool)
        requires
            old(self).well_formed(),
        ensures
            final(self).well_formed(),
            final(self).len() == old(self).len(),
            final(self).at() == match old(self).at() {
                ReplayPhase::Write { to, .. } => if written {
                    replay_piece(old(self).len() as int, to as int)
                } else {
                    ReplayPhase::Failed
                },
                phase => phase,
            },
    {
        match self.phase {
            ReplayPhase::Write { to, .. } => {
                self.phase = if written {
                    CacheReplay::piece(self.len, to)
                } else {
                    ReplayPhase::Failed
                };
            },
            _ => {},
        }
    }
}

/// The bytes that a replay writes from `from` on, piece by piece.
pub open spec fn replayed_bytes(blob: Seq<u8>, from: int) -> Seq<u8>
    decreases blob.len() - from,
{
    match replay_piece(blob.len() as int, from) {
        ReplayPhase::Write { from: a, to: b } => if 0 <= from < b <= blob.len() {
            blob.subrange(from, b as int) + replayed_bytes(blob, b as int)
        } else {
            Seq::empty()
        },
        _ => Seq::empty(),
    }
}

/// The pieces of a replay make up the cache, byte for byte, and none is longer than the limit.
pub proof fn replay_is_verbatim(blob: Seq<u8>, from: int)
    requires
        0 <= from <= blob.len() <= usize::MAX,
    ensures
        replayed_bytes(blob, from) == blob.skip(from),
        replay_piece(blob.len() as int, from) matches ReplayPhase::Write { from: a, to: b } ==> 0 < b
            - a <= REPLAY_CHUNK && a == from,
    decreases blob.len() - from,
{
    if from < blob.len() {
        let to = if blob.len() - from > REPLAY_CHUNK {
            from + REPLAY_CHUNK
        } else {
            blob.len() as int
        };
        replay_is_verbatim(blob, to);
        assert(blob.subrange(from, to) + blob.skip(to) =~= blob.skip(from));
    } else {
        assert(blob.skip(from) =~= Seq::empty());
    }
}

/// A replayed cache takes a node to its last block where it shows four or more of them close
/// together, and nowhere where it shows fewer than four.
pub proof fn floor_is_the_last_of_close_blocks(blob: Seq<u8>)
    ensures
        ({
            let s = in_order(rounds_from(blob, 0));
            &&& s.len() < 4 ==> cache_floor_of(blob) == 0
            &&& s.len() >= 4 && (forall|i: int|
                0 < i < s.len() ==> #[trigger] s[i] - s[i - 1] <= 10_000) ==> cache_floor_of(blob)
                == s.last()
        }),
{
    order_is_rising(rounds_from(blob, 0));
    four_close_rounds_show_the_end(in_order(rounds_from(blob, 0)), 0);
}

} // verus!
