//! How requests are paced and retried.
//!
//! Each host has a current request spacing that starts at a base delay, grows
//! when the server pushes back (HTTP 429/503, `Retry-After`) and relaxes toward
//! the base on sustained success. Throttling and transient network errors are
//! retried with exponential backoff, bounded by `max_retries`. Nothing here
//! touches the network: a [`Get`] or a [`CurlGet`] says what to do, and is told
//! what came of it.

use vstd::prelude::*;
use vstd::slice::slice_subrange;

use crate::text;
use crate::util;
use crate::web;

verus! {

// ---------------------------------------------------------------------------
// Durations
// ---------------------------------------------------------------------------

/// The longest duration, in nanoseconds: `u64::MAX` seconds and all but one of
/// the nanoseconds of another.
pub const MAX_NANOS: u128 = 18_446_744_073_709_551_615_999_999_999;

/// A span of time, to the nanosecond.
#[derive(Debug, Clone, Copy, PartialEq, Eq, PartialOrd, Ord, Structural)]
pub struct Duration {
    nanos: u128,
}

impl View for Duration {
    type V = nat;

    /// Its length in nanoseconds.
    closed spec fn view(&self) -> nat {
        self.nanos as nat
    }
}

pub open spec fn capped(n: nat) -> nat {
    if n <= MAX_NANOS {
        n
    } else {
        MAX_NANOS as nat
    }
}

impl Duration {
    #[verifier::type_invariant]
    closed spec fn bounded(self) -> bool {
        self.nanos <= MAX_NANOS
    }

    pub fn zero() -> (r: Duration)
        ensures
            r@ == 0,
    {
        Duration { nanos: 0 }
    }

    pub fn from_secs(secs: u64) -> (r: Duration)
        ensures
            r@ == secs * 1_000_000_000,
    {
        Duration { nanos: secs as u128 * 1_000_000_000 }
    }

    pub fn from_millis(millis: u64) -> (r: Duration)
        ensures
            r@ == millis * 1_000_000,
    {
        Duration { nanos: millis as u128 * 1_000_000 }
    }

    /// Its whole seconds and the nanoseconds beyond them.
    pub fn parts(&self) -> (r: (u64, u32))
        ensures
            r.0 * 1_000_000_000 + r.1 == self@,
            r.1 < 1_000_000_000,
    {
        proof {
            use_type_invariant(self);
        }
        ((self.nanos / 1_000_000_000) as u64, (self.nanos % 1_000_000_000) as u32)
    }

    pub fn saturating_mul(&self, factor: u32) -> (r: Duration)
        ensures
            r@ == capped((self@ * factor) as nat),
    {
        proof {
            use_type_invariant(self);
        }
        let top: u128 = MAX_NANOS;
        if factor == 0 {
            assert(self.nanos * 0 == 0) by (nonlinear_arith);
            return Duration { nanos: 0 };
        }
        if self.nanos > top / factor as u128 {
            proof {
                let n = self.nanos;
                let f = factor as u128;
                assert(n * f > MAX_NANOS) by (nonlinear_arith)
                    requires
                        n > MAX_NANOS / f,
                        f > 0,
                ;
            }
            Duration { nanos: top }
        } else {
            proof {
                let n = self.nanos;
                let f = factor as u128;
                assert(n * f <= MAX_NANOS) by (nonlinear_arith)
                    requires
                        n <= MAX_NANOS / f,
                        f > 0,
                ;
            }
            Duration { nanos: self.nanos * factor as u128 }
        }
    }

    pub fn saturating_add(&self, other: Duration) -> (r: Duration)
        ensures
            r@ == capped(self@ + other@),
    {
        proof {
            use_type_invariant(self);
            use_type_invariant(&other);
        }
        let n: u128 = self.nanos + other.nanos;
        if n > MAX_NANOS {
            Duration { nanos: MAX_NANOS }
        } else {
            Duration { nanos: n }
        }
    }

    pub fn min(self, other: Duration) -> (r: Duration)
        ensures
            r@ == if self@ <= other@ {
                self@
            } else {
                other@
            },
    {
        if self.nanos <= other.nanos {
            self
        } else {
            other
        }
    }

    pub fn max(self, other: Duration) -> (r: Duration)
        ensures
            r@ == if self@ >= other@ {
                self@
            } else {
                other@
            },
    {
        if self.nanos >= other.nanos {
            self
        } else {
            other
        }
    }

    /// `num`/`den` of it, rounded down to a nanosecond.
    fn fraction(&self, num: u32, den: u32) -> (r: Duration)
        requires
            0 < den,
            num <= den,
        ensures
            r@ == self@ * num / den as int,
            r@ <= self@,
    {
        proof {
            use_type_invariant(self);
            let n = self.nanos;
            assert(n * num <= 0xffff_ffff * MAX_NANOS) by (nonlinear_arith)
                requires
                    n <= MAX_NANOS,
                    num <= 0xffff_ffff,
            ;
            assert(0xffff_ffff * MAX_NANOS <= u128::MAX);
            assert(n * num / den as int <= n) by (nonlinear_arith)
                requires
                    num <= den,
                    0 < den,
                    0 <= n,
            ;
        }
        Duration { nanos: self.nanos * num as u128 / den as u128 }
    }
}

// ---------------------------------------------------------------------------
// Tuning
// ---------------------------------------------------------------------------

/// Tunable fetch behaviour.
#[derive(Debug, Clone, Copy)]
pub struct FetchConfig {
    /// Polite floor for request spacing per host.
    pub base_delay: Duration,
    /// Ceiling that adaptive backoff never exceeds.
    pub max_delay: Duration,
    /// Maximum retry attempts for throttling / transient errors.
    pub max_retries: u32,
}

impl FetchConfig {
    /// Sensible defaults derived from a base delay.
    pub fn new(base_delay: Duration) -> (r: Self)
        ensures
            r.base_delay == base_delay,
            r.max_delay@ == (if capped((base_delay@ * 16) as nat) >= 30_000_000_000 {
                capped((base_delay@ * 16) as nat)
            } else {
                30_000_000_000
            }),
            r.max_retries == 4,
    {
        let max_delay = base_delay.saturating_mul(16).max(Duration::from_secs(30));
        Self { base_delay, max_delay, max_retries: 4 }
    }
}

/// Statuses worth retrying: rate-limit and transient server errors.
pub open spec fn retryable(code: u16) -> bool {
    code == 429 || code == 500 || code == 502 || code == 503 || code == 504
}

pub fn is_retryable_status(code: u16) -> (r: bool)
    ensures
        r == retryable(code),
{
    code == 429 || code == 500 || code == 502 || code == 503 || code == 504
}

pub open spec fn pow2(n: nat) -> nat
    decreases n,
{
    if n == 0 {
        1
    } else {
        2 * pow2((n - 1) as nat)
    }
}

/// Exponential backoff: `base * 2^(attempt+1)`, capped at `max`.
pub open spec fn backoff(base: nat, attempt: u32, max: nat) -> nat {
    let d = base * pow2((attempt + 1) as nat);
    if d <= max {
        d
    } else {
        max
    }
}

proof fn lemma_pow2_grows(a: nat, b: nat)
    requires
        a <= b,
    ensures
        0 < pow2(a) <= pow2(b),
    decreases b,
{
    if b > 0 {
        if a == b {
            lemma_pow2_grows((a - 1) as nat, (b - 1) as nat);
        } else {
            lemma_pow2_grows(a, (b - 1) as nat);
        }
    }
}

pub fn backoff_delay(base: Duration, attempt: u32, max: Duration) -> (r: Duration)
    ensures
        r@ == backoff(base@, attempt, max@),
{
    proof {
        use_type_invariant(&base);
        use_type_invariant(&max);
    }
    let start: u128 = base.nanos;
    let top: u128 = max.nanos;
    let last: u64 = attempt as u64 + 1;
    let mut n: u128 = start;
    let mut i: u64 = 0;
    assert(pow2(0) == 1);
    assert(start * 1 == start);
    while i < last && 0 < n && n < top
        invariant
            i <= last,
            top <= MAX_NANOS,
            start <= MAX_NANOS,
            n <= 2 * MAX_NANOS,
            n == start * pow2(i as nat),
        decreases last - i,
    {
        assert(start * pow2((i + 1) as nat) == 2 * (start * pow2(i as nat))) by (nonlinear_arith)
            requires
                pow2((i + 1) as nat) == 2 * pow2(i as nat),
        ;
        n = n * 2;
        i += 1;
    }
    proof {
        let x = pow2(i as nat) as int;
        let y = pow2(last as nat) as int;
        lemma_pow2_grows(i as nat, last as nat);
        assert(start * x <= start * y) by (nonlinear_arith)
            requires
                0 <= start,
                x <= y,
        ;
        if n == 0 {
            assert(start == 0) by (nonlinear_arith)
                requires
                    0 == start * x,
                    0 < x,
            ;
            assert(start * y == 0) by (nonlinear_arith)
                requires
                    start == 0,
            ;
        }
    }
    if n <= top {
        Duration { nanos: n }
    } else {
        max
    }
}

/// Backoff never exceeds the ceiling, and below it doubles with every attempt.
pub proof fn law_backoff_grows_and_caps(base: nat, attempt: u32, max: nat)
    requires
        attempt < u32::MAX,
    ensures
        backoff(base, attempt, max) <= max,
        backoff(base, attempt, max) <= backoff(base, (attempt + 1) as u32, max),
        backoff(base, (attempt + 1) as u32, max) == (if 2 * backoff(base, attempt, max) <= max {
            2 * backoff(base, attempt, max)
        } else {
            max
        }),
{
    let a = pow2((attempt + 1) as nat);
    let b = pow2((attempt + 2) as nat);
    assert(b == 2 * a);
    assert(base * b == 2 * (base * a)) by (nonlinear_arith)
        requires
            b == 2 * a,
    ;
}

/// What a `Retry-After` header asks for, in its seconds form.
pub open spec fn retry_after(value: Seq<char>) -> Option<nat> {
    match text::parsed(text::trimmed(value), u64::MAX as nat) {
        Some(n) => Some((n * 1_000_000_000) as nat),
        None => None,
    }
}

/// Parse a `Retry-After` header. Only the delta-seconds form is honoured; the
/// HTTP-date form is ignored (the caller falls back to computed backoff).
pub fn parse_retry_after(value: &str) -> (r: Option<Duration>)
    ensures
        r is Some == retry_after(value@) is Some,
        r matches Some(d) ==> d@ == retry_after(value@)->0,
{
    let v = text::to_chars(value);
    match text::parse_u64(text::trim(&v), u64::MAX) {
        Some(n) => Some(Duration::from_secs(n)),
        None => None,
    }
}

/// Up to 40% of a delay: as many 1000ths of that as `nanos` is past a multiple
/// of 1000, to the nanosecond.
pub open spec fn jitter_of(base: nat, nanos: u32) -> nat {
    (base * (4 * (nanos as int % 1000)) / 10_000) as nat
}

pub fn jitter_from(base: Duration, nanos: u32) -> (r: Duration)
    ensures
        r@ == jitter_of(base@, nanos),
        r@ * 10 <= base@ * 4,
{
    let k: u32 = 4 * (nanos % 1000);
    proof {
        let b = base@ as int;
        assert(b * k / 10_000 * 10 <= b * 4) by (nonlinear_arith)
            requires
                0 <= b,
                0 <= k <= 4000,
        ;
    }
    base.fraction(k, 10_000)
}

/// Add up to +40% random jitter to a delay, so requests aren't metronomic.
/// Time-seeded: quality is irrelevant here.
pub fn jitter(base: Duration) -> (r: Duration)
    ensures
        r@ * 10 <= base@ * 4,
        exists|nanos: u32| r@ == #[trigger] jitter_of(base@, nanos),
{
    let nanos: u32 = match util::nanos_since_epoch(util::wall_clock()) {
        Some(n) => n,
        None => 0,
    };
    jitter_from(base, nanos)
}

// ---------------------------------------------------------------------------
// Spacing per host
// ---------------------------------------------------------------------------

/// Host portion of a URL, for keying per-host rate state.
pub fn host_of(url: &str) -> (r: Option<String>)
    ensures
        text::opt(r) == (match web::host_of(url@) {
            Ok(h) => h,
            Err(_) => None,
        }),
{
    match web::url_host(url) {
        Ok(h) => h,
        Err(_) => None,
    }
}

/// Current polite spacing per host; grows on throttling, relaxes on success.
pub struct HostDelays {
    config: FetchConfig,
    hosts: Vec<(String, Duration)>,
}

/// The spacings in force, in nanoseconds, of the hosts that have their own.
#[verifier::ext_equal]
pub struct DelaysView {
    pub base: nat,
    pub max: nat,
    pub hosts: Map<Seq<char>, nat>,
}

impl DelaysView {
    /// The spacing of a host: its own, or the base.
    pub open spec fn current(self, host: Seq<char>) -> nat {
        if self.hosts.contains_key(host) {
            self.hosts[host]
        } else {
            self.base
        }
    }

    pub open spec fn with(self, host: Seq<char>, delay: nat) -> DelaysView {
        DelaysView { hosts: self.hosts.insert(host, delay), ..self }
    }

    /// Twice the spacing, up to the ceiling.
    pub open spec fn bumped(self, host: Seq<char>) -> DelaysView {
        let twice = capped((self.current(host) * 2) as nat);
        self.with(
            host,
            if twice <= self.max {
                twice
            } else {
                self.max
            },
        )
    }

    /// 85% of the spacing, down to the base.
    pub open spec fn relaxed(self, host: Seq<char>) -> DelaysView {
        let less = (self.current(host) * 85 / 100) as nat;
        if self.current(host) > self.base {
            self.with(
                host,
                if less >= self.base {
                    less
                } else {
                    self.base
                },
            )
        } else {
            self
        }
    }
}

pub open spec fn host_index(v: Seq<(String, Duration)>, host: Seq<char>) -> int {
    choose|i: int| 0 <= i < v.len() && (#[trigger] v[i]).0@ == host
}

pub open spec fn knows_host(v: Seq<(String, Duration)>, host: Seq<char>) -> bool {
    exists|i: int| 0 <= i < v.len() && (#[trigger] v[i]).0@ == host
}

pub open spec fn hosts_distinct(v: Seq<(String, Duration)>) -> bool {
    forall|i: int, j: int|
        0 <= i < v.len() && 0 <= j < v.len() && i != j ==> (#[trigger] v[i]).0@ != (
        #[trigger] v[j]).0@
}

impl View for HostDelays {
    type V = DelaysView;

    closed spec fn view(&self) -> DelaysView {
        DelaysView {
            base: self.config.base_delay@,
            max: self.config.max_delay@,
            hosts: Map::new(
                |h: Seq<char>| knows_host(self.hosts@, h),
                |h: Seq<char>| self.hosts@[host_index(self.hosts@, h)].1@,
            ),
        }
    }
}

impl HostDelays {
    pub closed spec fn wf(&self) -> bool {
        hosts_distinct(self.hosts@)
    }

    pub fn new(config: FetchConfig) -> (r: HostDelays)
        ensures
            r.wf(),
            r@ == (DelaysView {
                base: config.base_delay@,
                max: config.max_delay@,
                hosts: Map::empty(),
            }),
    {
        let r = HostDelays { config, hosts: Vec::new() };
        assert(r@.hosts =~= Map::<Seq<char>, nat>::empty());
        r
    }

    fn find(&self, host: &str) -> (r: Option<usize>)
        requires
            self.wf(),
        ensures
            r is Some == self@.hosts.contains_key(host@),
            r matches Some(i) ==> i < self.hosts@.len() && self.hosts@[i as int].0@ == host@
                && self@.hosts[host@] == self.hosts@[i as int].1@,
    {
        let mut i: usize = 0;
        while i < self.hosts.len()
            invariant
                i <= self.hosts@.len(),
                self.wf(),
                forall|j: int| 0 <= j < i ==> (#[trigger] self.hosts@[j]).0@ != host@,
            decreases self.hosts@.len() - i,
        {
            if text::same(self.hosts[i].0.as_str(), host) {
                assert(knows_host(self.hosts@, host@));
                assert(host_index(self.hosts@, host@) == i);
                return Some(i);
            }
            i += 1;
        }
        None
    }

    pub fn current_delay(&self, host: &str) -> (r: Duration)
        requires
            self.wf(),
        ensures
            r@ == self@.current(host@),
    {
        match self.find(host) {
            Some(i) => self.hosts[i].1,
            None => self.config.base_delay,
        }
    }

    fn set_delay(&mut self, host: &str, delay: Duration)
        requires
            old(self).wf(),
        ensures
            final(self).wf(),
            final(self)@ == old(self)@.with(host@, delay@),
            final(self).config == old(self).config,
    {
        let ghost before = *self;
        let ghost s = self.hosts@;
        match self.find(host) {
            Some(i) => {
                self.hosts.set(i, (host.to_string(), delay));
                proof {
                    let t = self.hosts@;
                    assert(forall|j: int| 0 <= j < t.len() ==> (#[trigger] t[j]).0@ == s[j].0@);
                    lemma_host_put(s, t, i as int, host@, delay@);
                }
            },
            None => {
                self.hosts.push((host.to_string(), delay));
                proof {
                    let t = self.hosts@;
                    assert(!knows_host(s, host@));
                    assert forall|a: int, b: int|
                        0 <= a < t.len() && 0 <= b < t.len() && a != b implies (
                    #[trigger] t[a]).0@ != (#[trigger] t[b]).0@ by {
                        if a < s.len() {
                            assert(t[a] == s[a]);
                        }
                        if b < s.len() {
                            assert(t[b] == s[b]);
                        }
                    }
                    lemma_host_put(s, t, s.len() as int, host@, delay@);
                }
            },
        }
        proof {
            assert(self@.hosts =~= before@.hosts.insert(host@, delay@));
            assert(self@ =~= before@.with(host@, delay@));
        }
    }

    /// Double a host's spacing, up to the ceiling.
    pub fn bump_delay(&mut self, host: &str)
        requires
            old(self).wf(),
        ensures
            final(self).wf(),
            final(self)@ == old(self)@.bumped(host@),
    {
        let cur = self.current_delay(host);
        let next = cur.saturating_mul(2).min(self.config.max_delay);
        self.set_delay(host, next);
    }

    /// Let a host's spacing fall back towards the base.
    pub fn relax_delay(&mut self, host: &str)
        requires
            old(self).wf(),
        ensures
            final(self).wf(),
            final(self)@ == old(self)@.relaxed(host@),
    {
        let cur = self.current_delay(host);
        let base = self.config.base_delay;
        if cur.longer_than(base) {
            let less = cur.fraction(85, 100).max(base);
            self.set_delay(host, less);
        }
    }
}

impl Duration {
    pub fn longer_than(&self, other: Duration) -> (r: bool)
        ensures
            r == (self@ > other@),
    {
        self.nanos > other.nanos
    }
}

proof fn lemma_host_put(
    s: Seq<(String, Duration)>,
    t: Seq<(String, Duration)>,
    i: int,
    host: Seq<char>,
    delay: nat,
)
    requires
        hosts_distinct(s),
        hosts_distinct(t),
        0 <= i < t.len(),
        t.len() == s.len() || (t.len() == s.len() + 1 && i == s.len()),
        t[i].0@ == host,
        t[i].1@ == delay,
        forall|j: int| 0 <= j < s.len() && j != i ==> #[trigger] t[j] == s[j],
        i < s.len() ==> s[i].0@ == host,
    ensures
        forall|h: Seq<char>| #[trigger]
            knows_host(t, h) <==> (knows_host(s, h) || h == host),
        forall|h: Seq<char>| #[trigger]
            knows_host(t, h) ==> t[host_index(t, h)].1@ == (if h == host {
                delay
            } else {
                s[host_index(s, h)].1@
            }),
{
    assert forall|h: Seq<char>| #[trigger] knows_host(t, h) <==> (knows_host(s, h) || h == host) by {
        if knows_host(t, h) {
            let j = host_index(t, h);
            if j != i {
                assert(s[j].0@ == h);
            }
        }
        if knows_host(s, h) {
            let j = host_index(s, h);
            assert(t[j].0@ == h);
        }
        assert(t[i].0@ == host);
    }
    assert forall|h: Seq<char>| #[trigger] knows_host(t, h) implies t[host_index(t, h)].1@ == (
    if h == host {
        delay
    } else {
        s[host_index(s, h)].1@
    }) by {
        let j = host_index(t, h);
        assert(t[j].0@ == h);
        if h == host {
            assert(j == i);
        } else {
            assert(t[j] == s[j]);
            assert(knows_host(s, h));
            let x = host_index(s, h);
            assert(s[x].0@ == h);
            assert(x == j);
        }
    }
}

/// A host's spacing stays between the base and the ceiling, however it is
/// treated.
pub proof fn law_spacing_stays_in_bounds(d: DelaysView, host: Seq<char>)
    requires
        d.base <= d.max <= MAX_NANOS,
        d.base <= d.current(host) <= d.max,
    ensures
        d.base <= d.bumped(host).current(host) <= d.max,
        d.base <= d.relaxed(host).current(host) <= d.max,
{
}

/// A pushback is forgotten in time: relaxing never raises a host's spacing, and
/// lowers it while it is over the base.
pub proof fn law_spacing_recovers(d: DelaysView, host: Seq<char>)
    ensures
        d.relaxed(host).current(host) <= d.current(host),
        d.current(host) > d.base ==> d.relaxed(host).current(host) < d.current(host),
{
}

// ---------------------------------------------------------------------------
// A request with its retries
// ---------------------------------------------------------------------------

/// A request that failed for good.
#[derive(Debug)]
pub struct Failure {
    pub message: String,
    /// Whether the server said there is nothing there: a hole in a site's
    /// numbering rather than a failure to reach it.
    pub not_found: bool,
}

/// A [`Failure`] as plain values.
#[verifier::ext_equal]
pub struct FailureView {
    pub message: Seq<char>,
    pub not_found: bool,
}

impl View for Failure {
    type V = FailureView;

    open spec fn view(&self) -> FailureView {
        FailureView { message: self.message@, not_found: self.not_found }
    }
}

impl Clone for Failure {
    fn clone(&self) -> (r: Self)
        ensures
            r@ == self@,
    {
        Failure { message: self.message.clone(), not_found: self.not_found }
    }
}

impl Failure {
    /// A failure to make sense of an answer that did come.
    pub fn other(message: String) -> (r: Failure)
        ensures
            r@ == (FailureView { message: message@, not_found: false }),
    {
        Failure { message, not_found: false }
    }
}

/// Whether a failure means that the page does not exist, as opposed to one that may pass.
pub fn is_not_found(f: &Failure) -> (r: bool)
    ensures
        r == f@.not_found,
{
    f.not_found
}

/// What to do about an answer.
#[derive(Debug)]
pub enum Verdict {
    /// Take it.
    Accept,
    /// Wait, then ask again; which retry that will be.
    Retry { wait: Duration, attempt: u32 },
    /// Give up.
    Fail(Failure),
}

/// A [`Verdict`] as plain values.
#[verifier::ext_equal]
pub enum VerdictView {
    Accept,
    Retry { wait: nat, attempt: u32 },
    Fail(FailureView),
}

impl View for Verdict {
    type V = VerdictView;

    open spec fn view(&self) -> VerdictView {
        match self {
            Verdict::Accept => VerdictView::Accept,
            Verdict::Retry { wait, attempt } => VerdictView::Retry {
                wait: wait@,
                attempt: *attempt,
            },
            Verdict::Fail(f) => VerdictView::Fail(f@),
        }
    }
}

pub open spec fn is_success(code: u16) -> bool {
    200 <= code < 300
}

/// A request for a page, and how often it was retried.
pub struct Get {
    url: String,
    host: String,
    config: FetchConfig,
    attempt: u32,
}

/// A [`Get`] as plain values.
#[verifier::ext_equal]
pub struct GetView {
    pub url: Seq<char>,
    pub host: Seq<char>,
    pub base: nat,
    pub max: nat,
    pub max_retries: u32,
    pub attempt: u32,
}

impl View for Get {
    type V = GetView;

    closed spec fn view(&self) -> GetView {
        GetView {
            url: self.url@,
            host: self.host@,
            base: self.config.base_delay@,
            max: self.config.max_delay@,
            max_retries: self.config.max_retries,
            attempt: self.attempt,
        }
    }
}

impl GetView {
    pub open spec fn retried(self) -> GetView {
        GetView { attempt: (self.attempt + 1) as u32, ..self }
    }

    pub open spec fn can_retry(self) -> bool {
        self.attempt < self.max_retries
    }

    /// The wait a server asks for, or else the computed backoff.
    pub open spec fn wait(self, header: Option<Seq<char>>) -> nat {
        match header {
            Some(v) => match retry_after(v) {
                Some(n) => n,
                None => backoff(self.base, self.attempt, self.max),
            },
            None => backoff(self.base, self.attempt, self.max),
        }
    }

    pub open spec fn verdict_on(
        self,
        code: u16,
        shown: Seq<char>,
        header: Option<Seq<char>>,
    ) -> VerdictView {
        if is_success(code) {
            VerdictView::Accept
        } else if retryable(code) && self.can_retry() {
            VerdictView::Retry { wait: self.wait(header), attempt: (self.attempt + 1) as u32 }
        } else {
            VerdictView::Fail(
                FailureView {
                    message: "GET "@ + self.url + " returned HTTP "@ + shown,
                    not_found: code == 404,
                },
            )
        }
    }

    pub open spec fn verdict_on_error(self, transient: bool) -> VerdictView {
        if transient && self.can_retry() {
            VerdictView::Retry {
                wait: backoff(self.base, self.attempt, self.max),
                attempt: (self.attempt + 1) as u32,
            }
        } else {
            VerdictView::Fail(FailureView { message: "GET "@ + self.url, not_found: false })
        }
    }
}

fn get_failed(url: &str, shown: &str, code: u16) -> (r: Failure)
    ensures
        r@ == (FailureView {
            message: "GET "@ + url@ + " returned HTTP "@ + shown@,
            not_found: code == 404,
        }),
{
    let a = text::concat("GET ", url);
    let b = text::concat(a.as_str(), " returned HTTP ");
    Failure { message: text::concat(b.as_str(), shown), not_found: code == 404 }
}

impl Get {
    /// A request for a URL of a host.
    pub fn from_host(url: &str, host: &Option<String>, config: FetchConfig) -> (r: Get)
        ensures
            r@ == (GetView {
                url: url@,
                host: match text::opt(*host) {
                    Some(h) => h,
                    None => seq![],
                },
                base: config.base_delay@,
                max: config.max_delay@,
                max_retries: config.max_retries,
                attempt: 0,
            }),
    {
        let host = match host {
            Some(h) => h.clone(),
            None => String::new(),
        };
        let r = Get { url: url.to_string(), host, config, attempt: 0 };
        assert(r@.host =~= r.host@);
        r
    }

    pub fn new(url: &str, config: FetchConfig) -> (r: Get)
        ensures
            r@ == (GetView {
                url: url@,
                host: match web::host_of(url@) {
                    Ok(Some(h)) => h,
                    _ => seq![],
                },
                base: config.base_delay@,
                max: config.max_delay@,
                max_retries: config.max_retries,
                attempt: 0,
            }),
    {
        Get::from_host(url, &host_of(url), config)
    }

    /// How long to wait before sending, without the jitter.
    pub fn spacing(&self, delays: &HostDelays) -> (r: Duration)
        requires
            delays.wf(),
        ensures
            r@ == delays@.current(self@.host),
    {
        delays.current_delay(self.host.as_str())
    }

    /// What to do about a response. A success relaxes the host's spacing, a
    /// pushback that is retried doubles it.
    pub fn on_response(
        &mut self,
        delays: &mut HostDelays,
        code: u16,
        shown: &str,
        header: Option<&str>,
    ) -> (r: Verdict)
        requires
            old(delays).wf(),
        ensures
            final(delays).wf(),
            r@ == old(self)@.verdict_on(code, shown@, crate::paths::opt_str(header)),
            r is Accept ==> final(self)@ == old(self)@ && final(delays)@ == old(delays)@.relaxed(
                old(self)@.host,
            ),
            r is Retry ==> final(self)@ == old(self)@.retried() && final(delays)@ == old(
                delays)@.bumped(old(self)@.host),
            r is Fail ==> final(self)@ == old(self)@ && final(delays)@ == old(delays)@,
    {
        if 200 <= code && code < 300 {
            delays.relax_delay(self.host.as_str());
            return Verdict::Accept;
        }
        if is_retryable_status(code) && self.attempt < self.config.max_retries {
            let computed = backoff_delay(
                self.config.base_delay,
                self.attempt,
                self.config.max_delay,
            );
            let wait = match header {
                Some(v) => match parse_retry_after(v) {
                    Some(d) => d,
                    None => computed,
                },
                None => computed,
            };
            delays.bump_delay(self.host.as_str());
            self.attempt = self.attempt + 1;
            return Verdict::Retry { wait, attempt: self.attempt };
        }
        Verdict::Fail(get_failed(self.url.as_str(), shown, code))
    }

    /// What to do when no response came.
    pub fn on_error(&mut self, transient: bool) -> (r: Verdict)
        ensures
            r@ == old(self)@.verdict_on_error(transient),
            r is Retry ==> final(self)@ == old(self)@.retried(),
            r !is Retry ==> final(self)@ == old(self)@,
    {
        if transient && self.attempt < self.config.max_retries {
            let wait = backoff_delay(
                self.config.base_delay,
                self.attempt,
                self.config.max_delay,
            );
            self.attempt = self.attempt + 1;
            return Verdict::Retry { wait, attempt: self.attempt };
        }
        Verdict::Fail(
            Failure { message: text::concat("GET ", self.url.as_str()), not_found: false },
        )
    }
}

/// A wait that the server asks for in seconds is honoured exactly.
pub proof fn law_retry_after_is_honoured(
    g: GetView,
    code: u16,
    shown: Seq<char>,
    header: Seq<char>,
)
    requires
        retry_after(header) is Some,
    ensures
        g.verdict_on(code, shown, Some(header)) matches VerdictView::Retry { wait, .. } ==> wait
            == retry_after(header)->0,
{
}

/// A request is retried at most as often as its configuration allows.
pub proof fn law_retries_are_bounded(
    g: GetView,
    code: u16,
    shown: Seq<char>,
    header: Option<Seq<char>>,
    transient: bool,
)
    ensures
        g.verdict_on(code, shown, header) matches VerdictView::Retry { attempt, .. } ==> attempt
            <= g.max_retries,
        g.verdict_on_error(transient) matches VerdictView::Retry { attempt, .. } ==> attempt
            <= g.max_retries,
{
}

// ---------------------------------------------------------------------------
// The curl tier
// ---------------------------------------------------------------------------

/// Fetching through the system's `curl`, which some sites accept where they
/// challenge other clients. Same politeness: base delay plus jitter, and bounded
/// backoff.
#[derive(Debug, Clone, Copy)]
pub struct CurlFetcher {
    pub config: FetchConfig,
}

impl CurlFetcher {
    pub fn new(base_delay: Duration) -> (r: Self)
        ensures
            r.config.base_delay == base_delay,
            r.config.max_retries == 4,
            r.config.max_delay@ == (if capped((base_delay@ * 16) as nat) >= 30_000_000_000 {
                capped((base_delay@ * 16) as nat)
            } else {
                30_000_000_000
            }),
    {
        Self { config: FetchConfig::new(base_delay) }
    }
}

/// What curl printed: the body, then a line break and the status code. A code
/// of 0 means that curl itself failed.
pub open spec fn curl_parts(stdout: Seq<char>) -> (Seq<char>, int) {
    let tail = text::span_back(stdout, text::not('\n'));
    if tail < stdout.len() {
        (stdout.take(stdout.len() - tail - 1), curl_code(stdout.skip(stdout.len() - tail)))
    } else {
        (stdout, 0)
    }
}

pub open spec fn curl_code(s: Seq<char>) -> int {
    match text::parsed(text::trimmed(s), u16::MAX as nat) {
        Some(n) => n as int,
        None => 0,
    }
}

/// Part curl's output into the body and the status code.
pub fn split_curl_output(stdout: &str) -> (r: (String, u16))
    ensures
        (r.0@, r.1 as int) == curl_parts(stdout@),
{
    let v = text::to_chars(stdout);
    let tail: usize = text::after_last_char(&v, '\n');
    if tail < v.len() {
        let cut: usize = v.len() - tail - 1;
        let body = slice_subrange(v.as_slice(), 0, cut);
        assert(body@ == v@.take(v@.len() - tail - 1));
        let end = slice_subrange(v.as_slice(), cut + 1, v.len());
        assert(end@ == v@.skip(v@.len() - tail));
        let code: u16 = match text::parse_u64(text::trim(end), u16::MAX as u64) {
            Some(n) => n as u16,
            None => 0,
        };
        (text::to_text(body), code)
    } else {
        (text::to_text(&v), 0)
    }
}

/// A request through curl, and how often it was retried.
pub struct CurlGet {
    url: String,
    config: FetchConfig,
    attempt: u32,
}

impl View for CurlGet {
    type V = GetView;

    closed spec fn view(&self) -> GetView {
        GetView {
            url: self.url@,
            host: seq![],
            base: self.config.base_delay@,
            max: self.config.max_delay@,
            max_retries: self.config.max_retries,
            attempt: self.attempt,
        }
    }
}

impl GetView {
    pub open spec fn curl_verdict(self, code: u16, stderr: Seq<char>) -> VerdictView {
        if is_success(code) {
            VerdictView::Accept
        } else if (code == 0 || retryable(code)) && self.can_retry() {
            VerdictView::Retry {
                wait: backoff(self.base, self.attempt, self.max),
                attempt: (self.attempt + 1) as u32,
            }
        } else if code == 0 {
            VerdictView::Fail(
                FailureView {
                    message: "curl failed for "@ + self.url + ": "@ + text::trimmed(stderr),
                    not_found: false,
                },
            )
        } else {
            VerdictView::Fail(
                FailureView {
                    message: "GET "@ + self.url + " returned HTTP "@ + text::decimal(code as nat),
                    not_found: code == 404,
                },
            )
        }
    }
}

impl CurlGet {
    pub fn new(url: &str, config: FetchConfig) -> (r: CurlGet)
        ensures
            r@ == (GetView {
                url: url@,
                host: seq![],
                base: config.base_delay@,
                max: config.max_delay@,
                max_retries: config.max_retries,
                attempt: 0,
            }),
    {
        CurlGet { url: url.to_string(), config, attempt: 0 }
    }

    /// What to do about curl's status code.
    pub fn on_exit(&mut self, code: u16, stderr: &str) -> (r: Verdict)
        ensures
            r@ == old(self)@.curl_verdict(code, stderr@),
            r is Retry ==> final(self)@ == old(self)@.retried(),
            r !is Retry ==> final(self)@ == old(self)@,
    {
        if 200 <= code && code < 300 {
            return Verdict::Accept;
        }
        if (code == 0 || is_retryable_status(code)) && self.attempt < self.config.max_retries {
            let wait = backoff_delay(
                self.config.base_delay,
                self.attempt,
                self.config.max_delay,
            );
            self.attempt = self.attempt + 1;
            return Verdict::Retry { wait, attempt: self.attempt };
        }
        if code == 0 {
            let a = text::concat("curl failed for ", self.url.as_str());
            let b = text::concat(a.as_str(), ": ");
            let why = text::trim_text(stderr);
            return Verdict::Fail(
                Failure { message: text::concat(b.as_str(), why.as_str()), not_found: false },
            );
        }
        let shown = text::decimal_text(code as u64);
        Verdict::Fail(get_failed(self.url.as_str(), shown.as_str(), code))
    }
}

/// An answer is taken for every code of success, asked for again for the codes of a server that is
/// busy, as long as tries are left, and given up on otherwise; only a 404 says that nothing is
/// there.
pub proof fn law_codes_decide(
    g: GetView,
    code: u16,
    shown: Seq<char>,
    header: Option<Seq<char>>,
    stderr: Seq<char>,
)
    ensures
        200 <= code < 300 <==> g.verdict_on(code, shown, header) is Accept,
        200 <= code < 300 <==> g.curl_verdict(code, stderr) is Accept,
        (code == 429 || code == 500 || code == 502 || code == 503 || code == 504) && g.attempt
            < g.max_retries <==> g.verdict_on(code, shown, header) is Retry,
        (code == 0 || code == 429 || code == 500 || code == 502 || code == 503 || code == 504)
            && g.attempt < g.max_retries <==> g.curl_verdict(code, stderr) is Retry,
        g.verdict_on(code, shown, header) matches VerdictView::Fail(f) ==> (f.not_found <==> code
            == 404) && f.message == "GET "@ + g.url + " returned HTTP "@ + shown,
        g.curl_verdict(code, stderr) matches VerdictView::Fail(f) ==> (f.not_found <==> code == 404),
        g.curl_verdict(code, stderr) matches VerdictView::Fail(f) ==> (code != 0 ==> f.message
            == "GET "@ + g.url + " returned HTTP "@ + text::decimal(code as nat)),
        g.verdict_on(code, shown, header) matches VerdictView::Retry { wait, attempt } ==> attempt
            == g.attempt + 1,
        g.curl_verdict(code, stderr) matches VerdictView::Retry { wait, attempt } ==> attempt
            == g.attempt + 1,
{
}

/// A transient error is tried again while tries are left; any other error is the end, and does not
/// say that nothing is there.
pub proof fn law_transient_errors_are_tried_again(g: GetView)
    ensures
        g.attempt < g.max_retries <==> g.verdict_on_error(true) is Retry,
        g.verdict_on_error(false) is Fail,
        g.verdict_on_error(false) matches VerdictView::Fail(f) ==> !f.not_found,
        g.verdict_on_error(true) matches VerdictView::Fail(f) ==> !f.not_found,
        g.verdict_on_error(true) matches VerdictView::Retry { wait, attempt } ==> attempt
            == g.attempt + 1 && wait <= g.max,
{
}

/// A first retry waits for twice the base; the seconds of a `Retry-After` header are waited for to
/// the second, and a header that states none leaves the computed wait.
pub proof fn law_waits_are_as_asked_or_computed(g: GetView, n: u64, header: Seq<char>)
    ensures
        backoff(g.base, 0, g.max) == if 2 * g.base <= g.max {
            2 * g.base
        } else {
            g.max
        },
        retry_after(text::decimal(n as nat)) == Some((n * 1_000_000_000) as nat),
        g.wait(Some(text::decimal(n as nat))) == n * 1_000_000_000,
        g.wait(None) == backoff(g.base, g.attempt, g.max),
        retry_after(header) is None ==> g.wait(Some(header)) == backoff(g.base, g.attempt, g.max),
{
    let d = text::decimal(n as nat);
    text::lemma_decimal(n as nat);
    assert(text::is_digit(d[0]) && text::is_digit(d.last()));
    text::law_trimming_settles(d);
    text::law_numbers_read_back(n as nat, u64::MAX as nat);
    assert(pow2(0) == 1);
    assert(pow2(1) == 2 * pow2(0));
    assert(g.base * pow2(1) == 2 * g.base) by (nonlinear_arith)
        requires
            pow2(1) == 2,
    ;
}

/// A host keeps to its own spacing, or to the base. Pushback doubles it up to the ceiling, success
/// takes a seventh or so off down to the base, and no other host is touched.
pub proof fn law_spacing_is_per_host(d: DelaysView, host: Seq<char>, other: Seq<char>)
    requires
        host != other,
    ensures
        !d.hosts.contains_key(host) ==> d.current(host) == d.base,
        d.hosts.contains_key(host) ==> d.current(host) == d.hosts[host],
        d.bumped(host).current(other) == d.current(other),
        d.relaxed(host).current(other) == d.current(other),
        2 * d.current(host) <= d.max <= MAX_NANOS ==> d.bumped(host).current(host) == 2 * d.current(
            host,
        ),
        d.max <= MAX_NANOS && 2 * d.current(host) > d.max ==> d.bumped(host).current(host) == d.max,
        d.current(host) > d.base && d.current(host) * 85 / 100 >= d.base ==> d.relaxed(host).current(
            host,
        ) == d.current(host) * 85 / 100,
        d.current(host) > d.base && d.current(host) * 85 / 100 < d.base ==> d.relaxed(host).current(
            host,
        ) == d.base,
        d.current(host) <= d.base ==> d.relaxed(host) == d,
        d.bumped(host).base == d.base && d.bumped(host).max == d.max,
        d.relaxed(host).base == d.base && d.relaxed(host).max == d.max,
{
}

/// Jitter adds less than two fifths of a delay, in thousandths by the clock.
pub proof fn law_jitter_is_a_share_of_the_delay(base: nat, nanos: u32)
    ensures
        jitter_of(base, nanos) * 10 <= base * 4,
        nanos % 1000 == 0 ==> jitter_of(base, nanos) == 0,
        jitter_of(base, nanos) == base * (4 * (nanos as int % 1000)) / 10_000,
{
    let k = nanos as int % 1000;
    assert(base * (4 * k) <= base * 4000) by (nonlinear_arith)
        requires
            0 <= k < 1000,
            base >= 0,
    ;
    if nanos % 1000 == 0 {
        assert(base * (4 * k) == 0) by (nonlinear_arith)
            requires
                k == 0,
        ;
    }
}

/// What curl printed is the body, whole, and behind its last line break the code.
pub proof fn law_curl_prints_body_and_code(body: Seq<char>, code: u16)
    ensures
        curl_parts(body + seq!['\n'] + text::decimal(code as nat)) == (body, code as int),
{
    let d = text::decimal(code as nat);
    let s = body + seq!['\n'] + d;
    text::lemma_decimal(code as nat);
    assert forall|j: int| s.len() - d.len() <= j < s.len() implies text::not('\n')(
        #[trigger] s[j],
    ) by {
        assert(s[j] == d[j - body.len() - 1]);
        assert(text::is_digit(d[j - body.len() - 1]));
    }
    assert(s[s.len() - 1 - d.len()] == '\n');
    text::lemma_span_back_is(s, text::not('\n'), d.len() as int);
    assert(s.take(s.len() - d.len() - 1) =~= body);
    assert(s.skip(s.len() - d.len()) =~= d);
    assert(text::is_digit(d[0]) && text::is_digit(d.last()));
    text::law_trimming_settles(d);
    text::law_numbers_read_back(code as nat, u16::MAX as nat);
}

/// A failure is seen as it is.
pub proof fn law_failures_are_seen_whole(f: Failure)
    ensures
        f@.message == f.message@,
        f@.not_found == f.not_found,
{
}

} // verus!
