//! Decisions of HTTP front ends: whose request it is, how long it is good for, what it
//! is answered, and what is reported of the scheduler.
use vstd::prelude::*;

use crate::api::{DequeueResult, EnqueueResult, SchedulerStats, TenantKey};
use crate::text;
use crate::text::{chars_of, parse_from, parse_number, starts_with};
use crate::time::{Duration, Instant};
use crate::tower::FirqError;

verus! {

/// Number in a header; `None` without the header or if it holds none.
pub open spec fn header_number(header: Option<&str>) -> Option<u64> {
    match header {
        Some(value) => text::parsed(value@),
        None => None,
    }
}

/// Number in a header; `None` without the header or if it holds none.
fn number_in(header: Option<&str>) -> (n: Option<u64>)
    ensures
        n == header_number(header),
{
    match header {
        Some(value) => parse_number(value),
        None => None,
    }
}

/// Tenant of a request by the header that names it; tenant zero if it names none.
pub fn extract_tenant(tenant_id: Option<&str>) -> (tenant: TenantKey)
    ensures
        tenant.0 == match header_number(tenant_id) {
            Some(n) => n,
            None => 0,
        },
{
    match number_in(tenant_id) {
        Some(n) => TenantKey(n),
        None => TenantKey(0),
    }
}

/// Tenant in a bearer token of the form `Bearer tenant:<number>`.
pub open spec fn token_number(authorization: Option<&str>) -> Option<u64> {
    match authorization {
        Some(value) => if "Bearer tenant:"@.is_prefix_of(value@) {
            text::parsed(value@.skip("Bearer tenant:"@.len() as int))
        } else {
            None
        },
        None => None,
    }
}

/// Tenant in a bearer token.
fn number_in_token(authorization: Option<&str>) -> (n: Option<u64>)
    ensures
        n == token_number(authorization),
{
    match authorization {
        Some(value) => {
            let chars = chars_of(value);
            let prefix = chars_of("Bearer tenant:");
            assert(chars@.skip(0) =~= value@);
            if starts_with(&chars, 0, &prefix) {
                parse_from(&chars, prefix.len())
            } else {
                None
            }
        },
        None => None,
    }
}

/// Tenant of a request by the header that names it, or else by its bearer token; tenant
/// zero if neither names one.
pub fn tenant_from_headers(tenant_id: Option<&str>, authorization: Option<&str>) -> (tenant:
    TenantKey)
    ensures
        tenant.0 == match header_number(tenant_id) {
            Some(n) => n,
            None => match token_number(authorization) {
                Some(n) => n,
                None => 0,
            },
        },
{
    match number_in(tenant_id) {
        Some(n) => TenantKey(n),
        None => match number_in_token(authorization) {
            Some(n) => TenantKey(n),
            None => TenantKey(0),
        },
    }
}

/// Deadline of a request that came at `now` by the header that says how many
/// milliseconds it is good for.
pub fn deadline_from_header(deadline_ms: Option<&str>, now: Instant) -> (deadline: Option<Instant>)
    ensures
        match header_number(deadline_ms) {
            Some(ms) => deadline matches Some(d) && d.nanos == crate::time::clamp_nanos(
                now.nanos + ms * 1_000_000,
            ),
            None => deadline is None,
        },
{
    match number_in(deadline_ms) {
        Some(ms) => Some(now.after(Duration::from_millis(ms))),
        None => None,
    }
}

/// Why a request is not served.
#[derive(Copy, Clone, Debug, PartialEq, Eq, Structural)]
pub enum GateError {
    /// No room for it.
    TooManyRequests,
    /// The scheduler is closed.
    ServiceUnavailable,
    /// A turn that did not come.
    Internal,
}

impl GateError {
    /// HTTP status of the answer.
    pub fn status(&self) -> (status: u16)
        ensures
            status == match *self {
                GateError::TooManyRequests => 429u16,
                GateError::ServiceUnavailable => 503,
                GateError::Internal => 500,
            },
    {
        match self {
            GateError::TooManyRequests => 429,
            GateError::ServiceUnavailable => 503,
            GateError::Internal => 500,
        }
    }

    /// Text of the answer.
    pub fn message(&self) -> (m: &'static str)
        ensures
            m@ == match *self {
                GateError::TooManyRequests => "Too many requests. Please try again later."@,
                GateError::ServiceUnavailable => "Service temporarily unavailable"@,
                GateError::Internal => "Internal server error"@,
            },
    {
        match self {
            GateError::TooManyRequests => "Too many requests. Please try again later.",
            GateError::ServiceUnavailable => "Service temporarily unavailable",
            GateError::Internal => "Internal server error",
        }
    }
}

/// Whether a request whose task was offered to the scheduler may wait for its turn.
pub fn may_wait(result: EnqueueResult) -> (r: Result<(), GateError>)
    ensures
        r == match result {
            EnqueueResult::Enqueued => Ok::<(), GateError>(()),
            EnqueueResult::Rejected(_) => Err(GateError::TooManyRequests),
            EnqueueResult::Closed => Err(GateError::ServiceUnavailable),
        },
{
    match result {
        EnqueueResult::Enqueued => Ok(()),
        EnqueueResult::Rejected(_) => Err(GateError::TooManyRequests),
        EnqueueResult::Closed => Err(GateError::ServiceUnavailable),
    }
}

/// Whether a request that waited may be served.
pub fn may_proceed<T>(turn: &DequeueResult<T>) -> (r: Result<(), GateError>)
    ensures
        r == match *turn {
            DequeueResult::Task { .. } => Ok::<(), GateError>(()),
            DequeueResult::Closed => Err(GateError::ServiceUnavailable),
            DequeueResult::Empty => Err(GateError::Internal),
        },
{
    match turn {
        DequeueResult::Task { .. } => Ok(()),
        DequeueResult::Closed => Err(GateError::ServiceUnavailable),
        DequeueResult::Empty => Err(GateError::Internal),
    }
}

/// What a request that the layer refused is answered, the inner error being given as
/// text.
pub open spec fn refusal(error: FirqError<String>) -> Seq<char> {
    match error {
        FirqError::Service(e) => e@,
        FirqError::Rejected(rejection) => rejection.message@ + " ("@ + rejection.code@ + ")"@,
        FirqError::Closed => "Service unavailable"@,
        FirqError::PermitError => "Request expired"@,
    }
}

/// What a request that the layer refused is answered.
pub fn refusal_text(error: &FirqError<String>) -> (m: String)
    ensures
        m@ == refusal(*error),
{
    let mut m = String::new();
    match error {
        FirqError::Service(e) => {
            m.append(e.as_str());
        },
        FirqError::Rejected(rejection) => {
            m.append(rejection.message);
            m.append(" (");
            m.append(rejection.code);
            m.append(")");
        },
        FirqError::Closed => {
            m.append("Service unavailable");
        },
        FirqError::PermitError => {
            m.append("Request expired");
        },
    }
    assert(m@ =~= refusal(*error));
    m
}

/// What is reported of the scheduler.
#[derive(Copy, Clone, Debug, PartialEq, Eq, Structural)]
pub struct StatusFigures {
    /// Tasks accepted.
    pub enqueued: u64,
    /// Tasks handed out.
    pub dequeued: u64,
    /// Tasks turned away or given up.
    pub dropped: u64,
    /// Tasks expired.
    pub expired: u64,
    /// Tasks pending.
    pub queue_len: u64,
    /// Average queue time in milliseconds.
    pub avg_queue_time_ms: u64,
    /// 95th percentile of the queue time in milliseconds.
    pub p95_queue_time_ms: u64,
    /// 99th percentile of the queue time in milliseconds.
    pub p99_queue_time_ms: u64,
}

/// What is reported of the scheduler. The average is zero without samples.
pub fn status_figures(stats: &SchedulerStats) -> (f: StatusFigures)
    ensures
        f == (StatusFigures {
            enqueued: stats.enqueued,
            dequeued: stats.dequeued,
            dropped: stats.dropped,
            expired: stats.expired,
            queue_len: stats.queue_len_estimate,
            avg_queue_time_ms: if stats.queue_time_samples > 0 {
                stats.queue_time_sum_ns / stats.queue_time_samples / 1_000_000
            } else {
                0
            },
            p95_queue_time_ms: stats.queue_time_p95_ns / 1_000_000,
            p99_queue_time_ms: stats.queue_time_p99_ns / 1_000_000,
        }),
{
    let avg_queue_time_ms: u64 = if stats.queue_time_samples > 0 {
        (stats.queue_time_sum_ns / stats.queue_time_samples) / 1_000_000
    } else {
        0
    };
    StatusFigures {
        enqueued: stats.enqueued,
        dequeued: stats.dequeued,
        dropped: stats.dropped,
        expired: stats.expired,
        queue_len: stats.queue_len_estimate,
        avg_queue_time_ms,
        p95_queue_time_ms: stats.queue_time_p95_ns / 1_000_000,
        p99_queue_time_ms: stats.queue_time_p99_ns / 1_000_000,
    }
}

/// A tenant that is named is found: by its number in the header, with or without a plus
/// sign, and by its number in a bearer token. A token that does not start as it should
/// names nobody.
pub proof fn law_named_tenants_are_found(n: u64, header: &str, token: &str)
    ensures
        header@ == text::decimal(n as nat) ==> header_number(Some(header)) == Some(n),
        header@ == "+"@ + text::decimal(n as nat) ==> header_number(Some(header)) == Some(n),
        token@ == "Bearer tenant:"@ + text::decimal(n as nat) ==> token_number(Some(token)) == Some(
            n,
        ),
        token@.len() < 14 || token@.take(14) != "Bearer tenant:"@ ==> token_number(Some(token))
            is None,
        header_number(None) is None,
        token_number(None) is None,
{
    reveal_strlit("+");
    reveal_strlit("Bearer tenant:");
    text::law_numbers_are_read_back(n);
    let digits = text::decimal(n as nat);
    assert(("+"@ + digits).skip(1) =~= digits);
    text::lemma_decimal(n as nat);
    assert(text::is_digit(digits[0]));
    assert(text::unsigned("+"@ + digits) =~= text::unsigned(digits));
    let start = "Bearer tenant:"@;
    assert((start + digits).skip(start.len() as int) =~= digits);
    if start.is_prefix_of(token@) {
        assert(token@.take(14) =~= start);
    }
    if token@ == start + digits {
        assert(start.is_prefix_of(token@));
    }
}

} // verus!
