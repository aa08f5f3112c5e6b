//! The worker's decision logic: URL re-fetch handling, probe outcome
//! classification, statistics recording and the failure-threshold
//! eviction. The worker consumes ping jobs strictly one at a time per
//! instance; the HTTP probe itself happens between the two functions
//! below, outside this library.

use vstd::prelude::*;

use crate::db::lemma_props_distinct;
use crate::db::Db;
use crate::db::counter_has_room;
use crate::db::failure_count_prop;
use crate::db::last_failure_prop;
use crate::db::last_success_prop;
use crate::db::lookup_count;
use crate::db::lookup_stats;
use crate::db::lookup_url;
use crate::db::prop_key;
use crate::db::record_event;
use crate::db::remove_endpoint;
use crate::db::success_count_prop;
use crate::db::EndpointStatsView;
use crate::error::Error;
use crate::keys::EndpointKey;
use crate::keys::EndpointKeyView;
use crate::keys::lemma_storage_keys_differ;
use crate::kv::KvClient;
use crate::values::EndpointUrl;
use crate::values::Timestamp;
use crate::values::lemma_dec_digits_value;

verus! {

/// The observable outcome of one HTTP probe: a response with its status
/// code, or no response at all (connect failure, timeout, TLS error).
pub enum ProbeOutcome {
    Response { status: u16 },
    NoResponse,
}

/// Success is a received response with a 2xx status; any other status,
/// and any transport error, is failure.
pub open spec fn outcome_is_success(o: ProbeOutcome) -> bool {
    match o {
        ProbeOutcome::Response { status } => 200 <= status <= 299,
        ProbeOutcome::NoResponse => false,
    }
}

/// A probe classifies an HTTP response as a success exactly when its
/// status code lies in the 2xx range.
pub fn is_success_status(status: u16) -> (b: bool)
    ensures
        b == (200 <= status && status <= 299),
{
    200 <= status && status <= 299
}

pub fn outcome_success(outcome: &ProbeOutcome) -> (b: bool)
    ensures
        b == outcome_is_success(*outcome),
{
    match outcome {
        ProbeOutcome::Response { status } => is_success_status(*status),
        ProbeOutcome::NoResponse => false,
    }
}

/// What one consumed job recorded.
pub enum ProbeRecord {
    Success { count: u64 },
    Failure { count: u64, evicted: bool },
}

/// The first step of a job: re-fetch the current URL, deliberately not
/// trusting any URL embedded in the message. `Ok(None)` is the silent
/// skip of an endpoint that no longer exists; any other error is a
/// transport- or corruption-level fault to report, never a probe failure
/// to count against the endpoint.
pub fn ping_url_lookup<C: KvClient>(db: &Db<C>, endpoint: &EndpointKey) -> (r: Result<
    Option<EndpointUrl>,
    Error,
>)
    ensures
        match r {
            Ok(found) => match found {
                Some(u) => u.wf() && lookup_url(db.kv(), db.prefix_view(), endpoint@) == Ok::<
                    Seq<char>,
                    Error,
                >(u@),
                None => lookup_url(db.kv(), db.prefix_view(), endpoint@) == Err::<
                    Seq<char>,
                    Error,
                >(Error::NotFound),
            },
            Err(e) => e == Error::Transport || lookup_url(db.kv(), db.prefix_view(), endpoint@)
                == Err::<Seq<char>, Error>(e),
        },
{
    match db.get_endpoint_url(endpoint) {
        Ok(u) => Ok(Some(u)),
        Err(e) => {
            if e == Error::NotFound {
                Ok(None)
            } else {
                Err(e)
            }
        },
    }
}

/// The recording steps of a job: on success, record the success; on
/// failure, record the failure and, when a threshold is configured and
/// the new failure count reaches it, delete the endpoint — the system's
/// only eviction trigger.
pub fn record_probe_outcome<C: KvClient>(
    db: &mut Db<C>,
    endpoint: &EndpointKey,
    outcome: &ProbeOutcome,
    now: &Timestamp,
    max_failures: Option<u64>,
) -> (r: Result<ProbeRecord, Error>)
    requires
        endpoint@.wf(),
        outcome_is_success(*outcome) ==> counter_has_room(
            old(db).kv(),
            old(db).prefix_view(),
            success_count_prop(),
            endpoint@,
        ),
        !outcome_is_success(*outcome) ==> counter_has_room(
            old(db).kv(),
            old(db).prefix_view(),
            failure_count_prop(),
            endpoint@,
        ),
    ensures
        final(db).prefix_view() == old(db).prefix_view(),
        match r {
            Ok(rec) => match rec {
                ProbeRecord::Success { count } => outcome_is_success(*outcome) && count >= 1
                    && lookup_count(
                    old(db).kv(),
                    old(db).prefix_view(),
                    success_count_prop(),
                    endpoint@,
                ) == Ok::<u64, Error>((count - 1) as u64) && final(db).kv() == record_event(
                    old(db).kv(),
                    old(db).prefix_view(),
                    last_success_prop(),
                    success_count_prop(),
                    endpoint@,
                    now@,
                    count,
                ),
                ProbeRecord::Failure { count, evicted } => !outcome_is_success(*outcome) && count
                    >= 1 && lookup_count(
                    old(db).kv(),
                    old(db).prefix_view(),
                    failure_count_prop(),
                    endpoint@,
                ) == Ok::<u64, Error>((count - 1) as u64) && evicted == (match max_failures {
                    Some(m) => count >= m,
                    None => false,
                }) && final(db).kv() == (if evicted {
                    remove_endpoint(
                        record_event(
                            old(db).kv(),
                            old(db).prefix_view(),
                            last_failure_prop(),
                            failure_count_prop(),
                            endpoint@,
                            now@,
                            count,
                        ),
                        old(db).prefix_view(),
                        endpoint@,
                    )
                } else {
                    record_event(
                        old(db).kv(),
                        old(db).prefix_view(),
                        last_failure_prop(),
                        failure_count_prop(),
                        endpoint@,
                        now@,
                        count,
                    )
                }),
            },
            Err(e) => e == Error::Transport || e == Error::MalformedCount,
        },
{
    if outcome_success(outcome) {
        match db.record_endpoint_success(endpoint, now) {
            Ok(count) => Ok(ProbeRecord::Success { count }),
            Err(e) => Err(e),
        }
    } else {
        let count = match db.record_endpoint_failure(endpoint, now) {
            Ok(c) => c,
            Err(e) => {
                return Err(e);
            },
        };
        let evicted = match max_failures {
            Some(m) => {
                if count >= m {
                    match db.delete_endpoint(endpoint) {
                        Ok(u) => u,
                        Err(e) => {
                            return Err(e);
                        },
                    };
                    true
                } else {
                    false
                }
            },
            None => false,
        };
        Ok(ProbeRecord::Failure { count, evicted })
    }
}

/// Eviction law: deleting an endpoint leaves its URL and statistics reads
/// at `NotFound`, until it is explicitly registered again.
pub proof fn lemma_deleted_is_gone(
    m: Map<Seq<char>, Seq<char>>,
    prefix: Seq<char>,
    k: EndpointKeyView,
)
    ensures
        lookup_url(remove_endpoint(m, prefix, k), prefix, k) == Err::<Seq<char>, Error>(
            Error::NotFound,
        ),
        lookup_stats(remove_endpoint(m, prefix, k), prefix, k) == Err::<EndpointStatsView, Error>(
            Error::NotFound,
        ),
{
}

/// Eviction law, counting part: starting from a store without a failure
/// counter for the key, three sequential recorded failures read the
/// counts one, two and three in turn — so with a threshold of three the
/// third recording triggers the deletion, after which the URL lookup
/// answers `NotFound`.
pub proof fn lemma_three_failures_evict(
    m0: Map<Seq<char>, Seq<char>>,
    prefix: Seq<char>,
    k: EndpointKeyView,
    t1: Seq<char>,
    t2: Seq<char>,
    t3: Seq<char>,
)
    requires
        !m0.dom().contains(prop_key(prefix, failure_count_prop(), k)),
    ensures
        ({
            let m1 = record_event(
                m0,
                prefix,
                last_failure_prop(),
                failure_count_prop(),
                k,
                t1,
                1,
            );
            let m2 = record_event(
                m1,
                prefix,
                last_failure_prop(),
                failure_count_prop(),
                k,
                t2,
                2,
            );
            let m3 = record_event(
                m2,
                prefix,
                last_failure_prop(),
                failure_count_prop(),
                k,
                t3,
                3,
            );
            &&& lookup_count(m0, prefix, failure_count_prop(), k) == Ok::<u64, Error>(0u64)
            &&& lookup_count(m1, prefix, failure_count_prop(), k) == Ok::<u64, Error>(1u64)
            &&& lookup_count(m2, prefix, failure_count_prop(), k) == Ok::<u64, Error>(2u64)
            &&& lookup_count(m3, prefix, failure_count_prop(), k) == Ok::<u64, Error>(3u64)
            &&& lookup_url(remove_endpoint(m3, prefix, k), prefix, k) == Err::<Seq<char>, Error>(
                Error::NotFound,
            )
        }),
{
    lemma_props_distinct();
    lemma_storage_keys_differ(
        prefix,
        last_failure_prop(),
        failure_count_prop(),
        k.encode(),
    );
    lemma_dec_digits_value(1nat);
    lemma_dec_digits_value(2nat);
    lemma_dec_digits_value(3nat);
}

} // verus!
