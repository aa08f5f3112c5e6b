//! The endpoint registry: CRUD and scan operations over endpoint records
//! and per-endpoint statistics, layered over the key codec and a key-value
//! client.
//!
//! Every operation's effect is stated against a storage model: the map of
//! key text to value text, with one entry per `(endpoint, property)` pair
//! under `<global_prefix>/<property>/<service>/<instance>/<endpoint>`.
//!
//! The registry gives no transactional guarantee across the several
//! property reads and writes of one operation: a statistics read is no
//! atomic snapshot, and the read-increment-write of the counters can lose
//! an increment under a concurrent writer racing on the same key. That is
//! a deliberate property of the design, kept as such.

use vstd::prelude::*;

use crate::error::Error;
use crate::keys::EndpointKey;
use crate::keys::EndpointKeyView;
use crate::keys::PrefixedKey;
use crate::keys::PropertyKey;
use crate::keys::decode_storage;
use crate::keys::delim_free;
use crate::keys::lemma_endpoint_decode_encode;
use crate::keys::lemma_endpoint_round_trip;
use crate::keys::lemma_split_prefixed;
use crate::keys::lemma_storage_keys_differ;
use crate::keys::lemma_storage_keys_same_prop;
use crate::keys::prefixed;
use crate::keys::storage_key_view;
use crate::kv::KvClient;
use crate::values::EndpointUrl;
use crate::values::Timestamp;
use crate::values::all_digits;
use crate::values::dec_digits;
use crate::values::dec_value;
use crate::values::format_u64;
use crate::values::lemma_dec_digits_value;
use crate::values::parse_u64;
use crate::values::ts_norm;
use crate::values::url_norm;

verus! {

pub open spec fn url_prop() -> Seq<char> {
    "url"@
}

pub open spec fn last_success_prop() -> Seq<char> {
    "last_success"@
}

pub open spec fn last_failure_prop() -> Seq<char> {
    "last_failure"@
}

pub open spec fn success_count_prop() -> Seq<char> {
    "success_count"@
}

pub open spec fn failure_count_prop() -> Seq<char> {
    "failure_count"@
}

/// The storage key of one `(endpoint, property)` pair.
pub open spec fn prop_key(prefix: Seq<char>, prop: Seq<char>, k: EndpointKeyView) -> Seq<char> {
    storage_key_view(prefix, prop, k.encode())
}

/// The model of `getEndpointURL`: absent is `NotFound`, a present value
/// that does not parse is `MalformedUrl`, otherwise the parsed
/// serialization.
pub open spec fn lookup_url(
    m: Map<Seq<char>, Seq<char>>,
    prefix: Seq<char>,
    k: EndpointKeyView,
) -> Result<Seq<char>, Error> {
    let sk = prop_key(prefix, url_prop(), k);
    if !m.dom().contains(sk) {
        Err(Error::NotFound)
    } else {
        match url_norm(m[sk]) {
            Some(u) => Ok(u),
            None => Err(Error::MalformedUrl),
        }
    }
}

/// The model of `addEndpointURL`: one overwritten entry, no uniqueness
/// check.
pub open spec fn add_url(
    m: Map<Seq<char>, Seq<char>>,
    prefix: Seq<char>,
    k: EndpointKeyView,
    u: Seq<char>,
) -> Map<Seq<char>, Seq<char>> {
    m.insert(prop_key(prefix, url_prop(), k), u)
}

/// The model of reading one optional timestamp property: absent resolves
/// to `None`, a present value that does not parse is fatal.
pub open spec fn lookup_ts(
    m: Map<Seq<char>, Seq<char>>,
    prefix: Seq<char>,
    prop: Seq<char>,
    k: EndpointKeyView,
) -> Result<Option<Seq<char>>, Error> {
    let sk = prop_key(prefix, prop, k);
    if !m.dom().contains(sk) {
        Ok(None)
    } else {
        match ts_norm(m[sk]) {
            Some(t) => Ok(Some(t)),
            None => Err(Error::MalformedDate),
        }
    }
}

/// The model of reading one counter property: absent resolves to zero, a
/// present value that is no digit string fitting a `u64` is fatal.
pub open spec fn lookup_count(
    m: Map<Seq<char>, Seq<char>>,
    prefix: Seq<char>,
    prop: Seq<char>,
    k: EndpointKeyView,
) -> Result<u64, Error> {
    let sk = prop_key(prefix, prop, k);
    if !m.dom().contains(sk) {
        Ok(0u64)
    } else if m[sk].len() > 0 && all_digits(m[sk]) && dec_value(m[sk]) <= u64::MAX {
        Ok(dec_value(m[sk]) as u64)
    } else {
        Err(Error::MalformedCount)
    }
}

/// The counter can take one more increment.
pub open spec fn counter_has_room(
    m: Map<Seq<char>, Seq<char>>,
    prefix: Seq<char>,
    prop: Seq<char>,
    k: EndpointKeyView,
) -> bool {
    match lookup_count(m, prefix, prop, k) {
        Ok(n) => n < u64::MAX,
        Err(_) => true,
    }
}

/// The model of recording one probe outcome: the timestamp property set to
/// the instant, the counter property set to the new count.
pub open spec fn record_event(
    m: Map<Seq<char>, Seq<char>>,
    prefix: Seq<char>,
    ts_prop: Seq<char>,
    count_prop: Seq<char>,
    k: EndpointKeyView,
    ts: Seq<char>,
    n: u64,
) -> Map<Seq<char>, Seq<char>> {
    m.insert(prop_key(prefix, ts_prop, k), ts).insert(
        prop_key(prefix, count_prop, k),
        dec_digits(n as nat),
    )
}

/// The model of `deleteEndpoint`: all five properties removed.
pub open spec fn remove_endpoint(
    m: Map<Seq<char>, Seq<char>>,
    prefix: Seq<char>,
    k: EndpointKeyView,
) -> Map<Seq<char>, Seq<char>> {
    m.remove(prop_key(prefix, url_prop(), k)).remove(prop_key(prefix, last_success_prop(), k))
        .remove(prop_key(prefix, last_failure_prop(), k)).remove(
        prop_key(prefix, success_count_prop(), k),
    ).remove(prop_key(prefix, failure_count_prop(), k))
}

/// One registered target.
#[derive(Debug)]
pub struct EndpointRecord {
    pub key: EndpointKey,
    pub url: EndpointUrl,
}

/// The mathematical shape of an [`EndpointRecord`].
pub struct EndpointRecordView {
    pub key: EndpointKeyView,
    pub url: Seq<char>,
}

impl View for EndpointRecord {
    type V = EndpointRecordView;

    open spec fn view(&self) -> EndpointRecordView {
        EndpointRecordView { key: self.key@, url: self.url@ }
    }
}

/// The statistics of one endpoint, assembled from five independent reads;
/// not an atomic snapshot.
#[derive(Debug)]
pub struct EndpointStats {
    pub key: EndpointKey,
    pub url: EndpointUrl,
    pub last_success: Option<Timestamp>,
    pub last_failure: Option<Timestamp>,
    pub success_count: u64,
    pub failure_count: u64,
}

/// The mathematical shape of [`EndpointStats`].
pub struct EndpointStatsView {
    pub key: EndpointKeyView,
    pub url: Seq<char>,
    pub last_success: Option<Seq<char>>,
    pub last_failure: Option<Seq<char>>,
    pub success_count: u64,
    pub failure_count: u64,
}

impl View for EndpointStats {
    type V = EndpointStatsView;

    open spec fn view(&self) -> EndpointStatsView {
        EndpointStatsView {
            key: self.key@,
            url: self.url@,
            last_success: match self.last_success {
                Some(ref t) => Some(t@),
                None => None,
            },
            last_failure: match self.last_failure {
                Some(ref t) => Some(t@),
                None => None,
            },
            success_count: self.success_count,
            failure_count: self.failure_count,
        }
    }
}

/// The model of `getEndpointStats`: the URL is required and decides the
/// `NotFound` outcome; the four statistics properties default when absent.
pub open spec fn lookup_stats(
    m: Map<Seq<char>, Seq<char>>,
    prefix: Seq<char>,
    k: EndpointKeyView,
) -> Result<EndpointStatsView, Error> {
    match lookup_url(m, prefix, k) {
        Err(e) => Err(e),
        Ok(u) => match lookup_ts(m, prefix, last_success_prop(), k) {
            Err(e) => Err(e),
            Ok(ls) => match lookup_ts(m, prefix, last_failure_prop(), k) {
                Err(e) => Err(e),
                Ok(lf) => match lookup_count(m, prefix, success_count_prop(), k) {
                    Err(e) => Err(e),
                    Ok(sc) => match lookup_count(m, prefix, failure_count_prop(), k) {
                        Err(e) => Err(e),
                        Ok(fc) => Ok(
                            EndpointStatsView {
                                key: k,
                                url: u,
                                last_success: ls,
                                last_failure: lf,
                                success_count: sc,
                                failure_count: fc,
                            },
                        ),
                    },
                },
            },
        },
    }
}

/// The registry over a key-value client. The global prefix must be free of
/// the delimiter, or the storage layout would not decode.
#[derive(Clone)]
pub struct Db<C: KvClient> {
    prefix: String,
    client: C,
}

impl<C: KvClient> Db<C> {
    /// The underlying store's contents.
    pub closed spec fn kv(&self) -> Map<Seq<char>, Seq<char>> {
        self.client.kv()
    }

    /// The configured global prefix.
    pub closed spec fn prefix_view(&self) -> Seq<char> {
        self.prefix@
    }

    pub open spec fn wf(&self) -> bool {
        delim_free(self.prefix_view())
    }

    /// A registry over the given client handle. The handle's own
    /// implementation must make it safe for concurrent use; the registry
    /// adds no locking.
    pub fn new(client: C, prefix: String) -> (r: Db<C>)
        requires
            delim_free(prefix@),
        ensures
            r.wf(),
            r.kv() == client.kv(),
            r.prefix_view() == prefix@,
    {
        Db { prefix, client }
    }

    /// The storage key of one property of one endpoint, built by the
    /// nested single-segment wraps.
    fn new_prefixed_property_key(&self, property: &str, endpoint: &EndpointKey) -> (r: PrefixedKey)
        ensures
            r.prefix@ == self.prefix_view(),
            r.key@ == prefixed(property@, endpoint@.encode()),
    {
        let inner = endpoint.encode();
        PrefixedKey::new(self.prefix.clone(), PropertyKey::new(property.to_owned(), inner).encode())
    }

    /// The storage key text of one property of one endpoint.
    fn storage_key_for(&self, property: &str, endpoint: &EndpointKey) -> (s: String)
        ensures
            s@ == prop_key(self.prefix_view(), property@, endpoint@),
    {
        self.new_prefixed_property_key(property, endpoint).encode()
    }

    /// Write one property value.
    fn set_endpoint_property(&mut self, endpoint: &EndpointKey, property: &str, value: &str) -> (r:
        Result<(), Error>)
        ensures
            final(self).prefix_view() == old(self).prefix_view(),
            r is Ok ==> final(self).kv() == old(self).kv().insert(
                prop_key(old(self).prefix_view(), property@, endpoint@),
                value@,
            ),
            r is Err ==> r->Err_0 == Error::Transport,
    {
        let key = self.storage_key_for(property, endpoint);
        self.client.put(key.as_str(), value)
    }

    /// Read one property value; an absent property is a definite
    /// `NotFound`.
    fn get_endpoint_property(&self, endpoint: &EndpointKey, property: &str) -> (r: Result<
        String,
        Error,
    >)
        ensures
            match r {
                Ok(v) => self.kv().dom().contains(prop_key(self.prefix_view(), property@, endpoint@))
                    && v@ == self.kv()[prop_key(self.prefix_view(), property@, endpoint@)],
                Err(e) => e == Error::Transport || (e == Error::NotFound && !self.kv().dom().contains(
                    prop_key(self.prefix_view(), property@, endpoint@),
                )),
            },
    {
        let key = self.storage_key_for(property, endpoint);
        self.client.get(key.as_str())
    }

    /// Delete one property's entry.
    fn delete_endpoint_property(&mut self, endpoint: &EndpointKey, property: &str) -> (r: Result<
        (),
        Error,
    >)
        ensures
            final(self).prefix_view() == old(self).prefix_view(),
            r is Ok ==> final(self).kv() == old(self).kv().remove(
                prop_key(old(self).prefix_view(), property@, endpoint@),
            ),
            r is Err ==> r->Err_0 == Error::Transport,
    {
        let key = self.storage_key_for(property, endpoint);
        self.client.delete(key.as_str())
    }

    /// Register (or overwrite) the URL of an endpoint.
    pub fn add_endpoint_url(&mut self, endpoint: &EndpointKey, url: &EndpointUrl) -> (r: Result<
        (),
        Error,
    >)
        requires
            endpoint@.wf(),
        ensures
            final(self).prefix_view() == old(self).prefix_view(),
            r is Ok ==> final(self).kv() == add_url(
                old(self).kv(),
                old(self).prefix_view(),
                endpoint@,
                url@,
            ),
            r is Err ==> r->Err_0 == Error::Transport,
    {
        self.set_endpoint_property(endpoint, "url", url.as_str())
    }

    /// Look an endpoint's URL up; fails with `NotFound` exactly when the
    /// `url` property is absent, and with `MalformedUrl` exactly when the
    /// stored value no longer parses.
    pub fn get_endpoint_url(&self, endpoint: &EndpointKey) -> (r: Result<EndpointUrl, Error>)
        ensures
            match r {
                Ok(u) => u.wf() && lookup_url(self.kv(), self.prefix_view(), endpoint@) == Ok::<
                    Seq<char>,
                    Error,
                >(u@),
                Err(e) => e == Error::Transport || lookup_url(self.kv(), self.prefix_view(), endpoint@)
                    == Err::<Seq<char>, Error>(e),
            },
    {
        match self.get_endpoint_property(endpoint, "url") {
            Err(e) => Err(e),
            Ok(s) => match EndpointUrl::parse(s.as_str()) {
                Ok(u) => Ok(u),
                Err(e) => Err(e),
            },
        }
    }

    /// Assemble the statistics of one endpoint from five independent
    /// reads. The `url` property decides the `NotFound` outcome; each of
    /// the other four resolves to its zero value when absent, and a
    /// present value that does not parse fails the whole call.
    pub fn get_endpoint_stats(&self, endpoint: &EndpointKey) -> (r: Result<EndpointStats, Error>)
        ensures
            match r {
                Ok(st) => lookup_stats(self.kv(), self.prefix_view(), endpoint@) == Ok::<
                    EndpointStatsView,
                    Error,
                >(st@) && st.url.wf() && (match st.last_success {
                    Some(ref t) => t.wf(),
                    None => true,
                }) && (match st.last_failure {
                    Some(ref t) => t.wf(),
                    None => true,
                }),
                Err(e) => e == Error::Transport || lookup_stats(self.kv(), self.prefix_view(), endpoint@)
                    == Err::<EndpointStatsView, Error>(e),
            },
    {
        let url = match self.get_endpoint_url(endpoint) {
            Ok(u) => u,
            Err(e) => {
                return Err(e);
            },
        };
        let last_success = match self.get_endpoint_property(endpoint, "last_success") {
            Ok(s) => match Timestamp::parse(s.as_str()) {
                Ok(t) => Some(t),
                Err(e) => {
                    return Err(e);
                },
            },
            Err(e) => {
                if e == Error::NotFound {
                    None
                } else {
                    return Err(e);
                }
            },
        };
        let last_failure = match self.get_endpoint_property(endpoint, "last_failure") {
            Ok(s) => match Timestamp::parse(s.as_str()) {
                Ok(t) => Some(t),
                Err(e) => {
                    return Err(e);
                },
            },
            Err(e) => {
                if e == Error::NotFound {
                    None
                } else {
                    return Err(e);
                }
            },
        };
        let success_count = match self.get_endpoint_property(endpoint, "success_count") {
            Ok(s) => match parse_u64(s.as_str()) {
                Some(n) => n,
                None => {
                    return Err(Error::MalformedCount);
                },
            },
            Err(e) => {
                if e == Error::NotFound {
                    0u64
                } else {
                    return Err(e);
                }
            },
        };
        let failure_count = match self.get_endpoint_property(endpoint, "failure_count") {
            Ok(s) => match parse_u64(s.as_str()) {
                Some(n) => n,
                None => {
                    return Err(Error::MalformedCount);
                },
            },
            Err(e) => {
                if e == Error::NotFound {
                    0u64
                } else {
                    return Err(e);
                }
            },
        };
        Ok(
            EndpointStats {
                key: endpoint.duplicate(),
                url,
                last_success,
                last_failure,
                success_count,
                failure_count,
            },
        )
    }

    /// Record a successful probe: write `last_success`, then read, bump
    /// and write back `success_count`, returning the new count. Two
    /// independent writes with a read in between — deliberately not one
    /// atomic increment.
    pub fn record_endpoint_success(&mut self, endpoint: &EndpointKey, dt: &Timestamp) -> (r:
        Result<u64, Error>)
        requires
            endpoint@.wf(),
            counter_has_room(
                old(self).kv(),
                old(self).prefix_view(),
                success_count_prop(),
                endpoint@,
            ),
        ensures
            final(self).prefix_view() == old(self).prefix_view(),
            match r {
                Ok(n) => n >= 1 && lookup_count(
                    old(self).kv(),
                    old(self).prefix_view(),
                    success_count_prop(),
                    endpoint@,
                ) == Ok::<u64, Error>((n - 1) as u64) && final(self).kv() == record_event(
                    old(self).kv(),
                    old(self).prefix_view(),
                    last_success_prop(),
                    success_count_prop(),
                    endpoint@,
                    dt@,
                    n,
                ),
                Err(e) => e == Error::Transport || (e == Error::MalformedCount && lookup_count(
                    old(self).kv(),
                    old(self).prefix_view(),
                    success_count_prop(),
                    endpoint@,
                ) == Err::<u64, Error>(Error::MalformedCount)),
            },
    {
        match self.set_endpoint_property(endpoint, "last_success", dt.as_str()) {
            Ok(u) => u,
            Err(e) => {
                return Err(e);
            },
        };
        proof {
            lemma_props_distinct();
            lemma_storage_keys_differ(
                self.prefix_view(),
                last_success_prop(),
                success_count_prop(),
                endpoint@.encode(),
            );
        }
        let current = match self.get_endpoint_property(endpoint, "success_count") {
            Ok(s) => match parse_u64(s.as_str()) {
                Some(n) => n,
                None => {
                    return Err(Error::MalformedCount);
                },
            },
            Err(e) => {
                if e == Error::NotFound {
                    0u64
                } else {
                    return Err(e);
                }
            },
        };
        let next = current + 1;
        let digits = format_u64(next);
        match self.set_endpoint_property(endpoint, "success_count", digits.as_str()) {
            Ok(u) => u,
            Err(e) => {
                return Err(e);
            },
        };
        Ok(next)
    }

    /// Record a failed probe: write `last_failure`, then read, bump and
    /// write back `failure_count`, returning the new count; the mirror
    /// image of [`Self::record_endpoint_success`].
    pub fn record_endpoint_failure(&mut self, endpoint: &EndpointKey, dt: &Timestamp) -> (r:
        Result<u64, Error>)
        requires
            endpoint@.wf(),
            counter_has_room(
                old(self).kv(),
                old(self).prefix_view(),
                failure_count_prop(),
                endpoint@,
            ),
        ensures
            final(self).prefix_view() == old(self).prefix_view(),
            match r {
                Ok(n) => n >= 1 && lookup_count(
                    old(self).kv(),
                    old(self).prefix_view(),
                    failure_count_prop(),
                    endpoint@,
                ) == Ok::<u64, Error>((n - 1) as u64) && final(self).kv() == record_event(
                    old(self).kv(),
                    old(self).prefix_view(),
                    last_failure_prop(),
                    failure_count_prop(),
                    endpoint@,
                    dt@,
                    n,
                ),
                Err(e) => e == Error::Transport || (e == Error::MalformedCount && lookup_count(
                    old(self).kv(),
                    old(self).prefix_view(),
                    failure_count_prop(),
                    endpoint@,
                ) == Err::<u64, Error>(Error::MalformedCount)),
            },
    {
        match self.set_endpoint_property(endpoint, "last_failure", dt.as_str()) {
            Ok(u) => u,
            Err(e) => {
                return Err(e);
            },
        };
        proof {
            lemma_props_distinct();
            lemma_storage_keys_differ(
                self.prefix_view(),
                last_failure_prop(),
                failure_count_prop(),
                endpoint@.encode(),
            );
        }
        let current = match self.get_endpoint_property(endpoint, "failure_count") {
            Ok(s) => match parse_u64(s.as_str()) {
                Some(n) => n,
                None => {
                    return Err(Error::MalformedCount);
                },
            },
            Err(e) => {
                if e == Error::NotFound {
                    0u64
                } else {
                    return Err(e);
                }
            },
        };
        let next = current + 1;
        let digits = format_u64(next);
        match self.set_endpoint_property(endpoint, "failure_count", digits.as_str()) {
            Ok(u) => u,
            Err(e) => {
                return Err(e);
            },
        };
        Ok(next)
    }

    /// Remove every property of an endpoint. After an `Ok`, both
    /// `getEndpointURL` and `getEndpointStats` answer `NotFound` until the
    /// key is registered again.
    pub fn delete_endpoint(&mut self, endpoint: &EndpointKey) -> (r: Result<(), Error>)
        requires
            endpoint@.wf(),
        ensures
            final(self).prefix_view() == old(self).prefix_view(),
            r is Ok ==> final(self).kv() == remove_endpoint(
                old(self).kv(),
                old(self).prefix_view(),
                endpoint@,
            ),
            r is Err ==> r->Err_0 == Error::Transport,
    {
        match self.delete_endpoint_property(endpoint, "url") {
            Ok(u) => u,
            Err(e) => {
                return Err(e);
            },
        };
        match self.delete_endpoint_property(endpoint, "last_success") {
            Ok(u) => u,
            Err(e) => {
                return Err(e);
            },
        };
        match self.delete_endpoint_property(endpoint, "last_failure") {
            Ok(u) => u,
            Err(e) => {
                return Err(e);
            },
        };
        match self.delete_endpoint_property(endpoint, "success_count") {
            Ok(u) => u,
            Err(e) => {
                return Err(e);
            },
        };
        match self.delete_endpoint_property(endpoint, "failure_count") {
            Ok(u) => u,
            Err(e) => {
                return Err(e);
            },
        };
        Ok(())
    }
}

/// The scan boundary of the url property layer: `<prefix>/url/`. It is the
/// encoding of the empty key under the property and the global prefix.
pub open spec fn url_scan_prefix(prefix: Seq<char>) -> Seq<char> {
    prefixed(prefix, prefixed(url_prop(), Seq::empty()))
}

/// One record of a scan: its key's stored URL parses to exactly the
/// record's URL, and the first two key components are delimiter-free, as
/// decoding guarantees.
pub open spec fn record_ok(
    m: Map<Seq<char>, Seq<char>>,
    prefix: Seq<char>,
    rv: EndpointRecordView,
) -> bool {
    &&& lookup_url(m, prefix, rv.key) == Ok::<Seq<char>, Error>(rv.url)
    &&& delim_free(rv.key.service_name)
    &&& delim_free(rv.key.instance_name)
}

/// A full enumeration: every record is stored, no key twice, and every
/// stored entry under the url boundary is some record's.
pub open spec fn all_urls_ok(
    m: Map<Seq<char>, Seq<char>>,
    prefix: Seq<char>,
    records: Seq<EndpointRecord>,
) -> bool {
    &&& (forall|i: int|
        0 <= i < records.len() ==> record_ok(m, prefix, (#[trigger] records[i])@))
    &&& (forall|i: int, j: int|
        0 <= i < j < records.len() ==> (#[trigger] records[i])@.key != (
        #[trigger] records[j])@.key)
    &&& (forall|sk: Seq<char>|
        #![trigger m.dom().contains(sk)]
        m.dom().contains(sk) && url_scan_prefix(prefix).is_prefix_of(sk) ==> exists|i: int|
            0 <= i < records.len() && prop_key(prefix, url_prop(), (#[trigger] records[i])@.key)
                == sk)
}

/// The property name `url` holds no delimiter.
proof fn lemma_url_prop_delim_free()
    ensures
        delim_free(url_prop()),
{
    reveal_strlit("url");
    assert(url_prop()[0] == 'u' && url_prop()[1] == 'r' && url_prop()[2] == 'l');
}

/// A key under the url scan boundary is the boundary plus a tail, and
/// decodes exactly when its tail decodes as an endpoint key.
proof fn lemma_scan_key_decomposes(prefix: Seq<char>, sk: Seq<char>)
    requires
        delim_free(prefix),
        url_scan_prefix(prefix).is_prefix_of(sk),
    ensures
        sk == storage_key_view(prefix, url_prop(), sk.skip(url_scan_prefix(prefix).len() as int)),
        decode_storage(sk) == (match EndpointKeyView::decode(
            sk.skip(url_scan_prefix(prefix).len() as int),
        ) {
            None => None,
            Some(k) => Some((prefix, url_prop(), k)),
        }),
{
    let sp = url_scan_prefix(prefix);
    let tail = sk.skip(sp.len() as int);
    assert(sp == sk.subrange(0, sp.len() as int));
    let flat = prefix + seq!['/'] + url_prop() + seq!['/'];
    assert(sp =~= flat);
    assert(storage_key_view(prefix, url_prop(), tail) =~= flat + tail);
    assert forall|i: int| 0 <= i < sk.len() implies (flat + tail)[i] == sk[i] by {
        if i < flat.len() {
            assert((flat + tail)[i] == flat[i]);
            assert(sp[i] == sk.subrange(0, sp.len() as int)[i]);
        } else {
            assert((flat + tail)[i] == tail[i - flat.len()]);
        }
    }
    assert(sk =~= flat + tail);
    assert(sk == storage_key_view(prefix, url_prop(), tail));
    lemma_url_prop_delim_free();
    lemma_split_prefixed(prefix, prefixed(url_prop(), tail));
    lemma_split_prefixed(url_prop(), tail);
}

/// Every url property key lies under the url scan boundary.
proof fn lemma_prop_key_has_scan_prefix(prefix: Seq<char>, k: EndpointKeyView)
    ensures
        url_scan_prefix(prefix).is_prefix_of(prop_key(prefix, url_prop(), k)),
{
    let sp = url_scan_prefix(prefix);
    let sk = prop_key(prefix, url_prop(), k);
    assert(sp.len() == prefix.len() + 1 + url_prop().len() + 1);
    assert(sk.len() == prefix.len() + 1 + url_prop().len() + 1 + k.encode().len());
    assert(sp =~= sk.subrange(0, sp.len() as int));
}

/// Parse a full storage key down to the endpoint key it wraps, as the
/// layered decoders do.
fn decode_storage_key(s: &str) -> (r: Result<EndpointKey, Error>)
    ensures
        match r {
            Ok(k) => decode_storage(s@) is Some && decode_storage(s@)->Some_0.2 == k@,
            Err(e) => e == Error::MalformedKey && decode_storage(s@) is None,
        },
{
    let outer = match PrefixedKey::decode(s) {
        Ok(p) => p,
        Err(e) => {
            return Err(e);
        },
    };
    let property = match PropertyKey::decode(outer.key.as_str()) {
        Ok(p) => p,
        Err(e) => {
            return Err(e);
        },
    };
    EndpointKey::decode(property.inner.key.as_str())
}

impl<C: KvClient> Db<C> {
    /// Enumerate every registered endpoint: scan all entries under the url
    /// boundary, decode each storage key back into an endpoint key and
    /// pair it with its parsed URL. A key or value that does not decode
    /// fails the whole scan — it indicates storage corruption.
    pub fn get_all_endpoint_urls(&self) -> (r: Result<Vec<EndpointRecord>, Error>)
        requires
            self.wf(),
        ensures
            match r {
                Ok(v) => all_urls_ok(self.kv(), self.prefix_view(), v@),
                Err(e) => {
                    ||| e == Error::Transport
                    ||| (e == Error::MalformedKey && exists|sk: Seq<char>|
                        #[trigger] self.kv().dom().contains(sk) && url_scan_prefix(
                            self.prefix_view(),
                        ).is_prefix_of(sk) && decode_storage(sk) is None)
                    ||| (e == Error::MalformedUrl && exists|sk: Seq<char>|
                        #[trigger] self.kv().dom().contains(sk) && url_scan_prefix(
                            self.prefix_view(),
                        ).is_prefix_of(sk) && url_norm(self.kv()[sk]) is None)
                },
            },
    {
        let scan_key = PrefixedKey::new(
            self.prefix.clone(),
            PropertyKey::new("url".to_owned(), String::new()).encode(),
        ).encode();
        proof {
            assert(scan_key@ =~= url_scan_prefix(self.prefix_view()));
        }
        let entries = match self.client.scan_prefix(scan_key.as_str()) {
            Ok(es) => es,
            Err(e) => {
                return Err(e);
            },
        };
        let mut records: Vec<EndpointRecord> = Vec::new();
        let n = entries.len();
        let mut idx: usize = 0;
        while idx < n
            invariant
                idx <= n,
                n == entries@.len(),
                self.wf(),
                crate::kv::scan_ok(self.kv(), url_scan_prefix(self.prefix_view()), entries@),
                records@.len() == idx,
                forall|a: int|
                    0 <= a < idx ==> prop_key(
                        self.prefix_view(),
                        url_prop(),
                        (#[trigger] records@[a])@.key,
                    ) == entries@[a].0@,
                forall|a: int|
                    0 <= a < idx ==> record_ok(
                        self.kv(),
                        self.prefix_view(),
                        (#[trigger] records@[a])@,
                    ),
            decreases n - idx,
        {
            proof {
                assert(self.kv().dom().contains(entries@[idx as int].0@));
            }
            let key = match decode_storage_key(entries[idx].0.as_str()) {
                Ok(k) => k,
                Err(_) => {
                    return Err(Error::MalformedKey);
                },
            };
            let url = match EndpointUrl::parse(entries[idx].1.as_str()) {
                Ok(u) => u,
                Err(_) => {
                    return Err(Error::MalformedUrl);
                },
            };
            proof {
                let sk = entries@[idx as int].0@;
                let sp = url_scan_prefix(self.prefix_view());
                lemma_scan_key_decomposes(self.prefix_view(), sk);
                let tail = sk.skip(sp.len() as int);
                lemma_endpoint_decode_encode(tail);
                assert(prop_key(self.prefix_view(), url_prop(), key@) == sk);
            }
            let ghost records0 = records@;
            records.push(EndpointRecord { key, url });
            proof {
                assert(forall|a: int| 0 <= a < records0.len() ==> records@[a] == records0[a]);
                assert(records@[idx as int]@.key == key@);
            }
            idx += 1;
        }
        proof {
            assert forall|i: int, j: int| 0 <= i < j < records@.len() implies (
            #[trigger] records@[i])@.key != (#[trigger] records@[j])@.key by {
                if records@[i]@.key == records@[j]@.key {
                    assert(entries@[i].0@ == entries@[j].0@);
                    assert(entries@[i].0@ != entries@[j].0@);
                }
            }
            assert forall|sk: Seq<char>|
                self.kv().dom().contains(sk) && url_scan_prefix(
                    self.prefix_view(),
                ).is_prefix_of(sk) implies exists|i: int|
                0 <= i < records@.len() && prop_key(
                    self.prefix_view(),
                    url_prop(),
                    (#[trigger] records@[i])@.key,
                ) == sk by {
                let i = choose|i: int|
                    0 <= i < entries@.len() && (#[trigger] entries@[i]).0@ == sk;
                assert(prop_key(self.prefix_view(), url_prop(), records@[i]@.key) == sk);
            }
        }
        Ok(records)
    }
}

/// The five property names are pairwise distinct.
pub proof fn lemma_props_distinct()
    ensures
        url_prop() != last_success_prop(),
        url_prop() != last_failure_prop(),
        url_prop() != success_count_prop(),
        url_prop() != failure_count_prop(),
        last_success_prop() != last_failure_prop(),
        last_success_prop() != success_count_prop(),
        last_success_prop() != failure_count_prop(),
        last_failure_prop() != success_count_prop(),
        last_failure_prop() != failure_count_prop(),
        success_count_prop() != failure_count_prop(),
{
    reveal_strlit("url");
    reveal_strlit("last_success");
    reveal_strlit("last_failure");
    reveal_strlit("success_count");
    reveal_strlit("failure_count");
    assert(url_prop().len() == 3);
    assert(last_success_prop().len() == 12);
    assert(last_failure_prop().len() == 12);
    assert(success_count_prop().len() == 13);
    assert(failure_count_prop().len() == 13);
    assert(last_success_prop()[5] == 's' && last_failure_prop()[5] == 'f');
    assert(success_count_prop()[0] == 's' && failure_count_prop()[0] == 'f');
}

/// Registration law: registering a URL and then looking the same key up
/// yields exactly that URL, whatever else the store holds.
pub proof fn lemma_register_then_get(
    m: Map<Seq<char>, Seq<char>>,
    prefix: Seq<char>,
    k: EndpointKeyView,
    u: Seq<char>,
)
    requires
        url_norm(u) == Some(u),
    ensures
        lookup_url(add_url(m, prefix, k, u), prefix, k) == Ok::<Seq<char>, Error>(u),
{
}

/// Re-registration law: registering a key again overwrites its URL whole;
/// nothing of the earlier registration is merged in.
pub proof fn lemma_reregistration_overwrites(
    m: Map<Seq<char>, Seq<char>>,
    prefix: Seq<char>,
    k: EndpointKeyView,
    u1: Seq<char>,
    u2: Seq<char>,
)
    ensures
        add_url(add_url(m, prefix, k, u1), prefix, k, u2) == add_url(m, prefix, k, u2),
{
    assert(add_url(add_url(m, prefix, k, u1), prefix, k, u2) =~= add_url(m, prefix, k, u2));
}

/// Statistics default law: on a key with only its `url` property set, the
/// statistics read yields zero counters and absent timestamps.
pub proof fn lemma_stats_default(prefix: Seq<char>, k: EndpointKeyView, u: Seq<char>)
    requires
        url_norm(u) == Some(u),
    ensures
        lookup_stats(add_url(Map::empty(), prefix, k, u), prefix, k) == Ok::<
            EndpointStatsView,
            Error,
        >(
            EndpointStatsView {
                key: k,
                url: u,
                last_success: None,
                last_failure: None,
                success_count: 0,
                failure_count: 0,
            },
        ),
{
    lemma_props_distinct();
    lemma_storage_keys_differ(prefix, url_prop(), last_success_prop(), k.encode());
    lemma_storage_keys_differ(prefix, url_prop(), last_failure_prop(), k.encode());
    lemma_storage_keys_differ(prefix, url_prop(), success_count_prop(), k.encode());
    lemma_storage_keys_differ(prefix, url_prop(), failure_count_prop(), k.encode());
}

/// The store after a run of successful probes recorded in order: probe
/// `i` (counted from one) writes its timestamp and the counter value `i`,
/// exactly as `record_endpoint_success` does when it starts from a store
/// without a counter entry.
pub open spec fn record_successes(
    m0: Map<Seq<char>, Seq<char>>,
    prefix: Seq<char>,
    k: EndpointKeyView,
    stamps: Seq<Seq<char>>,
) -> Map<Seq<char>, Seq<char>>
    decreases stamps.len(),
{
    if stamps.len() <= 0 {
        m0
    } else {
        record_event(
            record_successes(m0, prefix, k, stamps.drop_last()),
            prefix,
            last_success_prop(),
            success_count_prop(),
            k,
            stamps.last(),
            stamps.len() as u64,
        )
    }
}

proof fn lemma_counting_steps(
    m0: Map<Seq<char>, Seq<char>>,
    prefix: Seq<char>,
    k: EndpointKeyView,
    stamps: Seq<Seq<char>>,
    i: int,
)
    requires
        !m0.dom().contains(prop_key(prefix, success_count_prop(), k)),
        0 <= i <= stamps.len(),
        stamps.len() <= u64::MAX,
    ensures
        lookup_count(
            record_successes(m0, prefix, k, stamps.take(i)),
            prefix,
            success_count_prop(),
            k,
        ) == Ok::<u64, Error>(i as u64),
        i > 0 ==> record_successes(m0, prefix, k, stamps.take(i)).dom().contains(
            prop_key(prefix, last_success_prop(), k),
        ) && record_successes(m0, prefix, k, stamps.take(i))[prop_key(
            prefix,
            last_success_prop(),
            k,
        )] == stamps[i - 1],
    decreases i,
{
    if i == 0 {
        assert(stamps.take(0) =~= Seq::<Seq<char>>::empty());
    } else {
        lemma_counting_steps(m0, prefix, k, stamps, i - 1);
        assert(stamps.take(i).drop_last() =~= stamps.take(i - 1));
        assert(stamps.take(i).last() == stamps[i - 1]);
        lemma_props_distinct();
        lemma_storage_keys_differ(prefix, last_success_prop(), success_count_prop(), k.encode());
        lemma_dec_digits_value(i as nat);
    }
}

/// Counting law: recording `M` successes in sequence on one key, starting
/// from a store without a counter entry for it, leaves `success_count`
/// at exactly `M` and `last_success` at the most recent call's timestamp;
/// and before the `i`-th call the counter reads exactly `i - 1`, which is
/// the transition `record_endpoint_success` promises for each call.
pub proof fn lemma_counting(
    m0: Map<Seq<char>, Seq<char>>,
    prefix: Seq<char>,
    k: EndpointKeyView,
    stamps: Seq<Seq<char>>,
)
    requires
        !m0.dom().contains(prop_key(prefix, success_count_prop(), k)),
        1 <= stamps.len() <= u64::MAX,
        forall|i: int| 0 <= i < stamps.len() ==> ts_norm(#[trigger] stamps[i]) == Some(stamps[i]),
    ensures
        lookup_count(record_successes(m0, prefix, k, stamps), prefix, success_count_prop(), k)
            == Ok::<u64, Error>(stamps.len() as u64),
        lookup_ts(record_successes(m0, prefix, k, stamps), prefix, last_success_prop(), k) == Ok::<
            Option<Seq<char>>,
            Error,
        >(Some(stamps.last())),
        forall|i: int|
            0 <= i < stamps.len() ==> lookup_count(
                record_successes(m0, prefix, k, #[trigger] stamps.take(i)),
                prefix,
                success_count_prop(),
                k,
            ) == Ok::<u64, Error>(i as u64),
        forall|i: int|
            0 <= i < stamps.len() ==> record_successes(m0, prefix, k, #[trigger] stamps.take(i + 1))
                == record_event(
                record_successes(m0, prefix, k, stamps.take(i)),
                prefix,
                last_success_prop(),
                success_count_prop(),
                k,
                stamps[i],
                (i + 1) as u64,
            ),
    decreases stamps.len(),
{
    assert(stamps.take(stamps.len() as int) =~= stamps);
    lemma_counting_steps(m0, prefix, k, stamps, stamps.len() as int);
    assert forall|i: int| 0 <= i < stamps.len() implies lookup_count(
        record_successes(m0, prefix, k, #[trigger] stamps.take(i)),
        prefix,
        success_count_prop(),
        k,
    ) == Ok::<u64, Error>(i as u64) by {
        lemma_counting_steps(m0, prefix, k, stamps, i);
    }
    assert forall|i: int| 0 <= i < stamps.len() implies record_successes(
        m0,
        prefix,
        k,
        #[trigger] stamps.take(i + 1),
    ) == record_event(
        record_successes(m0, prefix, k, stamps.take(i)),
        prefix,
        last_success_prop(),
        success_count_prop(),
        k,
        stamps[i],
        (i + 1) as u64,
    ) by {
        assert(stamps.take(i + 1).drop_last() =~= stamps.take(i));
        assert(stamps.take(i + 1).last() == stamps[i]);
    }
}

/// The store after registering a list of keys and URLs in order, starting
/// from an empty store.
pub open spec fn register_all(
    prefix: Seq<char>,
    ks: Seq<EndpointKeyView>,
    us: Seq<Seq<char>>,
) -> Map<Seq<char>, Seq<char>>
    decreases ks.len(),
{
    if ks.len() <= 0 {
        Map::empty()
    } else {
        add_url(register_all(prefix, ks.drop_last(), us.drop_last()), prefix, ks.last(), us.last())
    }
}

proof fn lemma_register_all_dom(
    prefix: Seq<char>,
    ks: Seq<EndpointKeyView>,
    us: Seq<Seq<char>>,
    sk: Seq<char>,
)
    requires
        us.len() == ks.len(),
    ensures
        register_all(prefix, ks, us).dom().contains(sk) <==> exists|i: int|
            0 <= i < ks.len() && prop_key(prefix, url_prop(), #[trigger] ks[i]) == sk,
    decreases ks.len(),
{
    if ks.len() > 0 {
        lemma_register_all_dom(prefix, ks.drop_last(), us.drop_last(), sk);
        if register_all(prefix, ks, us).dom().contains(sk) {
            if prop_key(prefix, url_prop(), ks.last()) == sk {
                assert(prop_key(prefix, url_prop(), ks[ks.len() - 1]) == sk);
            } else {
                let i = choose|i: int|
                    0 <= i < ks.len() - 1 && prop_key(
                        prefix,
                        url_prop(),
                        #[trigger] ks.drop_last()[i],
                    ) == sk;
                assert(prop_key(prefix, url_prop(), ks[i]) == sk);
            }
        }
        if exists|i: int| 0 <= i < ks.len() && prop_key(prefix, url_prop(), #[trigger] ks[i])
            == sk {
            let i = choose|i: int|
                0 <= i < ks.len() && prop_key(prefix, url_prop(), #[trigger] ks[i]) == sk;
            if i < ks.len() - 1 {
                assert(prop_key(prefix, url_prop(), ks.drop_last()[i]) == sk);
            }
        }
    }
}

/// Two distinct well-formed keys have distinct url storage keys.
proof fn lemma_wf_prop_keys_injective(prefix: Seq<char>, k1: EndpointKeyView, k2: EndpointKeyView)
    requires
        k1.wf(),
        k2.wf(),
        k1 != k2,
    ensures
        prop_key(prefix, url_prop(), k1) != prop_key(prefix, url_prop(), k2),
{
    if prop_key(prefix, url_prop(), k1) == prop_key(prefix, url_prop(), k2) {
        lemma_storage_keys_same_prop(prefix, url_prop(), k1.encode(), k2.encode());
        lemma_endpoint_round_trip(k1);
        lemma_endpoint_round_trip(k2);
    }
}

proof fn lemma_register_all_at(
    prefix: Seq<char>,
    ks: Seq<EndpointKeyView>,
    us: Seq<Seq<char>>,
    j: int,
)
    requires
        us.len() == ks.len(),
        forall|i: int| 0 <= i < ks.len() ==> (#[trigger] ks[i]).wf(),
        forall|a: int, b: int| 0 <= a < b < ks.len() ==> ks[a] != ks[b],
        0 <= j < ks.len(),
    ensures
        register_all(prefix, ks, us).dom().contains(prop_key(prefix, url_prop(), ks[j])),
        register_all(prefix, ks, us)[prop_key(prefix, url_prop(), ks[j])] == us[j],
    decreases ks.len(),
{
    if j == ks.len() - 1 {
    } else {
        lemma_register_all_at(prefix, ks.drop_last(), us.drop_last(), j);
        assert(ks.drop_last()[j] == ks[j]);
        lemma_wf_prop_keys_injective(prefix, ks[j], ks.last());
    }
}

/// Enumeration completeness law: after registering any number of distinct
/// well-formed keys into an empty store, a full enumeration has exactly
/// one record per registered key, carrying its URL.
pub proof fn lemma_enumeration(
    prefix: Seq<char>,
    ks: Seq<EndpointKeyView>,
    us: Seq<Seq<char>>,
    records: Seq<EndpointRecord>,
)
    requires
        us.len() == ks.len(),
        forall|i: int| 0 <= i < ks.len() ==> (#[trigger] ks[i]).wf(),
        forall|a: int, b: int| 0 <= a < b < ks.len() ==> ks[a] != ks[b],
        forall|i: int| 0 <= i < us.len() ==> url_norm(#[trigger] us[i]) == Some(us[i]),
        all_urls_ok(register_all(prefix, ks, us), prefix, records),
    ensures
        records.len() == ks.len(),
        forall|i: int|
            0 <= i < records.len() ==> ks.contains((#[trigger] records[i])@.key),
        forall|j: int|
            #![trigger ks[j]]
            0 <= j < ks.len() ==> exists|i: int|
                0 <= i < records.len() && (#[trigger] records[i])@.key == ks[j] && records[i]@.url
                    == us[j],
{
    let m = register_all(prefix, ks, us);
    assert forall|i: int| 0 <= i < records.len() implies ks.contains(
        (#[trigger] records[i])@.key,
    ) by {
        let rk = records[i]@.key;
        assert(record_ok(m, prefix, records[i]@));
        assert(m.dom().contains(prop_key(prefix, url_prop(), rk)));
        lemma_register_all_dom(prefix, ks, us, prop_key(prefix, url_prop(), rk));
        let j = choose|j: int|
            0 <= j < ks.len() && prop_key(prefix, url_prop(), #[trigger] ks[j]) == prop_key(
                prefix,
                url_prop(),
                rk,
            );
        lemma_storage_keys_same_prop(prefix, url_prop(), ks[j].encode(), rk.encode());
        lemma_endpoint_round_trip(ks[j]);
        lemma_endpoint_round_trip(rk);
        assert(ks[j] == rk);
    }
    assert forall|j: int| #![trigger ks[j]] 0 <= j < ks.len() implies exists|i: int|
        0 <= i < records.len() && (#[trigger] records[i])@.key == ks[j] && records[i]@.url
            == us[j] by {
        lemma_register_all_at(prefix, ks, us, j);
        let sk = prop_key(prefix, url_prop(), ks[j]);
        lemma_prop_key_has_scan_prefix(prefix, ks[j]);
        assert(m.dom().contains(sk) && url_scan_prefix(prefix).is_prefix_of(sk));
        let i = choose|i: int|
            0 <= i < records.len() && prop_key(prefix, url_prop(), (#[trigger] records[i])@.key)
                == sk;
        lemma_storage_keys_same_prop(prefix, url_prop(), records[i]@.key.encode(), ks[j].encode());
        lemma_endpoint_round_trip(ks[j]);
        lemma_endpoint_round_trip(records[i]@.key);
        assert(records[i]@.key == ks[j]);
        assert(record_ok(m, prefix, records[i]@));
        assert(url_norm(m[sk]) == Some(records[i]@.url));
        assert(records[i]@.url == us[j]);
    }
    let rkeys = records.map_values(|r: EndpointRecord| r@.key);
    assert(rkeys.no_duplicates());
    assert(ks.no_duplicates());
    assert(rkeys.to_set() =~= ks.to_set()) by {
        assert forall|k: EndpointKeyView| rkeys.to_set().contains(k) implies ks.to_set().contains(
            k,
        ) by {
            let i = choose|i: int| 0 <= i < rkeys.len() && rkeys[i] == k;
            assert(records[i]@.key == k);
            assert(ks.contains(k));
        }
        assert forall|k: EndpointKeyView| ks.to_set().contains(k) implies rkeys.to_set().contains(
            k,
        ) by {
            let j = choose|j: int| 0 <= j < ks.len() && ks[j] == k;
            let i = choose|i: int|
                0 <= i < records.len() && (#[trigger] records[i])@.key == ks[j] && records[i]@.url
                    == us[j];
            assert(rkeys[i] == k);
        }
    }
    rkeys.unique_seq_to_set();
    ks.unique_seq_to_set();
}

} // verus!
