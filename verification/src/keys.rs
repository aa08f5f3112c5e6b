//! The hierarchical key codec.
//!
//! A storage key is a delimiter-joined path. The layering is explicit:
//! [`PrefixedKey`] puts one segment in front of an already-encoded key, and
//! [`PropertyKey`] is the property layer, itself a single-segment wrap. An
//! [`EndpointKey`] is the innermost composite identifier
//! `(service, instance, endpoint)`.
//!
//! Decoding splits at the first delimiter, so it is the exact left inverse
//! of encoding whenever the wrapped segments are free of the delimiter
//! character `/` (the round-trip lemmas at the end of this module).

use vstd::prelude::*;
use vstd::string::StrSliceExecFns;
use vstd::string::StringExecFns;

use crate::error::Error;

verus! {

/// Does the character sequence avoid the key-path delimiter `/`?
pub open spec fn delim_free(s: Seq<char>) -> bool {
    forall|i: int| 0 <= i < s.len() ==> s[i] != '/'
}

/// Index of the first `/` in `s`, or `-1` if there is none.
pub open spec fn find_delim(s: Seq<char>) -> int
    decreases s.len(),
{
    if s.len() <= 0 {
        -1
    } else if s[0] == '/' {
        0
    } else {
        let r = find_delim(s.subrange(1, s.len() as int));
        if r < 0 {
            -1
        } else {
            r + 1
        }
    }
}

/// Split `s` at its first `/` into the part before and the part after,
/// or nothing when `s` holds no delimiter.
pub open spec fn split_at_delim(s: Seq<char>) -> Option<(Seq<char>, Seq<char>)> {
    let i = find_delim(s);
    if i < 0 {
        None
    } else {
        Some((s.take(i), s.skip(i + 1)))
    }
}

/// One segment in front of an already-encoded inner key.
pub open spec fn prefixed(prefix: Seq<char>, key: Seq<char>) -> Seq<char> {
    prefix + seq!['/'] + key
}

pub proof fn lemma_find_delim_characterizes(s: Seq<char>)
    ensures
        find_delim(s) >= 0 ==> find_delim(s) < s.len() && s[find_delim(s)] == '/' && (forall|j: int|
            0 <= j < find_delim(s) ==> s[j] != '/'),
        find_delim(s) < 0 ==> delim_free(s),
    decreases s.len(),
{
    if s.len() > 0 && s[0] != '/' {
        let t = s.subrange(1, s.len() as int);
        lemma_find_delim_characterizes(t);
        assert(forall|j: int| 0 <= j < t.len() ==> t[j] == s[j + 1]);
        assert(forall|j: int| 1 <= j < s.len() ==> s[j] == t[j - 1]);
    }
}

pub proof fn lemma_find_delim_unique(s: Seq<char>, i: int)
    requires
        0 <= i < s.len(),
        s[i] == '/',
        forall|j: int| 0 <= j < i ==> s[j] != '/',
    ensures
        find_delim(s) == i,
    decreases s.len(),
{
    if s[0] != '/' {
        let t = s.subrange(1, s.len() as int);
        assert(forall|j: int| 0 <= j < t.len() ==> t[j] == s[j + 1]);
        lemma_find_delim_unique(t, i - 1);
    }
}

/// Splitting undoes a single-segment wrap: the delimiter written by
/// `prefixed` is the first one as long as the prefix is delimiter-free.
pub proof fn lemma_split_prefixed(prefix: Seq<char>, key: Seq<char>)
    requires
        delim_free(prefix),
    ensures
        split_at_delim(prefixed(prefix, key)) == Some((prefix, key)),
{
    let s = prefixed(prefix, key);
    assert(s[prefix.len() as int] == '/');
    assert(forall|j: int| 0 <= j < prefix.len() ==> s[j] == prefix[j] && s[j] != '/');
    lemma_find_delim_unique(s, prefix.len() as int);
    assert(s.take(prefix.len() as int) =~= prefix);
    assert(s.skip(prefix.len() as int + 1) =~= key);
}

/// Splitting at the first delimiter, then putting the parts back together,
/// gives the original sequence, and the head is delimiter-free.
pub proof fn lemma_split_join(s: Seq<char>)
    requires
        split_at_delim(s) is Some,
    ensures
        delim_free(split_at_delim(s)->Some_0.0),
        prefixed(split_at_delim(s)->Some_0.0, split_at_delim(s)->Some_0.1) == s,
{
    let i = find_delim(s);
    lemma_find_delim_characterizes(s);
    assert(prefixed(s.take(i), s.skip(i + 1)) =~= s);
}

/// The mathematical shape of an [`EndpointKey`].
pub struct EndpointKeyView {
    pub service_name: Seq<char>,
    pub instance_name: Seq<char>,
    pub endpoint_name: Seq<char>,
}

impl EndpointKeyView {
    /// The invariant of the data model: three non-empty components, none
    /// containing the delimiter. Violating it forfeits the round-trip
    /// guarantee of the codec.
    pub open spec fn wf(self) -> bool {
        &&& self.service_name.len() > 0 && delim_free(self.service_name)
        &&& self.instance_name.len() > 0 && delim_free(self.instance_name)
        &&& self.endpoint_name.len() > 0 && delim_free(self.endpoint_name)
    }

    pub open spec fn encode(self) -> Seq<char> {
        self.service_name + seq!['/'] + self.instance_name + seq!['/'] + self.endpoint_name
    }

    /// Split off the first two segments; the endpoint name takes the rest.
    pub open spec fn decode(s: Seq<char>) -> Option<EndpointKeyView> {
        match split_at_delim(s) {
            None => None,
            Some((service, rest)) => match split_at_delim(rest) {
                None => None,
                Some((instance, endpoint)) => Some(
                    EndpointKeyView {
                        service_name: service,
                        instance_name: instance,
                        endpoint_name: endpoint,
                    },
                ),
            },
        }
    }
}

/// Composite identifier of one monitored target.
#[derive(Debug, Clone, PartialEq, Eq)]
pub struct EndpointKey {
    pub service_name: String,
    pub instance_name: String,
    pub endpoint_name: String,
}

impl View for EndpointKey {
    type V = EndpointKeyView;

    open spec fn view(&self) -> EndpointKeyView {
        EndpointKeyView {
            service_name: self.service_name@,
            instance_name: self.instance_name@,
            endpoint_name: self.endpoint_name@,
        }
    }
}

/// Find the first `/` of a string, if any.
fn find_delim_str(s: &str) -> (r: Option<usize>)
    ensures
        match r {
            Some(i) => i == find_delim(s@),
            None => find_delim(s@) < 0,
        },
{
    let n = s.unicode_len();
    let mut i: usize = 0;
    while i < n
        invariant
            i <= n,
            n == s@.len(),
            forall|j: int| 0 <= j < i ==> s@[j] != '/',
        decreases n - i,
    {
        if s.get_char(i) == '/' {
            proof {
                lemma_find_delim_unique(s@, i as int);
            }
            return Some(i);
        }
        i += 1;
    }
    proof {
        lemma_find_delim_characterizes(s@);
    }
    None
}

/// Split a string at its first `/`.
fn split_at_delim_str(s: &str) -> (r: Option<(String, String)>)
    ensures
        match r {
            Some(p) => split_at_delim(s@) == Some((p.0@, p.1@)),
            None => split_at_delim(s@) is None,
        },
{
    match find_delim_str(s) {
        None => None,
        Some(i) => {
            let n = s.unicode_len();
            proof {
                lemma_find_delim_characterizes(s@);
            }
            let head = s.substring_char(0, i).to_owned();
            let tail = s.substring_char(i + 1, n).to_owned();
            proof {
                assert(head@ =~= s@.take(i as int));
                assert(tail@ =~= s@.skip(i as int + 1));
            }
            Some((head, tail))
        },
    }
}

impl EndpointKey {
    /// Delimiter-join the three components.
    pub fn encode(&self) -> (s: String)
        ensures
            s@ == self@.encode(),
    {
        let mut out = self.service_name.clone();
        out.append("/");
        out.append(self.instance_name.as_str());
        out.append("/");
        out.append(self.endpoint_name.as_str());
        proof {
            reveal_strlit("/");
            assert("/"@ =~= seq!['/']);
            assert(out@ =~= self@.encode());
        }
        out
    }

    /// A copy with the same components.
    pub fn duplicate(&self) -> (r: EndpointKey)
        ensures
            r@ == self@,
    {
        EndpointKey {
            service_name: self.service_name.clone(),
            instance_name: self.instance_name.clone(),
            endpoint_name: self.endpoint_name.clone(),
        }
    }

    /// Parse `service/instance/endpoint`; the first two segments end at the
    /// first two delimiters, the endpoint name takes whatever remains.
    pub fn decode(s: &str) -> (r: Result<EndpointKey, Error>)
        ensures
            match r {
                Ok(k) => EndpointKeyView::decode(s@) == Some(k@),
                Err(e) => e == Error::MalformedKey && EndpointKeyView::decode(s@) is None,
            },
    {
        match split_at_delim_str(s) {
            None => Err(Error::MalformedKey),
            Some((service, rest)) => match split_at_delim_str(rest.as_str()) {
                None => Err(Error::MalformedKey),
                Some((instance, endpoint)) => Ok(
                    EndpointKey {
                        service_name: service,
                        instance_name: instance,
                        endpoint_name: endpoint,
                    },
                ),
            },
        }
    }
}

/// A key with one more leading segment: `prefix/key`.
#[derive(Debug, Clone)]
pub struct PrefixedKey {
    pub prefix: String,
    pub key: String,
}

impl PrefixedKey {
    pub fn new(prefix: String, key: String) -> (r: PrefixedKey)
        ensures
            r.prefix == prefix,
            r.key == key,
    {
        PrefixedKey { prefix, key }
    }

    pub fn encode(&self) -> (s: String)
        ensures
            s@ == prefixed(self.prefix@, self.key@),
    {
        let mut out = self.prefix.clone();
        out.append("/");
        out.append(self.key.as_str());
        proof {
            reveal_strlit("/");
            assert("/"@ =~= seq!['/']);
            assert(out@ =~= prefixed(self.prefix@, self.key@));
        }
        out
    }

    /// Split off the leading segment at the first delimiter.
    pub fn decode(s: &str) -> (r: Result<PrefixedKey, Error>)
        ensures
            match r {
                Ok(k) => split_at_delim(s@) == Some((k.prefix@, k.key@)),
                Err(e) => e == Error::MalformedKey && split_at_delim(s@) is None,
            },
    {
        match split_at_delim_str(s) {
            None => Err(Error::MalformedKey),
            Some((prefix, key)) => Ok(PrefixedKey { prefix, key }),
        }
    }
}

/// The property layer: a property name wrapped around an inner key. It is
/// the same single-segment wrap as [`PrefixedKey`], kept as its own type so
/// that the storage layout reads as global prefix over property over key.
#[derive(Debug, Clone)]
pub struct PropertyKey {
    pub inner: PrefixedKey,
}

impl PropertyKey {
    pub fn new(property: String, key: String) -> (r: PropertyKey)
        ensures
            r.inner.prefix == property,
            r.inner.key == key,
    {
        PropertyKey { inner: PrefixedKey { prefix: property, key } }
    }

    pub fn encode(&self) -> (s: String)
        ensures
            s@ == prefixed(self.inner.prefix@, self.inner.key@),
    {
        self.inner.encode()
    }

    pub fn decode(s: &str) -> (r: Result<PropertyKey, Error>)
        ensures
            match r {
                Ok(k) => split_at_delim(s@) == Some((k.inner.prefix@, k.inner.key@)),
                Err(e) => e == Error::MalformedKey && split_at_delim(s@) is None,
            },
    {
        match PrefixedKey::decode(s) {
            Ok(inner) => Ok(PropertyKey { inner }),
            Err(e) => Err(e),
        }
    }
}

/// A full storage key: `<global_prefix>/<property>/<inner>`.
pub open spec fn storage_key_view(prefix: Seq<char>, property: Seq<char>, inner: Seq<char>) -> Seq<
    char,
> {
    prefixed(prefix, prefixed(property, inner))
}

/// Decode a full storage key back into its global prefix, its property and
/// the endpoint key under them.
pub open spec fn decode_storage(s: Seq<char>) -> Option<
    (Seq<char>, Seq<char>, EndpointKeyView),
> {
    match split_at_delim(s) {
        None => None,
        Some((prefix, rest)) => match split_at_delim(rest) {
            None => None,
            Some((property, inner)) => match EndpointKeyView::decode(inner) {
                None => None,
                Some(k) => Some((prefix, property, k)),
            },
        },
    }
}

/// Composition is associative: the nested single-segment wraps spell out the
/// same text as one direct join of the five segments.
pub proof fn lemma_layering_flat(prefix: Seq<char>, property: Seq<char>, k: EndpointKeyView)
    ensures
        storage_key_view(prefix, property, k.encode()) == prefix + seq!['/'] + property + seq!['/']
            + k.service_name + seq!['/'] + k.instance_name + seq!['/'] + k.endpoint_name,
{
    assert(storage_key_view(prefix, property, k.encode()) =~= prefix + seq!['/'] + property + seq![
        '/',
    ] + k.service_name + seq!['/'] + k.instance_name + seq!['/'] + k.endpoint_name);
}

/// Storage keys of two different properties of one endpoint differ.
pub proof fn lemma_storage_keys_differ(
    prefix: Seq<char>,
    p1: Seq<char>,
    p2: Seq<char>,
    e: Seq<char>,
)
    requires
        p1 != p2,
    ensures
        storage_key_view(prefix, p1, e) != storage_key_view(prefix, p2, e),
{
    let s1 = storage_key_view(prefix, p1, e);
    let s2 = storage_key_view(prefix, p2, e);
    if p1.len() == p2.len() {
        if s1 == s2 {
            assert forall|i: int| 0 <= i < p1.len() implies p1[i] == p2[i] by {
                assert(s1[prefix.len() + 1 + i] == p1[i]);
                assert(s2[prefix.len() + 1 + i] == p2[i]);
            }
            assert(p1 =~= p2);
        }
    } else {
        assert(s1.len() != s2.len());
    }
}

/// Storage keys under one property determine the wrapped key text.
pub proof fn lemma_storage_keys_same_prop(
    prefix: Seq<char>,
    p: Seq<char>,
    e1: Seq<char>,
    e2: Seq<char>,
)
    requires
        storage_key_view(prefix, p, e1) == storage_key_view(prefix, p, e2),
    ensures
        e1 == e2,
{
    let s1 = storage_key_view(prefix, p, e1);
    let s2 = storage_key_view(prefix, p, e2);
    assert(s1.len() == prefix.len() + 1 + p.len() + 1 + e1.len());
    assert(s2.len() == prefix.len() + 1 + p.len() + 1 + e2.len());
    assert(e1.len() == e2.len());
    assert forall|i: int| 0 <= i < e1.len() implies e1[i] == e2[i] by {
        assert(s1[prefix.len() + 1 + p.len() + 1 + i] == e1[i]);
        assert(s2[prefix.len() + 1 + p.len() + 1 + i] == e2[i]);
    }
    assert(e1 =~= e2);
}

/// Round trip of the endpoint codec: decoding is the exact left inverse of
/// encoding for keys whose components are free of the delimiter.
pub proof fn lemma_endpoint_round_trip(k: EndpointKeyView)
    requires
        delim_free(k.service_name),
        delim_free(k.instance_name),
    ensures
        EndpointKeyView::decode(k.encode()) == Some(k),
{
    let rest = k.instance_name + seq!['/'] + k.endpoint_name;
    assert(k.encode() =~= prefixed(k.service_name, rest));
    lemma_split_prefixed(k.service_name, rest);
    assert(rest =~= prefixed(k.instance_name, k.endpoint_name));
    lemma_split_prefixed(k.instance_name, k.endpoint_name);
}

/// Any sequence the endpoint decoder accepts is re-encoded verbatim, and the
/// first two decoded components are delimiter-free.
pub proof fn lemma_endpoint_decode_encode(s: Seq<char>)
    requires
        EndpointKeyView::decode(s) is Some,
    ensures
        EndpointKeyView::decode(s)->Some_0.encode() == s,
        delim_free(EndpointKeyView::decode(s)->Some_0.service_name),
        delim_free(EndpointKeyView::decode(s)->Some_0.instance_name),
{
    let k = EndpointKeyView::decode(s)->Some_0;
    lemma_split_join(s);
    let rest = split_at_delim(s)->Some_0.1;
    lemma_split_join(rest);
    assert(k.encode() =~= prefixed(k.service_name, prefixed(k.instance_name, k.endpoint_name)));
}

/// The round-trip law holds nested under any property name and any global
/// prefix: a storage key built over a well-formed endpoint key decodes back
/// to exactly its three layers.
pub proof fn lemma_storage_round_trip(prefix: Seq<char>, property: Seq<char>, k: EndpointKeyView)
    requires
        delim_free(prefix),
        delim_free(property),
        delim_free(k.service_name),
        delim_free(k.instance_name),
    ensures
        decode_storage(storage_key_view(prefix, property, k.encode())) == Some(
            (prefix, property, k),
        ),
{
    lemma_split_prefixed(prefix, prefixed(property, k.encode()));
    lemma_split_prefixed(property, k.encode());
    lemma_endpoint_round_trip(k);
}

} // verus!
