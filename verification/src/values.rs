//! The values stored under an endpoint's properties.
//!
//! A URL is kept in its parsed, re-serialized form ([`EndpointUrl`]), a
//! timestamp in its RFC 3339 form ([`Timestamp`]); both wrap the outside
//! parsers behind named normalization functions whose one stated law is
//! that a normalized text normalizes to itself. Counters are stored as
//! decimal digit strings through the fully verified codec at the end of
//! this module.

use vstd::prelude::*;
use vstd::string::StrSliceExecFns;
use vstd::string::StringExecFns;

use crate::error::Error;

verus! {

/// What `url::Url::parse` followed by `url::Url::as_str` yields: `None`
/// when the text is no absolute URL, otherwise its serialization.
pub uninterp spec fn url_norm(s: Seq<char>) -> Option<Seq<char>>;

/// Relies on `url::Url::parse`, whose outcome depends on the input
/// characters alone, and on `url::Url::as_str`, which returns the parsed
/// URL's serialization. The url crate maintains as its own invariant that a
/// serialization reparses to a URL with the identical serialization, which
/// gives the last clause.
#[verifier::external_body]
fn url_normalize(s: &str) -> (r: Option<String>)
    ensures
        r is Some <==> url_norm(s@) is Some,
        r matches Some(t) ==> url_norm(s@) == Some(t@) && url_norm(t@) == Some(t@),
{
    match url::Url::parse(s) {
        Ok(u) => Some(String::from(u.as_str())),
        Err(_) => None,
    }
}

/// The URL of one registered target, held as the serialization of its
/// parsed form.
#[derive(Debug)]
pub struct EndpointUrl {
    text: String,
}

impl View for EndpointUrl {
    type V = Seq<char>;

    closed spec fn view(&self) -> Seq<char> {
        self.text@
    }
}

impl EndpointUrl {
    /// The text is a serialization: normalizing it changes nothing.
    pub open spec fn wf(&self) -> bool {
        url_norm(self@) == Some(self@)
    }

    /// Parse an absolute URL; the result carries its serialization.
    pub fn parse(s: &str) -> (r: Result<EndpointUrl, Error>)
        ensures
            match r {
                Ok(u) => url_norm(s@) == Some(u@) && u.wf(),
                Err(e) => e == Error::MalformedUrl && url_norm(s@) is None,
            },
    {
        match url_normalize(s) {
            Some(text) => Ok(EndpointUrl { text }),
            None => Err(Error::MalformedUrl),
        }
    }

    pub fn as_str(&self) -> (s: &str)
        ensures
            s@ == self@,
    {
        self.text.as_str()
    }

}

/// What parsing a text as an RFC 3339 timestamp and re-serializing it
/// yields: `None` when the text does not parse.
pub uninterp spec fn ts_norm(s: Seq<char>) -> Option<Seq<char>>;

/// Relies on `str::parse::<chrono::DateTime<chrono::Utc>>` (RFC 3339
/// parsing, determined by the input characters alone) and on
/// `chrono::DateTime::to_rfc3339`. A `to_rfc3339` text parses back to the
/// same instant and re-serializes to the identical text, which gives the
/// last clause.
#[verifier::external_body]
fn ts_normalize(s: &str) -> (r: Option<String>)
    ensures
        r is Some <==> ts_norm(s@) is Some,
        r matches Some(t) ==> ts_norm(s@) == Some(t@) && ts_norm(t@) == Some(t@),
{
    match s.parse::<chrono::DateTime<chrono::Utc>>() {
        Ok(dt) => Some(dt.to_rfc3339()),
        Err(_) => None,
    }
}

/// One instant, held in its RFC 3339 form.
#[derive(Debug)]
pub struct Timestamp {
    text: String,
}

impl View for Timestamp {
    type V = Seq<char>;

    closed spec fn view(&self) -> Seq<char> {
        self.text@
    }
}

impl Timestamp {
    /// The text is a serialization: normalizing it changes nothing.
    pub open spec fn wf(&self) -> bool {
        ts_norm(self@) == Some(self@)
    }

    /// Parse an RFC 3339 timestamp; the result carries its re-serialized
    /// form.
    pub fn parse(s: &str) -> (r: Result<Timestamp, Error>)
        ensures
            match r {
                Ok(t) => ts_norm(s@) == Some(t@) && t.wf(),
                Err(e) => e == Error::MalformedDate && ts_norm(s@) is None,
            },
    {
        match ts_normalize(s) {
            Some(text) => Ok(Timestamp { text }),
            None => Err(Error::MalformedDate),
        }
    }

    /// The present wall-clock instant. Relies on `chrono::Utc::now` and
    /// `chrono::DateTime::to_rfc3339`; of the value only that it is a
    /// serialization, as every `to_rfc3339` text is.
    #[verifier::external_body]
    pub fn now() -> (r: Timestamp)
        ensures
            r.wf(),
    {
        Timestamp { text: chrono::Utc::now().to_rfc3339() }
    }

    pub fn as_str(&self) -> (s: &str)
        ensures
            s@ == self@,
    {
        self.text.as_str()
    }

}

/// Is `c` a decimal digit?
pub open spec fn is_digit(c: char) -> bool {
    48 <= c as u32 <= 57
}

pub open spec fn digit_val(c: char) -> int {
    c as u32 - 48
}

pub open spec fn all_digits(s: Seq<char>) -> bool {
    forall|i: int| 0 <= i < s.len() ==> is_digit(s[i])
}

/// The number a digit string denotes, most significant digit first.
pub open spec fn dec_value(s: Seq<char>) -> int
    decreases s.len(),
{
    if s.len() <= 0 {
        0
    } else {
        dec_value(s.drop_last()) * 10 + digit_val(s.last())
    }
}

pub open spec fn digit_char(d: int) -> char {
    if d == 0 {
        '0'
    } else if d == 1 {
        '1'
    } else if d == 2 {
        '2'
    } else if d == 3 {
        '3'
    } else if d == 4 {
        '4'
    } else if d == 5 {
        '5'
    } else if d == 6 {
        '6'
    } else if d == 7 {
        '7'
    } else if d == 8 {
        '8'
    } else {
        '9'
    }
}

/// The canonical decimal digits of `n`: no sign, no leading zero.
pub open spec fn dec_digits(n: nat) -> Seq<char>
    decreases n,
{
    if n < 10 {
        seq![digit_char(n as int)]
    } else {
        dec_digits(n / 10).push(digit_char((n % 10) as int))
    }
}

/// The canonical digits denote the number they were made from, and are
/// digits indeed.
pub proof fn lemma_dec_digits_value(n: nat)
    ensures
        dec_digits(n).len() > 0,
        all_digits(dec_digits(n)),
        dec_value(dec_digits(n)) == n,
    decreases n,
{
    if n < 10 {
        let s = dec_digits(n);
        assert(s == seq![digit_char(n as int)]);
        assert(s.len() == 1);
        assert(s.last() == digit_char(n as int));
        assert(s.drop_last() =~= Seq::<char>::empty());
        assert(dec_value(s.drop_last()) == 0);
        assert(dec_value(s) == dec_value(s.drop_last()) * 10 + digit_val(s.last()));
    } else {
        lemma_dec_digits_value(n / 10);
        let s = dec_digits(n);
        assert(s.drop_last() =~= dec_digits(n / 10));
        assert(dec_value(s) == (n / 10) * 10 + (n % 10));
        assert((n / 10) * 10 + (n % 10) == n) by (nonlinear_arith);
        assert(forall|i: int| 0 <= i < s.len() - 1 ==> s[i] == dec_digits(n / 10)[i]);
    }
}

fn digit_str(d: u64) -> (s: &'static str)
    requires
        d < 10,
    ensures
        s@ == seq![digit_char(d as int)],
{
    proof {
        reveal_strlit("0");
        reveal_strlit("1");
        reveal_strlit("2");
        reveal_strlit("3");
        reveal_strlit("4");
        reveal_strlit("5");
        reveal_strlit("6");
        reveal_strlit("7");
        reveal_strlit("8");
        reveal_strlit("9");
    }
    let s: &'static str = if d == 0 {
        "0"
    } else if d == 1 {
        "1"
    } else if d == 2 {
        "2"
    } else if d == 3 {
        "3"
    } else if d == 4 {
        "4"
    } else if d == 5 {
        "5"
    } else if d == 6 {
        "6"
    } else if d == 7 {
        "7"
    } else if d == 8 {
        "8"
    } else {
        "9"
    };
    proof {
        assert(s@ =~= seq![digit_char(d as int)]);
    }
    s
}

/// Render `n` as its canonical decimal digits.
pub fn format_u64(n: u64) -> (s: String)
    ensures
        s@ == dec_digits(n as nat),
    decreases n,
{
    if n < 10 {
        digit_str(n).to_owned()
    } else {
        proof {
            assert(n / 10 < n) by (nonlinear_arith)
                requires
                    n >= 10,
            ;
        }
        let mut front = format_u64(n / 10);
        front.append(digit_str(n % 10));
        proof {
            assert(front@ =~= dec_digits(n as nat));
        }
        front
    }
}

/// Along a digit string, prefix values never shrink.
proof fn lemma_dec_value_step_monotone(s: Seq<char>, i: int, j: int)
    requires
        all_digits(s),
        0 <= i <= j <= s.len(),
    ensures
        dec_value(s.take(i)) <= dec_value(s.take(j)),
    decreases j - i,
{
    if i < j {
        lemma_dec_value_step_monotone(s, i, j - 1);
        let t = s.take(j);
        assert(t.drop_last() =~= s.take(j - 1));
        assert(dec_value(s.take(j - 1)) >= 0 ==> dec_value(t) >= dec_value(s.take(j - 1))) by (
        nonlinear_arith)
            requires
                dec_value(t) == dec_value(s.take(j - 1)) * 10 + digit_val(t.last()),
                digit_val(t.last()) >= 0,
        ;
        lemma_dec_value_nonneg(s, j - 1);
    }
}

proof fn lemma_dec_value_nonneg(s: Seq<char>, i: int)
    requires
        all_digits(s),
        0 <= i <= s.len(),
    ensures
        dec_value(s.take(i)) >= 0,
    decreases i,
{
    if i > 0 {
        lemma_dec_value_nonneg(s, i - 1);
        let t = s.take(i);
        assert(t.drop_last() =~= s.take(i - 1));
        assert(dec_value(t) >= 0) by (nonlinear_arith)
            requires
                dec_value(t) == dec_value(s.take(i - 1)) * 10 + digit_val(t.last()),
                dec_value(s.take(i - 1)) >= 0,
                digit_val(t.last()) >= 0,
        ;
    }
}

/// Read a digit string as a `u64`: at least one character, digits only,
/// and a value that fits.
pub fn parse_u64(s: &str) -> (r: Option<u64>)
    ensures
        match r {
            Some(n) => s@.len() > 0 && all_digits(s@) && dec_value(s@) == n,
            None => s@.len() == 0 || !all_digits(s@) || dec_value(s@) > u64::MAX,
        },
{
    let n = s.unicode_len();
    if n == 0 {
        return None;
    }
    let mut acc: u64 = 0;
    let mut i: usize = 0;
    while i < n
        invariant
            0 < n == s@.len(),
            i <= n,
            all_digits(s@.take(i as int)),
            acc == dec_value(s@.take(i as int)),
        decreases n - i,
    {
        let c = s.get_char(i);
        let v = c as u32;
        if v < 48 || v > 57 {
            assert(!is_digit(s@[i as int]));
            return None;
        }
        let d = (v - 48) as u64;
        let shifted = match acc.checked_mul(10) {
            Some(m) => m,
            None => {
                proof {
                    overflow_reason(s@, i as int, acc, d);
                }
                return None;
            },
        };
        let next = match shifted.checked_add(d) {
            Some(m) => m,
            None => {
                proof {
                    overflow_reason(s@, i as int, acc, d);
                }
                return None;
            },
        };
        acc = next;
        i += 1;
        proof {
            assert(s@.take(i as int).drop_last() =~= s@.take(i as int - 1));
        }
    }
    proof {
        assert(s@.take(n as int) =~= s@);
    }
    Some(acc)
}

/// When one more digit no longer fits, the whole string's value is out of
/// range (or a later character is no digit at all).
proof fn overflow_reason(s: Seq<char>, i: int, acc: u64, d: u64)
    requires
        0 <= i < s.len(),
        all_digits(s.take(i)),
        is_digit(s[i]),
        d == digit_val(s[i]),
        acc == dec_value(s.take(i)),
        acc * 10 + d > u64::MAX,
    ensures
        !all_digits(s) || dec_value(s) > u64::MAX,
{
    if all_digits(s) {
        assert(s.take(i + 1).drop_last() =~= s.take(i));
        assert(s.take(i + 1).last() == s[i]);
        assert(dec_value(s.take(i + 1)) == acc * 10 + d);
        lemma_dec_value_step_monotone(s, i + 1, s.len() as int);
        assert(s.take(s.len() as int) =~= s);
    }
}

} // verus!
