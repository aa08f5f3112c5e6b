//! Names of the pub/sub layer.
//!
//! Topics and queue-group names are namespace-prefixed strings built as
//! `<queue_prefix>.<name>`. A ping job's payload is the delimiter-joined
//! endpoint key of [`crate::keys::EndpointKey::encode`]; the subscriber
//! decodes it with [`crate::keys::EndpointKey::decode`]. Delivery
//! semantics — at-most-once, one consumer per queue group — are the
//! broker's and are not strengthened here.

use vstd::prelude::*;
use vstd::string::StrSliceExecFns;
use vstd::string::StringExecFns;

verus! {

/// A namespaced topic or queue-group name: `<prefix>.<name>`.
pub open spec fn subject_view(prefix: Seq<char>, name: Seq<char>) -> Seq<char> {
    prefix + seq!['.'] + name
}

/// Build the namespaced form of a topic or queue-group name.
pub fn subject(prefix: &str, name: &str) -> (s: String)
    ensures
        s@ == subject_view(prefix@, name@),
{
    let mut out = prefix.to_owned();
    out.append(".");
    out.append(name);
    proof {
        reveal_strlit(".");
        assert("."@ =~= seq!['.']);
        assert(out@ =~= subject_view(prefix@, name@));
    }
    out
}

} // verus!
