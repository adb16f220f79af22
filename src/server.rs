//! Configuration of the server: where its store lives, and how replies are
//! cut into datagrams.

use vstd::prelude::*;
use crate::text::{chars_of, string_of, contains_chars, occurs_in, chars_eq};

verus! {

/// Maximal payload of one reply datagram.
pub const DATAGRAM_LEN: usize = 1496;

/// The ways to specify a store.
pub enum StorePath {
    /// A filesystem path; selects the flat-file store.
    Fs(String),
    /// A URI; only the `postgresql://` scheme is known.
    Uri(String),
}

pub open spec fn uri_mark() -> Seq<char> {
    "://"@
}

pub open spec fn pg_scheme() -> Seq<char> {
    "postgresql://"@
}

pub open spec fn unsupported_scheme() -> Seq<char> {
    "the given URI scheme is not supported"@
}

impl StorePath {
    /// Reads a store path: a URI where it holds `://` (of which only the
    /// `postgresql://` scheme is supported), else a filesystem path.
    pub fn parse(path: &str) -> (r: Result<StorePath, String>)
        ensures
            !occurs_in(uri_mark(), path@) ==> (r matches Ok(StorePath::Fs(p)) && p@ == path@),
            occurs_in(uri_mark(), path@) && path@.len() >= pg_scheme().len()
                && path@.subrange(0, pg_scheme().len() as int) == pg_scheme()
                ==> (r matches Ok(StorePath::Uri(u)) && u@ == path@),
            occurs_in(uri_mark(), path@) && !(path@.len() >= pg_scheme().len()
                && path@.subrange(0, pg_scheme().len() as int) == pg_scheme())
                ==> (r matches Err(e) && e@ == unsupported_scheme()),
    {
        let cs = chars_of(path);
        let mut mark: Vec<char> = Vec::new();
        crate::text::push_str(&mut mark, "://");
        assert(mark@ == uri_mark());
        if contains_chars(&cs, &mark) {
            let mut scheme: Vec<char> = Vec::new();
            crate::text::push_str(&mut scheme, "postgresql://");
            assert(scheme@ == pg_scheme());
            if cs.len() >= scheme.len() && chars_eq(&cs, 0, scheme.len(), &scheme) {
                Ok(StorePath::Uri(string_of(cs.as_slice())))
            } else {
                let mut msg: Vec<char> = Vec::new();
                crate::text::push_str(&mut msg, "the given URI scheme is not supported");
                Err(string_of(msg.as_slice()))
            }
        } else {
            Ok(StorePath::Fs(string_of(cs.as_slice())))
        }
    }
}

/// The datagrams that a reply of `len` bytes is sent in: consecutive ranges
/// of at most `DATAGRAM_LEN` bytes that cover it.
pub fn datagram_ranges(len: usize) -> (r: Vec<(usize, usize)>)
    ensures
        r@.len() == (len + 1495) / 1496,
        forall|i: int| 0 <= i < r@.len() ==> (#[trigger] r@[i]).0 == 1496 * i
            && r@[i].1 == if 1496 * i + 1496 < len { 1496 * i + 1496 } else { len as int },
{
    let mut r: Vec<(usize, usize)> = Vec::new();
    let mut from: usize = 0;
    while from < len
        invariant
            from == 1496 * r@.len(),
            from < len + 1496,
            r@.len() == (from + 1495) / 1496,
            forall|i: int| 0 <= i < r@.len() ==> (#[trigger] r@[i]).0 == 1496 * i
                && r@[i].1 == if 1496 * i + 1496 < len { 1496 * i + 1496 } else { len as int },
        decreases len - from,
    {
        let to = if len - from > DATAGRAM_LEN { from + DATAGRAM_LEN } else { len };
        r.push((from, to));
        if len - from <= DATAGRAM_LEN {
            return r;
        }
        from = from + DATAGRAM_LEN;
    }
    r
}

} // verus!
