//! MIME identifiers (`type/subtype`) and handler identifiers, as plain byte
//! strings with syntactic validity invariants. A MIME identifier is totally
//! ordered by its byte string; equality is byte equality, and alias
//! canonicalization is a separate, explicit operation.
use vstd::prelude::*;
use crate::error::Error;
use crate::order::{clone_bytes, eq_bytes, lex_lt, lt_bytes};

verus! {

/// Bytes allowed inside the `type` and `subtype` parts of a MIME identifier:
/// printable ASCII except the separators the file grammar reserves.
pub open spec fn mime_byte(c: u8) -> bool {
    &&& 0x21 <= c <= 0x7e
    &&& c != 0x2f  // '/'
    &&& c != 0x3d  // '='
    &&& c != 0x3b  // ';'
    &&& c != 0x5b  // '['
    &&& c != 0x5d  // ']'
}

pub open spec fn mime_part_valid(p: Seq<u8>) -> bool {
    &&& p.len() > 0
    &&& forall|i: int| 0 <= i < p.len() ==> mime_byte(#[trigger] p[i])
}

/// A valid MIME identifier is `type/subtype`: two nonempty token parts
/// joined by a single slash.
pub open spec fn mime_valid(s: Seq<u8>) -> bool {
    exists|i: int|
        0 <= i < s.len() && #[trigger] s[i] == 0x2f && mime_part_valid(s.take(i))
            && mime_part_valid(s.skip(i + 1))
}

/// A valid handler identifier: nonempty, and free of the bytes the file
/// grammar reserves for list and line separation.
pub open spec fn handler_valid(s: Seq<u8>) -> bool {
    &&& s.len() > 0
    &&& forall|i: int| 0 <= i < s.len() ==> #[trigger] s[i] != 0x3b && s[i] != 0x0a
}

fn is_mime_byte(c: u8) -> (r: bool)
    ensures
        r == mime_byte(c),
{
    0x21 <= c && c <= 0x7e && c != 0x2f && c != 0x3d && c != 0x3b && c != 0x5b && c != 0x5d
}

/// Checks that `bytes` is a well-formed `type/subtype` MIME identifier.
pub fn check_mime(bytes: &Vec<u8>) -> (r: bool)
    ensures
        r == mime_valid(bytes@),
{
    let n = bytes.len();
    let mut i: usize = 0;
    let mut slash: Option<usize> = None;
    while i < n
        invariant
            n == bytes.len(),
            i <= n,
            match slash {
                Some(p) => p < i && bytes@[p as int] == 0x2f && forall|k: int|
                    0 <= k < i && k != p ==> mime_byte(#[trigger] bytes@[k]),
                None => forall|k: int| 0 <= k < i ==> mime_byte(#[trigger] bytes@[k]),
            },
        decreases n - i,
    {
        let c = bytes[i];
        if c == 0x2f {
            match slash {
                Some(p) => {
                    proof {
                        let p2 = i as int;
                        let p1 = p as int;
                        assert forall|j: int|
                            !(0 <= j < bytes@.len() && #[trigger] bytes@[j] == 0x2f
                                && mime_part_valid(bytes@.take(j)) && mime_part_valid(
                                bytes@.skip(j + 1),
                            )) by {
                            if 0 <= j < bytes@.len() && bytes@[j] == 0x2f {
                                if j < p2 {
                                    assert(bytes@.skip(j + 1)[p2 - j - 1] == 0x2f);
                                    assert(!mime_part_valid(bytes@.skip(j + 1)));
                                } else {
                                    assert(bytes@.take(j)[p1] == 0x2f);
                                    assert(!mime_part_valid(bytes@.take(j)));
                                }
                            }
                        }
                    }
                    return false;
                },
                None => {
                    slash = Some(i);
                },
            }
        } else if !is_mime_byte(c) {
            proof {
                let bad = i as int;
                assert forall|j: int|
                    !(0 <= j < bytes@.len() && #[trigger] bytes@[j] == 0x2f && mime_part_valid(
                        bytes@.take(j),
                    ) && mime_part_valid(bytes@.skip(j + 1))) by {
                    if 0 <= j < bytes@.len() && bytes@[j] == 0x2f {
                        if j < bad {
                            assert(bytes@.skip(j + 1)[bad - j - 1] == bytes@[bad]);
                            assert(!mime_part_valid(bytes@.skip(j + 1)));
                        } else if j > bad {
                            assert(bytes@.take(j)[bad] == bytes@[bad]);
                            assert(!mime_part_valid(bytes@.take(j)));
                        }
                    }
                }
            }
            return false;
        }
        i = i + 1;
    }
    match slash {
        Some(p) => {
            if p > 0 && p + 1 < n {
                proof {
                    let pi = p as int;
                    assert(mime_part_valid(bytes@.take(pi))) by {
                        assert(forall|k: int|
                            0 <= k < pi ==> bytes@.take(pi)[k] == #[trigger] bytes@[k]);
                    }
                    assert(mime_part_valid(bytes@.skip(pi + 1))) by {
                        assert(forall|k: int|
                            0 <= k < n - pi - 1 ==> bytes@.skip(pi + 1)[k] == #[trigger] bytes@[k
                                + pi + 1]);
                    }
                }
                true
            } else {
                proof {
                    let pi = p as int;
                    assert forall|j: int|
                        !(0 <= j < bytes@.len() && #[trigger] bytes@[j] == 0x2f && mime_part_valid(
                            bytes@.take(j),
                        ) && mime_part_valid(bytes@.skip(j + 1))) by {
                        if 0 <= j < bytes@.len() && bytes@[j] == 0x2f {
                            assert(j == pi);
                            if pi == 0 {
                                assert(bytes@.take(0).len() == 0);
                            } else {
                                assert(bytes@.skip(pi + 1).len() == 0);
                            }
                        }
                    }
                }
                false
            }
        },
        None => {
            false
        },
    }
}

/// Checks that `bytes` is a well-formed handler identifier.
pub fn check_handler(bytes: &Vec<u8>) -> (r: bool)
    ensures
        r == handler_valid(bytes@),
{
    let n = bytes.len();
    if n == 0 {
        return false;
    }
    let mut i: usize = 0;
    while i < n
        invariant
            n == bytes.len(),
            i <= n,
            forall|k: int| 0 <= k < i ==> #[trigger] bytes@[k] != 0x3b && bytes@[k] != 0x0a,
        decreases n - i,
    {
        let c = bytes[i];
        if c == 0x3b || c == 0x0a {
            return false;
        }
        i = i + 1;
    }
    true
}

/// An immutable MIME identifier in `type/subtype` form. Two identifiers are
/// equal iff their byte strings are equal; the order is lexicographic.
pub struct MimeId {
    bytes: Vec<u8>,
}

impl View for MimeId {
    type V = Seq<u8>;

    closed spec fn view(&self) -> Seq<u8> {
        self.bytes@
    }
}

impl MimeId {
    pub open spec fn wf(&self) -> bool {
        mime_valid(self@)
    }

    /// Validates and wraps a MIME identifier; a malformed string is rejected,
    /// never stored.
    pub fn parse(bytes: Vec<u8>) -> (r: Result<MimeId, Error>)
        ensures
            match r {
                Ok(m) => mime_valid(bytes@) && m@ == bytes@ && m.wf(),
                Err(e) => !mime_valid(bytes@) && (e matches Error::InvalidMime(b) && b@ == bytes@),
            },
    {
        if check_mime(&bytes) {
            Ok(MimeId { bytes })
        } else {
            Err(Error::InvalidMime(bytes))
        }
    }

    /// Whether `self` comes strictly before `other` in identifier order.
    pub fn lt(&self, other: &MimeId) -> (r: bool)
        ensures
            r == lex_lt(self@, other@),
    {
        lt_bytes(&self.bytes, &other.bytes)
    }

    /// Byte equality of the two identifiers.
    pub fn same(&self, other: &MimeId) -> (r: bool)
        ensures
            r == (self@ == other@),
    {
        eq_bytes(&self.bytes, &other.bytes)
    }

    /// A fresh identifier holding the same bytes.
    pub fn duplicate(&self) -> (r: MimeId)
        ensures
            r@ == self@,
    {
        MimeId { bytes: clone_bytes(&self.bytes) }
    }

    /// The identifier's byte string.
    pub fn as_bytes(&self) -> (r: &Vec<u8>)
        ensures
            r@ == self@,
    {
        &self.bytes
    }
}

/// An opaque token naming an installed application handler. Whether a handler
/// by this name exists is the application registry's concern, settled before
/// construction; the table only guarantees the token is storable in the file
/// grammar.
pub struct Handler {
    name: Vec<u8>,
}

impl View for Handler {
    type V = Seq<u8>;

    closed spec fn view(&self) -> Seq<u8> {
        self.name@
    }
}

impl Handler {
    pub open spec fn wf(&self) -> bool {
        handler_valid(self@)
    }

    /// Wraps a handler name whose existence the caller has already resolved
    /// against the application registry.
    pub fn assume_valid(name: Vec<u8>) -> (r: Handler)
        requires
            handler_valid(name@),
        ensures
            r@ == name@ && r.wf(),
    {
        Handler { name }
    }

    /// Validates the token syntactically and wraps it.
    pub fn from_bytes(name: Vec<u8>) -> (r: Option<Handler>)
        ensures
            match r {
                Some(h) => handler_valid(name@) && h@ == name@ && h.wf(),
                None => !handler_valid(name@),
            },
    {
        if check_handler(&name) {
            Some(Handler { name })
        } else {
            None
        }
    }

    /// Byte equality of the two handler names.
    pub fn same(&self, other: &Handler) -> (r: bool)
        ensures
            r == (self@ == other@),
    {
        eq_bytes(&self.name, &other.name)
    }

    /// A fresh handler holding the same name.
    pub fn duplicate(&self) -> (r: Handler)
        ensures
            r@ == self@,
    {
        Handler { name: clone_bytes(&self.name) }
    }

    /// The handler's name bytes.
    pub fn as_bytes(&self) -> (r: &Vec<u8>)
        ensures
            r@ == self@,
    {
        &self.name
    }
}

} // verus!
