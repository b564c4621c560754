//! The store-facing half of the request layer: the request parameter
//! types, the caller identity and how it is read from a header value,
//! and the mapping from store errors to response-level errors. The
//! network plumbing itself lives outside the library and hands these
//! functions plain values.

use vstd::prelude::*;
use crate::entity::{Entity, EntityUid};
use crate::error::DaError;

verus! {

/// Parameters of a request to create a directory.
#[derive(Debug)]
pub struct PostDirectoryRequest {
    pub name: String,
    pub parent: Option<crate::da_directory::DaDirectorySid>,
}

/// Parameters of a request to rename a directory.
#[derive(Debug)]
pub struct PutDirectoryRequest {
    pub name: String,
}

/// The decimal digit characters of `n`, most significant first.
pub open spec fn spec_u64_digits(n: nat) -> Seq<char>
    decreases n,
{
    if n < 10 {
        seq![spec_digit_char(n)]
    } else {
        spec_u64_digits(n / 10).push(spec_digit_char(n % 10))
    }
}

/// The character for one decimal digit.
pub open spec fn spec_digit_char(d: nat) -> char {
    if d == 0 {
        '0'
    } else if d == 1 {
        '1'
    } else if d == 2 {
        '2'
    } else if d == 3 {
        '3'
    } else if d == 4 {
        '4'
    } else if d == 5 {
        '5'
    } else if d == 6 {
        '6'
    } else if d == 7 {
        '7'
    } else if d == 8 {
        '8'
    } else {
        '9'
    }
}

/// One decimal digit as a string slice.
fn digit_str(d: u64) -> (s: &'static str)
    requires
        d < 10,
    ensures
        s@ == seq![spec_digit_char(d as nat)],
{
    proof {
        reveal_strlit("0");
        reveal_strlit("1");
        reveal_strlit("2");
        reveal_strlit("3");
        reveal_strlit("4");
        reveal_strlit("5");
        reveal_strlit("6");
        reveal_strlit("7");
        reveal_strlit("8");
        reveal_strlit("9");
    }
    match d {
        0 => "0",
        1 => "1",
        2 => "2",
        3 => "3",
        4 => "4",
        5 => "5",
        6 => "6",
        7 => "7",
        8 => "8",
        _ => "9",
    }
}

/// Renders `n` in decimal.
pub fn u64_to_string(n: u64) -> (s: String)
    ensures
        s@ == spec_u64_digits(n as nat),
    decreases n,
{
    if n < 10 {
        digit_str(n).to_owned()
    } else {
        proof {
            assert(n / 10 < n) by (nonlinear_arith)
                requires
                    n >= 10,
            ;
        }
        let mut s = u64_to_string(n / 10);
        s.append(digit_str(n % 10));
        proof {
            assert(s@ == spec_u64_digits((n / 10) as nat) + seq![
                spec_digit_char((n % 10) as nat),
            ]);
            assert(spec_u64_digits((n / 10) as nat).push(spec_digit_char((n % 10) as nat))
                =~= spec_u64_digits((n / 10) as nat) + seq![spec_digit_char((n % 10) as nat)]);
        }
        s
    }
}

/// The numeric value of a run of decimal digit bytes, most significant
/// first.
pub open spec fn spec_digits_val(s: Seq<u8>) -> int
    decreases s.len(),
{
    if s.len() == 0 {
        0
    } else {
        spec_digits_val(s.drop_last()) * 10 + (s.last() - 48)
    }
}

/// Every byte of `s` is a decimal digit.
pub open spec fn spec_all_digits(s: Seq<u8>) -> bool {
    forall|i: int| 0 <= i < s.len() ==> 48 <= #[trigger] s[i] <= 57
}

/// What parsing an entity identifier from a header value yields: an
/// optional leading plus sign, then one or more decimal digits whose
/// value fits in 64 bits — exactly the strings `u64` parsing accepts.
pub open spec fn spec_parse_entity_uid(s: Seq<u8>) -> Option<u64> {
    let t = if s.len() > 0 && s[0] == 43 {
        s.subrange(1, s.len() as int)
    } else {
        s
    };
    if t.len() > 0 && spec_all_digits(t) && spec_digits_val(t) <= u64::MAX {
        Some(spec_digits_val(t) as u64)
    } else {
        None
    }
}

/// The value of a run of digits is never negative.
proof fn lemma_digits_val_nonneg(s: Seq<u8>, i: int)
    requires
        0 <= i <= s.len(),
        spec_all_digits(s),
    ensures
        spec_digits_val(s.subrange(0, i)) >= 0,
    decreases i,
{
    if i > 0 {
        lemma_digits_val_nonneg(s, i - 1);
        let prev = s.subrange(0, i - 1);
        let cur = s.subrange(0, i);
        assert(cur.drop_last() =~= prev);
        assert(cur.last() == s[i - 1]);
        assert(spec_digits_val(prev) * 10 >= 0) by (nonlinear_arith)
            requires
                spec_digits_val(prev) >= 0,
        ;
    }
}

/// A longer run of digits never has a smaller value.
proof fn lemma_digits_val_monotonic(s: Seq<u8>, i: int, j: int)
    requires
        0 <= i <= j <= s.len(),
        spec_all_digits(s),
    ensures
        spec_digits_val(s.subrange(0, i)) <= spec_digits_val(s.subrange(0, j)),
    decreases j - i,
{
    if i < j {
        lemma_digits_val_monotonic(s, i, j - 1);
        lemma_digits_val_nonneg(s, j - 1);
        let prev = s.subrange(0, j - 1);
        let cur = s.subrange(0, j);
        assert(cur.drop_last() =~= prev);
        assert(cur.last() == s[j - 1]);
        assert(spec_digits_val(cur) == spec_digits_val(prev) * 10 + (cur.last() - 48));
        assert(spec_digits_val(prev) * 10 >= spec_digits_val(prev)) by (nonlinear_arith)
            requires
                spec_digits_val(prev) >= 0,
        ;
    }
}

/// Parses an entity identifier from the raw bytes of a header value,
/// accepting exactly the strings that 64-bit unsigned parsing accepts:
/// an optional leading plus sign and a run of decimal digits whose
/// value fits.
pub fn parse_entity_uid(bytes: &[u8]) -> (r: Option<u64>)
    ensures
        r == spec_parse_entity_uid(bytes@),
{
    let n = bytes.len();
    let start: usize = if n > 0 && bytes[0] == 43 {
        1
    } else {
        0
    };
    let ghost t = if bytes@.len() > 0 && bytes@[0] == 43 {
        bytes@.subrange(1, bytes@.len() as int)
    } else {
        bytes@
    };
    proof {
        assert(t =~= bytes@.subrange(start as int, n as int));
    }
    if start >= n {
        return None;
    }
    let mut val: u64 = 0;
    let mut i = start;
    while i < n
        invariant
            start <= i <= n,
            n == bytes@.len(),
            start <= 1,
            if bytes@.len() > 0 && bytes@[0] == 43 {
                start == 1
            } else {
                start == 0
            },
            t == (if bytes@.len() > 0 && bytes@[0] == 43 {
                bytes@.subrange(1, bytes@.len() as int)
            } else {
                bytes@
            }),
            t == bytes@.subrange(start as int, n as int),
            spec_all_digits(t.subrange(0, i - start)),
            val == spec_digits_val(t.subrange(0, i - start)),
        decreases n - i,
    {
        let c = bytes[i];
        proof {
            assert(t[i - start] == bytes@[i as int]);
        }
        if c < 48 || c > 57 {
            // a non-digit byte: the whole value is rejected
            proof {
                assert(0 <= i - start < t.len());
                if spec_all_digits(t) {
                    assert(48 <= t[i - start] <= 57);
                    assert(false);
                }
                assert(spec_parse_entity_uid(bytes@) == Option::<u64>::None);
            }
            return None;
        }
        let d = (c - 48) as u64;
        let ghost pre = t.subrange(0, i - start);
        let ghost cur = t.subrange(0, i + 1 - start);
        proof {
            assert(cur.drop_last() =~= pre);
            assert(cur.last() == t[i - start]);
            assert(spec_digits_val(cur) == spec_digits_val(pre) * 10 + d);
        }
        let next = match val.checked_mul(10) {
            Some(v10) => v10.checked_add(d),
            None => None,
        };
        match next {
            Some(v) => {
                val = v;
            },
            None => {
                // the accumulated value no longer fits in 64 bits, and a
                // longer digit run can only be larger
                proof {
                    assert(spec_digits_val(cur) == spec_digits_val(pre) * 10 + d);
                    assert(spec_digits_val(cur) > u64::MAX);
                    if spec_all_digits(t) {
                        lemma_digits_val_monotonic(t, i + 1 - start, t.len() as int);
                        assert(t.subrange(0, t.len() as int) =~= t);
                        assert(spec_digits_val(t) >= spec_digits_val(cur));
                        assert(spec_digits_val(t) > u64::MAX);
                    }
                    assert(spec_parse_entity_uid(bytes@) == Option::<u64>::None);
                }
                return None;
            },
        }
        i = i + 1;
    }
    proof {
        assert(t.subrange(0, t.len() as int) =~= t);
    }
    Some(val)
}

/// The identity of the caller of a request, read from the value of the
/// identity header.
#[derive(Debug, Clone, Copy)]
pub struct ApiUser {
    uid: EntityUid,
}

impl ApiUser {
    /// The entity identifier this caller identity carries.
    pub closed spec fn spec_uid(self) -> EntityUid {
        self.uid
    }

    /// Builds the caller identity from an already-extracted entity
    /// identifier.
    pub fn new(uid: EntityUid) -> (u: Self)
        ensures
            u.spec_uid() == uid,
    {
        ApiUser { uid }
    }

    /// Reads the caller identity from the raw bytes of the identity
    /// header: a missing or unparsable header is refused.
    pub fn from_header(value: Option<&[u8]>) -> (r: Result<Self, ApiError>)
        ensures
            match r {
                Ok(u) => {
                    &&& value matches Some(b) && spec_parse_entity_uid(b@) == Some(u.spec_uid())
                },
                Err(e) => {
                    match value {
                        Some(b) => spec_parse_entity_uid(b@) == Option::<u64>::None && (
                        e matches ApiError::Forbidden(m) && m@ == "Invalid X-Entity-Uid header"@),
                        None => e matches ApiError::Forbidden(m) && m@
                            == "No X-Entity-Uid header"@,
                    }
                },
            },
    {
        match value {
            Some(bytes) => {
                match parse_entity_uid(bytes) {
                    Some(uid) => Ok(ApiUser { uid }),
                    None => Err(ApiError::Forbidden("Invalid X-Entity-Uid header".to_owned())),
                }
            },
            None => Err(ApiError::Forbidden("No X-Entity-Uid header".to_owned())),
        }
    }

    /// The identifier, as an exec value.
    pub fn entity_uid(&self) -> (u: EntityUid)
        ensures
            u == self.spec_uid(),
    {
        self.uid
    }
}

impl Entity for ApiUser {
    fn uid(&self) -> EntityUid {
        self.uid
    }
}

/// An error as reported to the caller of a request.
#[derive(Debug, PartialEq, Eq)]
pub enum ApiError {
    InternalServerError,
    Forbidden(String),
    NotFound,
}

impl ApiError {
    /// Maps a store error to the error reported to the caller: an absent
    /// directory is reported as not found, a denied access as forbidden
    /// with a message naming the caller, and anything else as an
    /// internal failure that leaks no detail.
    pub fn from(err: DaError) -> (r: Self)
        ensures
            match err {
                DaError::DirectoryNotFound(_) => r == ApiError::NotFound,
                DaError::AccessDenied { requested_by, .. } => r matches ApiError::Forbidden(m)
                    && m@ == "the user "@ + spec_u64_digits(requested_by as nat)
                    + " is not allowed to access the resource"@,
                _ => r == ApiError::InternalServerError,
            },
    {
        match err {
            DaError::DirectoryNotFound(_) => Self::NotFound,
            DaError::AccessDenied { requested_by, .. } => {
                let mut m = "the user ".to_owned();
                m.append(u64_to_string(requested_by).as_str());
                m.append(" is not allowed to access the resource");
                Self::Forbidden(m)
            },
            _ => Self::InternalServerError,
        }
    }

    /// The response status code this error maps to.
    pub fn status_code(&self) -> (c: u16)
        ensures
            c == (match self {
                ApiError::Forbidden(_) => 403u16,
                ApiError::NotFound => 404u16,
                ApiError::InternalServerError => 500u16,
            }),
    {
        match self {
            ApiError::Forbidden(_) => 403,
            ApiError::NotFound => 404,
            ApiError::InternalServerError => 500,
        }
    }

    /// The response body text this error maps to.
    pub fn response_text(&self) -> (t: &'static str)
        ensures
            match self {
                ApiError::Forbidden(_) => t@ == "Forbidden"@,
                ApiError::NotFound => t@ == "Not found"@,
                ApiError::InternalServerError => t@ == "Internal server error"@,
            },
    {
        proof {
            reveal_strlit("Forbidden");
            reveal_strlit("Not found");
            reveal_strlit("Internal server error");
        }
        match self {
            ApiError::Forbidden(_) => "Forbidden",
            ApiError::NotFound => "Not found",
            ApiError::InternalServerError => "Internal server error",
        }
    }
}

pub type ApiResult<T> = Result<T, ApiError>;

} // verus!
