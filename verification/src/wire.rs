//! The wire-message format: `<36-char identity>(<sec>,<nsec>)<payload>`.
//! Parsing turns decoded packet text into an identity and a timestamped
//! entry; serialization is its exact inverse.

use crate::identity::{is_canonical_id, norm_id, ClientId};
use crate::numtext::{
    int_str_of, int_str_val, is_dec_digit, is_int_str, parse_i32, parse_i64,
};
use vstd::prelude::*;

verus! {

/// Sender wall-clock time: seconds and nanoseconds, ordered lexicographically.
#[derive(Clone, Copy, PartialEq, Eq, Structural, Debug)]
pub struct Timestamp {
    pub sec: i64,
    pub nsec: i32,
}

/// Lexicographic order on timestamps: seconds first, then nanoseconds.
pub open spec fn ts_le(a: Timestamp, b: Timestamp) -> bool {
    a.sec < b.sec || (a.sec == b.sec && a.nsec <= b.nsec)
}

/// The text form of a timestamp on the wire and in presentation: `(sec,nsec)`.
pub open spec fn ts_text(t: Timestamp) -> Seq<char> {
    seq!['('] + int_str_of(t.sec as int) + seq![','] + int_str_of(t.nsec as int) + seq![')']
}

impl Timestamp {
    pub fn new(sec: i64, nsec: i32) -> (r: Timestamp)
        ensures
            r == (Timestamp { sec, nsec }),
    {
        Timestamp { sec, nsec }
    }

    pub fn le(&self, other: &Timestamp) -> (r: bool)
        ensures
            r == ts_le(*self, *other),
    {
        self.sec < other.sec || (self.sec == other.sec && self.nsec <= other.nsec)
    }

    /// Renders the timestamp as `(sec,nsec)`.
    pub fn to_text(&self) -> (r: String)
        ensures
            r@ == ts_text(*self),
    {
        proof {
            reveal_strlit("(");
            reveal_strlit(",");
            reveal_strlit(")");
        }
        let mut s = String::from_str("(");
        let sec_s = crate::numtext::i64_to_string(self.sec);
        s.append(sec_s.as_str());
        s.append(",");
        let nsec_s = crate::numtext::i32_to_string(self.nsec);
        s.append(nsec_s.as_str());
        s.append(")");
        proof {
            assert(s@ =~= ts_text(*self));
        }
        s
    }
}

/// One timestamped payload unit.
#[derive(Debug)]
pub struct Data<T> {
    pub timestamp: Timestamp,
    pub message: T,
}

impl<T: Clone> Clone for Data<T> {
    fn clone(&self) -> (r: Self)
        ensures
            r.timestamp == self.timestamp,
            cloned::<T>(self.message, r.message),
    {
        Data { timestamp: self.timestamp, message: self.message.clone() }
    }
}

/// Why a packet's text was rejected.
#[derive(Clone, Copy, PartialEq, Eq, Structural, Debug)]
pub enum ParseError {
    /// The first 36 characters are not a canonical identity.
    InvalidIdentity,
    /// The timestamp section after the identity is missing or unreadable.
    MalformedTimestamp,
}

/// The first position at or after `i` where `c` occurs in `s`, or -1.
pub open spec fn find_from(s: Seq<char>, c: char, i: int) -> int
    decreases s.len() - i,
{
    if i < 0 || i >= s.len() {
        -1
    } else if s[i] == c {
        i
    } else {
        find_from(s, c, i + 1)
    }
}

/// What `find_from` returning a position means.
pub proof fn lemma_find_from(s: Seq<char>, c: char, i: int)
    requires
        0 <= i <= s.len(),
    ensures
        find_from(s, c, i) == -1 || find_from(s, c, i) >= 0,
        find_from(s, c, i) == -1 ==> forall|j: int| i <= j < s.len() ==> s[j] != c,
        find_from(s, c, i) >= 0 ==> i <= find_from(s, c, i) < s.len() && s[find_from(s, c, i)] == c
            && forall|j: int| i <= j < find_from(s, c, i) ==> s[j] != c,
    decreases s.len() - i,
{
    if i < s.len() && s[i] != c {
        lemma_find_from(s, c, i + 1);
    }
}

/// `find_from` finds exactly the first occurrence.
pub proof fn lemma_find_from_exact(s: Seq<char>, c: char, i: int, j: int)
    requires
        0 <= i <= j < s.len(),
        s[j] == c,
        forall|l: int| i <= l < j ==> s[l] != c,
    ensures
        find_from(s, c, i) == j,
    decreases j - i,
{
    if i < j {
        lemma_find_from_exact(s, c, i + 1, j);
    }
}

/// The first position at or after `from` where `c` occurs in `s`.
pub fn find_char(s: &str, c: char, from: usize) -> (r: Option<usize>)
    requires
        from <= s@.len(),
    ensures
        r is Some <==> find_from(s@, c, from as int) >= 0,
        r matches Some(j) ==> j == find_from(s@, c, from as int),
    {
    let n = s.unicode_len();
    let mut i: usize = from;
    while i < n
        invariant
            from <= i <= n,
            n == s@.len(),
            find_from(s@, c, from as int) == find_from(s@, c, i as int),
        decreases n - i,
    {
        if s.get_char(i) == c {
            return Some(i);
        }
        i = i + 1;
    }
    None
}

/// Whether the timestamp text inside the parentheses is acceptable: either no
/// comma at all (the degenerate `(0,0)` fallback), or two parsable integer
/// fields around the first comma.
pub open spec fn inner_ts_ok(inner: Seq<char>) -> bool {
    let m = find_from(inner, ',', 0);
    if m == -1 {
        true
    } else {
        let sec = inner.subrange(0, m);
        let nsec = inner.subrange(m + 1, inner.len() as int);
        is_int_str(sec) && i64::MIN <= int_str_val(sec) <= i64::MAX && is_int_str(nsec)
            && i32::MIN <= int_str_val(nsec) <= i32::MAX
    }
}

/// The timestamp the text inside the parentheses denotes. A missing comma
/// deliberately falls back to (0,0), preserved defensive behaviour of the
/// wire format rather than a rejection.
pub open spec fn inner_ts(inner: Seq<char>) -> Timestamp {
    let m = find_from(inner, ',', 0);
    if m == -1 {
        Timestamp { sec: 0, nsec: 0 }
    } else {
        Timestamp {
            sec: int_str_val(inner.subrange(0, m)) as i64,
            nsec: int_str_val(inner.subrange(m + 1, inner.len() as int)) as i32,
        }
    }
}

/// Whether the message body (everything after the identity) is acceptable:
/// it opens with `(`, some `)` follows, and the text between them is an
/// acceptable timestamp.
pub open spec fn body_ok(r: Seq<char>) -> bool {
    r.len() >= 1 && r[0] == '(' && find_from(r, ')', 1) >= 0 && inner_ts_ok(
        r.subrange(1, find_from(r, ')', 1)),
    )
}

/// The timestamp a well-formed body denotes.
pub open spec fn body_ts(r: Seq<char>) -> Timestamp {
    inner_ts(r.subrange(1, find_from(r, ')', 1)))
}

/// The payload of a well-formed body: everything after the first `)`,
/// verbatim.
pub open spec fn body_payload(r: Seq<char>) -> Seq<char> {
    r.subrange(find_from(r, ')', 1) + 1, r.len() as int)
}

/// Whether a whole decoded packet text is acceptable: a canonical identity
/// in the first 36 characters, then an acceptable body.
pub open spec fn packet_ok(s: Seq<char>) -> bool {
    s.len() >= 36 && is_canonical_id(s.subrange(0, 36)) && body_ok(s.skip(36))
}

/// The (normalized) identity text of a well-formed packet.
pub open spec fn packet_id(s: Seq<char>) -> Seq<char> {
    norm_id(s.subrange(0, 36))
}

/// The timestamp of a well-formed packet.
pub open spec fn packet_ts(s: Seq<char>) -> Timestamp {
    body_ts(s.skip(36))
}

/// The payload of a well-formed packet.
pub open spec fn packet_payload(s: Seq<char>) -> Seq<char> {
    body_payload(s.skip(36))
}

/// Which error a rejected packet yields: a bad identity before a bad body.
pub open spec fn packet_err(s: Seq<char>) -> ParseError {
    if s.len() < 36 || !is_canonical_id(s.subrange(0, 36)) {
        ParseError::InvalidIdentity
    } else {
        ParseError::MalformedTimestamp
    }
}

impl Data<String> {
    /// Parses the body of a wire message (the text after the identity) into
    /// a timestamped entry. Fails with `MalformedTimestamp` exactly when the
    /// body does not open with `(`, no `)` follows, or an integer field
    /// between them is unreadable.
    pub fn new_from_message(msg: &str) -> (r: Result<Data<String>, ParseError>)
        ensures
            r is Ok <==> body_ok(msg@),
            r matches Ok(d) ==> d.timestamp == body_ts(msg@) && d.message@ == body_payload(msg@),
            r matches Err(e) ==> e == ParseError::MalformedTimestamp,
    {
        let n = msg.unicode_len();
        if n == 0 {
            return Err(ParseError::MalformedTimestamp);
        }
        if msg.get_char(0) != '(' {
            return Err(ParseError::MalformedTimestamp);
        }
        let cp = match find_char(msg, ')', 1) {
            Some(j) => j,
            None => {
                return Err(ParseError::MalformedTimestamp);
            },
        };
        proof {
            lemma_find_from(msg@, ')', 1);
        }
        let inner = msg.substring_char(1, cp);
        let ghost inner_seq = msg@.subrange(1, cp as int);
        let inner_len = inner.unicode_len();
        proof {
            lemma_find_from(inner@, ',', 0);
        }
        let m = find_char(inner, ',', 0);
        let ts = match m {
            None => Timestamp::new(0, 0),
            Some(mid) => {
                proof {
                    lemma_find_from(inner@, ',', 0);
                }
                let sec_s = inner.substring_char(0, mid);
                let nsec_s = inner.substring_char(mid + 1, inner_len);
                let sec = match parse_i64(sec_s) {
                    Some(v) => v,
                    None => {
                        return Err(ParseError::MalformedTimestamp);
                    },
                };
                let nsec = match parse_i32(nsec_s) {
                    Some(v) => v,
                    None => {
                        return Err(ParseError::MalformedTimestamp);
                    },
                };
                Timestamp::new(sec, nsec)
            },
        };
        let payload = msg.substring_char(cp + 1, n).to_owned();
        proof {
            assert(body_ok(msg@));
            assert(ts == body_ts(msg@));
            assert(payload@ == body_payload(msg@));
        }
        Ok(Data { timestamp: ts, message: payload })
    }
}

/// Relies on time::OffsetDateTime::now_utc, unix_timestamp and nanosecond:
/// the wall clock now, as whole seconds and the nanosecond part within the
/// current second, which is always below one billion.
#[verifier::external_body]
pub(crate) fn clock_now() -> (r: (i64, i32))
    ensures
        0 <= r.1 < 1_000_000_000,
{
    let t = time::OffsetDateTime::now_utc();
    (t.unix_timestamp(), t.nanosecond() as i32)
}

/// The full text of a wire message: identity, timestamp, payload, verbatim
/// and unescaped.
pub open spec fn wire_text(id: Seq<char>, t: Timestamp, payload: Seq<char>) -> Seq<char> {
    id + ts_text(t) + payload
}

/// Serializes a wire message for a given timestamp. The inverse of parsing;
/// see `lemma_wire_round_trip`.
pub fn create_message_at(id: &ClientId, t: Timestamp, msg: &String) -> (r: String)
    ensures
        r@ == wire_text(id@, t, msg@),
{
    let mut s = id.to_text();
    let ts = t.to_text();
    s.append(ts.as_str());
    s.append(msg.as_str());
    proof {
        assert(s@ =~= wire_text(id@, t, msg@));
    }
    s
}

/// Characters of a rendered integer are digits or `-`, so none of the
/// format's delimiters occur in it.
proof fn lemma_int_str_no_delim(v: int)
    ensures
        forall|i: int|
            0 <= i < int_str_of(v).len() ==> #[trigger] int_str_of(v)[i] != '(' && int_str_of(
                v,
            )[i] != ')' && int_str_of(v)[i] != ',',
{
    crate::numtext::lemma_int_str_round_trip(v);
    assert forall|i: int| 0 <= i < int_str_of(v).len() implies #[trigger] int_str_of(v)[i] != '('
        && int_str_of(v)[i] != ')' && int_str_of(v)[i] != ',' by {
        let c = int_str_of(v)[i];
        assert(is_dec_digit(c) || c == '-');
        if is_dec_digit(c) {
            assert(48 <= c as int && c as int <= 57);
            assert('(' as int == 40 && ')' as int == 41 && ',' as int == 44);
        }
    }
}

/// Round trip: parsing a serialized message recovers the identity (already
/// in normal form), the exact timestamp, and the payload verbatim — for
/// every identity, timestamp and payload text.
pub proof fn lemma_wire_round_trip(id: Seq<char>, t: Timestamp, payload: Seq<char>)
    requires
        crate::identity::is_lower_id(id),
    ensures
        wire_text(id, t, payload).len() >= 36,
        wire_text(id, t, payload).subrange(0, 36) == id,
        is_canonical_id(wire_text(id, t, payload).subrange(0, 36)),
        norm_id(wire_text(id, t, payload).subrange(0, 36)) == id,
        body_ok(wire_text(id, t, payload).skip(36)),
        body_ts(wire_text(id, t, payload).skip(36)) == t,
        body_payload(wire_text(id, t, payload).skip(36)) == payload,
{
    let w = wire_text(id, t, payload);
    let ss = int_str_of(t.sec as int);
    let ns = int_str_of(t.nsec as int);
    crate::numtext::lemma_int_str_round_trip(t.sec as int);
    crate::numtext::lemma_int_str_round_trip(t.nsec as int);
    lemma_int_str_no_delim(t.sec as int);
    lemma_int_str_no_delim(t.nsec as int);
    assert(id.len() == 36);
    assert(w.subrange(0, 36) =~= id);
    let rem = w.skip(36);
    assert(rem =~= ts_text(t) + payload);
    let cp = 1 + ss.len() + 1 + ns.len();
    assert(rem[0] == '(');
    assert(rem[cp as int] == ')');
    assert forall|l: int| 1 <= l < cp implies rem[l] != ')' by {
        if 1 <= l < 1 + ss.len() {
            assert(rem[l] == ss[l - 1]);
        } else if l == 1 + ss.len() {
            assert(rem[l] == ',');
        } else {
            assert(rem[l] == ns[l - 1 - ss.len() - 1]);
        }
    }
    lemma_find_from_exact(rem, ')', 1, cp as int);
    let inner = rem.subrange(1, cp as int);
    assert(inner =~= ss + seq![','] + ns);
    let mid = ss.len();
    assert(inner[mid as int] == ',');
    assert forall|l: int| 0 <= l < mid implies inner[l] != ',' by {
        assert(inner[l] == ss[l]);
    }
    lemma_find_from_exact(inner, ',', 0, mid as int);
    assert(inner.subrange(0, mid as int) =~= ss);
    assert(inner.subrange(mid as int + 1, inner.len() as int) =~= ns);
    assert(int_str_val(ss) == t.sec as int);
    assert(int_str_val(ns) == t.nsec as int);
    assert(inner_ts_ok(inner));
    assert(inner_ts(inner) == t);
    assert(body_payload(rem) =~= payload);
    crate::identity::lemma_norm_id(id);
}

} // verus!
