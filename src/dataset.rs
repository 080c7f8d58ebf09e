//! The dataset format: one record per line, five tab-separated fields (range
//! start, range end, AS number, country code, description), the description
//! taking the rest of the line.
use vstd::prelude::*;
use vstd::slice::{slice_subrange, slice_to_vec};
use crate::addr::{Addr, key};
use crate::index::{Database, Record, RecordView};

verus! {

/// Why a dataset could not be turned into a table.
#[derive(Clone, Copy, Debug, PartialEq, Eq, Structural)]
pub enum DatabaseError {
    /// The compressed stream could not be decoded into text.
    IoError,
    /// A range start or end is not an IP address.
    AddrParseError,
    /// The AS number is not a decimal number that fits in 32 bits.
    ParseIntError,
    MissingRangeStart,
    MissingRangeEnd,
    MissingASNumber,
    MissingCountryCode,
    MissingASDescription,
}

pub const TAB: u8 = 9;
pub const NEWLINE: u8 = 10;
pub const CARRIAGE_RETURN: u8 = 13;
pub const PLUS: u8 = 43;

/// The address that `text` spells, IPv4 dotted-quad or IPv6, if it spells one.
pub uninterp spec fn ip_of(text: Seq<u8>) -> Option<Addr>;

/// The text that the gzip stream `bytes` decodes to, if it decodes to UTF-8 text.
pub uninterp spec fn gunzip_of(bytes: Seq<u8>) -> Option<Seq<u8>>;

/// Relies on `core::str::from_utf8` and `core::net::IpAddr`'s `FromStr`: the
/// address that the text spells, which depends on the text alone.
#[verifier::external_body]
fn parse_ip(text: &[u8]) -> (r: Option<Addr>)
    ensures
        r == ip_of(text@),
{
    match core::str::from_utf8(text).ok().and_then(|t| t.parse::<core::net::IpAddr>().ok()) {
        Some(core::net::IpAddr::V4(a)) => Some(Addr::V4(u32::from(a))),
        Some(core::net::IpAddr::V6(a)) => Some(Addr::V6(u128::from(a))),
        None => None,
    }
}

/// Relies on `flate2::read::GzDecoder` read to a `String`: the decoded text,
/// which depends on the bytes alone.
#[verifier::external_body]
fn gzip_decode(bytes: &[u8]) -> (r: Option<Vec<u8>>)
    ensures
        match r {
            Some(t) => gunzip_of(bytes@) == Some(t@),
            None => gunzip_of(bytes@) is None,
        },
{
    let mut text = String::new();
    match std::io::Read::read_to_string(&mut flate2::read::GzDecoder::new(bytes), &mut text) {
        Ok(_) => Some(text.into_bytes()),
        Err(_) => None,
    }
}

/// The first position at or after `from` that holds byte `b`, or the length.
pub open spec fn next_byte(s: Seq<u8>, from: int, b: u8) -> int
    decreases s.len() - from,
{
    if from >= s.len() {
        s.len() as int
    } else if s[from] == b {
        from
    } else {
        next_byte(s, from + 1, b)
    }
}

pub proof fn lemma_next_byte_bounds(s: Seq<u8>, from: int, b: u8)
    requires
        0 <= from <= s.len(),
    ensures
        from <= next_byte(s, from, b) <= s.len(),
        next_byte(s, from, b) < s.len() ==> s[next_byte(s, from, b)] == b,
    decreases s.len() - from,
{
    if from < s.len() && s[from] != b {
        lemma_next_byte_bounds(s, from + 1, b);
    }
}

fn find_byte(s: &[u8], from: usize, b: u8) -> (r: usize)
    requires
        from <= s@.len(),
    ensures
        r == next_byte(s@, from as int, b),
{
    let mut i = from;
    while i < s.len() && s[i] != b
        invariant
            from <= i <= s@.len(),
            next_byte(s@, i as int, b) == next_byte(s@, from as int, b),
        decreases s@.len() - i,
    {
        i = i + 1;
    }
    i
}

pub open spec fn is_digit(c: u8) -> bool {
    48 <= c <= 57
}

/// The value of a string of decimal digits.
pub open spec fn decimal_value(s: Seq<u8>) -> int
    decreases s.len(),
{
    if s.len() == 0 {
        0
    } else {
        decimal_value(s.drop_last()) * 10 + (s.last() - 48)
    }
}

/// The digits of an unsigned number's text: a leading `+` is dropped.
pub open spec fn unsigned_digits(s: Seq<u8>) -> Seq<u8> {
    if s.len() > 0 && s[0] == PLUS {
        s.subrange(1, s.len() as int)
    } else {
        s
    }
}

/// The 32-bit unsigned number that `s` spells: an optional `+`, then one or
/// more decimal digits, with a value that fits in 32 bits.
pub open spec fn as_number_of(s: Seq<u8>) -> Option<u32> {
    let d = unsigned_digits(s);
    if d.len() > 0 && (forall|i: int| 0 <= i < d.len() ==> is_digit(#[trigger] d[i]))
        && decimal_value(d) <= u32::MAX {
        Some(decimal_value(d) as u32)
    } else {
        None
    }
}

proof fn lemma_decimal_value_prefix(s: Seq<u8>, j: int)
    requires
        0 <= j <= s.len(),
        forall|i: int| 0 <= i < s.len() ==> is_digit(#[trigger] s[i]),
    ensures
        decimal_value(s.take(j)) <= decimal_value(s),
        decimal_value(s) >= 0,
    decreases s.len(),
{
    if s.len() > 0 {
        let p = s.drop_last();
        assert forall|i: int| 0 <= i < p.len() implies is_digit(#[trigger] p[i]) by {
            assert(p[i] == s[i]);
        }
        if j < s.len() {
            lemma_decimal_value_prefix(p, j);
            assert(p.take(j) =~= s.take(j));
        } else {
            lemma_decimal_value_prefix(p, 0);
            assert(s.take(j) =~= s);
        }
    } else {
        assert(s.take(j) =~= s);
    }
}

/// Parses the AS number in `l[from..to]`.
fn parse_as_number(l: &[u8], from: usize, to: usize) -> (r: Option<u32>)
    requires
        from <= to <= l@.len(),
    ensures
        r == as_number_of(l@.subrange(from as int, to as int)),
{
    let ghost s = l@.subrange(from as int, to as int);
    let start = if from < to && l[from] == PLUS { from + 1 } else { from };
    let ghost d = l@.subrange(start as int, to as int);
    assert(from < to ==> s[0] == l@[from as int]);
    assert(d =~= unsigned_digits(s));
    if start == to {
        return None;
    }
    let mut value: u64 = 0;
    let mut i = start;
    while i < to
        invariant
            start <= i <= to <= l@.len(),
            d == l@.subrange(start as int, to as int),
            d == unsigned_digits(s),
            s == l@.subrange(from as int, to as int),
            value <= u32::MAX,
            value == decimal_value(l@.subrange(start as int, i as int)),
            forall|k: int| start <= k < i ==> is_digit(#[trigger] l@[k]),
        decreases to - i,
    {
        let c = l[i];
        if c < 48 || c > 57 {
            assert(!is_digit(d[i - start]));
            return None;
        }
        let ghost before = l@.subrange(start as int, i as int);
        let ghost after = l@.subrange(start as int, i + 1);
        assert(after.drop_last() =~= before);
        assert(after.last() == c);
        let next = value * 10 + (c - 48) as u64;
        i = i + 1;
        if next > 0xFFFF_FFFF {
            proof {
                if forall|m: int| 0 <= m < d.len() ==> is_digit(#[trigger] d[m]) {
                    lemma_decimal_value_prefix(d, i - start);
                    assert(d.take(i - start) =~= after);
                }
            }
            return None;
        }
        value = next;
    }
    assert(l@.subrange(start as int, to as int) =~= d);
    Some(value as u32)
}

} // verus!

verus! {

/// The record that a line (without its line ending) describes, or why it
/// describes none. The fields are split at the first four tabs; an empty line
/// has no range start.
pub open spec fn line_record(l: Seq<u8>) -> Result<RecordView, DatabaseError> {
    if l.len() == 0 {
        Err(DatabaseError::MissingRangeStart)
    } else {
        let e1 = next_byte(l, 0, TAB);
        match ip_of(l.subrange(0, e1)) {
            None => Err(DatabaseError::AddrParseError),
            Some(start) => if e1 == l.len() {
                Err(DatabaseError::MissingRangeEnd)
            } else {
                let e2 = next_byte(l, e1 + 1, TAB);
                match ip_of(l.subrange(e1 + 1, e2)) {
                    None => Err(DatabaseError::AddrParseError),
                    Some(end) => if e2 == l.len() {
                        Err(DatabaseError::MissingASNumber)
                    } else {
                        let e3 = next_byte(l, e2 + 1, TAB);
                        match as_number_of(l.subrange(e2 + 1, e3)) {
                            None => Err(DatabaseError::ParseIntError),
                            Some(n) => if e3 == l.len() {
                                Err(DatabaseError::MissingCountryCode)
                            } else {
                                let e4 = next_byte(l, e3 + 1, TAB);
                                if e4 == l.len() {
                                    Err(DatabaseError::MissingASDescription)
                                } else {
                                    Ok(
                                        RecordView {
                                            range_start: start,
                                            range_end: end,
                                            as_number: n,
                                            country_code: l.subrange(e3 + 1, e4),
                                            description: l.subrange(e4 + 1, l.len() as int),
                                        },
                                    )
                                }
                            },
                        }
                    },
                }
            },
        }
    }
}

fn copy_range(l: &[u8], from: usize, to: usize) -> (r: Vec<u8>)
    requires
        from <= to <= l@.len(),
    ensures
        r@ == l@.subrange(from as int, to as int),
{
    slice_to_vec(slice_subrange(l, from, to))
}

/// Parses one line (without its line ending) into a record.
pub fn parse_line(l: &[u8]) -> (r: Result<Record, DatabaseError>)
    ensures
        match r {
            Ok(rec) => line_record(l@) == Ok::<RecordView, DatabaseError>(rec@),
            Err(e) => line_record(l@) == Err::<RecordView, DatabaseError>(e),
        },
{
    let len = l.len();
    if len == 0 {
        return Err(DatabaseError::MissingRangeStart);
    }
    let e1 = find_byte(l, 0, TAB);
    proof { lemma_next_byte_bounds(l@, 0, TAB); }
    let start = match parse_ip(slice_subrange(l, 0, e1)) {
        None => return Err(DatabaseError::AddrParseError),
        Some(a) => a,
    };
    if e1 == len {
        return Err(DatabaseError::MissingRangeEnd);
    }
    let e2 = find_byte(l, e1 + 1, TAB);
    proof { lemma_next_byte_bounds(l@, e1 + 1, TAB); }
    let end = match parse_ip(slice_subrange(l, e1 + 1, e2)) {
        None => return Err(DatabaseError::AddrParseError),
        Some(a) => a,
    };
    if e2 == len {
        return Err(DatabaseError::MissingASNumber);
    }
    let e3 = find_byte(l, e2 + 1, TAB);
    proof { lemma_next_byte_bounds(l@, e2 + 1, TAB); }
    let as_number = match parse_as_number(l, e2 + 1, e3) {
        None => return Err(DatabaseError::ParseIntError),
        Some(n) => n,
    };
    if e3 == len {
        return Err(DatabaseError::MissingCountryCode);
    }
    let e4 = find_byte(l, e3 + 1, TAB);
    proof { lemma_next_byte_bounds(l@, e3 + 1, TAB); }
    if e4 == len {
        return Err(DatabaseError::MissingASDescription);
    }
    let country_code = copy_range(l, e3 + 1, e4);
    let description = copy_range(l, e4 + 1, len);
    Ok(Record { range_start: start, range_end: end, as_number, country_code, description })
}

/// Where the content of the line that starts at `from` and whose line feed (or
/// the end of the text) is at `e` ends: a carriage return before the line feed
/// is not part of it.
pub open spec fn content_end(t: Seq<u8>, from: int, e: int) -> int {
    if e < t.len() && e > from && t[e - 1] == CARRIAGE_RETURN {
        e - 1
    } else {
        e
    }
}

/// The records keyed by start that adding the lines of `t` from position
/// `from` on to `m` gives, or the error of the first line that describes no
/// record.
pub open spec fn load_from(t: Seq<u8>, from: int, m: Map<int, RecordView>) -> Result<
    Map<int, RecordView>,
    DatabaseError,
>
    decreases t.len() + 1 - from,
    via load_from_decreases
{
    if from < 0 || from >= t.len() {
        Ok(m)
    } else {
        let e = next_byte(t, from, NEWLINE);
        match line_record(t.subrange(from, content_end(t, from, e))) {
            Err(x) => Err(x),
            Ok(r) => load_from(t, e + 1, m.insert(key(r.range_start), r)),
        }
    }
}

#[via_fn]
proof fn load_from_decreases(t: Seq<u8>, from: int, m: Map<int, RecordView>) {
    if !(from < 0 || from >= t.len()) {
        lemma_next_byte_bounds(t, from, NEWLINE);
    }
}

/// The records keyed by start that the dataset text `t` describes, a later
/// line replacing an earlier one with the same range start, or the error of
/// its first line that describes no record.
pub open spec fn dataset_of(t: Seq<u8>) -> Result<Map<int, RecordView>, DatabaseError> {
    load_from(t, 0, Map::empty())
}

/// Parses dataset text into a table.
pub fn load_asns(contents: &[u8]) -> (r: Result<Database, DatabaseError>)
    ensures
        match r {
            Ok(d) => d.well_formed() && dataset_of(contents@) == Ok::<Map<int, RecordView>, DatabaseError>(d.view()),
            Err(e) => dataset_of(contents@) == Err::<Map<int, RecordView>, DatabaseError>(e),
        },
{
    let len = contents.len();
    let mut d = Database::new();
    let mut pos: usize = 0;
    while pos < len
        invariant
            len == contents@.len(),
            pos <= len,
            d.well_formed(),
            dataset_of(contents@) == load_from(contents@, pos as int, d.view()),
        decreases len - pos,
    {
        let e = find_byte(contents, pos, NEWLINE);
        proof { lemma_next_byte_bounds(contents@, pos as int, NEWLINE); }
        let end = if e < len && e > pos && contents[e - 1] == CARRIAGE_RETURN { e - 1 } else { e };
        match parse_line(slice_subrange(contents, pos, end)) {
            Err(x) => return Err(x),
            Ok(rec) => d.insert(rec),
        }
        pos = if e < len { e + 1 } else { len };
    }
    Ok(d)
}

} // verus!

verus! {

/// Decodes a gzip-compressed dataset into its text.
pub fn gunzip(bytes: &[u8]) -> (r: Result<Vec<u8>, DatabaseError>)
    ensures
        match r {
            Ok(t) => gunzip_of(bytes@) == Some(t@),
            Err(e) => gunzip_of(bytes@) is None && e == DatabaseError::IoError,
        },
{
    match gzip_decode(bytes) {
        Some(t) => Ok(t),
        None => Err(DatabaseError::IoError),
    }
}

/// The records that a gzip-compressed dataset describes, or why it describes
/// none.
pub open spec fn compressed_dataset_of(bytes: Seq<u8>) -> Result<Map<int, RecordView>, DatabaseError> {
    match gunzip_of(bytes) {
        None => Err(DatabaseError::IoError),
        Some(t) => dataset_of(t),
    }
}

/// Decodes and parses a gzip-compressed dataset into a table.
pub fn load_compressed(bytes: &[u8]) -> (r: Result<Database, DatabaseError>)
    ensures
        match r {
            Ok(d) => d.well_formed() && compressed_dataset_of(bytes@) == Ok::<Map<int, RecordView>, DatabaseError>(d.view()),
            Err(e) => compressed_dataset_of(bytes@) == Err::<Map<int, RecordView>, DatabaseError>(e),
        },
{
    let text = gunzip(bytes)?;
    load_asns(text.as_slice())
}

} // verus!

verus! {

/// Parsing the same text twice gives tables that answer every lookup alike.
pub proof fn lemma_parse_idempotent(t: Seq<u8>, first: Database, second: Database, a: Addr)
    requires
        dataset_of(t) == Ok::<Map<int, RecordView>, DatabaseError>(first.view()),
        dataset_of(t) == Ok::<Map<int, RecordView>, DatabaseError>(second.view()),
    ensures
        crate::index::lookup_map(first.view(), key(a)) == crate::index::lookup_map(second.view(), key(a)),
{
}

} // verus!
