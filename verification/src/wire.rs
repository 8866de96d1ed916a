//! The RESP wire format as a mathematical grammar.
//!
//! A reply node is modelled by [`Wire`], a ghost tree whose payloads are byte
//! sequences.  [`wire_bytes`] gives the canonical encoding of a node, and
//! [`spec_parse`] reads one node back off a byte sequence, telling a complete
//! node apart from a truncated one (`Short`) and from bytes that no reply can
//! extend to (`Bad`).  The executable codec is specified against these
//! functions, and [`lemma_wire_round_trip`] shows that decoding inverts
//! encoding exactly, at every nesting level.

use vstd::prelude::*;

verus! {

/// A reply node as it stands on the wire: like [`crate::Reply`], but carrying
/// raw payload bytes, and including the server-reported error line.
pub enum Wire {
    /// `+text\r\n`
    Status(Seq<u8>),
    /// `-text\r\n`: an error reported by the server.
    Failure(Seq<u8>),
    /// `:value\r\n`
    Integer(i64),
    /// `$length\r\ndata\r\n`
    Bulk(Seq<u8>),
    /// `*count\r\n` followed by `count` encoded nodes.
    Array(Seq<Wire>),
    /// `$-1\r\n` (also read back from `*-1\r\n`).
    Nil,
}

/// Whether a byte is an ASCII decimal digit.
pub open spec fn is_digit(b: u8) -> bool {
    48 <= b <= 57
}

/// The decimal digits of `n`, most significant first.
pub open spec fn spec_digits(n: nat) -> Seq<u8>
    decreases n,
{
    if n < 10 {
        seq![(48 + n) as u8]
    } else {
        spec_digits(n / 10).push((48 + n % 10) as u8)
    }
}

/// The numeric value of a sequence of decimal digit bytes.
pub open spec fn digits_val(d: Seq<u8>) -> nat
    decreases d.len(),
{
    if d.len() == 0 {
        0
    } else {
        (digits_val(d.drop_last()) * 10 + (d.last() - 48)) as nat
    }
}

/// The line terminator.
pub open spec fn crlf() -> Seq<u8> {
    seq![13u8, 10u8]
}

/// The decimal encoding of an integer reply's value, with a minus sign for
/// negative values.
pub open spec fn int_bytes(v: i64) -> Seq<u8> {
    if v < 0 {
        seq![45u8] + spec_digits((-(v as int)) as nat)
    } else {
        spec_digits(v as nat)
    }
}

/// The canonical wire encoding of one reply node.
pub open spec fn wire_bytes(w: Wire) -> Seq<u8>
    decreases w, 1int,
{
    match w {
        Wire::Status(text) => seq![43u8] + text + crlf(),
        Wire::Failure(text) => seq![45u8] + text + crlf(),
        Wire::Integer(v) => seq![58u8] + int_bytes(v) + crlf(),
        Wire::Bulk(data) => seq![36u8] + spec_digits(data.len()) + crlf() + data + crlf(),
        Wire::Array(items) => seq![42u8] + spec_digits(items.len()) + crlf() + items_bytes(
            items,
            0,
        ),
        Wire::Nil => seq![36u8, 45u8, 49u8] + crlf(),
    }
}

/// The concatenated encodings of `items[i..]`.
pub open spec fn items_bytes(items: Seq<Wire>, i: int) -> Seq<u8>
    decreases items, items.len() - i + 1,
{
    if i < 0 || i >= items.len() {
        Seq::empty()
    } else {
        wire_bytes(items[i]) + items_bytes(items, i + 1)
    }
}

/// Whether a node can be encoded and read back exactly: status, failure and
/// error lines must not contain the line terminator bytes.
pub open spec fn wire_wf(w: Wire) -> bool
    decreases w, 1int,
{
    match w {
        Wire::Status(text) => !text.contains(13u8) && !text.contains(10u8),
        Wire::Failure(text) => !text.contains(13u8) && !text.contains(10u8),
        Wire::Integer(_) => true,
        Wire::Bulk(_) => true,
        Wire::Array(items) => items_wf(items, 0),
        Wire::Nil => true,
    }
}

/// Whether every node of `items[i..]` is well formed.
pub open spec fn items_wf(items: Seq<Wire>, i: int) -> bool
    decreases items, items.len() - i + 1,
{
    if i < 0 || i >= items.len() {
        true
    } else {
        wire_wf(items[i]) && items_wf(items, i + 1)
    }
}

/// The text of the leftmost `Failure` node in `w`, if any.
pub open spec fn first_failure(w: Wire) -> Option<Seq<u8>>
    decreases w, 1int,
{
    match w {
        Wire::Failure(text) => Option::Some(text),
        Wire::Array(items) => first_failure_in(items, 0),
        _ => Option::None,
    }
}

/// The text of the leftmost `Failure` node in `items[i..]`, if any.
pub open spec fn first_failure_in(items: Seq<Wire>, i: int) -> Option<Seq<u8>>
    decreases items, items.len() - i + 1,
{
    if i < 0 || i >= items.len() {
        Option::None
    } else {
        match first_failure(items[i]) {
            Option::Some(text) => Option::Some(text),
            Option::None => first_failure_in(items, i + 1),
        }
    }
}

/// What reading one node off a byte sequence can yield.
pub enum Parsed {
    /// A complete node, and the position just past its encoding.
    Found(Wire, int),
    /// The bytes are a proper prefix of some encoding: more are needed.
    Short,
    /// No reply, however extended, starts with these bytes.
    Bad,
}

/// What reading a run of nodes can yield.
pub enum ParsedItems {
    FoundItems(Seq<Wire>, int),
    ShortItems,
    BadItems,
}

/// What reading an unsigned decimal line can yield.
pub enum ParsedNum {
    FoundNum(nat, int),
    ShortNum,
    BadNum,
}

/// What reading a text line can yield.
pub enum ParsedLine {
    FoundLine(Seq<u8>, int),
    ShortLine,
    BadLine,
}

/// The position of the first carriage return at or after `i`, if any.
pub open spec fn find_cr(s: Seq<u8>, i: int) -> Option<int>
    decreases s.len() - i,
{
    if i < 0 || i >= s.len() {
        Option::None
    } else if s[i] == 13 {
        Option::Some(i)
    } else {
        find_cr(s, i + 1)
    }
}

/// The position just past the run of digit bytes starting at `i`.
pub open spec fn digit_run_end(s: Seq<u8>, i: int) -> int
    decreases s.len() - i,
{
    if i < 0 || i >= s.len() || !is_digit(s[i]) {
        i
    } else {
        digit_run_end(s, i + 1)
    }
}

/// Reads a line of text terminated by CRLF, starting at `i`.
pub open spec fn parse_line(s: Seq<u8>, i: int) -> ParsedLine {
    match find_cr(s, i) {
        Option::None => ParsedLine::ShortLine,
        Option::Some(j) => if j + 1 >= s.len() {
            ParsedLine::ShortLine
        } else if s[j + 1] != 10 {
            ParsedLine::BadLine
        } else {
            ParsedLine::FoundLine(s.subrange(i, j), j + 2)
        },
    }
}

/// Reads a canonical unsigned decimal (no empty run, no leading zero)
/// terminated by CRLF, starting at `i`.
pub open spec fn parse_num(s: Seq<u8>, i: int) -> ParsedNum {
    let j = digit_run_end(s, i);
    if j >= s.len() {
        ParsedNum::ShortNum
    } else if j == i {
        ParsedNum::BadNum
    } else if s[i] == 48 && j > i + 1 {
        ParsedNum::BadNum
    } else if s[j] != 13 {
        ParsedNum::BadNum
    } else if j + 1 >= s.len() {
        ParsedNum::ShortNum
    } else if s[j + 1] != 10 {
        ParsedNum::BadNum
    } else {
        ParsedNum::FoundNum(digits_val(s.subrange(i, j)), j + 2)
    }
}

/// What reading a signed decimal line can yield.
pub enum ParsedInt {
    FoundInt(i64, int),
    ShortInt,
    BadInt,
}

/// Reads a canonical signed 64-bit decimal terminated by CRLF, starting at
/// `i`; `-0` and out-of-range values are rejected.
pub open spec fn parse_int(s: Seq<u8>, i: int) -> ParsedInt {
    if i >= s.len() {
        ParsedInt::ShortInt
    } else if s[i] == 45 {
        match parse_num(s, i + 1) {
            ParsedNum::FoundNum(v, n) => if 1 <= v <= 0x8000_0000_0000_0000 {
                ParsedInt::FoundInt((-(v as int)) as i64, n)
            } else {
                ParsedInt::BadInt
            },
            ParsedNum::ShortNum => ParsedInt::ShortInt,
            ParsedNum::BadNum => ParsedInt::BadInt,
        }
    } else {
        match parse_num(s, i) {
            ParsedNum::FoundNum(v, n) => if v <= 0x7fff_ffff_ffff_ffff {
                ParsedInt::FoundInt(v as i64, n)
            } else {
                ParsedInt::BadInt
            },
            ParsedNum::ShortNum => ParsedInt::ShortInt,
            ParsedNum::BadNum => ParsedInt::BadInt,
        }
    }
}

/// What reading the `-1\r\n` null marker can yield.
pub enum ParsedNil {
    FoundNil(int),
    ShortNil,
    BadNil,
}

/// Reads the null marker `-1\r\n` whose minus sign stands at `i`.
pub open spec fn parse_neg_one(s: Seq<u8>, i: int) -> ParsedNil {
    if i + 1 >= s.len() {
        ParsedNil::ShortNil
    } else if s[i + 1] != 49 {
        ParsedNil::BadNil
    } else if i + 2 >= s.len() {
        ParsedNil::ShortNil
    } else if s[i + 2] != 13 {
        ParsedNil::BadNil
    } else if i + 3 >= s.len() {
        ParsedNil::ShortNil
    } else if s[i + 3] != 10 {
        ParsedNil::BadNil
    } else {
        ParsedNil::FoundNil(i + 4)
    }
}

/// Reads one reply node starting at `i`.
pub open spec fn spec_parse(s: Seq<u8>, i: int) -> Parsed
    decreases s.len() - i, 1int,
{
    if i < 0 || i >= s.len() {
        Parsed::Short
    } else {
        let tag = s[i];
        if tag == 43 {  // '+'
            match parse_line(s, i + 1) {
                ParsedLine::FoundLine(text, n) => Parsed::Found(Wire::Status(text), n),
                ParsedLine::ShortLine => Parsed::Short,
                ParsedLine::BadLine => Parsed::Bad,
            }
        } else if tag == 45 {  // '-'
            match parse_line(s, i + 1) {
                ParsedLine::FoundLine(text, n) => Parsed::Found(Wire::Failure(text), n),
                ParsedLine::ShortLine => Parsed::Short,
                ParsedLine::BadLine => Parsed::Bad,
            }
        } else if tag == 58 {  // ':'
            match parse_int(s, i + 1) {
                ParsedInt::FoundInt(v, n) => Parsed::Found(Wire::Integer(v), n),
                ParsedInt::ShortInt => Parsed::Short,
                ParsedInt::BadInt => Parsed::Bad,
            }
        } else if tag == 36 {  // '$'
            if i + 1 < s.len() && s[i + 1] == 45 {
                match parse_neg_one(s, i + 1) {
                    ParsedNil::FoundNil(n) => Parsed::Found(Wire::Nil, n),
                    ParsedNil::ShortNil => Parsed::Short,
                    ParsedNil::BadNil => Parsed::Bad,
                }
            } else {
                match parse_num(s, i + 1) {
                    ParsedNum::FoundNum(len, p) => if p + len + 2 > s.len() {
                        Parsed::Short
                    } else if s[p + len] != 13 {
                        Parsed::Bad
                    } else if s[p + len + 1] != 10 {
                        Parsed::Bad
                    } else {
                        Parsed::Found(Wire::Bulk(s.subrange(p, p + len)), p + len + 2)
                    },
                    ParsedNum::ShortNum => Parsed::Short,
                    ParsedNum::BadNum => Parsed::Bad,
                }
            }
        } else if tag == 42 {  // '*'
            if i + 1 < s.len() && s[i + 1] == 45 {
                match parse_neg_one(s, i + 1) {
                    ParsedNil::FoundNil(n) => Parsed::Found(Wire::Nil, n),
                    ParsedNil::ShortNil => Parsed::Short,
                    ParsedNil::BadNil => Parsed::Bad,
                }
            } else {
                match parse_num(s, i + 1) {
                    ParsedNum::FoundNum(count, p) => if p <= i || p > s.len() {
                        Parsed::Bad  // unreachable: a parsed number always moves forward
                    } else {
                        match spec_parse_items(s, p, count) {
                            ParsedItems::FoundItems(items, n) => Parsed::Found(
                                Wire::Array(items),
                                n,
                            ),
                            ParsedItems::ShortItems => Parsed::Short,
                            ParsedItems::BadItems => Parsed::Bad,
                        }
                    },
                    ParsedNum::ShortNum => Parsed::Short,
                    ParsedNum::BadNum => Parsed::Bad,
                }
            }
        } else {
            Parsed::Bad
        }
    }
}

/// Reads `count` reply nodes starting at `i`.
pub open spec fn spec_parse_items(s: Seq<u8>, i: int, count: nat) -> ParsedItems
    decreases s.len() - i, count + 2,
{
    if count == 0 {
        ParsedItems::FoundItems(Seq::empty(), i)
    } else {
        match spec_parse(s, i) {
            Parsed::Found(w, n) => if n <= i || n > s.len() {
                ParsedItems::BadItems  // unreachable: a parsed node always moves forward
            } else {
                match spec_parse_items(s, n, (count - 1) as nat) {
                    ParsedItems::FoundItems(items, m) => ParsedItems::FoundItems(
                        seq![w] + items,
                        m,
                    ),
                    ParsedItems::ShortItems => ParsedItems::ShortItems,
                    ParsedItems::BadItems => ParsedItems::BadItems,
                }
            },
            Parsed::Short => ParsedItems::ShortItems,
            Parsed::Bad => ParsedItems::BadItems,
        }
    }
}

/// What `find_cr` finding a position means for the bytes around it.
pub proof fn lemma_find_cr_bounds(s: Seq<u8>, i: int)
    requires
        0 <= i,
    ensures
        match find_cr(s, i) {
            Option::Some(j) => i <= j < s.len() && s[j] == 13 && (forall|k: int|
                i <= k < j ==> s[k] != 13),
            Option::None => forall|k: int| i <= k < s.len() ==> s[k] != 13,
        },
    decreases s.len() - i,
{
    if i < s.len() && s[i] != 13 {
        lemma_find_cr_bounds(s, i + 1);
    }
}

/// A region with no carriage return, closed by one, is exactly what
/// `find_cr` reports.
pub proof fn lemma_find_cr_region(s: Seq<u8>, i: int, j: int)
    requires
        0 <= i <= j < s.len(),
        forall|k: int| i <= k < j ==> s[k] != 13,
        s[j] == 13,
    ensures
        find_cr(s, i) == Option::Some(j),
    decreases j - i,
{
    if i < j {
        lemma_find_cr_region(s, i + 1, j);
    }
}

/// The digit run starting at `i` stays within the sequence and consists of
/// digits only.
pub proof fn lemma_digit_run_bounds(s: Seq<u8>, i: int)
    requires
        0 <= i <= s.len(),
    ensures
        i <= digit_run_end(s, i) <= s.len(),
        forall|k: int| i <= k < digit_run_end(s, i) ==> is_digit(s[k]),
        digit_run_end(s, i) < s.len() ==> !is_digit(s[digit_run_end(s, i)]),
    decreases s.len() - i,
{
    if i < s.len() && is_digit(s[i]) {
        lemma_digit_run_bounds(s, i + 1);
    }
}

/// A region of digits closed by a non-digit is exactly the run that
/// `digit_run_end` reports.
pub proof fn lemma_digit_run_region(s: Seq<u8>, i: int, j: int)
    requires
        0 <= i <= j <= s.len(),
        forall|k: int| i <= k < j ==> is_digit(s[k]),
        j < s.len() ==> !is_digit(s[j]),
    ensures
        digit_run_end(s, i) == j,
    decreases j - i,
{
    if i < j {
        lemma_digit_run_region(s, i + 1, j);
    }
}

/// The decimal digits of `n` are at least one digit, all digits, and carry
/// no leading zero unless they are the single digit `0`.
pub proof fn lemma_spec_digits_shape(n: nat)
    ensures
        spec_digits(n).len() >= 1,
        forall|k: int| 0 <= k < spec_digits(n).len() ==> is_digit(#[trigger] spec_digits(n)[k]),
        n >= 10 ==> spec_digits(n)[0] != 48,
        n >= 10 ==> spec_digits(n).len() >= 2,
        n < 10 ==> spec_digits(n) == seq![(48 + n) as u8],
    decreases n,
{
    if n >= 10 {
        lemma_spec_digits_shape(n / 10);
        assert(n / 10 >= 1);
        if n / 10 < 10 {
            assert(spec_digits(n / 10)[0] == (48 + n / 10) as u8);
        }
    }
}

/// Reading the decimal digits of `n` back gives `n`.
pub proof fn lemma_digits_val_of_digits(n: nat)
    ensures
        digits_val(spec_digits(n)) == n,
    decreases n,
{
    if n < 10 {
        let d = spec_digits(n);
        assert(d == seq![(48 + n) as u8]);
        assert(d.drop_last() =~= Seq::<u8>::empty());
        assert(digits_val(Seq::<u8>::empty()) == 0);
        assert(d.last() == (48 + n) as u8);
    } else {
        lemma_digits_val_of_digits(n / 10);
        let d = spec_digits(n);
        assert(d.drop_last() =~= spec_digits(n / 10));
        assert(d.last() == (48 + n % 10) as u8);
    }
}

/// A complete parse always moves forward and stays within the sequence.
pub proof fn lemma_parse_advances(s: Seq<u8>, i: int)
    requires
        0 <= i,
    ensures
        spec_parse(s, i) matches Parsed::Found(w, n) ==> i < n <= s.len(),
    decreases s.len() - i, 1int,
{
    if 0 <= i < s.len() {
        let tag = s[i];
        if tag == 43 || tag == 45 {
            lemma_find_cr_bounds(s, i + 1);
        } else if tag == 58 {
            if i + 1 <= s.len() {
                lemma_digit_run_bounds(s, i + 1);
            }
            if i + 2 <= s.len() {
                lemma_digit_run_bounds(s, i + 2);
            }
        } else if tag == 36 || tag == 42 {
            lemma_digit_run_bounds(s, i + 1);
            if tag == 42 && !(i + 1 < s.len() && s[i + 1] == 45) {
                match parse_num(s, i + 1) {
                    ParsedNum::FoundNum(count, p) => {
                        if i < p <= s.len() {
                            lemma_parse_items_advance(s, p, count);
                        }
                    },
                    _ => {},
                }
            }
        }
    }
}

/// A complete run of parses never moves backwards and stays within the
/// sequence, and yields exactly `count` nodes.
pub proof fn lemma_parse_items_advance(s: Seq<u8>, i: int, count: nat)
    requires
        0 <= i <= s.len(),
    ensures
        spec_parse_items(s, i, count) matches ParsedItems::FoundItems(items, m) ==> i <= m
            <= s.len() && items.len() == count,
    decreases s.len() - i, count + 2,
{
    if count > 0 {
        lemma_parse_advances(s, i);
        match spec_parse(s, i) {
            Parsed::Found(w, n) => {
                if i < n <= s.len() {
                    lemma_parse_items_advance(s, n, (count - 1) as nat);
                }
            },
            _ => {},
        }
    }
}

/// Every encoded node takes at least its tag byte and a line terminator.
pub proof fn lemma_wire_bytes_len(w: Wire)
    ensures
        wire_bytes(w).len() >= 3,
{
    match w {
        Wire::Bulk(data) => lemma_spec_digits_shape(data.len()),
        Wire::Array(items) => lemma_spec_digits_shape(items.len()),
        _ => {},
    }
}

/// The encoding of a canonical decimal followed by CRLF parses back to its
/// value.
pub proof fn lemma_parse_num_digits(s: Seq<u8>, i: int, n: nat)
    requires
        0 <= i,
        i + spec_digits(n).len() + 2 <= s.len(),
        s.subrange(i, i + spec_digits(n).len()) == spec_digits(n),
        s[i + spec_digits(n).len() as int] == 13,
        s[i + spec_digits(n).len() + 1] == 10,
    ensures
        parse_num(s, i) == ParsedNum::FoundNum(n, i + spec_digits(n).len() + 2),
{
    let d = spec_digits(n);
    lemma_spec_digits_shape(n);
    assert forall|k: int| i <= k < i + d.len() implies is_digit(s[k]) by {
        assert(s[k] == s.subrange(i, i + d.len())[k - i]);
    }
    assert(!is_digit(s[i + d.len() as int]));
    lemma_digit_run_region(s, i, i + d.len());
    assert(s[i] == d[0]) by {
        assert(s[i] == s.subrange(i, i + d.len())[0]);
    }
    if n < 10 {
        assert(d.len() == 1);
    } else {
        assert(s[i] != 48);
    }
    assert(s.subrange(i, i + d.len()) == d);
    lemma_digits_val_of_digits(n);
}

/// The encoding of a terminator-free text line followed by CRLF parses back
/// to that text.
pub proof fn lemma_parse_line_text(s: Seq<u8>, i: int, t: Seq<u8>)
    requires
        0 <= i,
        !t.contains(13u8),
        i + t.len() + 2 <= s.len(),
        s.subrange(i, i + t.len()) == t,
        s[i + t.len() as int] == 13,
        s[i + t.len() + 1] == 10,
    ensures
        parse_line(s, i) == ParsedLine::FoundLine(t, i + t.len() + 2),
{
    assert forall|k: int| i <= k < i + t.len() implies s[k] != 13 by {
        assert(s[k] == s.subrange(i, i + t.len())[k - i]);
        assert(t[k - i] != 13) by {
            if t[k - i] == 13 {
                assert(t.contains(13u8));
            }
        }
    }
    lemma_find_cr_region(s, i, i + t.len());
}

/// The decimal encoding of a 64-bit integer followed by CRLF parses back to
/// its value.
pub proof fn lemma_parse_int_bytes(s: Seq<u8>, i: int, v: i64)
    requires
        0 <= i,
        i + int_bytes(v).len() + 2 <= s.len(),
        s.subrange(i, i + int_bytes(v).len()) == int_bytes(v),
        s[i + int_bytes(v).len() as int] == 13,
        s[i + int_bytes(v).len() + 1] == 10,
    ensures
        parse_int(s, i) == ParsedInt::FoundInt(v, i + int_bytes(v).len() + 2),
{
    let b = int_bytes(v);
    if v < 0 {
        let n = (-(v as int)) as nat;
        let d = spec_digits(n);
        assert(b == seq![45u8] + d);
        assert(s[i] == b[0]) by {
            assert(s[i] == s.subrange(i, i + b.len())[0]);
        }
        assert(s[i] == 45);
        assert(s.subrange(i + 1, i + 1 + d.len()) =~= d) by {
            assert forall|k: int| 0 <= k < d.len() implies s.subrange(i + 1, i + 1 + d.len())[k]
                == d[k] by {
                assert(s[i + 1 + k] == s.subrange(i, i + b.len())[1 + k]);
            }
        }
        lemma_parse_num_digits(s, i + 1, n);
        assert(1 <= n <= 0x8000_0000_0000_0000);
        assert((-(n as int)) as i64 == v);
    } else {
        let n = v as nat;
        let d = spec_digits(n);
        assert(b == d);
        lemma_spec_digits_shape(n);
        assert(s[i] == d[0]) by {
            assert(s[i] == s.subrange(i, i + b.len())[0]);
        }
        assert(is_digit(s[i]));
        assert(s[i] != 45);
        assert(i < s.len());
        lemma_parse_num_digits(s, i, n);
        assert(n <= 0x7fff_ffff_ffff_ffff);
        assert(n as i64 == v);
    }
}

/// Wherever the encoding of a well-formed node stands in a byte sequence,
/// parsing from its first byte yields exactly that node and consumes exactly
/// its encoding.
pub proof fn lemma_parse_of_encoding(w: Wire, s: Seq<u8>, i: int)
    requires
        wire_wf(w),
        0 <= i,
        i + wire_bytes(w).len() <= s.len(),
        s.subrange(i, i + wire_bytes(w).len()) == wire_bytes(w),
    ensures
        spec_parse(s, i) == Parsed::Found(w, i + wire_bytes(w).len()),
    decreases w, 1int,
{
    let b = wire_bytes(w);
    let lead = s.subrange(i, i + b.len());
    lemma_wire_bytes_len(w);
    assert(s[i] == b[0]) by {
        assert(s[i] == lead[0]);
    }
    match w {
        Wire::Status(t) => {
            assert(s.subrange(i + 1, i + 1 + t.len()) =~= t) by {
                assert forall|k: int| 0 <= k < t.len() implies s.subrange(
                    i + 1,
                    i + 1 + t.len(),
                )[k] == t[k] by {
                    assert(s[i + 1 + k] == lead[1 + k]);
                }
            }
            assert(s[i + 1 + t.len() as int] == 13) by {
                assert(s[i + 1 + t.len() as int] == lead[1 + t.len() as int]);
            }
            assert(s[i + 2 + t.len() as int] == 10) by {
                assert(s[i + 2 + t.len() as int] == lead[2 + t.len() as int]);
            }
            lemma_parse_line_text(s, i + 1, t);
        },
        Wire::Failure(t) => {
            assert(s.subrange(i + 1, i + 1 + t.len()) =~= t) by {
                assert forall|k: int| 0 <= k < t.len() implies s.subrange(
                    i + 1,
                    i + 1 + t.len(),
                )[k] == t[k] by {
                    assert(s[i + 1 + k] == lead[1 + k]);
                }
            }
            assert(s[i + 1 + t.len() as int] == 13) by {
                assert(s[i + 1 + t.len() as int] == lead[1 + t.len() as int]);
            }
            assert(s[i + 2 + t.len() as int] == 10) by {
                assert(s[i + 2 + t.len() as int] == lead[2 + t.len() as int]);
            }
            lemma_parse_line_text(s, i + 1, t);
        },
        Wire::Integer(v) => {
            let d = int_bytes(v);
            assert(s.subrange(i + 1, i + 1 + d.len()) =~= d) by {
                assert forall|k: int| 0 <= k < d.len() implies s.subrange(
                    i + 1,
                    i + 1 + d.len(),
                )[k] == d[k] by {
                    assert(s[i + 1 + k] == lead[1 + k]);
                }
            }
            assert(s[i + 1 + d.len() as int] == 13) by {
                assert(s[i + 1 + d.len() as int] == lead[1 + d.len() as int]);
            }
            assert(s[i + 2 + d.len() as int] == 10) by {
                assert(s[i + 2 + d.len() as int] == lead[2 + d.len() as int]);
            }
            lemma_parse_int_bytes(s, i + 1, v);
        },
        Wire::Nil => {
            assert(s[i + 1] == 45 && s[i + 2] == 49 && s[i + 3] == 13 && s[i + 4] == 10) by {
                assert(s[i + 1] == lead[1]);
                assert(s[i + 2] == lead[2]);
                assert(s[i + 3] == lead[3]);
                assert(s[i + 4] == lead[4]);
            }
            assert(parse_neg_one(s, i + 1) == ParsedNil::FoundNil(i + 5));
        },
        Wire::Bulk(data) => {
            let d = spec_digits(data.len());
            lemma_spec_digits_shape(data.len());
            assert(s.subrange(i + 1, i + 1 + d.len()) =~= d) by {
                assert forall|k: int| 0 <= k < d.len() implies s.subrange(
                    i + 1,
                    i + 1 + d.len(),
                )[k] == d[k] by {
                    assert(s[i + 1 + k] == lead[1 + k]);
                }
            }
            assert(s[i + 1 + d.len() as int] == 13) by {
                assert(s[i + 1 + d.len() as int] == lead[1 + d.len() as int]);
            }
            assert(s[i + 2 + d.len() as int] == 10) by {
                assert(s[i + 2 + d.len() as int] == lead[2 + d.len() as int]);
            }
            lemma_parse_num_digits(s, i + 1, data.len());
            let p = i + 3 + d.len();
            assert(s[i + 1] == d[0]) by {
                assert(s[i + 1] == lead[1]);
            }
            assert(s[i + 1] != 45);
            assert(s.subrange(p, p + data.len()) =~= data) by {
                assert forall|k: int| 0 <= k < data.len() implies s.subrange(
                    p,
                    p + data.len(),
                )[k] == data[k] by {
                    assert(s[p + k] == lead[3 + d.len() + k]);
                }
            }
            assert(s[p + data.len() as int] == 13) by {
                assert(s[p + data.len() as int] == lead[3 + d.len() + data.len() as int]);
            }
            assert(s[p + data.len() + 1] == 10) by {
                assert(s[p + data.len() + 1] == lead[4 + d.len() + data.len() as int]);
            }
            assert(p + data.len() + 2 == i + b.len());
        },
        Wire::Array(items) => {
            let d = spec_digits(items.len());
            lemma_spec_digits_shape(items.len());
            assert(s.subrange(i + 1, i + 1 + d.len()) =~= d) by {
                assert forall|k: int| 0 <= k < d.len() implies s.subrange(
                    i + 1,
                    i + 1 + d.len(),
                )[k] == d[k] by {
                    assert(s[i + 1 + k] == lead[1 + k]);
                }
            }
            assert(s[i + 1 + d.len() as int] == 13) by {
                assert(s[i + 1 + d.len() as int] == lead[1 + d.len() as int]);
            }
            assert(s[i + 2 + d.len() as int] == 10) by {
                assert(s[i + 2 + d.len() as int] == lead[2 + d.len() as int]);
            }
            lemma_parse_num_digits(s, i + 1, items.len());
            let p = i + 3 + d.len();
            assert(s[i + 1] == d[0]) by {
                assert(s[i + 1] == lead[1]);
            }
            assert(s[i + 1] != 45);
            let tail = items_bytes(items, 0);
            assert(b.len() == 3 + d.len() + tail.len());
            assert(s.subrange(p, p + tail.len()) =~= tail) by {
                assert forall|k: int| 0 <= k < tail.len() implies s.subrange(
                    p,
                    p + tail.len(),
                )[k] == tail[k] by {
                    assert(s[p + k] == lead[3 + d.len() + k]);
                }
            }
            lemma_parse_items_of_encoding(items, 0, s, p);
            assert(items.subrange(0, items.len() as int) =~= items);
            assert(p + tail.len() == i + b.len());
        },
    }
}

/// Wherever the concatenated encodings of the well-formed nodes
/// `items[k..]` stand in a byte sequence, parsing that many nodes yields
/// exactly those nodes and consumes exactly their encodings.
pub proof fn lemma_parse_items_of_encoding(items: Seq<Wire>, k: int, s: Seq<u8>, i: int)
    requires
        items_wf(items, k),
        0 <= k <= items.len(),
        0 <= i,
        i + items_bytes(items, k).len() <= s.len(),
        s.subrange(i, i + items_bytes(items, k).len()) == items_bytes(items, k),
    ensures
        spec_parse_items(s, i, (items.len() - k) as nat) == ParsedItems::FoundItems(
            items.subrange(k, items.len() as int),
            i + items_bytes(items, k).len(),
        ),
    decreases items, items.len() - k + 2,
{
    if k == items.len() {
        assert(items.subrange(k, items.len() as int) =~= Seq::<Wire>::empty());
    } else {
        let head = wire_bytes(items[k]);
        let tail = items_bytes(items, k + 1);
        let whole = items_bytes(items, k);
        assert(whole == head + tail);
        let lead = s.subrange(i, i + whole.len());
        assert(s.subrange(i, i + head.len()) =~= head) by {
            assert forall|j: int| 0 <= j < head.len() implies s.subrange(i, i + head.len())[j]
                == head[j] by {
                assert(s[i + j] == lead[j]);
            }
        }
        lemma_parse_of_encoding(items[k], s, i);
        let n0 = i + head.len();
        lemma_wire_bytes_len(items[k]);
        assert(s.subrange(n0, n0 + tail.len()) =~= tail) by {
            assert forall|j: int| 0 <= j < tail.len() implies s.subrange(n0, n0 + tail.len())[j]
                == tail[j] by {
                assert(s[n0 + j] == lead[head.len() + j]);
            }
        }
        lemma_parse_items_of_encoding(items, k + 1, s, n0);
        assert(seq![items[k]] + items.subrange(k + 1, items.len() as int) =~= items.subrange(
            k,
            items.len() as int,
        ));
        assert(spec_parse_items(s, i, (items.len() - k) as nat) == ParsedItems::FoundItems(
            items.subrange(k, items.len() as int),
            i + whole.len(),
        ));
    }
}

/// Law: decoding inverts encoding.  The wire encoding of any well-formed
/// reply node, followed by any further bytes, parses back to exactly that
/// node — structure and order preserved at every nesting level — consuming
/// exactly the encoding.
pub proof fn lemma_wire_round_trip(w: Wire, rest: Seq<u8>)
    requires
        wire_wf(w),
    ensures
        spec_parse(wire_bytes(w) + rest, 0) == Parsed::Found(w, wire_bytes(w).len() as int),
{
    let s = wire_bytes(w) + rest;
    assert(s.subrange(0, wire_bytes(w).len() as int) =~= wire_bytes(w));
    lemma_parse_of_encoding(w, s, 0);
}

/// A run whose nodes are each well formed is well formed.
pub proof fn lemma_items_wf_pointwise(items: Seq<Wire>, i: int)
    requires
        0 <= i <= items.len(),
        forall|k: int| 0 <= k < items.len() ==> wire_wf(#[trigger] items[k]),
    ensures
        items_wf(items, i),
    decreases items.len() - i,
{
    if i < items.len() {
        lemma_items_wf_pointwise(items, i + 1);
    }
}

/// Appending a node to a run scans for a failure as the run did, then looks
/// at the new node.
pub proof fn lemma_first_failure_in_extend(items: Seq<Wire>, w: Wire, i: int)
    requires
        0 <= i <= items.len(),
    ensures
        first_failure_in(items.push(w), i) == (match first_failure_in(items, i) {
            Option::Some(text) => Option::Some(text),
            Option::None => first_failure(w),
        }),
    decreases items.len() - i,
{
    let e = items.push(w);
    if i == items.len() {
        assert(e[i] == w);
        assert(first_failure_in(e, i + 1) == Option::<Seq<u8>>::None);
    } else {
        assert(e[i] == items[i]);
        lemma_first_failure_in_extend(items, w, i + 1);
    }
}

} // verus!
