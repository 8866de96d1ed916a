//! The executable codec: command marshaling and reply decoding.

use vstd::prelude::*;
use vstd::slice::slice_index_get;
use vstd::slice::slice_subrange;
use vstd::slice::slice_to_vec;

use crate::error::Error;
use crate::error::ErrorKind;
use crate::reply::AsBytes;
use crate::reply::Reply;
use crate::wire::crlf;
use crate::wire::digit_run_end;
use crate::wire::digits_val;
use crate::wire::find_cr;
use crate::wire::first_failure;
use crate::wire::first_failure_in;
use crate::wire::is_digit;
use crate::wire::items_bytes;
use crate::wire::lemma_digit_run_bounds;
use crate::wire::lemma_items_wf_pointwise;
use crate::wire::lemma_wire_round_trip;
use crate::wire::wire_wf;
use crate::wire::lemma_first_failure_in_extend;
use crate::wire::lemma_parse_advances;
use crate::wire::parse_int;
use crate::wire::parse_line;
use crate::wire::parse_neg_one;
use crate::wire::parse_num;
use crate::wire::spec_digits;
use crate::wire::spec_parse;
use crate::wire::spec_parse_items;
use crate::wire::wire_bytes;
use crate::wire::Parsed;
use crate::wire::ParsedInt;
use crate::wire::ParsedItems;
use crate::wire::ParsedLine;
use crate::wire::ParsedNil;
use crate::wire::ParsedNum;
use crate::wire::Wire;

verus! {

/// The characters that a byte sequence decodes to as UTF-8 when every
/// invalid sequence is replaced by the replacement character.  A function of
/// the bytes alone.
pub uninterp spec fn lossy_utf8(bytes: Seq<u8>) -> Seq<char>;

/// Relies on alloc's `String::from_utf8_lossy`: the result is a function of
/// the bytes alone, and valid UTF-8 input is decoded unchanged.
#[verifier::external_body]
fn decode_text(bytes: &[u8]) -> (r: String)
    ensures
        r@ == lossy_utf8(bytes@),
        vstd::utf8::valid_utf8(bytes@) ==> r@ == vstd::utf8::decode_utf8(bytes@),
{
    String::from_utf8_lossy(bytes).into_owned()
}

/// Whether the decoded reply `r` renders the wire node `w`: equal except
/// that line payloads are decoded to text, lossily where not UTF-8.  A
/// `Failure` node is never rendered as a reply; it surfaces as an error.
pub open spec fn reply_rep(r: Reply, w: Wire) -> bool
    decreases w, 1int,
{
    match w {
        Wire::Status(text) => r matches Reply::Status(s) && s@ == lossy_utf8(text),
        Wire::Failure(_) => false,
        Wire::Integer(v) => r == Reply::Integer(v),
        Wire::Bulk(data) => r matches Reply::Bulk(d) && d@ == data,
        Wire::Array(ws) => r matches Reply::Array(rs) && rs@.len() == ws.len() && replies_rep(
            rs@,
            ws,
            0,
        ),
        Wire::Nil => r == Reply::Nil,
    }
}

/// Whether `rs[i..]` renders `ws[i..]`, node for node.
pub open spec fn replies_rep(rs: Seq<Reply>, ws: Seq<Wire>, i: int) -> bool
    decreases ws, ws.len() - i + 1,
{
    if i < 0 || i >= ws.len() {
        true
    } else {
        i < rs.len() && reply_rep(rs[i], ws[i]) && replies_rep(rs, ws, i + 1)
    }
}

/// Appending a rendered node to a rendered run keeps the run rendered.
pub proof fn lemma_replies_rep_extend(rs: Seq<Reply>, ws: Seq<Wire>, r: Reply, w: Wire, i: int)
    requires
        0 <= i <= ws.len(),
        rs.len() == ws.len(),
        replies_rep(rs, ws, i),
        reply_rep(r, w),
    ensures
        replies_rep(rs.push(r), ws.push(w), i),
    decreases ws.len() - i,
{
    if i < ws.len() {
        assert(rs.push(r)[i] == rs[i]);
        assert(ws.push(w)[i] == ws[i]);
        lemma_replies_rep_extend(rs, ws, r, w, i + 1);
    } else {
        assert(rs.push(r)[i] == r);
        assert(ws.push(w)[i] == w);
        assert(replies_rep(rs.push(r), ws.push(w), i + 1));
    }
}

/// The bytes of each argument of a command.
pub open spec fn args_bytes<T: AsBytes>(args: Seq<T>) -> Seq<Seq<u8>> {
    args.map(|k: int, a: T| a.byte_view())
}

/// The wire node that a command with the given argument bytes is sent as:
/// an array of bulk strings, one per argument, in order.
pub open spec fn command_wire(args: Seq<Seq<u8>>) -> Wire {
    Wire::Array(Seq::new(args.len(), |k: int| Wire::Bulk(args[k])))
}

/// The wire frame of a command with the given argument bytes.
pub open spec fn command_frame(args: Seq<Seq<u8>>) -> Seq<u8> {
    wire_bytes(command_wire(args))
}

/// Appends the decimal digits of `n`, most significant first.
fn push_decimal(out: &mut Vec<u8>, n: u64)
    ensures
        final(out)@ == old(out)@ + spec_digits(n as nat),
    decreases n,
{
    if n < 10 {
        out.push(48 + n as u8);
        assert(out@ =~= old(out)@ + spec_digits(n as nat));
    } else {
        push_decimal(out, n / 10);
        out.push(48 + (n % 10) as u8);
        assert(out@ =~= old(out)@ + spec_digits(n as nat)) by {
            assert(spec_digits(n as nat) == spec_digits(n as nat / 10).push(
                (48 + n as nat % 10) as u8,
            ));
        }
    }
}

/// Marshals a command given as a sequence of byte-like arguments into the
/// single wire frame that transmits it: an array of bulk strings carrying
/// each argument's bytes unchanged — arbitrary bytes, embedded zero bytes
/// included.
pub fn encode_command<T: AsBytes>(arguments: &[T]) -> (frame: Vec<u8>)
    ensures
        frame@ == command_frame(args_bytes(arguments@)),
{
    let ghost argsb = args_bytes(arguments@);
    let ghost items = Seq::new(argsb.len(), |k: int| Wire::Bulk(argsb[k]));
    let n = arguments.len();
    let mut frame: Vec<u8> = Vec::new();
    frame.push(42);
    push_decimal(&mut frame, n as u64);
    frame.push(13);
    frame.push(10);
    assert(frame@ + items_bytes(items, 0) =~= command_frame(argsb)) by {
        assert(frame@ =~= seq![42u8] + spec_digits(n as nat) + crlf());
    }
    let mut i: usize = 0;
    while i < n
        invariant
            n == arguments.len(),
            argsb == args_bytes(arguments@),
            items == Seq::new(argsb.len(), |k: int| Wire::Bulk(argsb[k])),
            0 <= i <= n,
            frame@ + items_bytes(items, i as int) == command_frame(argsb),
        decreases n - i,
    {
        let ghost before = frame@;
        let argument = slice_index_get(arguments, i);
        let data: &[u8] = argument.as_bytes();
        frame.push(36);
        push_decimal(&mut frame, data.len() as u64);
        frame.push(13);
        frame.push(10);
        frame.extend_from_slice(data);
        frame.push(13);
        frame.push(10);
        proof {
            assert(items[i as int] == Wire::Bulk(argsb[i as int]));
            assert(data@ == argsb[i as int]);
            assert(frame@ =~= before + wire_bytes(items[i as int])) by {
                assert(wire_bytes(items[i as int]) == seq![36u8] + spec_digits(data@.len())
                    + crlf() + data@ + crlf());
            }
            assert(items_bytes(items, i as int) == wire_bytes(items[i as int]) + items_bytes(
                items,
                i as int + 1,
            ));
            assert(frame@ + items_bytes(items, i as int + 1) =~= before + items_bytes(
                items,
                i as int,
            ));
        }
        i = i + 1;
    }
    assert(frame@ =~= frame@ + items_bytes(items, n as int));
    frame
}

/// Law: a command frame round-trips.  The frame that [`encode_command`]
/// promises for any argument bytes, followed by any further bytes, parses
/// back to exactly the array of bulk strings carrying those argument bytes
/// unchanged — embedded zero bytes included — consuming exactly the frame.
pub proof fn lemma_command_round_trip(args: Seq<Seq<u8>>, rest: Seq<u8>)
    ensures
        spec_parse(command_frame(args) + rest, 0) == Parsed::Found(
            command_wire(args),
            command_frame(args).len() as int,
        ),
{
    let items = Seq::new(args.len(), |k: int| Wire::Bulk(args[k]));
    assert forall|k: int| 0 <= k < items.len() implies wire_wf(#[trigger] items[k]) by {}
    lemma_items_wf_pointwise(items, 0);
    lemma_wire_round_trip(command_wire(args), rest);
}

/// Outcome of scanning a CRLF-terminated line: the carriage return's
/// position and the position just past the line, or why there is none.
enum LineStep {
    LineFound(usize, usize),
    LineShort,
    LineBad,
}

/// Scans for the CRLF that closes the line starting at `start`.
#[verifier::loop_isolation(false)]
fn scan_line(bytes: &[u8], start: usize) -> (out: LineStep)
    requires
        start <= bytes@.len(),
    ensures
        match parse_line(bytes@, start as int) {
            ParsedLine::FoundLine(text, n) => out matches LineStep::LineFound(j, np) && np as int
                == n && start <= j && (j as int) < bytes@.len() && text == bytes@.subrange(
                start as int,
                j as int,
            ),
            ParsedLine::ShortLine => out == LineStep::LineShort,
            ParsedLine::BadLine => out == LineStep::LineBad,
        },
{
    let len = bytes.len();
    let mut cur = start;
    while cur < len && *slice_index_get(bytes, cur) != 13
        invariant
            start <= cur <= len,
            find_cr(bytes@, start as int) == find_cr(bytes@, cur as int),
        decreases len - cur,
    {
        cur = cur + 1;
    }
    if cur >= len {
        return LineStep::LineShort;
    }
    if cur + 1 >= len {
        return LineStep::LineShort;
    }
    if *slice_index_get(bytes, cur + 1) != 10 {
        return LineStep::LineBad;
    }
    LineStep::LineFound(cur, cur + 2)
}

/// Outcome of scanning a decimal line: the accumulated value, whether it
/// exceeded the machine range, and the position just past the line.
enum NumStep {
    NumFound(u64, bool, usize),
    NumShort,
    NumBad,
}

/// Scans the canonical unsigned decimal line starting at `start`.
#[verifier::loop_isolation(false)]
fn scan_number(bytes: &[u8], start: usize) -> (out: NumStep)
    requires
        start <= bytes@.len(),
    ensures
        match parse_num(bytes@, start as int) {
            ParsedNum::FoundNum(v, n) => out matches NumStep::NumFound(acc, huge, np) && np as int
                == n && (huge <==> v > u64::MAX as nat) && (!huge ==> acc as nat == v),
            ParsedNum::ShortNum => out == NumStep::NumShort,
            ParsedNum::BadNum => out == NumStep::NumBad,
        },
{
    let ghost s = bytes@;
    let len = bytes.len();
    let mut cur = start;
    let mut acc: u64 = 0;
    let mut huge = false;
    while cur < len
        invariant
            start <= cur <= len,
            digit_run_end(s, start as int) == digit_run_end(s, cur as int),
            forall|k: int| start <= k < cur ==> is_digit(s[k]),
            huge ==> digits_val(s.subrange(start as int, cur as int)) > u64::MAX as nat,
            !huge ==> acc as nat == digits_val(s.subrange(start as int, cur as int)),
        decreases len - cur,
    {
        let b = *slice_index_get(bytes, cur);
        if b >= 48 && b <= 57 {
            let d = b - 48;
            let ghost before = s.subrange(start as int, cur as int);
            let ghost after = s.subrange(start as int, cur as int + 1);
            proof {
                assert(after.drop_last() =~= before);
                assert(after.last() == s[cur as int]);
                assert(digits_val(after) == digits_val(before) * 10 + d);
            }
            if huge || acc > (u64::MAX - d as u64) / 10 {
                proof {
                    if !huge {
                        let q = (u64::MAX - d as u64) / 10;
                        vstd::arithmetic::div_mod::lemma_fundamental_div_mod(
                            (u64::MAX - d as u64) as int,
                            10,
                        );
                        assert(acc * 10 >= (q + 1) * 10) by (nonlinear_arith)
                            requires
                                acc >= q + 1,
                        ;
                        assert(digits_val(after) > u64::MAX as nat);
                    } else {
                        assert(digits_val(before) * 10 >= digits_val(before)) by (nonlinear_arith);
                    }
                }
                huge = true;
            } else {
                proof {
                    let q = (u64::MAX - d as u64) / 10;
                    vstd::arithmetic::div_mod::lemma_fundamental_div_mod(
                        (u64::MAX - d as u64) as int,
                        10,
                    );
                    assert(acc * 10 <= q * 10) by (nonlinear_arith)
                        requires
                            acc <= q,
                    ;
                }
                acc = acc * 10 + d as u64;
            }
            cur = cur + 1;
        } else {
            assert(digit_run_end(s, cur as int) == cur as int);
            if cur == start {
                return NumStep::NumBad;
            }
            if *slice_index_get(bytes, start) == 48 && cur > start + 1 {
                return NumStep::NumBad;
            }
            if b != 13 {
                return NumStep::NumBad;
            }
            if cur + 1 >= len {
                return NumStep::NumShort;
            }
            if *slice_index_get(bytes, cur + 1) != 10 {
                return NumStep::NumBad;
            }
            return NumStep::NumFound(acc, huge, cur + 2);
        }
    }
    NumStep::NumShort
}

/// Outcome of scanning a signed decimal line.
enum IntStep {
    IntFound(i64, usize),
    IntShort,
    IntBad,
}

/// Scans the canonical signed 64-bit decimal line starting at `start`.
fn scan_int(bytes: &[u8], start: usize) -> (out: IntStep)
    requires
        start <= bytes@.len(),
    ensures
        match parse_int(bytes@, start as int) {
            ParsedInt::FoundInt(v, n) => out matches IntStep::IntFound(ev, np) && np as int == n
                && ev == v,
            ParsedInt::ShortInt => out == IntStep::IntShort,
            ParsedInt::BadInt => out == IntStep::IntBad,
        },
{
    let len = bytes.len();
    if start >= len {
        return IntStep::IntShort;
    }
    let b = *slice_index_get(bytes, start);
    if b == 45 {
        match scan_number(bytes, start + 1) {
            NumStep::NumFound(acc, huge, np) => {
                if huge {
                    return IntStep::IntBad;
                }
                if acc == 0 {
                    return IntStep::IntBad;
                }
                if acc > 0x8000_0000_0000_0000u64 {
                    return IntStep::IntBad;
                }
                if acc == 0x8000_0000_0000_0000u64 {
                    IntStep::IntFound(i64::MIN, np)
                } else {
                    IntStep::IntFound(-(acc as i64), np)
                }
            },
            NumStep::NumShort => IntStep::IntShort,
            NumStep::NumBad => IntStep::IntBad,
        }
    } else {
        match scan_number(bytes, start) {
            NumStep::NumFound(acc, huge, np) => {
                if huge {
                    return IntStep::IntBad;
                }
                if acc > 0x7fff_ffff_ffff_ffffu64 {
                    return IntStep::IntBad;
                }
                IntStep::IntFound(acc as i64, np)
            },
            NumStep::NumShort => IntStep::IntShort,
            NumStep::NumBad => IntStep::IntBad,
        }
    }
}

/// Outcome of scanning the `-1\r\n` null marker.
enum NilStep {
    NilFound(usize),
    NilShort,
    NilBad,
}

/// Scans the null marker whose minus sign stands at `start`.
fn scan_neg_one(bytes: &[u8], start: usize) -> (out: NilStep)
    requires
        start < bytes@.len(),
    ensures
        match parse_neg_one(bytes@, start as int) {
            ParsedNil::FoundNil(n) => out matches NilStep::NilFound(np) && np as int == n,
            ParsedNil::ShortNil => out == NilStep::NilShort,
            ParsedNil::BadNil => out == NilStep::NilBad,
        },
{
    let len = bytes.len();
    if start + 1 >= len {
        return NilStep::NilShort;
    }
    if *slice_index_get(bytes, start + 1) != 49 {
        return NilStep::NilBad;
    }
    if start + 2 >= len {
        return NilStep::NilShort;
    }
    if *slice_index_get(bytes, start + 2) != 13 {
        return NilStep::NilBad;
    }
    if start + 3 >= len {
        return NilStep::NilShort;
    }
    if *slice_index_get(bytes, start + 3) != 10 {
        return NilStep::NilBad;
    }
    NilStep::NilFound(start + 4)
}

/// Outcome of reading one node: a decoded reply, the text of the leftmost
/// server-reported error inside the node, or why neither could be read.
enum Step {
    Value(Reply, usize),
    ErrText(String, usize),
    Needs,
    Broken,
}

/// What `parse_at` promises: its outcome renders `spec_parse` exactly.
spec fn step_post(s: Seq<u8>, i: int, out: Step) -> bool {
    match spec_parse(s, i) {
        Parsed::Found(w, n) => match first_failure(w) {
            Option::Some(m) => out matches Step::ErrText(t, c) && c as int == n && t@
                == lossy_utf8(m),
            Option::None => out matches Step::Value(r, c) && c as int == n && reply_rep(r, w),
        },
        Parsed::Short => out == Step::Needs,
        Parsed::Bad => out == Step::Broken,
    }
}

/// Glues an already-read prefix of nodes onto the outcome of reading the
/// rest of the run.
spec fn items_glue(prefix: Seq<Wire>, rest: ParsedItems) -> ParsedItems {
    match rest {
        ParsedItems::FoundItems(ws, m) => ParsedItems::FoundItems(prefix + ws, m),
        ParsedItems::ShortItems => ParsedItems::ShortItems,
        ParsedItems::BadItems => ParsedItems::BadItems,
    }
}

/// Reads one reply node starting at `pos`, recursing through arrays.
#[verifier::loop_isolation(false)]
fn parse_at(bytes: &[u8], pos: usize) -> (out: Step)
    requires
        pos <= bytes@.len(),
    ensures
        step_post(bytes@, pos as int, out),
    decreases bytes@.len() - pos,
{
    let ghost s = bytes@;
    let len = bytes.len();
    if pos >= len {
        return Step::Needs;
    }
    let tag = *slice_index_get(bytes, pos);
    if tag == 43 {  // '+'
        match scan_line(bytes, pos + 1) {
            LineStep::LineFound(j, np) => {
                let text = slice_subrange(bytes, pos + 1, j);
                Step::Value(Reply::Status(decode_text(text)), np)
            },
            LineStep::LineShort => Step::Needs,
            LineStep::LineBad => Step::Broken,
        }
    } else if tag == 45 {  // '-'
        match scan_line(bytes, pos + 1) {
            LineStep::LineFound(j, np) => {
                let text = slice_subrange(bytes, pos + 1, j);
                Step::ErrText(decode_text(text), np)
            },
            LineStep::LineShort => Step::Needs,
            LineStep::LineBad => Step::Broken,
        }
    } else if tag == 58 {  // ':'
        match scan_int(bytes, pos + 1) {
            IntStep::IntFound(v, np) => Step::Value(Reply::Integer(v), np),
            IntStep::IntShort => Step::Needs,
            IntStep::IntBad => Step::Broken,
        }
    } else if tag == 36 {  // '$'
        if pos + 1 < len && *slice_index_get(bytes, pos + 1) == 45 {
            match scan_neg_one(bytes, pos + 1) {
                NilStep::NilFound(np) => Step::Value(Reply::Nil, np),
                NilStep::NilShort => Step::Needs,
                NilStep::NilBad => Step::Broken,
            }
        } else {
            match scan_number(bytes, pos + 1) {
                NumStep::NumFound(acc, huge, p) => {
                    if huge {
                        return Step::Needs;
                    }
                    if acc > (len - p) as u64 {
                        return Step::Needs;
                    }
                    let dlen = acc as usize;
                    if (len - p) - dlen < 2 {
                        return Step::Needs;
                    }
                    if *slice_index_get(bytes, p + dlen) != 13 {
                        return Step::Broken;
                    }
                    if *slice_index_get(bytes, p + dlen + 1) != 10 {
                        return Step::Broken;
                    }
                    let data = slice_to_vec(slice_subrange(bytes, p, p + dlen));
                    Step::Value(Reply::Bulk(data), p + dlen + 2)
                },
                NumStep::NumShort => Step::Needs,
                NumStep::NumBad => Step::Broken,
            }
        }
    } else if tag == 42 {  // '*'
        if pos + 1 < len && *slice_index_get(bytes, pos + 1) == 45 {
            match scan_neg_one(bytes, pos + 1) {
                NilStep::NilFound(np) => Step::Value(Reply::Nil, np),
                NilStep::NilShort => Step::Needs,
                NilStep::NilBad => Step::Broken,
            }
        } else {
            match scan_number(bytes, pos + 1) {
                NumStep::NumFound(acc, huge, p) => {
                    proof {
                        lemma_digit_run_bounds(s, pos as int + 1);
                    }
                    let ghost count_true: nat = parse_num(s, pos as int + 1)->FoundNum_0;
                    let count_bound: u64 = if huge {
                        u64::MAX
                    } else {
                        acc
                    };
                    let mut items: Vec<Reply> = Vec::new();
                    let mut err: Option<String> = None;
                    let mut cur = p;
                    let mut k: u64 = 0;
                    let ghost mut ws_acc: Seq<Wire> = Seq::empty();
                    proof {
                        assert(items_glue(ws_acc, spec_parse_items(s, p as int, count_true))
                            == spec_parse_items(s, p as int, count_true)) by {
                            match spec_parse_items(s, p as int, count_true) {
                                ParsedItems::FoundItems(ws, m) => {
                                    assert(ws_acc + ws =~= ws);
                                },
                                _ => {},
                            }
                        }
                    }
                    while k < count_bound
                        invariant
                            pos < p <= cur <= len,
                            k as int <= cur - p,
                            k <= count_bound,
                            huge ==> count_true > u64::MAX as nat,
                            !huge ==> count_true == acc as nat,
                            k as nat <= count_true,
                            ws_acc.len() == k as nat,
                            spec_parse_items(s, p as int, count_true) == items_glue(
                                ws_acc,
                                spec_parse_items(s, cur as int, (count_true - k as nat) as nat),
                            ),
                            match err {
                                Option::Some(t) => first_failure_in(ws_acc, 0) matches Option::Some(
                                    m,
                                ) && t@ == lossy_utf8(m),
                                Option::None => first_failure_in(ws_acc, 0) is None && items@.len()
                                    == k as nat && replies_rep(items@, ws_acc, 0),
                            },
                        decreases count_bound - k,
                    {
                        proof {
                            if huge {
                                assert((k as nat) < count_true);
                            }
                        }
                        let step = parse_at(bytes, cur);
                        match step {
                            Step::Needs => {
                                return Step::Needs;
                            },
                            Step::Broken => {
                                return Step::Broken;
                            },
                            Step::Value(r, n) => {
                                proof {
                                    lemma_parse_advances(s, cur as int);
                                    let w0 = spec_parse(s, cur as int)->Found_0;
                                    assert(first_failure(w0) is None);
                                    assert(reply_rep(r, w0));
                                    lemma_first_failure_in_extend(ws_acc, w0, 0);
                                    let rest = spec_parse_items(
                                        s,
                                        n as int,
                                        (count_true - (k + 1) as nat) as nat,
                                    );
                                    assert(items_glue(ws_acc, spec_parse_items(s, cur as int, (
                                    count_true - k as nat) as nat)) == items_glue(
                                        ws_acc.push(w0),
                                        rest,
                                    )) by {
                                        match rest {
                                            ParsedItems::FoundItems(ws, m) => {
                                                assert(ws_acc + (seq![w0] + ws) =~= ws_acc.push(w0)
                                                    + ws);
                                            },
                                            _ => {},
                                        }
                                    }
                                    if err is None {
                                        lemma_replies_rep_extend(items@, ws_acc, r, w0, 0);
                                    }
                                    ws_acc = ws_acc.push(w0);
                                }
                                if err.is_none() {
                                    items.push(r);
                                }
                                cur = n;
                                k = k + 1;
                            },
                            Step::ErrText(t, n) => {
                                proof {
                                    lemma_parse_advances(s, cur as int);
                                    let w0 = spec_parse(s, cur as int)->Found_0;
                                    assert(first_failure(w0) is Some);
                                    lemma_first_failure_in_extend(ws_acc, w0, 0);
                                    let rest = spec_parse_items(
                                        s,
                                        n as int,
                                        (count_true - (k + 1) as nat) as nat,
                                    );
                                    assert(items_glue(ws_acc, spec_parse_items(s, cur as int, (
                                    count_true - k as nat) as nat)) == items_glue(
                                        ws_acc.push(w0),
                                        rest,
                                    )) by {
                                        match rest {
                                            ParsedItems::FoundItems(ws, m) => {
                                                assert(ws_acc + (seq![w0] + ws) =~= ws_acc.push(w0)
                                                    + ws);
                                            },
                                            _ => {},
                                        }
                                    }
                                    ws_acc = ws_acc.push(w0);
                                }
                                if err.is_none() {
                                    err = Some(t);
                                }
                                cur = n;
                                k = k + 1;
                            },
                        }
                    }
                    proof {
                        if huge {
                            assert(k as int <= cur - p);
                            assert(false);
                        }
                        assert(k as nat == count_true);
                        assert(spec_parse_items(s, cur as int, 0) == ParsedItems::FoundItems(
                            Seq::<Wire>::empty(),
                            cur as int,
                        ));
                        assert(ws_acc + Seq::<Wire>::empty() =~= ws_acc);
                        assert(spec_parse_items(s, p as int, count_true)
                            == ParsedItems::FoundItems(ws_acc, cur as int));
                        assert(spec_parse(s, pos as int) == Parsed::Found(
                            Wire::Array(ws_acc),
                            cur as int,
                        ));
                    }
                    match err {
                        Option::Some(t) => Step::ErrText(t, cur),
                        Option::None => {
                            proof {
                                assert(first_failure(Wire::Array(ws_acc)) is None);
                                assert(reply_rep(Reply::Array(items), Wire::Array(ws_acc)));
                            }
                            Step::Value(Reply::Array(items), cur)
                        },
                    }
                },
                NumStep::NumShort => Step::Needs,
                NumStep::NumBad => Step::Broken,
            }
        }
    } else {
        Step::Broken
    }
}

/// What decoding one reply from a byte buffer can yield.
#[derive(Debug)]
pub enum Decoded {
    /// A complete reply, and how many bytes its encoding took.
    Complete(Reply, usize),
    /// A server-reported error reply, and how many bytes its encoding took;
    /// the connection remains usable.
    Failed(Error, usize),
    /// The buffer holds only a prefix of a reply: more bytes are needed.
    Partial,
    /// The buffer cannot be a reply: the stream is broken.
    Corrupt(Error),
}

/// What [`decode_reply`] promises, over the reference parser
/// [`spec_parse`]: a complete non-error node yields `Complete` with the
/// rendered reply and its exact length; a node whose leftmost failure line
/// is `m` yields `Failed` carrying that line's text; a truncated buffer
/// yields `Partial`; anything else yields `Corrupt`.
pub open spec fn decode_post(s: Seq<u8>, out: Decoded) -> bool {
    match spec_parse(s, 0) {
        Parsed::Found(w, n) => match first_failure(w) {
            Option::Some(m) => out matches Decoded::Failed(e, c) && c as int == n && e.kind
                == ErrorKind::Other && e.message@ == lossy_utf8(m),
            Option::None => out matches Decoded::Complete(r, c) && c as int == n && reply_rep(
                r,
                w,
            ),
        },
        Parsed::Short => out == Decoded::Partial,
        Parsed::Bad => out matches Decoded::Corrupt(e) && e.kind == ErrorKind::Other && e.message@
            == "failed to identify a reply"@,
    }
}

/// Decodes one reply from the front of `bytes`, recursively and completely:
/// array elements are fully decoded, in server order, before the reply is
/// returned, and the reply owns all its data.  A server-reported error
/// anywhere in the reply surfaces as an error result instead of a reply.
pub fn decode_reply(bytes: &[u8]) -> (out: Decoded)
    ensures
        decode_post(bytes@, out),
{
    match parse_at(bytes, 0) {
        Step::Value(r, n) => Decoded::Complete(r, n),
        Step::ErrText(t, n) => Decoded::Failed(Error { kind: ErrorKind::Other, message: t }, n),
        Step::Needs => Decoded::Partial,
        Step::Broken => Decoded::Corrupt(Error::other("failed to identify a reply")),
    }
}

} // verus!
