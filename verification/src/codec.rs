//! The persisted form of the task list: one JSON object per line, with
//! the fields `id`, `content`, `date` and `status`, in that order and
//! without padding, exactly as the store writes them.  Reading is per
//! record: a line that does not fit the grammar is dropped by the
//! loader, never repaired.

use crate::digits::{
    dec_repr, is_digit, lemma_dec_repr_digits, lemma_digit_run_exact, lemma_digits_val_dec_repr,
    parse_u32, parse_u32_at, push_dec,
};
use crate::task::{Status, Task, TaskModel};
use vstd::arithmetic::div_mod::lemma_fundamental_div_mod;
use vstd::prelude::*;

verus! {

// ---------------------------------------------------------------------
// Bytes of the grammar's fixed parts
// ---------------------------------------------------------------------
/// The bytes of `{"id":`.
pub open spec fn lit_id() -> Seq<u8> {
    seq![0x7bu8, 0x22, 0x69, 0x64, 0x22, 0x3a]
}

/// The bytes of `,"content":"`.
pub open spec fn lit_content() -> Seq<u8> {
    seq![0x2cu8, 0x22, 0x63, 0x6f, 0x6e, 0x74, 0x65, 0x6e, 0x74, 0x22, 0x3a, 0x22]
}

/// The bytes of `,"date":"`.
pub open spec fn lit_date() -> Seq<u8> {
    seq![0x2cu8, 0x22, 0x64, 0x61, 0x74, 0x65, 0x22, 0x3a, 0x22]
}

/// The bytes of `,"status":"`.
pub open spec fn lit_status() -> Seq<u8> {
    seq![0x2cu8, 0x22, 0x73, 0x74, 0x61, 0x74, 0x75, 0x73, 0x22, 0x3a, 0x22]
}

/// The bytes of `undone`.
pub open spec fn lit_undone() -> Seq<u8> {
    seq![0x75u8, 0x6e, 0x64, 0x6f, 0x6e, 0x65]
}

/// The bytes of `done`.
pub open spec fn lit_done() -> Seq<u8> {
    seq![0x64u8, 0x6f, 0x6e, 0x65]
}

/// The word a status is stored as.
pub open spec fn status_word(st: Status) -> Seq<u8> {
    if st is Done {
        lit_done()
    } else {
        lit_undone()
    }
}

// ---------------------------------------------------------------------
// String escaping
// ---------------------------------------------------------------------
/// The hexadecimal digit for `n`, lower case.
pub open spec fn hex_digit(n: nat) -> u8 {
    if n < 10 {
        (0x30 + n) as u8
    } else {
        (0x57 + n) as u8
    }
}

/// `b` is a hexadecimal digit, either case.
pub open spec fn is_hex(b: u8) -> bool {
    is_digit(b) || 0x61 <= b <= 0x66 || 0x41 <= b <= 0x46
}

/// The value of a hexadecimal digit.
pub open spec fn hex_val(b: u8) -> nat {
    if is_digit(b) {
        (b - 0x30) as nat
    } else if 0x61 <= b <= 0x66 {
        (b - 0x57) as nat
    } else {
        (b - 0x37) as nat
    }
}

/// How one byte of text stands in a stored string: quote and backslash
/// are escaped, the named control bytes get their short escapes, the
/// remaining control bytes their four-digit form, everything else
/// stands as itself.
pub open spec fn escape_byte(b: u8) -> Seq<u8> {
    if b == 0x22 {
        seq![0x5cu8, 0x22]
    } else if b == 0x5c {
        seq![0x5cu8, 0x5c]
    } else if b == 0x08 {
        seq![0x5cu8, 0x62]
    } else if b == 0x09 {
        seq![0x5cu8, 0x74]
    } else if b == 0x0a {
        seq![0x5cu8, 0x6e]
    } else if b == 0x0c {
        seq![0x5cu8, 0x66]
    } else if b == 0x0d {
        seq![0x5cu8, 0x72]
    } else if b < 0x20 {
        seq![0x5cu8, 0x75, 0x30, 0x30, hex_digit((b / 16) as nat), hex_digit((b % 16) as nat)]
    } else {
        seq![b]
    }
}

/// A whole text in its stored form.
pub open spec fn escape(s: Seq<u8>) -> Seq<u8>
    decreases s.len(),
{
    if s.len() == 0 {
        Seq::empty()
    } else {
        escape_byte(s[0]) + escape(s.drop_first())
    }
}

/// The byte a short escape stands for, if the letter names one.
pub open spec fn unescape_byte(e: u8) -> Option<u8> {
    if e == 0x22 {
        Some(0x22u8)
    } else if e == 0x5c {
        Some(0x5cu8)
    } else if e == 0x2f {
        Some(0x2fu8)
    } else if e == 0x62 {
        Some(0x08u8)
    } else if e == 0x66 {
        Some(0x0cu8)
    } else if e == 0x6e {
        Some(0x0au8)
    } else if e == 0x72 {
        Some(0x0du8)
    } else if e == 0x74 {
        Some(0x09u8)
    } else {
        None
    }
}

// ---------------------------------------------------------------------
// The record grammar
// ---------------------------------------------------------------------
/// The fixed bytes `lit` stand at position `i` of `s`.
pub open spec fn match_at(s: Seq<u8>, i: int, lit: Seq<u8>) -> bool {
    0 <= i && i + lit.len() <= s.len() && s.subrange(i, i + lit.len()) == lit
}

/// Reading a stored string at position `i` of `s` (just after its
/// opening quote): the decoded text and the position after the closing
/// quote, or nothing if the bytes do not fit the grammar.
pub open spec fn parse_string_at(s: Seq<u8>, i: int) -> Option<(Seq<u8>, int)>
    decreases s.len() - i,
{
    if !(0 <= i < s.len()) {
        None
    } else if s[i] == 0x22 {
        Some((Seq::empty(), i + 1))
    } else if s[i] == 0x5c {
        if i + 1 < s.len() {
            let e = s[i + 1];
            if e == 0x75 {
                if i + 6 <= s.len() && s[i + 2] == 0x30 && s[i + 3] == 0x30 && is_hex(s[i + 4])
                    && is_hex(s[i + 5]) {
                    let b = (hex_val(s[i + 4]) * 16 + hex_val(s[i + 5])) as u8;
                    match parse_string_at(s, i + 6) {
                        Some(r) => Some((seq![b] + r.0, r.1)),
                        None => None,
                    }
                } else {
                    None
                }
            } else {
                match unescape_byte(e) {
                    Some(b) => match parse_string_at(s, i + 2) {
                        Some(r) => Some((seq![b] + r.0, r.1)),
                        None => None,
                    },
                    None => None,
                }
            }
        } else {
            None
        }
    } else if s[i] < 0x20 {
        None
    } else {
        match parse_string_at(s, i + 1) {
            Some(r) => Some((seq![s[i]] + r.0, r.1)),
            None => None,
        }
    }
}

/// The status a stored word stands for.
pub open spec fn word_status(w: Seq<u8>) -> Option<Status> {
    if w == lit_undone() {
        Some(Status::Undone)
    } else if w == lit_done() {
        Some(Status::Done)
    } else {
        None
    }
}

/// The stored form of one task: one line of the task file, grouped
/// from the right so that each field's tail is a whole subterm.
#[verifier::opaque]
pub open spec fn encode_task(t: TaskModel) -> Seq<u8> {
    lit_id() + (dec_repr(t.id as nat) + (lit_content() + (escape(t.content) + (seq![0x22u8] + (
    lit_date() + (escape(t.date) + (seq![0x22u8] + (lit_status() + (status_word(t.status)
        + seq![0x22u8, 0x7du8])))))))))
}

/// The task one line stands for, if it fits the grammar.
#[verifier::opaque]
pub open spec fn decode_task(s: Seq<u8>) -> Option<TaskModel> {
    if !match_at(s, 0, lit_id()) {
        None
    } else {
        match parse_u32_at(s, lit_id().len() as int) {
            None => None,
            Some((id, a)) => if !match_at(s, a, lit_content()) {
                None
            } else {
                match parse_string_at(s, a + lit_content().len()) {
                    None => None,
                    Some((content, b)) => if !match_at(s, b, lit_date()) {
                        None
                    } else {
                        match parse_string_at(s, b + lit_date().len()) {
                            None => None,
                            Some((date, c)) => if !match_at(s, c, lit_status()) {
                                None
                            } else {
                                match parse_string_at(s, c + lit_status().len()) {
                                    None => None,
                                    Some((w, d)) => match word_status(w) {
                                        None => None,
                                        Some(st) => if d == s.len() - 1 && s[d] == 0x7d {
                                            Some(
                                                TaskModel {
                                                    id,
                                                    content,
                                                    date,
                                                    status: st,
                                                },
                                            )
                                        } else {
                                            None
                                        },
                                    },
                                }
                            },
                        }
                    },
                }
            },
        }
    }
}

// ---------------------------------------------------------------------
// The file: one record per line
// ---------------------------------------------------------------------
/// Position of the first line feed of `s`, or its length.
pub open spec fn first_nl(s: Seq<u8>) -> nat
    decreases s.len(),
{
    if s.len() == 0 {
        0
    } else if s[0] == 0x0a {
        0
    } else {
        (1 + first_nl(s.drop_first())) as nat
    }
}

/// A line with its trailing carriage return, if any, removed.
pub open spec fn strip_cr(l: Seq<u8>) -> Seq<u8> {
    if l.len() > 0 && l.last() == 0x0d {
        l.drop_last()
    } else {
        l
    }
}

/// The tasks a whole file stands for: each line read on its own, the
/// lines that fit the grammar kept in file order, the others dropped.
pub open spec fn decode_list(s: Seq<u8>) -> Seq<TaskModel>
    decreases s.len(),
{
    if s.len() == 0 {
        Seq::empty()
    } else {
        let j = first_nl(s) as int;
        let line = strip_cr(s.subrange(0, j));
        let rest = if j < s.len() {
            s.subrange(j + 1, s.len() as int)
        } else {
            Seq::<u8>::empty()
        };
        match decode_task(line) {
            Some(t) => seq![t] + decode_list(rest),
            None => decode_list(rest),
        }
    }
}

/// How many lines of the file do not fit the grammar and are dropped
/// by the loader.
pub open spec fn dropped_count(s: Seq<u8>) -> nat
    decreases s.len(),
{
    if s.len() == 0 {
        0
    } else {
        let j = first_nl(s) as int;
        let line = strip_cr(s.subrange(0, j));
        let rest = if j < s.len() {
            s.subrange(j + 1, s.len() as int)
        } else {
            Seq::<u8>::empty()
        };
        match decode_task(line) {
            Some(_) => dropped_count(rest),
            None => 1 + dropped_count(rest),
        }
    }
}

/// The stored form of a whole list: every task's line, each followed
/// by a line feed, in list order.
pub open spec fn encode_list(ts: Seq<TaskModel>) -> Seq<u8>
    decreases ts.len(),
{
    if ts.len() == 0 {
        Seq::empty()
    } else {
        encode_task(ts[0]) + seq![0x0au8] + encode_list(ts.drop_first())
    }
}

// ---------------------------------------------------------------------
// Round trip: what the store writes, the loader reads back unchanged
// ---------------------------------------------------------------------
proof fn lemma_escape_visible(c: Seq<u8>)
    ensures
        forall|k: int| 0 <= k < escape(c).len() ==> #[trigger] escape(c)[k] >= 0x20,
    decreases c.len(),
{
    if c.len() > 0 {
        lemma_escape_visible(c.drop_first());
        let b = c[0];
        assert(forall|k: int| 0 <= k < escape_byte(b).len() ==> #[trigger] escape_byte(b)[k]
            >= 0x20);
        assert(forall|k: int|
            0 <= k < escape(c).len() ==> #[trigger] escape(c)[k] == (escape_byte(b) + escape(
                c.drop_first(),
            ))[k]);
    }
}

/// A text whose bytes are all plain (printable, no quote, no
/// backslash) is its own stored form.
proof fn lemma_escape_plain(w: Seq<u8>)
    requires
        forall|k: int|
            0 <= k < w.len() ==> 0x20 <= #[trigger] w[k] && w[k] != 0x22 && w[k] != 0x5c,
    ensures
        escape(w) == w,
    decreases w.len(),
{
    if w.len() > 0 {
        lemma_escape_plain(w.drop_first());
        assert(escape_byte(w[0]) =~= seq![w[0]]);
        assert(escape(w) =~= w);
    }
}

/// Every byte of a stored line is printable; in particular no line
/// feed and no carriage return is among them, and the line is not
/// empty.
proof fn lemma_encode_task_shape(t: TaskModel)
    ensures
        encode_task(t).len() >= 1,
        forall|k: int| 0 <= k < encode_task(t).len() ==> #[trigger] encode_task(t)[k] >= 0x20,
{
    reveal(encode_task);
    lemma_dec_repr_digits(t.id as nat);
    lemma_escape_visible(t.content);
    lemma_escape_visible(t.date);
    let d = dec_repr(t.id as nat);
    assert(forall|k: int| 0 <= k < d.len() ==> #[trigger] d[k] >= 0x20) by {
        assert(forall|k: int| 0 <= k < d.len() ==> is_digit(#[trigger] d[k]));
    }
    assert(forall|k: int| 0 <= k < status_word(t.status).len() ==> #[trigger] status_word(
        t.status,
    )[k] >= 0x20);
}

/// Reading digits planted at position `i` finds exactly them.
proof fn lemma_parse_decimal(s: Seq<u8>, i: int, n: u32, rest: Seq<u8>)
    requires
        0 <= i <= s.len(),
        s.subrange(i, s.len() as int) == dec_repr(n as nat) + rest,
        rest.len() > 0,
        !is_digit(rest[0]),
    ensures
        parse_u32_at(s, i) == Some((n, i + dec_repr(n as nat).len())),
{
    let d = dec_repr(n as nat);
    let ln = d.len() as int;
    assert(s.subrange(i, s.len() as int).len() == d.len() + rest.len());
    lemma_dec_repr_digits(n as nat);
    lemma_digits_val_dec_repr(n as nat);
    assert(forall|k: int| 0 <= k < ln ==> s[i + k] == #[trigger] d[k]) by {
        assert(forall|k: int|
            0 <= k < ln ==> s.subrange(i, s.len() as int)[k] == #[trigger] d[k]);
    }
    assert forall|k: int| i <= k < i + ln implies is_digit(#[trigger] s[k]) by {
        assert(s[k] == d[k - i]);
    }
    assert(s.subrange(i, s.len() as int)[ln] == s[i + ln]);
    assert((dec_repr(n as nat) + rest)[ln] == rest[0]);
    assert(s[i + ln] == rest[0]);
    lemma_digit_run_exact(s, i, i + ln);
    assert(s.subrange(i, i + ln) =~= d);
}

/// Reading a stored string planted at position `i` (its escaped text,
/// its closing quote, then anything) decodes exactly the text and
/// stops after the quote.
#[verifier::rlimit(80)]
proof fn lemma_parse_escaped(s: Seq<u8>, i: int, c: Seq<u8>, rest: Seq<u8>)
    requires
        0 <= i <= s.len(),
        s.subrange(i, s.len() as int) == escape(c) + seq![0x22u8] + rest,
    ensures
        parse_string_at(s, i) == Some((c, i + escape(c).len() + 1)),
    decreases c.len(),
{
    let suf = s.subrange(i, s.len() as int);
    assert(suf.len() == escape(c).len() + 1 + rest.len());
    if c.len() == 0 {
        assert(escape(c) == Seq::<u8>::empty());
        assert(suf[0] == 0x22);
        assert(s[i] == 0x22);
        assert(c =~= Seq::<u8>::empty());
    } else {
        let b = c[0];
        let c1 = c.drop_first();
        let eb = escape_byte(b);
        let w = eb.len() as int;
        assert(escape(c) == eb + escape(c1));
        assert(forall|k: int| 0 <= k < suf.len() ==> #[trigger] suf[k] == s[i + k]);
        assert(forall|k: int| 0 <= k < w ==> s[i + k] == #[trigger] eb[k]) by {
            assert(forall|k: int| 0 <= k < w ==> suf[k] == #[trigger] eb[k]);
        }
        assert(s.subrange(i + w, s.len() as int) =~= suf.subrange(w, suf.len() as int));
        assert(suf.subrange(w, suf.len() as int) =~= escape(c1) + seq![0x22u8] + rest);
        lemma_parse_escaped(s, i + w, c1, rest);
        assert(seq![b] + c1 =~= c);
        if b == 0x22 || b == 0x5c || b == 0x08 || b == 0x09 || b == 0x0a || b == 0x0c || b
            == 0x0d {
            assert(w == 2);
            assert(s[i] == 0x5c);
            assert(unescape_byte(s[i + 1]) == Some(b));
        } else if b < 0x20 {
            assert(w == 6);
            assert(s[i] == 0x5c && s[i + 1] == 0x75 && s[i + 2] == 0x30 && s[i + 3] == 0x30);
            assert(s[i + 4] == hex_digit((b / 16) as nat));
            assert(s[i + 5] == hex_digit((b % 16) as nat));
            assert(is_hex(s[i + 4]) && is_hex(s[i + 5]));
            assert(hex_val(s[i + 4]) == (b / 16) as nat && hex_val(s[i + 5]) == (b % 16) as nat);
            lemma_fundamental_div_mod(b as int, 16);
            assert((hex_val(s[i + 4]) * 16 + hex_val(s[i + 5])) as u8 == b);
        } else {
            assert(w == 1);
            assert(s[i] == b);
            assert(s[i] != 0x22 && s[i] != 0x5c && s[i] >= 0x20);
        }
    }
}

/// Peeling one part off a known suffix: the part stands at its
/// position, and what follows it is again a known suffix.
proof fn lemma_suffix_match(s: Seq<u8>, i: int, part: Seq<u8>, post: Seq<u8>)
    requires
        0 <= i <= s.len(),
        s.subrange(i, s.len() as int) == part + post,
    ensures
        match_at(s, i, part),
        s.subrange(i + part.len() as int, s.len() as int) == post,
{
    let suf = s.subrange(i, s.len() as int);
    assert(suf.len() == part.len() + post.len());
    assert(s.subrange(i, i + part.len() as int) =~= suf.subrange(0, part.len() as int));
    assert(suf.subrange(0, part.len() as int) =~= part);
    assert(s.subrange(i + part.len() as int, s.len() as int) =~= suf.subrange(
        part.len() as int,
        suf.len() as int,
    ));
    assert(suf.subrange(part.len() as int, suf.len() as int) =~= post);
}

#[verifier::rlimit(100)]
proof fn lemma_decode_encode_head(t: TaskModel)
    ensures
        ({
            let s = encode_task(t);
            let d = dec_repr(t.id as nat);
            let ec = escape(t.content);
            let p2 = 6 + d.len() as int;
            let p3 = p2 + 12;
            let p4 = p3 + ec.len() as int + 1;
            &&& match_at(s, 0, lit_id())
            &&& parse_u32_at(s, 6) == Some((t.id, p2))
            &&& match_at(s, p2, lit_content())
            &&& parse_string_at(s, p3) == Some((t.content, p4))
            &&& 0 <= p4 <= s.len()
            &&& s.subrange(p4, s.len() as int) == lit_date() + (escape(t.date) + (seq![0x22u8]
                + (lit_status() + (status_word(t.status) + seq![0x22u8, 0x7du8]))))
        }),
{
    reveal(encode_task);
    let s = encode_task(t);
    let d = dec_repr(t.id as nat);
    let ec = escape(t.content);
    lemma_dec_repr_digits(t.id as nat);
    let x6 = escape(t.date) + (seq![0x22u8] + (lit_status() + (status_word(t.status)
        + seq![0x22u8, 0x7du8])));
    let x5 = lit_date() + x6;
    let x4 = seq![0x22u8] + x5;
    let x3 = ec + x4;
    let x2 = lit_content() + x3;
    let x1 = d + x2;
    assert(s == lit_id() + x1);
    assert(s.subrange(0, s.len() as int) =~= s);
    lemma_suffix_match(s, 0, lit_id(), x1);
    assert(x2[0] == 0x2c && !is_digit(x2[0]));
    lemma_parse_decimal(s, 6, t.id, x2);
    let p2: int = 6 + d.len() as int;
    lemma_suffix_match(s, 6, d, x2);
    lemma_suffix_match(s, p2, lit_content(), x3);
    let p3: int = p2 + 12;
    assert(ec + seq![0x22u8] + x5 =~= x3);
    lemma_parse_escaped(s, p3, t.content, x5);
    lemma_suffix_match(s, p3, ec, x4);
    lemma_suffix_match(s, p3 + ec.len() as int, seq![0x22u8], x5);
}

#[verifier::rlimit(100)]
proof fn lemma_decode_encode_tail(t: TaskModel, s: Seq<u8>, p4: int)
    requires
        0 <= p4 <= s.len(),
        s.subrange(p4, s.len() as int) == lit_date() + (escape(t.date) + (seq![0x22u8] + (
        lit_status() + (status_word(t.status) + seq![0x22u8, 0x7du8])))),
    ensures
        ({
            let ed = escape(t.date);
            let w = status_word(t.status);
            let p5 = p4 + 9;
            let p6 = p5 + ed.len() as int + 1;
            let p7 = p6 + 11;
            let p8 = p7 + w.len() as int + 1;
            &&& match_at(s, p4, lit_date())
            &&& parse_string_at(s, p5) == Some((t.date, p6))
            &&& match_at(s, p6, lit_status())
            &&& parse_string_at(s, p7) == Some((w, p8))
            &&& word_status(w) == Some(t.status)
            &&& s.len() == p8 + 1
            &&& s[p8] == 0x7d
        }),
{
    let ed = escape(t.date);
    let w = status_word(t.status);
    let x9 = w + seq![0x22u8, 0x7du8];
    let x8 = lit_status() + x9;
    let x7 = seq![0x22u8] + x8;
    let x6 = ed + x7;
    lemma_suffix_match(s, p4, lit_date(), x6);
    let p5: int = p4 + 9;
    assert(ed + seq![0x22u8] + x8 =~= x6);
    lemma_parse_escaped(s, p5, t.date, x8);
    let p6: int = p5 + ed.len() as int + 1;
    lemma_suffix_match(s, p5, ed, x7);
    lemma_suffix_match(s, p5 + ed.len() as int, seq![0x22u8], x8);
    lemma_suffix_match(s, p6, lit_status(), x9);
    let p7: int = p6 + 11;
    assert(forall|k: int|
        0 <= k < w.len() ==> 0x20 <= #[trigger] w[k] && w[k] != 0x22 && w[k] != 0x5c);
    lemma_escape_plain(w);
    assert(escape(w) + seq![0x22u8] + seq![0x7du8] =~= x9);
    lemma_parse_escaped(s, p7, w, seq![0x7du8]);
    let p8: int = p7 + w.len() as int + 1;
    lemma_suffix_match(s, p7, w, seq![0x22u8, 0x7du8]);
    assert(seq![0x22u8, 0x7du8] =~= seq![0x22u8] + seq![0x7du8]);
    lemma_suffix_match(s, p7 + w.len() as int, seq![0x22u8], seq![0x7du8]);
    assert(s.subrange(p8, s.len() as int) == seq![0x7du8]);
    assert(s.subrange(p8, s.len() as int)[0] == s[p8]);
    assert(s.len() == p8 + 1);
    assert(word_status(w) == Some(t.status)) by {
        assert(lit_undone().len() != lit_done().len());
    }
}

/// Law, one record: every task's stored line reads back as exactly
/// that task.
#[verifier::rlimit(100)]
pub proof fn lemma_decode_encode(t: TaskModel)
    ensures
        decode_task(encode_task(t)) == Some(t),
{
    let s = encode_task(t);
    let d = dec_repr(t.id as nat);
    let ec = escape(t.content);
    let ed = escape(t.date);
    let w = status_word(t.status);
    let p2: int = 6 + d.len() as int;
    let p3: int = p2 + 12;
    let p4: int = p3 + ec.len() as int + 1;
    let p5: int = p4 + 9;
    let p6: int = p5 + ed.len() as int + 1;
    let p7: int = p6 + 11;
    let p8: int = p7 + w.len() as int + 1;
    lemma_decode_encode_head(t);
    lemma_decode_encode_tail(t, s, p4);
    reveal(decode_task);
    assert(lit_id().len() == 6 && lit_content().len() == 12 && lit_date().len() == 9
        && lit_status().len() == 11);
    assert(decode_task(s) == Some(
        TaskModel { id: t.id, content: t.content, date: t.date, status: t.status },
    ));
    assert(TaskModel { id: t.id, content: t.content, date: t.date, status: t.status } == t);
}

/// Law, the whole file: the stored form of any list reads back as
/// exactly that list, in order, nothing dropped.
pub proof fn lemma_decode_encode_list(ts: Seq<TaskModel>)
    ensures
        decode_list(encode_list(ts)) == ts,
    decreases ts.len(),
{
    if ts.len() == 0 {
    } else {
        let e = encode_task(ts[0]);
        let s = encode_list(ts);
        let tail = encode_list(ts.drop_first());
        lemma_encode_task_shape(ts[0]);
        assert(forall|k: int| 0 <= k < e.len() ==> #[trigger] s[k] == e[k]);
        assert(forall|k: int| 0 <= k < e.len() ==> #[trigger] s[k] != 0x0a);
        assert(s[e.len() as int] == 0x0a);
        lemma_first_nl_exact(s, e.len() as int);
        assert(s.subrange(0, e.len() as int) =~= e);
        assert(strip_cr(e) == e);
        lemma_decode_encode(ts[0]);
        assert(s.subrange(e.len() as int + 1, s.len() as int) =~= tail);
        lemma_decode_encode_list(ts.drop_first());
        assert(decode_list(s) == seq![ts[0]] + decode_list(tail));
        assert(seq![ts[0]] + ts.drop_first() =~= ts);
    }
}

/// Law: persisting a loaded list and loading it again yields the
/// same list, whatever bytes the first load was given.
pub proof fn lemma_save_load_stable(data: Seq<u8>)
    ensures
        decode_list(encode_list(decode_list(data))) == decode_list(data),
{
    lemma_decode_encode_list(decode_list(data));
}

/// The first line feed of `s` is exactly where the scan that found no
/// earlier one stopped.
pub proof fn lemma_first_nl_exact(s: Seq<u8>, m: int)
    requires
        0 <= m <= s.len(),
        forall|k: int| 0 <= k < m ==> s[k] != 0x0a,
        m < s.len() ==> s[m] == 0x0a,
    ensures
        first_nl(s) == m,
    decreases m,
{
    if m > 0 {
        assert(forall|k: int| 0 <= k < m - 1 ==> s.drop_first()[k] != 0x0a);
        lemma_first_nl_exact(s.drop_first(), m - 1);
    }
}

/// Encoding a list grows on the right, one line at a time.
pub proof fn lemma_encode_list_push(a: Seq<TaskModel>, x: TaskModel)
    ensures
        encode_list(a.push(x)) == encode_list(a) + encode_task(x) + seq![0x0au8],
    decreases a.len(),
{
    if a.len() == 0 {
        assert(a.push(x).drop_first() =~= Seq::<TaskModel>::empty());
        assert(a.push(x)[0] == x);
        assert(encode_list(Seq::<TaskModel>::empty()) == Seq::<u8>::empty());
        assert(encode_list(a) == Seq::<u8>::empty());
        assert(encode_list(a.push(x)) =~= encode_list(a) + encode_task(x) + seq![0x0au8]);
    } else {
        lemma_encode_list_push(a.drop_first(), x);
        assert(a.push(x).drop_first() =~= a.drop_first().push(x));
        assert(a.push(x)[0] == a[0]);
        assert(encode_list(a.push(x)) =~= encode_list(a) + encode_task(x) + seq![0x0au8]);
    }
}

// ---------------------------------------------------------------------
// Executable byte helpers
// ---------------------------------------------------------------------
/// Appends all of `data` to `out`.
#[verifier::loop_isolation(false)]
pub(crate) fn push_bytes(out: &mut Vec<u8>, data: &Vec<u8>)
    ensures
        final(out)@ == old(out)@ + data@,
{
    let n = data.len();
    let mut k: usize = 0;
    while k < n
        invariant
            k <= n,
            out@ == old(out)@ + data@.subrange(0, k as int),
        decreases n - k,
    {
        out.push(data[k]);
        proof {
            assert(out@ =~= old(out)@ + data@.subrange(0, k as int + 1));
        }
        k += 1;
    }
    proof {
        assert(data@.subrange(0, n as int) =~= data@);
    }
}

/// Copies the bytes of `s` from `from` to `to` into a fresh vector.
#[verifier::loop_isolation(false)]
pub(crate) fn subvec(s: &Vec<u8>, from: usize, to: usize) -> (r: Vec<u8>)
    requires
        from <= to <= s@.len(),
    ensures
        r@ == s@.subrange(from as int, to as int),
{
    let mut out: Vec<u8> = Vec::new();
    let mut k: usize = from;
    while k < to
        invariant
            from <= k <= to,
            out@ == s@.subrange(from as int, k as int),
        decreases to - k,
    {
        out.push(s[k]);
        proof {
            assert(out@ =~= s@.subrange(from as int, k as int + 1));
        }
        k += 1;
    }
    out
}

/// Tests whether the bytes of `lit` stand at position `i` of `s`.
#[verifier::loop_isolation(false)]
fn bytes_match(s: &Vec<u8>, i: usize, lit: &Vec<u8>) -> (r: bool)
    ensures
        r == match_at(s@, i as int, lit@),
{
    if i > s.len() || s.len() - i < lit.len() {
        return false;
    }
    let n = lit.len();
    let mut k: usize = 0;
    while k < n
        invariant
            k <= n,
            i + n <= s@.len(),
            forall|j: int| 0 <= j < k ==> s@[i + j] == lit@[j],
        decreases n - k,
    {
        if s[i + k] != lit[k] {
            proof {
                assert(s@.subrange(i as int, i + lit@.len())[k as int] == s@[i + k]);
            }
            return false;
        }
        k += 1;
    }
    proof {
        assert(s@.subrange(i as int, i + lit@.len()) =~= lit@);
    }
    true
}

/// The bytes of `{"id":` as a vector.
fn lit_id_vec() -> (v: Vec<u8>)
    ensures
        v@ == lit_id(),
{
    let mut v: Vec<u8> = Vec::new();
    v.push(0x7b);
    v.push(0x22);
    v.push(0x69);
    v.push(0x64);
    v.push(0x22);
    v.push(0x3a);
    proof {
        assert(v@ =~= lit_id());
    }
    v
}

/// The bytes of `,"content":"` as a vector.
fn lit_content_vec() -> (v: Vec<u8>)
    ensures
        v@ == lit_content(),
{
    let mut v: Vec<u8> = Vec::new();
    v.push(0x2c);
    v.push(0x22);
    v.push(0x63);
    v.push(0x6f);
    v.push(0x6e);
    v.push(0x74);
    v.push(0x65);
    v.push(0x6e);
    v.push(0x74);
    v.push(0x22);
    v.push(0x3a);
    v.push(0x22);
    proof {
        assert(v@ =~= lit_content());
    }
    v
}

/// The bytes of `,"date":"` as a vector.
fn lit_date_vec() -> (v: Vec<u8>)
    ensures
        v@ == lit_date(),
{
    let mut v: Vec<u8> = Vec::new();
    v.push(0x2c);
    v.push(0x22);
    v.push(0x64);
    v.push(0x61);
    v.push(0x74);
    v.push(0x65);
    v.push(0x22);
    v.push(0x3a);
    v.push(0x22);
    proof {
        assert(v@ =~= lit_date());
    }
    v
}

/// The bytes of `,"status":"` as a vector.
fn lit_status_vec() -> (v: Vec<u8>)
    ensures
        v@ == lit_status(),
{
    let mut v: Vec<u8> = Vec::new();
    v.push(0x2c);
    v.push(0x22);
    v.push(0x73);
    v.push(0x74);
    v.push(0x61);
    v.push(0x74);
    v.push(0x75);
    v.push(0x73);
    v.push(0x22);
    v.push(0x3a);
    v.push(0x22);
    proof {
        assert(v@ =~= lit_status());
    }
    v
}

/// The bytes of `undone` as a vector.
fn lit_undone_vec() -> (v: Vec<u8>)
    ensures
        v@ == lit_undone(),
{
    let mut v: Vec<u8> = Vec::new();
    v.push(0x75);
    v.push(0x6e);
    v.push(0x64);
    v.push(0x6f);
    v.push(0x6e);
    v.push(0x65);
    proof {
        assert(v@ =~= lit_undone());
    }
    v
}

/// The bytes of `done` as a vector.
fn lit_done_vec() -> (v: Vec<u8>)
    ensures
        v@ == lit_done(),
{
    let mut v: Vec<u8> = Vec::new();
    v.push(0x64);
    v.push(0x6f);
    v.push(0x6e);
    v.push(0x65);
    proof {
        assert(v@ =~= lit_done());
    }
    v
}

// ---------------------------------------------------------------------
// Executable encoding
// ---------------------------------------------------------------------
/// The hexadecimal digit for `n`, lower case.
fn hex_digit_of(n: u8) -> (r: u8)
    requires
        n < 16,
    ensures
        r == hex_digit(n as nat),
{
    if n < 10 {
        0x30 + n
    } else {
        0x57 + n
    }
}

proof fn lemma_escape_one(x: u8)
    ensures
        escape(seq![x]) == escape_byte(x),
{
    assert(seq![x].drop_first() =~= Seq::<u8>::empty());
    assert(escape(Seq::<u8>::empty()) =~= Seq::<u8>::empty());
    assert(escape(seq![x]) =~= escape_byte(x));
}

/// Escaping a text piece by piece is escaping it whole.
pub proof fn lemma_escape_append(a: Seq<u8>, b: Seq<u8>)
    ensures
        escape(a + b) == escape(a) + escape(b),
    decreases a.len(),
{
    if a.len() == 0 {
        assert(a + b =~= b);
        assert(escape(a) + escape(b) =~= escape(b));
    } else {
        lemma_escape_append(a.drop_first(), b);
        assert((a + b).drop_first() =~= a.drop_first() + b);
        assert((a + b)[0] == a[0]);
        assert(escape(a + b) =~= escape(a) + escape(b));
    }
}

/// Appends the stored form of the text `data` to `out`.
#[verifier::loop_isolation(false)]
fn push_escaped(out: &mut Vec<u8>, data: &Vec<u8>)
    ensures
        final(out)@ == old(out)@ + escape(data@),
{
    let n = data.len();
    let mut k: usize = 0;
    while k < n
        invariant
            k <= n,
            out@ == old(out)@ + escape(data@.subrange(0, k as int)),
        decreases n - k,
    {
        let ghost before = out@;
        let b = data[k];
        if b == 0x22 {
            out.push(0x5c);
            out.push(0x22);
        } else if b == 0x5c {
            out.push(0x5c);
            out.push(0x5c);
        } else if b == 0x08 {
            out.push(0x5c);
            out.push(0x62);
        } else if b == 0x09 {
            out.push(0x5c);
            out.push(0x74);
        } else if b == 0x0a {
            out.push(0x5c);
            out.push(0x6e);
        } else if b == 0x0c {
            out.push(0x5c);
            out.push(0x66);
        } else if b == 0x0d {
            out.push(0x5c);
            out.push(0x72);
        } else if b < 0x20 {
            out.push(0x5c);
            out.push(0x75);
            out.push(0x30);
            out.push(0x30);
            out.push(hex_digit_of(b / 16));
            out.push(hex_digit_of(b % 16));
        } else {
            out.push(b);
        }
        proof {
            assert(out@ =~= before + escape_byte(b));
            lemma_escape_append(data@.subrange(0, k as int), seq![b]);
            lemma_escape_one(b);
            assert(data@.subrange(0, k as int) + seq![b] =~= data@.subrange(0, k as int + 1));
            assert(out@ =~= old(out)@ + escape(data@.subrange(0, k as int + 1)));
        }
        k += 1;
    }
    proof {
        assert(data@.subrange(0, n as int) =~= data@);
    }
}

/// Renders one task as its stored line.
#[verifier::rlimit(100)]
pub fn render_task(t: &Task) -> (r: Vec<u8>)
    ensures
        r@ == encode_task(t.model()),
{
    let mut out: Vec<u8> = Vec::new();
    let lid = lit_id_vec();
    push_bytes(&mut out, &lid);
    push_dec(&mut out, t.id);
    let lcontent = lit_content_vec();
    push_bytes(&mut out, &lcontent);
    push_escaped(&mut out, &t.content);
    out.push(0x22);
    let ldate = lit_date_vec();
    push_bytes(&mut out, &ldate);
    push_escaped(&mut out, &t.date);
    out.push(0x22);
    let lstatus = lit_status_vec();
    push_bytes(&mut out, &lstatus);
    match t.status {
        Status::Undone => {
            let w = lit_undone_vec();
            push_bytes(&mut out, &w);
        },
        Status::Done => {
            let w = lit_done_vec();
            push_bytes(&mut out, &w);
        },
    }
    out.push(0x22);
    out.push(0x7d);
    proof {
        reveal(encode_task);
        assert(out@ =~= encode_task(t.model()));
    }
    out
}

// ---------------------------------------------------------------------
// Executable parsing
// ---------------------------------------------------------------------
/// The byte a short escape stands for, if the letter names one.
fn unescape_of(e: u8) -> (r: Option<u8>)
    ensures
        r == unescape_byte(e),
{
    if e == 0x22 {
        Some(0x22)
    } else if e == 0x5c {
        Some(0x5c)
    } else if e == 0x2f {
        Some(0x2f)
    } else if e == 0x62 {
        Some(0x08)
    } else if e == 0x66 {
        Some(0x0c)
    } else if e == 0x6e {
        Some(0x0a)
    } else if e == 0x72 {
        Some(0x0d)
    } else if e == 0x74 {
        Some(0x09)
    } else {
        None
    }
}

/// Tests for a hexadecimal digit.
fn check_hex(b: u8) -> (r: bool)
    ensures
        r == is_hex(b),
{
    (b >= 0x30 && b <= 0x39) || (b >= 0x61 && b <= 0x66) || (b >= 0x41 && b <= 0x46)
}

/// The value of a hexadecimal digit.
fn hex_val_of(b: u8) -> (r: u8)
    requires
        is_hex(b),
    ensures
        r as nat == hex_val(b),
        r < 16,
{
    if b >= 0x61 {
        b - 0x57
    } else if b >= 0x41 {
        b - 0x37
    } else {
        b - 0x30
    }
}

/// Reads a stored string at position `i` of `s`, as `parse_string_at`
/// describes it.
fn parse_string(s: &Vec<u8>, i: usize) -> (r: Option<(Vec<u8>, usize)>)
    requires
        i <= s@.len(),
    ensures
        match r {
            Some(p) => {
                &&& parse_string_at(s@, i as int) == Some((p.0@, p.1 as int))
                &&& i < p.1 <= s@.len()
            },
            None => parse_string_at(s@, i as int) is None,
        },
    decreases s@.len() - i,
{
    if i >= s.len() {
        return None;
    }
    let b = s[i];
    if b == 0x22 {
        return Some((Vec::new(), i + 1));
    }
    if b == 0x5c {
        if i + 1 >= s.len() {
            return None;
        }
        let e = s[i + 1];
        if e == 0x75 {
            if s.len() - i < 6 {
                return None;
            }
            if !(s[i + 2] == 0x30 && s[i + 3] == 0x30) {
                return None;
            }
            let h1 = s[i + 4];
            let h2 = s[i + 5];
            if !check_hex(h1) || !check_hex(h2) {
                return None;
            }
            let v: u8 = hex_val_of(h1) * 16 + hex_val_of(h2);
            match parse_string(s, i + 6) {
                Some((mut rest, end)) => {
                    rest.insert(0, v);
                    proof {
                        let q = parse_string_at(s@, i as int + 6);
                        assert(rest@ =~= seq![v] + q.unwrap().0);
                    }
                    Some((rest, end))
                },
                None => None,
            }
        } else {
            match unescape_of(e) {
                Some(v) => match parse_string(s, i + 2) {
                    Some((mut rest, end)) => {
                        rest.insert(0, v);
                        proof {
                            let q = parse_string_at(s@, i as int + 2);
                            assert(rest@ =~= seq![v] + q.unwrap().0);
                        }
                        Some((rest, end))
                    },
                    None => None,
                },
                None => None,
            }
        }
    } else if b < 0x20 {
        None
    } else {
        match parse_string(s, i + 1) {
            Some((mut rest, end)) => {
                rest.insert(0, b);
                proof {
                    let q = parse_string_at(s@, i as int + 1);
                    assert(rest@ =~= seq![b] + q.unwrap().0);
                }
                Some((rest, end))
            },
            None => None,
        }
    }
}

/// The status a stored word stands for.
fn word_to_status(w: &Vec<u8>) -> (r: Option<Status>)
    ensures
        r == word_status(w@),
{
    let lu = lit_undone_vec();
    let ld = lit_done_vec();
    if w.len() == lu.len() && bytes_match(w, 0, &lu) {
        proof {
            assert(w@.subrange(0, w@.len() as int) =~= w@);
        }
        Some(Status::Undone)
    } else if w.len() == ld.len() && bytes_match(w, 0, &ld) {
        proof {
            assert(w@.subrange(0, w@.len() as int) =~= w@);
        }
        Some(Status::Done)
    } else {
        proof {
            if w@ == lit_undone() {
                assert(w@.subrange(0, w@.len() as int) =~= w@);
            }
            if w@ == lit_done() {
                assert(w@.subrange(0, w@.len() as int) =~= w@);
            }
        }
        None
    }
}

/// Reads one line as a task, as `decode_task` describes it.
pub fn parse_task(line: &Vec<u8>) -> (r: Option<Task>)
    ensures
        match r {
            Some(t) => decode_task(line@) == Some(t.model()),
            None => decode_task(line@) is None,
        },
{
    proof {
        reveal(decode_task);
    }
    let n = line.len();
    let lid = lit_id_vec();
    if !bytes_match(line, 0, &lid) {
        return None;
    }
    let (id, a) = match parse_u32(line, 6) {
        Some(p) => p,
        None => {
            return None;
        },
    };
    let lcontent = lit_content_vec();
    if !bytes_match(line, a, &lcontent) {
        return None;
    }
    proof {
        assert(lit_content().len() == 12);
    }
    let (content, b2) = match parse_string(line, a + 12) {
        Some(p) => p,
        None => {
            return None;
        },
    };
    let ldate = lit_date_vec();
    if !bytes_match(line, b2, &ldate) {
        return None;
    }
    proof {
        assert(lit_date().len() == 9);
    }
    let (date, c) = match parse_string(line, b2 + 9) {
        Some(p) => p,
        None => {
            return None;
        },
    };
    let lstatus = lit_status_vec();
    if !bytes_match(line, c, &lstatus) {
        return None;
    }
    proof {
        assert(lit_status().len() == 11);
    }
    let (w, d) = match parse_string(line, c + 11) {
        Some(p) => p,
        None => {
            return None;
        },
    };
    let st = match word_to_status(&w) {
        Some(st) => st,
        None => {
            return None;
        },
    };
    if d == n - 1 && line[d] == 0x7d {
        let t = Task { id, content, date, status: st };
        proof {
            assert(decode_task(line@) == Some(t.model()));
        }
        Some(t)
    } else {
        None
    }
}

} // verus!
