//! The id allocator: the persisted counter file holds one decimal
//! integer, optionally followed by a line terminator.  Absent or
//! unparseable content counts as zero; minting an id is a pure
//! read-modify-write on the file's bytes.

use crate::digits::{
    all_digits, dec_repr, digits_val, lemma_dec_repr_digits, lemma_digits_val_dec_repr,
    push_dec,
};
use vstd::prelude::*;

verus! {

/// `b` is ASCII whitespace: space, tab, line feed, vertical tab, form
/// feed or carriage return.
pub open spec fn is_ws(b: u8) -> bool {
    b == 0x20 || (0x09 <= b <= 0x0d)
}

/// `s` without its leading whitespace.
pub open spec fn trim_front(s: Seq<u8>) -> Seq<u8>
    decreases s.len(),
{
    if s.len() > 0 && is_ws(s[0]) {
        trim_front(s.drop_first())
    } else {
        s
    }
}

/// `s` without its trailing whitespace.
pub open spec fn trim_back(s: Seq<u8>) -> Seq<u8>
    decreases s.len(),
{
    if s.len() > 0 && is_ws(s.last()) {
        trim_back(s.drop_last())
    } else {
        s
    }
}

/// `s` without leading and trailing whitespace.
pub open spec fn trimmed(s: Seq<u8>) -> Seq<u8> {
    trim_back(trim_front(s))
}

/// The counter value the stored bytes denote: their trimmed text read
/// as a decimal `u32`, or zero if that text is empty, holds a
/// non-digit, or does not fit.
pub open spec fn counter_of(s: Seq<u8>) -> u32 {
    let d = trimmed(s);
    if d.len() > 0 && all_digits(d) && digits_val(d) <= u32::MAX {
        digits_val(d) as u32
    } else {
        0
    }
}

/// The stored form the allocator writes for a counter value: its
/// decimal rendering and a line feed.
pub open spec fn encode_counter(id: u32) -> Seq<u8> {
    dec_repr(id as nat) + seq![0x0au8]
}

proof fn lemma_trim_front_exact(s: Seq<u8>, k: int)
    requires
        0 <= k <= s.len(),
        forall|j: int| 0 <= j < k ==> is_ws(#[trigger] s[j]),
        k < s.len() ==> !is_ws(s[k]),
    ensures
        trim_front(s) == s.subrange(k, s.len() as int),
    decreases k,
{
    if k == 0 {
        assert(s.subrange(0, s.len() as int) =~= s);
    } else {
        lemma_trim_front_exact(s.drop_first(), k - 1);
        assert(s.drop_first().subrange(k - 1, s.drop_first().len() as int) =~= s.subrange(
            k,
            s.len() as int,
        ));
    }
}

proof fn lemma_trim_back_exact(s: Seq<u8>, k: int)
    requires
        0 <= k <= s.len(),
        forall|j: int| k <= j < s.len() ==> is_ws(#[trigger] s[j]),
        k > 0 ==> !is_ws(s[k - 1]),
    ensures
        trim_back(s) == s.subrange(0, k),
    decreases s.len() - k,
{
    if k == s.len() {
        if s.len() > 0 && is_ws(s.last()) {
            lemma_trim_back_exact(s.drop_last(), s.len() - 1);
            assert(s.drop_last().subrange(0, s.len() - 1) =~= s.subrange(0, s.len() - 1));
            assert(s.drop_last() =~= s.subrange(0, s.len() - 1));
        } else {
            assert(s.subrange(0, s.len() as int) =~= s);
        }
    } else {
        lemma_trim_back_exact(s.drop_last(), k);
        assert(s.drop_last() =~= s.subrange(0, s.len() - 1));
        assert(s.drop_last().subrange(0, k) =~= s.subrange(0, k));
    }
}

/// Reading back the stored form of a counter value gives that value.
pub proof fn lemma_counter_roundtrip(id: u32)
    ensures
        counter_of(encode_counter(id)) == id,
{
    let s = encode_counter(id);
    lemma_dec_repr_digits(id as nat);
    lemma_digits_val_dec_repr(id as nat);
    assert(!is_ws(s[0]));
    lemma_trim_front_exact(s, 0);
    assert(trim_front(s) =~= s);
    lemma_trim_back_exact(s, s.len() - 1);
    assert(s.subrange(0, s.len() - 1) =~= dec_repr(id as nat));
    assert(trimmed(s) == dec_repr(id as nat));
}

/// Reads the stored counter bytes, as `counter_of` describes them.
#[verifier::loop_isolation(false)]
pub fn parse_counter(s: &Vec<u8>) -> (r: u32)
    ensures
        r == counter_of(s@),
{
    let ghost gs = s@;
    let n = s.len();
    let mut lo: usize = 0;
    while lo < n && (s[lo] == 0x20 || (s[lo] >= 0x09 && s[lo] <= 0x0d))
        invariant
            0 <= lo <= n,
            n == gs.len(),
            gs == s@,
            forall|j: int| 0 <= j < lo ==> is_ws(#[trigger] gs[j]),
        decreases n - lo,
    {
        lo += 1;
    }
    proof {
        lemma_trim_front_exact(gs, lo as int);
    }
    let mut hi: usize = n;
    while hi > lo && (s[hi - 1] == 0x20 || (s[hi - 1] >= 0x09 && s[hi - 1] <= 0x0d))
        invariant
            lo <= hi <= n,
            n == gs.len(),
            gs == s@,
            forall|j: int| hi <= j < n ==> is_ws(#[trigger] gs[j]),
        decreases hi,
    {
        hi -= 1;
    }
    let ghost front = gs.subrange(lo as int, n as int);
    proof {
        lemma_trim_back_exact(front, hi - lo);
        assert(front.subrange(0, hi - lo) =~= gs.subrange(lo as int, hi as int));
        assert(forall|j: int| (hi - lo) <= j < front.len() ==> is_ws(#[trigger] front[j]));
        assert(trimmed(gs) == gs.subrange(lo as int, hi as int));
    }
    let ghost d = gs.subrange(lo as int, hi as int);
    if hi == lo {
        return 0;
    }
    let mut k: usize = lo;
    let mut acc: u64 = 0;
    while k < hi
        invariant
            lo <= k <= hi <= n,
            n == gs.len(),
            gs == s@,
            d == gs.subrange(lo as int, hi as int),
            all_digits(gs.subrange(lo as int, k as int)),
            acc == digits_val(gs.subrange(lo as int, k as int)),
            acc <= u32::MAX,
        decreases hi - k,
    {
        let b = s[k];
        if b < 0x30 || b > 0x39 {
            proof {
                assert(d[k - lo] == gs[k as int]);
                assert(!all_digits(d));
            }
            return 0;
        }
        let ghost pre = gs.subrange(lo as int, k as int);
        let ghost cur = gs.subrange(lo as int, k as int + 1);
        proof {
            assert(cur.drop_last() =~= pre);
            assert(digits_val(cur) == digits_val(pre) * 10 + (gs[k as int] - 0x30) as nat);
        }
        let next = acc * 10 + (b - 0x30) as u64;
        if next > u32::MAX as u64 {
            proof {
                crate::digits::lemma_digits_val_prefix(cur, gs.subrange(k as int + 1, hi as int));
                assert(cur + gs.subrange(k as int + 1, hi as int) =~= d);
                assert(digits_val(d) > u32::MAX);
            }
            return 0;
        }
        acc = next;
        k += 1;
    }
    proof {
        assert(gs.subrange(lo as int, k as int) =~= d);
    }
    acc as u32
}

/// Mints the next id from the stored counter bytes: one more than the
/// stored value, together with the bytes to persist in its place.
/// `None` only when the counter has reached the largest `u32`.
pub fn next_id(stored: &Vec<u8>) -> (r: Option<(u32, Vec<u8>)>)
    ensures
        match r {
            Some(p) => {
                &&& counter_of(stored@) < u32::MAX
                &&& p.0 == counter_of(stored@) + 1
                &&& p.1@ == encode_counter(p.0)
                &&& counter_of(p.1@) == p.0
            },
            None => counter_of(stored@) == u32::MAX,
        },
{
    let cur = parse_counter(stored);
    if cur == u32::MAX {
        return None;
    }
    let id = cur + 1;
    let mut out: Vec<u8> = Vec::new();
    push_dec(&mut out, id);
    out.push(0x0a);
    proof {
        assert(out@ =~= encode_counter(id));
        lemma_counter_roundtrip(id);
    }
    Some((id, out))
}

/// The bytes that reset the stored counter: empty content, which
/// `counter_of` reads as zero, so the next minted id is 1 again.
pub fn reset() -> (r: Vec<u8>)
    ensures
        r@ == Seq::<u8>::empty(),
        counter_of(r@) == 0,
{
    Vec::new()
}

/// Law: minting is monotonic across invocations.  From any stored
/// state below the ceiling, the minted id exceeds the stored value,
/// persisting it stores exactly that id, and the id minted from the
/// new state in turn exceeds it.
pub proof fn lemma_alloc_monotonic(stored: Seq<u8>)
    requires
        counter_of(stored) < u32::MAX,
    ensures
        ({
            let id = (counter_of(stored) + 1) as u32;
            &&& id > counter_of(stored)
            &&& counter_of(encode_counter(id)) == id
            &&& id < u32::MAX ==> (counter_of(encode_counter(id)) + 1) as u32 > id
        }),
{
    lemma_counter_roundtrip((counter_of(stored) + 1) as u32);
}

} // verus!
