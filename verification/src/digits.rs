//! Decimal text: the value of a run of ASCII digits, the canonical
//! decimal rendering of a number, and verified readers and writers for
//! both.  Shared by the record codec and the id allocator.

use vstd::arithmetic::div_mod::lemma_fundamental_div_mod;
use vstd::prelude::*;

verus! {

/// `b` is an ASCII decimal digit.
pub open spec fn is_digit(b: u8) -> bool {
    0x30 <= b <= 0x39
}

/// Every byte of `d` is an ASCII decimal digit.
pub open spec fn all_digits(d: Seq<u8>) -> bool {
    forall|i: int| 0 <= i < d.len() ==> is_digit(#[trigger] d[i])
}

/// The number a run of digits denotes, most significant first.
pub open spec fn digits_val(d: Seq<u8>) -> nat
    decreases d.len(),
{
    if d.len() == 0 {
        0
    } else {
        digits_val(d.drop_last()) * 10 + (d.last() - 0x30) as nat
    }
}

/// The canonical decimal rendering of `n`: no sign, no leading zeros.
pub open spec fn dec_repr(n: nat) -> Seq<u8>
    decreases n,
{
    if n < 10 {
        seq![(0x30 + n) as u8]
    } else {
        dec_repr(n / 10) + seq![(0x30 + n % 10) as u8]
    }
}

/// The length of the digit run of `s` that starts at `i`.
pub open spec fn digit_run_len(s: Seq<u8>, i: int) -> nat
    decreases s.len() - i,
{
    if 0 <= i < s.len() && is_digit(s[i]) {
        (1 + digit_run_len(s, i + 1)) as nat
    } else {
        0
    }
}

/// Reading an unsigned number at position `i` of `s`: the digit run
/// starting there must be non-empty and denote a value that fits in a
/// `u32`; the position after the run is returned beside the value.
pub open spec fn parse_u32_at(s: Seq<u8>, i: int) -> Option<(u32, int)> {
    let n = digit_run_len(s, i) as int;
    if n == 0 {
        None
    } else {
        let v = digits_val(s.subrange(i, i + n));
        if v <= u32::MAX {
            Some(((v as u32), i + n))
        } else {
            None
        }
    }
}

/// The canonical rendering is a non-empty run of digits.
pub proof fn lemma_dec_repr_digits(n: nat)
    ensures
        dec_repr(n).len() >= 1,
        all_digits(dec_repr(n)),
    decreases n,
{
    if n >= 10 {
        lemma_dec_repr_digits(n / 10);
    }
}

/// Reading back the canonical rendering gives the number again.
pub proof fn lemma_digits_val_dec_repr(n: nat)
    ensures
        digits_val(dec_repr(n)) == n,
    decreases n,
{
    if n < 10 {
        assert(dec_repr(n).drop_last() =~= Seq::<u8>::empty());
        assert(dec_repr(n).last() == (0x30 + n) as u8);
        assert(digits_val(dec_repr(n)) == digits_val(Seq::<u8>::empty()) * 10 + ((0x30 + n) as u8
            - 0x30) as nat);
    } else {
        lemma_digits_val_dec_repr(n / 10);
        assert(dec_repr(n).drop_last() =~= dec_repr(n / 10));
        assert(dec_repr(n).last() == (0x30 + n % 10) as u8);
        assert(digits_val(dec_repr(n)) == (n / 10) * 10 + n % 10);
        lemma_fundamental_div_mod(n as int, 10);
    }
}

/// The digit run starting at `i` ends exactly at the first non-digit.
pub proof fn lemma_digit_run_exact(s: Seq<u8>, i: int, j: int)
    requires
        0 <= i <= j <= s.len(),
        forall|k: int| i <= k < j ==> is_digit(#[trigger] s[k]),
        j < s.len() ==> !is_digit(s[j]),
    ensures
        digit_run_len(s, i) == j - i,
    decreases j - i,
{
    if i < j {
        lemma_digit_run_exact(s, i + 1, j);
    }
}

/// Extending a digit run on the right cannot shrink its value.
pub proof fn lemma_digits_val_prefix(d: Seq<u8>, e: Seq<u8>)
    ensures
        digits_val(d + e) >= digits_val(d),
    decreases e.len(),
{
    if e.len() == 0 {
        assert(d + e =~= d);
    } else {
        lemma_digits_val_prefix(d, e.drop_last());
        assert((d + e).drop_last() =~= d + e.drop_last());
        assert(digits_val(d + e) == digits_val(d + e.drop_last()) * 10 + ((d + e).last()
            - 0x30) as nat);
    }
}

/// Appends the canonical decimal rendering of `n` to `out`.
pub(crate) fn push_dec(out: &mut Vec<u8>, n: u32)
    ensures
        final(out)@ == old(out)@ + dec_repr(n as nat),
    decreases n,
{
    if n < 10 {
        out.push(0x30 + n as u8);
        assert(out@ =~= old(out)@ + dec_repr(n as nat));
    } else {
        push_dec(out, n / 10);
        out.push(0x30 + (n % 10) as u8);
        assert(out@ =~= old(out)@ + dec_repr(n as nat));
    }
}

/// Reads an unsigned number at position `i` of `s`, as `parse_u32_at`
/// describes it.
pub(crate) fn parse_u32(s: &Vec<u8>, i: usize) -> (r: Option<(u32, usize)>)
    requires
        i <= s@.len(),
    ensures
        match r {
            Some(p) => {
                &&& parse_u32_at(s@, i as int) == Some((p.0, p.1 as int))
                &&& i < p.1 <= s@.len()
            },
            None => parse_u32_at(s@, i as int) is None,
        },
{
    let ghost gs = s@;
    let n = s.len();
    let mut j: usize = i;
    let mut acc: u64 = 0;
    let mut over: bool = false;
    while j < n && s[j] >= 0x30 && s[j] <= 0x39
        invariant
            i <= j <= n,
            n == gs.len(),
            gs == s@,
            forall|k: int| i <= k < j ==> is_digit(#[trigger] gs[k]),
            !over ==> acc == digits_val(gs.subrange(i as int, j as int)) && acc <= u32::MAX,
            over ==> digits_val(gs.subrange(i as int, j as int)) > u32::MAX,
        decreases n - j,
    {
        let ghost pre = gs.subrange(i as int, j as int);
        let ghost cur = gs.subrange(i as int, j as int + 1);
        proof {
            assert(cur.drop_last() =~= pre);
            assert(digits_val(cur) == digits_val(pre) * 10 + (gs[j as int] - 0x30) as nat);
        }
        let d = (s[j] - 0x30) as u64;
        if !over {
            let next = acc * 10 + d;
            if next > u32::MAX as u64 {
                over = true;
            }
            acc = next;
        }
        j += 1;
    }
    proof {
        lemma_digit_run_exact(gs, i as int, j as int);
    }
    if j == i {
        None
    } else if over {
        None
    } else {
        Some((acc as u32, j))
    }
}

} // verus!
