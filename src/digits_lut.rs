use vstd::prelude::*;
use crate::decimal::{
    ascii_digit,
    decimal,
    lemma_decimal_exact,
    lemma_decimal_len,
    lemma_decimal_split,
    lemma_padded_len,
    lemma_padded_split,
    lemma_pow10_values,
    padded,
    pow10,
};

verus! {

broadcast use lemma_padded_len;

/// The two ASCII digits of every value in `0..100`, "00" to "99", one pair after
/// the other: the digits of `v` stand at offsets `2 * v` and `2 * v + 1`.
pub const DIGITS_LUT: [u8; 200] = [
    48, 48, 48, 49, 48, 50, 48, 51, 48, 52, 48, 53, 48, 54, 48, 55, 48, 56, 48, 57,
    49, 48, 49, 49, 49, 50, 49, 51, 49, 52, 49, 53, 49, 54, 49, 55, 49, 56, 49, 57,
    50, 48, 50, 49, 50, 50, 50, 51, 50, 52, 50, 53, 50, 54, 50, 55, 50, 56, 50, 57,
    51, 48, 51, 49, 51, 50, 51, 51, 51, 52, 51, 53, 51, 54, 51, 55, 51, 56, 51, 57,
    52, 48, 52, 49, 52, 50, 52, 51, 52, 52, 52, 53, 52, 54, 52, 55, 52, 56, 52, 57,
    53, 48, 53, 49, 53, 50, 53, 51, 53, 52, 53, 53, 53, 54, 53, 55, 53, 56, 53, 57,
    54, 48, 54, 49, 54, 50, 54, 51, 54, 52, 54, 53, 54, 54, 54, 55, 54, 56, 54, 57,
    55, 48, 55, 49, 55, 50, 55, 51, 55, 52, 55, 53, 55, 54, 55, 55, 55, 56, 55, 57,
    56, 48, 56, 49, 56, 50, 56, 51, 56, 52, 56, 53, 56, 54, 56, 55, 56, 56, 56, 57,
    57, 48, 57, 49, 57, 50, 57, 51, 57, 52, 57, 53, 57, 54, 57, 55, 57, 56, 57, 57,
];

/// The table entries for `r` are the two digits of `r`.
pub open spec fn entry_ok(r: nat) -> bool {
    DIGITS_LUT@[2 * r as int] == ascii_digit(r / 10) && DIGITS_LUT@[2 * r as int + 1]
        == ascii_digit(r % 10)
}

/// Every entry from `lo` up to, not including, `lo + n` is right.
pub open spec fn entries_ok(lo: nat, n: nat) -> bool
    decreases n,
{
    if n == 0 {
        true
    } else {
        entry_ok((lo + n - 1) as nat) && entries_ok(lo, (n - 1) as nat)
    }
}

proof fn lemma_entries_ok_within(lo: nat, n: nat, r: nat)
    requires
        entries_ok(lo, n),
        lo <= r < lo + n,
    ensures
        entry_ok(r),
    decreases n,
{
    if r + 1 < lo + n {
        lemma_entries_ok_within(lo, (n - 1) as nat, r);
    }
}

/// The table holds the two digits of `r` at `2 * r` and `2 * r + 1`.
pub proof fn lemma_lut_pair(r: nat)
    requires
        r < 100,
    ensures
        DIGITS_LUT@[2 * r as int] == ascii_digit(r / 10),
        DIGITS_LUT@[2 * r as int + 1] == ascii_digit(r % 10),
        padded(r, 2) == seq![DIGITS_LUT@[2 * r as int], DIGITS_LUT@[2 * r as int + 1]],
{
    if r < 25 {
        assert(entries_ok(0, 25)) by {
            reveal_with_fuel(entries_ok, 26);
        }
        lemma_entries_ok_within(0, 25, r);
    } else if r < 50 {
        assert(entries_ok(25, 25)) by {
            reveal_with_fuel(entries_ok, 26);
        }
        lemma_entries_ok_within(25, 25, r);
    } else if r < 75 {
        assert(entries_ok(50, 25)) by {
            reveal_with_fuel(entries_ok, 26);
        }
        lemma_entries_ok_within(50, 25, r);
    } else {
        assert(entries_ok(75, 25)) by {
            reveal_with_fuel(entries_ok, 26);
        }
        lemma_entries_ok_within(75, 25, r);
    }
    reveal_with_fuel(padded, 3);
    assert(padded(r, 2) =~= seq![ascii_digit(r / 10), ascii_digit(r % 10)]);
}

/// `new` is `old` with `s` written at `pos` and every other byte kept.
pub open spec fn written(old: Seq<u8>, new: Seq<u8>, pos: int, s: Seq<u8>) -> bool {
    &&& 0 <= pos
    &&& pos + s.len() <= old.len()
    &&& new.len() == old.len()
    &&& new.subrange(pos, pos + s.len()) == s
    &&& forall|i: int| 0 <= i < old.len() && !(pos <= i < pos + s.len()) ==> new[i] == old[i]
}

/// Two writes side by side are one write of both texts.
pub proof fn lemma_written_concat(a: Seq<u8>, b: Seq<u8>, c: Seq<u8>, pos: int, s: Seq<u8>, t: Seq<u8>)
    requires
        written(a, b, pos, s),
        written(b, c, pos + s.len(), t),
    ensures
        written(a, c, pos, s + t),
{
    assert(c.subrange(pos, pos + s.len()) =~= b.subrange(pos, pos + s.len()));
    assert(c.subrange(pos, pos + (s + t).len()) =~= s + t);
}

/// Writes the two digits of `r` at `pos`.
pub fn write_pair<const N: usize>(buf: &mut [u8; N], pos: usize, r: u32)
    requires
        r < 100,
        pos + 2 <= N,
    ensures
        written(old(buf)@, final(buf)@, pos as int, padded(r as nat, 2)),
{
    proof {
        lemma_lut_pair(r as nat);
    }
    let i = (r as usize) * 2;
    buf[pos] = DIGITS_LUT[i];
    buf[pos + 1] = DIGITS_LUT[i + 1];
    assert(buf@.subrange(pos as int, pos + 2) =~= padded(r as nat, 2));
}

/// Writes the four digits of `r` at `pos`, leading zeros included.
pub fn write_4<const N: usize>(buf: &mut [u8; N], pos: usize, r: u32)
    requires
        r < 10000,
        pos + 4 <= N,
    ensures
        written(old(buf)@, final(buf)@, pos as int, padded(r as nat, 4)),
{
    let ghost b0 = buf@;
    write_pair(buf, pos, r / 100);
    let ghost b1 = buf@;
    write_pair(buf, pos + 2, r % 100);
    proof {
        lemma_written_concat(b0, b1, buf@, pos as int, padded((r / 100) as nat, 2), padded((r % 100) as nat, 2));
        lemma_pow10_values();
        lemma_padded_split((r / 100) as nat, (r % 100) as nat, 2, 2);
        assert(((r / 100) as nat) * pow10(2) + (r % 100) as nat == r);
    }
}

/// Writes the eight digits of `r` at `pos`, leading zeros included.
pub fn write_8<const N: usize>(buf: &mut [u8; N], pos: usize, r: u32)
    requires
        r < 100000000,
        pos + 8 <= N,
    ensures
        written(old(buf)@, final(buf)@, pos as int, padded(r as nat, 8)),
{
    let ghost b0 = buf@;
    write_4(buf, pos, r / 10000);
    let ghost b1 = buf@;
    write_4(buf, pos + 4, r % 10000);
    proof {
        lemma_written_concat(b0, b1, buf@, pos as int, padded((r / 10000) as nat, 4), padded((r % 10000) as nat, 4));
        lemma_pow10_values();
        lemma_padded_split((r / 10000) as nat, (r % 10000) as nat, 4, 4);
        assert(((r / 10000) as nat) * pow10(4) + (r % 10000) as nat == r);
    }
}

/// A leading part written as `decimal(q)` followed by the `k` digits of `r` is the
/// decimal text of `q * 10^k + r`.
pub proof fn lemma_append_chunk(a: Seq<u8>, b: Seq<u8>, c: Seq<u8>, pos: int, q: nat, r: nat, k: nat)
    requires
        written(a, b, pos, decimal(q)),
        written(b, c, pos + decimal(q).len(), padded(r, k)),
        q >= 1,
        r < pow10(k),
    ensures
        written(a, c, pos, decimal(q * pow10(k) + r)),
        decimal(q * pow10(k) + r).len() == decimal(q).len() + k,
{
    lemma_written_concat(a, b, c, pos, decimal(q), padded(r, k));
    lemma_decimal_split(q, r, k);
}

/// Writes the one or two digits of `r` at `pos`, with no leading zero.
pub fn write_begin2<const N: usize>(buf: &mut [u8; N], pos: usize, r: u32) -> (end: usize)
    requires
        r < 100,
        pos + 2 <= N,
    ensures
        written(old(buf)@, final(buf)@, pos as int, decimal(r as nat)),
        end == pos + decimal(r as nat).len(),
        end <= pos + 2,
{
    proof {
        lemma_pow10_values();
        lemma_decimal_len(r as nat, 2);
    }
    if r < 10 {
        buf[pos] = r as u8 + 48;
        proof {
            lemma_decimal_exact(r as nat, 1);
            assert(buf@.subrange(pos as int, pos + 1) =~= padded(r as nat, 1));
        }
        pos + 1
    } else {
        write_pair(buf, pos, r);
        proof {
            lemma_decimal_exact(r as nat, 2);
        }
        pos + 2
    }
}

/// `new` keeps the first `pos` bytes of `old` and holds `s` right after them;
/// what follows may have changed.
pub open spec fn appended(old: Seq<u8>, new: Seq<u8>, pos: int, s: Seq<u8>) -> bool {
    &&& 0 <= pos
    &&& pos + s.len() <= old.len()
    &&& new.len() == old.len()
    &&& new.subrange(0, pos) == old.subrange(0, pos)
    &&& new.subrange(pos, pos + s.len()) == s
}

pub proof fn lemma_written_appended(a: Seq<u8>, b: Seq<u8>, pos: int, s: Seq<u8>)
    requires
        written(a, b, pos, s),
    ensures
        appended(a, b, pos, s),
{
    assert(b.subrange(0, pos) =~= a.subrange(0, pos));
}

/// `new` differs from `old` at most in `[lo, hi)`.
pub open spec fn kept_outside(old: Seq<u8>, new: Seq<u8>, lo: int, hi: int) -> bool {
    &&& new.len() == old.len()
    &&& forall|i: int| 0 <= i < old.len() && !(lo <= i < hi) ==> new[i] == old[i]
}

/// A lead that may have scribbled up to `hi`, followed by an exact write that
/// reaches at least `hi`, is an exact write of both texts.
pub proof fn lemma_lead_then_written(
    a: Seq<u8>,
    b: Seq<u8>,
    c: Seq<u8>,
    pos: int,
    s: Seq<u8>,
    t: Seq<u8>,
    hi: int,
)
    requires
        appended(a, b, pos, s),
        kept_outside(a, b, pos, hi),
        hi <= pos + s.len() + t.len(),
        written(b, c, pos + s.len(), t),
    ensures
        written(a, c, pos, s + t),
{
    assert forall|i: int| 0 <= i < pos + s.len() implies c[i] == b[i] by {
        if i < pos {
        } else {
            assert(b.subrange(pos, pos + s.len())[i - pos] == b[i]);
        }
    }
    assert(c.subrange(pos, pos + s.len()) =~= b.subrange(pos, pos + s.len()));
    assert(c.subrange(pos, pos + (s + t).len()) =~= s + t);
}

} // verus!
