use vstd::prelude::*;
use crate::decimal::{
    decimal,
    lemma_decimal_exact,
    lemma_decimal_split,
    lemma_decimal_len,
    lemma_padded_len,
    lemma_padded_split,
    lemma_pow10_values,
    padded,
};
use crate::digits_lut::{
    appended,
    kept_outside,
    lemma_append_chunk,
    lemma_lead_then_written,
    lemma_lut_pair,
    lemma_written_appended,
    lemma_written_concat,
    write_pair,
    written,
    DIGITS_LUT,
};
use crate::fixed_point::{lemma_div100_u32, lemma_div10000_small_u64, lemma_div10000_u64};
use crate::numstr::NumStr;

verus! {

broadcast use lemma_padded_len;

/// The larger of two integers.
pub open spec fn max_int(a: int, b: int) -> int {
    if a > b {
        a
    } else {
        b
    }
}

/// Copies the two table bytes at `idx` to `pos`.
fn byte_copy_2(buf: &mut [u8; 20], pos: usize, idx: usize)
    requires
        pos + 2 <= 20,
        idx + 2 <= 200,
    ensures
        final(buf)@ == old(buf)@.update(pos as int, DIGITS_LUT@[idx as int]).update(
            pos + 1,
            DIGITS_LUT@[idx + 1],
        ),
{
    buf[pos] = DIGITS_LUT[idx];
    buf[pos + 1] = DIGITS_LUT[idx + 1];
}

/// Writes the one or two digits of `aa` by copying a whole pair from the table,
/// starting one byte further in when `aa` has one digit; the byte after the text
/// may be overwritten.
fn write_lead(buf: &mut [u8; 20], pos: usize, aa: u32) -> (end: usize)
    requires
        aa < 100,
        pos + 2 <= 20,
    ensures
        appended(old(buf)@, final(buf)@, pos as int, decimal(aa as nat)),
        kept_outside(old(buf)@, final(buf)@, pos as int, pos + 2),
        end == pos + decimal(aa as nat).len(),
        end <= pos + 2,
{
    proof {
        lemma_pow10_values();
        lemma_lut_pair(aa as nat);
    }
    let lz: usize = if aa < 10 {
        1
    } else {
        0
    };
    byte_copy_2(buf, pos, aa as usize * 2 + lz);
    proof {
        reveal_with_fuel(padded, 2);
        if aa < 10 {
            lemma_decimal_exact(aa as nat, 1);
            assert(buf@.subrange(pos as int, pos + 1) =~= padded(aa as nat, 1));
        } else {
            lemma_decimal_exact(aa as nat, 2);
            assert(buf@.subrange(pos as int, pos + 2) =~= padded(aa as nat, 2));
        }
        assert(buf@.subrange(0, pos as int) =~= old(buf)@.subrange(0, pos as int));
    }
    pos + 2 - lz
}

/// Exactly eight digits.
fn itoa_u64_impl_len_8(val: u32, buf: &mut [u8; 20], pos: usize) -> (end: usize)
    requires
        val < 100000000,
        pos + 8 <= 20,
    ensures
        written(old(buf)@, final(buf)@, pos as int, padded(val as nat, 8)),
        end == pos + 8,
{
    proof {
        lemma_div10000_u64(val as u64);
    }
    let aabb = ((val as u64 * 109951163) >> 40) as u32;
    let ccdd = val - aabb * 10000;
    let ghost b0 = buf@;
    itoa_u64_impl_len_4(aabb, buf, pos);
    let ghost b1 = buf@;
    itoa_u64_impl_len_4(ccdd, buf, pos + 4);
    proof {
        lemma_pow10_values();
        lemma_written_concat(b0, b1, buf@, pos as int, padded(aabb as nat, 4), padded(ccdd as nat, 4));
        lemma_padded_split(aabb as nat, ccdd as nat, 4, 4);
    }
    pos + 8
}

/// Exactly four digits.
fn itoa_u64_impl_len_4(val: u32, buf: &mut [u8; 20], pos: usize) -> (end: usize)
    requires
        val < 10000,
        pos + 4 <= 20,
    ensures
        written(old(buf)@, final(buf)@, pos as int, padded(val as nat, 4)),
        end == pos + 4,
{
    proof {
        lemma_div100_u32(val);
    }
    let aa = (val * 5243) >> 19;
    let bb = val - aa * 100;
    let ghost b0 = buf@;
    write_pair(buf, pos, aa);
    let ghost b1 = buf@;
    write_pair(buf, pos + 2, bb);
    proof {
        lemma_pow10_values();
        lemma_written_concat(b0, b1, buf@, pos as int, padded(aa as nat, 2), padded(bb as nat, 2));
        lemma_padded_split(aa as nat, bb as nat, 2, 2);
    }
    pos + 4
}

/// One to eight digits, no leading zero.
fn itoa_u64_impl_len_1_to_8(val: u32, buf: &mut [u8; 20], pos: usize) -> (end: usize)
    requires
        val < 100000000,
        pos + 8 <= 20,
    ensures
        appended(old(buf)@, final(buf)@, pos as int, decimal(val as nat)),
        kept_outside(old(buf)@, final(buf)@, pos as int, max_int(end as int, pos + 2)),
        val >= 10 ==> written(old(buf)@, final(buf)@, pos as int, decimal(val as nat)),
        end == pos + decimal(val as nat).len(),
        end <= pos + 8,
{
    proof {
        lemma_pow10_values();
        lemma_decimal_len(val as nat, 8);
    }
    if val < 100 {
        let end = write_lead(buf, pos, val);
        proof {
            if val >= 10 {
                lemma_decimal_exact(val as nat, 2);
            }
        }
        end
    } else if val < 10000 {
        proof {
            lemma_div100_u32(val);
        }
        let aa = (val * 5243) >> 19;
        let bb = val - aa * 100;
        let ghost b0 = buf@;
        let p = write_lead(buf, pos, aa);
        let ghost b1 = buf@;
        write_pair(buf, p, bb);
        proof {
            lemma_lead_then_written(b0, b1, buf@, pos as int, decimal(aa as nat), padded(bb as nat, 2), pos + 2);
            lemma_decimal_split(aa as nat, bb as nat, 2);
            lemma_written_appended(b0, buf@, pos as int, decimal(val as nat));
        }
        p + 2
    } else {
        let end = itoa_u64_impl_len_5_to_8(val, buf, pos);
        proof {
            lemma_written_appended(old(buf)@, buf@, pos as int, decimal(val as nat));
        }
        end
    }
}

/// Five to eight digits, no leading zero.
fn itoa_u64_impl_len_5_to_8(val: u32, buf: &mut [u8; 20], pos: usize) -> (end: usize)
    requires
        10000 <= val < 100000000,
        pos + 8 <= 20,
    ensures
        written(old(buf)@, final(buf)@, pos as int, decimal(val as nat)),
        end == pos + decimal(val as nat).len(),
        end <= pos + 8,
{
    proof {
        lemma_pow10_values();
        lemma_decimal_len(val as nat, 8);
    }
    if val < 1000000 {
        proof {
            lemma_div10000_small_u64(val as u64);
        }
        let aa = ((val as u64 * 429497) >> 32) as u32;
        let bbcc = val - aa * 10000;
        let ghost b0 = buf@;
        let p = write_lead(buf, pos, aa);
        let ghost b1 = buf@;
        itoa_u64_impl_len_4(bbcc, buf, p);
        proof {
            lemma_lead_then_written(b0, b1, buf@, pos as int, decimal(aa as nat), padded(bbcc as nat, 4), pos + 2);
            lemma_decimal_split(aa as nat, bbcc as nat, 4);
        }
        p + 4
    } else {
        proof {
            lemma_div10000_u64(val as u64);
            lemma_div100_u32(val / 10000);
        }
        let aabb = ((val as u64 * 109951163) >> 40) as u32;
        let ccdd = val - aabb * 10000;
        let aa = (aabb * 5243) >> 19;
        let bb = aabb - aa * 100;
        let ghost b0 = buf@;
        let p = write_lead(buf, pos, aa);
        let ghost b1 = buf@;
        write_pair(buf, p, bb);
        proof {
            lemma_lead_then_written(b0, b1, buf@, pos as int, decimal(aa as nat), padded(bb as nat, 2), pos + 2);
            lemma_decimal_split(aa as nat, bb as nat, 2);
        }
        let ghost b2 = buf@;
        itoa_u64_impl_len_4(ccdd, buf, p + 2);
        proof {
            lemma_append_chunk(b0, b2, buf@, pos as int, aabb as nat, ccdd as nat, 4);
        }
        p + 6
    }
}

/// Up to eight digits, then fixed groups of four and eight.
fn itoa_u64_impl(val: u64, buf: &mut [u8; 20]) -> (end: usize)
    ensures
        appended(old(buf)@, final(buf)@, 0, decimal(val as nat)),
        kept_outside(old(buf)@, final(buf)@, 0, max_int(end as int, 2)),
        val >= 10 ==> written(old(buf)@, final(buf)@, 0, decimal(val as nat)),
        end == decimal(val as nat).len(),
{
    proof {
        lemma_pow10_values();
    }
    let ghost b0 = buf@;
    if val < 100000000 {
        itoa_u64_impl_len_1_to_8(val as u32, buf, 0)
    } else if val < 100000000 * 100000000 {
        let hgh = val / 100000000;
        let low = (val - hgh * 100000000) as u32;
        let p = itoa_u64_impl_len_1_to_8(hgh as u32, buf, 0);
        let ghost b1 = buf@;
        let end = itoa_u64_impl_len_8(low, buf, p);
        proof {
            lemma_lead_then_written(b0, b1, buf@, 0, decimal(hgh as nat), padded(low as nat, 8), max_int(p as int, 2));
            lemma_decimal_split(hgh as nat, low as nat, 8);
            lemma_written_appended(b0, buf@, 0, decimal(val as nat));
        }
        end
    } else {
        let tmp = val / 100000000;
        let low = (val - tmp * 100000000) as u32;
        let hgh = (tmp / 10000) as u32 as u64;
        let mid = (tmp - hgh * 10000) as u32;
        let p = itoa_u64_impl_len_5_to_8(hgh as u32, buf, 0);
        let ghost b1 = buf@;
        let p = itoa_u64_impl_len_4(mid, buf, p);
        proof {
            lemma_append_chunk(b0, b1, buf@, 0, hgh as nat, mid as nat, 4);
        }
        let ghost b2 = buf@;
        let end = itoa_u64_impl_len_8(low, buf, p);
        proof {
            lemma_append_chunk(b0, b2, buf@, 0, tmp as nat, low as nat, 8);
            lemma_written_appended(b0, buf@, 0, decimal(val as nat));
        }
        end
    }
}

/// Branches on the length in groups of eight, writes pairs from the table, and
/// lets a one-digit lead overlap the next pair.
pub fn u64toa_yy(v: u64) -> (r: NumStr<20>)
    ensures
        r@ == decimal(v as nat),
{
    let mut buffer = [0u8; 20];
    let end = itoa_u64_impl(v, &mut buffer);
    NumStr::from_parts(buffer, end)
}

} // verus!
