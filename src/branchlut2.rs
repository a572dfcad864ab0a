use vstd::prelude::*;
use crate::decimal::{decimal, lemma_decimal_len, lemma_padded_len, lemma_pow10_values};
use crate::digits_lut::{
    lemma_append_chunk,
    lemma_written_concat,
    write_4,
    write_8,
    write_begin2,
    write_pair,
    written,
};
use crate::numstr::NumStr;

verus! {

broadcast use lemma_padded_len;

/// Up to four digits, no leading zero.
fn begin4(buf: &mut [u8; 20], pos: usize, t4: u32) -> (end: usize)
    requires
        t4 < 10000,
        pos + 4 <= 20,
    ensures
        written(old(buf)@, final(buf)@, pos as int, decimal(t4 as nat)),
        end == pos + decimal(t4 as nat).len(),
        end <= pos + 4,
{
    proof {
        lemma_pow10_values();
        lemma_decimal_len(t4 as nat, 4);
        lemma_decimal_len((t4 / 100) as nat, 2);
    }
    if t4 < 100 {
        write_begin2(buf, pos, t4)
    } else {
        let ghost b0 = buf@;
        let p = write_begin2(buf, pos, t4 / 100);
        let ghost b1 = buf@;
        write_pair(buf, p, t4 % 100);
        proof {
            lemma_append_chunk(b0, b1, buf@, pos as int, (t4 / 100) as nat, (t4 % 100) as nat, 2);
        }
        p + 2
    }
}

/// Up to eight digits, no leading zero.
fn begin8(buf: &mut [u8; 20], pos: usize, t8: u32) -> (end: usize)
    requires
        t8 < 100000000,
        pos + 8 <= 20,
    ensures
        written(old(buf)@, final(buf)@, pos as int, decimal(t8 as nat)),
        end == pos + decimal(t8 as nat).len(),
        end <= pos + 8,
{
    proof {
        lemma_pow10_values();
        lemma_decimal_len(t8 as nat, 8);
    }
    if t8 < 10000 {
        begin4(buf, pos, t8)
    } else {
        let ghost b0 = buf@;
        let p = begin4(buf, pos, t8 / 10000);
        let ghost b1 = buf@;
        write_4(buf, p, t8 % 10000);
        proof {
            lemma_append_chunk(b0, b1, buf@, pos as int, (t8 / 10000) as nat, (t8 % 10000) as nat, 4);
        }
        p + 4
    }
}

/// Sixteen digits, leading zeros included.
fn middle16(buf: &mut [u8; 20], pos: usize, t16: u64)
    requires
        t16 < 10000000000000000,
        pos + 16 <= 20,
    ensures
        written(old(buf)@, final(buf)@, pos as int, crate::decimal::padded(t16 as nat, 16)),
{
    proof {
        lemma_pow10_values();
    }
    let ghost b0 = buf@;
    write_8(buf, pos, (t16 / 100000000) as u32);
    let ghost b1 = buf@;
    write_8(buf, pos + 8, (t16 % 100000000) as u32);
    proof {
        lemma_written_concat(
            b0,
            b1,
            buf@,
            pos as int,
            crate::decimal::padded((t16 / 100000000) as nat, 8),
            crate::decimal::padded((t16 % 100000000) as nat, 8),
        );
        crate::decimal::lemma_padded_split((t16 / 100000000) as nat, (t16 % 100000000) as nat, 8, 8);
    }
}

/// Splits the value into a leading part of up to eight (or four) digits and
/// fixed-width eight- or sixteen-digit parts, each written by branching on its length.
pub fn u64toa_branchlut2(x: u64) -> (r: NumStr<20>)
    ensures
        r@ == decimal(x as nat),
{
    proof {
        lemma_pow10_values();
    }
    let mut buffer = [0u8; 20];
    let ghost b0 = buffer@;
    let end = if x < 100000000 {
        begin8(&mut buffer, 0, x as u32)
    } else if x < 10000000000000000 {
        let p = begin8(&mut buffer, 0, (x / 100000000) as u32);
        let ghost b1 = buffer@;
        write_8(&mut buffer, p, (x % 100000000) as u32);
        proof {
            lemma_append_chunk(b0, b1, buffer@, 0, (x / 100000000) as nat, (x % 100000000) as nat, 8);
        }
        p + 8
    } else {
        let p = begin4(&mut buffer, 0, (x / 10000000000000000) as u32);
        let ghost b1 = buffer@;
        middle16(&mut buffer, p, x % 10000000000000000);
        proof {
            lemma_append_chunk(
                b0,
                b1,
                buffer@,
                0,
                (x / 10000000000000000) as nat,
                (x % 10000000000000000) as nat,
                16,
            );
        }
        p + 16
    };
    assert(buffer@.subrange(0, end as int) == decimal(x as nat));
    NumStr::from_parts(buffer, end)
}

} // verus!
