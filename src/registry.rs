use vstd::prelude::*;
use crate::decimal::decimal;
use crate::numstr::NumStr;

verus! {

/// One of the three integer widths.
#[derive(Clone, Copy, PartialEq, Eq, Structural, Debug)]
pub enum Width {
    U32,
    U64,
    U128,
}

impl Width {
    /// The name of the width in a selection token.
    pub open spec fn spec_name(self) -> Seq<char> {
        match self {
            Width::U32 => "u32"@,
            Width::U64 => "u64"@,
            Width::U128 => "u128"@,
        }
    }

    pub fn name(self) -> (r: &'static str)
        ensures
            r@ == self.spec_name(),
    {
        match self {
            Width::U32 => "u32",
            Width::U64 => "u64",
            Width::U128 => "u128",
        }
    }
}

/// The registered conversion algorithms, in registration order.
#[derive(Clone, Copy, PartialEq, Eq, Structural, Debug)]
pub enum Algorithm {
    Core,
    Itoa,
    Null,
    Bcd,
    Bcd4,
    Branchlut2,
    Countlut,
    Lut,
    Amartin,
    Jeaiii,
    Mwilson,
    Yy,
    Numbuffer,
}

/// Every registered algorithm, in registration order.
pub open spec fn spec_all() -> Seq<Algorithm> {
    seq![
        Algorithm::Core,
        Algorithm::Itoa,
        Algorithm::Null,
        Algorithm::Bcd,
        Algorithm::Bcd4,
        Algorithm::Branchlut2,
        Algorithm::Countlut,
        Algorithm::Lut,
        Algorithm::Amartin,
        Algorithm::Jeaiii,
        Algorithm::Mwilson,
        Algorithm::Yy,
        Algorithm::Numbuffer,
    ]
}

/// Every registered algorithm, in registration order.
pub fn all() -> (r: Vec<Algorithm>)
    ensures
        r@ == spec_all(),
{
    let r = vec![
        Algorithm::Core,
        Algorithm::Itoa,
        Algorithm::Null,
        Algorithm::Bcd,
        Algorithm::Bcd4,
        Algorithm::Branchlut2,
        Algorithm::Countlut,
        Algorithm::Lut,
        Algorithm::Amartin,
        Algorithm::Jeaiii,
        Algorithm::Mwilson,
        Algorithm::Yy,
        Algorithm::Numbuffer,
    ];
    assert(r@ =~= spec_all());
    r
}

impl Algorithm {
    /// The algorithm's name, as the selection tokens and the report use it.
    pub open spec fn spec_name(self) -> Seq<char> {
        match self {
            Algorithm::Core => "core"@,
            Algorithm::Itoa => "itoa"@,
            Algorithm::Null => "null"@,
            Algorithm::Bcd => "bcd"@,
            Algorithm::Bcd4 => "bcd4"@,
            Algorithm::Branchlut2 => "branchlut2"@,
            Algorithm::Countlut => "countlut"@,
            Algorithm::Lut => "lut"@,
            Algorithm::Amartin => "amartin"@,
            Algorithm::Jeaiii => "jeaiii"@,
            Algorithm::Mwilson => "mwilson"@,
            Algorithm::Yy => "yy"@,
            Algorithm::Numbuffer => "numbuffer"@,
        }
    }

    pub fn name(self) -> (r: &'static str)
        ensures
            r@ == self.spec_name(),
    {
        match self {
            Algorithm::Core => "core",
            Algorithm::Itoa => "itoa",
            Algorithm::Null => "null",
            Algorithm::Bcd => "bcd",
            Algorithm::Bcd4 => "bcd4",
            Algorithm::Branchlut2 => "branchlut2",
            Algorithm::Countlut => "countlut",
            Algorithm::Lut => "lut",
            Algorithm::Amartin => "amartin",
            Algorithm::Jeaiii => "jeaiii",
            Algorithm::Mwilson => "mwilson",
            Algorithm::Yy => "yy",
            Algorithm::Numbuffer => "numbuffer",
        }
    }

    /// Whether the algorithm has a routine for the width.
    pub open spec fn spec_supports(self, w: Width) -> bool {
        match self {
            Algorithm::Core | Algorithm::Itoa | Algorithm::Null | Algorithm::Numbuffer => true,
            Algorithm::Bcd4 => w != Width::U128,
            _ => w == Width::U64,
        }
    }

    pub fn supports(self, w: Width) -> (r: bool)
        ensures
            r == self.spec_supports(w),
    {
        match self {
            Algorithm::Core | Algorithm::Itoa | Algorithm::Null | Algorithm::Numbuffer => true,
            Algorithm::Bcd4 => match w {
                Width::U128 => false,
                _ => true,
            },
            _ => match w {
                Width::U64 => true,
                _ => false,
            },
        }
    }

    /// What the algorithm writes for `v`: the decimal text, or nothing for the
    /// placeholder that only measures the harness itself.
    pub open spec fn spec_output(self, v: nat) -> Seq<u8> {
        if self == Algorithm::Null {
            Seq::empty()
        } else {
            decimal(v)
        }
    }

    /// Runs the algorithm's 32-bit routine, if it has one.
    pub fn run_u32(self, v: u32) -> (r: Option<NumStr<10>>)
        ensures
            r is Some <==> self.spec_supports(Width::U32),
            r matches Some(s) ==> s@ == self.spec_output(v as nat),
    {
        match self {
            Algorithm::Core => Some(crate::oracle::u32toa_core(v)),
            Algorithm::Itoa => Some(crate::oracle::u32toa_itoa(v)),
            Algorithm::Null => {
                let r = NumStr::from_parts([0u8; 10], 0);
                assert(r@ =~= Seq::<u8>::empty());
                Some(r)
            },
            Algorithm::Numbuffer => Some(crate::numbuffer::u32toa_numbuffer(v)),
            Algorithm::Bcd4 => Some(crate::bcd4::u32toa_bcd4(v)),
            _ => None,
        }
    }

    /// Runs the algorithm's 64-bit routine, if it has one.
    pub fn run_u64(self, v: u64) -> (r: Option<NumStr<20>>)
        ensures
            r is Some <==> self.spec_supports(Width::U64),
            r matches Some(s) ==> s@ == self.spec_output(v as nat),
    {
        match self {
            Algorithm::Core => Some(crate::oracle::u64toa_core(v)),
            Algorithm::Itoa => Some(crate::oracle::u64toa_itoa(v)),
            Algorithm::Null => {
                let r = NumStr::from_parts([0u8; 20], 0);
                assert(r@ =~= Seq::<u8>::empty());
                Some(r)
            },
            Algorithm::Bcd => Some(crate::bcd::u64toa_bcd(v)),
            Algorithm::Bcd4 => Some(crate::bcd4::u64toa_bcd4(v)),
            Algorithm::Branchlut2 => Some(crate::branchlut2::u64toa_branchlut2(v)),
            Algorithm::Countlut => Some(crate::countlut::u64toa_countlut(v)),
            Algorithm::Lut => Some(crate::lut::u64toa_lut(v)),
            Algorithm::Amartin => Some(crate::itoa_ljust::u64toa_amartin(v)),
            Algorithm::Jeaiii => Some(crate::itoa_jeaiii::u64toa_jeaiii(v)),
            Algorithm::Mwilson => Some(crate::mwilson::u64toa_mwilson(v)),
            Algorithm::Yy => Some(crate::yy::u64toa_yy(v)),
            Algorithm::Numbuffer => Some(crate::numbuffer::u64toa_numbuffer(v)),
        }
    }

    /// Runs the algorithm's 128-bit routine, if it has one.
    pub fn run_u128(self, v: u128) -> (r: Option<NumStr<39>>)
        ensures
            r is Some <==> self.spec_supports(Width::U128),
            r matches Some(s) ==> s@ == self.spec_output(v as nat),
    {
        match self {
            Algorithm::Core => Some(crate::oracle::u128toa_core(v)),
            Algorithm::Itoa => Some(crate::oracle::u128toa_itoa(v)),
            Algorithm::Null => {
                let r = NumStr::from_parts([0u8; 39], 0);
                assert(r@ =~= Seq::<u8>::empty());
                Some(r)
            },
            Algorithm::Numbuffer => Some(crate::numbuffer::u128toa_numbuffer(v)),
            _ => None,
        }
    }
}

/// Every registered algorithm but the placeholder writes, for every value of every
/// width it supports, exactly the text that the reference formatter writes, which
/// is `decimal(v)` for the `core` routines.
pub proof fn lemma_agrees_with_reference(alg: Algorithm, w: Width, v: nat)
    requires
        alg.spec_supports(w),
        alg != Algorithm::Null,
    ensures
        alg.spec_output(v) == Algorithm::Core.spec_output(v),
        Algorithm::Core.spec_supports(w),
{
}

/// Every algorithm gives the same bytes each time it is called on the same value:
/// its output is a function of the value, the decimal text for all but the
/// placeholder.
pub proof fn lemma_output_deterministic(alg: Algorithm, v: nat, first: Seq<u8>, second: Seq<u8>)
    requires
        first == alg.spec_output(v),
        second == alg.spec_output(v),
    ensures
        first == second,
        alg != Algorithm::Null ==> first == decimal(v),
{
}

} // verus!
