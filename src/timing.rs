use vstd::prelude::*;

verus! {

/// The fastest trial seen so far over one bucket, in nanoseconds.
pub struct BestTrial {
    pub best_nanos: Option<u128>,
}

impl BestTrial {
    pub fn new() -> (r: BestTrial)
        ensures
            r.best_nanos is None,
    {
        BestTrial { best_nanos: None }
    }

    /// Keeps the minimum, not the mean, so that scheduling noise does not count.
    pub fn record(&mut self, nanos: u128)
        ensures
            final(self).best_nanos == Some(
                match old(self).best_nanos {
                    None => nanos,
                    Some(b) => if nanos < b {
                        nanos
                    } else {
                        b
                    },
                },
            ),
    {
        let best = match self.best_nanos {
            None => nanos,
            Some(b) => if nanos < b {
                nanos
            } else {
                b
            },
        };
        self.best_nanos = Some(best);
    }
}

/// The time per operation in hundredths of a nanosecond, rounded to nearest:
/// `nanos` spread over `passes` passes of `elements` values. Nothing where no
/// operation ran or the figure does not fit.
pub fn hundredths_per_op(nanos: u128, passes: u64, elements: u64) -> (r: Option<u128>)
    ensures
        (passes == 0 || elements == 0 || nanos * 200 + passes * elements > u128::MAX) ==> r is None,
        !(passes == 0 || elements == 0 || nanos * 200 + passes * elements > u128::MAX) ==> r == Some(
            ((nanos * 200 + passes * elements) / (2 * (passes * elements))) as u128,
        ),
{
    if passes == 0 || elements == 0 {
        return None;
    }
    proof {
        assert(passes * elements < 0x1_0000_0000_0000_0000_0000_0000_0000_0000) by (nonlinear_arith)
            requires
                passes < 0x1_0000_0000_0000_0000,
                elements < 0x1_0000_0000_0000_0000,
        ;
        assert(passes * elements > 0) by (nonlinear_arith)
            requires
                passes > 0,
                elements > 0,
        ;
    }
    let ops = passes as u128 * elements as u128;
    match nanos.checked_mul(200) {
        None => None,
        Some(scaled) => match scaled.checked_add(ops) {
            None => None,
            Some(num) => {
                proof {
                    vstd::arithmetic::div_mod::lemma_div_denominator(num as int, ops as int, 2);
                    assert(ops * 2 == 2 * ops);
                }
                Some(num / ops / 2)
            },
        },
    }
}

} // verus!
