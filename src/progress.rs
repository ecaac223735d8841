use vstd::prelude::*;

verus! {

/// The share of distinct lines among `total`, in hundred-thousandths of a
/// percent, rounded half up.
pub open spec fn percent_scaled(distinct: nat, total: nat) -> nat
    recommends
        total > 0,
{
    (2 * distinct * 10_000_000 + total) / (2 * total)
}

/// One progress report: the running counters and the share of distinct lines
/// as a percentage, split into its whole part and five fractional digits.
#[derive(Clone, Copy, Debug, PartialEq, Eq, Structural)]
pub struct Progress {
    /// Lines read so far.
    pub lines: usize,
    /// Distinct lines so far.
    pub uniques: usize,
    /// Whole part of the percentage.
    pub percent_whole: u64,
    /// The five digits after the decimal point of the percentage.
    pub percent_fraction: u64,
}

impl Progress {
    /// The report for `uniques` distinct lines among `lines` lines.
    pub fn new(lines: usize, uniques: usize) -> (p: Progress)
        requires
            0 < lines,
            uniques <= lines,
        ensures
            p.lines == lines,
            p.uniques == uniques,
            p.percent_whole == percent_scaled(uniques as nat, lines as nat) / 100000,
            p.percent_fraction == percent_scaled(uniques as nat, lines as nat) % 100000,
    {
        let t = lines as u128;
        let u = uniques as u128;
        proof {
            assert(u * 20_000_000 <= t * 20_000_000) by (nonlinear_arith)
                requires
                    u <= t,
            ;
        }
        let scaled = (u * 20_000_000 + t) / (2 * t);
        proof {
            assert(scaled <= 10_000_000) by (nonlinear_arith)
                requires
                    scaled == (u * 20_000_000 + t) / (2 * t),
                    u <= t,
                    t > 0,
            ;
            assert(2 * (uniques as nat) * 10_000_000 == u * 20_000_000);
        }
        let s = scaled as u64;
        Progress { lines, uniques, percent_whole: s / 100000, percent_fraction: s % 100000 }
    }
}

} // verus!
