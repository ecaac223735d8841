use vstd::prelude::*;
use vstd::string::{StrSliceExecFns, StringExecFns, StringSliceAdditionalSpecFns};

verus! {

/// The byte `0`.
pub const DIGIT_ZERO: u8 = 48;

/// The byte `9`.
pub const DIGIT_NINE: u8 = 57;

/// The byte `+`.
pub const PLUS: u8 = 43;

/// The byte `-`.
pub const DASH: u8 = 45;

/// The interval between progress reports when `-v` is given with no value of its own.
pub const DEFAULT_INTERVAL: usize = 10000;

/// Why a progress interval was refused.
#[derive(Clone, Copy, Debug, PartialEq, Eq, Structural)]
pub enum IntervalError {
    /// The text is not an optional `+` followed by one or more ASCII digits.
    NotANumber,
    /// The number does not fit in a `usize`.
    TooLarge,
    /// The number is zero: there is no report every zero lines.
    Zero,
}

/// `b` is one or more ASCII digits.
pub open spec fn all_digits(b: Seq<u8>) -> bool {
    &&& b.len() > 0
    &&& forall|i: int| 0 <= i < b.len() ==> DIGIT_ZERO <= #[trigger] b[i] <= DIGIT_NINE
}

/// The number that the ASCII digits `b` write in base ten.
pub open spec fn digits_value(b: Seq<u8>) -> nat
    decreases b.len(),
{
    if b.len() == 0 {
        0
    } else {
        digits_value(b.drop_last()) * 10 + (b.last() - DIGIT_ZERO) as nat
    }
}

/// The text of an interval without its optional leading `+`.
pub open spec fn unsigned_part(b: Seq<u8>) -> Seq<u8> {
    if b.len() > 0 && b[0] == PLUS {
        b.drop_first()
    } else {
        b
    }
}

/// The result of reading the text `b` as a progress interval.
pub open spec fn interval_of(b: Seq<u8>) -> Result<usize, IntervalError> {
    let d = unsigned_part(b);
    if !all_digits(d) {
        Err(IntervalError::NotANumber)
    } else if digits_value(d) > usize::MAX {
        Err(IntervalError::TooLarge)
    } else if digits_value(d) == 0 {
        Err(IntervalError::Zero)
    } else {
        Ok(digits_value(d) as usize)
    }
}

proof fn lemma_prefix_value_le(b: Seq<u8>, i: int)
    requires
        all_digits(b),
        0 < i <= b.len(),
    ensures
        digits_value(b.subrange(0, i)) <= digits_value(b),
    decreases b.len(),
{
    if i < b.len() {
        let p = b.drop_last();
        assert(all_digits(p)) by {
            assert forall|k: int| 0 <= k < p.len() implies DIGIT_ZERO <= #[trigger] p[k] <= DIGIT_NINE by {
                assert(p[k] == b[k]);
            }
        }
        lemma_prefix_value_le(p, i);
        assert(p.subrange(0, i) == b.subrange(0, i));
    } else {
        assert(b.subrange(0, i) == b);
    }
}

/// Reads a progress interval: an optional `+`, then decimal digits, for a
/// positive number that fits in a `usize`.
pub fn parse_interval(text: &str) -> (r: Result<usize, IntervalError>)
    ensures
        r == interval_of(text.spec_bytes()),
{
    let b = text.as_bytes();
    let start: usize = if b.len() > 0 && b[0] == PLUS {
        1
    } else {
        0
    };
    let ghost d = unsigned_part(b@);
    proof {
        if start == 1 {
            assert(d == b@.subrange(1, b@.len() as int));
        } else {
            assert(d == b@.subrange(0, b@.len() as int));
        }
    }
    if start >= b.len() {
        return Err(IntervalError::NotANumber);
    }
    let mut i: usize = start;
    while i < b.len()
        invariant
            start <= i <= b.len(),
            d == b@.subrange(start as int, b@.len() as int),
            d == unsigned_part(text.spec_bytes()),
            forall|k: int| start <= k < i ==> DIGIT_ZERO <= #[trigger] b@[k] <= DIGIT_NINE,
        decreases b.len() - i,
    {
        if b[i] < DIGIT_ZERO || b[i] > DIGIT_NINE {
            proof {
                assert(d[i - start] == b@[i as int]);
                assert(!(DIGIT_ZERO <= d[i - start] <= DIGIT_NINE));
            }
            return Err(IntervalError::NotANumber);
        }
        i = i + 1;
    }
    proof {
        assert forall|k: int| 0 <= k < d.len() implies DIGIT_ZERO <= #[trigger] d[k] <= DIGIT_NINE by {
            assert(d[k] == b@[k + start]);
        }
    }
    let mut value: usize = 0;
    let mut j: usize = start;
    while j < b.len()
        invariant
            start <= j <= b.len(),
            start < b.len(),
            d == b@.subrange(start as int, b@.len() as int),
            d == unsigned_part(text.spec_bytes()),
            all_digits(d),
            value == digits_value(d.subrange(0, j - start)),
        decreases b.len() - j,
    {
        proof {
            let p = d.subrange(0, j - start + 1);
            assert(p.drop_last() == d.subrange(0, j - start));
            assert(p.last() == b@[j as int]);
            assert(d[j - start] == b@[j as int]);
            assert(DIGIT_ZERO <= d[j - start] <= DIGIT_NINE);
        }
        let digit = (b[j] - DIGIT_ZERO) as usize;
        if value > (usize::MAX - digit) / 10 {
            proof {
                lemma_prefix_value_le(d, j - start + 1);
                let m = usize::MAX as int;
                assert(value * 10 + digit > m) by (nonlinear_arith)
                    requires
                        value > (m - digit) / 10,
                        0 <= digit <= 9,
                        m >= 9,
                ;
            }
            return Err(IntervalError::TooLarge);
        }
        value = value * 10 + digit;
        j = j + 1;
    }
    proof {
        assert(d.subrange(0, d.len() as int) == d);
    }
    if value == 0 {
        Err(IntervalError::Zero)
    } else {
        Ok(value)
    }
}

/// Where the lines are read from.
#[derive(Debug)]
pub enum Source {
    /// The process's standard input.
    Stdin,
    /// A file, by its path.
    File(String),
}

/// The text `-`, which names standard input.
pub open spec fn names_stdin(arg: Seq<u8>) -> bool {
    arg == seq![DASH]
}

impl Source {
    /// The source that the `-f` argument names: `-` for standard input, else a path.
    pub fn from_arg(arg: &str) -> (s: Source)
        ensures
            names_stdin(arg.spec_bytes()) <==> s is Stdin,
            s matches Source::File(p) ==> p@ == arg@,
    {
        let b = arg.as_bytes();
        if b.len() == 1 && b[0] == DASH {
            proof {
                assert(b@ =~= seq![DASH]);
            }
            Source::Stdin
        } else {
            Source::File(String::from_str(arg))
        }
    }
}

/// The settings of one run, fixed at startup.
#[derive(Debug)]
pub struct Config {
    /// Lines between progress reports, where reports are asked for.
    pub verbose_interval: Option<usize>,
    /// Where the lines come from.
    pub input: Source,
}

impl Config {
    /// The settings from the `-v` value (absent where `-v` was not given) and
    /// the `-f` value.
    pub fn from_args(verbose: Option<&str>, file: &str) -> (r: Result<Config, IntervalError>)
        ensures
            verbose is None ==> (r matches Ok(c) && c.verbose_interval is None),
            verbose matches Some(v) ==> match r {
                Ok(c) => interval_of(v.spec_bytes()) == Ok::<usize, IntervalError>(
                    c.verbose_interval.unwrap(),
                ) && c.verbose_interval is Some,
                Err(e) => interval_of(v.spec_bytes()) == Err::<usize, IntervalError>(e),
            },
            r matches Ok(c) ==> (names_stdin(file.spec_bytes()) <==> c.input is Stdin),
            r matches Ok(c) ==> (c.input matches Source::File(p) ==> p@ == file@),
    {
        let verbose_interval = match verbose {
            None => None,
            Some(v) => match parse_interval(v) {
                Ok(n) => Some(n),
                Err(e) => {
                    return Err(e);
                },
            },
        };
        Ok(Config { verbose_interval, input: Source::from_arg(file) })
    }
}

} // verus!
