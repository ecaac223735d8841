use vstd::prelude::*;

verus! {

/// The line feed byte, which ends a line on input.
pub const LF: u8 = 10;

/// The carriage return byte, stripped when it stands right before a line feed.
pub const CR: u8 = 13;

/// Number of bytes of `b` before its first line feed (all of `b` when it holds none).
pub open spec fn line_len(b: Seq<u8>) -> nat
    decreases b.len(),
{
    if b.len() == 0 {
        0
    } else if b[0] == LF {
        0
    } else {
        1 + line_len(b.drop_first())
    }
}

/// A line as it leaves its terminator behind: one carriage return before the
/// line feed is dropped.
pub open spec fn strip_cr(b: Seq<u8>) -> Seq<u8> {
    if b.len() > 0 && b.last() == CR {
        b.drop_last()
    } else {
        b
    }
}

/// The lines of an input: split at each line feed, a carriage return right
/// before the line feed stripped, and a last line without terminator kept as it is.
pub open spec fn frame(b: Seq<u8>) -> Seq<Seq<u8>>
    decreases b.len(),
{
    if b.len() == 0 {
        Seq::empty()
    } else {
        let k = line_len(b) as int;
        if k >= b.len() {
            seq![b]
        } else {
            seq![strip_cr(b.subrange(0, k))] + frame(b.subrange(k + 1, b.len() as int))
        }
    }
}

/// Removes the terminator from one line as read up to and including its line
/// feed (or up to the end of the input, where it has none).
pub fn strip_terminator(raw: Vec<u8>) -> (line: Vec<u8>)
    ensures
        line@ == raw_line(raw@),
{
    let mut line = raw;
    let n = line.len();
    if n > 0 && line[n - 1] == LF {
        line.pop();
        let m = line.len();
        if m > 0 && line[m - 1] == CR {
            line.pop();
        }
    }
    line
}

/// The line that a raw read of one line stands for.
pub open spec fn raw_line(raw: Seq<u8>) -> Seq<u8> {
    if raw.len() > 0 && raw.last() == LF {
        strip_cr(raw.drop_last())
    } else {
        raw
    }
}

/// Where the first line feed of `b` stands, `line_len` finds it.
pub proof fn lemma_line_len(b: Seq<u8>, k: int)
    requires
        0 <= k <= b.len(),
        forall|i: int| 0 <= i < k ==> b[i] != LF,
        k == b.len() || b[k] == LF,
    ensures
        line_len(b) == k,
    decreases k,
{
    if k > 0 {
        lemma_line_len(b.drop_first(), k - 1);
    }
}

/// Splits a whole input into its lines.
pub fn split_lines(input: &[u8]) -> (lines: Vec<Vec<u8>>)
    ensures
        lines@.map_values(|l: Vec<u8>| l@) == frame(input@),
{
    let mut lines: Vec<Vec<u8>> = Vec::new();
    let mut cur: Vec<u8> = Vec::new();
    let mut start: usize = 0;
    let mut i: usize = 0;
    proof {
        assert(input@.subrange(0, input@.len() as int) == input@);
        assert(lines@.map_values(|l: Vec<u8>| l@) =~= Seq::<Seq<u8>>::empty());
        assert(Seq::<Seq<u8>>::empty() + frame(input@) =~= frame(input@));
    }
    while i < input.len()
        invariant
            start <= i <= input.len(),
            cur@ == input@.subrange(start as int, i as int),
            forall|j: int| start <= j < i ==> input@[j] != LF,
            lines@.map_values(|l: Vec<u8>| l@) + frame(input@.subrange(start as int, input@.len() as int))
                == frame(input@),
        decreases input.len() - i,
    {
        if input[i] == LF {
            let ghost rest = input@.subrange(start as int, input@.len() as int);
            proof {
                lemma_line_len(rest, i - start);
                assert(rest.subrange(0, i - start) == cur@);
                assert(rest.subrange(i - start + 1, rest.len() as int)
                    == input@.subrange(i + 1, input@.len() as int));
            }
            let ghost before = lines@.map_values(|l: Vec<u8>| l@);
            let line = strip_cr_vec(cur);
            lines.push(line);
            cur = Vec::new();
            proof {
                assert(lines@.map_values(|l: Vec<u8>| l@) == before.push(strip_cr(
                    rest.subrange(0, i - start),
                )));
            }
            start = i + 1;
        } else {
            cur.push(input[i]);
        }
        i = i + 1;
    }
    proof {
        let rest = input@.subrange(start as int, input@.len() as int);
        assert(cur@ == rest);
        if rest.len() > 0 {
            lemma_line_len(rest, rest.len() as int);
        }
    }
    if start < input.len() {
        let ghost before = lines@.map_values(|l: Vec<u8>| l@);
        lines.push(cur);
        proof {
            assert(lines@.map_values(|l: Vec<u8>| l@) == before.push(
                input@.subrange(start as int, input@.len() as int),
            ));
        }
    } else {
        proof {
            assert(input@.subrange(start as int, input@.len() as int) =~= Seq::<u8>::empty());
            assert(lines@.map_values(|l: Vec<u8>| l@) + Seq::<Seq<u8>>::empty() =~= lines@.map_values(|l: Vec<u8>| l@));
        }
    }
    lines
}

fn strip_cr_vec(line: Vec<u8>) -> (r: Vec<u8>)
    ensures
        r@ == strip_cr(line@),
{
    let mut r = line;
    let n = r.len();
    if n > 0 && r[n - 1] == CR {
        r.pop();
    }
    r
}

/// The terminator written after each output line.
#[derive(Clone, Copy, Debug, PartialEq, Eq, Structural)]
pub enum Terminator {
    /// A line feed alone.
    Lf,
    /// A carriage return, then a line feed.
    CrLf,
}

impl Terminator {
    /// The bytes of the terminator.
    pub open spec fn spec_bytes(self) -> Seq<u8> {
        match self {
            Terminator::Lf => seq![LF],
            Terminator::CrLf => seq![CR, LF],
        }
    }

    /// Appends the terminator to `out`.
    pub fn push_to(self, out: &mut Vec<u8>)
        ensures
            final(out)@ == old(out)@ + self.spec_bytes(),
    {
        match self {
            Terminator::Lf => {
                out.push(LF);
            },
            Terminator::CrLf => {
                out.push(CR);
                out.push(LF);
            },
        }
        proof {
            assert(final(out)@ =~= old(out)@ + self.spec_bytes());
        }
    }
}

/// The output bytes for a list of lines: each line followed by the terminator.
pub open spec fn render(lines: Seq<Seq<u8>>, term: Seq<u8>) -> Seq<u8>
    decreases lines.len(),
{
    if lines.len() == 0 {
        Seq::empty()
    } else {
        render(lines.drop_last(), term) + lines.last() + term
    }
}

/// Appends the bytes of `src` to `out`.
pub fn append_bytes(out: &mut Vec<u8>, src: &[u8])
    ensures
        final(out)@ == old(out)@ + src@,
{
    let ghost start = out@;
    let mut i: usize = 0;
    while i < src.len()
        invariant
            i <= src.len(),
            out@ == start + src@.subrange(0, i as int),
        decreases src.len() - i,
    {
        out.push(src[i]);
        i = i + 1;
        proof {
            assert(out@ =~= start + src@.subrange(0, i as int));
        }
    }
    proof {
        assert(src@.subrange(0, src@.len() as int) == src@);
    }
}

} // verus!
