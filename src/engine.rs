use vstd::prelude::*;

use crate::lines::{append_bytes, frame, render, split_lines, Terminator};
use crate::progress::{percent_scaled, Progress};
use crate::seen::SeenSet;

verus! {

/// The lines of `s` that occur there for the first time, in the order of
/// their first occurrence.
pub open spec fn dedup(s: Seq<Seq<u8>>) -> Seq<Seq<u8>>
    decreases s.len(),
{
    if s.len() == 0 {
        Seq::empty()
    } else {
        let before = dedup(s.drop_last());
        if s.drop_last().contains(s.last()) {
            before
        } else {
            before.push(s.last())
        }
    }
}

/// The output of a whole run over the input bytes `b`.
pub open spec fn run_output(b: Seq<u8>, term: Terminator) -> Seq<u8> {
    render(dedup(frame(b)), term.spec_bytes())
}

/// The dedup engine: the lines seen so far, and how many lines were offered.
pub struct Dedup {
    seen: SeenSet,
    lines_read: usize,
    input: Ghost<Seq<Seq<u8>>>,
}

impl Dedup {
    /// The engine's state is consistent.
    pub closed spec fn wf(&self) -> bool {
        &&& self.seen.wf()
        &&& self.seen@ == self.input@.to_set()
        &&& self.lines_read == self.input@.len()
    }

    /// The lines offered so far, in order.
    pub closed spec fn input(&self) -> Seq<Seq<u8>> {
        self.input@
    }

    /// An engine that has seen no line.
    pub fn new() -> (d: Dedup)
        ensures
            d.wf(),
            d.input() == Seq::<Seq<u8>>::empty(),
    {
        let d = Dedup { seen: SeenSet::new(), lines_read: 0, input: Ghost(Seq::empty()) };
        proof {
            assert(d.input@.to_set() =~= Set::<Seq<u8>>::empty());
        }
        d
    }

    /// Offers one line. Returns the bytes to write (the line and the
    /// terminator) where the line was not seen before, and `None` where it was.
    pub fn offer(&mut self, line: Vec<u8>, term: Terminator) -> (out: Option<Vec<u8>>)
        requires
            old(self).wf(),
            old(self).input().len() < usize::MAX,
        ensures
            final(self).wf(),
            final(self).input() == old(self).input().push(line@),
            out is Some <==> !old(self).input().contains(line@),
            out matches Some(bytes) ==> bytes@ == line@ + term.spec_bytes(),
            dedup(final(self).input()) == if out is Some {
                dedup(old(self).input()).push(line@)
            } else {
                dedup(old(self).input())
            },
    {
        let ghost prev = self.input@;
        proof {
            prev.lemma_cardinality_of_set();
        }
        let fresh = !self.seen.contains(line.as_slice());
        let out = if fresh {
            let mut bytes: Vec<u8> = Vec::new();
            append_bytes(&mut bytes, line.as_slice());
            term.push_to(&mut bytes);
            proof {
                assert(bytes@ =~= line@ + term.spec_bytes());
            }
            self.seen.insert(line);
            Some(bytes)
        } else {
            None
        };
        proof {
            let now = prev.push(line@);
            assert(now.drop_last() == prev);
            assert forall|a: Seq<u8>| now.contains(a) <==> prev.contains(a) || a == line@ by {
                if now.contains(a) {
                    let j = choose|j: int| 0 <= j < now.len() && now[j] == a;
                    if j < prev.len() {
                        assert(prev[j] == a);
                    }
                }
                if prev.contains(a) {
                    let j = choose|j: int| 0 <= j < prev.len() && prev[j] == a;
                    assert(now[j] == a);
                }
                if a == line@ {
                    assert(now[prev.len() as int] == a);
                }
            }
            assert(now.to_set() =~= prev.to_set().insert(line@));
            assert(self.seen@ =~= prev.to_set().insert(line@));
        }
        self.input = Ghost(self.input@.push(line@));
        self.lines_read = self.lines_read + 1;
        out
    }

    /// Number of lines offered so far.
    pub fn lines_read(&self) -> (n: usize)
        requires
            self.wf(),
        ensures
            n == self.input().len(),
    {
        self.lines_read
    }

    /// Number of distinct lines offered so far.
    pub fn distinct(&self) -> (n: usize)
        requires
            self.wf(),
        ensures
            n == self.input().to_set().len(),
    {
        self.seen.len()
    }

    /// The progress record due after the line just offered, where the number
    /// of lines read is a positive multiple of `interval`.
    pub fn progress(&self, interval: usize) -> (r: Option<Progress>)
        requires
            self.wf(),
            interval > 0,
        ensures
            r is Some <==> self.input().len() > 0 && self.input().len() % (interval as nat) == 0,
            r matches Some(p) ==> {
                &&& p.lines == self.input().len()
                &&& p.uniques == self.input().to_set().len()
                &&& p.percent_whole == percent_scaled(p.uniques as nat, p.lines as nat) / 100000
                &&& p.percent_fraction == percent_scaled(p.uniques as nat, p.lines as nat) % 100000
            },
    {
        let n = self.lines_read;
        if n > 0 && n % interval == 0 {
            proof {
                self.input@.lemma_cardinality_of_set();
            }
            Some(Progress::new(n, self.seen.len()))
        } else {
            None
        }
    }
}

/// Runs the engine over a whole input and returns all that it writes.
pub fn dedup_bytes(input: &[u8], term: Terminator) -> (out: Vec<u8>)
    ensures
        out@ == run_output(input@, term),
        input@.len() == 0 ==> out@.len() == 0,
{
    let mut lines = split_lines(input);
    let ghost fr = frame(input@);
    let ghost orig = lines@;
    let mut d = Dedup::new();
    let mut out: Vec<u8> = Vec::new();
    let mut i: usize = 0;
    proof {
        assert(fr.subrange(0, 0) =~= Seq::<Seq<u8>>::empty());
    }
    while i < lines.len()
        invariant
            i <= lines.len(),
            lines.len() == orig.len(),
            orig.map_values(|l: Vec<u8>| l@) == fr,
            forall|k: int| i <= k < lines.len() ==> lines@[k] == orig[k],
            d.wf(),
            d.input() == fr.subrange(0, i as int),
            out@ == render(dedup(d.input()), term.spec_bytes()),
        decreases lines.len() - i,
    {
        let mut line: Vec<u8> = Vec::new();
        std::mem::swap(&mut line, &mut lines[i]);
        proof {
            assert(line@ == fr[i as int]);
        }
        let ghost before = d.input();
        let ghost shown = dedup(before);
        match d.offer(line, term) {
            Some(bytes) => {
                append_bytes(&mut out, bytes.as_slice());
                proof {
                    assert(shown.push(fr[i as int]).drop_last() == shown);
                    assert(out@ =~= render(dedup(d.input()), term.spec_bytes()));
                }
            },
            None => {},
        }
        proof {
            assert(fr.subrange(0, i + 1) =~= before.push(fr[i as int]));
        }
        i = i + 1;
    }
    proof {
        assert(fr.subrange(0, i as int) =~= fr);
    }
    out
}

} // verus!
