use vstd::prelude::*;

use crate::engine::{dedup, run_output};
use crate::lines::{frame, line_len, lemma_line_len, raw_line, render, strip_cr, Terminator, CR, LF};

verus! {

/// `p` is the position of the first occurrence of `x` in `s`.
pub open spec fn first_at(s: Seq<Seq<u8>>, x: Seq<u8>, p: int) -> bool {
    &&& 0 <= p < s.len()
    &&& s[p] == x
    &&& forall|k: int| 0 <= k < p ==> s[k] != x
}

/// The line holds no line feed and does not end with a carriage return, so
/// that writing it with a terminator and reading it back gives it unchanged.
pub open spec fn plain_line(l: Seq<u8>) -> bool {
    &&& forall|i: int| 0 <= i < l.len() ==> l[i] != LF
    &&& !(l.len() > 0 && l.last() == CR)
}

proof fn lemma_contains_push(s: Seq<Seq<u8>>, x: Seq<u8>)
    ensures
        forall|y: Seq<u8>| #[trigger] s.push(x).contains(y) <==> s.contains(y) || y == x,
{
    assert forall|y: Seq<u8>| #[trigger] s.push(x).contains(y) <==> s.contains(y) || y == x by {
        if s.push(x).contains(y) {
            let j = choose|j: int| 0 <= j < s.push(x).len() && s.push(x)[j] == y;
            if j < s.len() {
                assert(s[j] == y);
            }
        }
        if s.contains(y) {
            let j = choose|j: int| 0 <= j < s.len() && s[j] == y;
            assert(s.push(x)[j] == y);
        }
        if y == x {
            assert(s.push(x)[s.len() as int] == y);
        }
    }
}

proof fn lemma_dedup_step(s: Seq<Seq<u8>>)
    requires
        s.len() > 0,
    ensures
        s == s.drop_last().push(s.last()),
{
    assert(s =~= s.drop_last().push(s.last()));
}

/// A line is in the output exactly when it is in the input: nothing is
/// added (every output line appears in the input) and nothing is lost
/// (every distinct input line appears in the output).
pub proof fn lemma_dedup_same_lines(s: Seq<Seq<u8>>)
    ensures
        forall|x: Seq<u8>| #[trigger] dedup(s).contains(x) <==> s.contains(x),
    decreases s.len(),
{
    if s.len() > 0 {
        let p = s.drop_last();
        lemma_dedup_same_lines(p);
        lemma_dedup_step(s);
        lemma_contains_push(p, s.last());
        lemma_contains_push(dedup(p), s.last());
    }
}

/// Every line of the output appears in the input.
pub proof fn lemma_output_within_input(s: Seq<Seq<u8>>)
    ensures
        forall|i: int| 0 <= i < dedup(s).len() ==> s.contains(#[trigger] dedup(s)[i]),
{
    lemma_dedup_same_lines(s);
    assert forall|i: int| 0 <= i < dedup(s).len() implies s.contains(#[trigger] dedup(s)[i]) by {
        assert(dedup(s).contains(dedup(s)[i]));
    }
}

/// Every distinct line of the input appears in the output.
pub proof fn lemma_input_within_output(s: Seq<Seq<u8>>)
    ensures
        forall|x: Seq<u8>| #[trigger] s.contains(x) ==> dedup(s).contains(x),
{
    lemma_dedup_same_lines(s);
}

/// No line appears more than once in the output.
pub proof fn lemma_output_unique(s: Seq<Seq<u8>>)
    ensures
        dedup(s).no_duplicates(),
    decreases s.len(),
{
    if s.len() > 0 {
        let p = s.drop_last();
        lemma_output_unique(p);
        lemma_dedup_same_lines(p);
        if !p.contains(s.last()) {
            let d = dedup(p);
            let e = d.push(s.last());
            assert forall|i: int, j: int| 0 <= i < e.len() && 0 <= j < e.len() && i != j implies e[i]
                != e[j] by {
                if i == d.len() {
                    assert(d.contains(d[j]));
                } else if j == d.len() {
                    assert(d.contains(d[i]));
                }
            }
        }
    }
}

/// Output lines keep the order of their first occurrences in the input: when
/// one line precedes another in the output, its first occurrence in the input
/// comes first too.
pub proof fn lemma_first_seen_order(s: Seq<Seq<u8>>)
    ensures
        forall|i: int, j: int, p: int, q: int|
            0 <= i < j < dedup(s).len() && first_at(s, dedup(s)[i], p) && first_at(s, dedup(s)[j], q)
                ==> p < q,
    decreases s.len(),
{
    if s.len() > 0 {
        let pre = s.drop_last();
        let x = s.last();
        let d = dedup(pre);
        lemma_first_seen_order(pre);
        lemma_dedup_same_lines(pre);
        lemma_dedup_step(s);
        assert forall|i: int, j: int, p: int, q: int|
            0 <= i < j < dedup(s).len() && first_at(s, dedup(s)[i], p) && first_at(
                s,
                dedup(s)[j],
                q,
            ) implies p < q by {
            assert(dedup(s)[i] == d[i]);
            assert(d.contains(d[i]));
            assert(pre.contains(d[i]));
            if p == pre.len() {
                let k = choose|k: int| 0 <= k < pre.len() && pre[k] == d[i];
                assert(s[k] == d[i]);
            }
            assert(first_at(pre, d[i], p));
            if j < d.len() {
                assert(dedup(s)[j] == d[j]);
                assert(d.contains(d[j]));
                assert(pre.contains(d[j]));
                if q == pre.len() {
                    let k = choose|k: int| 0 <= k < pre.len() && pre[k] == d[j];
                    assert(s[k] == d[j]);
                }
                assert(first_at(pre, d[j], q));
            } else {
                assert(dedup(s)[j] == x);
                assert(!pre.contains(x));
                if q < pre.len() {
                    assert(pre[q] == x);
                }
            }
        }
    }
}

/// A list with no repeated line comes out unchanged.
pub proof fn lemma_dedup_of_unique(t: Seq<Seq<u8>>)
    requires
        t.no_duplicates(),
    ensures
        dedup(t) == t,
    decreases t.len(),
{
    if t.len() > 0 {
        let p = t.drop_last();
        assert(p.no_duplicates());
        lemma_dedup_of_unique(p);
        if p.contains(t.last()) {
            let k = choose|k: int| 0 <= k < p.len() && p[k] == t.last();
            assert(t[k] == t[t.len() - 1]);
        }
        lemma_dedup_step(t);
    }
}

/// Running the engine on its own output gives that output again.
pub proof fn lemma_dedup_idempotent(s: Seq<Seq<u8>>)
    ensures
        dedup(dedup(s)) == dedup(s),
{
    lemma_output_unique(s);
    lemma_dedup_of_unique(dedup(s));
}

/// The number of output lines is the number of distinct input lines.
pub proof fn lemma_distinct_count(s: Seq<Seq<u8>>)
    ensures
        dedup(s).len() == s.to_set().len(),
{
    lemma_dedup_same_lines(s);
    lemma_output_unique(s);
    assert(dedup(s).to_set() =~= s.to_set());
    dedup(s).unique_seq_to_set();
}

/// The empty line is kept like any other: it is in the output exactly when it
/// is in the input, and never more than once.
pub proof fn lemma_empty_line(s: Seq<Seq<u8>>)
    ensures
        dedup(s).contains(Seq::<u8>::empty()) <==> s.contains(Seq::<u8>::empty()),
        forall|i: int, j: int|
            0 <= i < j < dedup(s).len() && dedup(s)[i] == Seq::<u8>::empty() ==> dedup(s)[j]
                != Seq::<u8>::empty(),
{
    lemma_dedup_same_lines(s);
    lemma_output_unique(s);
}

proof fn lemma_line_len_facts(b: Seq<u8>)
    ensures
        line_len(b) <= b.len(),
        forall|i: int| 0 <= i < line_len(b) ==> b[i] != LF,
        line_len(b) < b.len() ==> b[line_len(b) as int] == LF,
    decreases b.len(),
{
    if b.len() > 0 && b[0] != LF {
        let r = b.drop_first();
        lemma_line_len_facts(r);
        assert forall|i: int| 0 <= i < line_len(b) implies b[i] != LF by {
            if i > 0 {
                assert(b[i] == r[i - 1]);
            }
        }
    }
}

/// Every line that framing yields is free of line feeds.
pub proof fn lemma_frame_no_lf(b: Seq<u8>)
    ensures
        forall|j: int, i: int|
            0 <= j < frame(b).len() && 0 <= i < frame(b)[j].len() ==> #[trigger] frame(b)[j][i] != LF,
    decreases b.len(),
{
    if b.len() > 0 {
        let k = line_len(b) as int;
        lemma_line_len_facts(b);
        if k < b.len() {
            let rest = b.subrange(k + 1, b.len() as int);
            lemma_frame_no_lf(rest);
            let head = strip_cr(b.subrange(0, k));
            assert forall|j: int, i: int|
                0 <= j < frame(b).len() && 0 <= i < frame(b)[j].len() implies #[trigger] frame(b)[j][i]
                != LF by {
                if j == 0 {
                    assert(frame(b)[j] == head);
                    assert(head[i] == b[i]);
                } else {
                    assert(frame(b)[j] == frame(rest)[j - 1]);
                }
            }
        }
    }
}

/// Framing splits at a line feed that ends the first part.
proof fn lemma_frame_append(a: Seq<u8>, c: Seq<u8>)
    requires
        a.len() == 0 || a.last() == LF,
    ensures
        frame(a + c) == frame(a) + frame(c),
    decreases a.len(),
{
    if a.len() == 0 {
        assert(a + c =~= c);
        assert(frame(a) + frame(c) =~= frame(c));
    } else {
        let ac = a + c;
        lemma_line_len_facts(a);
        let k = line_len(a) as int;
        assert(k < a.len()) by {
            if k >= a.len() {
                assert(a[a.len() - 1] != LF);
            }
        }
        assert forall|i: int| 0 <= i < k implies ac[i] != LF by {
            assert(ac[i] == a[i]);
        }
        lemma_line_len(ac, k);
        let a2 = a.subrange(k + 1, a.len() as int);
        assert(ac.subrange(0, k) =~= a.subrange(0, k));
        assert(ac.subrange(k + 1, ac.len() as int) =~= a2 + c);
        if a2.len() > 0 {
            assert(a2.last() == a.last());
        }
        lemma_frame_append(a2, c);
        assert(frame(ac) =~= frame(a) + frame(c));
    }
}

/// One plain line written with a terminator reads back as itself.
proof fn lemma_frame_one(l: Seq<u8>, term: Terminator)
    requires
        plain_line(l),
    ensures
        frame(l + term.spec_bytes()) == seq![l],
{
    let b = l + term.spec_bytes();
    match term {
        Terminator::Lf => {
            assert forall|i: int| 0 <= i < l.len() implies b[i] != LF by {
                assert(b[i] == l[i]);
            }
            lemma_line_len(b, l.len() as int);
            assert(b.subrange(0, l.len() as int) =~= l);
            assert(strip_cr(b.subrange(0, line_len(b) as int)) == l);
        },
        Terminator::CrLf => {
            assert forall|i: int| 0 <= i < l.len() + 1 implies b[i] != LF by {
                if i < l.len() {
                    assert(b[i] == l[i]);
                }
            }
            lemma_line_len(b, l.len() as int + 1);
            assert(b.subrange(0, l.len() as int + 1) =~= l.push(CR));
            assert(l.push(CR).drop_last() =~= l);
            assert(strip_cr(b.subrange(0, line_len(b) as int)) == l);
        },
    }
    assert(b.subrange(line_len(b) as int + 1, b.len() as int) =~= Seq::<u8>::empty());
    assert(line_len(b) < b.len());
    assert(frame(Seq::<u8>::empty()) == Seq::<Seq<u8>>::empty());
    assert(frame(b) =~= seq![l]);
}

/// Plain lines written with either terminator read back as the same lines.
pub proof fn lemma_frame_render(lines: Seq<Seq<u8>>, term: Terminator)
    requires
        forall|j: int| 0 <= j < lines.len() ==> plain_line(#[trigger] lines[j]),
    ensures
        frame(render(lines, term.spec_bytes())) == lines,
    decreases lines.len(),
{
    if lines.len() > 0 {
        let p = lines.drop_last();
        let t = term.spec_bytes();
        lemma_frame_render(p, term);
        let r = render(p, t);
        if r.len() > 0 {
            assert(r.last() == LF) by {
                lemma_render_ends(p, term);
            }
        }
        assert(render(lines, t) =~= r + (lines.last() + t));
        lemma_frame_append(r, lines.last() + t);
        assert(plain_line(lines[lines.len() - 1]));
        lemma_frame_one(lines.last(), term);
        assert(frame(render(lines, t)) =~= lines);
    }
}

proof fn lemma_render_ends(lines: Seq<Seq<u8>>, term: Terminator)
    ensures
        render(lines, term.spec_bytes()).len() > 0 ==> render(lines, term.spec_bytes()).last() == LF,
{
    if lines.len() > 0 {
        let t = term.spec_bytes();
        let r = render(lines, t);
        assert(r.last() == t.last());
    }
}

/// Running the whole filter on its own output gives that output again, for
/// inputs none of whose lines ends with a carriage return that was kept.
pub proof fn lemma_run_idempotent(b: Seq<u8>, term: Terminator)
    requires
        forall|j: int| 0 <= j < frame(b).len() ==> !(#[trigger] frame(b)[j].len() > 0 && frame(b)[j].last() == CR),
    ensures
        run_output(run_output(b, term), term) == run_output(b, term),
{
    let d = dedup(frame(b));
    lemma_frame_no_lf(b);
    lemma_output_within_input(frame(b));
    assert forall|j: int| 0 <= j < d.len() implies plain_line(#[trigger] d[j]) by {
        let x = d[j];
        assert(frame(b).contains(x));
        let k = choose|k: int| 0 <= k < frame(b).len() && frame(b)[k] == x;
        assert forall|i: int| 0 <= i < x.len() implies x[i] != LF by {
            assert(frame(b)[k][i] != LF);
        }
    }
    lemma_frame_render(d, term);
    lemma_dedup_idempotent(frame(b));
}

/// Input written with CRLF terminators gives the same output as the same
/// lines written with LF terminators.
pub proof fn lemma_crlf_input(lines: Seq<Seq<u8>>, term: Terminator)
    requires
        forall|j: int| 0 <= j < lines.len() ==> plain_line(#[trigger] lines[j]),
    ensures
        run_output(render(lines, Terminator::CrLf.spec_bytes()), term) == run_output(
            render(lines, Terminator::Lf.spec_bytes()),
            term,
        ),
{
    lemma_frame_render(lines, Terminator::CrLf);
    lemma_frame_render(lines, Terminator::Lf);
}

/// Reading an input one line at a time, each read running up to and
/// including a line feed (or to the end of the input), and stripping each
/// read's terminator gives the same lines as framing the whole input.
pub proof fn lemma_frame_by_reads(raw: Seq<u8>, rest: Seq<u8>)
    requires
        raw.len() > 0,
        forall|i: int| 0 <= i < raw.len() - 1 ==> raw[i] != LF,
        raw.last() == LF || rest.len() == 0,
    ensures
        frame(raw + rest) == seq![raw_line(raw)] + frame(rest),
{
    let b = raw + rest;
    if raw.last() == LF {
        assert forall|i: int| 0 <= i < raw.len() - 1 implies b[i] != LF by {
            assert(b[i] == raw[i]);
        }
        lemma_line_len(b, raw.len() - 1);
        assert(b.subrange(0, raw.len() - 1) =~= raw.drop_last());
        assert(b.subrange(raw.len() as int, b.len() as int) =~= rest);
    } else {
        assert(b =~= raw);
        lemma_line_len(raw, raw.len() as int);
        assert(frame(rest) == Seq::<Seq<u8>>::empty());
    }
    assert(frame(b) =~= seq![raw_line(raw)] + frame(rest));
}

} // verus!
