use uniq_lines::config::{parse_interval, Config, IntervalError, Source};
use uniq_lines::engine::{dedup_bytes, Dedup};
use uniq_lines::lines::{split_lines, strip_terminator, Terminator};
use uniq_lines::progress::Progress;
use uniq_lines::seen::{bytes_eq, hash_bytes, SeenSet, HASH_SEED};

fn run(input: &[u8]) -> Vec<u8> {
    dedup_bytes(input, Terminator::Lf)
}

fn lines_of(output: &[u8]) -> Vec<Vec<u8>> {
    split_lines(output)
}

#[test]
fn repeated_lines_keep_first_order() {
    assert_eq!(run(b"a\nb\na\nc\nb\n"), b"a\nb\nc\n".to_vec());
}

#[test]
fn counters_after_repeated_lines() {
    let mut d = Dedup::new();
    for l in split_lines(b"a\nb\na\nc\nb\n") {
        let _ = d.offer(l, Terminator::Lf);
    }
    assert_eq!(d.lines_read(), 5);
    assert_eq!(d.distinct(), 3);
}

#[test]
fn empty_line_emitted_once() {
    assert_eq!(run(b"\n\nx\n\n"), b"\nx\n".to_vec());
}

#[test]
fn last_line_without_terminator() {
    assert_eq!(run(b"hello"), b"hello\n".to_vec());
    assert_eq!(run(b"a\nb"), b"a\nb\n".to_vec());
    assert_eq!(run(b"a\na"), b"a\n".to_vec());
}

#[test]
fn crlf_terminator_on_output() {
    assert_eq!(dedup_bytes(b"hello", Terminator::CrLf), b"hello\r\n".to_vec());
    assert_eq!(dedup_bytes(b"a\nb\na\n", Terminator::CrLf), b"a\r\nb\r\n".to_vec());
}

#[test]
fn empty_input_gives_empty_output() {
    assert_eq!(run(b""), Vec::<u8>::new());
    assert_eq!(dedup_bytes(b"", Terminator::CrLf), Vec::<u8>::new());
}

#[test]
fn crlf_input_matches_lf_input() {
    assert_eq!(run(b"a\r\nb\r\na\r\n"), run(b"a\nb\na\n"));
    assert_eq!(run(b"a\r\nb\r\na\r\n"), b"a\nb\n".to_vec());
    assert_eq!(run(b"x\r\n\r\nx\n\n"), b"x\n\n".to_vec());
}

#[test]
fn output_run_again_is_unchanged() {
    let inputs: [&[u8]; 4] = [b"a\nb\na\nc\nb\n", b"\n\nx\n\n", b"hello", b"q\r\nq\nr\r\n"];
    for input in inputs {
        let once = run(input);
        assert_eq!(run(&once), once);
    }
}

#[test]
fn output_lines_unique_complete_and_in_first_seen_order() {
    let input = b"c\na\nc\nb\na\n\nd\nb\n";
    let out = lines_of(&run(input));
    let inp = lines_of(input);
    // every output line appears in the input
    for l in &out {
        assert!(inp.contains(l));
    }
    // no output line twice
    for i in 0..out.len() {
        for j in (i + 1)..out.len() {
            assert_ne!(out[i], out[j]);
        }
    }
    // every input line appears in the output
    for l in &inp {
        assert!(out.contains(l));
    }
    // first occurrences in the input come in output order
    let first = |l: &Vec<u8>| inp.iter().position(|x| x == l).unwrap();
    for i in 1..out.len() {
        assert!(first(&out[i - 1]) < first(&out[i]));
    }
    let expected: Vec<Vec<u8>> = vec![b"c".to_vec(), b"a".to_vec(), b"b".to_vec(), b"".to_vec(), b"d".to_vec()];
    assert_eq!(out, expected);
}

#[test]
fn distinct_count_equals_output_lines() {
    let mut d = Dedup::new();
    let mut emitted = 0usize;
    for l in split_lines(b"1\n2\n1\n3\n3\n3\n\n") {
        if d.offer(l, Terminator::Lf).is_some() {
            emitted += 1;
        }
    }
    assert_eq!(d.lines_read(), 7);
    assert_eq!(d.distinct(), 4);
    assert_eq!(emitted, 4);
}

#[test]
fn offer_returns_line_and_terminator() {
    let mut d = Dedup::new();
    assert_eq!(d.offer(b"ab".to_vec(), Terminator::Lf), Some(b"ab\n".to_vec()));
    assert_eq!(d.offer(b"ab".to_vec(), Terminator::Lf), None);
    assert_eq!(d.offer(b"".to_vec(), Terminator::CrLf), Some(b"\r\n".to_vec()));
    assert_eq!(d.offer(b"".to_vec(), Terminator::CrLf), None);
}

#[test]
fn progress_every_second_line() {
    let mut d = Dedup::new();
    let mut reports = Vec::new();
    for (i, l) in split_lines(b"a\nb\nc\nd\ne\n").into_iter().enumerate() {
        let _ = d.offer(l, Terminator::Lf);
        if let Some(p) = d.progress(2) {
            reports.push((i + 1, p));
        }
    }
    assert_eq!(reports.len(), 2);
    assert_eq!(reports[0].0, 2);
    assert_eq!(reports[1].0, 4);
    assert_eq!(reports[0].1.lines, 2);
    assert_eq!(reports[0].1.uniques, 2);
    assert_eq!((reports[0].1.percent_whole, reports[0].1.percent_fraction), (100, 0));
}

#[test]
fn progress_every_third_line_of_repeats() {
    let mut d = Dedup::new();
    let mut reports = Vec::new();
    for l in split_lines(b"a\na\na\na\na\na\n") {
        let _ = d.offer(l, Terminator::Lf);
        if let Some(p) = d.progress(3) {
            reports.push(p);
        }
    }
    assert_eq!(reports.len(), 2);
    assert_eq!(reports[0].uniques, 1);
    assert_eq!(reports[1].uniques, 1);
    assert_eq!(reports[0].lines, 3);
    assert_eq!(reports[1].lines, 6);
    assert_eq!((reports[0].percent_whole, reports[0].percent_fraction), (33, 33333));
    assert_eq!((reports[1].percent_whole, reports[1].percent_fraction), (16, 66667));
}

#[test]
fn no_progress_before_first_line() {
    let d = Dedup::new();
    assert!(d.progress(1).is_none());
}

#[test]
fn progress_percent_rounding() {
    let p = Progress::new(3, 2);
    assert_eq!((p.percent_whole, p.percent_fraction), (66, 66667));
    let p = Progress::new(8, 1);
    assert_eq!((p.percent_whole, p.percent_fraction), (12, 50000));
    let p = Progress::new(7, 0);
    assert_eq!((p.percent_whole, p.percent_fraction), (0, 0));
    let p = Progress::new(usize::MAX, usize::MAX);
    assert_eq!((p.percent_whole, p.percent_fraction), (100, 0));
}

#[test]
fn split_lines_framing() {
    let got = split_lines(b"a\r\nb\n\nc\r\r\nd\r");
    let expected: Vec<Vec<u8>> = vec![
        b"a".to_vec(),
        b"b".to_vec(),
        b"".to_vec(),
        b"c\r".to_vec(),
        b"d\r".to_vec(),
    ];
    assert_eq!(got, expected);
    assert!(split_lines(b"").is_empty());
    assert_eq!(split_lines(b"\n"), vec![Vec::<u8>::new()]);
}

#[test]
fn strip_terminator_cases() {
    assert_eq!(strip_terminator(b"abc\n".to_vec()), b"abc".to_vec());
    assert_eq!(strip_terminator(b"abc\r\n".to_vec()), b"abc".to_vec());
    assert_eq!(strip_terminator(b"abc".to_vec()), b"abc".to_vec());
    assert_eq!(strip_terminator(b"abc\r".to_vec()), b"abc\r".to_vec());
    assert_eq!(strip_terminator(b"\r\n".to_vec()), Vec::<u8>::new());
    assert_eq!(strip_terminator(b"\n".to_vec()), Vec::<u8>::new());
}

#[test]
fn seen_set_grows_and_stays_exact() {
    let mut s = SeenSet::new();
    for i in 0..2000u32 {
        assert!(s.insert(i.to_string().into_bytes()));
    }
    assert_eq!(s.len(), 2000);
    for i in 0..2000u32 {
        assert!(s.contains(i.to_string().as_bytes()));
        assert!(!s.insert(i.to_string().into_bytes()));
    }
    assert!(!s.contains(b"2000"));
    assert!(!s.contains(b""));
    assert!(s.insert(Vec::new()));
    assert!(s.contains(b""));
    assert_eq!(s.len(), 2001);
}

#[test]
fn byte_hash_and_equality() {
    assert_eq!(hash_bytes(b""), HASH_SEED);
    assert_eq!(hash_bytes(b"a"), 0xaf63_dc4c_8601_ec8c);
    assert!(bytes_eq(b"abc", b"abc"));
    assert!(!bytes_eq(b"abc", b"abd"));
    assert!(!bytes_eq(b"abc", b"ab"));
}

#[test]
fn interval_parsing() {
    assert_eq!(parse_interval("10000"), Ok(10000));
    assert_eq!(parse_interval("+7"), Ok(7));
    assert_eq!(parse_interval("0"), Err(IntervalError::Zero));
    assert_eq!(parse_interval("000"), Err(IntervalError::Zero));
    assert_eq!(parse_interval("-3"), Err(IntervalError::NotANumber));
    assert_eq!(parse_interval("2.5"), Err(IntervalError::NotANumber));
    assert_eq!(parse_interval(""), Err(IntervalError::NotANumber));
    assert_eq!(parse_interval("+"), Err(IntervalError::NotANumber));
    assert_eq!(parse_interval(" 5"), Err(IntervalError::NotANumber));
    assert_eq!(parse_interval("99999999999999999999999"), Err(IntervalError::TooLarge));
    assert_eq!(parse_interval(&usize::MAX.to_string()), Ok(usize::MAX));
}

#[test]
fn config_from_arguments() {
    let c = Config::from_args(None, "-").unwrap();
    assert_eq!(c.verbose_interval, None);
    assert!(matches!(c.input, Source::Stdin));
    let c = Config::from_args(Some("2"), "/tmp/in.txt").unwrap();
    assert_eq!(c.verbose_interval, Some(2));
    match c.input {
        Source::File(p) => assert_eq!(p, "/tmp/in.txt"),
        Source::Stdin => panic!("expected a file"),
    }
    assert_eq!(Config::from_args(Some("0"), "-").unwrap_err(), IntervalError::Zero);
    assert_eq!(Config::from_args(Some("x"), "-").unwrap_err(), IntervalError::NotANumber);
    assert!(matches!(Source::from_arg("--"), Source::File(_)));
}
