use cw::args::Opt;
use cw::count::Counts;
use cw::render::push_column;
use cw::siginfo::check_signal;

fn record(path: Option<&str>, n: [u64; 5]) -> Counts {
    Counts {
        path: path.map(String::from),
        lines: n[0],
        words: n[1],
        bytes: n[2],
        chars: n[3],
        longest_line: n[4],
    }
}

fn asking(lines: bool, words: bool, bytes: bool, chars: bool, longest_line: bool) -> Opt {
    Opt {
        lines,
        words,
        bytes,
        chars,
        longest_line,
        ..Opt::default()
    }
}

#[test]
fn a_new_record_is_empty_and_labelled() {
    let c = Counts::new("some/file");
    assert_eq!(c.path.as_deref(), Some("some/file"));
    assert_eq!(
        (c.lines, c.words, c.bytes, c.chars, c.longest_line),
        (0, 0, 0, 0, 0)
    );
    let d = Counts::default();
    assert!(d.path.is_none());
    assert_eq!(
        (d.lines, d.words, d.bytes, d.chars, d.longest_line),
        (0, 0, 0, 0, 0)
    );
}

#[test]
fn adding_sums_all_but_the_longest_line() {
    let mut total = record(Some("total"), [1, 2, 3, 4, 50]);
    total.add(&record(Some("a"), [10, 20, 30, 40, 5]));
    assert_eq!(
        (total.lines, total.words, total.bytes, total.chars, total.longest_line),
        (11, 22, 33, 44, 50)
    );
    total.add(&record(None, [100, 200, 300, 400, 51]));
    assert_eq!(
        (total.lines, total.words, total.bytes, total.chars, total.longest_line),
        (111, 222, 333, 444, 51)
    );
    assert_eq!(total.path.as_deref(), Some("total"));
}

#[test]
fn room_is_told_before_adding() {
    let full = record(None, [u64::MAX - 1, 0, 0, 0, u64::MAX]);
    assert!(full.has_room_for(&record(None, [1, 5, 5, 5, u64::MAX])));
    assert!(!full.has_room_for(&record(None, [2, 0, 0, 0, 0])));
    assert!(!record(None, [0, u64::MAX, 0, 0, 0]).has_room_for(&record(None, [0, 1, 0, 0, 0])));
    assert!(!record(None, [0, 0, u64::MAX, 0, 0]).has_room_for(&record(None, [0, 0, 1, 0, 0])));
    assert!(!record(None, [0, 0, 0, u64::MAX, 0]).has_room_for(&record(None, [0, 0, 0, 1, 0])));
}

#[test]
fn a_line_holds_the_columns_asked_for_in_order() {
    let c = record(Some("f.txt"), [1, 22, 333, 4444, 55555]);
    assert_eq!(
        c.print(&asking(true, true, true, false, true)),
        "       1      22     333   55555 f.txt\n"
    );
    assert_eq!(
        c.print(&asking(true, true, true, false, false)),
        "       1      22     333 f.txt\n"
    );
    assert_eq!(c.print(&asking(false, true, false, false, false)), "      22 f.txt\n");
    assert_eq!(c.print(&asking(false, false, false, false, false)), " f.txt\n");
}

#[test]
fn characters_take_the_place_of_bytes() {
    let c = record(Some("f"), [1, 22, 333, 4444, 55555]);
    assert_eq!(c.print(&asking(false, false, true, true, false)), "    4444 f\n");
    assert_eq!(c.print(&asking(false, false, false, true, false)), "    4444 f\n");
    assert_eq!(c.print(&asking(false, false, true, false, false)), "     333 f\n");
}

#[test]
fn a_record_without_label_prints_none() {
    let c = record(None, [3, 0, 0, 0, 0]);
    assert_eq!(c.print(&asking(true, false, false, false, false)), "       3\n");
    assert_eq!(c.print(&asking(false, false, false, false, false)), "\n");
}

#[test]
fn numbers_are_right_aligned_in_seven_characters() {
    let cases: [(u64, &str); 9] = [
        (0, "       0"),
        (9, "       9"),
        (10, "      10"),
        (1234567, " 1234567"),
        (999999, "  999999"),
        (12345678, " 12345678"),
        (1000000000, " 1000000000"),
        (u64::MAX, " 18446744073709551615"),
        (10000000000000000000, " 10000000000000000000"),
    ];
    for (n, expected) in cases {
        let mut out = String::from("x");
        push_column(&mut out, n);
        assert_eq!(out, format!("x{}", expected));
        assert_eq!(out, format!("x {:>7}", n));
    }
}

#[test]
fn a_run_without_metrics_asks_for_lines_words_and_bytes() {
    let mut opt = Opt::default();
    opt.threads = 3;
    opt.input = vec![String::from("a")];
    opt.apply_defaults();
    assert!(opt.lines && opt.words && opt.bytes);
    assert!(!opt.chars && !opt.longest_line);
    assert_eq!(opt.threads, 3);
    assert_eq!(opt.input, vec![String::from("a")]);

    let mut named = asking(false, false, false, true, false);
    named.apply_defaults();
    assert!(named.chars);
    assert!(!named.lines && !named.words && !named.bytes && !named.longest_line);
}

#[test]
fn workers_are_no_more_than_inputs_or_threads() {
    let mut opt = Opt::default();
    assert_eq!(opt.workers(), 0);
    opt.input = vec![String::from("a"), String::from("b"), String::from("c")];
    opt.threads = 1;
    assert_eq!(opt.workers(), 1);
    opt.threads = 3;
    assert_eq!(opt.workers(), 3);
    opt.threads = 8;
    assert_eq!(opt.workers(), 3);
    opt.threads = 0;
    assert_eq!(opt.workers(), 0);
}

#[test]
fn a_signal_is_noticed_once() {
    let mut seen = 0usize;
    assert!(!check_signal(&mut seen, 0));
    assert!(check_signal(&mut seen, 1));
    assert_eq!(seen, 1);
    assert!(!check_signal(&mut seen, 1));
    assert!(check_signal(&mut seen, 4));
    assert_eq!(seen, 4);
    assert!(!check_signal(&mut seen, 4));
    assert!(check_signal(&mut seen, 0));
}
