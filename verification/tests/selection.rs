use cw::args::Opt;
use cw::count::{Capability, Counter, Strategy};

const ALL: [Strategy; 7] = [
    Strategy::BytesOnly,
    Strategy::LinesOnly,
    Strategy::CharsOnly,
    Strategy::LinesLongest,
    Strategy::WordsLinesLongest,
    Strategy::CharsLinesLongest,
    Strategy::CharsWordsLinesLongest,
];

fn asking(lines: bool, words: bool, bytes: bool, chars: bool, longest_line: bool) -> Opt {
    Opt {
        lines,
        words,
        bytes,
        chars,
        longest_line,
        ..Opt::default()
    }
}

fn every_request() -> Vec<Opt> {
    let mut all = Vec::new();
    for bits in 0..32u32 {
        all.push(asking(
            bits & 1 != 0,
            bits & 2 != 0,
            bits & 4 != 0,
            bits & 8 != 0,
            bits & 16 != 0,
        ));
    }
    all
}

#[test]
fn the_table_of_capabilities() {
    let rows: [(Strategy, u32, [bool; 5]); 7] = [
        (Strategy::BytesOnly, 0, [false, false, true, false, false]),
        (Strategy::LinesOnly, 1, [true, false, true, false, false]),
        (Strategy::CharsOnly, 1, [false, false, true, true, false]),
        (Strategy::LinesLongest, 30, [true, false, true, false, true]),
        (Strategy::WordsLinesLongest, 150, [true, true, true, false, true]),
        (Strategy::CharsLinesLongest, 120, [true, false, true, true, true]),
        (Strategy::CharsWordsLinesLongest, 400, [true, true, true, true, true]),
    ];
    for (strategy, rank, can) in rows {
        let c = strategy.capabilities();
        assert_eq!(c.rank, rank);
        assert_eq!([c.lines, c.words, c.bytes, c.chars, c.longest_line], can);
    }
    assert_eq!(Strategy::all(), ALL);
}

#[test]
fn the_selected_algorithm_is_the_cheapest_that_serves() {
    for opt in every_request() {
        let chosen = Strategy::from(&opt);
        assert!(chosen.capabilities().is_compatible(&opt));
        for other in ALL {
            if other != chosen && other.capabilities().is_compatible(&opt) {
                assert!(chosen.capabilities().rank < other.capabilities().rank);
            }
        }
    }
}

#[test]
fn selection_gives_the_same_answer_each_time() {
    for opt in every_request() {
        let first = Strategy::from(&opt);
        let mut again = opt.clone();
        again.threads = 9;
        again.input = vec![String::from("x")];
        assert_eq!(Strategy::from(&opt), first);
        assert_eq!(Strategy::from(&again), first);
    }
}

#[test]
fn selection_by_request() {
    let cases: [([bool; 5], Strategy); 12] = [
        ([false, false, false, false, false], Strategy::BytesOnly),
        ([false, false, true, false, false], Strategy::BytesOnly),
        ([true, false, false, false, false], Strategy::LinesOnly),
        ([true, false, true, false, false], Strategy::LinesOnly),
        ([false, false, false, true, false], Strategy::CharsOnly),
        ([false, false, true, true, false], Strategy::CharsOnly),
        ([false, false, false, false, true], Strategy::LinesLongest),
        ([true, false, false, false, true], Strategy::LinesLongest),
        ([true, true, true, false, false], Strategy::WordsLinesLongest),
        ([true, false, false, true, false], Strategy::CharsLinesLongest),
        ([false, false, false, true, true], Strategy::CharsLinesLongest),
        ([false, true, false, true, false], Strategy::CharsWordsLinesLongest),
    ];
    for (want, expected) in cases {
        let opt = asking(want[0], want[1], want[2], want[3], want[4]);
        assert_eq!(Strategy::from(&opt), expected);
    }
}

#[test]
fn words_and_longest_line_need_the_unit_asked_for() {
    let byte_words = Strategy::WordsLinesLongest.capabilities();
    let char_words = Strategy::CharsWordsLinesLongest.capabilities();
    let words_in_bytes = asking(false, true, false, false, false);
    let words_in_chars = asking(false, true, false, true, false);
    assert!(byte_words.is_compatible(&words_in_bytes));
    assert!(!char_words.is_compatible(&words_in_bytes));
    assert!(!byte_words.is_compatible(&words_in_chars));
    assert!(char_words.is_compatible(&words_in_chars));

    let longest_in_bytes = asking(false, false, false, false, true);
    let longest_in_chars = asking(false, false, false, true, true);
    assert!(Strategy::LinesLongest.capabilities().is_compatible(&longest_in_bytes));
    assert!(!Strategy::CharsLinesLongest.capabilities().is_compatible(&longest_in_bytes));
    assert!(!Strategy::LinesLongest.capabilities().is_compatible(&longest_in_chars));
    assert!(Strategy::CharsLinesLongest.capabilities().is_compatible(&longest_in_chars));
    // Lines are lines in either unit.
    let lines_only = asking(true, false, false, false, false);
    assert!(Strategy::CharsLinesLongest.capabilities().is_compatible(&lines_only));
    assert!(!Strategy::BytesOnly.capabilities().is_compatible(&lines_only));
}

#[test]
fn the_default_capability_serves_only_the_empty_request() {
    let none = Capability::default();
    assert_eq!(none.rank, 0);
    assert!(none.is_compatible(&asking(false, false, false, false, false)));
    assert!(!none.is_compatible(&asking(false, false, true, false, false)));
}
