use cw::count::{CountError, Counter, Counts, Strategy};
use cw::scan::Scanner;
use cw::text::{piece_at, TextCount, READ_SIZE};

const ALL: [Strategy; 7] = [
    Strategy::BytesOnly,
    Strategy::LinesOnly,
    Strategy::CharsOnly,
    Strategy::LinesLongest,
    Strategy::WordsLinesLongest,
    Strategy::CharsLinesLongest,
    Strategy::CharsWordsLinesLongest,
];

fn count(strategy: Strategy, data: &[u8]) -> Counts {
    let mut c = Counts::default();
    strategy.count(data, &mut c).unwrap();
    c
}

/// Feeds `data` in chunks of `size` bytes.
fn count_in_chunks(strategy: Strategy, data: &[u8], size: usize) -> Counts {
    let mut scanner = Scanner::new(strategy, None);
    for chunk in data.chunks(size) {
        scanner.feed(chunk).unwrap();
    }
    scanner.finish()
}

#[test]
fn test_bytes() {
    let mut c = Counts::default();
    Strategy::BytesOnly.count(b"12345678", &mut c).unwrap();
    assert_eq!(c.bytes, 8);
}

#[test]
fn test_lines() {
    let mut c = Counts::default();
    Strategy::LinesOnly
        .count(b"\n\n\n\n\n\n\n\n", &mut c)
        .unwrap();
    assert_eq!(c.lines, 8);
}

#[test]
fn test_chars() {
    let mut c = Counts::default();
    Strategy::CharsOnly.count(b"fo\xC3\xB3", &mut c).unwrap();
    assert_eq!(c.chars, 3);
    assert_eq!(c.bytes, 4);
}

#[test]
fn test_lines_longest() {
    let mut c = Counts::default();
    Strategy::LinesLongest
        .count(b"foo\nbar\nmoooo\nhmm\n", &mut c)
        .unwrap();
    assert_eq!(c.lines, 4);
    assert_eq!(c.longest_line, 5);
}

#[test]
fn test_words_lines_longest() {
    let mut c = Counts::default();
    Strategy::WordsLinesLongest
        .count(b"one two\nthree\nfour five six\n", &mut c)
        .unwrap();
    assert_eq!(c.lines, 3);
    assert_eq!(c.words, 6);
    assert_eq!(c.longest_line, 13);
}

#[test]
fn test_chars_lines_longest() {
    let mut c = Counts::default();
    Strategy::CharsLinesLongest
        .count(b"foo\nbar\nmoo\xC3\xB3o\nhmm\n", &mut c)
        .unwrap();
    assert_eq!(c.lines, 4);
    assert_eq!(c.chars, c.bytes - 1);
    assert_eq!(c.longest_line, 5);
}

#[test]
fn test_chars_words_lines_longest() {
    let mut c = Counts::default();
    Strategy::CharsWordsLinesLongest
        .count(b"\xC3\xB3ne two\nthree\nfour five six\n", &mut c)
        .unwrap();
    assert_eq!(c.lines, 3);
    assert_eq!(c.words, 6);
    assert_eq!(c.chars, c.bytes - 1);
    assert_eq!(c.longest_line, 13);
}

#[test]
fn empty_input_counts_nothing() {
    for strategy in ALL {
        let c = count(strategy, b"");
        assert_eq!(
            (c.lines, c.words, c.bytes, c.chars, c.longest_line),
            (0, 0, 0, 0, 0)
        );
        assert!(c.path.is_none());
    }
}

#[test]
fn every_algorithm_counts_bytes_exactly() {
    let data = b"one two\nthree\nfour five six\n";
    for strategy in ALL {
        assert_eq!(count(strategy, data).bytes, data.len() as u64);
    }
}

#[test]
fn metrics_that_an_algorithm_lacks_stay_zero() {
    let data = b"one two\nthree\n";
    let c = count(Strategy::BytesOnly, data);
    assert_eq!((c.lines, c.words, c.chars, c.longest_line), (0, 0, 0, 0));
    let c = count(Strategy::LinesOnly, data);
    assert_eq!((c.lines, c.words, c.chars, c.longest_line), (2, 0, 0, 0));
    let c = count(Strategy::CharsOnly, data);
    assert_eq!((c.lines, c.words, c.chars, c.longest_line), (0, 0, 14, 0));
    let c = count(Strategy::LinesLongest, data);
    assert_eq!((c.lines, c.words, c.chars, c.longest_line), (2, 0, 0, 7));
    let c = count(Strategy::WordsLinesLongest, data);
    assert_eq!((c.lines, c.words, c.chars, c.longest_line), (2, 3, 0, 7));
    let c = count(Strategy::CharsLinesLongest, data);
    assert_eq!((c.lines, c.words, c.chars, c.longest_line), (2, 0, 14, 7));
    let c = count(Strategy::CharsWordsLinesLongest, data);
    assert_eq!((c.lines, c.words, c.chars, c.longest_line), (2, 3, 14, 7));
}

#[test]
fn ascii_and_decoding_word_counts_agree() {
    let data = b"one two\nthree\nfour five six\n";
    let a = count(Strategy::WordsLinesLongest, data);
    let b = count(Strategy::CharsWordsLinesLongest, data);
    assert_eq!((a.lines, a.words, a.longest_line), (3, 6, 13));
    assert_eq!((b.lines, b.words, b.longest_line), (3, 6, 13));
}

#[test]
fn algorithms_that_serve_a_request_agree() {
    let data = "caf\u{e9} au lait\n\nna\u{ef}ve r\u{e9}sum\u{e9}\nlast".as_bytes();
    let with_lines = [
        Strategy::LinesOnly,
        Strategy::LinesLongest,
        Strategy::WordsLinesLongest,
        Strategy::CharsLinesLongest,
        Strategy::CharsWordsLinesLongest,
    ];
    for strategy in with_lines {
        assert_eq!(count(strategy, data).lines, 3);
    }
    let with_chars = [
        Strategy::CharsOnly,
        Strategy::CharsLinesLongest,
        Strategy::CharsWordsLinesLongest,
    ];
    for strategy in with_chars {
        assert_eq!(count(strategy, data).chars, 31);
    }
    // Lines measured in characters.
    assert_eq!(count(Strategy::CharsLinesLongest, data).longest_line, 12);
    assert_eq!(count(Strategy::CharsWordsLinesLongest, data).longest_line, 12);
    // Lines measured in bytes: three of the characters take two bytes each.
    assert_eq!(count(Strategy::LinesLongest, data).longest_line, 15);
    assert_eq!(count(Strategy::WordsLinesLongest, data).longest_line, 15);
}

#[test]
fn a_line_without_its_line_feed_is_not_the_longest() {
    let data = b"ab\ncdefgh";
    assert_eq!(count(Strategy::LinesLongest, data).longest_line, 2);
    assert_eq!(count(Strategy::WordsLinesLongest, data).longest_line, 2);
    assert_eq!(count(Strategy::CharsLinesLongest, data).longest_line, 2);
    assert_eq!(count(Strategy::CharsWordsLinesLongest, data).longest_line, 2);
    assert_eq!(count(Strategy::LinesLongest, b"no end").longest_line, 0);
}

#[test]
fn the_first_line_is_measured_in_full() {
    assert_eq!(count(Strategy::LinesLongest, b"abcdef\nab\n").longest_line, 6);
    assert_eq!(count(Strategy::LinesLongest, b"\n").longest_line, 0);
    assert_eq!(count(Strategy::LinesLongest, b"\n\nabc\n").longest_line, 3);
    assert_eq!(count(Strategy::LinesLongest, b"\n\nabc\n").lines, 3);
}

#[test]
fn words_are_runs_between_ascii_separators() {
    let c = count(Strategy::WordsLinesLongest, b"  a\tbc\r\n\x0cdef  g");
    assert_eq!(c.words, 4);
    assert_eq!(c.lines, 1);
    // A vertical tab is no ASCII separator.
    assert_eq!(count(Strategy::WordsLinesLongest, b"a\x0bb").words, 1);
    assert_eq!(count(Strategy::WordsLinesLongest, b"").words, 0);
    assert_eq!(count(Strategy::WordsLinesLongest, b"   ").words, 0);
}

#[test]
fn decoded_words_are_split_by_unicode_space() {
    // U+00A0 and U+2003 have the property White_Space; U+200B has not.
    let data = "a\u{a0}b\u{2003}c\u{200b}d".as_bytes();
    assert_eq!(count(Strategy::CharsWordsLinesLongest, data).words, 3);
    assert_eq!(count(Strategy::CharsWordsLinesLongest, data).chars, 7);
    // The byte-wise algorithm sees one run of bytes.
    assert_eq!(count(Strategy::WordsLinesLongest, data).words, 1);
    assert_eq!(count(Strategy::CharsWordsLinesLongest, b"a\x0bb").words, 2);
}

#[test]
fn characters_of_every_width_are_decoded() {
    let data = "a\u{e9}\u{20ac}\u{1f600}\n".as_bytes();
    assert_eq!(data.len(), 11);
    let c = count(Strategy::CharsWordsLinesLongest, data);
    assert_eq!(
        (c.lines, c.words, c.bytes, c.chars, c.longest_line),
        (1, 1, 11, 5, 4)
    );
    let c = count(Strategy::CharsLinesLongest, data);
    assert_eq!((c.lines, c.bytes, c.chars, c.longest_line), (1, 11, 5, 4));
    assert_eq!(count(Strategy::CharsOnly, data).chars, 5);
}

#[test]
fn invalid_text_is_refused() {
    let inputs: [&[u8]; 6] = [
        b"ok\n\xff\n",
        b"\xc3",
        b"\xc0\x80",
        b"\xed\xa0\x80",
        b"\xf4\x90\x80\x80",
        b"abc\x80",
    ];
    for data in inputs {
        let mut c = Counts::new("f");
        c.lines = 7;
        let r = Strategy::CharsWordsLinesLongest.count(data, &mut c);
        assert_eq!(r, Err(CountError::InvalidText));
        // Nothing is kept of an input that was refused.
        assert_eq!(
            (c.lines, c.words, c.bytes, c.chars, c.longest_line),
            (7, 0, 0, 0, 0)
        );
    }
}

#[test]
fn only_the_decoding_algorithm_refuses() {
    let data = b"a\xffb\n\x80\x80";
    assert_eq!(count(Strategy::BytesOnly, data).bytes, 6);
    assert_eq!(count(Strategy::LinesOnly, data).lines, 1);
    assert_eq!(count(Strategy::CharsOnly, data).chars, 4);
    assert_eq!(count(Strategy::LinesLongest, data).longest_line, 3);
    assert_eq!(count(Strategy::WordsLinesLongest, data).words, 2);
    assert_eq!(count(Strategy::CharsLinesLongest, data).longest_line, 3);
}

#[test]
fn counting_adds_to_what_the_record_holds() {
    let mut c = Counts::new("both");
    Strategy::WordsLinesLongest
        .count(b"a bc\nlonger line\n", &mut c)
        .unwrap();
    Strategy::WordsLinesLongest.count(b"x\ny", &mut c).unwrap();
    assert_eq!(
        (c.lines, c.words, c.bytes, c.chars, c.longest_line),
        (3, 6, 20, 0, 11)
    );
    assert_eq!(c.path.as_deref(), Some("both"));
}

#[test]
fn chunks_do_not_change_the_counts() {
    let data = "one tw\u{f6} \n\nthree\u{2003}four\nfive si\u{20ac} seven \n tail".as_bytes();
    for strategy in ALL {
        // The decoding algorithm takes only chunks that are valid by
        // themselves: it is fed the same cuts below, at character bounds.
        if strategy == Strategy::CharsWordsLinesLongest {
            continue;
        }
        let whole = count(strategy, data);
        for size in 1..=data.len() {
            let parts = count_in_chunks(strategy, data, size);
            assert_eq!(
                (parts.lines, parts.words, parts.bytes, parts.chars, parts.longest_line),
                (whole.lines, whole.words, whole.bytes, whole.chars, whole.longest_line)
            );
        }
    }
}

#[test]
fn decoding_carries_its_state_from_chunk_to_chunk() {
    let text = "one tw\u{f6} \n\nthree\u{2003}four\nfive si\u{20ac} seven \n tail";
    let whole = count(Strategy::CharsWordsLinesLongest, text.as_bytes());
    assert_eq!(
        (whole.lines, whole.words, whole.bytes, whole.chars, whole.longest_line),
        (4, 8, 47, 42, 15)
    );
    let mut scanner = Scanner::new(Strategy::CharsWordsLinesLongest, None);
    let mut buf = [0u8; 4];
    for c in text.chars() {
        scanner.feed(c.encode_utf8(&mut buf).as_bytes()).unwrap();
    }
    let parts = scanner.finish();
    assert_eq!(
        (parts.lines, parts.words, parts.bytes, parts.chars, parts.longest_line),
        (4, 8, 47, 42, 15)
    );
}

#[test]
fn a_refused_chunk_leaves_the_scanner_as_it_was() {
    let mut scanner = Scanner::new(Strategy::CharsWordsLinesLongest, Some(String::from("in")));
    scanner.feed(b"one two\n").unwrap();
    assert_eq!(scanner.feed(b"three \xe2\x82"), Err(CountError::InvalidText));
    {
        let c = scanner.counts();
        assert_eq!(
            (c.lines, c.words, c.bytes, c.chars, c.longest_line),
            (1, 2, 8, 8, 7)
        );
    }
    scanner.feed(b"four").unwrap();
    assert_eq!(scanner.strategy(), Strategy::CharsWordsLinesLongest);
    let c = scanner.finish();
    assert_eq!(
        (c.lines, c.words, c.bytes, c.chars, c.longest_line),
        (1, 3, 12, 12, 7)
    );
    assert_eq!(c.path.as_deref(), Some("in"));
}

#[test]
fn lines_longer_than_a_read_are_measured_across_reads() {
    let mut data = vec![b'x'; READ_SIZE * 2 + 5];
    data.push(b'\n');
    data.extend_from_slice(b"short\n");
    let expected = (READ_SIZE * 2 + 5) as u64;
    assert_eq!(count(Strategy::LinesLongest, &data).longest_line, expected);
    assert_eq!(count(Strategy::WordsLinesLongest, &data).longest_line, expected);
    assert_eq!(count(Strategy::CharsLinesLongest, &data).longest_line, expected);
    assert_eq!(
        count(Strategy::CharsWordsLinesLongest, &data).longest_line,
        expected
    );
    assert_eq!(count(Strategy::WordsLinesLongest, &data).words, 2);
    assert_eq!(count(Strategy::CharsWordsLinesLongest, &data).words, 2);
    assert_eq!(count(Strategy::LinesOnly, &data).lines, 2);
}

#[test]
fn a_line_feed_at_the_end_of_a_read_closes_the_line() {
    let mut data = vec![b'y'; READ_SIZE - 1];
    data.push(b'\n');
    data.extend_from_slice("\u{e9}\n".as_bytes());
    for strategy in [Strategy::CharsLinesLongest, Strategy::CharsWordsLinesLongest] {
        let c = count(strategy, &data);
        assert_eq!(
            (c.lines, c.chars, c.longest_line),
            (2, READ_SIZE as u64 + 2, READ_SIZE as u64 - 1)
        );
    }
}

#[test]
fn a_read_that_cuts_a_character_is_refused_by_the_decoder() {
    // One line of more than a read, with a two-byte character across the cut.
    let mut data = vec![b'z'; READ_SIZE - 1];
    data.extend_from_slice("\u{e9}".as_bytes());
    data.push(b'\n');
    let mut c = Counts::default();
    assert_eq!(
        Strategy::CharsWordsLinesLongest.count(&data, &mut c),
        Err(CountError::InvalidText)
    );
    // The algorithms that only look for first bytes are not troubled.
    assert_eq!(count(Strategy::CharsLinesLongest, &data).chars, READ_SIZE as u64 + 1);
    assert_eq!(count(Strategy::CharsOnly, &data).chars, READ_SIZE as u64 + 1);
}

#[test]
fn a_file_is_counted_by_its_size_only_for_bytes() {
    let c = Strategy::BytesOnly.count_file("big", Some(1 << 40)).unwrap();
    assert_eq!(
        (c.lines, c.words, c.bytes, c.chars, c.longest_line),
        (0, 0, 1 << 40, 0, 0)
    );
    assert_eq!(c.path.as_deref(), Some("big"));
    assert!(Strategy::BytesOnly.count_file("pipe", None).is_none());
    for strategy in ALL {
        if strategy != Strategy::BytesOnly {
            assert!(strategy.count_file("big", Some(12)).is_none());
            assert!(strategy.count_file("big", None).is_none());
        }
    }
}

#[test]
fn text_is_counted_character_by_character() {
    let mut t = TextCount {
        lines: 0,
        words: 0,
        chars: 0,
        longest_line: 0,
        line_len: 0,
        in_word: false,
    };
    let steps: [(char, bool, [u64; 5], bool); 8] = [
        ('a', false, [0, 1, 1, 0, 1], true),
        ('b', false, [0, 1, 2, 0, 2], true),
        (' ', true, [0, 1, 3, 0, 3], false),
        ('\u{2003}', true, [0, 1, 4, 0, 4], false),
        ('c', false, [0, 2, 5, 0, 5], true),
        ('\n', true, [1, 2, 6, 5, 0], false),
        ('d', false, [1, 3, 7, 5, 1], true),
        // A line feed ends line and word, whatever is said of it.
        ('\n', false, [2, 3, 8, 5, 0], false),
    ];
    for (c, white, n, in_word) in steps {
        t.push(c, white);
        assert_eq!(
            t,
            TextCount {
                lines: n[0],
                words: n[1],
                chars: n[2],
                longest_line: n[3],
                line_len: n[4],
                in_word,
            }
        );
    }
}

#[test]
fn pieces_end_with_a_line_feed_or_after_a_read() {
    let data = b"ab\n\ncd";
    assert_eq!(piece_at(data, 0), 3);
    assert_eq!(piece_at(data, 1), 2);
    assert_eq!(piece_at(data, 3), 1);
    assert_eq!(piece_at(data, 4), 2);
    assert_eq!(piece_at(data, 6), 0);
    let long = vec![b'x'; READ_SIZE + 10];
    assert_eq!(piece_at(&long, 0), READ_SIZE);
    assert_eq!(piece_at(&long, READ_SIZE), 10);
    let mut edge = vec![b'x'; READ_SIZE - 1];
    edge.push(b'\n');
    edge.push(b'y');
    assert_eq!(piece_at(&edge, 0), READ_SIZE);
    let mut late = vec![b'x'; READ_SIZE];
    late.push(b'\n');
    assert_eq!(piece_at(&late, 0), READ_SIZE);
    assert_eq!(piece_at(&late, READ_SIZE), 1);
}
