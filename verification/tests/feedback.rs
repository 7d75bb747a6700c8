use wordle_lib::word_match::WordMatch;

#[test]
fn test_word_match() {
    assert_eq!(WordMatch::from(*b"sanes", *b"boats").to_string(), "apaac");
    assert_eq!(WordMatch::from(*b"tonka", *b"aunty").to_string(), "pacap");
    assert_eq!(WordMatch::from(*b"lares", *b"coach").to_string(), "apaaa");
}

#[test]
fn feedback_self_is_correct() {
    for w in [b"crane", b"aaaaa", b"tonka", b"esses", b"boats"] {
        assert_eq!(WordMatch::from(*w, *w), WordMatch(242));
    }
}

#[test]
fn feedback_in_range_and_base3() {
    let words: [&[u8; 5]; 6] = [b"sanes", b"boats", b"tonka", b"aunty", b"lares", b"coach"];
    for g in words {
        for a in words {
            let m = WordMatch::from(*g, *a);
            assert!(m.0 <= 242);
            // the five decoded digits rebuild the packed code
            let rebuilt = m.digit(0) as u16
                + m.digit(1) as u16 * 3
                + m.digit(2) as u16 * 9
                + m.digit(3) as u16 * 27
                + m.digit(4) as u16 * 81;
            assert_eq!(rebuilt, m.0 as u16);
            for i in 0..5 {
                assert!(m.digit(i) <= 2);
            }
        }
    }
}

#[test]
fn feedback_repeated_letters() {
    // every s the answer holds is already matched exactly, so the two spare
    // copies in the guess stay absent
    let m = WordMatch::from(*b"sssss", *b"esses");
    assert_eq!(m.to_string(), "accac");
}

#[test]
fn render_extremes() {
    assert_eq!(WordMatch(0).to_string(), "aaaaa");
    assert_eq!(WordMatch(242).to_string(), "ccccc");
}
