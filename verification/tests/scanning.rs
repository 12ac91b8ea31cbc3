use skimmer::feed::Read;
use skimmer::feed::SliceReader;
use skimmer::scanner::Brace;
use skimmer::scanner::NO_BRACES;
use skimmer::scanner::NO_ESCAPES;
use skimmer::scanner::NO_QUOTES;
use skimmer::scanner::Quote;
use skimmer::scanner::Stop;
use skimmer::scanner::scan;
use skimmer::scanner::scan_one;
use skimmer::scanner::scan_until;
use skimmer::scanner::scan_while;
use skimmer::scanner::skip_until;
use skimmer::scanner::skip_while;
use skimmer::symbol::Char;
use skimmer::symbol::Symbol;

#[test]
fn test_stop() {
    let stop = Stop::new().skip(false).greedy(false).escaped(false).quoted(false);

    assert_eq!(false, stop.skip);
    assert_eq!(false, stop.greedy);
    assert_eq!(false, stop.escaped);
    assert_eq!(false, stop.quoted);

    let stop = Stop::new().skip(true).greedy(true).escaped(true).quoted(true);

    assert!(stop.skip);
    assert!(stop.greedy);
    assert!(stop.escaped);
    assert!(stop.quoted);
}

#[test]
fn test_brace() {
    let brace = Brace::new().is_stop(false).escaped(false).quoted(false).escapes_stop(false);

    assert_eq!(false, brace.is_stop);
    assert_eq!(false, brace.escaped);
    assert_eq!(false, brace.quoted);
    assert_eq!(false, brace.escapes_stop);

    let brace = Brace::new().is_stop(true).escaped(true).quoted(true).escapes_stop(true);

    assert!(brace.is_stop);
    assert!(brace.escaped);
    assert!(brace.quoted);
    assert!(brace.escapes_stop);
}

#[test]
fn test_quote() {
    let quote = Quote::new().is_stop(false).escaped(false).greedy(false).escapes_stop(false);

    assert_eq!(false, quote.is_stop);
    assert_eq!(false, quote.escaped);
    assert_eq!(false, quote.greedy);
    assert_eq!(false, quote.escapes_stop);

    let quote = Quote::new().is_stop(true).escaped(true).greedy(true).escapes_stop(true);

    assert!(quote.is_stop);
    assert!(quote.escaped);
    assert!(quote.greedy);
    assert!(quote.escapes_stop);
}

#[test]
fn test_scan_macro() {
    let string = r"Lorem( ipsum\) dolor') sit' amet) consectetur";

    let stops = [(Stop::new(), Char::new(" ".as_bytes()).to_word())];
    let escapes = [Char::new(r"\".as_bytes()).to_word()];
    let quotes = [(Quote::new(), Char::new("'".as_bytes()).to_word())];
    let braces = [(
        Brace::new().is_stop(false),
        (Char::new("(".as_bytes()).to_word(), Char::new(")".as_bytes()).to_word()),
    )];

    let mut reader = SliceReader::new(string.as_bytes());

    if let Some((res, pos)) = scan(&mut reader, &stops, &escapes, &quotes, &braces, &mut vec![0]) {
        assert_eq!(res, r"Lorem( ipsum\) dolor') sit' amet)".len());
        assert_eq!(pos, r"Lorem( ipsum\) dolor') sit' amet) ".len());
    } else {
        assert!(false, "Cannot parse the string");
    }
}

#[test]
fn test_scan_shallow_scrap() {
    let string = r"Lorem( ipsum\) dolor') sit' amet) consectetur";
    let stops = [(Stop::new(), Char::new(" ".as_bytes()).to_word())];
    let escapes = [Char::new(r"\".as_bytes()).to_word()];
    let quotes = [(Quote::new(), Char::new("'".as_bytes()).to_word())];
    let brace = [(
        Brace::new().is_stop(false),
        (Char::new("(".as_bytes()).to_word(), Char::new(")".as_bytes()).to_word()),
    )];

    let mut reader = SliceReader::new(string.as_bytes());
    if let Some((res, pos)) = scan(&mut reader, &stops, &escapes, &quotes, &brace, &mut vec![0]) {
        assert_eq!(res, r"Lorem( ipsum\) dolor') sit' amet)".len());
        assert_eq!(pos, r"Lorem( ipsum\) dolor') sit' amet) ".len());
    } else {
        assert!(false, "Cannot parse the string");
    }
}

#[test]
fn test_scan_stop() {
    let string = "one test  two";
    let stops = [(Stop::new(), Char::new(" ".as_bytes()).to_word())];

    let mut reader = SliceReader::new(string.as_bytes());

    if let Some((res, pos)) = scan(&mut reader, &stops, &NO_ESCAPES, &NO_QUOTES, &NO_BRACES, &mut vec![]) {
        assert_eq!(res, 3);
        assert_eq!(pos, 4);

        assert_eq!(reader.consume(pos).as_slice(), "one ".as_bytes());
    } else {
        assert!(false, "Cannot find the stop while scanning");
    }

    if let Some((res, pos)) = scan(&mut reader, &stops, &NO_ESCAPES, &NO_QUOTES, &NO_BRACES, &mut vec![]) {
        assert_eq!(4, res);
        assert_eq!(6, pos);

        assert_eq!(reader.consume(pos).as_slice(), "test  ".as_bytes());
    } else {
        assert!(false, "Cannot find the stop while scanning");
    }

    if let Some((res, pos)) = scan(&mut reader, &stops, &NO_ESCAPES, &NO_QUOTES, &NO_BRACES, &mut vec![]) {
        assert_eq!(3, res);
        assert_eq!(3, pos);

        assert_eq!(reader.consume(pos).as_slice(), "two".as_bytes());
    } else {
        assert!(false, "Cannot finish by EOF while scanning");
    }
}

#[test]
fn test_scan_escape() {
    let string = r"Lorem\ ip\sum  dolor";
    let stops = [(Stop::new(), Char::new(" ".as_bytes()).to_word())];
    let escapes = [Char::new(r"\".as_bytes()).to_word()];

    let mut reader = SliceReader::new(string.as_bytes());

    if let Some((res, pos)) = scan(&mut reader, &stops, &escapes, &NO_QUOTES, &NO_BRACES, &mut vec![]) {
        assert_eq!(res, r"Lorem\ ip\sum".len());
        assert_eq!(pos, r"Lorem\ ip\sum  ".len());
    } else {
        assert!(false, "Cannot parse the string");
    }

    let escapes = [Char::new("<!-- ".as_bytes()).to_word()];
    let string = "Lorem<!--  ipsum<!-- <!--   dolor";

    let mut reader = SliceReader::new(string.as_bytes());

    if let Some((res, pos)) = scan(&mut reader, &stops, &escapes, &NO_QUOTES, &NO_BRACES, &mut vec![]) {
        assert_eq!(res, "Lorem<!--  ipsum<!-- <!-- ".len());
        assert_eq!(pos, "Lorem<!--  ipsum<!-- <!--   ".len());
    } else {
        assert!(false, "Cannot parse the string");
    }

    let string = "Lorem<!-ipsum<!--  dolor";
    let escapes = [Char::new("<!--".as_bytes()).to_word()];

    let mut reader = SliceReader::new(string.as_bytes());

    if let Some((res, pos)) = scan(&mut reader, &stops, &escapes, &NO_QUOTES, &NO_BRACES, &mut vec![]) {
        assert_eq!(res, "Lorem<!-ipsum<!-- ".len());
        assert_eq!(pos, "Lorem<!-ipsum<!--  ".len());
    } else {
        assert!(false, "Cannot parse the string");
    }
}

#[test]
fn test_scan_quote() {
    let stops = [(Stop::new(), Char::new(" ".as_bytes()).to_word())];

    {
        let string = "Lorem' ipsum'  dolor";
        let quotes = [(Quote::new().is_stop(false), Char::new("'".as_bytes()).to_word())];

        let mut reader = SliceReader::new(string.as_bytes());

        if let Some((res, pos)) = scan(&mut reader, &stops, &NO_ESCAPES, &quotes, &NO_BRACES, &mut vec![]) {
            assert_eq!(res, "Lorem' ipsum'".len());
            assert_eq!(pos, "Lorem' ipsum'  ".len());
        } else {
            assert!(false, "Cannot parse the string");
        }
    }

    {
        let string = "Lorem' ipsum'  dolor";
        let quotes = [(Quote::new().is_stop(true), Char::new("'".as_bytes()).to_word())];

        let mut reader = SliceReader::new(string.as_bytes());

        if let Some((res, pos)) = scan(&mut reader, &stops, &NO_ESCAPES, &quotes, &NO_BRACES, &mut vec![]) {
            assert_eq!(res, "Lorem' ipsum'".len());
            assert_eq!(pos, "Lorem' ipsum'".len());
        } else {
            assert!(false, "Cannot parse the string");
        }
    }

    {
        let string = "Lorem' ipsum''s test'  dolor";
        let quotes = [(
            Quote::new().is_stop(true).greedy(true),
            Char::new("'".as_bytes()).to_word(),
        )];

        let mut reader = SliceReader::new(string.as_bytes());

        if let Some((res, pos)) = scan(&mut reader, &stops, &NO_ESCAPES, &quotes, &NO_BRACES, &mut vec![]) {
            assert_eq!(res, "Lorem' ipsum''s test'".len());
            assert_eq!(pos, "Lorem' ipsum''s test'".len());
        } else {
            assert!(false, "Cannot parse the string");
        }
    }

    {
        let string = "Lorem' ipsum''s test'  dolor";
        let quotes = [(
            Quote::new().is_stop(false).greedy(true),
            Char::new("'".as_bytes()).to_word(),
        )];

        let mut reader = SliceReader::new(string.as_bytes());

        if let Some((res, pos)) = scan(&mut reader, &stops, &NO_ESCAPES, &quotes, &NO_BRACES, &mut vec![]) {
            assert_eq!(res, "Lorem' ipsum''s test'".len());
            assert_eq!(pos, "Lorem' ipsum''s test'  ".len());
        } else {
            assert!(false, "Cannot parse the string");
        }
    }

    {
        let string = r"Lorem-- ip\--sum--  dolor";
        let escapes = [Char::new(r"\".as_bytes()).to_word()];
        let quotes = [(Quote::new().is_stop(false), Char::new("--".as_bytes()).to_word())];

        let mut reader = SliceReader::new(string.as_bytes());
        if let Some((res, pos)) = scan(&mut reader, &stops, &escapes, &quotes, &NO_BRACES, &mut vec![]) {
            assert_eq!(res, r"Lorem-- ip\--sum--".len());
            assert_eq!(pos, r"Lorem-- ip\--sum--  ".len());
        } else {
            assert!(false, "Cannot parse the string");
        }
    }

    {
        let string = r"Lorem\-- ipsum--  dolor";
        let escapes = [Char::new(r"\".as_bytes()).to_word()];
        let quotes = [(Quote::new(), Char::new("--".as_bytes()).to_word())];

        let mut reader = SliceReader::new(string.as_bytes());
        if let Some((res, pos)) = scan(&mut reader, &stops, &escapes, &quotes, &NO_BRACES, &mut vec![]) {
            assert_eq!(res, r"Lorem\--".len());
            assert_eq!(pos, r"Lorem\-- ".len());
        } else {
            assert!(false, "Cannot parse the string");
        }
    }
}

#[test]
fn test_scan_brace() {
    let stops = [(Stop::new(), Char::new(" ".as_bytes()).to_word())];

    {
        let string = "Lorem<!-- ipsum dolor <!-- sit --> amet --> consectetur";
        let braces = [(
            Brace::new(),
            (Char::new("<!--".as_bytes()).to_word(), Char::new("-->".as_bytes()).to_word()),
        )];

        let mut reader = SliceReader::new(string.as_bytes());
        if let Some((res, pos)) = scan(&mut reader, &stops, &NO_ESCAPES, &NO_QUOTES, &braces, &mut vec![0]) {
            assert_eq!(res, "Lorem<!-- ipsum dolor <!-- sit --> amet -->".len());
            assert_eq!(pos, "Lorem<!-- ipsum dolor <!-- sit --> amet -->".len());
        } else {
            assert!(false, "Cannot parse the string");
        }

        let braces = [(
            Brace::new().is_stop(false),
            (Char::new("<!--".as_bytes()).to_word(), Char::new("-->".as_bytes()).to_word()),
        )];

        let mut reader = SliceReader::new(string.as_bytes());
        if let Some((res, pos)) = scan(&mut reader, &stops, &NO_ESCAPES, &NO_QUOTES, &braces, &mut vec![0]) {
            assert_eq!(res, "Lorem<!-- ipsum dolor <!-- sit --> amet -->".len());
            assert_eq!(pos, "Lorem<!-- ipsum dolor <!-- sit --> amet --> ".len());
        } else {
            assert!(false, "Cannot parse the string");
        }
    }

    {
        let string = "(Lorem)[ipsum](dolor[sit]amet)(consectertur[adipisicing)(elit(sed])do)";
        let braces = [
            (
                Brace::new(),
                (Char::new("(".as_bytes()).to_word(), Char::new(")".as_bytes()).to_word()),
            ),
            (
                Brace::new(),
                (Char::new("[".as_bytes()).to_word(), Char::new("]".as_bytes()).to_word()),
            ),
        ];

        let mut reader = SliceReader::new(string.as_bytes());
        if let Some((res, pos)) = scan(&mut reader, &stops, &NO_ESCAPES, &NO_QUOTES, &braces, &mut vec![0; 2]) {
            assert_eq!(res, "(Lorem)".len());
            assert_eq!(pos, res);

            assert_eq!(reader.consume(pos).as_slice(), "(Lorem)".as_bytes());
        } else {
            assert!(false, "Cannot parse the string");
        }

        if let Some((res, pos)) = scan(&mut reader, &stops, &NO_ESCAPES, &NO_QUOTES, &braces, &mut vec![1; 2]) {
            assert_eq!(res, "[ipsum]".len());
            assert_eq!(pos, res);

            assert_eq!(reader.consume(pos).as_slice(), "[ipsum]".as_bytes());
        } else {
            assert!(false, "Cannot parse the string");
        }

        if let Some((res, pos)) = scan(&mut reader, &stops, &NO_ESCAPES, &NO_QUOTES, &braces, &mut vec![2; 2]) {
            assert_eq!(res, "(dolor[sit]amet)".len());
            assert_eq!(pos, res);

            assert_eq!(reader.consume(pos).as_slice(), "(dolor[sit]amet)".as_bytes());
        } else {
            assert!(false, "Cannot parse the string");
        }

        if let Some((res, pos)) = scan(&mut reader, &stops, &NO_ESCAPES, &NO_QUOTES, &braces, &mut vec![3; 2]) {
            assert_eq!(res, "(consectertur[adipisicing)(elit(sed])do)".len());
            assert_eq!(pos, res);

            assert_eq!(reader.consume(pos).as_slice(), "(consectertur[adipisicing)(elit(sed])do)".as_bytes());
        } else {
            assert!(false, "Cannot parse the string");
        }
    }
}

#[test]
fn test_skip_until() {
    let src = r"Lorem( ipsum\) dolor') sit' amet) consectetur";

    let mut reader = SliceReader::new(src.as_bytes());

    let (skipped, stopper) = skip_until(
        &mut reader,
        &[Char::new("test".as_bytes()).to_word(), Char::new("(".as_bytes()).to_word()],
    );

    assert_eq!(skipped, r"Lorem".len());

    if let Some((stopper, len)) = stopper {
        assert_eq!(stopper, 1);
        assert_eq!(len, 1);
    } else {
        assert!(false, "Unexpected result!")
    }

    if let Some(bytes) = reader.slice(9) {
        assert_eq!(bytes, r"( ipsum\)".as_bytes());
    } else {
        assert!(false, "Unexpected result!")
    }
}

#[test]
fn test_skip_while() {
    let src = "    \t\t\t\tLorem";

    let mut reader = SliceReader::new(src.as_bytes());

    let (skipped, chars) = skip_while(
        &mut reader,
        &[Char::new(" ".as_bytes()).to_word(), Char::new("\t".as_bytes()).to_word()],
    );

    assert_eq!(skipped, "    \t\t\t\t".len());
    assert_eq!(chars, 8);

    if let Some(bytes) = reader.slice(5) {
        assert_eq!(bytes, "Lorem".as_bytes());
    } else {
        assert!(false, "Unexpected result!")
    }
}

#[test]
fn test_scan_until() {
    let src = r"Lorem( ipsum\) dolor') sit' amet) consectetur";

    let mut reader = SliceReader::new(src.as_bytes());

    let (scanned, stopper) = scan_until(
        &mut reader,
        &[Char::new("test".as_bytes()).to_word(), Char::new("(".as_bytes()).to_word()],
    );

    assert_eq!(scanned, r"Lorem".len());

    if let Some((stopper, len)) = stopper {
        assert_eq!(stopper, 1);
        assert_eq!(len, 1);
    } else {
        assert!(false, "Unexpected result!")
    }

    if let Some(bytes) = reader.slice(5) {
        assert_eq!(bytes, "Lorem".as_bytes());
    } else {
        assert!(false, "Unexpected result!")
    }
}

#[test]
fn test_scan_while() {
    let src = "    \t\t\t\tLorem";

    let mut reader = SliceReader::new(src.as_bytes());

    let (scanned, chars) = scan_while(
        &mut reader,
        &[Char::new(" ".as_bytes()).to_word(), Char::new("\t".as_bytes()).to_word()],
    );

    assert_eq!(scanned, "    \t\t\t\t".len());
    assert_eq!(chars, 8);

    if let Some(bytes) = reader.slice(4) {
        assert_eq!(bytes, "    ".as_bytes());
    } else {
        assert!(false, "Unexpected result!")
    }
}

#[test]
fn test_scan_one() {
    let src = "    \t\t\t\tLorem";

    let mut reader = SliceReader::new(src.as_bytes());

    if let Some((idx, len)) = scan_one(
        &mut reader,
        &[Char::new(" ".as_bytes()).to_word(), Char::new("\t".as_bytes()).to_word()],
    ) {
        assert_eq!(idx, 0);
        assert_eq!(len, 1);
    } else {
        assert!(false, "Unexpected result!")
    }

    if let Some(_) = scan_one(
        &mut reader,
        &[Char::new("a".as_bytes()).to_word(), Char::new("b".as_bytes()).to_word()],
    ) {
        assert!(false, "Unexpected result!")
    }
}

#[test]
fn scan_bounds_hold() {
    // the content never exceeds what is consumed, which never exceeds what
    // remained when the scan began
    let string = "alpha beta";
    let stops = [(Stop::new(), Char::new(b" ").to_word())];
    let mut reader = SliceReader::new(string.as_bytes());
    reader.skip(2);
    let remaining = string.len() - 2;

    let (res, pos) = scan(&mut reader, &stops, &NO_ESCAPES, &NO_QUOTES, &NO_BRACES, &mut vec![])
        .expect("scan always returns");
    assert!(res <= pos);
    assert!(pos <= remaining);
}

#[test]
fn scan_until_leaves_cursor() {
    let src = "1234567890";
    let mut reader = SliceReader::new(src.as_bytes());
    reader.skip(3);

    let (scanned, found) = skimmer::scanner::scan_until_at(
        2,
        &mut reader,
        &[Char::new(b"8").to_word()],
    );
    assert_eq!(scanned, 2);
    assert_eq!(found, Some((0, 1)));

    // the cursor did not move: the next slice still starts at byte four
    assert_eq!(reader.slice(2), Some(&b"45"[..]));
}

#[test]
fn skip_until_is_scan_until_then_skip() {
    let src = "abc def";
    let syms = [Char::new(b" ").to_word()];

    let mut scanner = SliceReader::new(src.as_bytes());
    let (scanned, sfound) = scan_until(&mut scanner, &syms);

    let mut skipper = SliceReader::new(src.as_bytes());
    let (skipped, kfound) = skip_until(&mut skipper, &syms);

    assert_eq!(scanned, skipped);
    assert_eq!(sfound, kfound);
    // the skipping reader now stands where the scan stopped
    scanner.skip(scanned);
    assert_eq!(scanner.slice(4), skipper.slice(4));
}

#[test]
fn matched_symbol_equals_slice() {
    let src = "one two";
    let sym = Char::new(b"two").to_word();
    let mut reader = SliceReader::new(src.as_bytes());

    let (scanned, found) = scan_until(&mut reader, &[sym]);
    assert_eq!(scanned, 4);
    let (idx, len) = found.expect("the symbol occurs");
    assert_eq!(idx, 0);
    // where the symbol matched, the reader's slice holds exactly its bytes
    let sym = Char::new(b"two").to_word();
    assert_eq!(reader.slice_at(scanned, len), Some(sym.as_slice()));
}

#[test]
fn scan_empty_input() {
    let stops = [(Stop::new(), Char::new(b" ").to_word())];
    let mut reader = SliceReader::new(b"");
    let (res, pos) = scan(&mut reader, &stops, &NO_ESCAPES, &NO_QUOTES, &NO_BRACES, &mut vec![])
        .expect("scan always returns");
    assert_eq!(res, 0);
    assert_eq!(pos, 0);
}
