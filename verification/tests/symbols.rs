use skimmer::symbol::Char;
use skimmer::symbol::Char1;
use skimmer::symbol::Char2;
use skimmer::symbol::Char3;
use skimmer::symbol::Char4;
use skimmer::symbol::Combo;
use skimmer::symbol::Rune;
use skimmer::symbol::Symbol;
use skimmer::symbol::Word;

#[test]
fn cha1() {
    let cha = Char::new(&[b'a']);

    assert_eq!(cha.len(), 1);
    assert_eq!(cha.as_slice(), &[b'a']);
}

#[test]
fn cha2() {
    let cha = Char::new(&[b'a', b'b']);

    assert_eq!(cha.len(), 2);
    assert_eq!(cha.as_slice(), &[b'a', b'b']);
}

#[test]
fn cha3() {
    let cha = Char::new(&[b'a', b'b', b'c']);

    assert_eq!(cha.len(), 3);
    assert_eq!(cha.as_slice(), &[b'a', b'b', b'c']);
}

#[test]
fn cha4() {
    let cha = Char::new(&[b'a', b'b', b'c', b'd']);

    assert_eq!(cha.len(), 4);
    assert_eq!(cha.as_slice(), &[b'a', b'b', b'c', b'd']);
}

#[test]
fn cha5() {
    let cha = Char::new(&[b'a', b'b', b'c', b'd', b'e']);

    assert_eq!(cha.len(), 5);
    assert_eq!(cha.as_slice(), &[b'a', b'b', b'c', b'd', b'e']);
}

#[test]
fn cha6() {
    let cha = Char::new(&[b'a', b'b', b'c', b'd', b'e', b'f']);
    assert_eq!(cha.len(), 6);
    assert_eq!(cha.as_slice(), &[b'a', b'b', b'c', b'd', b'e', b'f']);
}

#[test]
fn cha7() {
    let cha = Char::new(&[b'a', b'b', b'c', b'd', b'e', b'f', b'g']);
    assert_eq!(cha.len(), 7);
    assert_eq!(cha.as_slice(), &[b'a', b'b', b'c', b'd', b'e', b'f', b'g']);
}

#[test]
fn cha8() {
    let cha = Char::new(&[b'a', b'b', b'c', b'd', b'e', b'f', b'g', b'h']);
    assert_eq!(cha.len(), 8);
    assert_eq!(cha.as_slice(), &[b'a', b'b', b'c', b'd', b'e', b'f', b'g', b'h']);
}

#[test]
fn word1() {
    let word = Word::combine(&[&Char::new(&[b'a', b'b', b'c', b'd']), &Char::new(&[b'1'])]);

    assert_eq!(word.len(), 5);
    assert_eq!(word.len_chars(), 2);
    assert_eq!(word.as_vec()[..], vec![b'a', b'b', b'c', b'd', b'1'][..]);

    assert!(word.same_as_slice(&[b'a', b'b', b'c', b'd', b'1']));

    assert!(!word.same_as_slice(&[b'a', b'b', b'c', b'd', b'2']));
    assert!(!word.same_as_slice(&[b'a', b'b', b'c', b'd', b'1', b'2']));
}

#[test]
fn word2() {
    let w1 = Word::combine(&[&Char::new(&[b'a', b'b', b'c']), &Char::new(&[b'1'])]);

    let w2 = Char::new(&[b'd', b'e']).to_word();

    let w = Word::concat(&[&w1, &w2]);

    assert_eq!(w.len(), 6);
    assert_eq!(w.len_chars(), 3);
    assert_eq!(w.as_vec()[..], vec![b'a', b'b', b'c', b'1', b'd', b'e'][..]);

    assert!(w.same_as_slice(&[b'a', b'b', b'c', b'1', b'd', b'e']));
}

#[test]
fn char_round_trip() {
    let bytes = [b'x', b'y', b'z'];
    let cha = Char::new(&bytes);
    assert_eq!(cha.to_vec(), bytes.to_vec());

    let one = [0u8];
    assert_eq!(Char::new(&one).to_vec(), one.to_vec());

    let eight = [1u8, 2, 3, 4, 5, 6, 7, 8];
    assert_eq!(Char::new(&eight).to_vec(), eight.to_vec());
}

#[test]
fn char_matches_at_windows() {
    let buf = b"abcabc";
    let cha = Char::new(b"abc");

    assert!(cha.contained_at(buf, 0));
    assert!(!cha.contained_at(buf, 1));
    assert!(!cha.contained_at(buf, 2));
    assert!(cha.contained_at(buf, 3));
    // the window no longer fits: false, not a failure
    assert!(!cha.contained_at(buf, 4));
    assert!(!cha.contained_at(buf, 6));
    assert!(!cha.contained_at(buf, 100));

    assert!(cha.contained_at_start(buf));
    assert!(!Char::new(b"b").contained_at_start(buf));
}

#[test]
fn fixed_width_chars() {
    let c1 = Char1::new(b'q');
    assert_eq!(c1.len(), 1);
    assert_eq!(c1.len_chars(), 1);
    assert_eq!(c1.as_slice(), b"q");
    assert!(c1.contained_at(b"aq", 1));

    let c2 = Char2::new(b"ab");
    assert_eq!(c2.len(), 2);
    assert_eq!(c2.as_slice(), b"ab");
    assert!(c2.contained_at(b"xab", 1));
    assert!(!c2.contained_at(b"xab", 2));

    let c3 = Char3::new(b"abc");
    assert_eq!(c3.len(), 3);
    assert_eq!(c3.as_slice(), b"abc");

    let c4 = Char4::new(b"abcd");
    assert_eq!(c4.len(), 4);
    assert_eq!(c4.as_slice(), b"abcd");
    assert_eq!(c4.new_vec(), b"abcd".to_vec());
}

#[test]
fn word_of_words() {
    let w = Word::combine(&[&Char::new(b"ab").to_word(), &Char::new(b"c").to_word()]);
    assert_eq!(w.len(), 3);
    assert_eq!(w.len_chars(), 2);
    assert_eq!(w.as_slice(), b"abc");

    let empty = Word::empty();
    assert_eq!(empty.len(), 0);
    assert_eq!(empty.len_chars(), 0);
}

#[test]
fn rune_carries_any_symbol() {
    let r = Rune::from(Char::new(b"ab"));
    assert_eq!(r.len(), 2);
    assert_eq!(r.len_chars(), 1);
    assert_eq!(r.as_slice(), b"ab");
    assert!(r.contained_at(b"xxab", 2));

    let r = Rune::from(Word::combine(&[&Char::new(b"a"), &Char::new(b"b")]));
    assert_eq!(r.len(), 2);
    assert_eq!(r.len_chars(), 2);

    let r = Rune::from(Char1::new(b'z'));
    assert_eq!(r.to_vec(), vec![b'z']);

    let r = Rune::from(Char2::new(b"yz"));
    assert_eq!(r.len(), 2);
    let r = Rune::from(Char3::new(b"xyz"));
    assert_eq!(r.len(), 3);
    let r = Rune::from(Char4::new(b"wxyz"));
    assert_eq!(r.len(), 4);
}

#[test]
fn result_symbols() {
    let s: Result<Char1, Char2> = Ok(Char1::new(b'a'));
    assert_eq!(s.len(), 1);
    assert_eq!(s.as_slice(), b"a");

    let s: Result<Char1, Char2> = Err(Char2::new(b"bc"));
    assert_eq!(s.len(), 2);
    assert_eq!(s.len_chars(), 1);
    assert!(s.contained_at(b"abc", 1));
}

#[test]
fn combo_builders() {
    let c2: Option<Char2> = Combo::combine(&[Char1::new(b'a'), Char1::new(b'b')]);
    assert_eq!(c2.unwrap().as_slice(), b"ab");

    let none: Option<Char2> = Combo::combine(&[Char1::new(b'a')]);
    assert!(none.is_none());

    let c3: Option<Char3> = Combo::combine(&[Char::new(b"ab"), Char::new(b"c")]);
    assert_eq!(c3.unwrap().as_slice(), b"abc");

    let none: Option<Char3> = Combo::combine(&[Char::new(b"ab")]);
    assert!(none.is_none());

    let c4: Option<Char4> = Combo::combine(&[Char::new(b"ab"), Char::new(b"cd")]);
    assert_eq!(c4.unwrap().as_slice(), b"abcd");

    let w: Option<Word> = Combo::combine(&[Char::new(b"ab"), Char::new(b"c")]);
    let w = w.unwrap();
    assert_eq!(w.as_slice(), b"abc");
    assert_eq!(w.len_chars(), 2);

    let none: Option<Word> = Combo::combine(&[Word::empty()]);
    assert!(none.is_none());
}

#[test]
fn copy_to_writes_in_place() {
    let mut dst = vec![b'.'; 8];
    let cha = Char::new(b"ab");
    cha.copy_to(&mut dst, 3);
    assert_eq!(dst, b"...ab...".to_vec());

    let mut dst = vec![b'.'; 8];
    cha.copy_to_times(&mut dst, 1, 3);
    assert_eq!(dst, b".ababab.".to_vec());
}
