use compiler::input_stream::InputStream;
use std::cmp::Ordering;

#[test]
fn iteration() {
    let s = "Hello, мир 🌐! ਤੁਸੀਂ ਕਿਵੇਂ ਹੋ?";
    let mut stream = InputStream::new(s, None);
    for ch in s.chars() {
        println!("{}", ch);
        assert_eq!(Some(ch), stream.next());
    }
    assert_eq!(None, stream.next());
}

#[test]
fn location() {
    let mut stream = InputStream::new("x = 5;\ny = 2;", None);
    assert_eq!(0, stream.location().line);

    assert_eq!(Some('x'), stream.next());
    assert_eq!(1, stream.location().column);

    assert_eq!(Some(';'), stream.nth(4));
    assert_eq!(6, stream.location().column);

    assert_eq!(Some('\n'), stream.next());
    assert_eq!(1, stream.location().line);
    assert_eq!(0, stream.location().column);

    assert_eq!(Some('y'), stream.next());
    assert_eq!(1, stream.location().line);
    assert_eq!(1, stream.location().column);
}

#[test]
fn slice_one() {
    let mut stream = InputStream::new("123", None);
    assert_eq!(Some('1'), stream.next());
    let from = stream.location();
    assert_eq!(Some('2'), stream.next());
    let to = stream.location();
    assert_eq!("2", stream.slice(from, to));
}

#[test]
fn slice() {
    let mut stream = InputStream::new("print(\"Hello world\");", None);
    assert_eq!(Some('('), stream.nth(5));
    let from = stream.location();
    assert_eq!(Some('"'), stream.nth(12));
    let to = stream.location();
    assert_eq!("\"Hello world\"", stream.slice(from, to));
}

#[test]
fn slice_unicode() {
    let mut stream = InputStream::new("Привет!:) 😀😀✨! 祝你好运!", None);
    let location1 = stream.location();
    assert_eq!(Some('!'), stream.nth(6));
    let location2 = stream.location();
    assert_eq!("Привет!", stream.slice(location1, location2));

    assert_eq!(Some(' '), stream.nth(2));
    let location1 = stream.location();
    assert_eq!(Some('!'), stream.nth(3));
    let location2 = stream.location();
    assert_eq!("😀😀✨!", stream.slice(location1, location2));

    assert_eq!(Some(' '), stream.next());
    let location1 = stream.location();
    assert_eq!(Some('!'), stream.nth(4));
    let location2 = stream.location();
    assert_eq!("祝你好运!", stream.slice(location1, location2));
}

#[test]
fn peeking_does_not_advance() {
    let mut stream = InputStream::new("ab", None);
    assert_eq!(Some('a'), stream.peek());
    assert_eq!(Some('b'), stream.peek_nth(1));
    assert_eq!(None, stream.peek_nth(2));
    assert_eq!(Some('a'), stream.next());
    assert!(!stream.is_eof());
    assert_eq!(Some('b'), stream.next());
    assert!(stream.is_eof());
    assert_eq!(None, stream.nth(3));
}

#[test]
fn location_display_counts_from_one() {
    let mut stream = InputStream::new("a\nbc", None);
    assert_eq!("1:1", stream.location().to_string());
    let _ = stream.nth(2);
    assert_eq!("2:2", stream.location().to_string());
}

#[test]
fn later_location_orders_first() {
    let mut stream = InputStream::new("ab\ncd", None);
    let start = stream.location();
    let _ = stream.next();
    let same_line = stream.location();
    let _ = stream.nth(1);
    let next_line = stream.location();
    assert_eq!(Ordering::Greater, start.cmp(&same_line));
    assert_eq!(Ordering::Less, same_line.cmp(&start));
    assert_eq!(Ordering::Greater, same_line.cmp(&next_line));
    assert_eq!(Ordering::Equal, next_line.cmp(&next_line));
    assert_eq!(Some(Ordering::Less), next_line.partial_cmp(&start));
}
