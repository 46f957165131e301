use oraculum::codec::parse_u32;
use oraculum::vocabulary::{entry_of, parse_line, split_line, whitespace_at, Vocabulary};

#[test]
fn new_vocabulary_is_empty() {
    let vocabulary = Vocabulary::new();
    assert_eq!(vocabulary.len(), 0);
    assert_eq!(vocabulary.get_id(b"a"), None);
    assert_eq!(vocabulary.get_token(0), None);
    assert_eq!(vocabulary.all_tokens(), Vec::<(u32, Vec<u8>)>::new());
}

#[test]
fn load_decodes_each_line() {
    let mut vocabulary = Vocabulary::new();
    assert_eq!(vocabulary.load(b"YQ== 0\nYWE= 1\nYWFh 2\n"), Ok(()));
    assert_eq!(vocabulary.len(), 3);
    assert_eq!(vocabulary.get_token(0), Some(b"a".to_vec()));
    assert_eq!(vocabulary.get_token(1), Some(b"aa".to_vec()));
    assert_eq!(vocabulary.get_token(2), Some(b"aaa".to_vec()));
    assert_eq!(vocabulary.get_id(b"aa"), Some(1));
    assert_eq!(vocabulary.get_id(b"YWE="), None);
    assert_eq!(vocabulary.get_token(3), None);
    assert_eq!(
        vocabulary.all_tokens(),
        vec![(0, b"a".to_vec()), (1, b"aa".to_vec()), (2, b"aaa".to_vec())]
    );
    assert_eq!(vocabulary.id_at(1), 1);
    assert_eq!(vocabulary.token_at(2), &b"aaa".to_vec());
    assert_eq!(vocabulary.tokens(), &vec![b"a".to_vec(), b"aa".to_vec(), b"aaa".to_vec()]);
}

#[test]
fn load_passes_over_lines_of_another_shape() {
    let mut vocabulary = Vocabulary::new();
    let text = b"YQ== 0\n\nYg==\nYw== 2 3\n!!!! 4\n/w== 5\nZA== six\nZQ== -7\nZg== 4294967296\n  Zw==\t8  \r\naA== +9";
    assert_eq!(vocabulary.load(text), Ok(()));
    assert_eq!(
        vocabulary.all_tokens(),
        vec![(0, b"a".to_vec()), (8, b"g".to_vec()), (9, b"h".to_vec())]
    );
}

#[test]
fn load_keeps_the_first_of_repeated_ids_and_tokens() {
    let mut vocabulary = Vocabulary::new();
    assert_eq!(vocabulary.load(b"YQ== 0\nYg== 0\nYQ== 1\nYg== 1\n"), Ok(()));
    assert_eq!(vocabulary.all_tokens(), vec![(0, b"a".to_vec()), (1, b"b".to_vec())]);
    for (id, token) in vocabulary.all_tokens() {
        assert_eq!(vocabulary.get_id(&token), Some(id));
        assert_eq!(vocabulary.get_token(id), Some(token));
    }
}

#[test]
fn load_passes_over_a_line_that_is_not_utf8() {
    let mut vocabulary = Vocabulary::new();
    assert_eq!(vocabulary.load(b"YQ== 0\n\xff\xfe\nYg== 1\n"), Ok(()));
    assert_eq!(vocabulary.get_id(b"a"), Some(0));
    assert_eq!(vocabulary.get_id(b"b"), Some(1));
    assert_eq!(vocabulary.all_tokens(), vec![(0, b"a".to_vec()), (1, b"b".to_vec())]);
}

#[test]
fn load_never_fails() {
    let mut vocabulary = Vocabulary::new();
    assert!(vocabulary.insert(b"z".to_vec(), 26));
    assert_eq!(vocabulary.load(b"\xff\xfe"), Ok(()));
    assert_eq!(vocabulary.load(b""), Ok(()));
    assert_eq!(vocabulary.load(b"\n\n\xc3\n"), Ok(()));
    assert_eq!(vocabulary.load(b"YQ== 0 \xff\nYg== 1\xc2"), Ok(()));
    assert_eq!(vocabulary.all_tokens(), vec![(26, b"z".to_vec())]);
}

#[test]
fn whitespace_of_any_script_parts_the_fields() {
    assert_eq!(parse_line("YQ==\u{a0}5".as_bytes()), Some((b"a".to_vec(), 5)));
    assert_eq!(parse_line("\u{3000}YQ==\u{2003}\u{85}5\u{205f}".as_bytes()), Some((b"a".to_vec(), 5)));
    assert_eq!(parse_line("YQ==\u{200b}5".as_bytes()), None);
    let mut vocabulary = Vocabulary::new();
    assert_eq!(vocabulary.load("YQ==\u{1680}0\nYg==\u{2028}1\n".as_bytes()), Ok(()));
    assert_eq!(vocabulary.all_tokens(), vec![(0, b"a".to_vec()), (1, b"b".to_vec())]);
}

#[test]
fn split_line_agrees_with_std_on_every_character() {
    for code in 0u32..0x11000 {
        let Some(c) = char::from_u32(code) else {
            continue;
        };
        if c == '\n' {
            continue;
        }
        let line = format!("ab{}cd", c);
        let parts: Vec<&str> = line.split_whitespace().collect();
        let fields = split_line(line.as_bytes());
        if parts.len() == 2 {
            let (first, second) = fields.unwrap();
            assert_eq!(first, parts[0].as_bytes());
            assert_eq!(second, parts[1].as_bytes());
        } else {
            assert!(fields.is_none());
        }
        let width = whitespace_at(c.to_string().as_bytes(), 0);
        assert_eq!(width, if c.is_whitespace() { c.len_utf8() } else { 0 });
    }
}

#[test]
fn whitespace_at_wants_the_whole_character() {
    assert_eq!(whitespace_at(b" ", 0), 1);
    assert_eq!(whitespace_at(b"a\x0b", 1), 1);
    assert_eq!(whitespace_at(b"a", 0), 0);
    assert_eq!(whitespace_at(b"\xc2", 0), 0);
    assert_eq!(whitespace_at(b"\xc2\xa0", 0), 2);
    assert_eq!(whitespace_at(b"\xc2\xa0", 1), 0);
    assert_eq!(whitespace_at(b"\xc2\xa1", 0), 0);
    assert_eq!(whitespace_at(b"\xe2\x80", 0), 0);
    assert_eq!(whitespace_at(b"\xe2\x80\x8a", 0), 3);
    assert_eq!(whitespace_at(b"\xe2\x80\x8b", 0), 0);
    assert_eq!(whitespace_at(b"x\xe3\x80\x80", 1), 3);
}

#[test]
fn load_adds_to_what_is_there() {
    let mut vocabulary = Vocabulary::new();
    assert!(vocabulary.insert(b"a".to_vec(), 7));
    assert_eq!(vocabulary.load(b"YQ== 0\nYg== 7\nYw== 1"), Ok(()));
    assert_eq!(vocabulary.all_tokens(), vec![(7, b"a".to_vec()), (1, b"c".to_vec())]);
}

#[test]
fn insert_refuses_what_is_there() {
    let mut vocabulary = Vocabulary::new();
    assert!(vocabulary.insert(b"a".to_vec(), 0));
    assert!(!vocabulary.insert(b"a".to_vec(), 1));
    assert!(!vocabulary.insert(b"b".to_vec(), 0));
    assert!(vocabulary.insert(b"b".to_vec(), 1));
    assert!(vocabulary.insert(Vec::new(), 2));
    assert_eq!(vocabulary.len(), 3);
    assert_eq!(vocabulary.get_id(b""), Some(2));
}

#[test]
fn parse_line_reads_token_and_id() {
    assert_eq!(parse_line(b"aGVsbG8= 42"), Some((b"hello".to_vec(), 42)));
    assert_eq!(parse_line(b"\taGVsbG8=  \t 42 "), Some((b"hello".to_vec(), 42)));
    assert_eq!(parse_line(b"aGVsbG8=\x0b42"), Some((b"hello".to_vec(), 42)));
    assert_eq!(parse_line(b"aGVsbG8= 42 1"), None);
    assert_eq!(parse_line(b"aGVsbG8=42"), None);
    assert_eq!(parse_line(b""), None);
    assert_eq!(parse_line(b"aGVsbG8 42"), None);
    assert_eq!(parse_line(b"gA== 1"), None);
    assert_eq!(parse_line("4pyT 1".as_bytes()), Some(("\u{2713}".as_bytes().to_vec(), 1)));
}

#[test]
fn parse_u32_reads_decimal() {
    assert_eq!(parse_u32(b"0"), Some(0));
    assert_eq!(parse_u32(b"007"), Some(7));
    assert_eq!(parse_u32(b"+5"), Some(5));
    assert_eq!(parse_u32(b"1234567890"), Some(1234567890));
    assert_eq!(parse_u32(b"4294967295"), Some(4294967295));
    assert_eq!(parse_u32(b"4294967296"), None);
    assert_eq!(parse_u32(b"99999999999999999999999"), None);
    assert_eq!(parse_u32(b""), None);
    assert_eq!(parse_u32(b"+"), None);
    assert_eq!(parse_u32(b"++1"), None);
    assert_eq!(parse_u32(b"-1"), None);
    assert_eq!(parse_u32(b"12a"), None);
    assert_eq!(parse_u32(b" 1"), None);
}

#[test]
fn parse_u32_agrees_with_std() {
    let texts: [&str; 8] = ["0", "+0", "42", "0042", "4294967295", "4294967296", "+", "1_0"];
    for text in texts {
        assert_eq!(parse_u32(text.as_bytes()), text.parse::<u32>().ok());
    }
}

#[test]
fn split_line_finds_exactly_two_fields() {
    let (first, second) = split_line(b"  ab \t cd\r").unwrap();
    assert_eq!(first, b"ab");
    assert_eq!(second, b"cd");
    let (first, second) = split_line(b"x y").unwrap();
    assert_eq!(first, b"x");
    assert_eq!(second, b"y");
    assert!(split_line(b"ab").is_none());
    assert!(split_line(b"a b c").is_none());
    assert!(split_line(b"").is_none());
    assert!(split_line(b"   ").is_none());
}

#[test]
fn entry_of_wants_utf8_and_a_number() {
    assert_eq!(entry_of(Some(b"hi".to_vec()), b"7"), Some((b"hi".to_vec(), 7)));
    assert_eq!(entry_of(Some(Vec::new()), b"+0"), Some((Vec::new(), 0)));
    assert_eq!(entry_of(None, b"7"), None);
    assert_eq!(entry_of(Some(vec![0xff]), b"7"), None);
    assert_eq!(entry_of(Some(vec![0xc3]), b"7"), None);
    assert_eq!(entry_of(Some(vec![0xc3, 0xa9]), b"7"), Some((vec![0xc3, 0xa9], 7)));
    assert_eq!(entry_of(Some(b"hi".to_vec()), b"x"), None);
    assert_eq!(entry_of(Some(b"hi".to_vec()), b""), None);
}

#[test]
fn resolve_passes_over_unknown_ids() {
    let mut vocabulary = Vocabulary::new();
    assert!(vocabulary.insert(b"a".to_vec(), 3));
    assert!(vocabulary.insert(b"bc".to_vec(), 1));
    assert_eq!(
        vocabulary.resolve(&[1, 7, 3, 1]),
        vec![b"bc".to_vec(), b"a".to_vec(), b"bc".to_vec()]
    );
    assert_eq!(vocabulary.resolve(&[]), Vec::<Vec<u8>>::new());
}
