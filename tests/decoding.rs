use bencode_torrent::bencode::{parse, Node, ParseError, Value, MAX_DEPTH};

fn root(input: &[u8]) -> Node {
    match parse(input) {
        Ok(n) => n,
        Err(e) => panic!("{:?} on {:?}", e, input),
    }
}

fn error(input: &[u8]) -> ParseError {
    match parse(input) {
        Ok(_) => panic!("decoded {:?}", input),
        Err(e) => e,
    }
}

#[test]
fn integer_and_byte_string() {
    let n = root(b"i42e");
    assert_eq!(n.as_integer(), Some(42));
    assert_eq!((n.start, n.end), (0, 4));
    let n = root(b"4:spam");
    assert_eq!(n.as_byte_string(), Some(&b"spam".to_vec()));
    assert_eq!(n.as_str(), Some("spam"));
    assert_eq!((n.start, n.end), (0, 6));
}

#[test]
fn list_of_two_strings() {
    let n = root(b"l4:spam4:eggse");
    assert_eq!(n.end - n.start, 14);
    let items = n.as_list().unwrap();
    assert_eq!(items.len(), 2);
    assert_eq!(items[0].as_str(), Some("spam"));
    assert_eq!(items[1].as_str(), Some("eggs"));
    assert_eq!((items[0].start, items[0].end), (1, 7));
    assert_eq!((items[1].start, items[1].end), (7, 13));
}

#[test]
fn dictionary_of_two_entries() {
    let n = root(b"d3:cow3:moo4:spam4:eggse");
    assert_eq!(n.as_dictionary().unwrap().len(), 2);
    assert_eq!(n.get("cow").unwrap().as_str(), Some("moo"));
    assert_eq!(n.get("spam").unwrap().as_str(), Some("eggs"));
    assert!(n.get("eggs").is_none());
    assert_eq!((n.start, n.end), (0, 24));
}

const VALID: [&[u8]; 9] = [
    b"i42e",
    b"i-17e",
    b"4:spam",
    b"0:",
    b"le",
    b"de",
    b"l4:spam4:eggse",
    b"d3:cow3:moo4:spam4:eggse",
    b"d4:listli1ei2eld1:ai-3eeee3:str5:hello3:numi0ee",
];

#[test]
fn valid_documents_span_their_input() {
    for doc in VALID.iter() {
        let n = root(doc);
        assert_eq!((n.start, n.end), (0, doc.len()));
    }
}

#[test]
fn trailing_bytes_are_rejected() {
    for doc in VALID.iter() {
        for extra in [&b"x"[..], b"i1e", b"e", b"0:"].iter() {
            let mut input = doc.to_vec();
            input.extend_from_slice(extra);
            assert_eq!(error(&input), ParseError::DataAfterBencode);
        }
    }
}

#[test]
fn every_truncation_ends_early() {
    for doc in VALID.iter() {
        for k in 1..doc.len() {
            assert_eq!(error(&doc[..k]), ParseError::UnexpectedEndOfData, "{:?}", &doc[..k]);
        }
    }
}

#[test]
fn integer_literals() {
    assert_eq!(root(b"i0e").as_integer(), Some(0));
    assert_eq!(root(b"i-5e").as_integer(), Some(-5));
    assert_eq!(root(b"i9223372036854775807e").as_integer(), Some(i64::MAX));
    assert_eq!(root(b"i-9223372036854775808e").as_integer(), Some(i64::MIN));
    assert_eq!(error(b"i9223372036854775808e"), ParseError::InvalidInteger);
    assert_eq!(error(b"i99999999999999999999e"), ParseError::InvalidInteger);
    assert_eq!(error(b"ie"), ParseError::InvalidInteger);
    assert_eq!(error(b"i e"), ParseError::InvalidInteger);
    assert_eq!(error(b"i+5e"), ParseError::InvalidInteger);
    assert_eq!(error(b"i+e"), ParseError::InvalidInteger);
    assert_eq!(error(b"i-e"), ParseError::InvalidInteger);
    assert_eq!(error(b"i5+e"), ParseError::InvalidInteger);
    assert_eq!(root(b"i-0e").as_integer(), Some(0));
    assert_eq!(root(b"i007e").as_integer(), Some(7));
    assert_eq!(error(b"i1x2e"), ParseError::InvalidInteger);
    assert_eq!(error(b"i\xffe"), ParseError::InvalidInteger);
    assert_eq!(error(b"i12"), ParseError::UnexpectedEndOfData);
}

#[test]
fn byte_string_lengths() {
    let n = root(b"0:");
    assert_eq!(n.as_byte_string(), Some(&Vec::new()));
    assert_eq!(n.end, 2);
    assert_eq!(error(b"3:ab"), ParseError::UnexpectedEndOfData);
    assert_eq!(error(b"5spam"), ParseError::UnexpectedEndOfData);
    assert_eq!(error(b"1x:a"), ParseError::InvalidInteger);
    let n = root(b"9:abcdefghi");
    assert_eq!(n.as_str(), Some("abcdefghi"));
    let n = root(b"10:0123456789");
    assert_eq!(n.end, 13);
    let n = root(b"2:\xff\x00");
    assert_eq!(n.as_byte_string(), Some(&vec![0xff, 0x00]));
    assert_eq!(n.as_str(), None);
}

#[test]
fn nested_spans_lie_inside_parents() {
    let n = root(b"ld3:cow3:mooee");
    assert_eq!((n.start, n.end), (0, 14));
    let items = n.as_list().unwrap();
    assert_eq!(items.len(), 1);
    let d = &items[0];
    assert_eq!((d.start, d.end), (1, 13));
    let moo = d.get("cow").unwrap();
    assert_eq!(moo.as_str(), Some("moo"));
    assert_eq!((moo.start, moo.end), (7, 12));
    assert!(n.start < d.start && d.end < n.end);
    assert!(d.start < moo.start && moo.end < d.end);
}

#[test]
fn repeated_key_keeps_last_value() {
    let n = root(b"d3:cow3:moo3:cow3:baae");
    let entries = n.as_dictionary().unwrap();
    assert_eq!(entries.len(), 1);
    assert_eq!(entries[0].0, "cow");
    assert_eq!(n.get("cow").unwrap().as_str(), Some("baa"));
}

#[test]
fn bad_dictionary_keys() {
    assert_eq!(error(b"d2:\xff\xfe3:mooe"), ParseError::NonUtf8DictKey);
    assert_eq!(error(b"di5ei6ee"), ParseError::NonByteStringDictKey);
    assert_eq!(error(b"dle3:mooe"), ParseError::NonByteStringDictKey);
    assert_eq!(error(b"d3:cowe"), ParseError::InvalidPrefix);
    assert_eq!(error(b"d3:cow"), ParseError::UnexpectedEndOfData);
}

#[test]
fn prefixes_and_empty_input() {
    assert_eq!(error(b""), ParseError::UnexpectedEndOfData);
    assert_eq!(error(b"x"), ParseError::InvalidPrefix);
    assert_eq!(error(b"l-e"), ParseError::InvalidPrefix);
    assert_eq!(error(b"l"), ParseError::UnexpectedEndOfData);
    assert_eq!(error(b"d"), ParseError::UnexpectedEndOfData);
}

#[test]
fn nesting_is_bounded() {
    let deep = |levels: usize| {
        let mut v = vec![b'l'; levels];
        v.extend(vec![b'e'; levels]);
        v
    };
    let n = root(&deep(MAX_DEPTH));
    assert_eq!(n.end, 2 * MAX_DEPTH);
    assert_eq!(error(&deep(MAX_DEPTH + 1)), ParseError::NestingTooDeep);
}

#[test]
fn accessors_on_other_kinds() {
    let n = root(b"li1ee");
    assert_eq!(n.as_integer(), None);
    assert_eq!(n.as_byte_string(), None);
    assert_eq!(n.as_str(), None);
    assert!(n.as_dictionary().is_none());
    assert!(n.get("a").is_none());
    match &n.value {
        Value::List(items) => assert_eq!(items[0].as_integer(), Some(1)),
        _ => panic!("not a list"),
    }
}

#[test]
fn text_form_of_a_tree() {
    assert_eq!(root(b"i-12e").to_text(), "Integer: -12");
    assert_eq!(root(b"1:\xff").to_text(), "\"[non-utf8 byte string]\"");
    assert_eq!(root(b"le").to_text(), "[]");
    assert_eq!(root(b"de").to_text(), "{\n \n}");
    assert_eq!(
        root(b"li42e4:spamd3:cowi1eee").to_text(),
        "[Integer: 42, \"spam\", {\n\tcow: Integer: 1 \n}]"
    );
    assert_eq!(
        root(b"d1:ai1e1:bl1:xee").to_text(),
        "{\n\ta: Integer: 1, \n\tb: [\"x\"] \n}"
    );
}
