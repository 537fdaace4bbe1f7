use mdbook::book::{Book, BookItem, Chapter, SectionNumber};
use mdbook::cmd::{classify_support_exit, run_exit_is_fatal, CmdPreprocessor, SupportDecision,
    UNSUPPORTED_RENDERER_EXIT_CODE};
use mdbook::codec::{decode_book_binary, decode_book_text, encode_book_binary, encode_book_text};
use mdbook::pipeline::{Config, PreprocessorContext};

fn sample_book() -> Book {
    let nested = Chapter {
        name: String::from("Nested Chapter 1"),
        content: String::from("Hello World!"),
        number: Some(SectionNumber(vec![1, 2])),
        path: String::from("second.md"),
        parent_names: vec![String::from("Chapter 1")],
        sub_items: Vec::new(),
    };
    Book::with_chapters(vec![
        BookItem::Chapter(Chapter {
            name: String::from("Chapter 1"),
            content: String::from("some text, and some \u{00e9}\u{4e2d}\u{1f600} beyond ascii"),
            number: None,
            path: String::from("chapter_1.md"),
            parent_names: Vec::new(),
            sub_items: vec![
                BookItem::Chapter(nested),
                BookItem::Separator,
                BookItem::Chapter(Chapter::new("Empty", String::new(), "", Vec::new())),
            ],
        }),
        BookItem::Separator,
        BookItem::Chapter(Chapter::new("Suffix", String::from("bye"), "suffix.md", Vec::new())),
    ])
}

#[test]
fn round_trip_binary_wire() {
    let book = sample_book();
    let bytes = encode_book_binary(&book);
    let decoded = decode_book_binary(&bytes).unwrap();
    assert_eq!(decoded, book);
}

#[test]
fn round_trip_text_wire() {
    let book = sample_book();
    let text = encode_book_text(&book);
    let decoded = decode_book_text(&text).unwrap();
    assert_eq!(decoded, book);
}

#[test]
fn round_trip_empty_book() {
    let book = Book::new();
    let bytes = encode_book_binary(&book);
    assert_eq!(decode_book_binary(&bytes).unwrap(), book);
    let text = encode_book_text(&book);
    assert_eq!(decode_book_text(&text).unwrap(), book);
}

#[test]
fn text_wire_is_ascii_hex() {
    let book = sample_book();
    let text = encode_book_text(&book);
    for b in text {
        assert!((48..=57).contains(&b) || (97..=102).contains(&b));
    }
}

#[test]
fn decode_rejects_truncated_document() {
    let book = sample_book();
    let mut bytes = encode_book_binary(&book);
    bytes.pop();
    assert!(decode_book_binary(&bytes).is_none());
}

#[test]
fn decode_rejects_trailing_garbage() {
    let book = sample_book();
    let mut bytes = encode_book_binary(&book);
    for _ in 0..8 {
        bytes.push(0);
    }
    assert!(decode_book_binary(&bytes).is_none());
}

#[test]
fn decode_rejects_unknown_item_tag() {
    // a book of one separator: the atoms are the count 1 and the tag 0
    let book = Book::with_chapters(vec![BookItem::Separator]);
    let mut bytes = encode_book_binary(&book);
    assert_eq!(bytes.len(), 16);
    // corrupt the tag atom
    bytes[8] = 9;
    assert!(decode_book_binary(&bytes).is_none());
}

#[test]
fn decode_rejects_odd_length_text() {
    let text: Vec<u8> = vec![97, 98, 99];
    assert!(decode_book_text(&text).is_none());
}

#[test]
fn decode_rejects_non_hex_text() {
    let text: Vec<u8> = vec![103, 104];
    assert!(decode_book_text(&text).is_none());
}

#[test]
fn round_trip_write_and_parse_input() {
    let cmd = CmdPreprocessor::new("test".to_string(), "test".to_string());
    let book = sample_book();
    let ctx = PreprocessorContext::new(
        "book-example".to_string(),
        Config::default(),
        "some-renderer".to_string(),
    );

    let buffer = cmd.write_input(&book, &ctx);

    let (got_ctx, got_book) = CmdPreprocessor::parse_input(&buffer).unwrap();

    assert_eq!(got_book, book);
    assert_eq!(got_ctx, ctx);
}

#[test]
fn parse_input_rejects_corrupt_document() {
    let cmd = CmdPreprocessor::new("test".to_string(), "test".to_string());
    let ctx = PreprocessorContext::new(
        "root".to_string(),
        Config::default(),
        "html".to_string(),
    );
    let mut buffer = cmd.write_input(&Book::new(), &ctx);
    buffer.pop();
    assert!(CmdPreprocessor::parse_input(&buffer).is_none());
}

#[test]
fn cmd_preprocessor_reports_name_and_command() {
    let cmd = CmdPreprocessor::new("links".to_string(), "mdbook-links".to_string());
    assert_eq!(cmd.name(), "links");
    assert_eq!(cmd.cmd(), "mdbook-links");
}

#[test]
fn support_exit_codes_classify_as_documented() {
    assert_eq!(classify_support_exit(0), SupportDecision::Supported);
    assert_eq!(
        classify_support_exit(UNSUPPORTED_RENDERER_EXIT_CODE),
        SupportDecision::Unsupported
    );
    assert_eq!(classify_support_exit(1), SupportDecision::CheckFailed);
    assert_eq!(classify_support_exit(-1), SupportDecision::CheckFailed);
}

#[test]
fn run_exit_codes_are_fatal_unless_zero() {
    assert!(!run_exit_is_fatal(0));
    assert!(run_exit_is_fatal(1));
    assert!(run_exit_is_fatal(UNSUPPORTED_RENDERER_EXIT_CODE));
    assert!(run_exit_is_fatal(-7));
}
