use mdbook::book::{clone_book, clone_items, Book, BookItem, Chapter, CountingVisitor,
    SectionNumber};

const DUMMY_SRC: &str = "\n# Dummy Chapter\n\nthis is some dummy text.\n\nAnd here is some more text.\n";

fn collect_items(book: &Book) -> Vec<BookItem> {
    let mut it = book.iter();
    let mut out: Vec<BookItem> = Vec::new();
    while let Some(x) = it.next() {
        out.push(x);
    }
    out
}

fn chapter_names(book: &Book) -> Vec<String> {
    let mut names: Vec<String> = Vec::new();
    for item in collect_items(book) {
        if let BookItem::Chapter(ch) = item {
            names.push(ch.name.clone());
        }
    }
    names
}

fn nested_book() -> Book {
    Book::with_chapters(vec![
        BookItem::Chapter(Chapter {
            name: String::from("Chapter 1"),
            content: String::from(DUMMY_SRC),
            number: None,
            path: String::from("Chapter_1/index.md"),
            parent_names: Vec::new(),
            sub_items: vec![
                BookItem::Chapter(Chapter::new(
                    "Hello World",
                    String::new(),
                    "Chapter_1/hello.md",
                    Vec::new(),
                )),
                BookItem::Separator,
                BookItem::Chapter(Chapter::new(
                    "Goodbye World",
                    String::new(),
                    "Chapter_1/goodbye.md",
                    Vec::new(),
                )),
            ],
        }),
        BookItem::Separator,
    ])
}

#[test]
fn book_iter_iterates_over_sequential_items() {
    let book = Book::with_chapters(vec![
        BookItem::Chapter(Chapter {
            name: String::from("Chapter 1"),
            content: String::from(DUMMY_SRC),
            ..Default::default()
        }),
        BookItem::Separator,
    ]);

    let should_be = clone_items(&book.sections);
    let got = collect_items(&book);

    assert_eq!(got, should_be);
}

#[test]
fn iterate_over_nested_book_items() {
    let book = nested_book();

    let got = collect_items(&book);

    assert_eq!(got.len(), 5);

    // checking the chapter names are in the order should be sufficient here...
    let should_be: Vec<String> = vec![
        String::from("Chapter 1"),
        String::from("Hello World"),
        String::from("Goodbye World"),
    ];

    assert_eq!(chapter_names(&book), should_be);
}

#[test]
fn for_each_mut_visits_all_items() {
    let mut book = nested_book();

    let num_items = book.iter().count();
    let mut visitor = CountingVisitor { count: 0 };

    book.for_each_mut(&mut visitor);

    assert_eq!(visitor.count, num_items as u64);
}

#[test]
fn traversal_is_depth_first_preorder() {
    let a1 = Chapter::new("A1", String::new(), "a1.md", vec![String::from("A")]);
    let a2 = Chapter::new("A2", String::new(), "a2.md", vec![String::from("A")]);
    let a = Chapter {
        name: String::from("A"),
        content: String::new(),
        number: None,
        path: String::from("a.md"),
        parent_names: Vec::new(),
        sub_items: vec![a1.into(), a2.into()],
    };
    let b = Chapter::new("B", String::new(), "b.md", Vec::new());
    let book = Book::with_chapters(vec![a.into(), b.into()]);

    let should_be: Vec<String> = vec![
        String::from("A"),
        String::from("A1"),
        String::from("A2"),
        String::from("B"),
    ];
    assert_eq!(chapter_names(&book), should_be);
    assert_eq!(book.iter().count(), 4);
}

#[test]
fn counting_visitor_counts_nested_and_separators() {
    // two top-level items, three nested ones: five in all
    let mut book = nested_book();
    let mut visitor = CountingVisitor { count: 0 };
    book.for_each_mut(&mut visitor);
    assert_eq!(visitor.count, 5);
    // the counting visitor changes nothing
    assert_eq!(book, nested_book());
}

#[test]
fn push_item_appends_at_the_end() {
    let mut book = Book::new();
    book.push_item(BookItem::Separator);
    book.push_item(BookItem::Chapter(Chapter::new("One", String::new(), "one.md", Vec::new())));
    assert_eq!(book.sections.len(), 2);
    assert!(matches!(book.sections[0], BookItem::Separator));
    assert!(matches!(book.sections[1], BookItem::Chapter(_)));
}

#[test]
fn clone_book_is_deep_and_equal() {
    let book = nested_book();
    let copy = clone_book(&book);
    assert_eq!(copy, book);
}

#[test]
fn section_number_displays_with_trailing_dots() {
    let n = SectionNumber(vec![1, 2, 3]);
    assert_eq!(n.display_string(), "1.2.3.");
    let big = SectionNumber(vec![10, 205]);
    assert_eq!(big.display_string(), "10.205.");
}

#[test]
fn empty_section_number_displays_as_zero() {
    let n = SectionNumber(vec![]);
    assert_eq!(n.display_string(), "0");
}

#[test]
fn chapter_display_includes_section_number() {
    let mut ch = Chapter::new("Getting Started", String::new(), "start.md", Vec::new());
    assert_eq!(ch.display_string(), "Getting Started");
    ch.number = Some(SectionNumber(vec![2, 1]));
    assert_eq!(ch.display_string(), "2.1. Getting Started");
}
