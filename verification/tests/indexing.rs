use search_engine::doc::{self, Doc};
use search_engine::indexer::{
    action_for, content_of, extract_text_from_html, index_dir, index_text, join, text_to_index,
    Action, Outcome, PageNode, SourceFile,
};
use search_engine::model::Model;
use search_engine::table::Table;

fn counts(pairs: &[(&str, usize)]) -> Table<usize> {
    let mut table = Table::new();
    for (term, count) in pairs {
        table.insert(term.to_string(), *count);
    }
    table
}

fn sum_of(table: &Table<usize>) -> usize {
    let mut sum = 0;
    for i in 0..table.len() {
        sum += *table.value_at(i);
    }
    sum
}

fn file(path: &str, extension: Option<&str>, content: Option<&str>) -> SourceFile {
    SourceFile {
        path: path.to_string(),
        extension: extension.map(|e| e.to_string()),
        content: content.map(|c| c.to_string()),
    }
}

#[test]
fn empty_text_gives_an_empty_document() {
    let doc = doc::index_text("");
    assert_eq!(doc.dtc(), 0);
    assert_eq!(doc.dtf().len(), 0);
    assert_eq!(index_text("").len(), 0);
}

#[test]
fn counts_add_up_to_the_number_of_terms() {
    let text = "cat cat, cat dog! 7 7";
    let doc = doc::index_text(text);
    assert_eq!(doc.dtc(), search_engine::lexer::tokenize(text).len());
    assert_eq!(doc.dtc(), 8);
    assert_eq!(sum_of(doc.dtf()), doc.dtc());
    assert_eq!(doc.count_of("CAT"), 3);
    assert_eq!(doc.count_of("DOG"), 1);
    assert_eq!(doc.count_of("7"), 2);
    assert_eq!(doc.count_of(","), 1);
    assert_eq!(doc.count_of("!"), 1);
    assert_eq!(doc.count_of("cat"), 0);
    assert_eq!(doc.dtf().len(), 5);
}

#[test]
fn term_frequencies_are_those_of_the_document() {
    let dtf = index_text("b a b");
    assert_eq!(dtf.len(), 2);
    assert_eq!(dtf.get("B"), Some(&2));
    assert_eq!(dtf.get("A"), Some(&1));
    assert_eq!(dtf.get("C"), None);
    assert_eq!(dtf.key_at(0), "B");
    assert_eq!(dtf.find("A"), Some(1));
}

#[test]
fn a_document_is_made_of_parts_that_agree() {
    let doc = Doc::from_parts(counts(&[("cat", 3), ("dog", 1)]), 4).unwrap();
    assert_eq!(doc.dtc(), 4);
    assert_eq!(doc.count_of("cat"), 3);
    assert!(Doc::from_parts(counts(&[("cat", 3), ("dog", 1)]), 5).is_none());
    assert!(Doc::from_parts(counts(&[("cat", 3), ("dog", 1)]), 3).is_none());
    assert!(Doc::from_parts(counts(&[("cat", 0)]), 0).is_none());
    assert!(Doc::from_parts(counts(&[("cat", usize::MAX), ("dog", 1)]), 0).is_none());
    assert!(Doc::from_parts(counts(&[]), 0).is_some());
    let taken = doc::index_text("x y x");
    let dtc = taken.dtc();
    assert!(Doc::from_parts(taken.into_dtf(), dtc).is_some());
    assert_eq!(Doc::default().dtc(), 0);
}

#[test]
fn a_table_keeps_one_value_for_each_key() {
    let mut table: Table<usize> = Table::new();
    table.insert("a".to_string(), 1);
    table.insert("b".to_string(), 2);
    table.insert("a".to_string(), 3);
    assert_eq!(table.len(), 2);
    assert_eq!(table.get("a"), Some(&3));
    assert_eq!(table.key_at(0), "a");
    assert_eq!(*table.value_at(1), 2);
    assert_eq!(table.find("c"), None);
    assert!(search_engine::table::str_eq("abc", "abc"));
    assert!(!search_engine::table::str_eq("abc", "abd"));
    assert!(!search_engine::table::str_eq("abc", "ab"));
}

#[test]
fn entries_are_told_apart_by_kind_and_extension() {
    assert_eq!(action_for(true, None), Action::Descend);
    assert_eq!(action_for(true, Some("html")), Action::Descend);
    assert_eq!(action_for(false, Some("html")), Action::Extract);
    assert_eq!(action_for(false, Some("HTML")), Action::SkipUnsupported);
    assert_eq!(action_for(false, Some("txt")), Action::SkipUnsupported);
    assert_eq!(action_for(false, Some("")), Action::SkipUnsupported);
    assert_eq!(action_for(false, None), Action::SkipWithoutExtension);
}

#[test]
fn pieces_are_joined_by_the_separator() {
    assert_eq!(join(&vec![], " "), "");
    assert_eq!(join(&vec!["a".to_string()], " "), "a");
    assert_eq!(join(&vec!["a".to_string(), "".to_string(), "b c".to_string()], ", "), "a, , b c");
}

#[test]
fn text_is_taken_out_of_a_page_without_scripts_and_styles() {
    let html = "<html><head><title>This is The Title</title><script>this should not be included</script></head><body><p>Hello</p><style>p { color: red }</style></body></html>";
    assert_eq!(extract_text_from_html(html), Some("This is The Title Hello".to_string()));
}

#[test]
fn every_text_of_a_page_comes_once() {
    let html = "<html><body><div><p>hi</p></div></body></html>";
    assert_eq!(extract_text_from_html(html), Some("hi".to_string()));
    assert_eq!(extract_text_from_html("<html><body>cat <b>dog</b> bird</body></html>"), Some("cat  dog  bird".to_string()));
    assert_eq!(extract_text_from_html(""), Some("".to_string()));
    assert_eq!(extract_text_from_html("just words"), Some("just words".to_string()));
}

#[test]
fn text_in_scripts_and_styles_is_left_out_however_deep() {
    let html = "<html><body><div><script>var x = 1;</script>hello<span><style>b { }</style>world</span></div><p>end</p></body></html>";
    assert_eq!(extract_text_from_html(html), Some("hello world end".to_string()));
}

#[test]
fn content_is_the_text_outside_skipped_elements() {
    let element = |depth: usize, name: &str| PageNode::Element { depth, name: name.to_string() };
    let text = |depth: usize, text: &str| PageNode::Text { depth, text: text.to_string() };
    let nodes = vec![
        PageNode::Other { depth: 0 },
        element(1, "html"),
        element(2, "head"),
        element(3, "script"),
        text(4, "a"),
        element(3, "title"),
        text(4, "b"),
        element(2, "body"),
        element(3, "style"),
        element(4, "p"),
        text(5, "c"),
        text(4, "d"),
        text(3, "e"),
        PageNode::Other { depth: 3 },
        element(3, "script"),
        element(3, "p"),
        text(4, "f"),
    ];
    assert_eq!(content_of(&nodes), vec!["b".to_string(), "e".to_string(), "f".to_string()]);
    assert_eq!(content_of(&vec![]), Vec::<String>::new());
}

#[test]
fn only_pages_with_content_give_text() {
    let page = file("a.html", Some("html"), Some("<html><body><p>cat dog</p></body></html>"));
    assert_eq!(text_to_index(&page), Ok("cat dog".to_string()));
    assert_eq!(text_to_index(&file("b.html", Some("html"), None)), Err(Outcome::NotExtracted));
    assert_eq!(text_to_index(&file("c.txt", Some("txt"), Some("cat"))), Err(Outcome::UnsupportedExtension));
    assert_eq!(text_to_index(&file("d", None, Some("cat"))), Err(Outcome::NoExtension));
}

#[test]
fn files_are_added_and_passed_over() {
    let files = vec![
        file("docs/a.html", Some("html"), Some("<html><body><p>cat cat cat dog</p></body></html>")),
        file("docs/notes.txt", Some("txt"), Some("cat")),
        file("docs/b.html", Some("html"), Some("<html><body><p>dog dog</p></body></html>")),
        file("docs/README", None, None),
        file("docs/gone.html", Some("html"), None),
    ];
    let mut model = Model::default();
    let outcomes = model.add_documents(&files);
    assert_eq!(
        outcomes,
        vec![
            Outcome::Indexed,
            Outcome::UnsupportedExtension,
            Outcome::Indexed,
            Outcome::NoExtension,
            Outcome::NotExtracted,
        ]
    );
    assert_eq!(model.len(), 2);
    assert_eq!(model.doc_index().key_at(0), "docs/a.html");
    assert_eq!(model.doc_index().key_at(1), "docs/b.html");
    assert_eq!(model.doc_index().get("docs/a.html").unwrap().dtc(), 4);
    assert_eq!(model.frequency_of("CAT"), 1);
    assert_eq!(model.frequency_of("DOG"), 2);

    let (fresh, again) = index_dir(&files);
    assert_eq!(again, outcomes);
    assert_eq!(fresh.len(), 2);
    assert_eq!(fresh.frequency_of("DOG"), 2);
}

#[test]
fn words_are_counted_as_they_come() {
    let words = vec!["b".to_string(), "a".to_string(), "b".to_string()];
    let doc = doc::count_terms(&words);
    assert_eq!(doc.dtc(), 3);
    assert_eq!(doc.count_of("b"), 2);
    assert_eq!(doc.count_of("a"), 1);
    assert_eq!(doc.dtf().key_at(0), "b");
    assert_eq!(doc::count_terms(&vec![]).dtc(), 0);
}
