use search_engine::doc::Doc;
use search_engine::model::{count_docs, Model};
use search_engine::table::Table;

fn example() -> Model {
    let mut model = Model::new();
    model.add_document("A".to_string(), "cat cat cat dog");
    model.add_document("B".to_string(), "dog dog dog dog dog");
    model
}

fn table_agrees_with_index(model: &Model) -> bool {
    let table = model.tcf_table();
    for i in 0..table.len() {
        if *table.value_at(i) != model.count_documents_with(table.key_at(i)) {
            return false;
        }
    }
    let docs = model.doc_index();
    for d in 0..docs.len() {
        let dtf = docs.value_at(d).dtf();
        for j in 0..dtf.len() {
            let term = dtf.key_at(j);
            if model.frequency_of(term) != model.count_documents_with(term) {
                return false;
            }
            if model.frequency_of(term) == 0 {
                return false;
            }
        }
    }
    true
}

#[test]
fn a_new_model_is_empty() {
    let model = Model::new();
    assert_eq!(model.len(), 0);
    assert_eq!(model.frequency_of("CAT"), 0);
    assert_eq!(model.count_documents_with("CAT"), 0);
    assert_eq!(Model::default().len(), 0);
}

#[test]
fn frequencies_count_documents_not_occurrences() {
    let model = example();
    assert_eq!(model.len(), 2);
    assert_eq!(model.frequency_of("CAT"), 1);
    assert_eq!(model.frequency_of("DOG"), 2);
    assert_eq!(model.frequency_of("BIRD"), 0);
    assert_eq!(model.count_documents_with("CAT"), 1);
    assert_eq!(model.count_documents_with("DOG"), 2);
    assert_eq!(count_docs(model.doc_index(), "DOG"), 2);
    assert!(table_agrees_with_index(&model));
}

#[test]
fn the_table_is_what_the_index_gives_when_counted_again() {
    let mut model = Model::new();
    let texts = [
        ("one", "the cat sat on the mat"),
        ("two", "the dog sat"),
        ("three", ""),
        ("four", "a cat, a dog, a bird"),
        ("five", "42 is the answer"),
    ];
    for (id, text) in texts {
        model.add_document(id.to_string(), text);
        assert!(table_agrees_with_index(&model));
    }
    assert_eq!(model.len(), 5);
    assert_eq!(model.frequency_of("THE"), 3);
    assert_eq!(model.frequency_of("CAT"), 2);
    assert_eq!(model.frequency_of("A"), 1);
    assert_eq!(model.frequency_of(","), 1);
    assert_eq!(model.frequency_of("42"), 1);
}

#[test]
fn indexing_a_path_again_replaces_its_document() {
    let mut model = example();
    model.add_document("A".to_string(), "bird dog");
    assert_eq!(model.len(), 2);
    assert_eq!(model.frequency_of("CAT"), 0);
    assert_eq!(model.frequency_of("DOG"), 2);
    assert_eq!(model.frequency_of("BIRD"), 1);
    assert_eq!(model.doc_index().get("A").unwrap().dtc(), 2);
    assert_eq!(model.doc_index().key_at(0), "A");
    assert!(table_agrees_with_index(&model));
    model.add_document("B".to_string(), "");
    assert_eq!(model.len(), 2);
    assert_eq!(model.frequency_of("DOG"), 1);
    assert!(table_agrees_with_index(&model));
}

#[test]
fn a_document_can_be_put_in_as_it_is() {
    let mut dtf = Table::new();
    dtf.insert("cat".to_string(), 3);
    dtf.insert("dog".to_string(), 1);
    let mut model = Model::new();
    model.insert_doc("A".to_string(), Doc::from_parts(dtf, 4).unwrap());
    assert_eq!(model.frequency_of("cat"), 1);
    assert_eq!(model.doc_index().get("A").unwrap().count_of("cat"), 3);
}

#[test]
fn tables_of_a_model_make_the_same_model() {
    let (docs, table) = example().into_tables();
    let model = Model::from_tables(docs, table).unwrap();
    assert_eq!(model.len(), 2);
    assert_eq!(model.doc_index().get("A").unwrap().count_of("CAT"), 3);
    assert_eq!(model.doc_index().get("A").unwrap().dtc(), 4);
    assert_eq!(model.doc_index().get("B").unwrap().count_of("DOG"), 5);
    assert_eq!(model.frequency_of("CAT"), 1);
    assert_eq!(model.frequency_of("DOG"), 2);
    assert_eq!(model.tcf_table().len(), 2);
}

#[test]
fn tables_that_disagree_make_no_model() {
    let (docs, mut table) = example().into_tables();
    table.insert("DOG".to_string(), 3);
    assert!(Model::from_tables(docs, table).is_none());

    let (docs, mut table) = example().into_tables();
    table.insert("BIRD".to_string(), 1);
    assert!(Model::from_tables(docs, table).is_none());

    let (docs, _) = example().into_tables();
    let mut short = Table::new();
    short.insert("DOG".to_string(), 2);
    assert!(Model::from_tables(docs, short).is_none());

    let (docs, mut table) = example().into_tables();
    table.insert("BIRD".to_string(), 0);
    assert!(Model::from_tables(docs, table).is_some());
}
