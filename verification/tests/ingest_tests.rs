use courses_data::engine::SearchEngine;
use courses_data::error::Error;
use courses_data::ingest::{
    compose_corpus, compose_record, parse_records, SourceRecord, COURSE_ID_FIELD, DESC_FIELD,
    NAME_FIELD,
};

fn record(course_id: &str, name: &str, desc: &str) -> SourceRecord {
    SourceRecord { course_id: course_id.to_string(), name: name.to_string(), desc: desc.to_string() }
}

#[test]
fn field_names() {
    assert_eq!(COURSE_ID_FIELD, "courseID");
    assert_eq!(NAME_FIELD, "name");
    assert_eq!(DESC_FIELD, "desc");
}

#[test]
fn record_text_repeats_id_and_name_three_times() {
    let r = record("15-112", "Fundamentals", "An introduction.");
    assert_eq!(
        compose_record(&r),
        "15-112 15-112 15-112 | Fundamentals Fundamentals Fundamentals | An introduction."
    );
}

#[test]
fn record_text_of_empty_fields() {
    assert_eq!(compose_record(&record("", "", "")), "   |    | ");
}

#[test]
fn corpus_numbers_records_from_zero() {
    let corpus = compose_corpus(&[record("a", "b", "c"), record("d", "e", "f")]);
    assert_eq!(corpus.len(), 2);
    assert_eq!((corpus[0].id, corpus[0].contents.as_str()), (0, "a a a | b b b | c"));
    assert_eq!((corpus[1].id, corpus[1].contents.as_str()), (1, "d d d | e e e | f"));
    assert!(compose_corpus(&[]).is_empty());
}

#[test]
fn array_of_objects_is_read() {
    let text = "[{\"courseID\":\"15-112\",\"name\":\"Intro\",\"desc\":\"Basics\"},{\"courseID\":\"21-127\",\"name\":\"Concepts\",\"desc\":\"Proofs\"}]";
    let records = parse_records(text).unwrap();
    assert_eq!(records.len(), 2);
    assert_eq!(records[0].course_id, "15-112");
    assert_eq!(records[0].name, "Intro");
    assert_eq!(records[0].desc, "Basics");
    assert_eq!(records[1].course_id, "21-127");
}

#[test]
fn object_of_objects_is_read_in_order() {
    let text = "{\"x\":{\"courseID\":\"1\",\"name\":\"one\",\"desc\":\"first\"},\"y\":{\"courseID\":\"2\",\"name\":\"two\",\"desc\":\"second\"}}";
    let records = parse_records(text).unwrap();
    assert_eq!(records.len(), 2);
    assert_eq!(records[0].name, "one");
    assert_eq!(records[1].desc, "second");
}

#[test]
fn missing_field_reads_as_null() {
    let records = parse_records("[{\"courseID\":\"1\"}]").unwrap();
    assert_eq!(records[0].course_id, "1");
    assert_eq!(records[0].name, "null");
    assert_eq!(records[0].desc, "null");
}

#[test]
fn number_field_is_rendered_as_text() {
    let records = parse_records("[{\"courseID\":15112,\"name\":true,\"desc\":\"d\"}]").unwrap();
    assert_eq!(records[0].course_id, "15112");
    assert_eq!(records[0].name, "true");
}

#[test]
fn escapes_are_resolved() {
    let records = parse_records("[{\"courseID\":\"a\\\"b\",\"name\":\"\\u00e9\",\"desc\":\"x\\ny\"}]")
        .unwrap();
    assert_eq!(records[0].course_id, "a\"b");
    assert_eq!(records[0].name, "é");
    assert_eq!(records[0].desc, "x\ny");
}

#[test]
fn json_without_records_gives_none() {
    assert!(parse_records("[]").unwrap().is_empty());
    assert!(parse_records("{}").unwrap().is_empty());
    assert!(parse_records("3").unwrap().is_empty());
}

#[test]
fn text_that_is_not_json_is_refused() {
    assert!(parse_records("").is_none());
    assert!(parse_records("[{").is_none());
    assert!(parse_records("not json").is_none());
    assert!(matches!(SearchEngine::from_json("[{"), Err(Error::MalformedSourceRecord)));
}

#[test]
fn engine_from_json_indexes_the_composed_text() {
    let text = "[{\"courseID\":\"15-112\",\"name\":\"Intro\",\"desc\":\"Basics\"},{\"courseID\":\"21-127\",\"name\":\"Concepts\",\"desc\":\"Proofs\"}]";
    let engine = SearchEngine::from_json(text).unwrap();
    let docs = engine.index().documents();
    assert_eq!(docs.len(), 2);
    assert_eq!((docs[0].id, docs[0].contents.as_str()), (0, "15-112 15-112 15-112 | Intro Intro Intro | Basics"));
    assert_eq!(docs[1].id, 1);
    assert_eq!(engine.index().postings("int").unwrap()[0].term_freq, 3);
    assert_eq!(engine.index().postings("bas").unwrap()[0].term_freq, 1);
}

#[test]
fn engine_from_records_matches_engine_from_json() {
    let text = "[{\"courseID\":\"a1\",\"name\":\"n1\",\"desc\":\"d1\"}]";
    let a = SearchEngine::from_json(text).unwrap();
    let b = SearchEngine::from_records(&[record("a1", "n1", "d1")]).unwrap();
    assert_eq!(a.index().serialize(), b.index().serialize());
}
