use pdf_pages::document::Document;
use pdf_pages::error::PdfError;
use pdf_pages::files::{chars_of, contains_text, matches_search, search_hit, search_is_full, FilesList};
use pdf_pages::object::{bytes_equal, Dictionary, ObjectValue, Stream};
use pdf_pages::table::{id_before, same_id, IdTable};

fn name(text: &str) -> ObjectValue {
    ObjectValue::Name(text.as_bytes().to_vec())
}

#[test]
fn dictionary_returns_what_was_set() {
    let mut d = Dictionary::new();
    assert_eq!(d.len(), 0);
    d.set(b"Type".to_vec(), name("Page"));
    d.set(b"Count".to_vec(), ObjectValue::Integer(3));
    assert_eq!(d.len(), 2);
    assert_eq!(d.get(b"Type"), Some(&name("Page")));
    assert_eq!(d.get(b"Count"), Some(&ObjectValue::Integer(3)));
    assert_eq!(d.get(b"Kids"), None);
    assert!(d.has(b"Type"));
    assert!(!d.has(b"type"));
}

#[test]
fn dictionary_set_replaces_in_place() {
    let mut d = Dictionary::new();
    d.set(b"A".to_vec(), ObjectValue::Integer(1));
    d.set(b"B".to_vec(), ObjectValue::Integer(2));
    d.set(b"A".to_vec(), ObjectValue::Integer(9));
    assert_eq!(d.len(), 2);
    assert_eq!(d.key_at(0), &b"A".to_vec());
    assert_eq!(d.value_at(0), &ObjectValue::Integer(9));
    assert_eq!(d.key_at(1), &b"B".to_vec());
    assert_eq!(d.value_at(1), &ObjectValue::Integer(2));
}

#[test]
fn dictionary_with_values_keeps_names() {
    let mut d = Dictionary::new();
    d.set(b"A".to_vec(), ObjectValue::Integer(1));
    d.set(b"B".to_vec(), ObjectValue::Integer(2));
    d.set(b"C".to_vec(), ObjectValue::Integer(3));
    let e = d.with_values(vec![ObjectValue::Null, ObjectValue::Boolean(true), ObjectValue::Real(7)]);
    assert_eq!(e.len(), 3);
    assert_eq!(e.key_at(0), &b"A".to_vec());
    assert_eq!(e.key_at(2), &b"C".to_vec());
    assert_eq!(e.get(b"A"), Some(&ObjectValue::Null));
    assert_eq!(e.get(b"B"), Some(&ObjectValue::Boolean(true)));
    assert_eq!(e.get(b"C"), Some(&ObjectValue::Real(7)));
}

#[test]
fn clone_copies_every_level() {
    let mut inner = Dictionary::new();
    inner.set(b"Ref".to_vec(), ObjectValue::Reference((4, 1)));
    let stream = ObjectValue::Stream(Stream { dict: inner.clone(), content: vec![1, 2, 3] });
    let value = ObjectValue::Array(vec![
        ObjectValue::Dictionary(inner),
        stream,
        ObjectValue::ByteString(vec![0, 255]),
        name("N"),
    ]);
    assert_eq!(value.clone(), value);
}

#[test]
fn bytes_compare_by_content() {
    assert!(bytes_equal(b"Pages", b"Pages"));
    assert!(!bytes_equal(b"Pages", b"Page"));
    assert!(!bytes_equal(b"Page", b"Paga"));
    assert!(bytes_equal(b"", b""));
}

#[test]
fn identities_are_ordered_by_number_then_generation() {
    assert!(id_before((1, 5), (2, 0)));
    assert!(id_before((2, 0), (2, 1)));
    assert!(!id_before((2, 1), (2, 1)));
    assert!(!id_before((3, 0), (2, 9)));
    assert!(same_id((2, 1), (2, 1)));
    assert!(!same_id((2, 1), (2, 2)));
}

#[test]
fn table_keeps_ascending_order_whatever_the_insertion_order() {
    let mut a: IdTable<ObjectId2> = IdTable::new();
    a.insert((5, 0), (50, 0));
    a.insert((1, 0), (10, 0));
    a.insert((3, 2), (32, 0));
    a.insert((3, 0), (30, 0));
    let mut b: IdTable<ObjectId2> = IdTable::new();
    b.insert((3, 0), (30, 0));
    b.insert((3, 2), (32, 0));
    b.insert((1, 0), (10, 0));
    b.insert((5, 0), (50, 0));
    assert_eq!(a, b);
    assert_eq!(a.len(), 4);
    assert_eq!(a.key_at(0), (1, 0));
    assert_eq!(a.key_at(1), (3, 0));
    assert_eq!(a.key_at(2), (3, 2));
    assert_eq!(a.key_at(3), (5, 0));
    assert_eq!(a.value_at(2), &(32, 0));
}

type ObjectId2 = (u32, u16);

#[test]
fn table_insert_replaces_and_get_finds() {
    let mut t: IdTable<ObjectId2> = IdTable::new();
    assert_eq!(t.get((1, 0)), None);
    t.insert((1, 0), (7, 0));
    t.insert((1, 0), (8, 0));
    assert_eq!(t.len(), 1);
    assert_eq!(t.get((1, 0)), Some(&(8, 0)));
    assert!(t.contains((1, 0)));
    assert!(!t.contains((1, 1)));
}

#[test]
fn document_gives_out_the_next_object_number() {
    let mut doc = Document::with_version("1.7");
    assert_eq!(doc.version(), "1.7");
    assert_eq!(doc.max_id(), 0);
    assert_eq!(doc.add_object(ObjectValue::Null), Ok((1, 0)));
    assert_eq!(doc.add_object(ObjectValue::Integer(4)), Ok((2, 0)));
    assert_eq!(doc.max_id(), 2);
    assert_eq!(doc.object_count(), 2);
    assert_eq!(doc.get_object((2, 0)), Some(&ObjectValue::Integer(4)));
    assert_eq!(doc.get_object((3, 0)), None);
    assert!(doc.has_object((1, 0)));
}

#[test]
fn set_object_raises_the_highest_number() {
    let mut doc = Document::with_version("1.5");
    doc.set_object((9, 3), ObjectValue::Null);
    assert_eq!(doc.max_id(), 9);
    doc.set_object((4, 0), ObjectValue::Boolean(false));
    assert_eq!(doc.max_id(), 9);
    assert_eq!(doc.add_object(ObjectValue::Null), Ok((10, 0)));
    assert_eq!(doc.objects().key_at(0), (4, 0));
}

#[test]
fn object_numbers_run_out() {
    let mut doc = Document::with_version("1.5");
    doc.set_object((u32::MAX, 0), ObjectValue::Null);
    assert_eq!(doc.add_object(ObjectValue::Integer(1)), Err(PdfError::LimitExceeded));
    assert_eq!(doc.object_count(), 1);
    assert_eq!(doc.max_id(), u32::MAX);
}

#[test]
fn trailer_entries_are_set() {
    let mut doc = Document::with_version("1.5");
    doc.set_trailer(b"Root".to_vec(), ObjectValue::Reference((1, 0)));
    doc.set_trailer(b"Root".to_vec(), ObjectValue::Reference((2, 0)));
    assert_eq!(doc.trailer().len(), 1);
    assert_eq!(doc.trailer().get(b"Root"), Some(&ObjectValue::Reference((2, 0))));
}

#[test]
fn search_ignores_case() {
    assert!(matches_search("Report.PDF", "report"));
    assert!(matches_search("report.pdf", "PORT.P"));
    assert!(matches_search("anything", ""));
    assert!(!matches_search("report.pdf", "reports"));
    assert!(!matches_search("", "a"));
    assert!(matches_search("ÄRGER.txt", "ärger"));
}

#[test]
fn text_is_found_where_it_stands() {
    assert!(contains_text(&chars_of("abcabd"), &chars_of("abd")));
    assert!(contains_text(&chars_of("abc"), &chars_of("abc")));
    assert!(!contains_text(&chars_of("abc"), &chars_of("abcd")));
    assert!(!contains_text(&chars_of("abcabc"), &chars_of("acb")));
    assert!(contains_text(&chars_of(""), &chars_of("")));
    assert_eq!(chars_of("aé√"), vec!['a', 'é', '√']);
}

#[test]
fn search_stops_at_twenty_entries() {
    let mut found: Vec<FilesList> = Vec::new();
    for i in 0..19 {
        found.push(search_hit(format!("f{}", i), format!("/d/f{}", i), 1));
    }
    assert!(!search_is_full(&found));
    found.push(search_hit("last".to_string(), "/d/last".to_string(), 2));
    assert!(search_is_full(&found));
}

#[test]
fn search_hit_is_a_file() {
    let hit = search_hit("a.txt".to_string(), "/x/a.txt".to_string(), 12);
    assert_eq!(
        hit,
        FilesList {
            name: "a.txt".to_string(),
            path: "/x/a.txt".to_string(),
            size: 12,
            is_dir: false,
            is_file: true,
        }
    );
}
