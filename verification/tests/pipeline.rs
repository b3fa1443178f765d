use pdf_pages::builder::{build, build_structure, map_pages};
use pdf_pages::collector::collect;
use pdf_pages::document::Document;
use pdf_pages::error::PdfError;
use pdf_pages::object::{Dictionary, ObjectId, ObjectValue, Stream};
use pdf_pages::ops::{
    check_merge_inputs, do_delete_pages, do_merge_pdfs, do_split, extract, extract_multiple_pages,
    get_pdf_page_count, resolve_pages,
};
use pdf_pages::remapper::{remap, remap_into, rewrite_value};
use pdf_pages::table::IdTable;
use pdf_pages::walker::{classify, find_page_root, node_kids, walk, KidKind};

fn name(text: &str) -> ObjectValue {
    ObjectValue::Name(text.as_bytes().to_vec())
}

fn dict(entries: Vec<(&str, ObjectValue)>) -> ObjectValue {
    let mut d = Dictionary::new();
    for (key, value) in entries {
        d.set(key.as_bytes().to_vec(), value);
    }
    ObjectValue::Dictionary(d)
}

fn refs(ids: &[ObjectId]) -> ObjectValue {
    ObjectValue::Array(ids.iter().map(|id| ObjectValue::Reference(*id)).collect())
}

fn page(parent: ObjectId, number: i64, content: ObjectId) -> ObjectValue {
    dict(vec![
        ("Type", name("Page")),
        ("Parent", ObjectValue::Reference(parent)),
        ("Num", ObjectValue::Integer(number)),
        ("Contents", ObjectValue::Reference(content)),
    ])
}

fn content(text: &str) -> ObjectValue {
    let mut d = Dictionary::new();
    d.set(b"Length".to_vec(), ObjectValue::Integer(text.len() as i64));
    ObjectValue::Stream(Stream { dict: d, content: text.as_bytes().to_vec() })
}

/// A document of `pages` pages under one node: catalog (1,0), node (2,0),
/// page `n` at (2n+1, 0) with its content at (2n+2, 0). The node declares a
/// wrong `Count` on purpose.
fn flat_document(pages: u32, tag: &str) -> Document {
    let mut doc = Document::with_version("1.4");
    doc.set_object((1, 0), dict(vec![("Type", name("Catalog")), ("Pages", ObjectValue::Reference((2, 0)))]));
    let mut kids = Vec::new();
    for n in 1..=pages {
        let id = (2 * n + 1, 0);
        kids.push(id);
        doc.set_object(id, page((2, 0), n as i64, (2 * n + 2, 0)));
        doc.set_object((2 * n + 2, 0), content(&format!("{}{}", tag, n)));
    }
    doc.set_object((2, 0), dict(vec![("Type", name("Pages")), ("Count", ObjectValue::Integer(99)), ("Kids", refs(&kids))]));
    doc.set_trailer(b"Root".to_vec(), ObjectValue::Reference((1, 0)));
    doc
}

fn page_numbers(doc: &Document) -> Vec<i64> {
    let index = walk(doc).expect("the page tree can be walked");
    index
        .iter()
        .map(|id| match doc.get_object(*id) {
            Some(ObjectValue::Dictionary(d)) => match d.get(b"Num") {
                Some(ObjectValue::Integer(n)) => *n,
                other => panic!("page without number: {:?}", other),
            },
            other => panic!("page is no dictionary: {:?}", other),
        })
        .collect()
}

fn page_texts(doc: &Document) -> Vec<String> {
    let index = walk(doc).expect("the page tree can be walked");
    index
        .iter()
        .map(|id| match doc.get_object(*id) {
            Some(ObjectValue::Dictionary(d)) => match d.get(b"Contents") {
                Some(ObjectValue::Reference(c)) => match doc.get_object(*c) {
                    Some(ObjectValue::Stream(s)) => String::from_utf8(s.content.clone()).unwrap(),
                    other => panic!("content is no stream: {:?}", other),
                },
                other => panic!("page without content: {:?}", other),
            },
            other => panic!("page is no dictionary: {:?}", other),
        })
        .collect()
}

#[test]
fn walk_counts_pages_not_the_declared_count() {
    let doc = flat_document(5, "pg");
    assert_eq!(walk(&doc), Ok(vec![(3, 0), (5, 0), (7, 0), (9, 0), (11, 0)]));
    assert_eq!(get_pdf_page_count(&doc), Ok(5));
}

#[test]
fn walk_goes_depth_first_from_left_to_right() {
    let mut doc = Document::with_version("1.4");
    doc.set_object((1, 0), dict(vec![("Type", name("Catalog")), ("Pages", ObjectValue::Reference((2, 0)))]));
    doc.set_object((2, 0), dict(vec![("Type", name("Pages")), ("Kids", refs(&[(20, 0), (9, 0), (30, 0)]))]));
    doc.set_object((20, 0), dict(vec![("Type", name("Pages")), ("Kids", refs(&[(8, 0), (21, 0)]))]));
    doc.set_object((21, 0), dict(vec![("Type", name("Pages")), ("Kids", refs(&[(7, 0)]))]));
    doc.set_object((30, 0), dict(vec![("Type", name("Pages")), ("Kids", refs(&[(6, 0), (5, 0)]))]));
    for n in 5..=9 {
        doc.set_object((n, 0), dict(vec![("Type", name("Page"))]));
    }
    doc.set_trailer(b"Root".to_vec(), ObjectValue::Reference((1, 0)));
    assert_eq!(walk(&doc), Ok(vec![(8, 0), (7, 0), (9, 0), (6, 0), (5, 0)]));
}

#[test]
fn walk_passes_over_what_is_no_page() {
    let mut doc = flat_document(2, "pg");
    doc.set_object((50, 0), dict(vec![("Type", name("Font"))]));
    doc.set_object((51, 0), ObjectValue::Integer(1));
    doc.set_object((52, 0), dict(vec![("Kids", refs(&[(3, 0)]))]));
    doc.set_object(
        (2, 0),
        dict(vec![
            ("Type", name("Pages")),
            (
                "Kids",
                ObjectValue::Array(vec![
                    ObjectValue::Reference((50, 0)),
                    ObjectValue::Reference((3, 0)),
                    ObjectValue::Integer(7),
                    ObjectValue::Reference((51, 0)),
                    ObjectValue::Reference((77, 0)),
                    ObjectValue::Reference((52, 0)),
                    ObjectValue::Reference((5, 0)),
                    ObjectValue::Reference((3, 0)),
                ]),
            ),
        ]),
    );
    assert_eq!(walk(&doc), Ok(vec![(3, 0), (5, 0), (3, 0)]));
}

#[test]
fn walk_fails_on_a_circle() {
    let mut doc = Document::with_version("1.4");
    doc.set_object((1, 0), dict(vec![("Type", name("Catalog")), ("Pages", ObjectValue::Reference((2, 0)))]));
    doc.set_object((2, 0), dict(vec![("Type", name("Pages")), ("Kids", refs(&[(4, 0), (3, 0)]))]));
    doc.set_object((3, 0), dict(vec![("Type", name("Pages")), ("Kids", refs(&[(2, 0)]))]));
    doc.set_object((4, 0), dict(vec![("Type", name("Page"))]));
    doc.set_trailer(b"Root".to_vec(), ObjectValue::Reference((1, 0)));
    assert_eq!(walk(&doc), Err(PdfError::StructuralError));
    assert_eq!(get_pdf_page_count(&doc), Err(PdfError::StructuralError));
}

#[test]
fn walk_fails_on_a_node_that_holds_itself() {
    let mut doc = flat_document(1, "pg");
    doc.set_object((2, 0), dict(vec![("Type", name("Pages")), ("Kids", refs(&[(3, 0), (2, 0)]))]));
    assert_eq!(walk(&doc), Err(PdfError::StructuralError));
}

#[test]
fn walk_enters_a_shared_node_each_time() {
    let mut doc = Document::with_version("1.4");
    doc.set_object((1, 0), dict(vec![("Pages", ObjectValue::Reference((2, 0)))]));
    doc.set_object((2, 0), dict(vec![("Type", name("Pages")), ("Kids", refs(&[(3, 0), (3, 0)]))]));
    doc.set_object((3, 0), dict(vec![("Type", name("Pages")), ("Kids", refs(&[(4, 0)]))]));
    doc.set_object((4, 0), dict(vec![("Type", name("Page"))]));
    doc.set_trailer(b"Root".to_vec(), ObjectValue::Reference((1, 0)));
    assert_eq!(walk(&doc), Ok(vec![(4, 0), (4, 0)]));
}

#[test]
fn walk_fails_without_a_way_to_the_page_tree() {
    let empty = Document::with_version("1.4");
    assert_eq!(walk(&empty), Err(PdfError::StructuralError));
    assert_eq!(find_page_root(&empty), None);

    let mut no_catalog = flat_document(1, "pg");
    no_catalog.set_trailer(b"Root".to_vec(), ObjectValue::Reference((40, 0)));
    assert_eq!(walk(&no_catalog), Err(PdfError::StructuralError));

    let mut direct_root = flat_document(1, "pg");
    direct_root.set_trailer(b"Root".to_vec(), ObjectValue::Integer(1));
    assert_eq!(walk(&direct_root), Err(PdfError::StructuralError));

    let mut no_pages = flat_document(1, "pg");
    no_pages.set_object((1, 0), dict(vec![("Type", name("Catalog"))]));
    assert_eq!(walk(&no_pages), Err(PdfError::StructuralError));

    let mut dangling_pages = flat_document(1, "pg");
    dangling_pages.set_object((1, 0), dict(vec![("Pages", ObjectValue::Reference((41, 0)))]));
    assert_eq!(walk(&dangling_pages), Err(PdfError::StructuralError));

    let mut pages_no_dictionary = flat_document(1, "pg");
    pages_no_dictionary.set_object((2, 0), ObjectValue::Array(vec![]));
    assert_eq!(walk(&pages_no_dictionary), Err(PdfError::StructuralError));
}

#[test]
fn walk_of_a_tree_without_kids_is_empty() {
    let mut doc = flat_document(0, "pg");
    assert_eq!(walk(&doc), Ok(vec![]));
    doc.set_object((2, 0), dict(vec![("Type", name("Pages"))]));
    assert_eq!(walk(&doc), Ok(vec![]));
    assert_eq!(find_page_root(&doc), Some((2, 0)));
    assert_eq!(node_kids(&doc, (2, 0)), None);
}

#[test]
fn kids_are_told_apart_by_type() {
    let doc = flat_document(1, "pg");
    assert_eq!(classify(&doc, &ObjectValue::Reference((3, 0))), KidKind::Page((3, 0)));
    assert_eq!(classify(&doc, &ObjectValue::Reference((2, 0))), KidKind::Node((2, 0)));
    assert_eq!(classify(&doc, &ObjectValue::Reference((1, 0))), KidKind::Other);
    assert_eq!(classify(&doc, &ObjectValue::Reference((4, 0))), KidKind::Other);
    assert_eq!(classify(&doc, &ObjectValue::Reference((90, 0))), KidKind::Other);
    assert_eq!(classify(&doc, &ObjectValue::Null), KidKind::Other);
}

#[test]
fn collect_closes_over_references() {
    let mut doc = flat_document(3, "pg");
    doc.set_object((20, 0), dict(vec![("Font", ObjectValue::Reference((21, 0))), ("Gone", ObjectValue::Reference((99, 0)))]));
    doc.set_object((21, 0), dict(vec![("Back", ObjectValue::Reference((20, 0)))]));
    doc.set_object(
        (5, 0),
        dict(vec![("Type", name("Page")), ("Num", ObjectValue::Integer(2)), ("Resources", ObjectValue::Reference((20, 0)))]),
    );
    let collected = collect(&doc, &vec![(5, 0)]);
    assert_eq!(collected.len(), 3);
    assert_eq!(collected.key_at(0), (5, 0));
    assert_eq!(collected.key_at(1), (20, 0));
    assert_eq!(collected.key_at(2), (21, 0));
    assert_eq!(collected.get((20, 0)), doc.get_object((20, 0)));
    assert_eq!(collected.get((99, 0)), None);
}

#[test]
fn collect_follows_parents_to_the_whole_tree() {
    let doc = flat_document(2, "pg");
    let collected = collect(&doc, &vec![(3, 0)]);
    let keys: Vec<ObjectId> = (0..collected.len()).map(|i| collected.key_at(i)).collect();
    assert_eq!(keys, vec![(2, 0), (3, 0), (4, 0), (5, 0), (6, 0)]);
}

#[test]
fn collect_passes_over_roots_that_are_missing() {
    let doc = flat_document(1, "pg");
    let collected = collect(&doc, &vec![(70, 0)]);
    assert_eq!(collected.len(), 0);
    let none = collect(&doc, &vec![]);
    assert_eq!(none.len(), 0);
}

#[test]
fn collect_reads_the_dictionary_of_a_stream_not_its_payload() {
    let mut doc = Document::with_version("1.4");
    let mut d = Dictionary::new();
    d.set(b"Next".to_vec(), ObjectValue::Reference((2, 0)));
    doc.set_object((1, 0), ObjectValue::Stream(Stream { dict: d, content: b"3 0 R".to_vec() }));
    doc.set_object((2, 0), ObjectValue::Integer(2));
    doc.set_object((3, 0), ObjectValue::Integer(3));
    let collected = collect(&doc, &vec![(1, 0)]);
    assert_eq!(collected.len(), 2);
    assert!(collected.contains((2, 0)));
    assert!(!collected.contains((3, 0)));
    assert_eq!(collected.get((1, 0)), doc.get_object((1, 0)));
}

#[test]
fn collect_does_not_depend_on_the_order_of_roots() {
    let doc = flat_document(3, "pg");
    assert_eq!(collect(&doc, &vec![(3, 0), (7, 0)]), collect(&doc, &vec![(7, 0), (3, 0), (3, 0)]));
}

#[test]
fn rewrite_replaces_known_references_only() {
    let mut ids: IdTable<ObjectId> = IdTable::new();
    ids.insert((10, 0), (1, 0));
    ids.insert((20, 0), (2, 0));
    let mut inner = Dictionary::new();
    inner.set(b"R".to_vec(), ObjectValue::Reference((20, 0)));
    let value = dict(vec![
        ("A", ObjectValue::Reference((10, 0))),
        ("B", ObjectValue::Array(vec![ObjectValue::Reference((20, 0)), ObjectValue::Reference((30, 0))])),
        ("C", ObjectValue::Stream(Stream { dict: inner.clone(), content: vec![1, 2] })),
        ("D", ObjectValue::Reference((10, 1))),
    ]);
    let mut wanted_inner = Dictionary::new();
    wanted_inner.set(b"R".to_vec(), ObjectValue::Reference((2, 0)));
    let wanted = dict(vec![
        ("A", ObjectValue::Reference((1, 0))),
        ("B", ObjectValue::Array(vec![ObjectValue::Reference((2, 0)), ObjectValue::Reference((30, 0))])),
        ("C", ObjectValue::Stream(Stream { dict: wanted_inner, content: vec![1, 2] })),
        ("D", ObjectValue::Reference((10, 1))),
    ]);
    assert_eq!(rewrite_value(&value, &ids), wanted);
}

#[test]
fn remap_numbers_objects_in_ascending_order_of_identity() {
    let mut collected: IdTable<ObjectValue> = IdTable::new();
    collected.insert((30, 0), ObjectValue::Reference((7, 2)));
    collected.insert((7, 2), ObjectValue::Reference((30, 0)));
    collected.insert((7, 0), ObjectValue::Array(vec![ObjectValue::Reference((8, 0))]));
    let (doc, ids) = remap(&collected).expect("three objects can be numbered");
    assert_eq!(ids.get((7, 0)), Some(&(1, 0)));
    assert_eq!(ids.get((7, 2)), Some(&(2, 0)));
    assert_eq!(ids.get((30, 0)), Some(&(3, 0)));
    assert_eq!(doc.version(), "1.5");
    assert_eq!(doc.max_id(), 3);
    assert_eq!(doc.object_count(), 3);
    assert_eq!(doc.get_object((1, 0)), Some(&ObjectValue::Array(vec![ObjectValue::Reference((8, 0))])));
    assert_eq!(doc.get_object((2, 0)), Some(&ObjectValue::Reference((3, 0))));
    assert_eq!(doc.get_object((3, 0)), Some(&ObjectValue::Reference((2, 0))));
    assert_eq!(doc.trailer().len(), 0);
}

#[test]
fn remap_twice_gives_the_same_identities() {
    let mut first: IdTable<ObjectValue> = IdTable::new();
    first.insert((9, 0), ObjectValue::Null);
    first.insert((4, 0), ObjectValue::Reference((9, 0)));
    first.insert((6, 1), ObjectValue::Integer(1));
    let mut second: IdTable<ObjectValue> = IdTable::new();
    second.insert((6, 1), ObjectValue::Integer(1));
    second.insert((4, 0), ObjectValue::Reference((9, 0)));
    second.insert((9, 0), ObjectValue::Null);
    let a = remap(&first).unwrap();
    let b = remap(&first).unwrap();
    let c = remap(&second).unwrap();
    assert_eq!(a, b);
    assert_eq!(a, c);
}

#[test]
fn remap_into_continues_after_the_highest_number() {
    let mut doc = Document::with_version("1.5");
    doc.set_object((5, 0), ObjectValue::Reference((1, 0)));
    let mut collected: IdTable<ObjectValue> = IdTable::new();
    collected.insert((1, 0), ObjectValue::Reference((5, 0)));
    collected.insert((5, 0), ObjectValue::Reference((1, 0)));
    let ids = remap_into(&mut doc, &collected).unwrap();
    assert_eq!(ids.get((1, 0)), Some(&(6, 0)));
    assert_eq!(ids.get((5, 0)), Some(&(7, 0)));
    assert_eq!(doc.get_object((5, 0)), Some(&ObjectValue::Reference((1, 0))));
    assert_eq!(doc.get_object((6, 0)), Some(&ObjectValue::Reference((7, 0))));
    assert_eq!(doc.get_object((7, 0)), Some(&ObjectValue::Reference((6, 0))));
    assert_eq!(doc.max_id(), 7);
}

#[test]
fn remap_into_fails_where_numbers_run_out() {
    let mut doc = Document::with_version("1.5");
    doc.set_object((u32::MAX - 1, 0), ObjectValue::Null);
    let mut collected: IdTable<ObjectValue> = IdTable::new();
    collected.insert((1, 0), ObjectValue::Null);
    collected.insert((2, 0), ObjectValue::Null);
    assert_eq!(remap_into(&mut doc, &collected), Err(PdfError::LimitExceeded));
    assert_eq!(doc.object_count(), 1);
    assert_eq!(doc.max_id(), u32::MAX - 1);
}

#[test]
fn build_makes_a_flat_tree() {
    let mut doc = Document::with_version("1.5");
    doc.set_object((1, 0), dict(vec![("Type", name("Page")), ("Parent", ObjectValue::Reference((44, 0)))]));
    doc.set_object((2, 0), dict(vec![("Type", name("Page"))]));
    doc.set_object((3, 0), ObjectValue::Integer(0));
    assert_eq!(build_structure(&mut doc, &vec![(2, 0), (1, 0), (3, 0), (60, 0)]), Ok(()));
    assert_eq!(
        doc.get_object((4, 0)),
        Some(&dict(vec![
            ("Type", name("Pages")),
            ("Count", ObjectValue::Integer(4)),
            ("Kids", refs(&[(2, 0), (1, 0), (3, 0), (60, 0)])),
        ]))
    );
    assert_eq!(
        doc.get_object((5, 0)),
        Some(&dict(vec![("Type", name("Catalog")), ("Pages", ObjectValue::Reference((4, 0)))]))
    );
    assert_eq!(doc.trailer().get(b"Root"), Some(&ObjectValue::Reference((5, 0))));
    assert_eq!(
        doc.get_object((1, 0)),
        Some(&dict(vec![("Type", name("Page")), ("Parent", ObjectValue::Reference((4, 0)))]))
    );
    assert_eq!(
        doc.get_object((2, 0)),
        Some(&dict(vec![("Type", name("Page")), ("Parent", ObjectValue::Reference((4, 0)))]))
    );
    assert_eq!(doc.get_object((3, 0)), Some(&ObjectValue::Integer(0)));
    assert_eq!(doc.max_id(), 5);
    assert_eq!(walk(&doc), Ok(vec![(2, 0), (1, 0)]));
}

#[test]
fn build_maps_pages_through_the_identities() {
    let mut ids: IdTable<ObjectId> = IdTable::new();
    ids.insert((10, 0), (2, 0));
    ids.insert((20, 0), (1, 0));
    assert_eq!(map_pages(&vec![(20, 0), (5, 0), (10, 0), (20, 0)], &ids), vec![(1, 0), (2, 0), (1, 0)]);
    let mut doc = Document::with_version("1.5");
    doc.set_object((1, 0), dict(vec![("Type", name("Page"))]));
    doc.set_object((2, 0), dict(vec![("Type", name("Page"))]));
    assert_eq!(build(&mut doc, &ids, &vec![(10, 0), (20, 0)]), Ok(()));
    assert_eq!(walk(&doc), Ok(vec![(2, 0), (1, 0)]));
}

#[test]
fn build_fails_where_numbers_run_out() {
    let mut doc = Document::with_version("1.5");
    doc.set_object((u32::MAX - 1, 0), dict(vec![("Type", name("Page"))]));
    assert_eq!(build_structure(&mut doc, &vec![(u32::MAX - 1, 0)]), Err(PdfError::LimitExceeded));
    assert_eq!(doc.object_count(), 1);
    assert_eq!(doc.trailer().len(), 0);
}

#[test]
fn pages_are_resolved_by_number() {
    let index = vec![(3, 0), (5, 0), (7, 0)];
    assert_eq!(resolve_pages(&index, &vec![3, 1, 1]), Ok(vec![(7, 0), (3, 0), (3, 0)]));
    assert_eq!(resolve_pages(&index, &vec![2, 4, 9]), Err(PdfError::PageNotFound { page: 4 }));
    assert_eq!(resolve_pages(&index, &vec![0]), Err(PdfError::PageNotFound { page: 0 }));
}

#[test]
fn extract_stands_alone() {
    let doc = flat_document(3, "pg");
    let out = extract(&doc, &vec![(5, 0)]).unwrap();
    assert_eq!(out.version(), "1.5");
    assert_eq!(page_numbers(&out), vec![2]);
    assert_eq!(page_texts(&out), vec!["pg2".to_string()]);
    let index = walk(&out).unwrap();
    let page = out.get_object(index[0]);
    match page {
        Some(ObjectValue::Dictionary(d)) => {
            let node = find_page_root(&out).unwrap();
            assert_eq!(d.get(b"Parent"), Some(&ObjectValue::Reference(node)));
        },
        other => panic!("page is no dictionary: {:?}", other),
    }
}

#[test]
fn extract_keeps_a_dangling_reference_as_it_is() {
    let mut doc = flat_document(1, "pg");
    doc.set_object(
        (3, 0),
        dict(vec![("Type", name("Page")), ("Gone", ObjectValue::Reference((500, 0)))]),
    );
    let out = extract_multiple_pages(&doc, &vec![1]).unwrap();
    let index = walk(&out).unwrap();
    match out.get_object(index[0]) {
        Some(ObjectValue::Dictionary(d)) => {
            assert_eq!(d.get(b"Gone"), Some(&ObjectValue::Reference((500, 0))));
        },
        other => panic!("page is no dictionary: {:?}", other),
    }
    assert!(!out.has_object((500, 0)));
}

#[test]
fn extraction_errors() {
    let doc = flat_document(5, "pg");
    assert_eq!(extract_multiple_pages(&doc, &vec![]), Err(PdfError::EmptySelection));
    assert_eq!(extract_multiple_pages(&doc, &vec![2, 6, 7]), Err(PdfError::PageNotFound { page: 6 }));
    assert_eq!(extract_multiple_pages(&doc, &vec![0]), Err(PdfError::PageNotFound { page: 0 }));
    let broken = Document::with_version("1.4");
    assert_eq!(extract_multiple_pages(&broken, &vec![1]), Err(PdfError::StructuralError));
    assert_eq!(extract_multiple_pages(&broken, &vec![]), Err(PdfError::StructuralError));
}

#[test]
fn extraction_keeps_the_order_that_is_asked_for() {
    let doc = flat_document(5, "pg");
    let out = extract_multiple_pages(&doc, &vec![4, 1, 4]).unwrap();
    assert_eq!(page_numbers(&out), vec![4, 1, 4]);
}

#[test]
fn delete_scenario() {
    let doc = flat_document(5, "pg");
    let output = do_delete_pages(&doc, &vec![2]).unwrap();
    assert_eq!(output.name, "pages_1-5.pdf");
    assert_eq!(get_pdf_page_count(&output.document), Ok(4));
    assert_eq!(page_numbers(&output.document), vec![1, 3, 4, 5]);
    assert_eq!(page_texts(&output.document), vec!["pg1", "pg3", "pg4", "pg5"]);
    assert_eq!(doc, flat_document(5, "pg"));
}

#[test]
fn delete_passes_over_numbers_without_page() {
    let doc = flat_document(3, "pg");
    let output = do_delete_pages(&doc, &vec![9, 3, 0, 3]).unwrap();
    assert_eq!(output.name, "pages_1-2.pdf");
    assert_eq!(page_numbers(&output.document), vec![1, 2]);
    let one = do_delete_pages(&doc, &vec![1, 3]).unwrap();
    assert_eq!(one.name, "page_2.pdf");
    assert_eq!(page_numbers(&one.document), vec![2]);
}

#[test]
fn delete_of_every_page_leaves_nothing_to_write() {
    let doc = flat_document(2, "pg");
    assert_eq!(do_delete_pages(&doc, &vec![1, 2]), Err(PdfError::EmptySelection));
    let broken = Document::with_version("1.4");
    assert_eq!(do_delete_pages(&broken, &vec![1]), Err(PdfError::StructuralError));
}

#[test]
fn merge_scenario() {
    let a = flat_document(3, "a");
    let b = flat_document(2, "b");
    let merged = do_merge_pdfs(&vec![a, b]).unwrap();
    assert_eq!(get_pdf_page_count(&merged), Ok(5));
    assert_eq!(page_texts(&merged), vec!["a1", "a2", "a3", "b1", "b2"]);
    assert_eq!(page_numbers(&merged), vec![1, 2, 3, 1, 2]);
    assert_eq!(merged.version(), "1.5");
}

#[test]
fn merge_keeps_the_order_of_the_sources() {
    let a = flat_document(1, "a");
    let b = flat_document(2, "b");
    let c = flat_document(1, "c");
    let merged = do_merge_pdfs(&vec![b, c, a]).unwrap();
    assert_eq!(page_texts(&merged), vec!["b1", "b2", "c1", "a1"]);
}

#[test]
fn merge_of_a_document_with_itself_doubles_it() {
    let merged = do_merge_pdfs(&vec![flat_document(2, "x"), flat_document(2, "x")]).unwrap();
    assert_eq!(page_texts(&merged), vec!["x1", "x2", "x1", "x2"]);
    let index = walk(&merged).unwrap();
    assert!(index[0] != index[2]);
}

#[test]
fn merge_errors() {
    assert_eq!(do_merge_pdfs(&vec![]), Err(PdfError::InsufficientInputs));
    assert_eq!(do_merge_pdfs(&vec![flat_document(2, "a")]), Err(PdfError::InsufficientInputs));
    assert_eq!(check_merge_inputs(0), Err(PdfError::InsufficientInputs));
    assert_eq!(check_merge_inputs(1), Err(PdfError::InsufficientInputs));
    assert_eq!(check_merge_inputs(2), Ok(()));
    let broken = Document::with_version("1.4");
    assert_eq!(do_merge_pdfs(&vec![flat_document(1, "a"), broken]), Err(PdfError::StructuralError));
}

#[test]
fn split_scenario() {
    let doc = flat_document(5, "pg");
    let report = do_split(&doc, &vec!["1", "3-4", "x"]);
    assert_eq!(report.failure, Some(PdfError::InvalidSelectionSyntax { token: "x".to_string() }));
    assert_eq!(report.outputs.len(), 2);
    assert_eq!(report.outputs[0].name, "page_1.pdf");
    assert_eq!(get_pdf_page_count(&report.outputs[0].document), Ok(1));
    assert_eq!(page_numbers(&report.outputs[0].document), vec![1]);
    assert_eq!(report.outputs[1].name, "pages_3-4.pdf");
    assert_eq!(get_pdf_page_count(&report.outputs[1].document), Ok(2));
    assert_eq!(page_numbers(&report.outputs[1].document), vec![3, 4]);
    let alone = do_split(&doc, &vec!["1", "3-4"]);
    assert_eq!(alone.failure, None);
    assert_eq!(alone.outputs, report.outputs);
}

#[test]
fn split_stops_at_the_first_failure() {
    let doc = flat_document(5, "pg");
    let report = do_split(&doc, &vec!["2", "4-7", "1"]);
    assert_eq!(report.failure, Some(PdfError::PageNotFound { page: 6 }));
    assert_eq!(report.outputs.len(), 1);
    assert_eq!(report.outputs[0].name, "page_2.pdf");
    let beyond = do_split(&doc, &vec!["8-9"]);
    assert_eq!(beyond.failure, Some(PdfError::PageNotFound { page: 8 }));
    assert_eq!(beyond.outputs.len(), 0);
    let huge = do_split(&doc, &vec!["1-4294967295"]);
    assert_eq!(huge.failure, Some(PdfError::PageNotFound { page: 6 }));
}

#[test]
fn split_of_nothing_is_nothing() {
    let doc = flat_document(2, "pg");
    let report = do_split(&doc, &vec![]);
    assert_eq!(report.failure, None);
    assert_eq!(report.outputs.len(), 0);
}

#[test]
fn split_reads_the_token_before_the_document() {
    let broken = Document::with_version("1.4");
    let report = do_split(&broken, &vec!["0"]);
    assert_eq!(report.failure, Some(PdfError::InvalidSelectionSyntax { token: "0".to_string() }));
    let walked = do_split(&broken, &vec!["1"]);
    assert_eq!(walked.failure, Some(PdfError::StructuralError));
}

#[test]
fn split_range_of_one_page_is_named_as_a_page() {
    let doc = flat_document(3, "pg");
    let report = do_split(&doc, &vec!["2-2"]);
    assert_eq!(report.failure, None);
    assert_eq!(report.outputs[0].name, "page_2.pdf");
}

#[test]
fn full_round_trip_keeps_the_page_count() {
    let doc = flat_document(4, "pg");
    let index = walk(&doc).unwrap();
    let out = extract(&doc, &index).unwrap();
    assert_eq!(get_pdf_page_count(&out), get_pdf_page_count(&doc));
    assert_eq!(page_texts(&out), page_texts(&doc));
    let numbered = extract_multiple_pages(&doc, &vec![1, 2, 3, 4]).unwrap();
    assert_eq!(numbered, out);
}

#[test]
fn output_holds_what_the_pages_reach_and_two_more() {
    let doc = flat_document(3, "pg");
    let out = extract_multiple_pages(&doc, &vec![2]).unwrap();
    // The page reaches the old node through its parent, and through it
    // every page and content: seven objects, and the new node and catalog.
    assert_eq!(out.object_count(), 9);
    assert_eq!(out.max_id(), 9);
}
