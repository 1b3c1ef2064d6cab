use pdfops::annotate::{
    add_annot_to_page, attach_annotation, attach_annotations, free_text_annotation, highlight_annotation, ink_annotation, page_dimensions,
    page_object_id, AnnotateError,
};
use pdfops::color::{color_cuts_fit, parse_color};
use pdfops::lopdf_bridge::{new_document, save_document};
use pdfops::pdf_document::{LookupError, PdfDocument};
use pdfops::pdf_object::{ascii_key, ObjectId, ObjectKind, PdfDict, PdfObject, StringFormat};

fn key(s: &str) -> Vec<u8> {
    s.as_bytes().to_vec()
}

fn id(n: u32) -> ObjectId {
    ObjectId { number: n, generation: 0 }
}

fn dict(entries: Vec<(&str, PdfObject)>) -> PdfDict {
    let mut d = PdfDict::new();
    for (k, v) in entries {
        d.set(key(k), v);
    }
    d
}

/// A document with a page dictionary at 1, a reference to it at 2 and an
/// integer at 3.
fn doc_with_page(page: PdfDict) -> PdfDocument {
    let mut doc = new_document("1.7");
    doc.set_object(id(1), PdfObject::Dictionary(page));
    doc.set_object(id(2), PdfObject::Reference(id(1)));
    doc.set_object(id(3), PdfObject::Integer(5));
    doc.max_id = 3;
    doc
}

fn annots_of(doc: &PdfDocument, at: ObjectId) -> Vec<PdfObject> {
    match doc.get(at) {
        Some(PdfObject::Dictionary(d)) => match d.get(b"Annots") {
            Some(PdfObject::Array(a)) => a.iter().map(|o| o.copy()).collect(),
            _ => panic!("no annots array"),
        },
        _ => panic!("no page"),
    }
}

fn is_ref(o: &PdfObject, n: u32) -> bool {
    matches!(o, PdfObject::Reference(r) if *r == id(n))
}

#[test]
fn annots_array_is_created_then_extended() {
    let mut doc = doc_with_page(dict(vec![("Type", PdfObject::Name(key("Page")))]));
    add_annot_to_page(&mut doc, id(1), id(10)).unwrap();
    let a = annots_of(&doc, id(1));
    assert_eq!(a.len(), 1);
    assert!(is_ref(&a[0], 10));
    add_annot_to_page(&mut doc, id(1), id(11)).unwrap();
    let a = annots_of(&doc, id(1));
    assert_eq!(a.len(), 2);
    assert!(is_ref(&a[0], 10) && is_ref(&a[1], 11));
}

#[test]
fn single_annots_value_becomes_an_array() {
    let mut doc = doc_with_page(dict(vec![("Annots", PdfObject::Reference(id(7)))]));
    add_annot_to_page(&mut doc, id(1), id(12)).unwrap();
    let a = annots_of(&doc, id(1));
    assert_eq!(a.len(), 2);
    assert!(is_ref(&a[0], 7) && is_ref(&a[1], 12));
}

#[test]
fn page_reached_through_a_reference_is_changed_in_place() {
    let mut doc = doc_with_page(PdfDict::new());
    add_annot_to_page(&mut doc, id(2), id(9)).unwrap();
    assert!(is_ref(&annots_of(&doc, id(1))[0], 9));
    assert!(matches!(doc.get(id(2)), Some(PdfObject::Reference(_))));
}

#[test]
fn annotating_a_missing_or_wrong_page_fails() {
    let mut doc = doc_with_page(PdfDict::new());
    assert_eq!(add_annot_to_page(&mut doc, id(40), id(9)), Err(AnnotateError::GetPage(LookupError::ObjectNotFound(id(40)))));
    assert_eq!(add_annot_to_page(&mut doc, id(3), id(9)), Err(AnnotateError::PageNotDictionary(ObjectKind::Integer)));
}

#[test]
fn long_reference_chains_are_refused() {
    let mut doc = new_document("1.7");
    for n in 1..=130u32 {
        doc.set_object(id(n), PdfObject::Reference(id(n + 1)));
    }
    doc.set_object(id(131), PdfObject::Dictionary(PdfDict::new()));
    assert_eq!(add_annot_to_page(&mut doc, id(1), id(500)), Err(AnnotateError::GetPage(LookupError::ReferenceLimit)));
    // 128 references are still followed.
    assert!(add_annot_to_page(&mut doc, id(3), id(500)).is_ok());
}

#[test]
fn attach_adds_object_and_lists_it() {
    let mut doc = doc_with_page(PdfDict::new());
    let annot = highlight_annotation("1".into(), "2".into(), "3".into(), "4".into(), vec!["1".into(), "1".into(), "0".into()]);
    let new_id = attach_annotation(&mut doc, id(1), annot).unwrap();
    assert_eq!(new_id, id(4));
    assert_eq!(doc.max_id, 4);
    assert!(matches!(doc.get(id(4)), Some(PdfObject::Dictionary(_))));
    assert!(is_ref(&annots_of(&doc, id(1))[0], 4));
    assert!(save_document(&doc).is_ok());
}

#[test]
fn page_numbers_start_at_one() {
    let pages = vec![id(3), id(8)];
    assert_eq!(page_object_id(&pages, 1), Ok(id(3)));
    assert_eq!(page_object_id(&pages, 2), Ok(id(8)));
    assert_eq!(page_object_id(&pages, 0), Err(AnnotateError::PageNotFound(0)));
    assert_eq!(page_object_id(&pages, 3), Err(AnnotateError::PageNotFound(3)));
}

#[test]
fn page_size_from_media_box_or_letter() {
    let mb = PdfObject::Array(vec![
        PdfObject::Integer(10),
        PdfObject::Integer(20),
        PdfObject::Integer(595),
        PdfObject::Real("842.5".to_string()),
    ]);
    let doc = doc_with_page(dict(vec![("MediaBox", mb)]));
    let (x0, y0, x1, y1) = page_dimensions(&doc, id(1));
    assert!(matches!(x0, PdfObject::Integer(10)) && matches!(y0, PdfObject::Integer(20)));
    assert!(matches!(x1, PdfObject::Integer(595)));
    assert!(matches!(y1, PdfObject::Real(ref t) if t == "842.5"));
    let (_, _, x1, _) = page_dimensions(&doc, id(2));
    assert!(matches!(x1, PdfObject::Integer(595)));
    let doc = doc_with_page(PdfDict::new());
    let (x0, y0, x1, y1) = page_dimensions(&doc, id(1));
    assert!(matches!(x0, PdfObject::Integer(0)) && matches!(y0, PdfObject::Integer(0)));
    assert!(matches!(x1, PdfObject::Integer(612)) && matches!(y1, PdfObject::Integer(792)));
    let short = PdfObject::Array(vec![PdfObject::Integer(0), PdfObject::Integer(0), PdfObject::Integer(10)]);
    let doc = doc_with_page(dict(vec![("MediaBox", short)]));
    let (_, _, x1, _) = page_dimensions(&doc, id(1));
    assert!(matches!(x1, PdfObject::Integer(612)));
}

#[test]
fn media_box_is_inherited_from_the_parent() {
    let mb = PdfObject::Array(vec![PdfObject::Integer(0), PdfObject::Integer(0), PdfObject::Integer(300), PdfObject::Integer(400)]);
    let mut doc = new_document("1.7");
    doc.set_object(id(1), PdfObject::Dictionary(dict(vec![("Parent", PdfObject::Reference(id(2)))])));
    doc.set_object(id(2), PdfObject::Dictionary(dict(vec![("Parent", PdfObject::Reference(id(3)))])));
    doc.set_object(id(3), PdfObject::Dictionary(dict(vec![("MediaBox", mb)])));
    doc.max_id = 3;
    let (_, _, x1, y1) = page_dimensions(&doc, id(1));
    assert!(matches!(x1, PdfObject::Integer(300)) && matches!(y1, PdfObject::Integer(400)));
    // A parent chain that loops ends at the default box.
    let mut doc = new_document("1.7");
    doc.set_object(id(1), PdfObject::Dictionary(dict(vec![("Parent", PdfObject::Reference(id(1)))])));
    let (_, _, x1, _) = page_dimensions(&doc, id(1));
    assert!(matches!(x1, PdfObject::Integer(612)));
}

#[test]
fn indirect_annots_array_is_extended() {
    let mut doc = doc_with_page(dict(vec![("Annots", PdfObject::Reference(id(9)))]));
    doc.set_object(id(9), PdfObject::Array(vec![PdfObject::Reference(id(3))]));
    add_annot_to_page(&mut doc, id(1), id(12)).unwrap();
    assert!(matches!(doc.get(id(1)), Some(PdfObject::Dictionary(d)) if matches!(d.get(b"Annots"), Some(PdfObject::Reference(r)) if *r == id(9))));
    match doc.get(id(9)) {
        Some(PdfObject::Array(a)) => {
            assert_eq!(a.len(), 2);
            assert!(is_ref(&a[0], 3) && is_ref(&a[1], 12));
        },
        _ => panic!("no annots array"),
    }
}

#[test]
fn highlight_dictionary_layout() {
    let d = highlight_annotation("1".into(), "2".into(), "3".into(), "4".into(), vec!["1".into(), "0.5".into(), "0".into()]);
    let keys: Vec<&[u8]> = d.entries.iter().map(|(k, _)| k.as_slice()).collect();
    assert_eq!(keys, vec![&b"Type"[..], b"Subtype", b"Rect", b"QuadPoints", b"C", b"CA", b"F"]);
    assert!(matches!(d.get(b"Subtype"), Some(PdfObject::Name(n)) if n == b"Highlight"));
    match d.get(b"QuadPoints") {
        Some(PdfObject::Array(a)) => {
            let t: Vec<String> = a.iter().map(|o| match o { PdfObject::Real(t) => t.clone(), _ => panic!() }).collect();
            assert_eq!(t, vec!["1", "4", "3", "4", "1", "2", "3", "2"]);
        },
        _ => panic!(),
    }
    assert!(matches!(d.get(b"CA"), Some(PdfObject::Real(t)) if t == "0.35"));
    assert!(matches!(d.get(b"F"), Some(PdfObject::Integer(4))));
}

#[test]
fn ink_and_free_text_dictionaries() {
    let ink = ink_annotation(vec!["0".into(); 4], vec!["1".into(), "2".into()], vec!["1".into(); 3], "2".into());
    assert!(matches!(ink.get(b"Subtype"), Some(PdfObject::Name(n)) if n == b"Ink"));
    assert!(matches!(ink.get(b"InkList"), Some(PdfObject::Array(a)) if a.len() == 1));
    assert!(matches!(ink.get(b"BS"), Some(PdfObject::Dictionary(bs)) if matches!(bs.get(b"W"), Some(PdfObject::Real(w)) if w == "2")));
    let ft = free_text_annotation(vec!["0".into(); 4], b"hi".to_vec(), vec!["0".into(); 3]);
    assert!(matches!(ft.get(b"Contents"), Some(PdfObject::String(s, StringFormat::Literal)) if s == b"hi"));
    assert!(matches!(ft.get(b"DA"), Some(PdfObject::String(s, _)) if s == b"0 0 0 rg /Helvetica 11 Tf"));
}

#[test]
fn colours_are_read_in_base_16() {
    assert_eq!(parse_color(b"#ff0080"), (255, 0, 128));
    assert_eq!(parse_color(b"ffff00"), (255, 255, 0));
    assert_eq!(parse_color(b"##102030"), (16, 32, 48));
    assert_eq!(parse_color(b"#FfA0b1"), (255, 160, 177));
}

#[test]
fn bad_colour_parts_read_as_zero() {
    assert_eq!(parse_color(b"#fff"), (0, 0, 0));
    assert_eq!(parse_color(b""), (0, 0, 0));
    assert_eq!(parse_color(b"#zz00ff"), (0, 0, 255));
    assert_eq!(parse_color(b"#+f-1 8"), (15, 0, 0));
}

#[test]
fn colour_cuts_must_fall_between_characters() {
    assert!(color_cuts_fit(b"#ff0080"));
    assert!(color_cuts_fit("#\u{e9}ff00".as_bytes()));
    assert!(!color_cuts_fit("#f\u{e9}f00".as_bytes()));
    assert_eq!(parse_color("#\u{e9}ff00".as_bytes()), (0, 255, 0));
}

#[test]
fn ascii_keys() {
    assert_eq!(ascii_key("Annots"), b"Annots".to_vec());
}

fn sample_highlight() -> PdfDict {
    highlight_annotation("1".into(), "2".into(), "3".into(), "4".into(), vec!["0".into(); 3])
}

#[test]
fn annotations_are_written_in_order() {
    let mut doc = doc_with_page(PdfDict::new());
    let pages = vec![id(1), id(2)];
    let annots = vec![(1, sample_highlight()), (2, sample_highlight()), (1, sample_highlight())];
    assert_eq!(attach_annotations(&mut doc, &pages, annots), Ok(()));
    assert_eq!(doc.max_id, 6);
    let a = annots_of(&doc, id(1));
    assert_eq!(a.len(), 3);
    assert!(is_ref(&a[0], 4) && is_ref(&a[1], 5) && is_ref(&a[2], 6));
}

#[test]
fn a_missing_page_stops_the_writing() {
    let mut doc = doc_with_page(PdfDict::new());
    let pages = vec![id(1)];
    let annots = vec![(1, sample_highlight()), (7, sample_highlight()), (1, sample_highlight())];
    assert_eq!(attach_annotations(&mut doc, &pages, annots), Err(AnnotateError::PageNotFound(7)));
    assert_eq!(doc.max_id, 4);
    assert_eq!(annots_of(&doc, id(1)).len(), 1);
}

#[test]
fn a_page_that_is_no_dictionary_stops_the_writing() {
    let mut doc = doc_with_page(PdfDict::new());
    let pages = vec![id(3), id(1)];
    let annots = vec![(1, sample_highlight()), (2, sample_highlight())];
    assert_eq!(
        attach_annotations(&mut doc, &pages, annots),
        Err(AnnotateError::PageNotDictionary(ObjectKind::Integer))
    );
    // The annotation object was added before the page refused it.
    assert_eq!(doc.max_id, 4);
    assert!(doc.get(id(4)).is_some());
}

#[test]
fn annotation_dictionaries_have_no_media_box() {
    let ink = ink_annotation(vec!["0".into(); 4], vec![], vec!["0".into(); 3], "1".into());
    let ft = free_text_annotation(vec!["0".into(); 4], b"MediaBox".to_vec(), vec!["0".into(); 3]);
    for d in [sample_highlight(), ink, ft] {
        assert!(d.get(b"MediaBox").is_none());
        assert!(d.get(b"Parent").is_none());
    }
}

#[test]
fn annotating_keeps_page_sizes() {
    let mb = PdfObject::Array(vec![
        PdfObject::Integer(0),
        PdfObject::Integer(0),
        PdfObject::Integer(300),
        PdfObject::Integer(400),
    ]);
    let mut doc = doc_with_page(dict(vec![("MediaBox", mb)]));
    let pages = vec![id(1)];
    attach_annotations(&mut doc, &pages, vec![(1, sample_highlight())]).unwrap();
    let (_, _, w, h) = page_dimensions(&doc, id(1));
    assert!(matches!(w, PdfObject::Integer(300)) && matches!(h, PdfObject::Integer(400)));
}

#[test]
fn each_page_gains_its_annotations_in_order() {
    let mut doc = new_document("1.7");
    doc.set_object(id(1), PdfObject::Dictionary(dict(vec![("Annots", PdfObject::Array(vec![PdfObject::Reference(id(3))]))])));
    doc.set_object(id(2), PdfObject::Dictionary(PdfDict::new()));
    doc.set_object(id(3), PdfObject::Null);
    doc.max_id = 3;
    let pages = vec![id(1), id(2)];
    let annots = vec![(2, sample_highlight()), (1, sample_highlight()), (2, sample_highlight())];
    assert_eq!(attach_annotations(&mut doc, &pages, annots), Ok(()));
    let a1 = annots_of(&doc, id(1));
    assert!(a1.len() == 2 && is_ref(&a1[0], 3) && is_ref(&a1[1], 5));
    let a2 = annots_of(&doc, id(2));
    assert!(a2.len() == 2 && is_ref(&a2[0], 4) && is_ref(&a2[1], 6));
    assert!(matches!(doc.get(id(3)), Some(PdfObject::Null)));
}

#[test]
fn media_box_corner_that_is_no_number_counts_as_zero() {
    let mb = PdfObject::Array(vec![PdfObject::Null, PdfObject::Integer(5), PdfObject::Integer(300), PdfObject::Integer(400)]);
    let doc = doc_with_page(dict(vec![("MediaBox", mb)]));
    let (x0, y0, x1, _) = page_dimensions(&doc, id(1));
    assert!(matches!(x0, PdfObject::Integer(0)) && matches!(y0, PdfObject::Integer(5)) && matches!(x1, PdfObject::Integer(300)));
}
