use pdfops::lopdf_bridge::new_document;
use pdfops::pdf_document::LookupError;
use pdfops::pdf_object::{ObjectId, PdfDict, PdfObject};
use pdfops::text::base64_encode;

fn id(n: u32) -> ObjectId {
    ObjectId { number: n, generation: 0 }
}

fn int_of(o: Option<&PdfObject>) -> Option<i64> {
    match o {
        Some(PdfObject::Integer(i)) => Some(*i),
        _ => None,
    }
}

#[test]
fn dict_get_after_set() {
    let mut d = PdfDict::new();
    d.set(b"A".to_vec(), PdfObject::Integer(1));
    d.set(b"B".to_vec(), PdfObject::Integer(2));
    d.set(b"A".to_vec(), PdfObject::Integer(3));
    assert_eq!(int_of(d.get(b"A")), Some(3));
    assert_eq!(int_of(d.get(b"B")), Some(2));
    assert_eq!(d.entries.len(), 2);
    assert_eq!(d.entries[0].0, b"A".to_vec());
}

#[test]
fn dict_remove_leaves_the_others() {
    let mut d = PdfDict::new();
    d.set(b"A".to_vec(), PdfObject::Integer(1));
    d.set(b"B".to_vec(), PdfObject::Integer(2));
    assert_eq!(int_of(d.remove(b"A").as_ref()), Some(1));
    assert!(d.get(b"A").is_none());
    assert_eq!(int_of(d.get(b"B")), Some(2));
    assert!(d.remove(b"A").is_none());
}

#[test]
fn dict_type_is_the_type_name() {
    let mut d = PdfDict::new();
    assert!(d.get_type().is_none());
    d.set(b"Type".to_vec(), PdfObject::Name(b"Page".to_vec()));
    assert_eq!(d.get_type(), Some(b"Page".to_vec()));
    assert_eq!(PdfObject::Dictionary(d).object_type(), Some(b"Page".to_vec()));
}

#[test]
fn dereference_follows_references() {
    let mut doc = new_document("1.7");
    doc.set_object(id(1), PdfObject::Integer(42));
    doc.set_object(id(2), PdfObject::Reference(id(1)));
    let r = PdfObject::Reference(id(2));
    match doc.dereference(&r) {
        Ok((last, o)) => {
            assert_eq!(last, Some(id(1)));
            assert_eq!(int_of(Some(o)), Some(42));
        }
        Err(_) => panic!("reference not followed"),
    }
    let plain = PdfObject::Integer(5);
    match doc.dereference(&plain) {
        Ok((last, o)) => {
            assert_eq!(last, None);
            assert_eq!(int_of(Some(o)), Some(5));
        }
        Err(_) => panic!("plain object refused"),
    }
    assert!(matches!(doc.get_object(id(9)), Err(LookupError::ObjectNotFound(i)) if i == id(9)));
}

#[test]
fn objects_stay_ordered_by_id() {
    let mut doc = new_document("1.5");
    doc.set_object(id(5), PdfObject::Null);
    doc.set_object(id(2), PdfObject::Null);
    doc.set_object(ObjectId { number: 2, generation: 1 }, PdfObject::Null);
    doc.set_object(id(2), PdfObject::Integer(7));
    let ids: Vec<(u32, u16)> = doc.objects.iter().map(|(i, _)| (i.number, i.generation)).collect();
    assert_eq!(ids, vec![(2, 0), (2, 1), (5, 0)]);
    assert_eq!(int_of(doc.get(id(2))), Some(7));
}

#[test]
fn add_object_takes_the_next_number() {
    let mut doc = new_document("1.5");
    doc.max_id = 6;
    let n = doc.add_object(PdfObject::Boolean(true));
    assert_eq!(n, id(7));
    assert_eq!(doc.max_id, 7);
    assert!(matches!(doc.get(id(7)), Some(PdfObject::Boolean(true))));
}

#[test]
fn base64_of_known_texts() {
    assert_eq!(base64_encode(b""), "");
    assert_eq!(base64_encode(b"f"), "Zg==");
    assert_eq!(base64_encode(b"fo"), "Zm8=");
    assert_eq!(base64_encode(b"foo"), "Zm9v");
    assert_eq!(base64_encode(b"foobar"), "Zm9vYmFy");
    assert_eq!(base64_encode(&[0xff, 0xfe, 0x00, 0x3e, 0x3f]), "//4APj8=");
}
