//! The calls into lopdf: reading and writing PDF files, finding the pages,
//! compressing streams and renumbering objects. Each works on a
//! [`PdfDocument`], which is handed to lopdf and read back.

use vstd::prelude::*;
use lopdf::xref::XrefType;
use lopdf::{Dictionary, Document, Object, Stream, StringFormat as LoStringFormat};
use crate::pdf_document::{DocValue, PdfDocument, XrefKind, numbers_within};
use crate::pdf_object::{ObjectId, PdfDict, PdfObject, PdfStream, StringFormat};

verus! {

#[verifier::external_type_specification]
#[verifier::external_body]
pub struct ExDocument(Document);

#[verifier::external_type_specification]
#[verifier::external_body]
pub struct ExObject(Object);

#[verifier::external_type_specification]
#[verifier::external_body]
pub struct ExDictionary(Dictionary);

#[verifier::external_type_specification]
#[verifier::external_body]
pub struct ExStream(Stream);

#[verifier::external_type_specification]
#[verifier::external_body]
pub struct ExLopdfError(lopdf::Error);

#[verifier::external_type_specification]
#[verifier::external_body]
pub struct ExIoError(std::io::Error);

/// The document that `Document::load_mem` reads from `bytes`, if it reads
/// one.
pub uninterp spec fn lopdf_load(bytes: Seq<u8>) -> Option<DocValue>;

/// The bytes that `Document::save_to` writes for `doc`, if it succeeds.
pub uninterp spec fn lopdf_save(doc: DocValue) -> Option<Seq<u8>>;

/// The page object ids that `Document::get_pages` finds in `doc`, page 1
/// first.
pub uninterp spec fn lopdf_pages(doc: DocValue) -> Seq<ObjectId>;

/// `doc` after `Document::compress`.
pub uninterp spec fn lopdf_compress(doc: DocValue) -> DocValue;

/// `doc` after `Document::renumber_objects_with(start)`.
pub uninterp spec fn lopdf_renumber(doc: DocValue, start: u32) -> DocValue;

/// Reads a PDF file (`Document::load_mem`). Claimed: the outcome is
/// [`lopdf_load`] of the bytes, the objects come ordered by id, as lopdf
/// keeps them in a `BTreeMap`, and `max_id` is at least every object
/// number, as the reader raises it to the highest one it loaded. Which
/// error comes back is not stated.
#[verifier::external_body]
pub fn load_document(bytes: &[u8]) -> (r: Result<PdfDocument, lopdf::Error>)
    ensures
        r is Ok <==> lopdf_load(bytes@) is Some,
        r matches Ok(d) ==> d.wf() && lopdf_load(bytes@) == Some(d@) && numbers_within(d@),
{
    Document::load_mem(bytes).map(doc_in)
}

/// Writes a document as PDF bytes (`Document::save_to` into a `Vec`).
/// Claimed: the outcome is [`lopdf_save`] of the document. Which error comes
/// back is not stated.
#[verifier::external_body]
pub fn save_document(doc: &PdfDocument) -> (r: Result<Vec<u8>, std::io::Error>)
    requires
        doc.wf(),
    ensures
        r is Ok <==> lopdf_save(doc@) is Some,
        r matches Ok(b) ==> lopdf_save(doc@) == Some(b@),
{
    let mut out: Vec<u8> = Vec::new();
    doc_out(doc).save_to(&mut out).map(|_| out)
}

/// The page object ids of a document in page order (`Document::get_pages`,
/// whose keys are the page numbers 1, 2, ...). Claimed: they are
/// [`lopdf_pages`] of the document.
#[verifier::external_body]
pub fn page_ids(doc: &PdfDocument) -> (r: Vec<ObjectId>)
    requires
        doc.wf(),
    ensures
        r@ == lopdf_pages(doc@),
{
    doc_out(doc).get_pages().into_values().map(|(n, g)| ObjectId { number: n, generation: g }).collect()
}

/// Compresses the streams that allow it (`Document::compress`). Claimed:
/// the result is [`lopdf_compress`] of the document, with the same object
/// ids and `max_id`, as the source shows. Nothing is said of the trailer:
/// the document goes through lopdf and back, which rewrites real numbers
/// in their shortest form and merges repeated keys.
#[verifier::external_body]
pub fn compress_document(doc: &mut PdfDocument)
    requires
        old(doc).wf(),
    ensures
        final(doc).wf(),
        final(doc)@ == lopdf_compress(old(doc)@),
        final(doc)@.objects.dom() == old(doc)@.objects.dom(),
        final(doc)@.max_id == old(doc)@.max_id,
{
    let mut d = doc_out(doc);
    d.compress();
    *doc = doc_in(d);
}

/// Renumbers the objects from `start` on (`Document::renumber_objects_with`).
/// Claimed: the result is [`lopdf_renumber`] of the document, whose
/// `max_id` lopdf does not read (so it is given as 0); the new `max_id` is
/// the last number handed out, so `max_id + 1` lies between `start` and
/// `start` plus the number of objects. `start` is at least 1 and the
/// numbers fit in a `u32`, or lopdf's arithmetic would overflow.
#[verifier::external_body]
pub fn renumber_document(doc: &mut PdfDocument, start: u32)
    requires
        old(doc).wf(),
        1 <= start,
        start + old(doc).objects@.len() <= u32::MAX,
    ensures
        final(doc).wf(),
        final(doc)@ == lopdf_renumber(DocValue { max_id: 0, ..old(doc)@ }, start),
        start <= final(doc).max_id + 1 <= start + old(doc).objects@.len(),
{
    let mut d = doc_out(doc);
    d.renumber_objects_with(start);
    *doc = doc_in(d);
}

/// A new, empty document of the given PDF version
/// (`Document::with_version`). Claimed, from the source: no objects, an
/// empty trailer, `max_id` 0, the binary mark `BB AD C0 DE` and
/// cross-reference streams.
#[verifier::external_body]
pub fn new_document(version: &str) -> (r: PdfDocument)
    ensures
        r.wf(),
        r@.version == version@,
        r.objects@.len() == 0,
        r@.trailer.len() == 0,
        r.max_id == 0,
        r.binary_mark@ == seq![0xBBu8, 0xAD, 0xC0, 0xDE],
        r.xref == XrefKind::Stream,
{
    doc_in(Document::with_version(version))
}

/// Reads an lopdf document into a [`PdfDocument`] (part of the calls above;
/// it moves each field over and claims nothing).
#[verifier::external_body]
fn doc_in(d: Document) -> PdfDocument {
    PdfDocument {
        version: d.version,
        binary_mark: d.binary_mark,
        trailer: dict_in(d.trailer),
        objects: d.objects.into_iter().map(|((n, g), o)| (ObjectId { number: n, generation: g }, object_in(o))).collect(),
        max_id: d.max_id,
        xref: match d.reference_table.cross_reference_type {
            XrefType::CrossReferenceTable => XrefKind::Table,
            XrefType::CrossReferenceStream => XrefKind::Stream,
        },
    }
}

/// Builds the lopdf document for a [`PdfDocument`] (part of the calls
/// above; it copies each field over and claims nothing).
#[verifier::external_body]
fn doc_out(p: &PdfDocument) -> Document {
    let mut d = Document::new();
    d.version = p.version.clone();
    d.binary_mark = p.binary_mark.clone();
    d.trailer = dict_out(&p.trailer);
    d.objects = p.objects.iter().map(|(id, o)| ((id.number, id.generation), object_out(o))).collect();
    d.max_id = p.max_id;
    d.reference_table.cross_reference_type = match p.xref {
        XrefKind::Table => XrefType::CrossReferenceTable,
        XrefKind::Stream => XrefType::CrossReferenceStream,
    };
    d
}

/// Reads an lopdf object into a [`PdfObject`] (part of the calls above; it
/// claims nothing).
#[verifier::external_body]
fn object_in(o: Object) -> PdfObject {
    match o {
        Object::Array(a) => PdfObject::Array(a.into_iter().map(object_in).collect()),
        Object::Dictionary(d) => PdfObject::Dictionary(dict_in(d)),
        Object::Stream(s) => PdfObject::Stream(stream_in(s)),
        other => scalar_in(other),
    }
}

/// Reads an lopdf object that holds no other objects; a real number
/// becomes the text that its `Display` gives and lopdf writes (part of the
/// calls above; it claims nothing).
#[verifier::external_body]
fn scalar_in(o: Object) -> PdfObject {
    match o {
        Object::Boolean(b) => PdfObject::Boolean(b),
        Object::Integer(i) => PdfObject::Integer(i),
        Object::Real(r) => PdfObject::Real(r.to_string()),
        Object::Name(n) => PdfObject::Name(n),
        Object::String(s, LoStringFormat::Literal) => PdfObject::String(s, StringFormat::Literal),
        Object::String(s, LoStringFormat::Hexadecimal) => PdfObject::String(s, StringFormat::Hexadecimal),
        Object::Reference((n, g)) => PdfObject::Reference(ObjectId { number: n, generation: g }),
        _ => PdfObject::Null,
    }
}

/// Builds the lopdf object for a [`PdfObject`] (part of the calls above;
/// it claims nothing).
#[verifier::external_body]
fn object_out(o: &PdfObject) -> Object {
    match o {
        PdfObject::Array(a) => Object::Array(a.iter().map(object_out).collect()),
        PdfObject::Dictionary(d) => Object::Dictionary(dict_out(d)),
        PdfObject::Stream(s) => Object::Stream(stream_out(s)),
        other => scalar_out(other),
    }
}

/// Builds the lopdf object for a [`PdfObject`] that holds no other objects;
/// a real number is read back from its text, which gives the same value
/// (part of the calls above; it claims nothing).
#[verifier::external_body]
fn scalar_out(o: &PdfObject) -> Object {
    match o {
        PdfObject::Boolean(b) => Object::Boolean(*b),
        PdfObject::Integer(i) => Object::Integer(*i),
        PdfObject::Real(r) => Object::Real(r.parse().unwrap_or_default()),
        PdfObject::Name(n) => Object::Name(n.clone()),
        PdfObject::String(s, StringFormat::Literal) => Object::String(s.clone(), LoStringFormat::Literal),
        PdfObject::String(s, StringFormat::Hexadecimal) => Object::String(s.clone(), LoStringFormat::Hexadecimal),
        PdfObject::Reference(id) => Object::Reference((id.number, id.generation)),
        _ => Object::Null,
    }
}

/// Reads an lopdf dictionary, keeping the order of its entries (part of
/// the calls above; it claims nothing).
#[verifier::external_body]
fn dict_in(d: Dictionary) -> PdfDict {
    PdfDict { entries: d.into_iter().map(|(k, v)| (k, object_in(v))).collect() }
}

/// Builds the lopdf dictionary for a [`PdfDict`], entry by entry in order
/// (part of the calls above; it claims nothing).
#[verifier::external_body]
fn dict_out(p: &PdfDict) -> Dictionary {
    p.entries.iter().map(|(k, v)| (k.clone(), object_out(v))).collect()
}

/// Reads an lopdf stream (part of the calls above; it claims nothing).
#[verifier::external_body]
fn stream_in(s: Stream) -> PdfStream {
    PdfStream {
        dict: dict_in(s.dict),
        content: s.content,
        allows_compression: s.allows_compression,
        start_position: s.start_position,
    }
}

/// Builds the lopdf stream for a [`PdfStream`] (part of the calls above;
/// it claims nothing).
#[verifier::external_body]
fn stream_out(s: &PdfStream) -> Stream {
    Stream {
        dict: dict_out(&s.dict),
        content: s.content.clone(),
        allows_compression: s.allows_compression,
        start_position: s.start_position,
    }
}

} // verus!
