//! Reading the basic facts of a PDF file: page count, size, title and
//! whether it has interactive forms.

use vstd::prelude::*;
use crate::lopdf_bridge::{load_document, lopdf_load, lopdf_pages, page_ids};
use crate::pdf_document::{DerefOutcome, DocValue, PdfDocument, deref_spec, get_object_spec, lookup_outcome};
use crate::pdf_object::{ObjectId, PdfObject, PdfValue, ascii_bytes, ascii_key, dict_get};
use crate::text::{decimal_spec, file_name, file_name_spec, json_string_spec, push_decimal, push_json_string, string_from_utf8_lossy, utf8_lossy};

verus! {

/// The basic facts of a PDF file.
pub struct PdfInfo {
    pub path: String,
    pub page_count: u32,
    pub file_size: u64,
    pub title: Option<String>,
    pub has_forms: bool,
}

/// The bytes of the document's title: the `/Title` string of the
/// dictionary that the trailer's `/Info` entry stands for, references
/// followed.
pub open spec fn title_bytes_spec(doc: DocValue) -> Option<Seq<u8>> {
    match dict_get(doc.trailer, ascii_bytes("Info"@)) {
        Some(info) => match deref_spec(doc.objects, info, None, 0) {
            DerefOutcome::Found(_, PdfValue::Dictionary(d)) => match dict_get(d, ascii_bytes("Title"@)) {
                Some(PdfValue::String(s, _)) => Some(s),
                _ => None,
            },
            _ => None,
        },
        None => None,
    }
}

/// The document's title as text, invalid UTF-8 replaced.
pub open spec fn title_spec(doc: DocValue) -> Option<Seq<char>> {
    match title_bytes_spec(doc) {
        Some(b) => Some(utf8_lossy(b)),
        None => None,
    }
}

/// The document has interactive forms: its catalog (the dictionary that
/// the trailer's `/Root` reference names) has an `/AcroForm` entry.
pub open spec fn has_forms_spec(doc: DocValue) -> bool {
    match dict_get(doc.trailer, ascii_bytes("Root"@)) {
        Some(PdfValue::Reference(id)) => match get_object_spec(doc.objects, id) {
            DerefOutcome::Found(_, PdfValue::Dictionary(c)) => dict_get(c, ascii_bytes("AcroForm"@)) is Some,
            _ => false,
        },
        _ => false,
    }
}

/// The document's title, if its information dictionary has one.
pub fn document_title(doc: &PdfDocument) -> (r: Option<String>)
    requires
        doc.wf(),
    ensures
        r matches Some(t) ==> title_spec(doc@) == Some(t@),
        r is None ==> title_spec(doc@) is None,
{
    let info_key = ascii_key("Info");
    let info = match doc.trailer.get(info_key.as_slice()) {
        Some(o) => o,
        None => return None,
    };
    let got = doc.dereference(info);
    assert(lookup_outcome(got) == deref_spec(doc@.objects, info@, None, 0));
    let dict = match got {
        Ok((_, o)) => match o.as_dict() {
            Some(d) => d,
            None => return None,
        },
        Err(_) => return None,
    };
    let title_key = ascii_key("Title");
    match dict.get(title_key.as_slice()) {
        Some(t) => match t.as_str() {
            Some(s) => Some(string_from_utf8_lossy(s)),
            None => None,
        },
        None => None,
    }
}

/// Whether the document has interactive forms.
pub fn has_forms(doc: &PdfDocument) -> (r: bool)
    requires
        doc.wf(),
    ensures
        r == has_forms_spec(doc@),
{
    let root_key = ascii_key("Root");
    let id = match doc.trailer.get(root_key.as_slice()) {
        Some(o) => match o.as_reference() {
            Some(id) => id,
            None => return false,
        },
        None => return false,
    };
    let got = doc.get_object(id);
    assert(lookup_outcome(got) == get_object_spec(doc@.objects, id));
    match got {
        Ok((_, o)) => match o.as_dict() {
            Some(c) => {
                let key = ascii_key("AcroForm");
                c.get(key.as_slice()).is_some()
            },
            None => false,
        },
        Err(_) => false,
    }
}

/// The page count, size, title and forms flag of the PDF file `data` read
/// from `path`.
pub fn pdf_info(path: String, data: &[u8]) -> (r: Result<PdfInfo, lopdf::Error>)
    ensures
        r is Ok <==> lopdf_load(data@) is Some,
        r matches Ok(info) ==> {
            let d = lopdf_load(data@)->0;
            &&& info.path@ == path@
            &&& info.page_count == lopdf_pages(d).len() as u32
            &&& info.file_size == data@.len()
            &&& info.title matches Some(t) ==> title_spec(d) == Some(t@)
            &&& info.title is None ==> title_spec(d) is None
            &&& info.has_forms == has_forms_spec(d)
        },
{
    let doc = match load_document(data) {
        Ok(d) => d,
        Err(e) => return Err(e),
    };
    let pages = page_ids(&doc);
    let title = document_title(&doc);
    let forms = has_forms(&doc);
    Ok(PdfInfo {
        path,
        page_count: pages.len() as u32,
        file_size: data.len() as u64,
        title,
        has_forms: forms,
    })
}

/// The summary of a PDF file as a JSON object: the file's name (the last
/// component of its path), its title (`null` if it has none), its page
/// count and its size in bytes.
pub open spec fn summary_spec(path: Seq<char>, title: Option<Seq<char>>, pages: nat, size: nat) -> Seq<char> {
    "{\"file_name\": "@ + json_string_spec(file_name_spec(path)) + ", \"title\": "@ + (match title {
        Some(t) => json_string_spec(t),
        None => "null"@,
    }) + ", \"page_count\": "@ + decimal_spec(pages) + ", \"file_size_bytes\": "@ + decimal_spec(size) + "}"@
}

/// A summary of the PDF file `data` read from `path` (see
/// [`summary_spec`]).
pub fn pdf_summary(path: &str, data: &[u8]) -> (r: Result<String, lopdf::Error>)
    ensures
        r is Ok <==> lopdf_load(data@) is Some,
        r matches Ok(s) ==> {
            let d = lopdf_load(data@)->0;
            s@ == summary_spec(path@, title_spec(d), lopdf_pages(d).len(), data@.len())
        },
{
    let doc = match load_document(data) {
        Ok(d) => d,
        Err(e) => return Err(e),
    };
    let page_count = page_ids(&doc).len();
    let title = document_title(&doc);
    let name = file_name(path);
    let mut s = String::from_str("{\"file_name\": ");
    push_json_string(&mut s, name.as_str());
    s.append(", \"title\": ");
    match &title {
        Some(t) => push_json_string(&mut s, t.as_str()),
        None => s.append("null"),
    }
    s.append(", \"page_count\": ");
    push_decimal(&mut s, page_count as u64);
    s.append(", \"file_size_bytes\": ");
    push_decimal(&mut s, data.len() as u64);
    s.append("}");
    let ghost d = lopdf_load(data@)->0;
    assert(s@ =~= summary_spec(path@, title_spec(d), lopdf_pages(d).len(), data@.len()));
    Ok(s)
}

} // verus!

verus! {

/// A document has interactive forms exactly when its catalog has an
/// `/AcroForm` entry, whatever that entry holds: a form dictionary given
/// directly or a reference to one.
pub proof fn lemma_forms_by_entry(doc: DocValue, id: ObjectId, last: Option<ObjectId>, c: Seq<(Seq<u8>, PdfValue)>)
    requires
        dict_get(doc.trailer, ascii_bytes("Root"@)) == Some(PdfValue::Reference(id)),
        get_object_spec(doc.objects, id) == DerefOutcome::Found(last, PdfValue::Dictionary(c)),
    ensures
        has_forms_spec(doc) <==> dict_get(c, ascii_bytes("AcroForm"@)) is Some,
        dict_get(c, ascii_bytes("AcroForm"@)) matches Some(PdfValue::Reference(_)) ==> has_forms_spec(doc),
{
}

/// A document without a catalog reference has no forms.
pub proof fn lemma_no_catalog_no_forms(doc: DocValue)
    requires
        !(dict_get(doc.trailer, ascii_bytes("Root"@)) matches Some(PdfValue::Reference(_))),
    ensures
        !has_forms_spec(doc),
{
}

} // verus!
