use lopdf::{Dictionary, Document, Object, Stream, StringFormat as LoFormat};
use pdfops::compress::{compress_file, compress_pdf, estimate_compression, CompressError};
use pdfops::info::{pdf_info, pdf_summary};
use pdfops::lopdf_bridge::{load_document, page_ids, save_document};
use pdfops::merge::{MergeError, PdfMerger};
use pdfops::text::file_name;

fn name(s: &str) -> Object {
    Object::Name(s.as_bytes().to_vec())
}

/// A small PDF with `pages` pages, an optional title and an optional form.
fn sample_pdf(title: Option<&str>, pages: usize, with_form: bool) -> Vec<u8> {
    let mut doc = Document::with_version("1.5");
    let pages_id = doc.new_object_id();
    let mut kids = Vec::new();
    for i in 0..pages {
        let text = format!("BT /F1 12 Tf 72 712 Td (Page {i}) Tj ET\n").repeat(40);
        let cid = doc.add_object(Stream::new(Dictionary::new(), text.into_bytes()));
        let mut page = Dictionary::new();
        page.set("Type", name("Page"));
        page.set("Parent", Object::Reference(pages_id));
        page.set("Contents", Object::Reference(cid));
        page.set("MediaBox", Object::Array(vec![Object::Integer(0), Object::Integer(0), Object::Integer(595), Object::Real(842.5)]));
        kids.push(Object::Reference(doc.add_object(page)));
    }
    let mut pd = Dictionary::new();
    pd.set("Type", name("Pages"));
    pd.set("Count", Object::Integer(pages as i64));
    pd.set("Kids", Object::Array(kids));
    doc.objects.insert(pages_id, Object::Dictionary(pd));
    let mut catalog = Dictionary::new();
    catalog.set("Type", name("Catalog"));
    catalog.set("Pages", Object::Reference(pages_id));
    if with_form {
        catalog.set("AcroForm", Object::Dictionary(Dictionary::new()));
    }
    let cat_id = doc.add_object(catalog);
    doc.trailer.set("Root", Object::Reference(cat_id));
    if let Some(t) = title {
        let mut info = Dictionary::new();
        info.set("Title", Object::String(t.as_bytes().to_vec(), LoFormat::Literal));
        let info_id = doc.add_object(info);
        doc.trailer.set("Info", Object::Reference(info_id));
    }
    let mut out = Vec::new();
    doc.save_to(&mut out).unwrap();
    out
}

#[test]
fn info_reads_pages_title_and_forms() {
    let data = sample_pdf(Some("My Paper"), 3, true);
    let info = pdf_info("/tmp/a.pdf".to_string(), &data).unwrap();
    assert_eq!(info.path, "/tmp/a.pdf");
    assert_eq!(info.page_count, 3);
    assert_eq!(info.file_size, data.len() as u64);
    assert_eq!(info.title.as_deref(), Some("My Paper"));
    assert!(info.has_forms);
}

#[test]
fn info_without_title_or_forms() {
    let data = sample_pdf(None, 1, false);
    let info = pdf_info("x.pdf".to_string(), &data).unwrap();
    assert_eq!(info.page_count, 1);
    assert_eq!(info.title, None);
    assert!(!info.has_forms);
}

#[test]
fn info_rejects_garbage() {
    assert!(pdf_info("bad.pdf".to_string(), b"not a pdf").is_err());
    assert!(pdf_summary("bad.pdf", b"not a pdf").is_err());
}

#[test]
fn summary_gives_file_name_title_pages_size() {
    let data = sample_pdf(Some("Thesis"), 2, false);
    let s = pdf_summary("/p/t.pdf", &data).unwrap();
    assert_eq!(s, format!("{{\"file_name\": \"t.pdf\", \"title\": \"Thesis\", \"page_count\": 2, \"file_size_bytes\": {}}}", data.len()));
    let data = sample_pdf(None, 1, false);
    let s = pdf_summary("u.pdf", &data).unwrap();
    assert_eq!(s, format!("{{\"file_name\": \"u.pdf\", \"title\": null, \"page_count\": 1, \"file_size_bytes\": {}}}", data.len()));
}

#[test]
fn compress_shrinks_text_streams_and_keeps_pages() {
    let data = sample_pdf(None, 2, false);
    let out = compress_pdf(&data, 6).unwrap();
    assert!(out.len() < data.len());
    let doc = Document::load_mem(&out).unwrap();
    assert_eq!(doc.get_pages().len(), 2);
}

#[test]
fn estimate_reports_both_sizes() {
    let data = sample_pdf(None, 1, false);
    let (before, after) = estimate_compression(&data, 9).unwrap();
    assert_eq!(before, data.len());
    assert_eq!(after, compress_pdf(&data, 9).unwrap().len());
}

#[test]
fn compress_rejects_garbage() {
    assert!(matches!(compress_pdf(b"%PDF-garbage", 6), Err(CompressError::Load(_))));
    assert!(matches!(estimate_compression(b"", 6), Err(CompressError::Load(_))));
}

#[test]
fn compress_file_picks_output_path() {
    let data = sample_pdf(None, 1, false);
    let (res, bytes) = compress_file("/in.pdf", None, &data, None).unwrap();
    assert_eq!(res.output_path, "/in.pdf");
    assert_eq!(res.original_bytes, data.len() as u64);
    assert_eq!(res.compressed_bytes, bytes.len() as u64);
    let (res, _) = compress_file("/in.pdf", Some("/out.pdf".to_string()), &data, Some(3)).unwrap();
    assert_eq!(res.output_path, "/out.pdf");
}

#[test]
fn load_and_save_round_trip() {
    let data = sample_pdf(Some("T"), 2, false);
    let doc = load_document(&data).unwrap();
    assert_eq!(page_ids(&doc).len(), 2);
    let bytes = save_document(&doc).unwrap();
    let again = load_document(&bytes).unwrap();
    assert_eq!(page_ids(&again).len(), 2);
    assert_eq!(again.objects.len(), doc.objects.len());
}

fn merge(inputs: &[Vec<u8>]) -> Result<Document, MergeError> {
    let mut m = PdfMerger::start(inputs.len())?;
    for d in inputs {
        m.add_document(d)?;
    }
    let merged = m.finish()?;
    let bytes = save_document(&merged).unwrap();
    Ok(Document::load_mem(&bytes).unwrap())
}

#[test]
fn merge_keeps_every_page() {
    let a = sample_pdf(Some("A"), 2, false);
    let b = sample_pdf(None, 3, false);
    let doc = merge(&[a, b]).unwrap();
    assert_eq!(doc.get_pages().len(), 5);
    let root = doc.catalog().unwrap();
    let pages_id = root.get(b"Pages").unwrap().as_reference().unwrap();
    let pages = doc.get_dictionary(pages_id).unwrap();
    assert_eq!(pages.get(b"Count").unwrap().as_i64().unwrap(), 5);
    assert_eq!(pages.get(b"Kids").unwrap().as_array().unwrap().len(), 5);
    assert!(root.get(b"Outlines").is_err());
}

#[test]
fn merge_of_one_document() {
    let a = sample_pdf(None, 1, false);
    let doc = merge(&[a]).unwrap();
    assert_eq!(doc.get_pages().len(), 1);
    assert_eq!(doc.version, "1.5");
}

#[test]
fn merge_needs_inputs() {
    assert!(matches!(PdfMerger::start(0), Err(MergeError::NoInput)));
}

#[test]
fn merge_reports_unreadable_input() {
    let mut m = PdfMerger::start(1).unwrap();
    assert!(matches!(m.add_document(b"nope"), Err(MergeError::Load(_))));
}

#[test]
fn merge_without_catalog_or_pages_root() {
    // A document whose only object is not a catalog.
    let mut doc = Document::with_version("1.5");
    let id = doc.add_object(Object::Integer(7));
    doc.trailer.set("Root", Object::Reference(id));
    let mut out = Vec::new();
    doc.save_to(&mut out).unwrap();
    let mut m = PdfMerger::start(1).unwrap();
    m.add_document(&out).unwrap();
    assert!(matches!(m.finish(), Err(MergeError::NoCatalog)));

    // A catalog but no page tree root.
    let mut doc = Document::with_version("1.5");
    let mut cat = Dictionary::new();
    cat.set("Type", name("Catalog"));
    let id = doc.add_object(cat);
    doc.trailer.set("Root", Object::Reference(id));
    let mut out = Vec::new();
    doc.save_to(&mut out).unwrap();
    let mut m = PdfMerger::start(1).unwrap();
    m.add_document(&out).unwrap();
    assert!(matches!(m.finish(), Err(MergeError::NoPagesRoot)));
}

#[test]
fn merge_reply_names_output_and_pages() {
    let a = sample_pdf(Some("A"), 2, false);
    let b = sample_pdf(None, 3, false);
    let mut m = PdfMerger::start(2).unwrap();
    m.add_document(&a).unwrap();
    m.add_document(&b).unwrap();
    let merged = m.finish().unwrap();
    assert_eq!(pdfops::merge::merge_summary("/merged.pdf", &merged), "{\"output_path\": \"/merged.pdf\", \"page_count\": 5}");
}

#[test]
fn file_names_are_last_path_components() {
    assert_eq!(file_name("/home/u/paper.pdf"), "paper.pdf");
    assert_eq!(file_name("paper.pdf"), "paper.pdf");
    assert_eq!(file_name("/a/b/"), "b");
    assert_eq!(file_name("/"), "");
}

#[test]
fn merged_pages_keep_input_order() {
    let a = sample_pdf(None, 2, false);
    let b = sample_pdf(None, 3, false);
    let doc = merge(&[a, b]).unwrap();
    let firsts: Vec<String> = doc
        .get_pages()
        .into_values()
        .map(|id| {
            let c = doc.get_page_content(id);
            String::from_utf8_lossy(&c[..30]).to_string()
        })
        .collect();
    let expected: Vec<String> = [0, 1, 0, 1, 2].iter().map(|i| format!("BT /F1 12 Tf 72 712 Td (Page {i}")[..30].to_string()).collect();
    assert_eq!(firsts, expected);
}
