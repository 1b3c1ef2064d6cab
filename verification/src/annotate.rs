//! Writing annotations into a PDF document: finding the page, reading its
//! size, adding the annotation object and listing it in the page's
//! `/Annots` array; and reading the colour of an annotation.

use vstd::prelude::*;
use crate::pdf_document::{DerefOutcome, DocValue, LookupError, PdfDocument, deref_spec, get_object_spec, lookup_outcome};
use crate::pdf_object::{
    ObjectId, ObjectKind, PdfDict, PdfObject, PdfValue, StringFormat, ascii_bytes, ascii_key, dict_get, dict_set, entries_view, kind_of,
    lemma_entries_view, lemma_objs_view, obj_view, objs_view,
};

verus! {

/// Why an annotation could not be written.
#[derive(Clone, Copy, PartialEq, Eq, Structural, Debug)]
pub enum AnnotateError {
    /// The document has no page with this number.
    PageNotFound(u32),
    /// The page object could not be looked up.
    GetPage(LookupError),
    /// The page object is not a dictionary but this.
    PageNotDictionary(ObjectKind),
}

/// The key of a page's annotation list.
pub open spec fn annots_key() -> Seq<u8> {
    ascii_bytes("Annots"@)
}

/// The `/Annots` entry after `annot` is added to it: appended to an
/// array, put after any other value in a new array, or alone in a new array.
pub open spec fn annots_with(existing: Option<PdfValue>, annot: ObjectId) -> PdfValue {
    match existing {
        Some(PdfValue::Array(a)) => PdfValue::Array(a.push(PdfValue::Reference(annot))),
        Some(other) => PdfValue::Array(seq![other, PdfValue::Reference(annot)]),
        None => PdfValue::Array(seq![PdfValue::Reference(annot)]),
    }
}

/// A page dictionary with `annot` added to its annotations.
pub open spec fn page_with_annot(d: Seq<(Seq<u8>, PdfValue)>, annot: ObjectId) -> Seq<(Seq<u8>, PdfValue)> {
    dict_set(d, annots_key(), annots_with(dict_get(d, annots_key()), annot))
}

/// The array that the `/Annots` entry of page dictionary `d` refers to, and
/// the id it is stored under, when the entry is a reference that leads to
/// an array.
pub open spec fn indirect_annots(m: Map<ObjectId, PdfValue>, d: Seq<(Seq<u8>, PdfValue)>) -> Option<(ObjectId, Seq<PdfValue>)> {
    match dict_get(d, annots_key()) {
        Some(PdfValue::Reference(r)) => match deref_spec(m, PdfValue::Reference(r), None, 0) {
            DerefOutcome::Found(Some(t), PdfValue::Array(a)) => Some((t, a)),
            _ => None,
        },
        _ => None,
    }
}

/// What adding annotation `annot` to page `page` does to `doc`: the page
/// object, references followed, must be a dictionary. When its `/Annots`
/// entry refers to an array, `annot` is appended to that array where it is
/// stored; otherwise the page's own `/Annots` entry gets it (see
/// [`annots_with`]), in the place where the page is stored.
pub open spec fn add_annot_spec(doc: DocValue, page: ObjectId, annot: ObjectId) -> Result<DocValue, AnnotateError> {
    match get_object_spec(doc.objects, page) {
        DerefOutcome::NotFound(id) => Err(AnnotateError::GetPage(LookupError::ObjectNotFound(id))),
        DerefOutcome::TooDeep => Err(AnnotateError::GetPage(LookupError::ReferenceLimit)),
        DerefOutcome::Found(last, v) => match v {
            PdfValue::Dictionary(d) => {
                let target = match last {
                    Some(t) => t,
                    None => page,
                };
                Ok(DocValue {
                    objects: match indirect_annots(doc.objects, d) {
                        Some((t, a)) => doc.objects.insert(t, PdfValue::Array(a.push(PdfValue::Reference(annot)))),
                        None => doc.objects.insert(target, PdfValue::Dictionary(page_with_annot(d, annot))),
                    },
                    ..doc
                })
            },
            _ => Err(AnnotateError::PageNotDictionary(kind_of(v))),
        },
    }
}

/// Lists `annot_id` in the annotation array of the page `page_id`: the
/// array its `/Annots` entry refers to, else its own `/Annots` entry,
/// which is made an array if it is none.
pub fn add_annot_to_page(doc: &mut PdfDocument, page_id: ObjectId, annot_id: ObjectId) -> (r: Result<(), AnnotateError>)
    requires
        old(doc).wf(),
    ensures
        final(doc).wf(),
        match add_annot_spec(old(doc)@, page_id, annot_id) {
            Ok(d) => r is Ok && final(doc)@ == d,
            Err(e) => r == Err::<(), AnnotateError>(e) && final(doc)@ == old(doc)@,
        },
{
    let (target, mut dict) = match doc.get_object(page_id) {
        Err(e) => return Err(AnnotateError::GetPage(e)),
        Ok((last, obj)) => {
            let target = match last {
                Some(t) => t,
                None => page_id,
            };
            match obj.as_dict() {
                Some(d) => (target, d.copy()),
                None => return Err(AnnotateError::PageNotDictionary(obj.kind())),
            }
        },
    };
    let ghost d0 = dict@;
    let key = ascii_key("Annots");
    let annot_ref = PdfObject::Reference(annot_id);
    // An /Annots reference that leads to an array: extend that array.
    let indirect: Option<(ObjectId, Vec<PdfObject>)> = match dict.get(key.as_slice()) {
        Some(PdfObject::Reference(r)) => {
            let rr = PdfObject::Reference(*r);
            let got = doc.dereference(&rr);
            assert(lookup_outcome(got) == deref_spec(doc@.objects, PdfValue::Reference(*r), None, 0));
            match got {
                Ok((Some(t), o)) => match o.copy() {
                    PdfObject::Array(a) => Some((t, a)),
                    _ => None,
                },
                _ => None,
            }
        },
        _ => None,
    };
    match indirect {
        Some((t, mut a)) => {
            let ghost a0 = a@;
            assert(indirect_annots(doc@.objects, d0) == Some((t, objs_view(a0))));
            a.push(annot_ref);
            proof {
                assert(a@.drop_last() =~= a0);
                assert(objs_view(a@) == objs_view(a@.drop_last()).push(obj_view(a@.last())));
            }
            doc.set_object(t, PdfObject::Array(a));
            return Ok(());
        },
        None => {},
    }
    assert(indirect_annots(doc@.objects, d0) is None);
    let new_annots = match dict.get(key.as_slice()) {
        Some(existing) => {
            let c = existing.copy();
            match c {
                PdfObject::Array(mut a) => {
                    let ghost a0 = a@;
                    a.push(annot_ref);
                    proof {
                        assert(a@.drop_last() =~= a0);
                        assert(a@.len() > 0);
                        assert(objs_view(a@) == objs_view(a@.drop_last()).push(obj_view(a@.last())));
                        assert(existing@ == PdfValue::Array(objs_view(a0)));
                        assert(obj_view(PdfObject::Array(a)) == PdfValue::Array(objs_view(a0).push(PdfValue::Reference(annot_id))));
                    }
                    PdfObject::Array(a)
                },
                other => {
                    let v = vec![other, annot_ref];
                    proof {
                        lemma_objs_view(v@);
                        assert(objs_view(v@) =~= seq![obj_view(v@[0]), obj_view(v@[1])]);
                    }
                    PdfObject::Array(v)
                },
            }
        },
        None => {
            let v = vec![annot_ref];
            proof {
                lemma_objs_view(v@);
                assert(objs_view(v@) =~= seq![obj_view(v@[0])]);
            }
            PdfObject::Array(v)
        },
    };
    assert(new_annots@ == annots_with(dict_get(d0, annots_key()), annot_id));
    dict.set(key, new_annots);
    doc.set_object(target, PdfObject::Dictionary(dict));
    Ok(())
}

} // verus!

verus! {

/// The object id of page number `page` (1 for the first page) in the page
/// list `pages`.
pub open spec fn page_lookup(pages: Seq<ObjectId>, page: u32) -> Option<ObjectId> {
    if 1 <= page && page <= pages.len() { Some(pages[page - 1]) } else { None }
}

/// The object id of page number `page`; the pages are listed in order, the
/// first being page 1.
pub fn page_object_id(pages: &Vec<ObjectId>, page: u32) -> (r: Result<ObjectId, AnnotateError>)
    ensures
        r == (match page_lookup(pages@, page) {
            Some(id) => Ok(id),
            None => Err(AnnotateError::PageNotFound(page)),
        }),
{
    if page >= 1 && (page as usize) <= pages.len() {
        Ok(pages[(page - 1) as usize])
    } else {
        Err(AnnotateError::PageNotFound(page))
    }
}

/// An integer or real object, as a number.
pub open spec fn is_number(v: PdfValue) -> bool {
    v is Integer || v is Real
}

/// The key of a page's media box.
pub open spec fn media_box_key() -> Seq<u8> {
    ascii_bytes("MediaBox"@)
}

/// The key of a page tree node's parent.
pub open spec fn parent_key() -> Seq<u8> {
    ascii_bytes("Parent"@)
}

/// What the media box lookup reads of an object: for a dictionary, its
/// `/MediaBox` and `/Parent` entries; nothing for any other object.
pub open spec fn box_info(v: PdfValue) -> Option<(Option<PdfValue>, Option<PdfValue>)> {
    match v {
        PdfValue::Dictionary(d) => Some((dict_get(d, media_box_key()), dict_get(d, parent_key()))),
        _ => None,
    }
}

/// What the media box lookup reads of a lookup's outcome.
pub open spec fn outcome_info(o: DerefOutcome) -> Option<(Option<PdfValue>, Option<PdfValue>)> {
    match o {
        DerefOutcome::Found(_, v) => box_info(v),
        _ => None,
    }
}

/// A lower-left corner entry of a media box: the number itself, or 0 when
/// it is no number.
pub open spec fn corner_value(v: PdfValue) -> PdfValue {
    if is_number(v) { v } else { PdfValue::Integer(0) }
}

/// The four numbers of a `/MediaBox` value: an array of at least four
/// entries whose third and fourth (the upper-right corner) are numbers;
/// the first two count as 0 when they are no numbers.
pub open spec fn box_entries(v: PdfValue) -> Option<(PdfValue, PdfValue, PdfValue, PdfValue)> {
    match v {
        PdfValue::Array(a) => if a.len() >= 4 && is_number(a[2]) && is_number(a[3]) {
            Some((corner_value(a[0]), corner_value(a[1]), a[2], a[3]))
        } else {
            None
        },
        _ => None,
    }
}

/// How many `/Parent` links the media box lookup follows at most.
pub open spec fn parent_limit() -> nat {
    128
}

/// The media box of the page tree node read as `info`, `level` parents up
/// from the page: its own `/MediaBox` if it has one, else the one it
/// inherits from its `/Parent`, references followed.
pub open spec fn inherited_box(m: Map<ObjectId, PdfValue>, info: Option<(Option<PdfValue>, Option<PdfValue>)>, level: nat) -> Option<(PdfValue, PdfValue, PdfValue, PdfValue)>
    decreases parent_limit() - level,
{
    match info {
        Some((Some(mb), _)) => box_entries(mb),
        Some((None, Some(p))) => if level < parent_limit() {
            inherited_box(m, outcome_info(deref_spec(m, p, None, 0)), level + 1)
        } else {
            None
        },
        _ => None,
    }
}

/// The media box of page `page` as four numbers (lower-left x and y,
/// upper-right x and y): its own `/MediaBox`, or the one it inherits
/// through `/Parent` links; nothing if that is missing or not an array of
/// numbers.
pub open spec fn media_box_spec(doc: DocValue, page: ObjectId) -> Option<(PdfValue, PdfValue, PdfValue, PdfValue)> {
    inherited_box(doc.objects, outcome_info(get_object_spec(doc.objects, page)), 0)
}

/// The media box used when a page has none: US Letter, 612 by 792 points
/// from the origin.
pub open spec fn default_media_box() -> (PdfValue, PdfValue, PdfValue, PdfValue) {
    (PdfValue::Integer(0), PdfValue::Integer(0), PdfValue::Integer(612), PdfValue::Integer(792))
}

/// The media box of page `page` in points, as four integer or real objects
/// (lower-left x and y, upper-right x and y), from which its width and
/// height are taken: its own or inherited box, else the default box.
pub fn page_dimensions(doc: &PdfDocument, page_id: ObjectId) -> (r: (PdfObject, PdfObject, PdfObject, PdfObject))
    requires
        doc.wf(),
    ensures
        (r.0@, r.1@, r.2@, r.3@) == (match media_box_spec(doc@, page_id) {
            Some(b) => b,
            None => default_media_box(),
        }),
{
    match media_box(doc, page_id) {
        Some(b) => b,
        None => (PdfObject::Integer(0), PdfObject::Integer(0), PdfObject::Integer(612), PdfObject::Integer(792)),
    }
}

fn number_copy(o: &PdfObject) -> (r: Option<PdfObject>)
    ensures
        r matches Some(n) ==> is_number(o@) && n@ == o@,
        r is None ==> !is_number(o@),
{
    match o {
        PdfObject::Integer(i) => Some(PdfObject::Integer(*i)),
        PdfObject::Real(t) => Some(PdfObject::Real(t.clone())),
        _ => None,
    }
}

/// The four numbers of a `/MediaBox` value.
fn box_numbers(v: &PdfObject) -> (r: Option<(PdfObject, PdfObject, PdfObject, PdfObject)>)
    ensures
        r matches Some((a, b, c, d)) ==> box_entries(v@) == Some((a@, b@, c@, d@)),
        r is None ==> box_entries(v@) is None,
{
    let mb = match v {
        PdfObject::Array(a) => a,
        _ => return None,
    };
    proof {
        lemma_objs_view(mb@);
    }
    if mb.len() < 4 {
        return None;
    }
    let a = match number_copy(&mb[0]) {
        Some(n) => n,
        None => PdfObject::Integer(0),
    };
    let b = match number_copy(&mb[1]) {
        Some(n) => n,
        None => PdfObject::Integer(0),
    };
    let c = match number_copy(&mb[2]) {
        Some(n) => n,
        None => return None,
    };
    let d = match number_copy(&mb[3]) {
        Some(n) => n,
        None => return None,
    };
    Some((a, b, c, d))
}

/// The media box of a page, its own or inherited, if it has a usable one.
pub fn media_box(doc: &PdfDocument, page_id: ObjectId) -> (r: Option<(PdfObject, PdfObject, PdfObject, PdfObject)>)
    requires
        doc.wf(),
    ensures
        r matches Some((a, b, c, d)) ==> media_box_spec(doc@, page_id) == Some((a@, b@, c@, d@)),
        r is None ==> media_box_spec(doc@, page_id) is None,
{
    let mb_key = ascii_key("MediaBox");
    let par_key = ascii_key("Parent");
    let mut got = doc.get_object(page_id);
    assert(lookup_outcome(got) == get_object_spec(doc@.objects, page_id));
    let mut level: usize = 0;
    loop
        invariant
            doc.wf(),
            level <= parent_limit(),
            mb_key@ == media_box_key(),
            par_key@ == parent_key(),
            inherited_box(doc@.objects, outcome_info(lookup_outcome(got)), level as nat) == media_box_spec(doc@, page_id),
        decreases parent_limit() - level,
    {
        let dict = match got {
            Ok((_, o)) => match o.as_dict() {
                Some(d) => d,
                None => return None,
            },
            Err(_) => return None,
        };
        match dict.get(mb_key.as_slice()) {
            Some(v) => return box_numbers(v),
            None => {},
        }
        let p = match dict.get(par_key.as_slice()) {
            Some(p) => p,
            None => return None,
        };
        if level >= 128 {
            return None;
        }
        got = doc.dereference(p);
        level = level + 1;
    }
}

/// The id that the next added object gets.
pub open spec fn next_id(doc: DocValue) -> ObjectId {
    ObjectId { number: (doc.max_id + 1) as u32, generation: 0 }
}

/// The document with the annotation dictionary `annot` added under the
/// next free number and listed on page `page`, and the failure if the page
/// could not take it (the object is then added but not listed).
pub open spec fn attach_spec(doc: DocValue, page: ObjectId, annot: Seq<(Seq<u8>, PdfValue)>) -> (DocValue, Option<AnnotateError>) {
    let id = next_id(doc);
    let added = DocValue { objects: doc.objects.insert(id, PdfValue::Dictionary(annot)), max_id: id.number, ..doc };
    match add_annot_spec(added, page, id) {
        Ok(d) => (d, None),
        Err(e) => (added, Some(e)),
    }
}

/// Adds the annotation dictionary `annot` to the document as a new object
/// and lists it on page `page_id`; returns the new object's id.
pub fn attach_annotation(doc: &mut PdfDocument, page_id: ObjectId, annot: PdfDict) -> (r: Result<ObjectId, AnnotateError>)
    requires
        old(doc).wf(),
        old(doc).max_id < u32::MAX,
    ensures
        final(doc).wf(),
        final(doc)@ == attach_spec(old(doc)@, page_id, annot@).0,
        r == (match attach_spec(old(doc)@, page_id, annot@).1 {
            None => Ok(next_id(old(doc)@)),
            Some(e) => Err(e),
        }),
{
    let id = doc.add_object(PdfObject::Dictionary(annot));
    match add_annot_to_page(doc, page_id, id) {
        Ok(()) => Ok(id),
        Err(e) => Err(e),
    }
}

} // verus!

verus! {

/// The page numbers and dictionaries of annotations, as values.
pub open spec fn annot_views(s: Seq<(u32, PdfDict)>) -> Seq<(u32, Seq<(Seq<u8>, PdfValue)>)> {
    s.map_values(|a: (u32, PdfDict)| (a.0, a.1@))
}

/// The document after the annotations `annots` (page number and
/// dictionary), in order, are each added as a new object and listed on
/// their page, pages being numbered from 1 in `pages`; and the failure, if
/// one stopped it, with the document as it then was.
pub open spec fn attach_all_spec(doc: DocValue, pages: Seq<ObjectId>, annots: Seq<(u32, Seq<(Seq<u8>, PdfValue)>)>) -> (DocValue, Option<AnnotateError>)
    decreases annots.len(),
{
    if annots.len() == 0 {
        (doc, None)
    } else {
        let (d, e) = attach_all_spec(doc, pages, annots.drop_last());
        if e is Some {
            (d, e)
        } else {
            let (page, annot) = annots.last();
            match page_lookup(pages, page) {
                None => (d, Some(AnnotateError::PageNotFound(page))),
                Some(id) => attach_spec(d, id, annot),
            }
        }
    }
}

/// Once an annotation fails, the ones after it change nothing.
proof fn lemma_attach_all_stops(doc: DocValue, pages: Seq<ObjectId>, s: Seq<(u32, Seq<(Seq<u8>, PdfValue)>)>, k: int)
    requires
        0 < k <= s.len(),
        attach_all_spec(doc, pages, s.take(k)).1 is Some,
    ensures
        attach_all_spec(doc, pages, s) == attach_all_spec(doc, pages, s.take(k)),
    decreases s.len(),
{
    if k == s.len() {
        assert(s.take(k) =~= s);
    } else {
        let p = s.drop_last();
        assert(p.take(k) =~= s.take(k));
        lemma_attach_all_stops(doc, pages, p, k);
    }
}

/// Writes the annotations `annots` (page number and dictionary) into the
/// document in order: each is added as a new object and listed on its page,
/// pages being numbered from 1 in `pages`. The first failure stops it.
pub fn attach_annotations(doc: &mut PdfDocument, pages: &Vec<ObjectId>, annots: Vec<(u32, PdfDict)>) -> (r: Result<(), AnnotateError>)
    requires
        old(doc).wf(),
        old(doc).max_id + annots@.len() <= u32::MAX,
    ensures
        final(doc).wf(),
        final(doc)@ == attach_all_spec(old(doc)@, pages@, annot_views(annots@)).0,
        r == (match attach_all_spec(old(doc)@, pages@, annot_views(annots@)).1 {
            None => Ok(()),
            Some(e) => Err(e),
        }),
{
    let ghost av = annot_views(annots@);
    let ghost d0 = doc@;
    let n = annots.len();
    let mut rest = annots;
    let mut failure: Option<AnnotateError> = None;
    let mut i: usize = 0;
    assert(av.take(0) =~= Seq::<(u32, Seq<(Seq<u8>, PdfValue)>)>::empty());
    while i < n && failure.is_none()
        invariant
            i <= n,
            n == av.len(),
            rest@.len() == n - i,
            forall|j: int| 0 <= j < rest@.len() ==> (#[trigger] rest@[j].0, rest@[j].1@) == av[j + i],
            doc.wf(),
            attach_all_spec(d0, pages@, av.take(i as int)) == (doc@, failure),
            failure is Some ==> i > 0,
            doc.max_id <= d0.max_id + i,
            d0.max_id + n <= u32::MAX,
        decreases n - i,
    {
        assert((rest@[0].0, rest@[0].1@) == av[i as int]);
        let (page, dict) = rest.remove(0);
        assert(av.take(i + 1).drop_last() =~= av.take(i as int));
        assert(av.take(i + 1).last() == av[i as int]);
        match page_object_id(pages, page) {
            Err(e) => {
                failure = Some(e);
            },
            Ok(pid) => {
                match attach_annotation(doc, pid, dict) {
                    Err(e) => {
                        failure = Some(e);
                    },
                    Ok(_) => {},
                }
            },
        }
        i = i + 1;
    }
    proof {
        if failure is Some {
            lemma_attach_all_stops(d0, pages@, av, i as int);
        } else {
            assert(av.take(n as int) =~= av);
        }
    }
    match failure {
        Some(e) => Err(e),
        None => Ok(()),
    }
}

} // verus!

verus! {

/// Adding an annotation to a page dictionary lists it last in `/Annots`,
/// after what the array held before, and leaves every other entry as it
/// was.
pub proof fn lemma_annot_listed(d: Seq<(Seq<u8>, PdfValue)>, annot: ObjectId, k: Seq<u8>)
    ensures
        dict_get(page_with_annot(d, annot), annots_key()) matches Some(PdfValue::Array(s)) && s.len() > 0 && s.last()
            == PdfValue::Reference(annot),
        dict_get(d, annots_key()) matches Some(PdfValue::Array(s0)) ==> dict_get(page_with_annot(d, annot), annots_key())
            == Some(PdfValue::Array(s0.push(PdfValue::Reference(annot)))),
        k != annots_key() ==> dict_get(page_with_annot(d, annot), k) == dict_get(d, k),
{
    crate::pdf_object::lemma_dict_get_set(d, annots_key(), annots_with(dict_get(d, annots_key()), annot), k);
}

/// The annotations listed by an object: an array's entries, or a
/// dictionary's `/Annots` array.
pub open spec fn annots_list(v: PdfValue) -> Option<Seq<PdfValue>> {
    match v {
        PdfValue::Array(a) => Some(a),
        PdfValue::Dictionary(d) => match dict_get(d, annots_key()) {
            Some(PdfValue::Array(s)) => Some(s),
            _ => None,
        },
        _ => None,
    }
}

/// When an annotation is written to a page, exactly one stored object
/// changes, the page's dictionary or the array its `/Annots` entry refers
/// to, and it lists the annotation last; every other object stays as it
/// was.
pub proof fn lemma_add_annot_effect(doc: DocValue, page: ObjectId, annot: ObjectId)
    requires
        add_annot_spec(doc, page, annot) is Ok,
    ensures
        ({
            let after = add_annot_spec(doc, page, annot)->Ok_0;
            exists|holder: ObjectId| {
                &&& doc.objects.contains_key(holder)
                &&& after.objects.dom() == doc.objects.dom()
                &&& forall|other: ObjectId| other != holder ==> after.objects.contains_key(other) ==> #[trigger] after.objects[other] == doc.objects[other]
                &&& annots_list(after.objects[holder]) matches Some(s) && s.len() > 0 && s.last() == PdfValue::Reference(annot)
            }
        }),
{
    crate::pdf_document::lemma_get_object_found(doc.objects, page);
    let after = add_annot_spec(doc, page, annot)->Ok_0;
    match get_object_spec(doc.objects, page) {
        DerefOutcome::Found(last, PdfValue::Dictionary(d)) => {
            let target = match last {
                Some(t) => t,
                None => page,
            };
            match indirect_annots(doc.objects, d) {
                Some((t, a)) => {
                    let r = dict_get(d, annots_key())->Some_0;
                    crate::pdf_document::lemma_deref_found(doc.objects, r, None, 0);
                    assert(after.objects.dom() =~= doc.objects.dom());
                    assert(doc.objects.contains_key(t));
                },
                None => {
                    lemma_annot_listed(d, annot, annots_key());
                    assert(after.objects.dom() =~= doc.objects.dom());
                    assert(doc.objects.contains_key(target));
                },
            }
        },
        _ => {},
    }
}

} // verus!

verus! {

/// A name object.
pub open spec fn name_value(s: Seq<char>) -> PdfValue {
    PdfValue::Name(ascii_bytes(s))
}

/// An array of real numbers given as their decimal texts.
pub open spec fn reals_value(xs: Seq<String>) -> PdfValue {
    PdfValue::Array(xs.map_values(|x: String| PdfValue::Real(x@)))
}

/// The entries every annotation starts with: `/Type /Annot` and its
/// subtype.
pub open spec fn annot_head(subtype: Seq<char>) -> Seq<(Seq<u8>, PdfValue)> {
    seq![(ascii_bytes("Type"@), name_value("Annot"@)), (ascii_bytes("Subtype"@), name_value(subtype))]
}

/// The dictionary of a highlight annotation over the rectangle from
/// (`x1`, `y1`) to (`x2`, `y2`) in colour `c`: its rectangle, the four
/// corners of the highlighted area, the colour, an opacity of 0.35 and the
/// "print" flag.
pub open spec fn highlight_spec(x1: String, y1: String, x2: String, y2: String, c: Seq<String>) -> Seq<(Seq<u8>, PdfValue)> {
    annot_head("Highlight"@) + seq![
        (ascii_bytes("Rect"@), reals_value(seq![x1, y1, x2, y2])),
        (ascii_bytes("QuadPoints"@), reals_value(seq![x1, y2, x2, y2, x1, y1, x2, y1])),
        (ascii_bytes("C"@), reals_value(c)),
        (ascii_bytes("CA"@), PdfValue::Real("0.35"@)),
        (ascii_bytes("F"@), PdfValue::Integer(4)),
    ]
}

/// An array object of real numbers given as texts.
pub fn reals(xs: Vec<String>) -> (r: PdfObject)
    ensures
        r@ == reals_value(xs@),
{
    let ghost xs0 = xs@;
    let n = xs.len();
    let mut out: Vec<PdfObject> = Vec::new();
    let mut xs = xs;
    let mut i: usize = 0;
    while i < n
        invariant
            i <= n,
            n == xs0.len(),
            xs@.len() == n - i,
            forall|j: int| 0 <= j < xs@.len() ==> #[trigger] xs@[j] == xs0[j + i],
            out@.len() == i,
            forall|j: int| 0 <= j < i ==> obj_view(#[trigger] out@[j]) == PdfValue::Real(xs0[j]@),
        decreases n - i,
    {
        let x = xs.remove(0);
        out.push(PdfObject::Real(x));
        i = i + 1;
    }
    proof {
        lemma_objs_view(out@);
        assert(objs_view(out@) =~= xs0.map_values(|x: String| PdfValue::Real(x@)));
    }
    PdfObject::Array(out)
}

fn name_object(s: &str) -> (r: PdfObject)
    ensures
        r@ == name_value(s@),
{
    PdfObject::Name(ascii_key(s))
}

fn entry(k: &str, v: PdfObject) -> (r: (Vec<u8>, PdfObject))
    ensures
        r.0@ == ascii_bytes(k@),
        r.1 == v,
{
    (ascii_key(k), v)
}

fn annot_dict_head(subtype: &str) -> (r: Vec<(Vec<u8>, PdfObject)>)
    ensures
        entries_view(r@) == annot_head(subtype@),
{
    let mut es: Vec<(Vec<u8>, PdfObject)> = Vec::new();
    es.push(entry("Type", name_object("Annot")));
    es.push(entry("Subtype", name_object(subtype)));
    proof {
        lemma_entries_view(es@);
        assert(entries_view(es@) =~= annot_head(subtype@));
    }
    es
}

/// The dictionary of a highlight annotation (see [`highlight_spec`]); the
/// coordinates and colour components are real numbers given as text.
pub fn highlight_annotation(x1: String, y1: String, x2: String, y2: String, c: Vec<String>) -> (r: PdfDict)
    ensures
        r@ == highlight_spec(x1, y1, x2, y2, c@),
{
    let mut es = annot_dict_head("Highlight");
    let ghost h = es@;
    let rect = vec![x1.clone(), y1.clone(), x2.clone(), y2.clone()];
    assert(rect@ =~= seq![x1, y1, x2, y2]);
    let quad = vec![x1.clone(), y2.clone(), x2.clone(), y2, x1, y1.clone(), x2, y1];
    assert(quad@ =~= seq![x1, y2, x2, y2, x1, y1, x2, y1]);
    es.push(entry("Rect", reals(rect)));
    es.push(entry("QuadPoints", reals(quad)));
    es.push(entry("C", reals(c)));
    es.push(entry("CA", PdfObject::Real(String::from_str("0.35"))));
    es.push(entry("F", PdfObject::Integer(4)));
    proof {
        lemma_entries_view(es@);
        lemma_entries_view(h);
        assert(entries_view(es@)[0] == annot_head("Highlight"@)[0]);
        assert(entries_view(es@)[2] == highlight_spec(x1, y1, x2, y2, c@)[2]);
        assert(entries_view(es@)[5] == highlight_spec(x1, y1, x2, y2, c@)[5]);
        assert(entries_view(es@) =~= highlight_spec(x1, y1, x2, y2, c@));
    }
    PdfDict { entries: es }
}

} // verus!

verus! {

/// The dictionary of an ink annotation: its rectangle `rect`, one stroke
/// through the points `stroke` (x and y alternating), the colour `c`, a
/// border of width `width` and the "print" flag.
pub open spec fn ink_spec(rect: Seq<String>, stroke: Seq<String>, c: Seq<String>, width: String) -> Seq<(Seq<u8>, PdfValue)> {
    annot_head("Ink"@) + seq![
        (ascii_bytes("Rect"@), reals_value(rect)),
        (ascii_bytes("InkList"@), PdfValue::Array(seq![reals_value(stroke)])),
        (ascii_bytes("C"@), reals_value(c)),
        (ascii_bytes("BS"@), PdfValue::Dictionary(seq![(ascii_bytes("W"@), PdfValue::Real(width@))])),
        (ascii_bytes("F"@), PdfValue::Integer(4)),
    ]
}

/// The dictionary of an ink annotation (see [`ink_spec`]).
pub fn ink_annotation(rect: Vec<String>, stroke: Vec<String>, c: Vec<String>, width: String) -> (r: PdfDict)
    ensures
        r@ == ink_spec(rect@, stroke@, c@, width),
{
    let mut es = annot_dict_head("Ink");
    let ghost h = es@;
    let ghost (rect0, stroke0, c0) = (rect@, stroke@, c@);
    es.push(entry("Rect", reals(rect)));
    let ink = vec![reals(stroke)];
    proof {
        lemma_objs_view(ink@);
        assert(objs_view(ink@) =~= seq![reals_value(stroke0)]);
    }
    es.push(entry("InkList", PdfObject::Array(ink)));
    es.push(entry("C", reals(c)));
    let bs = vec![entry("W", PdfObject::Real(width.clone()))];
    proof {
        lemma_entries_view(bs@);
        assert(entries_view(bs@) =~= seq![(ascii_bytes("W"@), PdfValue::Real(width@))]);
    }
    es.push(entry("BS", PdfObject::Dictionary(PdfDict { entries: bs })));
    es.push(entry("F", PdfObject::Integer(4)));
    proof {
        lemma_entries_view(es@);
        lemma_entries_view(h);
        assert(entries_view(es@) =~= ink_spec(rect0, stroke0, c0, width));
    }
    PdfDict { entries: es }
}

/// The default appearance of free text: black, Helvetica, 11 points.
pub open spec fn free_text_appearance() -> Seq<char> {
    "0 0 0 rg /Helvetica 11 Tf"@
}

/// The dictionary of a free text annotation: its rectangle `rect`, the
/// text `contents`, the colour `c`, the default appearance and the "print"
/// flag.
pub open spec fn free_text_spec(rect: Seq<String>, contents: Seq<u8>, c: Seq<String>) -> Seq<(Seq<u8>, PdfValue)> {
    annot_head("FreeText"@) + seq![
        (ascii_bytes("Rect"@), reals_value(rect)),
        (ascii_bytes("Contents"@), PdfValue::String(contents, StringFormat::Literal)),
        (ascii_bytes("C"@), reals_value(c)),
        (ascii_bytes("DA"@), PdfValue::String(ascii_bytes(free_text_appearance()), StringFormat::Literal)),
        (ascii_bytes("F"@), PdfValue::Integer(4)),
    ]
}

/// The dictionary of a free text annotation (see [`free_text_spec`]).
pub fn free_text_annotation(rect: Vec<String>, contents: Vec<u8>, c: Vec<String>) -> (r: PdfDict)
    ensures
        r@ == free_text_spec(rect@, contents@, c@),
{
    let mut es = annot_dict_head("FreeText");
    let ghost h = es@;
    let ghost (rect0, contents0, c0) = (rect@, contents@, c@);
    es.push(entry("Rect", reals(rect)));
    es.push(entry("Contents", PdfObject::String(contents, StringFormat::Literal)));
    es.push(entry("C", reals(c)));
    es.push(entry("DA", PdfObject::String(ascii_key("0 0 0 rg /Helvetica 11 Tf"), StringFormat::Literal)));
    es.push(entry("F", PdfObject::Integer(4)));
    proof {
        lemma_entries_view(es@);
        lemma_entries_view(h);
        assert(entries_view(es@) =~= free_text_spec(rect0, contents0, c0));
    }
    PdfDict { entries: es }
}

} // verus!

verus! {

/// Read as a page tree node, this has neither a media box nor a parent.
pub open spec fn blank_info(i: Option<(Option<PdfValue>, Option<PdfValue>)>) -> bool {
    i is None || i == Some((None::<PdfValue>, None::<PdfValue>))
}

/// Two lookups read alike for the media box: the same entries, or the
/// first finds nothing and the second a node with neither entry.
pub open spec fn info_alike(a: Option<(Option<PdfValue>, Option<PdfValue>)>, b: Option<(Option<PdfValue>, Option<PdfValue>)>) -> bool {
    a == b || (a is None && blank_info(b))
}

/// `m2` reads every media box as `m` does: it keeps every object of `m`,
/// each reference as it was and each other object with the same
/// `/MediaBox` and `/Parent` entries; its new objects are no references and
/// have neither entry.
pub open spec fn same_boxes(m: Map<ObjectId, PdfValue>, m2: Map<ObjectId, PdfValue>) -> bool {
    &&& forall|id: ObjectId| #[trigger] m.contains_key(id) ==> m2.contains_key(id)
    &&& forall|id: ObjectId| #[trigger] m.contains_key(id) && m[id] is Reference ==> m2[id] == m[id]
    &&& forall|id: ObjectId| #[trigger] m.contains_key(id) && !(m[id] is Reference) ==> !(m2[id] is Reference) && box_info(m2[id])
        == box_info(m[id])
    &&& forall|id: ObjectId| #[trigger] m2.contains_key(id) && !m.contains_key(id) ==> !(m2[id] is Reference) && blank_info(
        box_info(m2[id]),
    )
}

proof fn lemma_same_boxes_trans(m1: Map<ObjectId, PdfValue>, m2: Map<ObjectId, PdfValue>, m3: Map<ObjectId, PdfValue>)
    requires
        same_boxes(m1, m2),
        same_boxes(m2, m3),
    ensures
        same_boxes(m1, m3),
{
    assert forall|id: ObjectId| #[trigger] m3.contains_key(id) && !m1.contains_key(id) implies !(m3[id] is Reference) && blank_info(
        box_info(m3[id]),
    ) by {
        if m2.contains_key(id) {
            assert(!(m2[id] is Reference));
        }
    }
}

proof fn lemma_deref_boxes(m: Map<ObjectId, PdfValue>, m2: Map<ObjectId, PdfValue>, v: PdfValue, last: Option<ObjectId>, hops: nat)
    requires
        same_boxes(m, m2),
        hops <= crate::pdf_document::deref_limit(),
    ensures
        info_alike(outcome_info(deref_spec(m, v, last, hops)), outcome_info(deref_spec(m2, v, last, hops))),
    decreases crate::pdf_document::deref_limit() - hops,
{
    match v {
        PdfValue::Reference(id) => {
            if m.contains_key(id) {
                assert(m2.contains_key(id));
                if hops < crate::pdf_document::deref_limit() {
                    if m[id] is Reference {
                        lemma_deref_boxes(m, m2, m[id], Some(id), hops + 1);
                    } else {
                        assert(deref_spec(m, m[id], Some(id), hops + 1) == DerefOutcome::Found(Some(id), m[id]));
                        assert(deref_spec(m2, m2[id], Some(id), hops + 1) == DerefOutcome::Found(Some(id), m2[id]));
                    }
                }
            } else if m2.contains_key(id) {
                assert(!(m2[id] is Reference));
                if hops < crate::pdf_document::deref_limit() {
                    assert(deref_spec(m2, m2[id], Some(id), hops + 1) == DerefOutcome::Found(Some(id), m2[id]));
                }
            }
        },
        _ => {},
    }
}

proof fn lemma_get_object_boxes(m: Map<ObjectId, PdfValue>, m2: Map<ObjectId, PdfValue>, q: ObjectId)
    requires
        same_boxes(m, m2),
    ensures
        info_alike(outcome_info(get_object_spec(m, q)), outcome_info(get_object_spec(m2, q))),
{
    if m.contains_key(q) {
        assert(m2.contains_key(q));
        if m[q] is Reference {
            lemma_deref_boxes(m, m2, m[q], None, 0);
        }
    } else if m2.contains_key(q) {
        assert(!(m2[q] is Reference));
    }
}

proof fn lemma_inherited_boxes(
    m: Map<ObjectId, PdfValue>,
    m2: Map<ObjectId, PdfValue>,
    a: Option<(Option<PdfValue>, Option<PdfValue>)>,
    b: Option<(Option<PdfValue>, Option<PdfValue>)>,
    level: nat,
)
    requires
        same_boxes(m, m2),
        info_alike(a, b),
    ensures
        inherited_box(m2, b, level) == inherited_box(m, a, level),
    decreases parent_limit() - level,
{
    if a == b {
        match a {
            Some((None, Some(p))) => if level < parent_limit() {
                lemma_deref_boxes(m, m2, p, None, 0);
                lemma_inherited_boxes(
                    m,
                    m2,
                    outcome_info(deref_spec(m, p, None, 0)),
                    outcome_info(deref_spec(m2, p, None, 0)),
                    level + 1,
                );
            },
            _ => {},
        }
    }
}

/// The media box and parent keys are not the annotations key.
proof fn lemma_keys_not_annots()
    ensures
        media_box_key() != annots_key(),
        parent_key() != annots_key(),
{
    reveal_strlit("MediaBox");
    reveal_strlit("Annots");
    reveal_strlit("Parent");
    assert(media_box_key().len() != annots_key().len());
    assert(parent_key()[0] != annots_key()[0]);
}

/// One annotation without `/MediaBox` and `/Parent` entries, added to a
/// document whose object numbers are at most its `max_id`, leaves every
/// media box readable as before and the numbers within the new `max_id`,
/// one more than before.
proof fn lemma_attach_boxes(doc: DocValue, page: ObjectId, annot: Seq<(Seq<u8>, PdfValue)>)
    requires
        crate::pdf_document::numbers_within(doc),
        doc.max_id < u32::MAX,
        dict_get(annot, media_box_key()) is None,
        dict_get(annot, parent_key()) is None,
    ensures
        same_boxes(doc.objects, attach_spec(doc, page, annot).0.objects),
        crate::pdf_document::numbers_within(attach_spec(doc, page, annot).0),
        attach_spec(doc, page, annot).0.max_id == doc.max_id + 1,
{
    let id = next_id(doc);
    let added = DocValue { objects: doc.objects.insert(id, PdfValue::Dictionary(annot)), max_id: id.number, ..doc };
    assert(!doc.objects.contains_key(id));
    assert(same_boxes(doc.objects, added.objects));
    crate::pdf_document::lemma_get_object_found(added.objects, page);
    match get_object_spec(added.objects, page) {
        DerefOutcome::Found(last, PdfValue::Dictionary(d)) => {
            let target = match last {
                Some(t) => t,
                None => page,
            };
            match indirect_annots(added.objects, d) {
                Some((t, a)) => {
                    let r = dict_get(d, annots_key())->Some_0;
                    crate::pdf_document::lemma_deref_found(added.objects, r, None, 0);
                    let after = added.objects.insert(t, PdfValue::Array(a.push(PdfValue::Reference(id))));
                    assert(same_boxes(added.objects, after));
                    lemma_same_boxes_trans(doc.objects, added.objects, after);
                },
                None => {
                    lemma_keys_not_annots();
                    lemma_annot_listed(d, id, media_box_key());
                    lemma_annot_listed(d, id, parent_key());
                    let after = added.objects.insert(target, PdfValue::Dictionary(page_with_annot(d, id)));
                    assert(same_boxes(added.objects, after));
                    lemma_same_boxes_trans(doc.objects, added.objects, after);
                },
            }
        },
        _ => {},
    }
}

proof fn lemma_attach_all_boxes(doc: DocValue, pages: Seq<ObjectId>, annots: Seq<(u32, Seq<(Seq<u8>, PdfValue)>)>)
    requires
        crate::pdf_document::numbers_within(doc),
        doc.max_id + annots.len() <= u32::MAX,
        forall|k: int| 0 <= k < annots.len() ==> dict_get(#[trigger] annots[k].1, media_box_key()) is None && dict_get(annots[k].1, parent_key()) is None,
    ensures
        same_boxes(doc.objects, attach_all_spec(doc, pages, annots).0.objects),
        crate::pdf_document::numbers_within(attach_all_spec(doc, pages, annots).0),
        attach_all_spec(doc, pages, annots).0.max_id <= doc.max_id + annots.len(),
    decreases annots.len(),
{
    if annots.len() == 0 {
        assert(same_boxes(doc.objects, doc.objects));
    } else {
        let p = annots.drop_last();
        assert forall|k: int| 0 <= k < p.len() implies dict_get(#[trigger] p[k].1, media_box_key()) is None && dict_get(p[k].1, parent_key()) is None by {
            assert(p[k] == annots[k]);
        }
        lemma_attach_all_boxes(doc, pages, p);
        let (d, e) = attach_all_spec(doc, pages, p);
        if e is None {
            let (page, annot) = annots.last();
            assert(dict_get(annots[annots.len() - 1].1, media_box_key()) is None);
            match page_lookup(pages, page) {
                None => {},
                Some(id) => {
                    lemma_attach_boxes(d, id, annot);
                    lemma_same_boxes_trans(doc.objects, d.objects, attach_spec(d, id, annot).0.objects);
                },
            }
        }
    }
}

/// Annotating never changes a page's media box: after annotations without
/// `/MediaBox` and `/Parent` entries are written into a document whose
/// object numbers are at most its `max_id` (as lopdf loads them), every
/// page's media box, own or inherited, reads as before, whether or not an
/// annotation failed.
pub proof fn lemma_annotations_keep_page_sizes(
    doc: DocValue,
    pages: Seq<ObjectId>,
    annots: Seq<(u32, Seq<(Seq<u8>, PdfValue)>)>,
    page: ObjectId,
)
    requires
        crate::pdf_document::numbers_within(doc),
        doc.max_id + annots.len() <= u32::MAX,
        forall|k: int| 0 <= k < annots.len() ==> dict_get(#[trigger] annots[k].1, media_box_key()) is None && dict_get(annots[k].1, parent_key()) is None,
    ensures
        media_box_spec(attach_all_spec(doc, pages, annots).0, page) == media_box_spec(doc, page),
{
    let after = attach_all_spec(doc, pages, annots).0;
    lemma_attach_all_boxes(doc, pages, annots);
    lemma_get_object_boxes(doc.objects, after.objects, page);
    lemma_inherited_boxes(
        doc.objects,
        after.objects,
        outcome_info(get_object_spec(doc.objects, page)),
        outcome_info(get_object_spec(after.objects, page)),
        0,
    );
}

} // verus!

verus! {

/// The annotation array of a page object: its `/Annots` array, or empty if
/// it has no `/Annots` entry; nothing if it is not a dictionary or its
/// entry is no array.
pub open spec fn page_annots(v: PdfValue) -> Option<Seq<PdfValue>> {
    match v {
        PdfValue::Dictionary(d) => match dict_get(d, annots_key()) {
            None => Some(Seq::empty()),
            Some(PdfValue::Array(s)) => Some(s),
            _ => None,
        },
        _ => None,
    }
}

/// References to the annotations of `annots` that go on page number
/// `page`, in order, the `k`-th annotation being stored under number
/// `base + k + 1`.
pub open spec fn annots_for(annots: Seq<(u32, Seq<(Seq<u8>, PdfValue)>)>, base: nat, page: u32) -> Seq<PdfValue>
    decreases annots.len(),
{
    if annots.len() == 0 {
        Seq::empty()
    } else {
        let before = annots_for(annots.drop_last(), base, page);
        if annots.last().0 == page {
            before.push(PdfValue::Reference(ObjectId { number: (base + annots.len()) as u32, generation: 0 }))
        } else {
            before
        }
    }
}

/// The pages are distinct objects of the document, each a dictionary whose
/// `/Annots` entry is missing or an array, with numbers up to `max_id`.
pub open spec fn plain_pages(doc: DocValue, pages: Seq<ObjectId>) -> bool {
    &&& crate::pdf_document::numbers_within(doc)
    &&& forall|i: int, j: int| 0 <= i < j < pages.len() ==> pages[i] != pages[j]
    &&& forall|j: int|
        0 <= j < pages.len() ==> doc.objects.contains_key(#[trigger] pages[j]) && page_annots(doc.objects[pages[j]]) is Some
}

/// The state after the first annotations were written: each page's array
/// has gained the references to its annotations, in order, the new objects
/// are numbered on from `doc.max_id`, and every other object is as it was.
pub open spec fn annotated_state(doc: DocValue, pages: Seq<ObjectId>, annots: Seq<(u32, Seq<(Seq<u8>, PdfValue)>)>, d: DocValue) -> bool {
    &&& d.max_id == doc.max_id + annots.len()
    &&& crate::pdf_document::numbers_within(d)
    &&& forall|j: int| 0 <= j < pages.len() ==> d.objects.contains_key(#[trigger] pages[j]) && page_annots(d.objects[pages[j]])
        == Some(page_annots(doc.objects[pages[j]])->0 + annots_for(annots, doc.max_id as nat, (j + 1) as u32))
    &&& forall|x: ObjectId| #[trigger] doc.objects.contains_key(x) && !pages.contains(x) ==> d.objects.contains_key(x)
        && d.objects[x] == doc.objects[x]
}

/// Writing a whole list of annotations onto plain pages: when every
/// annotation names an existing page, none fails; each page's annotation
/// array gains references to its own annotations, in the order of the
/// list, numbered on from `max_id`; and every other object stays as it
/// was.
pub proof fn lemma_annotations_listed_in_order(doc: DocValue, pages: Seq<ObjectId>, annots: Seq<(u32, Seq<(Seq<u8>, PdfValue)>)>)
    requires
        plain_pages(doc, pages),
        pages.len() <= u32::MAX,
        doc.max_id + annots.len() <= u32::MAX,
        forall|k: int| 0 <= k < annots.len() ==> 1 <= #[trigger] annots[k].0 <= pages.len(),
    ensures
        attach_all_spec(doc, pages, annots).1 is None,
        annotated_state(doc, pages, annots, attach_all_spec(doc, pages, annots).0),
    decreases annots.len(),
{
    if annots.len() == 0 {
        assert(annotated_state(doc, pages, annots, doc)) by {
            assert forall|j: int| 0 <= j < pages.len() implies doc.objects.contains_key(#[trigger] pages[j]) && page_annots(
                doc.objects[pages[j]],
            ) == Some(page_annots(doc.objects[pages[j]])->0 + annots_for(annots, doc.max_id as nat, (j + 1) as u32)) by {
                assert(page_annots(doc.objects[pages[j]])->0 + Seq::<PdfValue>::empty() =~= page_annots(doc.objects[pages[j]])->0);
            }
        }
    } else {
        let p = annots.drop_last();
        assert forall|k: int| 0 <= k < p.len() implies 1 <= #[trigger] p[k].0 <= pages.len() by {
            assert(p[k] == annots[k]);
        }
        lemma_annotations_listed_in_order(doc, pages, p);
        let d = attach_all_spec(doc, pages, p).0;
        let (page, annot) = annots.last();
        assert(1 <= annots[annots.len() - 1].0 <= pages.len());
        let pi = page - 1;
        let pid = pages[pi as int];
        let id = next_id(d);
        assert(id.number == doc.max_id + annots.len());
        let added = DocValue { objects: d.objects.insert(id, PdfValue::Dictionary(annot)), max_id: id.number, ..d };
        assert(!d.objects.contains_key(id));
        assert(d.objects.contains_key(pages[pi as int]));
        let dp = d.objects[pid]->Dictionary_0;
        assert(d.objects[pid] is Dictionary);
        assert(added.objects[pid] == d.objects[pid]);
        assert(get_object_spec(added.objects, pid) == DerefOutcome::Found(None, PdfValue::Dictionary(dp)));
        assert(indirect_annots(added.objects, dp) is None);
        let after = added.objects.insert(pid, PdfValue::Dictionary(page_with_annot(dp, id)));
        assert(attach_spec(d, pid, annot) == (DocValue { objects: after, ..added }, None::<AnnotateError>));
        crate::pdf_object::lemma_dict_get_set(dp, annots_key(), annots_with(dict_get(dp, annots_key()), id), annots_key());
        let r = attach_all_spec(doc, pages, annots).0;
        assert(r.objects == after);
        assert forall|j: int| 0 <= j < pages.len() implies r.objects.contains_key(#[trigger] pages[j]) && page_annots(
            r.objects[pages[j]],
        ) == Some(page_annots(doc.objects[pages[j]])->0 + annots_for(annots, doc.max_id as nat, (j + 1) as u32)) by {
            let before = page_annots(doc.objects[pages[j]])->0;
            assert(d.objects.contains_key(pages[j]));
            assert(pages[j] != id);
            if j == pi {
                assert(annots_for(annots, doc.max_id as nat, (j + 1) as u32) == annots_for(p, doc.max_id as nat, (j + 1) as u32).push(
                    PdfValue::Reference(id),
                ));
                assert(before + annots_for(p, doc.max_id as nat, (j + 1) as u32).push(PdfValue::Reference(id)) =~= (before
                    + annots_for(p, doc.max_id as nat, (j + 1) as u32)).push(PdfValue::Reference(id)));
                assert(annots_with(None, id) == PdfValue::Array(Seq::<PdfValue>::empty().push(PdfValue::Reference(id))));
            } else {
                assert(pages[j] != pid);
                assert((j + 1) as u32 != page);
                assert(annots_for(annots, doc.max_id as nat, (j + 1) as u32) == annots_for(p, doc.max_id as nat, (j + 1) as u32));
            }
        }
        assert forall|x: ObjectId| #[trigger] doc.objects.contains_key(x) && !pages.contains(x) implies r.objects.contains_key(x)
            && r.objects[x] == doc.objects[x] by {
            assert(d.objects.contains_key(x));
            if x == pid {
                assert(pages[pi as int] == x);
            }
        }
    }
}

} // verus!

verus! {

proof fn lemma_key_absent(d: Seq<(Seq<u8>, PdfValue)>, key: Seq<u8>)
    requires
        forall|j: int| 0 <= j < d.len() ==> #[trigger] d[j].0 != key,
    ensures
        crate::pdf_object::key_pos(d, key) == -1,
    decreases d.len(),
{
    if d.len() > 0 {
        let p = d.drop_last();
        assert forall|j: int| 0 <= j < p.len() implies #[trigger] p[j].0 != key by {
            assert(p[j] == d[j]);
        }
        lemma_key_absent(p, key);
        assert(d[d.len() - 1].0 != key);
    }
}

/// The entry found under a key is its first occurrence.
proof fn lemma_key_first(d: Seq<(Seq<u8>, PdfValue)>, key: Seq<u8>, k: int)
    requires
        0 <= k < d.len(),
        d[k].0 == key,
        forall|j: int| 0 <= j < k ==> #[trigger] d[j].0 != key,
    ensures
        crate::pdf_object::key_pos(d, key) == k,
        dict_get(d, key) == Some(d[k].1),
    decreases d.len(),
{
    let p = d.drop_last();
    if k < d.len() - 1 {
        assert(p[k] == d[k]);
        assert forall|j: int| 0 <= j < k implies #[trigger] p[j].0 != key by {
            assert(p[j] == d[j]);
        }
        lemma_key_first(p, key, k);
    } else {
        assert forall|j: int| 0 <= j < p.len() implies #[trigger] p[j].0 != key by {
            assert(p[j] == d[j]);
        }
        lemma_key_absent(p, key);
    }
}

/// The colour entry of an annotation: `/C` is the array of the given
/// colour components, as real numbers, in the given order.
pub open spec fn colour_entry_is(d: Seq<(Seq<u8>, PdfValue)>, c: Seq<String>) -> bool {
    dict_get(d, ascii_bytes("C"@)) matches Some(PdfValue::Array(a)) && a.len() == c.len() && forall|i: int|
        0 <= i < c.len() ==> a[i] == PdfValue::Real(#[trigger] c[i]@)
}

/// A highlight, ink or free text annotation carries its colour components
/// in the order given (red, green, blue): its `/C` array holds exactly
/// them, as real numbers.
pub proof fn lemma_annotation_colours(
    x1: String,
    y1: String,
    x2: String,
    y2: String,
    rect: Seq<String>,
    stroke: Seq<String>,
    width: String,
    contents: Seq<u8>,
    c: Seq<String>,
)
    ensures
        colour_entry_is(highlight_spec(x1, y1, x2, y2, c), c),
        colour_entry_is(ink_spec(rect, stroke, c, width), c),
        colour_entry_is(free_text_spec(rect, contents, c), c),
{
    reveal_strlit("C");
    reveal_strlit("Type");
    reveal_strlit("Subtype");
    reveal_strlit("Rect");
    reveal_strlit("QuadPoints");
    reveal_strlit("InkList");
    reveal_strlit("Contents");
    let kc = ascii_bytes("C"@);
    assert(kc.len() == 1);
    let h = highlight_spec(x1, y1, x2, y2, c);
    assert(h[0].0.len() == 4 && h[1].0.len() == 7 && h[2].0.len() == 4 && h[3].0.len() == 10);
    assert(h[4].0 =~= kc);
    lemma_key_first(h, kc, 4);
    let ink = ink_spec(rect, stroke, c, width);
    assert(ink[0].0.len() == 4 && ink[1].0.len() == 7 && ink[2].0.len() == 4 && ink[3].0.len() == 7);
    assert(ink[4].0 =~= kc);
    lemma_key_first(ink, kc, 4);
    let ft = free_text_spec(rect, contents, c);
    assert(ft[0].0.len() == 4 && ft[1].0.len() == 7 && ft[2].0.len() == 4 && ft[3].0.len() == 8);
    assert(ft[4].0 =~= kc);
    lemma_key_first(ft, kc, 4);
}

} // verus!

verus! {

/// A highlight annotation covers the given rectangle: `/Subtype` is
/// `/Highlight`, `/Rect` is `[x1 y1 x2 y2]`, and `/QuadPoints` lists the
/// corners upper-left, upper-right, lower-left, lower-right, that is
/// `[x1 y2 x2 y2 x1 y1 x2 y1]`.
pub proof fn lemma_highlight_area(x1: String, y1: String, x2: String, y2: String, c: Seq<String>)
    ensures
        ({
            let h = highlight_spec(x1, y1, x2, y2, c);
            &&& dict_get(h, ascii_bytes("Subtype"@)) == Some(PdfValue::Name(ascii_bytes("Highlight"@)))
            &&& dict_get(h, ascii_bytes("Rect"@)) matches Some(PdfValue::Array(a)) && a == seq![
                PdfValue::Real(x1@),
                PdfValue::Real(y1@),
                PdfValue::Real(x2@),
                PdfValue::Real(y2@),
            ]
            &&& dict_get(h, ascii_bytes("QuadPoints"@)) matches Some(PdfValue::Array(q)) && q == seq![
                PdfValue::Real(x1@),
                PdfValue::Real(y2@),
                PdfValue::Real(x2@),
                PdfValue::Real(y2@),
                PdfValue::Real(x1@),
                PdfValue::Real(y1@),
                PdfValue::Real(x2@),
                PdfValue::Real(y1@),
            ]
        }),
{
    reveal_strlit("Type");
    reveal_strlit("Subtype");
    reveal_strlit("Rect");
    reveal_strlit("QuadPoints");
    let h = highlight_spec(x1, y1, x2, y2, c);
    assert(h[0].0.len() == 4 && h[1].0.len() == 7 && h[2].0.len() == 4 && h[3].0.len() == 10);
    assert(h[0].0[0] != h[2].0[0]);
    assert(h[1].0 =~= ascii_bytes("Subtype"@));
    lemma_key_first(h, ascii_bytes("Subtype"@), 1);
    assert(h[2].0 =~= ascii_bytes("Rect"@));
    lemma_key_first(h, ascii_bytes("Rect"@), 2);
    assert(h[3].0 =~= ascii_bytes("QuadPoints"@));
    lemma_key_first(h, ascii_bytes("QuadPoints"@), 3);
    let a = reals_value(seq![x1, y1, x2, y2])->Array_0;
    assert(a =~= seq![PdfValue::Real(x1@), PdfValue::Real(y1@), PdfValue::Real(x2@), PdfValue::Real(y2@)]);
    let q = reals_value(seq![x1, y2, x2, y2, x1, y1, x2, y1])->Array_0;
    assert(q =~= seq![
        PdfValue::Real(x1@),
        PdfValue::Real(y2@),
        PdfValue::Real(x2@),
        PdfValue::Real(y2@),
        PdfValue::Real(x1@),
        PdfValue::Real(y1@),
        PdfValue::Real(x2@),
        PdfValue::Real(y1@),
    ]);
}

/// Pages are numbered from 1 in page order: number `k` is the `k`-th id of
/// the list, and 0 or a number past the last page names no page.
pub proof fn lemma_page_numbers(pages: Seq<ObjectId>, k: u32)
    ensures
        1 <= k <= pages.len() ==> page_lookup(pages, k) == Some(pages[k - 1]),
        (k == 0 || k > pages.len()) ==> page_lookup(pages, k) is None,
{
}

} // verus!
