//! Merging PDF documents into one: the objects of all inputs are collected
//! under fresh numbers, and a single catalog and page tree are made to hold
//! every page.

use vstd::prelude::*;
use crate::lopdf_bridge::{load_document, lopdf_load, lopdf_pages, lopdf_renumber, new_document, page_ids, renumber_document};
use crate::pdf_document::{
    DerefOutcome, DocValue, PdfDocument, XrefKind, get_object_spec, ids_sorted, lemma_objects_map_len,
    lemma_objects_map_push, lookup_outcome, objects_map, table_insert,
};
use crate::pdf_object::{
    ObjectId, PdfDict, PdfObject, PdfValue, ascii_bytes, ascii_key, dict_get, dict_remove, dict_set, lemma_objs_view, obj_view,
    object_type, objs_view,
};

verus! {

/// Why merging failed.
#[derive(Debug)]
pub enum MergeError {
    /// No input documents were given.
    NoInput,
    /// lopdf could not read an input.
    Load(lopdf::Error),
    /// No input has a catalog.
    NoCatalog,
    /// No input has a page tree root.
    NoPagesRoot,
    /// The objects would not fit in 32-bit object numbers.
    TooManyObjects,
}

/// The documents merged so far: the next free object number, the page
/// objects by id, the page ids in the order they were collected, and all
/// objects by id.
pub struct PdfMerger {
    pub max_id: u32,
    pub pages: Vec<(ObjectId, PdfObject)>,
    pub order: Vec<ObjectId>,
    pub objects: Vec<(ObjectId, PdfObject)>,
}

/// `order` lists each page of the table `pages` once.
pub open spec fn order_matches(pages: Seq<(ObjectId, PdfObject)>, order: Seq<ObjectId>) -> bool {
    &&& order.no_duplicates()
    &&& forall|id: ObjectId| #[trigger] objects_map(pages).contains_key(id) <==> order.contains(id)
}

impl PdfMerger {
    /// Both tables are ordered by id, the page order lists each page once,
    /// and object numbers start at 1.
    pub open spec fn wf(&self) -> bool {
        &&& self.max_id >= 1
        &&& ids_sorted(self.pages@)
        &&& ids_sorted(self.objects@)
        &&& order_matches(self.pages@, self.order@)
    }
}

/// The page order after collecting the pages `ids` of a document with
/// objects `objs` onto `order`, `m` being the pages collected before: each
/// page that can be looked up and was not collected yet goes last, in the
/// document's page order.
pub open spec fn collect_order(order: Seq<ObjectId>, m: Map<ObjectId, PdfValue>, objs: Map<ObjectId, PdfValue>, ids: Seq<ObjectId>) -> Seq<ObjectId>
    decreases ids.len(),
{
    if ids.len() == 0 {
        order
    } else {
        let o2 = collect_order(order, m, objs, ids.drop_last());
        match get_object_spec(objs, ids.last()) {
            DerefOutcome::Found(_, _) => if collect_pages(m, objs, ids.drop_last()).contains_key(ids.last()) {
                o2
            } else {
                o2.push(ids.last())
            },
            _ => o2,
        }
    }
}

/// The pages collected from a document with objects `objs` and page ids
/// `ids`, added to `m`: each page id with the object it stands for,
/// references followed; pages that cannot be looked up are left out.
pub open spec fn collect_pages(m: Map<ObjectId, PdfValue>, objs: Map<ObjectId, PdfValue>, ids: Seq<ObjectId>) -> Map<ObjectId, PdfValue>
    decreases ids.len(),
{
    if ids.len() == 0 {
        m
    } else {
        let m2 = collect_pages(m, objs, ids.drop_last());
        match get_object_spec(objs, ids.last()) {
            DerefOutcome::Found(_, v) => m2.insert(ids.last(), v),
            _ => m2,
        }
    }
}

/// `d` as it is merged: with `max_id` 0, renumbered from `start`.
pub open spec fn renumbered_input(d: DocValue, start: u32) -> DocValue {
    lopdf_renumber(DocValue { max_id: 0, ..d }, start)
}

/// Whether the table `t` has an entry with id `id`.
fn table_has(t: &Vec<(ObjectId, PdfObject)>, id: ObjectId) -> (r: bool)
    ensures
        r == objects_map(t@).contains_key(id),
{
    let n = t.len();
    for i in 0..n
        invariant
            n == t@.len(),
            forall|j: int| 0 <= j < i ==> #[trigger] t@[j].0 != id,
    {
        if t[i].0 == id {
            assert(crate::pdf_document::has_id(t@, id));
            return true;
        }
    }
    false
}

impl PdfMerger {
    /// Starts a merge of `input_count` documents; there must be at least one.
    pub fn start(input_count: usize) -> (r: Result<PdfMerger, MergeError>)
        ensures
            r matches Err(e) ==> input_count == 0 && e is NoInput,
            r matches Ok(m) ==> input_count > 0 && m.wf() && m.max_id == 1 && m.pages@.len() == 0
                && m.order@.len() == 0 && m.objects@.len() == 0,
            input_count > 0 ==> r is Ok,
    {
        if input_count == 0 {
            return Err(MergeError::NoInput);
        }
        let m = PdfMerger { max_id: 1, pages: Vec::new(), order: Vec::new(), objects: Vec::new() };
        assert(objects_map(m.pages@) =~= Map::<ObjectId, PdfValue>::empty());
        Ok(m)
    }

    /// Adds the PDF file `data`: its objects are renumbered from the next
    /// free number, its pages are recorded, and its objects join the others.
    pub fn add_document(&mut self, data: &[u8]) -> (r: Result<(), MergeError>)
        requires
            old(self).wf(),
        ensures
            final(self).wf(),
            match lopdf_load(data@) {
                None => r matches Err(MergeError::Load(_)) && *final(self) == *old(self),
                Some(d) => if old(self).max_id + d.objects.dom().len() > u32::MAX {
                    r matches Err(MergeError::TooManyObjects) && *final(self) == *old(self)
                } else {
                    let rd = renumbered_input(d, old(self).max_id);
                    &&& r is Ok
                    &&& final(self).max_id == rd.max_id + 1
                    &&& objects_map(final(self).pages@) == collect_pages(objects_map(old(self).pages@), rd.objects, lopdf_pages(rd))
                    &&& final(self).order@ == collect_order(old(self).order@, objects_map(old(self).pages@), rd.objects, lopdf_pages(rd))
                    &&& objects_map(final(self).objects@) == objects_map(old(self).objects@).union_prefer_right(rd.objects)
                },
            },
    {
        let mut doc = match load_document(data) {
            Ok(d) => d,
            Err(e) => return Err(MergeError::Load(e)),
        };
        proof {
            lemma_objects_map_len(doc.objects@);
        }
        assert(doc@.objects.dom().len() == doc.objects@.len());
        assert(lopdf_load(data@) == Some(doc@));
        if doc.objects.len() > (u32::MAX - self.max_id) as usize {
            assert(old(self).max_id + lopdf_load(data@)->0.objects.dom().len() > u32::MAX);
            return Err(MergeError::TooManyObjects);
        }
        assert(old(self).max_id + lopdf_load(data@)->0.objects.dom().len() <= u32::MAX);
        renumber_document(&mut doc, self.max_id);
        self.max_id = doc.max_id + 1;
        let pids = page_ids(&doc);
        let ghost p0 = objects_map(self.pages@);
        let ghost o0 = self.order@;
        let ghost objs_before = self.objects@;
        let np = pids.len();
        for i in 0..np
            invariant
                np == pids@.len(),
                doc.wf(),
                self.max_id >= 1,
                self.max_id == doc.max_id + 1,
                ids_sorted(self.objects@),
                ids_sorted(self.pages@),
                pids@ == lopdf_pages(doc@),
                self.objects@ == objs_before,
                objects_map(self.pages@) == collect_pages(p0, doc@.objects, pids@.take(i as int)),
                self.order@ == collect_order(o0, p0, doc@.objects, pids@.take(i as int)),
                order_matches(self.pages@, self.order@),
        {
            let oid = pids[i];
            let got = doc.get_object(oid);
            assert(lookup_outcome(got) == get_object_spec(doc@.objects, oid));
            assert(pids@.take(i + 1).drop_last() =~= pids@.take(i as int));
            match got {
                Ok((_, obj)) => {
                    let c = obj.copy();
                    let seen = table_has(&self.pages, oid);
                    let ghost before = objects_map(self.pages@);
                    let ghost ob = self.order@;
                    table_insert(&mut self.pages, oid, c);
                    if !seen {
                        self.order.push(oid);
                    }
                    proof {
                        assert(seen ==> self.order@ == ob);
                        assert(!seen ==> self.order@ == ob.push(oid));
                        assert forall|id: ObjectId| #[trigger] objects_map(self.pages@).contains_key(id) <==> self.order@.contains(id) by {
                            assert(objects_map(self.pages@).contains_key(id) == (id == oid || before.contains_key(id)));
                            assert(before.contains_key(id) == ob.contains(id));
                            if !seen {
                                if ob.contains(id) {
                                    let k = choose|k: int| 0 <= k < ob.len() && ob[k] == id;
                                    assert(self.order@[k] == id);
                                }
                                if self.order@.contains(id) && id != oid {
                                    let k = choose|k: int| 0 <= k < self.order@.len() && self.order@[k] == id;
                                    assert(k < ob.len());
                                    assert(ob[k] == id);
                                }
                                assert(self.order@[ob.len() as int] == oid);
                            }
                        }
                        if !seen {
                            assert(!ob.contains(oid));
                            assert forall|a: int, b: int| 0 <= a < b < self.order@.len() implies self.order@[a] != self.order@[b] by {
                                if b == ob.len() {
                                    assert(self.order@[a] == ob[a]);
                                }
                            }
                        }
                    }
                },
                Err(_) => {},
            }
        }
        assert(pids@.take(np as int) =~= pids@);
        let ghost o0 = objects_map(self.objects@);
        let ghost pages_after = self.pages@;
        let ghost order_after = self.order@;
        let no = doc.objects.len();
        for i in 0..no
            invariant
                no == doc.objects@.len(),
                doc.wf(),
                self.max_id >= 1,
                self.max_id == doc.max_id + 1,
                ids_sorted(self.pages@),
                ids_sorted(self.objects@),
                objects_map(self.objects@) == o0.union_prefer_right(objects_map(doc.objects@.take(i as int))),
                self.pages@ == pages_after,
                self.order@ == order_after,
                order_matches(self.pages@, self.order@),
        {
            let id = doc.objects[i].0;
            let c = doc.objects[i].1.copy();
            proof {
                let t = doc.objects@.take(i + 1);
                assert(ids_sorted(t));
                lemma_objects_map_push(t);
                assert(t.drop_last() =~= doc.objects@.take(i as int));
                assert(o0.union_prefer_right(objects_map(t)) =~= o0.union_prefer_right(
                    objects_map(doc.objects@.take(i as int))).insert(id, c@));
            }
            table_insert(&mut self.objects, id, c);
        }
        assert(doc.objects@.take(no as int) =~= doc.objects@);
        proof {
            let d = lopdf_load(data@)->0;
            let rd = renumbered_input(d, old(self).max_id);
            assert(doc@ == rd);
            assert(self.max_id == rd.max_id + 1);
            assert(objects_map(self.pages@) == collect_pages(objects_map(old(self).pages@), rd.objects, lopdf_pages(rd)));
            assert(self.order@ == collect_order(old(self).order@, objects_map(old(self).pages@), rd.objects, lopdf_pages(rd)));
            assert(objects_map(self.objects@) == objects_map(old(self).objects@).union_prefer_right(rd.objects));
        }
        Ok(())
    }
}

} // verus!

verus! {

/// The bytes of a name or key.
pub open spec fn key(s: &str) -> Seq<u8> {
    ascii_bytes(s@)
}

/// The object types that merging rebuilds rather than copies: catalogs,
/// page tree nodes, pages and outlines.
pub open spec fn is_structural_type(t: Option<Seq<u8>>) -> bool {
    ||| t == Some(key("Catalog"))
    ||| t == Some(key("Pages"))
    ||| t == Some(key("Page"))
    ||| t == Some(key("Outlines"))
    ||| t == Some(key("Outline"))
}

/// The position of the first object of type `t` in the table `s`, or -1.
pub open spec fn first_of_type(s: Seq<(ObjectId, PdfObject)>, t: Seq<u8>) -> int
    decreases s.len(),
{
    if s.len() == 0 {
        -1
    } else if first_of_type(s.drop_last(), t) >= 0 {
        first_of_type(s.drop_last(), t)
    } else if object_type(obj_view(s.last().1)) == Some(t) {
        s.len() - 1
    } else {
        -1
    }
}

/// The objects of `s` that are not structural.
pub open spec fn kept_objects(s: Seq<(ObjectId, PdfObject)>) -> Map<ObjectId, PdfValue> {
    Map::new(
        |id: ObjectId| objects_map(s).contains_key(id) && !is_structural_type(object_type(objects_map(s)[id])),
        |id: ObjectId| objects_map(s)[id],
    )
}

/// The page dictionaries of `p`, each with `/Parent` set to `parent`.
pub open spec fn parented_pages(p: Seq<(ObjectId, PdfObject)>, parent: ObjectId) -> Map<ObjectId, PdfValue> {
    Map::new(
        |id: ObjectId| objects_map(p).contains_key(id) && objects_map(p)[id] is Dictionary,
        |id: ObjectId| PdfValue::Dictionary(
            dict_set(objects_map(p)[id]->Dictionary_0, key("Parent"), PdfValue::Reference(parent)),
        ),
    )
}

/// References to the pages `order`, in that order.
pub open spec fn kids(order: Seq<ObjectId>) -> Seq<PdfValue> {
    order.map_values(|id: ObjectId| PdfValue::Reference(id))
}

/// The page tree root `root` made to hold the pages `p`, in that order:
/// `/Count` is their number and `/Kids` lists them; nothing if the root is
/// not a dictionary.
pub open spec fn root_updated(root: PdfValue, p: Seq<ObjectId>) -> Option<PdfValue> {
    match root {
        PdfValue::Dictionary(d) => Some(PdfValue::Dictionary(dict_set(
            dict_set(d, key("Count"), PdfValue::Integer((p.len() as u32) as i64)),
            key("Kids"),
            PdfValue::Array(kids(p)),
        ))),
        _ => None,
    }
}

/// The catalog `cat` pointed at the page tree root `root_id`, without
/// outlines; nothing if the catalog is not a dictionary.
pub open spec fn catalog_updated(cat: PdfValue, root_id: ObjectId) -> Option<PdfValue> {
    match cat {
        PdfValue::Dictionary(d) => Some(PdfValue::Dictionary(
            dict_remove(dict_set(d, key("Pages"), PdfValue::Reference(root_id)), key("Outlines")),
        )),
        _ => None,
    }
}

/// The objects of the merged document: the non-structural objects, the
/// pages under the one page tree root, that root and the catalog.
pub open spec fn merged_objects(
    objs: Seq<(ObjectId, PdfObject)>,
    pages: Seq<(ObjectId, PdfObject)>,
    order: Seq<ObjectId>,
    cat_id: ObjectId,
    cat: PdfValue,
    root_id: ObjectId,
    root: PdfValue,
) -> Map<ObjectId, PdfValue> {
    let m1 = kept_objects(objs).union_prefer_right(parented_pages(pages, root_id));
    let m2 = match root_updated(root, order) {
        Some(v) => m1.insert(root_id, v),
        None => m1,
    };
    match catalog_updated(cat, root_id) {
        Some(v) => m2.insert(cat_id, v),
        None => m2,
    }
}

/// What finishing a merge gives.
pub enum MergeOutcome {
    Merged(DocValue),
    NoCatalog,
    NoPagesRoot,
    TooManyObjects,
}

/// The result of finishing the merge of the objects `objs` with pages
/// `pages`, listed in the order `order`: the first catalog and the first page tree root (by id) become
/// those of a new PDF 1.5 document holding the merged objects, which is
/// then renumbered from 1.
pub open spec fn merge_outcome(objs: Seq<(ObjectId, PdfObject)>, pages: Seq<(ObjectId, PdfObject)>, order: Seq<ObjectId>) -> MergeOutcome {
    let ci = first_of_type(objs, key("Catalog"));
    let pi = first_of_type(objs, key("Pages"));
    if ci < 0 {
        MergeOutcome::NoCatalog
    } else if pi < 0 {
        MergeOutcome::NoPagesRoot
    } else {
        let cat_id = objs[ci].0;
        let root_id = objs[pi].0;
        let m = merged_objects(objs, pages, order, cat_id, obj_view(objs[ci].1), root_id, obj_view(objs[pi].1));
        if m.dom().len() + 1 > u32::MAX {
            MergeOutcome::TooManyObjects
        } else {
            MergeOutcome::Merged(lopdf_renumber(
                DocValue {
                    version: "1.5"@,
                    binary_mark: seq![0xBBu8, 0xAD, 0xC0, 0xDE],
                    trailer: dict_set(Seq::empty(), key("Root"), PdfValue::Reference(cat_id)),
                    objects: m,
                    max_id: 0,
                    xref: XrefKind::Stream,
                },
                1,
            ))
        }
    }
}

proof fn lemma_first_of_type(s: Seq<(ObjectId, PdfObject)>, t: Seq<u8>)
    ensures
        -1 <= first_of_type(s, t) < s.len(),
        first_of_type(s, t) >= 0 ==> object_type(obj_view(s[first_of_type(s, t)].1)) == Some(t),
        first_of_type(s, t) >= 0 ==> forall|j: int| 0 <= j < first_of_type(s, t) ==> object_type(obj_view(#[trigger] s[j].1)) != Some(t),
        first_of_type(s, t) < 0 ==> forall|j: int| 0 <= j < s.len() ==> object_type(obj_view(#[trigger] s[j].1)) != Some(t),
    decreases s.len(),
{
    if s.len() > 0 {
        let p = s.drop_last();
        lemma_first_of_type(p, t);
        assert forall|j: int| 0 <= j < p.len() implies p[j] == s[j] by {}
    }
}

/// The position of the first object of type `t` in the table.
fn find_first_of_type(s: &Vec<(ObjectId, PdfObject)>, t: &Vec<u8>) -> (r: Option<usize>)
    ensures
        r matches Some(i) ==> i == first_of_type(s@, t@) && i < s@.len(),
        r is None ==> first_of_type(s@, t@) < 0,
{
    proof {
        lemma_first_of_type(s@, t@);
    }
    let n = s.len();
    for i in 0..n
        invariant
            n == s@.len(),
            forall|j: int| 0 <= j < i ==> object_type(obj_view(#[trigger] s@[j].1)) != Some(t@),
            -1 <= first_of_type(s@, t@) < n,
            first_of_type(s@, t@) >= 0 ==> object_type(obj_view(s@[first_of_type(s@, t@)].1)) == Some(t@),
            first_of_type(s@, t@) >= 0 ==> forall|j: int| 0 <= j < first_of_type(s@, t@) ==> object_type(obj_view(#[trigger] s@[j].1)) != Some(t@),
            first_of_type(s@, t@) < 0 ==> forall|j: int| 0 <= j < n ==> object_type(obj_view(#[trigger] s@[j].1)) != Some(t@),
    {
        match s[i].1.object_type() {
            Some(name) => {
                if crate::pdf_object::bytes_eq(name.as_slice(), t.as_slice()) {
                    return Some(i);
                }
            },
            None => {},
        }
    }
    None
}

/// Whether an object type is one that merging rebuilds.
fn structural(t: &Option<Vec<u8>>) -> (r: bool)
    ensures
        r == is_structural_type(match t {
            Some(v) => Some(v@),
            None => None,
        }),
{
    match t {
        None => false,
        Some(v) => {
            let s = v.as_slice();
            crate::pdf_object::bytes_eq(s, ascii_key("Catalog").as_slice())
                || crate::pdf_object::bytes_eq(s, ascii_key("Pages").as_slice())
                || crate::pdf_object::bytes_eq(s, ascii_key("Page").as_slice())
                || crate::pdf_object::bytes_eq(s, ascii_key("Outlines").as_slice())
                || crate::pdf_object::bytes_eq(s, ascii_key("Outline").as_slice())
        },
    }
}

} // verus!

verus! {

/// `merged` holds the objects of `objs` that are not structural, those of
/// the first `i` entries.
proof fn lemma_kept_step(s: Seq<(ObjectId, PdfObject)>, i: int)
    requires
        ids_sorted(s),
        0 <= i < s.len(),
    ensures
        kept_objects(s.take(i + 1)) == (if is_structural_type(object_type(obj_view(s[i].1))) {
            kept_objects(s.take(i))
        } else {
            kept_objects(s.take(i)).insert(s[i].0, obj_view(s[i].1))
        }),
{
    let t = s.take(i + 1);
    assert(ids_sorted(t));
    lemma_objects_map_push(t);
    assert(t.drop_last() =~= s.take(i));
    let k1 = kept_objects(t);
    let k0 = kept_objects(s.take(i));
    if is_structural_type(object_type(obj_view(s[i].1))) {
        assert(k1 =~= k0);
    } else {
        assert(k1 =~= k0.insert(s[i].0, obj_view(s[i].1)));
    }
}

proof fn lemma_parented_step(p: Seq<(ObjectId, PdfObject)>, i: int, parent: ObjectId)
    requires
        ids_sorted(p),
        0 <= i < p.len(),
    ensures
        parented_pages(p.take(i + 1), parent) == (match obj_view(p[i].1) {
            PdfValue::Dictionary(d) => parented_pages(p.take(i), parent).insert(
                p[i].0,
                PdfValue::Dictionary(dict_set(d, key("Parent"), PdfValue::Reference(parent))),
            ),
            _ => parented_pages(p.take(i), parent),
        }),
{
    let t = p.take(i + 1);
    assert(ids_sorted(t));
    lemma_objects_map_push(t);
    assert(t.drop_last() =~= p.take(i));
    let q1 = parented_pages(t, parent);
    let q0 = parented_pages(p.take(i), parent);
    match obj_view(p[i].1) {
        PdfValue::Dictionary(d) => {
            assert(q1 =~= q0.insert(p[i].0, PdfValue::Dictionary(dict_set(d, key("Parent"), PdfValue::Reference(parent)))));
        },
        _ => {
            assert(q1 =~= q0);
        },
    }
}

impl PdfMerger {
    /// Builds the merged document: the first catalog and the first page
    /// tree root (by id) are kept and made to hold every collected page, in
    /// the order collected; all other catalogs, page tree nodes, pages and
    /// outlines are left out; the result is renumbered from 1.
    pub fn finish(self) -> (r: Result<PdfDocument, MergeError>)
        requires
            self.wf(),
        ensures
            match merge_outcome(self.objects@, self.pages@, self.order@) {
                MergeOutcome::Merged(d) => r matches Ok(doc) && doc.wf() && doc@ == d,
                MergeOutcome::NoCatalog => r matches Err(MergeError::NoCatalog),
                MergeOutcome::NoPagesRoot => r matches Err(MergeError::NoPagesRoot),
                MergeOutcome::TooManyObjects => r matches Err(MergeError::TooManyObjects),
            },
    {
        let ci = match find_first_of_type(&self.objects, &ascii_key("Catalog")) {
            Some(i) => i,
            None => return Err(MergeError::NoCatalog),
        };
        let pi = match find_first_of_type(&self.objects, &ascii_key("Pages")) {
            Some(i) => i,
            None => return Err(MergeError::NoPagesRoot),
        };
        let cat_id = self.objects[ci].0;
        let root_id = self.objects[pi].0;
        let ghost cat = obj_view(self.objects@[ci as int].1);
        let ghost root = obj_view(self.objects@[pi as int].1);
        let mut merged = new_document("1.5");
        let ghost base = merged@;
        assert(base.objects =~= Map::<ObjectId, PdfValue>::empty());
        assert(kept_objects(self.objects@.take(0)) =~= Map::<ObjectId, PdfValue>::empty());
        assert(merged@ =~= (DocValue { objects: kept_objects(self.objects@.take(0)), ..base }));
        // The objects that are copied as they are.
        let n = self.objects.len();
        for i in 0..n
            invariant
                n == self.objects@.len(),
                self.wf(),
                merged.wf(),
                merged@ == (DocValue { objects: kept_objects(self.objects@.take(i as int)), ..base }),
        {
            proof {
                lemma_kept_step(self.objects@, i as int);
            }
            let t = self.objects[i].1.object_type();
            if !structural(&t) {
                let c = self.objects[i].1.copy();
                merged.set_object(self.objects[i].0, c);
            }
        }
        assert(self.objects@.take(n as int) =~= self.objects@);
        let ghost kept = kept_objects(self.objects@);
        assert(parented_pages(self.pages@.take(0), root_id) =~= Map::<ObjectId, PdfValue>::empty());
        assert(kept.union_prefer_right(parented_pages(self.pages@.take(0), root_id)) =~= kept);
        // The pages, under the one page tree root.
        let np = self.pages.len();
        for i in 0..np
            invariant
                np == self.pages@.len(),
                self.wf(),
                merged.wf(),
                merged@ == (DocValue {
                    objects: kept.union_prefer_right(parented_pages(self.pages@.take(i as int), root_id)),
                    ..base
                }),
        {
            proof {
                lemma_parented_step(self.pages@, i as int, root_id);
            }
            match self.pages[i].1.as_dict() {
                Some(d) => {
                    let mut d2 = d.copy();
                    d2.set(ascii_key("Parent"), PdfObject::Reference(root_id));
                    merged.set_object(self.pages[i].0, PdfObject::Dictionary(d2));
                    assert(merged@.objects =~= kept.union_prefer_right(parented_pages(self.pages@.take(i + 1), root_id)));
                },
                None => {},
            }
        }
        assert(self.pages@.take(np as int) =~= self.pages@);
        let ghost m1 = kept.union_prefer_right(parented_pages(self.pages@, root_id));
        // The page tree root.
        match self.objects[pi].1.as_dict() {
            Some(d) => {
                let mut d2 = d.copy();
                let no = self.order.len();
                d2.set(ascii_key("Count"), PdfObject::Integer(no as u32 as i64));
                let mut ks: Vec<PdfObject> = Vec::new();
                for j in 0..no
                    invariant
                        no == self.order@.len(),
                        ks@.len() == j,
                        forall|k: int| 0 <= k < j ==> obj_view(#[trigger] ks@[k]) == PdfValue::Reference(self.order@[k]),
                {
                    ks.push(PdfObject::Reference(self.order[j]));
                }
                proof {
                    lemma_objs_view(ks@);
                    assert(objs_view(ks@) =~= kids(self.order@));
                }
                d2.set(ascii_key("Kids"), PdfObject::Array(ks));
                merged.set_object(root_id, PdfObject::Dictionary(d2));
            },
            None => {},
        }
        let ghost m2 = match root_updated(root, self.order@) {
            Some(v) => m1.insert(root_id, v),
            None => m1,
        };
        assert(merged@ == (DocValue { objects: m2, ..base }));
        // The catalog.
        match self.objects[ci].1.as_dict() {
            Some(d) => {
                let mut d2 = d.copy();
                d2.set(ascii_key("Pages"), PdfObject::Reference(root_id));
                d2.remove(ascii_key("Outlines").as_slice());
                merged.set_object(cat_id, PdfObject::Dictionary(d2));
            },
            None => {},
        }
        let ghost m = merged_objects(self.objects@, self.pages@, self.order@, cat_id, cat, root_id, root);
        assert(merged@ == (DocValue { objects: m, ..base }));
        merged.trailer.set(ascii_key("Root"), PdfObject::Reference(cat_id));
        proof {
            lemma_objects_map_len(merged.objects@);
        }
        if merged.objects.len() >= u32::MAX as usize {
            return Err(MergeError::TooManyObjects);
        }
        merged.max_id = merged.objects.len() as u32;
        renumber_document(&mut merged, 1);
        Ok(merged)
    }
}

} // verus!

verus! {

/// The shape of a merged document before renumbering: the catalog points
/// at the one page tree root and has no outlines; the root counts and
/// lists every collected page, in the order collected; every collected page names
/// the root as its parent; every other non-structural object is copied
/// unchanged.
pub proof fn lemma_merged_layout(
    objs: Seq<(ObjectId, PdfObject)>,
    pages: Seq<(ObjectId, PdfObject)>,
    order: Seq<ObjectId>,
    cat_id: ObjectId,
    cat: PdfValue,
    root_id: ObjectId,
    root: PdfValue,
    p: ObjectId,
    o: ObjectId,
)
    requires
        cat_id != root_id,
    ensures
        ({
            let m = merged_objects(objs, pages, order, cat_id, cat, root_id, root);
            &&& (cat matches PdfValue::Dictionary(cd) && crate::pdf_object::keys_unique(cd)) ==> {
                &&& m.contains_key(cat_id)
                &&& m[cat_id] matches PdfValue::Dictionary(md) && dict_get(md, key("Pages")) == Some(
                    PdfValue::Reference(root_id),
                ) && dict_get(md, key("Outlines")) is None
            }
            &&& root matches PdfValue::Dictionary(rd) ==> {
                &&& m.contains_key(root_id)
                &&& m[root_id] matches PdfValue::Dictionary(md) && dict_get(md, key("Count")) == Some(
                    PdfValue::Integer((order.len() as u32) as i64),
                ) && dict_get(md, key("Kids")) == Some(PdfValue::Array(kids(order)))
            }
            &&& (p != cat_id && p != root_id && objects_map(pages).contains_key(p)
                && objects_map(pages)[p] is Dictionary) ==> {
                &&& m.contains_key(p)
                &&& m[p] matches PdfValue::Dictionary(md) && dict_get(md, key("Parent")) == Some(
                    PdfValue::Reference(root_id),
                )
            }
            &&& (o != cat_id && o != root_id && !objects_map(pages).contains_key(o)
                && kept_objects(objs).contains_key(o)) ==> m.contains_key(o) && m[o] == objects_map(objs)[o]
        }),
{
    let kp = key("Pages");
    let ko = key("Outlines");
    let kc = key("Count");
    let kk = key("Kids");
    let kpar = key("Parent");
    assert(ascii_bytes("Pages"@) != ascii_bytes("Outlines"@)) by {
        reveal_strlit("Pages");
        reveal_strlit("Outlines");
        assert(ascii_bytes("Pages"@).len() != ascii_bytes("Outlines"@).len());
    }
    assert(ascii_bytes("Count"@) != ascii_bytes("Kids"@)) by {
        reveal_strlit("Count");
        reveal_strlit("Kids");
        assert(ascii_bytes("Count"@).len() != ascii_bytes("Kids"@).len());
    }
    match cat {
        PdfValue::Dictionary(cd) => {
            let s1 = dict_set(cd, kp, PdfValue::Reference(root_id));
            crate::pdf_object::lemma_dict_get_set(cd, kp, PdfValue::Reference(root_id), ko);
            if crate::pdf_object::keys_unique(cd) {
                crate::pdf_object::lemma_dict_set_unique(cd, kp, PdfValue::Reference(root_id));
                crate::pdf_object::lemma_dict_get_remove(s1, ko, kp);
            }
        },
        _ => {},
    }
    match root {
        PdfValue::Dictionary(rd) => {
            let c = PdfValue::Integer((order.len() as u32) as i64);
            crate::pdf_object::lemma_dict_get_set(rd, kc, c, kk);
            crate::pdf_object::lemma_dict_get_set(dict_set(rd, kc, c), kk, PdfValue::Array(kids(order)), kc);
        },
        _ => {},
    }
    if objects_map(pages).contains_key(p) && objects_map(pages)[p] is Dictionary {
        crate::pdf_object::lemma_dict_get_set(objects_map(pages)[p]->Dictionary_0, kpar, PdfValue::Reference(root_id), kpar);
    }
}

} // verus!

verus! {

/// The reply after a merge into `output_path`: that path and the number of
/// pages of the merged document, as a JSON object.
pub open spec fn merge_summary_spec(output_path: Seq<char>, pages: nat) -> Seq<char> {
    "{\"output_path\": "@ + crate::text::json_string_spec(output_path) + ", \"page_count\": "@ + crate::text::decimal_spec(pages)
        + "}"@
}

/// The reply after the merged document `doc` was written to `output_path`
/// (see [`merge_summary_spec`]); its pages are those lopdf finds in it.
pub fn merge_summary(output_path: &str, doc: &PdfDocument) -> (r: String)
    requires
        doc.wf(),
    ensures
        r@ == merge_summary_spec(output_path@, lopdf_pages(doc@).len()),
{
    let pages = page_ids(doc).len();
    let mut r = String::from_str("{\"output_path\": ");
    crate::text::push_json_string(&mut r, output_path);
    r.append(", \"page_count\": ");
    crate::text::push_decimal(&mut r, pages as u64);
    r.append("}");
    r
}

} // verus!

verus! {

proof fn lemma_collect_pages_keys(m: Map<ObjectId, PdfValue>, objs: Map<ObjectId, PdfValue>, ids: Seq<ObjectId>, x: ObjectId)
    requires
        collect_pages(m, objs, ids).contains_key(x),
    ensures
        m.contains_key(x) || ids.contains(x),
    decreases ids.len(),
{
    if ids.len() > 0 {
        let p = ids.drop_last();
        if x != ids.last() {
            lemma_collect_pages_keys(m, objs, p, x);
            if p.contains(x) {
                let k = choose|k: int| 0 <= k < p.len() && p[k] == x;
                assert(ids[k] == x);
            }
        } else {
            assert(ids[ids.len() - 1] == x);
        }
    }
}

/// Merging keeps each input's page order: when every page of a document
/// can be looked up, its pages are distinct and none was collected
/// before, they are listed after the pages collected before, in the
/// document's page order.
pub proof fn lemma_pages_in_input_order(order: Seq<ObjectId>, m: Map<ObjectId, PdfValue>, objs: Map<ObjectId, PdfValue>, ids: Seq<ObjectId>)
    requires
        ids.no_duplicates(),
        forall|i: int| 0 <= i < ids.len() ==> get_object_spec(objs, #[trigger] ids[i]) is Found,
        forall|i: int| 0 <= i < ids.len() ==> !m.contains_key(#[trigger] ids[i]),
    ensures
        collect_order(order, m, objs, ids) == order + ids,
    decreases ids.len(),
{
    if ids.len() == 0 {
        assert(order + ids =~= order);
    } else {
        let p = ids.drop_last();
        let x = ids.last();
        assert forall|i: int, j: int| 0 <= i < j < p.len() implies p[i] != p[j] by {
            assert(p[i] == ids[i] && p[j] == ids[j]);
        }
        assert forall|i: int| 0 <= i < p.len() implies get_object_spec(objs, #[trigger] p[i]) is Found && !m.contains_key(p[i]) by {
            assert(p[i] == ids[i]);
        }
        lemma_pages_in_input_order(order, m, objs, p);
        assert(get_object_spec(objs, ids[ids.len() - 1]) is Found);
        assert(!m.contains_key(ids[ids.len() - 1]));
        if collect_pages(m, objs, p).contains_key(x) {
            lemma_collect_pages_keys(m, objs, p, x);
            let k = choose|k: int| 0 <= k < p.len() && p[k] == x;
            assert(ids[k] == ids[ids.len() - 1]);
        }
        assert((order + p).push(x) =~= order + ids);
    }
}

} // verus!

verus! {

/// One of the five object types merging rebuilds, named outright.
pub open spec fn rebuilt_type(t: Option<Seq<u8>>) -> bool {
    ||| t == Some(ascii_bytes("Catalog"@))
    ||| t == Some(ascii_bytes("Pages"@))
    ||| t == Some(ascii_bytes("Page"@))
    ||| t == Some(ascii_bytes("Outlines"@))
    ||| t == Some(ascii_bytes("Outline"@))
}

/// Merging drops exactly the catalogs, page tree nodes, pages and
/// outlines. Every other object of the inputs (a font, an image, a content
/// stream, an object of no type) is in the merged document unchanged, and
/// an object of one of those five types is left out, unless it is a
/// collected page, the kept catalog or the kept page tree root.
pub proof fn lemma_merge_keeps_other_objects(
    objs: Seq<(ObjectId, PdfObject)>,
    pages: Seq<(ObjectId, PdfObject)>,
    order: Seq<ObjectId>,
    cat_id: ObjectId,
    cat: PdfValue,
    root_id: ObjectId,
    root: PdfValue,
    o: ObjectId,
)
    requires
        objects_map(objs).contains_key(o),
        !objects_map(pages).contains_key(o),
        o != cat_id,
        o != root_id,
    ensures
        !rebuilt_type(object_type(objects_map(objs)[o])) ==> {
            let m = merged_objects(objs, pages, order, cat_id, cat, root_id, root);
            m.contains_key(o) && m[o] == objects_map(objs)[o]
        },
        rebuilt_type(object_type(objects_map(objs)[o])) ==> !merged_objects(objs, pages, order, cat_id, cat, root_id, root).contains_key(o),
{
    let m1 = kept_objects(objs).union_prefer_right(parented_pages(pages, root_id));
    assert(!parented_pages(pages, root_id).contains_key(o));
    assert(is_structural_type(object_type(objects_map(objs)[o])) == rebuilt_type(object_type(objects_map(objs)[o])));
}

} // verus!
