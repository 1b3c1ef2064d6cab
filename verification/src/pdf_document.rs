//! A PDF document held as plain data: its header, trailer and numbered
//! objects, with the lookups and updates the toolkit performs on it.

use vstd::prelude::*;
use crate::pdf_object::{ObjectId, PdfDict, PdfObject, PdfValue, obj_view};

verus! {

/// Which cross-reference form the document is written with.
#[derive(Clone, Copy, PartialEq, Eq, Structural, Debug)]
pub enum XrefKind {
    Table,
    Stream,
}

/// A PDF document. `objects` holds the indirect objects ordered by id, each
/// id once.
pub struct PdfDocument {
    pub version: String,
    pub binary_mark: Vec<u8>,
    pub trailer: PdfDict,
    pub objects: Vec<(ObjectId, PdfObject)>,
    pub max_id: u32,
    pub xref: XrefKind,
}

/// The mathematical value of a [`PdfDocument`].
pub struct DocValue {
    pub version: Seq<char>,
    pub binary_mark: Seq<u8>,
    pub trailer: Seq<(Seq<u8>, PdfValue)>,
    pub objects: Map<ObjectId, PdfValue>,
    pub max_id: u32,
    pub xref: XrefKind,
}

/// Every object number is at most `max_id`, so that the next number,
/// `max_id + 1`, is free.
pub open spec fn numbers_within(d: DocValue) -> bool {
    forall|id: ObjectId| #[trigger] d.objects.contains_key(id) ==> id.number <= d.max_id
}

/// Object ids in the order of their number, then their generation.
pub open spec fn id_lt(a: ObjectId, b: ObjectId) -> bool {
    a.number < b.number || (a.number == b.number && a.generation < b.generation)
}

/// The entries are ordered by strictly increasing id.
pub open spec fn ids_sorted(s: Seq<(ObjectId, PdfObject)>) -> bool {
    forall|i: int, j: int| 0 <= i < j < s.len() ==> id_lt(#[trigger] s[i].0, #[trigger] s[j].0)
}

/// Some entry has id `id`.
pub open spec fn has_id(s: Seq<(ObjectId, PdfObject)>, id: ObjectId) -> bool {
    exists|i: int| 0 <= i < s.len() && #[trigger] s[i].0 == id
}

/// The position of the entry with id `id`.
pub open spec fn id_index(s: Seq<(ObjectId, PdfObject)>, id: ObjectId) -> int {
    choose|i: int| 0 <= i < s.len() && #[trigger] s[i].0 == id
}

/// The objects of `s` by id.
pub open spec fn objects_map(s: Seq<(ObjectId, PdfObject)>) -> Map<ObjectId, PdfValue> {
    Map::new(|id: ObjectId| has_id(s, id), |id: ObjectId| obj_view(s[id_index(s, id)].1))
}

impl View for PdfDocument {
    type V = DocValue;

    open spec fn view(&self) -> DocValue {
        DocValue {
            version: self.version@,
            binary_mark: self.binary_mark@,
            trailer: self.trailer@,
            objects: objects_map(self.objects@),
            max_id: self.max_id,
            xref: self.xref,
        }
    }
}

impl PdfDocument {
    /// The objects are ordered by id, each id once.
    pub open spec fn wf(&self) -> bool {
        ids_sorted(self.objects@)
    }
}

pub proof fn lemma_id_index(s: Seq<(ObjectId, PdfObject)>, k: int)
    requires
        ids_sorted(s),
        0 <= k < s.len(),
    ensures
        has_id(s, s[k].0),
        id_index(s, s[k].0) == k,
        objects_map(s).contains_key(s[k].0),
        objects_map(s)[s[k].0] == obj_view(s[k].1),
{
    let id = s[k].0;
    assert(has_id(s, id));
    let i = id_index(s, id);
    if i < k {
        assert(id_lt(s[i].0, s[k].0));
    } else if i > k {
        assert(id_lt(s[k].0, s[i].0));
    }
}

/// Whether `a` comes before `b`.
pub fn id_less(a: ObjectId, b: ObjectId) -> (r: bool)
    ensures
        r == id_lt(a, b),
{
    a.number < b.number || (a.number == b.number && a.generation < b.generation)
}

impl PdfDocument {
    /// The position of the object with id `id`.
    pub fn find(&self, id: ObjectId) -> (r: Option<usize>)
        requires
            self.wf(),
        ensures
            r matches Some(i) ==> i < self.objects@.len() && self.objects@[i as int].0 == id,
            r is None <==> !self@.objects.contains_key(id),
    {
        let n = self.objects.len();
        for i in 0..n
            invariant
                n == self.objects@.len(),
                forall|j: int| 0 <= j < i ==> self.objects@[j].0 != id,
        {
            if self.objects[i].0 == id {
                return Some(i);
            }
        }
        None
    }

    /// The object stored under `id` (`BTreeMap::get` on the objects).
    pub fn get(&self, id: ObjectId) -> (r: Option<&PdfObject>)
        requires
            self.wf(),
        ensures
            r matches Some(o) ==> self@.objects.contains_key(id) && self@.objects[id] == o@,
            r is None ==> !self@.objects.contains_key(id),
    {
        match self.find(id) {
            Some(i) => {
                proof {
                    lemma_id_index(self.objects@, i as int);
                }
                Some(&self.objects[i].1)
            },
            None => None,
        }
    }

    /// Stores `obj` under `id`, replacing what was there
    /// (`BTreeMap::insert` on the objects).
    pub fn set_object(&mut self, id: ObjectId, obj: PdfObject)
        requires
            old(self).wf(),
        ensures
            final(self).wf(),
            final(self)@ == (DocValue { objects: old(self)@.objects.insert(id, obj@), ..old(self)@ }),
    {
        let ghost v = obj@;
        table_insert(&mut self.objects, id, obj);
        assert(self@ =~= (DocValue { objects: old(self)@.objects.insert(id, v), ..old(self)@ }));
    }
}

/// Stores `obj` under `id` in a table of objects ordered by id, replacing
/// what was there (`BTreeMap::insert`).
pub fn table_insert(t: &mut Vec<(ObjectId, PdfObject)>, id: ObjectId, obj: PdfObject)
    requires
        ids_sorted(old(t)@),
    ensures
        ids_sorted(final(t)@),
        objects_map(final(t)@) == objects_map(old(t)@).insert(id, obj@),
{
    let ghost s0 = t@;
    let ghost v = obj@;
    let n = t.len();
    let mut k: usize = 0;
    while k < n && id_less(t[k].0, id)
        invariant
            k <= n,
            n == t@.len(),
            t@ == s0,
            ids_sorted(s0),
            forall|j: int| 0 <= j < k ==> id_lt(#[trigger] s0[j].0, id),
        decreases n - k,
    {
        k = k + 1;
    }
    if k < n && t[k].0 == id {
        t.set(k, (id, obj));
        proof {
            let s1 = t@;
            assert(ids_sorted(s1)) by {
                assert forall|i: int, j: int| 0 <= i < j < s1.len() implies id_lt(#[trigger] s1[i].0, #[trigger] s1[j].0) by {
                    assert(s1[i].0 == s0[i].0 && s1[j].0 == s0[j].0);
                }
            }
            lemma_set_map(s0, s1, k as int, id, v);
        }
    } else {
        t.insert(k, (id, obj));
        proof {
            let s1 = t@;
            assert forall|j: int| k <= j < s0.len() implies id_lt(id, #[trigger] s0[j].0) by {
                if k < s0.len() {
                    assert(!id_lt(s0[k as int].0, id));
                    assert(s0[k as int].0 != id);
                    if j > k {
                        assert(id_lt(s0[k as int].0, s0[j].0));
                    }
                }
            }
            assert(ids_sorted(s1)) by {
                assert forall|i: int, j: int| 0 <= i < j < s1.len() implies id_lt(#[trigger] s1[i].0, #[trigger] s1[j].0) by {
                    if j < k {
                        assert(s1[i] == s0[i] && s1[j] == s0[j]);
                    } else if j == k {
                        assert(s1[i] == s0[i]);
                    } else if i < k {
                        assert(s1[i] == s0[i] && s1[j] == s0[j - 1]);
                        assert(id_lt(s0[i].0, id));
                    } else if i == k {
                        assert(s1[j] == s0[j - 1]);
                    } else {
                        assert(s1[i] == s0[i - 1] && s1[j] == s0[j - 1]);
                    }
                }
            }
            lemma_insert_map(s0, s1, k as int, id, v);
        }
    }
}

proof fn lemma_set_map(s0: Seq<(ObjectId, PdfObject)>, s1: Seq<(ObjectId, PdfObject)>, k: int, id: ObjectId, v: PdfValue)
    requires
        ids_sorted(s0),
        ids_sorted(s1),
        0 <= k < s0.len(),
        s0[k].0 == id,
        s1.len() == s0.len(),
        s1[k].0 == id,
        obj_view(s1[k].1) == v,
        forall|j: int| 0 <= j < s0.len() && j != k ==> s1[j] == s0[j],
    ensures
        objects_map(s1) == objects_map(s0).insert(id, v),
{
    let m1 = objects_map(s1);
    let m0 = objects_map(s0).insert(id, v);
    assert forall|x: ObjectId| m1.contains_key(x) <==> m0.contains_key(x) by {
        if has_id(s1, x) {
            let j = choose|j: int| 0 <= j < s1.len() && #[trigger] s1[j].0 == x;
            if j != k {
                assert(s0[j].0 == x);
            }
        }
        if has_id(s0, x) {
            let j = choose|j: int| 0 <= j < s0.len() && #[trigger] s0[j].0 == x;
            if j != k {
                assert(s1[j].0 == x);
            } else {
                assert(s1[k].0 == x);
            }
        }
    }
    assert forall|x: ObjectId| #[trigger] m1.contains_key(x) implies m1[x] == m0[x] by {
        let j = choose|j: int| 0 <= j < s1.len() && #[trigger] s1[j].0 == x;
        lemma_id_index(s1, j);
        if j != k {
            assert(s0[j] == s1[j]);
            lemma_id_index(s0, j);
        }
    }
    assert(m1 =~= m0);
}

proof fn lemma_insert_map(s0: Seq<(ObjectId, PdfObject)>, s1: Seq<(ObjectId, PdfObject)>, k: int, id: ObjectId, v: PdfValue)
    requires
        ids_sorted(s0),
        ids_sorted(s1),
        0 <= k <= s0.len(),
        s1 == s0.insert(k, (id, s1[k].1)),
        obj_view(s1[k].1) == v,
    ensures
        objects_map(s1) == objects_map(s0).insert(id, v),
{
    let m1 = objects_map(s1);
    let m0 = objects_map(s0).insert(id, v);
    assert forall|x: ObjectId| m1.contains_key(x) <==> m0.contains_key(x) by {
        if has_id(s1, x) {
            let j = choose|j: int| 0 <= j < s1.len() && #[trigger] s1[j].0 == x;
            if j < k {
                assert(s0[j].0 == x);
            } else if j > k {
                assert(s0[j - 1].0 == x);
            }
        }
        if has_id(s0, x) {
            let j = choose|j: int| 0 <= j < s0.len() && #[trigger] s0[j].0 == x;
            if j < k {
                assert(s1[j].0 == x);
            } else {
                assert(s1[j + 1].0 == x);
            }
        }
        if x == id {
            assert(s1[k].0 == x);
        }
    }
    assert forall|x: ObjectId| #[trigger] m1.contains_key(x) implies m1[x] == m0[x] by {
        let j = choose|j: int| 0 <= j < s1.len() && #[trigger] s1[j].0 == x;
        lemma_id_index(s1, j);
        if j < k {
            assert(id_lt(s1[j].0, s1[k].0));
            assert(s0[j] == s1[j]);
            lemma_id_index(s0, j);
        } else if j > k {
            assert(id_lt(s1[k].0, s1[j].0));
            assert(s0[j - 1] == s1[j]);
            lemma_id_index(s0, j - 1);
        }
    }
    assert(m1 =~= m0);
}

} // verus!

verus! {

/// Why an object could not be looked up.
#[derive(Clone, Copy, PartialEq, Eq, Structural, Debug)]
pub enum LookupError {
    /// No object has this id.
    ObjectNotFound(ObjectId),
    /// A chain of references was longer than lopdf follows.
    ReferenceLimit,
}

/// The result of following references from an object.
pub enum DerefOutcome {
    /// The object reached, and the id of the last object the chain went
    /// through (none when the object was not a reference).
    Found(Option<ObjectId>, PdfValue),
    NotFound(ObjectId),
    TooDeep,
}

/// The number of references `Document::dereference` follows at most.
pub open spec fn deref_limit() -> nat {
    128
}

/// Follows references from `v` through the objects `m`, `hops` references
/// having been followed already, the last of them to `last`
/// (`Document::dereference`).
pub open spec fn deref_spec(m: Map<ObjectId, PdfValue>, v: PdfValue, last: Option<ObjectId>, hops: nat) -> DerefOutcome
    decreases deref_limit() - hops,
{
    match v {
        PdfValue::Reference(id) => if !m.contains_key(id) {
            DerefOutcome::NotFound(id)
        } else if hops >= deref_limit() {
            DerefOutcome::TooDeep
        } else {
            deref_spec(m, m[id], Some(id), hops + 1)
        },
        _ => DerefOutcome::Found(last, v),
    }
}

/// The object under `id`, references followed (`Document::get_object`).
pub open spec fn get_object_spec(m: Map<ObjectId, PdfValue>, id: ObjectId) -> DerefOutcome {
    if !m.contains_key(id) {
        DerefOutcome::NotFound(id)
    } else {
        deref_spec(m, m[id], None, 0)
    }
}

/// The outcome that an exec lookup result stands for.
pub open spec fn lookup_outcome(r: Result<(Option<ObjectId>, &PdfObject), LookupError>) -> DerefOutcome {
    match r {
        Ok((last, o)) => DerefOutcome::Found(last, o@),
        Err(LookupError::ObjectNotFound(id)) => DerefOutcome::NotFound(id),
        Err(LookupError::ReferenceLimit) => DerefOutcome::TooDeep,
    }
}

impl PdfDocument {
    /// Follows references from `obj` (`Document::dereference`).
    pub fn dereference<'a>(&'a self, obj: &'a PdfObject) -> (r: Result<(Option<ObjectId>, &'a PdfObject), LookupError>)
        requires
            self.wf(),
        ensures
            lookup_outcome(r) == deref_spec(self@.objects, obj@, None, 0),
    {
        let mut cur: &'a PdfObject = obj;
        let mut last: Option<ObjectId> = None;
        let mut hops: usize = 0;
        loop
            invariant
                self.wf(),
                hops <= deref_limit(),
                deref_spec(self@.objects, cur@, last, hops as nat) == deref_spec(self@.objects, obj@, None, 0),
            decreases deref_limit() - hops,
        {
            match cur.as_reference() {
                None => {
                    return Ok((last, cur));
                },
                Some(id) => {
                    match self.get(id) {
                        None => {
                            return Err(LookupError::ObjectNotFound(id));
                        },
                        Some(next) => {
                            if hops >= 128 {
                                return Err(LookupError::ReferenceLimit);
                            }
                            cur = next;
                            last = Some(id);
                            hops = hops + 1;
                        },
                    }
                },
            }
        }
    }

    /// The object under `id`, references followed (`Document::get_object`).
    pub fn get_object(&self, id: ObjectId) -> (r: Result<(Option<ObjectId>, &PdfObject), LookupError>)
        requires
            self.wf(),
        ensures
            lookup_outcome(r) == get_object_spec(self@.objects, id),
    {
        match self.get(id) {
            None => Err(LookupError::ObjectNotFound(id)),
            Some(o) => self.dereference(o),
        }
    }

    /// Adds `obj` under the next free object number and returns its id
    /// (`Document::add_object`).
    pub fn add_object(&mut self, obj: PdfObject) -> (id: ObjectId)
        requires
            old(self).wf(),
            old(self).max_id < u32::MAX,
        ensures
            final(self).wf(),
            id == (ObjectId { number: (old(self).max_id + 1) as u32, generation: 0 }),
            final(self)@ == (DocValue {
                objects: old(self)@.objects.insert(id, obj@),
                max_id: (old(self).max_id + 1) as u32,
                ..old(self)@
            }),
    {
        self.max_id = self.max_id + 1;
        let id = ObjectId { number: self.max_id, generation: 0 };
        self.set_object(id, obj);
        id
    }
}

} // verus!

verus! {

/// The objects of a non-empty ordered table are those before its last
/// entry, plus the last entry, whose id is new.
pub proof fn lemma_objects_map_push(s: Seq<(ObjectId, PdfObject)>)
    requires
        ids_sorted(s),
        s.len() > 0,
    ensures
        !objects_map(s.drop_last()).contains_key(s.last().0),
        objects_map(s) == objects_map(s.drop_last()).insert(s.last().0, obj_view(s.last().1)),
{
    let p = s.drop_last();
    let k = s.len() - 1;
    assert(ids_sorted(p));
    if objects_map(p).contains_key(s.last().0) {
        let j = choose|j: int| 0 <= j < p.len() && #[trigger] p[j].0 == s.last().0;
        assert(id_lt(s[j].0, s[k].0));
    }
    let m1 = objects_map(s);
    let m0 = objects_map(p).insert(s.last().0, obj_view(s.last().1));
    assert forall|x: ObjectId| m1.contains_key(x) <==> m0.contains_key(x) by {
        if has_id(s, x) {
            let j = choose|j: int| 0 <= j < s.len() && #[trigger] s[j].0 == x;
            if j < k {
                assert(p[j].0 == x);
            }
        }
        if has_id(p, x) {
            let j = choose|j: int| 0 <= j < p.len() && #[trigger] p[j].0 == x;
            assert(s[j].0 == x);
        }
        if x == s.last().0 {
            assert(s[k].0 == x);
        }
    }
    assert forall|x: ObjectId| #[trigger] m1.contains_key(x) implies m1[x] == m0[x] by {
        let j = choose|j: int| 0 <= j < s.len() && #[trigger] s[j].0 == x;
        lemma_id_index(s, j);
        if j < k {
            assert(id_lt(s[j].0, s[k].0));
            assert(p[j] == s[j]);
            lemma_id_index(p, j);
        }
    }
    assert(m1 =~= m0);
}

/// An ordered table has as many objects as entries.
pub proof fn lemma_objects_map_len(s: Seq<(ObjectId, PdfObject)>)
    requires
        ids_sorted(s),
    ensures
        objects_map(s).dom().finite(),
        objects_map(s).dom().len() == s.len(),
    decreases s.len(),
{
    if s.len() == 0 {
        assert(objects_map(s).dom() =~= Set::<ObjectId>::empty());
    } else {
        assert(ids_sorted(s.drop_last()));
        lemma_objects_map_len(s.drop_last());
        lemma_objects_map_push(s);
    }
}

} // verus!

verus! {

/// Following references ends at an object that is not a reference; when
/// the chain went through references, the object is the one stored under
/// the last of them.
pub proof fn lemma_deref_found(m: Map<ObjectId, PdfValue>, v: PdfValue, last: Option<ObjectId>, hops: nat)
    requires
        hops <= deref_limit(),
        last matches Some(t) ==> m.contains_key(t) && m[t] == v,
    ensures
        deref_spec(m, v, last, hops) matches DerefOutcome::Found(l, w) ==> !(w is Reference) && (l matches Some(t)
            ==> m.contains_key(t) && m[t] == w) && (l is None ==> w == v),
    decreases deref_limit() - hops,
{
    match v {
        PdfValue::Reference(id) => {
            if m.contains_key(id) && hops < deref_limit() {
                lemma_deref_found(m, m[id], Some(id), hops + 1);
            }
        },
        _ => {},
    }
}

/// The object that `get_object` reaches is stored under the id it reports,
/// or under the id asked for when no reference was followed.
pub proof fn lemma_get_object_found(m: Map<ObjectId, PdfValue>, id: ObjectId)
    ensures
        get_object_spec(m, id) matches DerefOutcome::Found(l, w) ==> {
            let target = match l {
                Some(t) => t,
                None => id,
            };
            &&& m.contains_key(target)
            &&& m[target] == w
            &&& !(w is Reference)
        },
{
    if m.contains_key(id) {
        lemma_deref_found(m, m[id], None, 0);
    }
}

} // verus!
