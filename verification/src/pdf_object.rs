//! The PDF object model: the values a PDF document is made of, held as
//! plain data, with the dictionary and object accessors the document logic
//! uses.

use vstd::prelude::*;

verus! {

/// The number and generation of an indirect object.
#[derive(Clone, Copy, PartialEq, Eq, Structural, Debug)]
pub struct ObjectId {
    pub number: u32,
    pub generation: u16,
}

/// How a string object is written.
#[derive(Clone, Copy, PartialEq, Eq, Structural, Debug)]
pub enum StringFormat {
    Literal,
    Hexadecimal,
}

/// A PDF object. A real number is held as its shortest decimal text, the
/// text lopdf writes for it.
pub enum PdfObject {
    Null,
    Boolean(bool),
    Integer(i64),
    Real(String),
    Name(Vec<u8>),
    String(Vec<u8>, StringFormat),
    Array(Vec<PdfObject>),
    Dictionary(PdfDict),
    Stream(PdfStream),
    Reference(ObjectId),
}

/// A dictionary: its entries in insertion order, each key at most once.
pub struct PdfDict {
    pub entries: Vec<(Vec<u8>, PdfObject)>,
}

/// A stream: its dictionary, its bytes, whether compression may be applied
/// to it, and where its data started in the file it was read from.
pub struct PdfStream {
    pub dict: PdfDict,
    pub content: Vec<u8>,
    pub allows_compression: bool,
    pub start_position: Option<usize>,
}

/// The mathematical value of a [`PdfObject`].
pub enum PdfValue {
    Null,
    Boolean(bool),
    Integer(i64),
    Real(Seq<char>),
    Name(Seq<u8>),
    String(Seq<u8>, StringFormat),
    Array(Seq<PdfValue>),
    Dictionary(Seq<(Seq<u8>, PdfValue)>),
    Stream(Seq<(Seq<u8>, PdfValue)>, Seq<u8>, bool, Option<usize>),
    Reference(ObjectId),
}

/// The value of an object.
pub open spec fn obj_view(o: PdfObject) -> PdfValue
    decreases o, 2nat,
{
    match o {
        PdfObject::Null => PdfValue::Null,
        PdfObject::Boolean(b) => PdfValue::Boolean(b),
        PdfObject::Integer(i) => PdfValue::Integer(i),
        PdfObject::Real(r) => PdfValue::Real(r@),
        PdfObject::Name(n) => PdfValue::Name(n@),
        PdfObject::String(s, f) => PdfValue::String(s@, f),
        PdfObject::Array(a) => PdfValue::Array(objs_view(a@)),
        PdfObject::Dictionary(d) => PdfValue::Dictionary(entries_view(d.entries@)),
        PdfObject::Stream(s) => PdfValue::Stream(
            entries_view(s.dict.entries@),
            s.content@,
            s.allows_compression,
            s.start_position,
        ),
        PdfObject::Reference(id) => PdfValue::Reference(id),
    }
}

/// The values of a sequence of objects.
pub open spec fn objs_view(os: Seq<PdfObject>) -> Seq<PdfValue>
    decreases os, 1nat,
{
    if os.len() == 0 {
        Seq::empty()
    } else {
        objs_view(os.drop_last()).push(obj_view(os.last()))
    }
}

/// The value of a sequence of dictionary entries.
pub open spec fn entries_view(es: Seq<(Vec<u8>, PdfObject)>) -> Seq<(Seq<u8>, PdfValue)>
    decreases es, 1nat,
{
    if es.len() == 0 {
        Seq::empty()
    } else {
        entries_view(es.drop_last()).push((es.last().0@, obj_view(es.last().1)))
    }
}

impl View for PdfObject {
    type V = PdfValue;

    open spec fn view(&self) -> PdfValue {
        obj_view(*self)
    }
}

impl View for PdfDict {
    type V = Seq<(Seq<u8>, PdfValue)>;

    open spec fn view(&self) -> Seq<(Seq<u8>, PdfValue)> {
        entries_view(self.entries@)
    }
}

pub proof fn lemma_objs_view(os: Seq<PdfObject>)
    ensures
        objs_view(os).len() == os.len(),
        forall|i: int| 0 <= i < os.len() ==> #[trigger] objs_view(os)[i] == obj_view(os[i]),
    decreases os.len(),
{
    if os.len() > 0 {
        lemma_objs_view(os.drop_last());
    }
}

pub proof fn lemma_entries_view(es: Seq<(Vec<u8>, PdfObject)>)
    ensures
        entries_view(es).len() == es.len(),
        forall|i: int| 0 <= i < es.len() ==> #[trigger] entries_view(es)[i] == (es[i].0@, obj_view(es[i].1)),
    decreases es.len(),
{
    if es.len() > 0 {
        lemma_entries_view(es.drop_last());
    }
}

} // verus!

verus! {

/// The bytes of an ASCII text.
pub open spec fn ascii_bytes(s: Seq<char>) -> Seq<u8> {
    s.map_values(|c: char| c as u8)
}

/// The bytes of an ASCII text, such as a dictionary key.
pub fn ascii_key(s: &str) -> (r: Vec<u8>)
    ensures
        r@ == ascii_bytes(s@),
{
    let mut v: Vec<u8> = Vec::new();
    for ch in it: s.chars()
        invariant
            it.seq() == s@,
            v@ == ascii_bytes(s@.take(it.index() as int)),
    {
        let ghost i = it.index() as int;
        v.push(ch as u8);
        assert(v@ =~= ascii_bytes(s@.take(i + 1)));
    }
    assert(s@.take(s@.len() as int) =~= s@);
    v
}

/// The position of the first entry with key `key` in the dictionary value
/// `d`, or -1.
pub open spec fn key_pos(d: Seq<(Seq<u8>, PdfValue)>, key: Seq<u8>) -> int
    decreases d.len(),
{
    if d.len() == 0 {
        -1
    } else if key_pos(d.drop_last(), key) >= 0 {
        key_pos(d.drop_last(), key)
    } else if d.last().0 == key {
        d.len() - 1
    } else {
        -1
    }
}

/// The value stored under `key` in the dictionary value `d`.
pub open spec fn dict_get(d: Seq<(Seq<u8>, PdfValue)>, key: Seq<u8>) -> Option<PdfValue> {
    if key_pos(d, key) >= 0 { Some(d[key_pos(d, key)].1) } else { None }
}

/// `d` with `key` set to `v`: an existing entry keeps its place, a new one
/// goes last (`Dictionary::set`, an `IndexMap` insertion).
pub open spec fn dict_set(d: Seq<(Seq<u8>, PdfValue)>, key: Seq<u8>, v: PdfValue) -> Seq<(Seq<u8>, PdfValue)> {
    if key_pos(d, key) >= 0 { d.update(key_pos(d, key), (key, v)) } else { d.push((key, v)) }
}

/// `d` without `key`: the last entry takes the place of the removed one
/// (`Dictionary::remove`, an `IndexMap` swap removal).
pub open spec fn dict_remove(d: Seq<(Seq<u8>, PdfValue)>, key: Seq<u8>) -> Seq<(Seq<u8>, PdfValue)> {
    if key_pos(d, key) >= 0 { d.update(key_pos(d, key), d.last()).drop_last() } else { d }
}

/// The type of a dictionary (`Dictionary::get_type`): its `/Type` name, or
/// `Linearized` for a linearization dictionary.
pub open spec fn dict_type(d: Seq<(Seq<u8>, PdfValue)>) -> Option<Seq<u8>> {
    match dict_get(d, ascii_bytes("Type"@)) {
        Some(PdfValue::Name(n)) => Some(n),
        _ => if dict_get(d, ascii_bytes("Linearized"@)) is Some {
            Some(ascii_bytes("Linearized"@))
        } else {
            None
        },
    }
}

/// The type of an object (`Object::object_type`): that of a dictionary or of
/// a stream's dictionary; other objects have none.
pub open spec fn object_type(o: PdfValue) -> Option<Seq<u8>> {
    match o {
        PdfValue::Dictionary(d) => dict_type(d),
        PdfValue::Stream(d, _, _, _) => dict_type(d),
        _ => None,
    }
}

proof fn lemma_key_pos(d: Seq<(Seq<u8>, PdfValue)>, key: Seq<u8>)
    ensures
        -1 <= key_pos(d, key) < d.len(),
        key_pos(d, key) >= 0 ==> d[key_pos(d, key)].0 == key,
        key_pos(d, key) >= 0 ==> forall|j: int| 0 <= j < key_pos(d, key) ==> d[j].0 != key,
        key_pos(d, key) < 0 ==> forall|j: int| 0 <= j < d.len() ==> d[j].0 != key,
    decreases d.len(),
{
    if d.len() > 0 {
        let p = d.drop_last();
        lemma_key_pos(p, key);
        assert forall|j: int| 0 <= j < p.len() implies p[j] == d[j] by {}
    }
}

/// Byte-wise equality.
pub fn bytes_eq(a: &[u8], b: &[u8]) -> (r: bool)
    ensures
        r == (a@ == b@),
{
    if a.len() != b.len() {
        return false;
    }
    let n = a.len();
    for i in 0..n
        invariant
            n == a@.len(),
            n == b@.len(),
            forall|j: int| 0 <= j < i ==> a@[j] == b@[j],
    {
        if a[i] != b[i] {
            return false;
        }
    }
    assert(a@ =~= b@);
    true
}

impl PdfDict {
    /// An empty dictionary.
    pub fn new() -> (d: PdfDict)
        ensures
            d@ == Seq::<(Seq<u8>, PdfValue)>::empty(),
    {
        PdfDict { entries: Vec::new() }
    }

    /// The position of `key`, if it is present.
    pub fn position(&self, key: &[u8]) -> (r: Option<usize>)
        ensures
            r matches Some(i) ==> i == key_pos(self@, key@) && i < self.entries@.len(),
            r is None ==> key_pos(self@, key@) < 0,
            self@.len() == self.entries@.len(),
    {
        proof {
            lemma_entries_view(self.entries@);
            lemma_key_pos(self@, key@);
        }
        let n = self.entries.len();
        for i in 0..n
            invariant
                n == self.entries@.len(),
                entries_view(self.entries@).len() == n,
                forall|j: int| 0 <= j < n ==> #[trigger] self@[j].0 == self.entries@[j].0@,
                forall|j: int| 0 <= j < i ==> self@[j].0 != key@,
                -1 <= key_pos(self@, key@) < n,
                key_pos(self@, key@) >= 0 ==> self@[key_pos(self@, key@)].0 == key@,
                key_pos(self@, key@) >= 0 ==> forall|j: int| 0 <= j < key_pos(self@, key@) ==> self@[j].0 != key@,
                key_pos(self@, key@) < 0 ==> forall|j: int| 0 <= j < n ==> self@[j].0 != key@,
        {
            if bytes_eq(self.entries[i].0.as_slice(), key) {
                assert(self@[i as int].0 == key@);
                return Some(i);
            }
        }
        None
    }

    /// The object stored under `key` (`Dictionary::get`).
    pub fn get(&self, key: &[u8]) -> (r: Option<&PdfObject>)
        ensures
            r matches Some(o) ==> dict_get(self@, key@) == Some(o@),
            r is None ==> dict_get(self@, key@) is None,
    {
        match self.position(key) {
            Some(i) => {
                proof {
                    lemma_entries_view(self.entries@);
                }
                Some(&self.entries[i].1)
            },
            None => None,
        }
    }

    /// Sets `key` to `value` (`Dictionary::set`).
    pub fn set(&mut self, key: Vec<u8>, value: PdfObject)
        ensures
            final(self)@ == dict_set(old(self)@, key@, value@),
    {
        proof {
            lemma_entries_view(self.entries@);
        }
        let ghost kv = key@;
        let ghost vv = value@;
        match self.position(key.as_slice()) {
            Some(i) => {
                self.entries.set(i, (key, value));
                proof {
                    lemma_entries_view(self.entries@);
                }
                assert(self@ =~= dict_set(old(self)@, kv, vv));
            },
            None => {
                self.entries.push((key, value));
                proof {
                    lemma_entries_view(self.entries@);
                }
                assert(self@ =~= dict_set(old(self)@, kv, vv));
            },
        }
    }

    /// Removes `key` and returns what it held (`Dictionary::remove`).
    pub fn remove(&mut self, key: &[u8]) -> (r: Option<PdfObject>)
        ensures
            final(self)@ == dict_remove(old(self)@, key@),
            r matches Some(o) ==> dict_get(old(self)@, key@) == Some(o@),
            r is None ==> dict_get(old(self)@, key@) is None,
    {
        proof {
            lemma_entries_view(self.entries@);
        }
        match self.position(key) {
            Some(i) => {
                let (_, v) = self.entries.swap_remove(i);
                proof {
                    lemma_entries_view(self.entries@);
                }
                assert(self@ =~= dict_remove(old(self)@, key@));
                Some(v)
            },
            None => None,
        }
    }
}

} // verus!

verus! {

impl PdfDict {
    /// The type of this dictionary (`Dictionary::get_type`).
    pub fn get_type(&self) -> (r: Option<Vec<u8>>)
        ensures
            r matches Some(n) ==> dict_type(self@) == Some(n@),
            r is None ==> dict_type(self@) is None,
    {
        match self.get(ascii_key("Type").as_slice()) {
            Some(PdfObject::Name(n)) => return Some(vstd::slice::slice_to_vec(n.as_slice())),
            _ => {},
        }
        let lin = ascii_key("Linearized");
        match self.get(lin.as_slice()) {
            Some(_) => Some(lin),
            None => None,
        }
    }

    /// A copy of this dictionary with the same value.
    pub fn copy(&self) -> (r: PdfDict)
        ensures
            r@ == self@,
        decreases self, 0nat,
    {
        let n = self.entries.len();
        let mut es: Vec<(Vec<u8>, PdfObject)> = Vec::new();
        proof {
            lemma_entries_view(self.entries@);
        }
        let mut i: usize = 0;
        while i < n
            invariant
                i <= n,
                n == self.entries@.len(),
                es@.len() == i,
                forall|j: int| 0 <= j < i ==> #[trigger] es@[j].0@ == self.entries@[j].0@
                    && obj_view(es@[j].1) == obj_view(self.entries@[j].1),
            decreases n - i,
        {
            proof {
                assert(decreases_to!(self => self.entries));
                assert(decreases_to!(self.entries => self.entries[i as int]));
            }
            let k = vstd::slice::slice_to_vec(self.entries[i].0.as_slice());
            let v = self.entries[i].1.copy();
            es.push((k, v));
            i = i + 1;
        }
        proof {
            lemma_entries_view(es@);
            assert(entries_view(es@) =~= entries_view(self.entries@));
        }
        PdfDict { entries: es }
    }
}

impl PdfStream {
    /// A copy of this stream with the same value.
    pub fn copy(&self) -> (r: PdfStream)
        ensures
            r.dict@ == self.dict@,
            r.content@ == self.content@,
            r.allows_compression == self.allows_compression,
            r.start_position == self.start_position,
        decreases self, 0nat,
    {
        PdfStream {
            dict: self.dict.copy(),
            content: vstd::slice::slice_to_vec(self.content.as_slice()),
            allows_compression: self.allows_compression,
            start_position: self.start_position,
        }
    }
}

impl PdfObject {
    /// A copy of this object with the same value (`Object::clone`).
    pub fn copy(&self) -> (r: PdfObject)
        ensures
            r@ == self@,
        decreases self, 1nat,
    {
        match self {
            PdfObject::Null => PdfObject::Null,
            PdfObject::Boolean(b) => PdfObject::Boolean(*b),
            PdfObject::Integer(i) => PdfObject::Integer(*i),
            PdfObject::Real(r) => PdfObject::Real(r.clone()),
            PdfObject::Name(n) => PdfObject::Name(vstd::slice::slice_to_vec(n.as_slice())),
            PdfObject::String(s, f) => PdfObject::String(vstd::slice::slice_to_vec(s.as_slice()), *f),
            PdfObject::Array(a) => {
                let n = a.len();
                let mut out: Vec<PdfObject> = Vec::new();
                for i in 0..n
                    invariant
                        *self == PdfObject::Array(*a),
                        n == a@.len(),
                        out@.len() == i,
                        forall|j: int| 0 <= j < i ==> obj_view(#[trigger] out@[j]) == obj_view(a@[j]),
                {
                    proof {
                        assert(decreases_to!(*self => (*self)->Array_0));
                    assert(decreases_to!(a => a[i as int]));
                    }
                    out.push(a[i].copy());
                }
                proof {
                    lemma_objs_view(out@);
                    lemma_objs_view(a@);
                    assert(objs_view(out@) =~= objs_view(a@));
                }
                PdfObject::Array(out)
            },
            PdfObject::Dictionary(d) => PdfObject::Dictionary(d.copy()),
            PdfObject::Stream(s) => PdfObject::Stream(s.copy()),
            PdfObject::Reference(id) => PdfObject::Reference(*id),
        }
    }

    /// The dictionary this object is (`Object::as_dict`).
    pub fn as_dict(&self) -> (r: Option<&PdfDict>)
        ensures
            r matches Some(d) ==> self@ == PdfValue::Dictionary(d@),
            r is None ==> !(self@ is Dictionary),
    {
        match self {
            PdfObject::Dictionary(d) => Some(d),
            _ => None,
        }
    }

    /// The bytes of this string object (`Object::as_str`).
    pub fn as_str(&self) -> (r: Option<&[u8]>)
        ensures
            r matches Some(s) ==> self@ matches PdfValue::String(t, _) && t == s@,
            r is None ==> !(self@ is String),
    {
        match self {
            PdfObject::String(s, _) => Some(s.as_slice()),
            _ => None,
        }
    }

    /// The id this reference object points to (`Object::as_reference`).
    pub fn as_reference(&self) -> (r: Option<ObjectId>)
        ensures
            r matches Some(id) ==> self@ == PdfValue::Reference(id),
            r is None ==> !(self@ is Reference),
    {
        match self {
            PdfObject::Reference(id) => Some(*id),
            _ => None,
        }
    }

    /// The type of this object (`Object::object_type`).
    pub fn object_type(&self) -> (r: Option<Vec<u8>>)
        ensures
            r matches Some(n) ==> object_type(self@) == Some(n@),
            r is None ==> object_type(self@) is None,
    {
        match self {
            PdfObject::Dictionary(d) => d.get_type(),
            PdfObject::Stream(s) => s.dict.get_type(),
            _ => None,
        }
    }
}

} // verus!

verus! {

/// Which variant an object is (the names lopdf reports in type errors).
#[derive(Clone, Copy, PartialEq, Eq, Structural, Debug)]
pub enum ObjectKind {
    Null,
    Boolean,
    Integer,
    Real,
    Name,
    String,
    Array,
    Dictionary,
    Stream,
    Reference,
}

/// The variant of an object value.
pub open spec fn kind_of(v: PdfValue) -> ObjectKind {
    match v {
        PdfValue::Null => ObjectKind::Null,
        PdfValue::Boolean(_) => ObjectKind::Boolean,
        PdfValue::Integer(_) => ObjectKind::Integer,
        PdfValue::Real(_) => ObjectKind::Real,
        PdfValue::Name(_) => ObjectKind::Name,
        PdfValue::String(_, _) => ObjectKind::String,
        PdfValue::Array(_) => ObjectKind::Array,
        PdfValue::Dictionary(_) => ObjectKind::Dictionary,
        PdfValue::Stream(_, _, _, _) => ObjectKind::Stream,
        PdfValue::Reference(_) => ObjectKind::Reference,
    }
}

impl PdfObject {
    /// Which variant this object is (`Object::enum_variant`).
    pub fn kind(&self) -> (k: ObjectKind)
        ensures
            k == kind_of(self@),
    {
        match self {
            PdfObject::Null => ObjectKind::Null,
            PdfObject::Boolean(_) => ObjectKind::Boolean,
            PdfObject::Integer(_) => ObjectKind::Integer,
            PdfObject::Real(_) => ObjectKind::Real,
            PdfObject::Name(_) => ObjectKind::Name,
            PdfObject::String(_, _) => ObjectKind::String,
            PdfObject::Array(_) => ObjectKind::Array,
            PdfObject::Dictionary(_) => ObjectKind::Dictionary,
            PdfObject::Stream(_) => ObjectKind::Stream,
            PdfObject::Reference(_) => ObjectKind::Reference,
        }
    }
}

} // verus!

verus! {

/// Each key occurs at most once, as in an lopdf dictionary.
pub open spec fn keys_unique(d: Seq<(Seq<u8>, PdfValue)>) -> bool {
    forall|i: int, j: int| 0 <= i < j < d.len() ==> #[trigger] d[i].0 != #[trigger] d[j].0
}

/// A dictionary gives back what was last set under a key, and setting one
/// key leaves the others as they were.
pub proof fn lemma_dict_get_set(d: Seq<(Seq<u8>, PdfValue)>, k: Seq<u8>, v: PdfValue, k2: Seq<u8>)
    ensures
        dict_get(dict_set(d, k, v), k) == Some(v),
        k2 != k ==> dict_get(dict_set(d, k, v), k2) == dict_get(d, k2),
{
    lemma_key_pos(d, k);
    lemma_key_pos(d, k2);
    let d2 = dict_set(d, k, v);
    lemma_key_pos(d2, k);
    lemma_key_pos(d2, k2);
    let p = key_pos(d, k);
    let p2 = key_pos(d2, k);
    if p >= 0 {
        assert(d2[p].0 == k);
        if p2 < p {
            assert(d2[p2] == d[p2]);
        }
    } else {
        assert(d2[d.len() as int].0 == k);
        if p2 >= 0 && p2 < d.len() {
            assert(d2[p2] == d[p2]);
        }
    }
    if k2 != k {
        let q = key_pos(d, k2);
        let q2 = key_pos(d2, k2);
        if q >= 0 {
            assert(d2[q].0 == k2);
            if q2 < q {
                assert(d2[q2].0 == d[q2].0);
            }
        } else if q2 >= 0 {
            assert(d2[q2].0 == k2);
            if q2 < d.len() {
                assert(d2[q2].0 == d[q2].0);
            }
        }
    }
}

/// Setting a key keeps the keys unique.
pub proof fn lemma_dict_set_unique(d: Seq<(Seq<u8>, PdfValue)>, k: Seq<u8>, v: PdfValue)
    requires
        keys_unique(d),
    ensures
        keys_unique(dict_set(d, k, v)),
{
    lemma_key_pos(d, k);
    let d2 = dict_set(d, k, v);
    assert forall|i: int, j: int| 0 <= i < j < d2.len() implies #[trigger] d2[i].0 != #[trigger] d2[j].0 by {
        if key_pos(d, k) < 0 && j == d.len() {
            assert(d[i].0 != k);
        }
    }
}

/// After a key is removed from a dictionary with unique keys, nothing is
/// found under it, and the other keys keep their values.
pub proof fn lemma_dict_get_remove(d: Seq<(Seq<u8>, PdfValue)>, k: Seq<u8>, k2: Seq<u8>)
    requires
        keys_unique(d),
    ensures
        dict_get(dict_remove(d, k), k) is None,
        k2 != k ==> dict_get(dict_remove(d, k), k2) == dict_get(d, k2),
{
    lemma_key_pos(d, k);
    let d2 = dict_remove(d, k);
    lemma_key_pos(d2, k);
    lemma_key_pos(d2, k2);
    lemma_key_pos(d, k2);
    let p = key_pos(d, k);
    if p >= 0 {
        let n = d.len() - 1;
        assert forall|j: int| 0 <= j < d2.len() implies d2[j].0 != k by {
            if j == p {
                assert(d2[j] == d[n]);
                if n != p {
                    assert(d[p].0 != d[n].0);
                }
            } else {
                assert(d2[j] == d[j]);
            }
        }
        if k2 != k {
            let q = key_pos(d, k2);
            let q2 = key_pos(d2, k2);
            // where k2 sits in d, and where it sits after the removal
            if q >= 0 {
                let qq = if q == n { p } else { q };
                assert(d2[qq].0 == k2);
                assert(q2 >= 0);
                assert(d2[q2].0 == k2);
                if q2 != qq {
                    let src = if q2 == p { n } else { q2 };
                    assert(d2[q2] == d[src]);
                    assert(d[src].0 == d[q].0);
                    assert(src == q);
                }
                assert(d2[q2] == d[q]);
            } else if q2 >= 0 {
                let src = if q2 == p { n } else { q2 };
                assert(d2[q2] == d[src]);
            }
        }
    } else {
        assert(d2 == d);
    }
}

} // verus!
