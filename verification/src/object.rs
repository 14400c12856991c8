//! The object model: identifiers, tagged object values, dictionaries,
//! and structural role classification.

use vstd::prelude::*;

verus! {

broadcast use vstd::std_specs::vec::group_vec_axioms, vstd::seq::group_seq_axioms;

/// An object identifier: a (number, generation) pair naming an object
/// within one graph's namespace.  Identifiers are unique only within a
/// single source graph; renumbering resolves cross-graph collisions.
#[derive(Clone, Copy, PartialEq, Eq, Structural, Debug)]
pub struct ObjectId {
    pub number: u64,
    pub generation: u16,
}

/// A document object: a tagged variant over the primitive values, ordered
/// arrays, name-keyed dictionaries, streams (a dictionary plus an opaque
/// payload) and references to other objects.
///
/// A `Real` carries its numeric payload as raw bits chosen by the caller;
/// the merge never interprets it.
#[derive(Debug, PartialEq)]
pub enum Object {
    Null,
    Boolean(bool),
    Integer(i64),
    Real(u32),
    Text(Vec<u8>),
    Name(Vec<u8>),
    Array(Vec<Object>),
    Dictionary(Vec<(Vec<u8>, Object)>),
    Stream(Vec<(Vec<u8>, Object)>, Vec<u8>),
    Reference(ObjectId),
}

/// The mathematical model of an object, with sequences in place of vectors.
pub enum ObjV {
    Null,
    Boolean(bool),
    Integer(i64),
    Real(u32),
    Text(Seq<u8>),
    Name(Seq<u8>),
    Array(Seq<ObjV>),
    Dictionary(Seq<(Seq<u8>, ObjV)>),
    Stream(Seq<(Seq<u8>, ObjV)>, Seq<u8>),
    Reference(ObjectId),
}

/// Model of an exec object sequence, elementwise.
pub open spec fn view_objs(s: Seq<Object>) -> Seq<ObjV>
    decreases s,
{
    if s.len() == 0 {
        Seq::empty()
    } else {
        view_objs(s.drop_last()).push(s.last()@)
    }
}

/// Model of an exec dictionary entry sequence, elementwise.
pub open spec fn view_entries(s: Seq<(Vec<u8>, Object)>) -> Seq<(Seq<u8>, ObjV)>
    decreases s,
{
    if s.len() == 0 {
        Seq::empty()
    } else {
        view_entries(s.drop_last()).push((s.last().0@, s.last().1@))
    }
}

impl View for Object {
    type V = ObjV;

    open spec fn view(&self) -> ObjV
        decreases self,
    {
        match self {
            Object::Null => ObjV::Null,
            Object::Boolean(b) => ObjV::Boolean(*b),
            Object::Integer(i) => ObjV::Integer(*i),
            Object::Real(r) => ObjV::Real(*r),
            Object::Text(t) => ObjV::Text(t@),
            Object::Name(n) => ObjV::Name(n@),
            Object::Array(v) => ObjV::Array(view_objs(v@)),
            Object::Dictionary(d) => ObjV::Dictionary(view_entries(d@)),
            Object::Stream(d, payload) => ObjV::Stream(view_entries(d@), payload@),
            Object::Reference(id) => ObjV::Reference(*id),
        }
    }
}

pub broadcast proof fn lemma_view_objs(s: Seq<Object>)
    ensures
        (#[trigger] view_objs(s)).len() == s.len(),
        forall|i: int| 0 <= i < s.len() ==> view_objs(s)[i] == s[i]@,
    decreases s.len(),
{
    reveal_with_fuel(view_objs, 2);
    if s.len() > 0 {
        lemma_view_objs(s.drop_last());
        assert forall|i: int| 0 <= i < s.len() implies view_objs(s)[i] == s[i]@ by {
            if i < s.len() - 1 {
                assert(view_objs(s.drop_last())[i] == s.drop_last()[i]@);
                assert(s.drop_last()[i] == s[i]);
            } else {
                assert(s.last() == s[i]);
            }
        }
    }
}

pub broadcast proof fn lemma_view_entries(s: Seq<(Vec<u8>, Object)>)
    ensures
        (#[trigger] view_entries(s)).len() == s.len(),
        forall|i: int| 0 <= i < s.len() ==> view_entries(s)[i] == (s[i].0@, s[i].1@),
    decreases s.len(),
{
    reveal_with_fuel(view_entries, 2);
    if s.len() > 0 {
        lemma_view_entries(s.drop_last());
        assert forall|i: int| 0 <= i < s.len() implies view_entries(s)[i] == (
            s[i].0@,
            s[i].1@,
        ) by {
            if i < s.len() - 1 {
                assert(view_entries(s.drop_last())[i] == (s.drop_last()[i].0@, s.drop_last()[i].1@));
                assert(s.drop_last()[i] == s[i]);
            } else {
                assert(s.last() == s[i]);
            }
        }
    }
}

/// The structural role a dictionary's "Type" name declares.
#[derive(Clone, Copy, PartialEq, Eq, Structural, Debug)]
pub enum Role {
    Catalog,
    Pages,
    Page,
    Outlines,
    Outline,
    Other,
}

/// The well-known dictionary keys and name values the merge reads or writes.
#[derive(Clone, Copy, PartialEq, Eq, Structural, Debug)]
pub enum NameTag {
    TypeKey,
    CatalogName,
    PagesName,
    PageName,
    OutlinesName,
    OutlineName,
    KidsKey,
    CountKey,
    ParentKey,
    RootKey,
    TitleKey,
    DestKey,
    FirstKey,
    LastKey,
    PrevKey,
    NextKey,
    ColorKey,
    FitName,
    PagePrefix,
}

/// The byte spelling of each well-known name.
pub open spec fn nm(tag: NameTag) -> Seq<u8> {
    match tag {
        NameTag::TypeKey => seq![84u8, 121, 112, 101],
        NameTag::CatalogName => seq![67u8, 97, 116, 97, 108, 111, 103],
        NameTag::PagesName => seq![80u8, 97, 103, 101, 115],
        NameTag::PageName => seq![80u8, 97, 103, 101],
        NameTag::OutlinesName => seq![79u8, 117, 116, 108, 105, 110, 101, 115],
        NameTag::OutlineName => seq![79u8, 117, 116, 108, 105, 110, 101],
        NameTag::KidsKey => seq![75u8, 105, 100, 115],
        NameTag::CountKey => seq![67u8, 111, 117, 110, 116],
        NameTag::ParentKey => seq![80u8, 97, 114, 101, 110, 116],
        NameTag::RootKey => seq![82u8, 111, 111, 116],
        NameTag::TitleKey => seq![84u8, 105, 116, 108, 101],
        NameTag::DestKey => seq![68u8, 101, 115, 116],
        NameTag::FirstKey => seq![70u8, 105, 114, 115, 116],
        NameTag::LastKey => seq![76u8, 97, 115, 116],
        NameTag::PrevKey => seq![80u8, 114, 101, 118],
        NameTag::NextKey => seq![78u8, 101, 120, 116],
        NameTag::ColorKey => seq![67u8],
        NameTag::FitName => seq![70u8, 105, 116],
        NameTag::PagePrefix => seq![80u8, 97, 103, 101, 95],
    }
}

/// Builds the byte spelling of a well-known name.
pub fn name_bytes(tag: NameTag) -> (r: Vec<u8>)
    ensures
        r@ == nm(tag),
{
    let mut v: Vec<u8> = Vec::new();
    match tag {
        NameTag::TypeKey => {
            v.push(84); v.push(121); v.push(112); v.push(101);
        }
        NameTag::CatalogName => {
            v.push(67); v.push(97); v.push(116); v.push(97); v.push(108); v.push(111); v.push(103);
        }
        NameTag::PagesName => {
            v.push(80); v.push(97); v.push(103); v.push(101); v.push(115);
        }
        NameTag::PageName => {
            v.push(80); v.push(97); v.push(103); v.push(101);
        }
        NameTag::OutlinesName => {
            v.push(79); v.push(117); v.push(116); v.push(108); v.push(105); v.push(110); v.push(101); v.push(115);
        }
        NameTag::OutlineName => {
            v.push(79); v.push(117); v.push(116); v.push(108); v.push(105); v.push(110); v.push(101);
        }
        NameTag::KidsKey => {
            v.push(75); v.push(105); v.push(100); v.push(115);
        }
        NameTag::CountKey => {
            v.push(67); v.push(111); v.push(117); v.push(110); v.push(116);
        }
        NameTag::ParentKey => {
            v.push(80); v.push(97); v.push(114); v.push(101); v.push(110); v.push(116);
        }
        NameTag::RootKey => {
            v.push(82); v.push(111); v.push(111); v.push(116);
        }
        NameTag::TitleKey => {
            v.push(84); v.push(105); v.push(116); v.push(108); v.push(101);
        }
        NameTag::DestKey => {
            v.push(68); v.push(101); v.push(115); v.push(116);
        }
        NameTag::FirstKey => {
            v.push(70); v.push(105); v.push(114); v.push(115); v.push(116);
        }
        NameTag::LastKey => {
            v.push(76); v.push(97); v.push(115); v.push(116);
        }
        NameTag::PrevKey => {
            v.push(80); v.push(114); v.push(101); v.push(118);
        }
        NameTag::NextKey => {
            v.push(78); v.push(101); v.push(120); v.push(116);
        }
        NameTag::ColorKey => {
            v.push(67);
        }
        NameTag::FitName => {
            v.push(70); v.push(105); v.push(116);
        }
        NameTag::PagePrefix => {
            v.push(80); v.push(97); v.push(103); v.push(101); v.push(95);
        }
    }
    proof {
        assert(v@ =~= nm(tag));
    }
    v
}

/// Compares two byte strings for equality of contents.
pub fn bytes_eq(a: &Vec<u8>, b: &Vec<u8>) -> (r: bool)
    ensures
        r == (a@ == b@),
{
    if a.len() != b.len() {
        proof {
            assert(a@ != b@);
        }
        return false;
    }
    let mut i: usize = 0;
    while i < a.len()
        invariant
            0 <= i <= a.len(),
            a@.len() == b@.len(),
            forall|j: int| 0 <= j < i ==> a@[j] == b@[j],
        decreases a.len() - i,
    {
        if a[i] != b[i] {
            proof {
                assert(a@ != b@);
            }
            return false;
        }
        i = i + 1;
    }
    proof {
        assert(a@ =~= b@);
    }
    true
}

/// Looks up a key in a dictionary model: the first matching entry wins.
pub open spec fn dict_get(d: Seq<(Seq<u8>, ObjV)>, k: Seq<u8>) -> Option<ObjV>
    decreases d.len(),
{
    if d.len() == 0 {
        None
    } else if d[0].0 == k {
        Some(d[0].1)
    } else {
        dict_get(d.subrange(1, d.len() as int), k)
    }
}

/// Whether a dictionary model holds the key at all.
pub open spec fn has_key(d: Seq<(Seq<u8>, ObjV)>, k: Seq<u8>) -> bool {
    dict_get(d, k) is Some
}

/// Looks up a key in a dictionary; the first matching entry wins.
pub fn dict_get_exec<'a>(d: &'a Vec<(Vec<u8>, Object)>, k: &Vec<u8>) -> (r: Option<&'a Object>)
    ensures
        match r {
            Some(o) => dict_get(view_entries(d@), k@) == Some(o@),
            None => dict_get(view_entries(d@), k@) is None,
        },
{
    proof {
        lemma_view_entries(d@);
        assert(view_entries(d@).subrange(0, d@.len() as int) =~= view_entries(d@));
    }
    let mut i: usize = 0;
    while i < d.len()
        invariant
            0 <= i <= d@.len(),
            view_entries(d@).len() == d@.len(),
            forall|j: int| 0 <= j < d@.len() ==> view_entries(d@)[j] == (d@[j].0@, d@[j].1@),
            dict_get(view_entries(d@), k@) == dict_get(
                view_entries(d@).subrange(i as int, d@.len() as int),
                k@,
            ),
        decreases d.len() - i,
    {
        if bytes_eq(&d[i].0, k) {
            proof {
                assert(view_entries(d@).subrange(i as int, d@.len() as int)[0] == (
                    d@[i as int].0@,
                    d@[i as int].1@,
                ));
            }
            return Some(&d[i].1);
        }
        proof {
            assert(view_entries(d@).subrange(i as int, d@.len() as int).subrange(
                1,
                d@.len() - i,
            ) =~= view_entries(d@).subrange(i + 1, d@.len() as int));
        }
        i = i + 1;
    }
    proof {
        assert(view_entries(d@).subrange(d@.len() as int, d@.len() as int).len() == 0);
    }
    None
}

/// Whether a dictionary holds the key at all.
pub fn has_key_exec(d: &Vec<(Vec<u8>, Object)>, k: &Vec<u8>) -> (r: bool)
    ensures
        r == has_key(view_entries(d@), k@),
{
    dict_get_exec(d, k).is_some()
}

/// The dictionary with every entry for the key removed; other entries
/// keep their order.
pub open spec fn dict_remove(d: Seq<(Seq<u8>, ObjV)>, k: Seq<u8>) -> Seq<(Seq<u8>, ObjV)>
    decreases d.len(),
{
    if d.len() == 0 {
        Seq::empty()
    } else {
        let h = dict_remove(d.drop_last(), k);
        if d.last().0 == k {
            h
        } else {
            h.push(d.last())
        }
    }
}

/// The dictionary with the key bound to exactly this value: every earlier
/// entry for the key is removed and the new binding appended.
pub open spec fn dict_set(d: Seq<(Seq<u8>, ObjV)>, k: Seq<u8>, v: ObjV) -> Seq<(Seq<u8>, ObjV)> {
    dict_remove(d, k).push((k, v))
}

/// Removes every entry for the key, keeping the order of the rest.
pub fn dict_remove_exec(d: Vec<(Vec<u8>, Object)>, k: &Vec<u8>) -> (r: Vec<(Vec<u8>, Object)>)
    ensures
        view_entries(r@) == dict_remove(view_entries(d@), k@),
{
    proof {
        lemma_view_entries(d@);
    }
    let ghost orig = d@;
    let mut d = d;
    let mut out: Vec<(Vec<u8>, Object)> = Vec::new();
    while d.len() > 0
        invariant
            d@.len() <= orig.len(),
            d@ =~= orig.subrange(orig.len() - d@.len(), orig.len() as int),
            view_entries(out@) == dict_remove(
                view_entries(orig.subrange(0, orig.len() - d@.len())),
                k@,
            ),
        decreases d.len(),
    {
        let ghost i = orig.len() - d@.len();
        let ghost dpre = d@;
        let e = d.remove(0);
        proof {
            assert(dpre[0] == orig[i]);
            assert(d@ =~= orig.subrange(i + 1, orig.len() as int));
            assert(orig.subrange(0, i + 1).drop_last() =~= orig.subrange(0, i));
            reveal_with_fuel(view_entries, 2);
            let w = view_entries(orig.subrange(0, i + 1));
            assert(w == view_entries(orig.subrange(0, i)).push((orig[i].0@, orig[i].1@)));
            assert(w.drop_last() =~= view_entries(orig.subrange(0, i)));
        }
        let keep = !bytes_eq(&e.0, k);
        if keep {
            let ghost before = view_entries(out@);
            let ghost opre = out@;
            out.push(e);
            proof {
                reveal_with_fuel(view_entries, 2);
                assert(out@.drop_last() =~= opre);
                assert(out@.last() == e);
                assert(view_entries(out@) =~= before.push((e.0@, e.1@)));
            }
        }
    }
    proof {
        assert(orig.subrange(0, orig.len() as int) =~= orig);
    }
    out
}

/// Binds the key to exactly this value, dropping any earlier bindings.
pub fn dict_set_exec(d: Vec<(Vec<u8>, Object)>, k: Vec<u8>, v: Object) -> (r: Vec<
    (Vec<u8>, Object),
>)
    ensures
        view_entries(r@) == dict_set(view_entries(d@), k@, v@),
{
    let mut out = dict_remove_exec(d, &k);
    let ghost before = view_entries(out@);
    let ghost opre = out@;
    let ghost kv = k@;
    let ghost vv = v@;
    out.push((k, v));
    proof {
        reveal_with_fuel(view_entries, 2);
        assert(out@.drop_last() =~= opre);
        assert(view_entries(out@) =~= before.push((kv, vv)));
    }
    out
}

/// Extends a dictionary with the entries of a second one under first-wins
/// precedence: an entry of the second dictionary is appended only when its
/// key is not already bound.
pub open spec fn dict_extend_fw(
    d1: Seq<(Seq<u8>, ObjV)>,
    d2: Seq<(Seq<u8>, ObjV)>,
) -> Seq<(Seq<u8>, ObjV)>
    decreases d2.len(),
{
    if d2.len() == 0 {
        d1
    } else {
        let h = dict_extend_fw(d1, d2.drop_last());
        if has_key(h, d2.last().0) {
            h
        } else {
            h.push(d2.last())
        }
    }
}

/// Merges a later dictionary into an earlier one with first-wins precedence.
pub fn dict_extend_fw_exec(d1: Vec<(Vec<u8>, Object)>, d2: Vec<(Vec<u8>, Object)>) -> (r: Vec<
    (Vec<u8>, Object),
>)
    ensures
        view_entries(r@) == dict_extend_fw(view_entries(d1@), view_entries(d2@)),
{
    proof {
        lemma_view_entries(d2@);
    }
    let ghost orig = d2@;
    let ghost base = view_entries(d1@);
    let mut d2 = d2;
    let mut out = d1;
    while d2.len() > 0
        invariant
            d2@.len() <= orig.len(),
            d2@ =~= orig.subrange(orig.len() - d2@.len(), orig.len() as int),
            view_entries(out@) == dict_extend_fw(
                base,
                view_entries(orig.subrange(0, orig.len() - d2@.len())),
            ),
        decreases d2.len(),
    {
        let ghost i = orig.len() - d2@.len();
        let ghost dpre = d2@;
        let e = d2.remove(0);
        proof {
            assert(dpre[0] == orig[i]);
            assert(d2@ =~= orig.subrange(i + 1, orig.len() as int));
            assert(orig.subrange(0, i + 1).drop_last() =~= orig.subrange(0, i));
            reveal_with_fuel(view_entries, 2);
            let w = view_entries(orig.subrange(0, i + 1));
            assert(w == view_entries(orig.subrange(0, i)).push((orig[i].0@, orig[i].1@)));
            assert(w.drop_last() =~= view_entries(orig.subrange(0, i)));
        }
        if !has_key_exec(&out, &e.0) {
            let ghost before = view_entries(out@);
            let ghost opre = out@;
            out.push(e);
            proof {
                reveal_with_fuel(view_entries, 2);
                assert(out@.drop_last() =~= opre);
                assert(out@.last() == e);
                assert(view_entries(out@) =~= before.push((e.0@, e.1@)));
            }
        }
    }
    proof {
        assert(orig.subrange(0, orig.len() as int) =~= orig);
    }
    out
}

/// The dictionary carried by an object: a dictionary's own entries, a
/// stream's dictionary, nothing otherwise.
pub open spec fn dict_of(o: ObjV) -> Option<Seq<(Seq<u8>, ObjV)>> {
    match o {
        ObjV::Dictionary(d) => Some(d),
        ObjV::Stream(d, _) => Some(d),
        _ => None,
    }
}

/// The role a dictionary's "Type" name declares; unclassifiable
/// dictionaries fall into `Other`.
pub open spec fn role_of_dict(d: Seq<(Seq<u8>, ObjV)>) -> Role {
    match dict_get(d, nm(NameTag::TypeKey)) {
        Some(ObjV::Name(n)) => if n == nm(NameTag::CatalogName) {
            Role::Catalog
        } else if n == nm(NameTag::PagesName) {
            Role::Pages
        } else if n == nm(NameTag::PageName) {
            Role::Page
        } else if n == nm(NameTag::OutlinesName) {
            Role::Outlines
        } else if n == nm(NameTag::OutlineName) {
            Role::Outline
        } else {
            Role::Other
        },
        _ => Role::Other,
    }
}

/// The structural role of an object: dictionaries and streams are
/// classified by their "Type" name, everything else is `Other`.
pub open spec fn role_of(o: ObjV) -> Role {
    match dict_of(o) {
        Some(d) => role_of_dict(d),
        None => Role::Other,
    }
}

/// Classifies a dictionary by its "Type" name.
fn classify_dict(d: &Vec<(Vec<u8>, Object)>) -> (r: Role)
    ensures
        r == role_of_dict(view_entries(d@)),
{
    let type_key = name_bytes(NameTag::TypeKey);
    match dict_get_exec(d, &type_key) {
        Some(Object::Name(n)) => {
            if bytes_eq(n, &name_bytes(NameTag::CatalogName)) {
                Role::Catalog
            } else if bytes_eq(n, &name_bytes(NameTag::PagesName)) {
                Role::Pages
            } else if bytes_eq(n, &name_bytes(NameTag::PageName)) {
                Role::Page
            } else if bytes_eq(n, &name_bytes(NameTag::OutlinesName)) {
                Role::Outlines
            } else if bytes_eq(n, &name_bytes(NameTag::OutlineName)) {
                Role::Outline
            } else {
                Role::Other
            }
        }
        _ => Role::Other,
    }
}

/// Computes an object's structural role once, for use by every later stage.
pub fn classify(o: &Object) -> (r: Role)
    ensures
        r == role_of(o@),
{
    match o {
        Object::Dictionary(d) => classify_dict(d),
        Object::Stream(d, _) => classify_dict(d),
        _ => Role::Other,
    }
}

} // verus!
