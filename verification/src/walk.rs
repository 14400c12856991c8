//! The page-tree walk: a document's pages in reading order, found by
//! following its catalog's Pages reference and expanding each Kids array
//! depth-first.  A fuel bound equal to the table size guards against
//! cyclic Kids chains, which a malformed input could otherwise turn into
//! an unbounded walk.

use vstd::prelude::*;
use crate::object::{Object, ObjV, ObjectId, NameTag, Role, nm, name_bytes, role_of, dict_of,
    dict_get, dict_get_exec, classify, view_objs, view_entries, lemma_view_objs};
use crate::graph::view_id_entries;

verus! {

broadcast use vstd::std_specs::vec::group_vec_axioms, vstd::seq::group_seq_axioms;

/// Looks up an identifier in an object table: the first matching entry
/// wins.
pub open spec fn table_get(s: Seq<(ObjectId, ObjV)>, id: ObjectId) -> Option<ObjV>
    decreases s.len(),
{
    if s.len() == 0 {
        None
    } else if s[0].0 == id {
        Some(s[0].1)
    } else {
        table_get(s.subrange(1, s.len() as int), id)
    }
}

/// A found entry is one of the table's entries.
pub proof fn lemma_table_get_element(s: Seq<(ObjectId, ObjV)>, id: ObjectId)
    requires
        table_get(s, id) is Some,
    ensures
        exists|i: int|
            0 <= i < s.len() && #[trigger] s[i] == (id, table_get(s, id)->Some_0),
    decreases s.len(),
{
    if s.len() > 0 {
        if s[0].0 == id {
            assert(s[0] == (id, table_get(s, id)->Some_0));
        } else {
            lemma_table_get_element(s.subrange(1, s.len() as int), id);
            let i = choose|i: int|
                0 <= i < s.len() - 1 && #[trigger] s.subrange(1, s.len() as int)[i] == (
                    id,
                    table_get(s, id)->Some_0,
                );
            assert(s[i + 1] == (id, table_get(s, id)->Some_0));
        }
    }
}

/// Looks up an identifier in an object table.
#[verifier::loop_isolation(false)]
pub fn table_get_exec<'a>(s: &'a Vec<(ObjectId, Object)>, id: ObjectId) -> (r: Option<
    &'a Object,
>)
    ensures
        match r {
            Some(o) => table_get(view_id_entries(s@), id) == Some(o@),
            None => table_get(view_id_entries(s@), id) is None,
        },
{
    let ghost sv = view_id_entries(s@);
    proof {
        assert(sv.subrange(0, sv.len() as int) =~= sv);
    }
    let mut i: usize = 0;
    while i < s.len()
        invariant
            0 <= i <= s@.len(),
            sv.len() == s@.len(),
            table_get(sv, id) == table_get(sv.subrange(i as int, sv.len() as int), id),
        decreases s.len() - i,
    {
        if s[i].0 == id {
            proof {
                assert(sv.subrange(i as int, sv.len() as int)[0] == sv[i as int]);
            }
            return Some(&s[i].1);
        }
        proof {
            assert(sv.subrange(i as int, sv.len() as int).subrange(1, sv.len() - i) =~= sv.subrange(
                i + 1,
                sv.len() as int,
            ));
        }
        i = i + 1;
    }
    None
}

/// The identifiers an array's Reference elements name, in order; other
/// elements are passed over.
pub open spec fn refs_only(elems: Seq<ObjV>) -> Seq<ObjectId>
    decreases elems.len(),
{
    if elems.len() == 0 {
        Seq::empty()
    } else {
        let head = refs_only(elems.drop_last());
        match elems.last() {
            ObjV::Reference(id) => head.push(id),
            _ => head,
        }
    }
}

/// The identifiers a node's Kids array references, in order.
pub open spec fn kid_refs_of(o: ObjV) -> Seq<ObjectId> {
    match dict_of(o) {
        Some(d) => match dict_get(d, nm(NameTag::KidsKey)) {
            Some(ObjV::Array(elems)) => refs_only(elems),
            _ => Seq::empty(),
        },
        None => Seq::empty(),
    }
}

/// Extracts the identifiers a node's Kids array references.
#[verifier::loop_isolation(false)]
pub fn kid_refs_exec(o: &Object) -> (r: Vec<ObjectId>)
    ensures
        r@ == kid_refs_of(o@),
{
    let mut out: Vec<ObjectId> = Vec::new();
    let kids_key = name_bytes(NameTag::KidsKey);
    let elems: &Vec<Object> = match o {
        Object::Dictionary(d) => {
            proof {
                assert(o@ == ObjV::Dictionary(view_entries(d@)));
            }
            match dict_get_exec(d, &kids_key) {
                Some(Object::Array(v)) => v,
                _ => {
                    return out;
                }
            }
        }
        Object::Stream(d, p) => {
            proof {
                assert(o@ == ObjV::Stream(view_entries(d@), p@));
            }
            match dict_get_exec(d, &kids_key) {
                Some(Object::Array(v)) => v,
                _ => {
                    return out;
                }
            }
        }
        _ => {
            proof {
                assert(dict_of(o@) is None) by {
                    match o {
                        Object::Null => {
                            assert(o@ == ObjV::Null);
                        }
                        Object::Boolean(x) => {
                            assert(o@ == ObjV::Boolean(*x));
                        }
                        Object::Integer(x) => {
                            assert(o@ == ObjV::Integer(*x));
                        }
                        Object::Real(x) => {
                            assert(o@ == ObjV::Real(*x));
                        }
                        Object::Text(t) => {
                            assert(o@ == ObjV::Text(t@));
                        }
                        Object::Name(n) => {
                            assert(o@ == ObjV::Name(n@));
                        }
                        Object::Array(v) => {
                            assert(o@ == ObjV::Array(view_objs(v@)));
                        }
                        Object::Reference(id) => {
                            assert(o@ == ObjV::Reference(*id));
                        }
                        _ => {
                            assert(false);
                        }
                    }
                }
            }
            return out;
        }
    };
    proof {
        lemma_view_objs(elems@);
    }
    let ghost ev = view_objs(elems@);
    let mut j: usize = 0;
    while j < elems.len()
        invariant
            0 <= j <= elems@.len(),
            ev.len() == elems@.len(),
            out@ =~= refs_only(ev.take(j as int)),
        decreases elems.len() - j,
    {
        proof {
            assert(ev.take(j + 1).drop_last() =~= ev.take(j as int));
            assert(ev.take(j + 1).last() == ev[j as int]);
            assert(ev[j as int] == elems@[j as int]@);
        }
        match &elems[j] {
            Object::Reference(id) => {
                out.push(*id);
            }
            other => {
                proof {
                    assert(!(ev[j as int] is Reference)) by {
                        match other {
                            Object::Null => {
                                assert(other@ == ObjV::Null);
                            }
                            Object::Boolean(x) => {
                                assert(other@ == ObjV::Boolean(*x));
                            }
                            Object::Integer(x) => {
                                assert(other@ == ObjV::Integer(*x));
                            }
                            Object::Real(x) => {
                                assert(other@ == ObjV::Real(*x));
                            }
                            Object::Text(t) => {
                                assert(other@ == ObjV::Text(t@));
                            }
                            Object::Name(n) => {
                                assert(other@ == ObjV::Name(n@));
                            }
                            Object::Array(v) => {
                                assert(other@ == ObjV::Array(view_objs(v@)));
                            }
                            Object::Dictionary(d) => {
                                assert(other@ == ObjV::Dictionary(view_entries(d@)));
                            }
                            Object::Stream(d, p) => {
                                assert(other@ == ObjV::Stream(view_entries(d@), p@));
                            }
                            _ => {
                                assert(false);
                            }
                        }
                    }
                }
            }
        }
        j = j + 1;
    }
    proof {
        assert(ev.take(ev.len() as int) =~= ev);
    }
    out
}

/// The pages reachable from one node, depth-first and in Kids order: a
/// page-classified object is emitted, a pages-classified node is expanded
/// while fuel remains, anything else ends that branch.
pub open spec fn walk_node(s: Seq<(ObjectId, ObjV)>, id: ObjectId, fuel: nat) -> Seq<ObjectId>
    decreases fuel, 0int, 1int,
{
    match table_get(s, id) {
        Some(o) => if role_of(o) == Role::Page {
            seq![id]
        } else if role_of(o) == Role::Pages {
            if fuel == 0 {
                Seq::empty()
            } else {
                walk_list(s, kid_refs_of(o), (fuel - 1) as nat)
            }
        } else {
            Seq::empty()
        },
        None => Seq::empty(),
    }
}

/// The pages reachable from a list of kid references, in order.
pub open spec fn walk_list(s: Seq<(ObjectId, ObjV)>, ids: Seq<ObjectId>, fuel: nat) -> Seq<
    ObjectId,
>
    decreases fuel, ids.len(), 0int,
{
    if ids.len() == 0 {
        Seq::empty()
    } else {
        walk_list(s, ids.drop_last(), fuel) + walk_node(s, ids.last(), fuel)
    }
}

/// Every identifier the walk emits names a page-classified table entry.
pub proof fn lemma_walk_node_pages(s: Seq<(ObjectId, ObjV)>, id: ObjectId, fuel: nat)
    ensures
        forall|x: int|
            0 <= x < walk_node(s, id, fuel).len() ==> {
                let w = #[trigger] walk_node(s, id, fuel)[x];
                table_get(s, w) is Some && role_of(table_get(s, w)->Some_0) == Role::Page
            },
    decreases fuel, 0int, 1int,
{
    match table_get(s, id) {
        Some(o) => {
            if role_of(o) == Role::Pages && fuel > 0 {
                lemma_walk_list_pages(s, kid_refs_of(o), (fuel - 1) as nat);
            }
        }
        None => {}
    }
}

pub proof fn lemma_walk_list_pages(s: Seq<(ObjectId, ObjV)>, ids: Seq<ObjectId>, fuel: nat)
    ensures
        forall|x: int|
            0 <= x < walk_list(s, ids, fuel).len() ==> {
                let w = #[trigger] walk_list(s, ids, fuel)[x];
                table_get(s, w) is Some && role_of(table_get(s, w)->Some_0) == Role::Page
            },
    decreases fuel, ids.len(), 0int,
{
    if ids.len() > 0 {
        lemma_walk_list_pages(s, ids.drop_last(), fuel);
        lemma_walk_node_pages(s, ids.last(), fuel);
    }
}

/// The first catalog-classified entry's Pages reference, when there is
/// one: the root of the document's page tree.
pub open spec fn root_pages_ref(s: Seq<(ObjectId, ObjV)>) -> Option<ObjectId>
    decreases s.len(),
{
    if s.len() == 0 {
        None
    } else if role_of(s[0].1) == Role::Catalog {
        match dict_get(dict_of(s[0].1)->Some_0, nm(NameTag::PagesName)) {
            Some(ObjV::Reference(pid)) => Some(pid),
            _ => None,
        }
    } else {
        root_pages_ref(s.subrange(1, s.len() as int))
    }
}

/// A document's pages in its own page order: the walk of its page tree
/// from the first catalog's Pages reference; a document without a catalog
/// or without such a reference contributes no pages.
pub open spec fn page_id_order(s: Seq<(ObjectId, ObjV)>) -> Seq<ObjectId> {
    match root_pages_ref(s) {
        Some(pid) => walk_node(s, pid, s.len() as nat),
        None => Seq::empty(),
    }
}

pub proof fn lemma_page_order_pages(s: Seq<(ObjectId, ObjV)>)
    ensures
        forall|x: int|
            0 <= x < page_id_order(s).len() ==> {
                let w = #[trigger] page_id_order(s)[x];
                table_get(s, w) is Some && role_of(table_get(s, w)->Some_0) == Role::Page
            },
{
    match root_pages_ref(s) {
        Some(pid) => {
            lemma_walk_node_pages(s, pid, s.len() as nat);
        }
        None => {}
    }
}

/// Emits the pages reachable from one node, depth-first.
#[verifier::loop_isolation(false)]
pub fn walk_node_exec(
    s: &Vec<(ObjectId, Object)>,
    id: ObjectId,
    fuel: u64,
    out: &mut Vec<ObjectId>,
)
    ensures
        final(out)@ == old(out)@ + walk_node(view_id_entries(s@), id, fuel as nat),
    decreases fuel, 0int,
{
    let ghost sv = view_id_entries(s@);
    let ghost base = out@;
    match table_get_exec(s, id) {
        Some(o) => {
            let role = classify(o);
            if role == Role::Page {
                out.push(id);
                proof {
                    assert(out@ =~= base + seq![id]);
                }
            } else if role == Role::Pages {
                if fuel > 0 {
                    let kid_ids = kid_refs_exec(o);
                    let ghost kv = kid_ids@;
                    let mut j: usize = 0;
                    proof {
                        assert(base + walk_list(sv, kv.take(0), (fuel - 1) as nat) =~= base);
                    }
                    while j < kid_ids.len()
                        invariant
                            0 <= j <= kv.len(),
                            kid_ids@ == kv,
                            out@ == base + walk_list(sv, kv.take(j as int), (fuel - 1) as nat),
                        decreases kid_ids.len() - j,
                    {
                        proof {
                            assert(kv.take(j + 1).drop_last() =~= kv.take(j as int));
                            assert(kv.take(j + 1).last() == kv[j as int]);
                        }
                        walk_node_exec(s, kid_ids[j], fuel - 1, out);
                        proof {
                            assert(out@ =~= base + walk_list(sv, kv.take(j + 1), (fuel - 1) as nat));
                        }
                        j = j + 1;
                    }
                    proof {
                        assert(kv.take(kv.len() as int) =~= kv);
                    }
                } else {
                    proof {
                        assert(out@ =~= base + walk_node(sv, id, fuel as nat));
                    }
                }
            } else {
                proof {
                    assert(out@ =~= base + walk_node(sv, id, fuel as nat));
                }
            }
        }
        None => {
            proof {
                assert(out@ =~= base + walk_node(sv, id, fuel as nat));
            }
        }
    }
    proof {
        assert(out@ =~= base + walk_node(sv, id, fuel as nat));
    }
}

/// The pages reference of the first catalog in the table.
#[verifier::loop_isolation(false)]
fn root_pages_exec(s: &Vec<(ObjectId, Object)>) -> (r: Option<ObjectId>)
    ensures
        r == root_pages_ref(view_id_entries(s@)),
{
    let ghost sv = view_id_entries(s@);
    proof {
        assert(sv.subrange(0, sv.len() as int) =~= sv);
    }
    let pages_key = name_bytes(NameTag::PagesName);
    let mut i: usize = 0;
    while i < s.len()
        invariant
            0 <= i <= s@.len(),
            sv.len() == s@.len(),
            root_pages_ref(sv) == root_pages_ref(sv.subrange(i as int, sv.len() as int)),
        decreases s.len() - i,
    {
        proof {
            assert(sv.subrange(i as int, sv.len() as int)[0] == sv[i as int]);
        }
        let role = classify(&s[i].1);
        if role == Role::Catalog {
            let d: &Vec<(Vec<u8>, Object)> = match &s[i].1 {
                Object::Dictionary(d) => {
                    proof {
                        assert(s[i as int].1@ == ObjV::Dictionary(view_entries(d@)));
                    }
                    d
                }
                Object::Stream(d, p) => {
                    proof {
                        assert(s[i as int].1@ == ObjV::Stream(view_entries(d@), p@));
                    }
                    d
                }
                _ => {
                    proof {
                        assert(false);
                    }
                    return None;
                }
            };
            match dict_get_exec(d, &pages_key) {
                Some(Object::Reference(pid)) => {
                    return Some(*pid);
                }
                Some(other) => {
                    proof {
                        assert(!(dict_get(view_entries(d@), nm(NameTag::PagesName))->Some_0
                            is Reference)) by {
                            match other {
                                Object::Null => {
                                    assert(other@ == ObjV::Null);
                                }
                                Object::Boolean(x) => {
                                    assert(other@ == ObjV::Boolean(*x));
                                }
                                Object::Integer(x) => {
                                    assert(other@ == ObjV::Integer(*x));
                                }
                                Object::Real(x) => {
                                    assert(other@ == ObjV::Real(*x));
                                }
                                Object::Text(t) => {
                                    assert(other@ == ObjV::Text(t@));
                                }
                                Object::Name(n) => {
                                    assert(other@ == ObjV::Name(n@));
                                }
                                Object::Array(v) => {
                                    assert(other@ == ObjV::Array(view_objs(v@)));
                                }
                                Object::Dictionary(dd) => {
                                    assert(other@ == ObjV::Dictionary(view_entries(dd@)));
                                }
                                Object::Stream(dd, p) => {
                                    assert(other@ == ObjV::Stream(view_entries(dd@), p@));
                                }
                                _ => {
                                    assert(false);
                                }
                            }
                        }
                    }
                    return None;
                }
                None => {
                    return None;
                }
            }
        }
        proof {
            assert(sv.subrange(i as int, sv.len() as int).subrange(1, sv.len() - i) =~= sv.subrange(
                i + 1,
                sv.len() as int,
            ));
        }
        i = i + 1;
    }
    None
}

/// A document's pages in its own page order.
pub fn page_id_order_exec(s: &Vec<(ObjectId, Object)>) -> (r: Vec<ObjectId>)
    ensures
        r@ == page_id_order(view_id_entries(s@)),
{
    let mut out: Vec<ObjectId> = Vec::new();
    match root_pages_exec(s) {
        Some(pid) => {
            proof {
                assert(view_id_entries(s@).len() == s@.len());
            }
            walk_node_exec(s, pid, s.len() as u64, &mut out);
            proof {
                assert(out@ =~= page_id_order(view_id_entries(s@)));
            }
        }
        None => {
            proof {
                assert(out@ =~= page_id_order(view_id_entries(s@)));
            }
        }
    }
    out
}

} // verus!
