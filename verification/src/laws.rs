//! The stated laws of the merge, proved against the pipeline's model.

use vstd::prelude::*;
use crate::object::{ObjV, ObjectId, NameTag, Role, nm, role_of, role_of_dict, dict_of, dict_get,
    dict_remove, dict_set, dict_extend_fw, has_key};
use crate::graph::GraphV;
use crate::relabel::{RelabelV, apply_relabel, map_ids, map_objs, map_entries};
use crate::merge::{CollectV, MergeError, collect_entries, collect_doc, collect_all, merge_spec,
    assemble, reparent, compact_spec, pool_pairs};
use crate::walk::{table_get, page_id_order, lemma_page_order_pages, lemma_table_get_element};
use crate::outline::{BookmarkV, title_rep, adjust_zero, outline_entries};

verus! {

broadcast use vstd::std_specs::vec::group_vec_axioms, vstd::seq::group_seq_axioms;

pub proof fn lemma_dict_get_push(s: Seq<(Seq<u8>, ObjV)>, e: (Seq<u8>, ObjV), k: Seq<u8>)
    ensures
        dict_get(s.push(e), k) == (if dict_get(s, k) is Some {
            dict_get(s, k)
        } else if e.0 == k {
            Some(e.1)
        } else {
            None
        }),
    decreases s.len(),
{
    reveal_with_fuel(dict_get, 3);
    if s.len() == 0 {
        assert(s.push(e)[0] == e);
        assert(s.push(e).subrange(1, 1) =~= Seq::<(Seq<u8>, ObjV)>::empty());
    } else {
        assert(s.push(e)[0] == s[0]);
        assert(s.push(e).subrange(1, s.len() as int + 1) =~= s.subrange(1, s.len() as int).push(e));
        lemma_dict_get_push(s.subrange(1, s.len() as int), e, k);
    }
}

pub proof fn lemma_dict_get_remove(d: Seq<(Seq<u8>, ObjV)>, k: Seq<u8>)
    ensures
        dict_get(dict_remove(d, k), k) is None,
    decreases d.len(),
{
    if d.len() > 0 {
        lemma_dict_get_remove(d.drop_last(), k);
        if d.last().0 != k {
            lemma_dict_get_push(dict_remove(d.drop_last(), k), d.last(), k);
        }
    }
}

pub proof fn lemma_dict_get_remove_other(d: Seq<(Seq<u8>, ObjV)>, k: Seq<u8>, k2: Seq<u8>)
    requires
        k2 != k,
    ensures
        dict_get(dict_remove(d, k), k2) == dict_get(d, k2),
    decreases d.len(),
{
    if d.len() > 0 {
        lemma_dict_get_remove_other(d.drop_last(), k, k2);
        lemma_dict_get_push(d.drop_last(), d.last(), k2);
        if d.last().0 != k {
            lemma_dict_get_push(dict_remove(d.drop_last(), k), d.last(), k2);
        }
        assert(d.drop_last().push(d.last()) =~= d);
    }
}

pub proof fn lemma_dict_get_set_same(d: Seq<(Seq<u8>, ObjV)>, k: Seq<u8>, v: ObjV)
    ensures
        dict_get(dict_set(d, k, v), k) == Some(v),
{
    lemma_dict_get_remove(d, k);
    lemma_dict_get_push(dict_remove(d, k), (k, v), k);
}

pub proof fn lemma_dict_get_set_other(d: Seq<(Seq<u8>, ObjV)>, k: Seq<u8>, v: ObjV, k2: Seq<u8>)
    requires
        k2 != k,
    ensures
        dict_get(dict_set(d, k, v), k2) == dict_get(d, k2),
{
    lemma_dict_get_remove_other(d, k, k2);
    lemma_dict_get_push(dict_remove(d, k), (k, v), k2);
}

/// First-wins extension never changes a key the base dictionary holds.
pub proof fn lemma_dict_get_fw_first(d1: Seq<(Seq<u8>, ObjV)>, d2: Seq<(Seq<u8>, ObjV)>, k: Seq<u8>)
    requires
        has_key(d1, k),
    ensures
        dict_get(dict_extend_fw(d1, d2), k) == dict_get(d1, k),
    decreases d2.len(),
{
    if d2.len() > 0 {
        lemma_dict_get_fw_first(d1, d2.drop_last(), k);
        let h = dict_extend_fw(d1, d2.drop_last());
        if !has_key(h, d2.last().0) {
            lemma_dict_get_push(h, d2.last(), k);
        }
    }
}

pub proof fn lemma_map_entries_get(d: Seq<(Seq<u8>, ObjV)>, r: RelabelV, k: Seq<u8>)
    ensures
        dict_get(map_entries(d, r), k) == match dict_get(d, k) {
            Some(v) => Some(map_ids(v, r)),
            None => None,
        },
    decreases d.len(),
{
    if d.len() > 0 {
        lemma_map_entries_get(d.drop_last(), r, k);
        assert(map_entries(d, r) == map_entries(d.drop_last(), r).push(
            (d.last().0, map_ids(d.last().1, r)),
        ));
        lemma_dict_get_push(map_entries(d.drop_last(), r), (d.last().0, map_ids(d.last().1, r)), k);
        lemma_dict_get_push(d.drop_last(), d.last(), k);
        assert(d.drop_last().push(d.last()) =~= d);
    }
}

/// Relabelling keeps every object's structural role.
pub proof fn lemma_role_map(o: ObjV, r: RelabelV)
    ensures
        role_of(map_ids(o, r)) == role_of(o),
{
    match o {
        ObjV::Dictionary(d) => {
            assert(map_ids(o, r) == ObjV::Dictionary(map_entries(d, r)));
            lemma_map_entries_get(d, r, nm(NameTag::TypeKey));
            match dict_get(d, nm(NameTag::TypeKey)) {
                Some(v) => {
                    match v {
                        ObjV::Name(n) => {
                            assert(map_ids(v, r) == ObjV::Name(n));
                        }
                        ObjV::Null => { assert(map_ids(v, r) == ObjV::Null); }
                        ObjV::Boolean(x) => { assert(map_ids(v, r) == ObjV::Boolean(x)); }
                        ObjV::Integer(x) => { assert(map_ids(v, r) == ObjV::Integer(x)); }
                        ObjV::Real(x) => { assert(map_ids(v, r) == ObjV::Real(x)); }
                        ObjV::Text(t) => { assert(map_ids(v, r) == ObjV::Text(t)); }
                        ObjV::Array(s) => { assert(map_ids(v, r) == ObjV::Array(map_objs(s, r))); }
                        ObjV::Dictionary(dd) => {
                            assert(map_ids(v, r) == ObjV::Dictionary(map_entries(dd, r)));
                        }
                        ObjV::Stream(dd, p) => {
                            assert(map_ids(v, r) == ObjV::Stream(map_entries(dd, r), p));
                        }
                        ObjV::Reference(id) => {
                            assert(map_ids(v, r) == ObjV::Reference(apply_relabel(r, id)));
                        }
                    }
                }
                None => {}
            }
        }
        ObjV::Stream(d, p) => {
            assert(map_ids(o, r) == ObjV::Stream(map_entries(d, r), p));
            lemma_map_entries_get(d, r, nm(NameTag::TypeKey));
            match dict_get(d, nm(NameTag::TypeKey)) {
                Some(v) => {
                    match v {
                        ObjV::Name(n) => {
                            assert(map_ids(v, r) == ObjV::Name(n));
                        }
                        ObjV::Null => { assert(map_ids(v, r) == ObjV::Null); }
                        ObjV::Boolean(x) => { assert(map_ids(v, r) == ObjV::Boolean(x)); }
                        ObjV::Integer(x) => { assert(map_ids(v, r) == ObjV::Integer(x)); }
                        ObjV::Real(x) => { assert(map_ids(v, r) == ObjV::Real(x)); }
                        ObjV::Text(t) => { assert(map_ids(v, r) == ObjV::Text(t)); }
                        ObjV::Array(s) => { assert(map_ids(v, r) == ObjV::Array(map_objs(s, r))); }
                        ObjV::Dictionary(dd) => {
                            assert(map_ids(v, r) == ObjV::Dictionary(map_entries(dd, r)));
                        }
                        ObjV::Stream(dd, pp) => {
                            assert(map_ids(v, r) == ObjV::Stream(map_entries(dd, r), pp));
                        }
                        ObjV::Reference(id) => {
                            assert(map_ids(v, r) == ObjV::Reference(apply_relabel(r, id)));
                        }
                    }
                }
                None => {}
            }
        }
        ObjV::Null => { assert(map_ids(o, r) == ObjV::Null); }
        ObjV::Boolean(x) => { assert(map_ids(o, r) == ObjV::Boolean(x)); }
        ObjV::Integer(x) => { assert(map_ids(o, r) == ObjV::Integer(x)); }
        ObjV::Real(x) => { assert(map_ids(o, r) == ObjV::Real(x)); }
        ObjV::Text(t) => { assert(map_ids(o, r) == ObjV::Text(t)); }
        ObjV::Name(n) => { assert(map_ids(o, r) == ObjV::Name(n)); }
        ObjV::Array(s) => { assert(map_ids(o, r) == ObjV::Array(map_objs(s, r))); }
        ObjV::Reference(id) => { assert(map_ids(o, r) == ObjV::Reference(apply_relabel(r, id))); }
    }
}

/// A document's pages, identifiers and objects, in its own page order.
pub open spec fn document_pages(s: Seq<(ObjectId, ObjV)>) -> Seq<(ObjectId, ObjV)> {
    let ord = page_id_order(s);
    Seq::new(ord.len(), |i: int| (ord[i], table_get(s, ord[i])->Some_0))
}

/// How many pages a document's page tree lists.
pub open spec fn page_count(s: Seq<(ObjectId, ObjV)>) -> int {
    page_id_order(s).len() as int
}

/// The sum of the inputs' page counts.
pub open spec fn sum_pages(ds: Seq<GraphV>) -> int
    decreases ds.len(),
{
    if ds.len() == 0 {
        0
    } else {
        sum_pages(ds.drop_last()) + page_count(ds.last().objects)
    }
}

/// The concatenation of each input's renumbered page entries, in
/// input-traversal order.
pub open spec fn pools_in_order(ds: Seq<GraphV>) -> Seq<(ObjectId, ObjV)>
    decreases ds.len(),
{
    if ds.len() == 0 {
        Seq::empty()
    } else {
        pools_in_order(ds.drop_last()) + pool_pairs(
            ds.last().objects,
            RelabelV::Shift(collect_all(ds.drop_last()).next_base as u64),
        )
    }
}

/// The pool is the concatenation of each input's renumbered page entries,
/// in input-traversal order, and its size is the sum of the inputs' page
/// counts.
pub proof fn lemma_merge_page_concatenation(ds: Seq<GraphV>)
    ensures
        collect_all(ds).pool == pools_in_order(ds),
        collect_all(ds).pool.len() == sum_pages(ds),
    decreases ds.len(),
{
    if ds.len() == 0 {
        assert(collect_all(ds).pool =~= pools_in_order(ds));
    } else {
        lemma_merge_page_concatenation(ds.drop_last());
        let st = collect_all(ds.drop_last());
        let g = ds.last();
        let r = RelabelV::Shift(st.next_base as u64);
        crate::merge::lemma_collect_entries_frame(st, g.objects, r);
        assert(collect_all(ds).pool == st.pool + pool_pairs(g.objects, r));
    }
}

/// No input holds a Pages-classified object.
pub open spec fn no_pages(ds: Seq<GraphV>) -> bool {
    forall|i: int, j: int|
        0 <= i < ds.len() && 0 <= j < ds[i].objects.len() ==> role_of(
            (#[trigger] ds[i].objects[j]).1,
        ) != Role::Pages
}

/// No input holds a Catalog-classified object.
pub open spec fn no_catalog(ds: Seq<GraphV>) -> bool {
    forall|i: int, j: int|
        0 <= i < ds.len() && 0 <= j < ds[i].objects.len() ==> role_of(
            (#[trigger] ds[i].objects[j]).1,
        ) != Role::Catalog
}

pub proof fn lemma_entries_pages_none(st: CollectV, s: Seq<(ObjectId, ObjV)>, r: RelabelV)
    ensures
        collect_entries(st, s, r).pages is None <==> (st.pages is None && forall|j: int|
            0 <= j < s.len() ==> role_of((#[trigger] s[j]).1) != Role::Pages),
    decreases s.len(),
{
    if s.len() > 0 {
        lemma_entries_pages_none(st, s.drop_last(), r);
        lemma_role_map(s.last().1, r);
        assert(s.last() == s[s.len() - 1]);
        assert forall|j: int| 0 <= j < s.len() - 1 implies s.drop_last()[j] == s[j] by {}
    }
}

pub proof fn lemma_entries_catalog_none(st: CollectV, s: Seq<(ObjectId, ObjV)>, r: RelabelV)
    ensures
        collect_entries(st, s, r).catalog is None <==> (st.catalog is None && forall|j: int|
            0 <= j < s.len() ==> role_of((#[trigger] s[j]).1) != Role::Catalog),
    decreases s.len(),
{
    if s.len() > 0 {
        lemma_entries_catalog_none(st, s.drop_last(), r);
        lemma_role_map(s.last().1, r);
        assert(s.last() == s[s.len() - 1]);
        assert forall|j: int| 0 <= j < s.len() - 1 implies s.drop_last()[j] == s[j] by {}
    }
}

pub proof fn lemma_collect_all_pages_none(ds: Seq<GraphV>)
    ensures
        collect_all(ds).pages is None <==> no_pages(ds),
    decreases ds.len(),
{
    if ds.len() > 0 {
        lemma_collect_all_pages_none(ds.drop_last());
        let st = collect_all(ds.drop_last());
        let g = ds.last();
        let r = RelabelV::Shift(st.next_base as u64);
        lemma_entries_pages_none(st, g.objects, r);
        assert(ds.last() == ds[ds.len() - 1]);
        if collect_all(ds).pages is None {
            assert forall|i: int, j: int|
                0 <= i < ds.len() && 0 <= j < ds[i].objects.len() implies role_of(
                (#[trigger] ds[i].objects[j]).1,
            ) != Role::Pages by {
                if i < ds.len() - 1 {
                    assert(ds.drop_last()[i].objects[j] == ds[i].objects[j]);
                } else {
                    assert(g.objects[j] == ds[i].objects[j]);
                }
            }
        }
        if no_pages(ds) {
            assert forall|i: int, j: int|
                0 <= i < ds.drop_last().len() && 0 <= j < ds.drop_last()[i].objects.len()
                implies role_of((#[trigger] ds.drop_last()[i].objects[j]).1) != Role::Pages by {
                assert(ds.drop_last()[i].objects[j] == ds[i].objects[j]);
            }
            assert forall|j: int| 0 <= j < g.objects.len() implies role_of(
                (#[trigger] g.objects[j]).1,
            ) != Role::Pages by {
                assert(g.objects[j] == ds[ds.len() - 1].objects[j]);
            }
        }
    }
}

pub proof fn lemma_collect_all_catalog_none(ds: Seq<GraphV>)
    ensures
        collect_all(ds).catalog is None <==> no_catalog(ds),
    decreases ds.len(),
{
    if ds.len() > 0 {
        lemma_collect_all_catalog_none(ds.drop_last());
        let st = collect_all(ds.drop_last());
        let g = ds.last();
        let r = RelabelV::Shift(st.next_base as u64);
        lemma_entries_catalog_none(st, g.objects, r);
        assert(ds.last() == ds[ds.len() - 1]);
        if collect_all(ds).catalog is None {
            assert forall|i: int, j: int|
                0 <= i < ds.len() && 0 <= j < ds[i].objects.len() implies role_of(
                (#[trigger] ds[i].objects[j]).1,
            ) != Role::Catalog by {
                if i < ds.len() - 1 {
                    assert(ds.drop_last()[i].objects[j] == ds[i].objects[j]);
                } else {
                    assert(g.objects[j] == ds[i].objects[j]);
                }
            }
        }
        if no_catalog(ds) {
            assert forall|i: int, j: int|
                0 <= i < ds.drop_last().len() && 0 <= j < ds.drop_last()[i].objects.len()
                implies role_of((#[trigger] ds.drop_last()[i].objects[j]).1) != Role::Catalog by {
                assert(ds.drop_last()[i].objects[j] == ds[i].objects[j]);
            }
            assert forall|j: int| 0 <= j < g.objects.len() implies role_of(
                (#[trigger] g.objects[j]).1,
            ) != Role::Catalog by {
                assert(g.objects[j] == ds[ds.len() - 1].objects[j]);
            }
        }
    }
}

/// The run aborts with the distinct "Pages root not found" error exactly
/// when no input contributes a Pages-classified object; with the distinct
/// "Catalog root not found" error exactly when some input contributes a
/// Pages object but none a Catalog; and succeeds exactly when both roots
/// exist somewhere among the inputs.
pub proof fn lemma_error_conditions(ds: Seq<GraphV>)
    ensures
        (merge_spec(ds) == Err::<GraphV, MergeError>(MergeError::PagesRootNotFound)) <==> no_pages(
            ds,
        ),
        (merge_spec(ds) == Err::<GraphV, MergeError>(MergeError::CatalogRootNotFound)) <==> (
        !no_pages(ds) && no_catalog(ds)),
        (merge_spec(ds) is Ok) <==> (!no_pages(ds) && !no_catalog(ds)),
{
    lemma_collect_all_pages_none(ds);
    lemma_collect_all_catalog_none(ds);
}

/// Merging the same ordered inputs twice yields the same result graph:
/// equal inputs give equal merged graphs, page counts, and bookmark
/// sequences, equality being the strongest isomorphism.
pub proof fn lemma_merge_deterministic(ds1: Seq<GraphV>, ds2: Seq<GraphV>)
    requires
        ds1 == ds2,
    ensures
        merge_spec(ds1) == merge_spec(ds2),
{
}

/// A zero-page input with an otherwise-valid catalog and pages contributes
/// no page entries and no first-page bookmark.
pub proof fn lemma_zero_page_input(st: CollectV, g: GraphV)
    requires
        page_count(g.objects) == 0,
    ensures
        collect_doc(st, g).pool == st.pool,
        collect_doc(st, g).bookmarks == st.bookmarks,
{
    let r = RelabelV::Shift(st.next_base as u64);
    crate::merge::lemma_collect_entries_frame(st, g.objects, r);
    assert(pool_pairs(g.objects, r).len() == 0);
    assert(st.pool + pool_pairs(g.objects, r) =~= st.pool);
}

pub proof fn lemma_reparent_role(o: ObjV, pid: ObjectId)
    ensures
        role_of(reparent(o, pid)) == role_of(o),
        dict_of(o) is Some ==> dict_of(reparent(o, pid)) is Some && dict_get(
            dict_of(reparent(o, pid))->Some_0,
            nm(NameTag::ParentKey),
        ) == Some(ObjV::Reference(pid)),
{
    assert(nm(NameTag::ParentKey) != nm(NameTag::TypeKey));
    match o {
        ObjV::Dictionary(d) => {
            let d2 = dict_set(d, nm(NameTag::ParentKey), ObjV::Reference(pid));
            assert(reparent(o, pid) == ObjV::Dictionary(d2));
            lemma_dict_get_set_same(d, nm(NameTag::ParentKey), ObjV::Reference(pid));
            lemma_dict_get_set_other(
                d,
                nm(NameTag::ParentKey),
                ObjV::Reference(pid),
                nm(NameTag::TypeKey),
            );
        }
        ObjV::Stream(d, p) => {
            let d2 = dict_set(d, nm(NameTag::ParentKey), ObjV::Reference(pid));
            assert(reparent(o, pid) == ObjV::Stream(d2, p));
            lemma_dict_get_set_same(d, nm(NameTag::ParentKey), ObjV::Reference(pid));
            lemma_dict_get_set_other(
                d,
                nm(NameTag::ParentKey),
                ObjV::Reference(pid),
                nm(NameTag::TypeKey),
            );
        }
        _ => {
            assert(reparent(o, pid) == o);
        }
    }
}

pub proof fn lemma_pool_pairs_roles(s: Seq<(ObjectId, ObjV)>, r: RelabelV)
    ensures
        forall|x: int|
            0 <= x < pool_pairs(s, r).len() ==> role_of(
                (#[trigger] pool_pairs(s, r)[x]).1,
            ) == Role::Page,
{
    lemma_page_order_pages(s);
    let ord = page_id_order(s);
    assert forall|x: int|
        0 <= x < pool_pairs(s, r).len() implies role_of(
        (#[trigger] pool_pairs(s, r)[x]).1,
    ) == Role::Page by {
        assert(role_of(table_get(s, ord[x])->Some_0) == Role::Page);
        lemma_role_map(table_get(s, ord[x])->Some_0, r);
    }
}

/// Every pooled entry is page-classified.
pub proof fn lemma_collect_all_pool_roles(ds: Seq<GraphV>)
    ensures
        forall|x: int|
            0 <= x < collect_all(ds).pool.len() ==> role_of(
                (#[trigger] collect_all(ds).pool[x]).1,
            ) == Role::Page,
    decreases ds.len(),
{
    if ds.len() > 0 {
        lemma_collect_all_pool_roles(ds.drop_last());
        let st = collect_all(ds.drop_last());
        let g = ds.last();
        let r = RelabelV::Shift(st.next_base as u64);
        crate::merge::lemma_collect_entries_frame(st, g.objects, r);
        lemma_pool_pairs_roles(g.objects, r);
        assert(collect_all(ds).pool == st.pool + pool_pairs(g.objects, r));
    }
}

pub proof fn lemma_entries_others_roles(st: CollectV, s: Seq<(ObjectId, ObjV)>, r: RelabelV)
    requires
        forall|x: int|
            0 <= x < st.others.len() ==> role_of((#[trigger] st.others[x]).1) == Role::Other,
    ensures
        forall|x: int|
            0 <= x < collect_entries(st, s, r).others.len() ==> role_of(
                (#[trigger] collect_entries(st, s, r).others[x]).1,
            ) == Role::Other,
    decreases s.len(),
{
    if s.len() > 0 {
        lemma_entries_others_roles(st, s.drop_last(), r);
        lemma_role_map(s.last().1, r);
    }
}

/// Every kept non-structural entry is unclassified.
pub proof fn lemma_collect_all_others_roles(ds: Seq<GraphV>)
    ensures
        forall|x: int|
            0 <= x < collect_all(ds).others.len() ==> role_of(
                (#[trigger] collect_all(ds).others[x]).1,
            ) == Role::Other,
    decreases ds.len(),
{
    if ds.len() > 0 {
        lemma_collect_all_others_roles(ds.drop_last());
        let st = collect_all(ds.drop_last());
        lemma_entries_others_roles(st, ds.last().objects, RelabelV::Shift(st.next_base as u64));
    }
}

pub proof fn lemma_entries_candidate_roles(st: CollectV, s: Seq<(ObjectId, ObjV)>, r: RelabelV)
    requires
        st.pages matches Some(p) ==> role_of_dict(p.1) == Role::Pages,
        st.catalog matches Some(p) ==> role_of_dict(p.1) == Role::Catalog,
    ensures
        collect_entries(st, s, r).pages matches Some(p) ==> role_of_dict(p.1) == Role::Pages,
        collect_entries(st, s, r).catalog matches Some(p) ==> role_of_dict(p.1) == Role::Catalog,
    decreases s.len(),
{
    if s.len() > 0 {
        lemma_entries_candidate_roles(st, s.drop_last(), r);
        lemma_role_map(s.last().1, r);
        let stp = collect_entries(st, s.drop_last(), r);
        let o = map_ids(s.last().1, r);
        if let Some(p) = stp.pages {
            if role_of(o) == Role::Pages {
                let d2 = dict_of(o)->Some_0;
                assert(role_of_dict(p.1) == Role::Pages);
                assert(dict_get(p.1, nm(NameTag::TypeKey)) is Some);
                lemma_dict_get_fw_first(p.1, d2, nm(NameTag::TypeKey));
            }
        }
    }
}

/// The surviving pages and catalog candidates keep their declared roles.
pub proof fn lemma_collect_all_candidate_roles(ds: Seq<GraphV>)
    ensures
        collect_all(ds).pages matches Some(p) ==> role_of_dict(p.1) == Role::Pages,
        collect_all(ds).catalog matches Some(p) ==> role_of_dict(p.1) == Role::Catalog,
    decreases ds.len(),
{
    if ds.len() > 0 {
        lemma_collect_all_candidate_roles(ds.drop_last());
        let st = collect_all(ds.drop_last());
        lemma_entries_candidate_roles(st, ds.last().objects, RelabelV::Shift(st.next_base as u64));
    }
}

pub proof fn lemma_map_ids_zero(o: ObjV)
    ensures
        map_ids(o, RelabelV::Shift(0)) == o,
    decreases o,
{
    let r = RelabelV::Shift(0);
    match o {
        ObjV::Array(s) => {
            lemma_map_objs_zero(s);
        }
        ObjV::Dictionary(d) => {
            lemma_map_entries_zero(d);
        }
        ObjV::Stream(d, _) => {
            lemma_map_entries_zero(d);
        }
        ObjV::Reference(id) => {
            assert(apply_relabel(r, id) == id);
        }
        _ => {}
    }
}

pub proof fn lemma_map_objs_zero(s: Seq<ObjV>)
    ensures
        map_objs(s, RelabelV::Shift(0)) == s,
    decreases s,
{
    if s.len() > 0 {
        lemma_map_objs_zero(s.drop_last());
        lemma_map_ids_zero(s.last());
        assert(s.drop_last().push(s.last()) =~= s);
    }
}

pub proof fn lemma_map_entries_zero(d: Seq<(Seq<u8>, ObjV)>)
    ensures
        map_entries(d, RelabelV::Shift(0)) == d,
    decreases d,
{
    if d.len() > 0 {
        lemma_map_entries_zero(d.drop_last());
        lemma_map_ids_zero(d.last().1);
        assert(d.drop_last().push(d.last()) =~= d);
    }
}

pub proof fn lemma_pool_pairs_zero(s: Seq<(ObjectId, ObjV)>)
    ensures
        pool_pairs(s, RelabelV::Shift(0)) == document_pages(s),
{
    let ord = page_id_order(s);
    assert forall|i: int|
        0 <= i < ord.len() implies pool_pairs(s, RelabelV::Shift(0))[i] == document_pages(
        s,
    )[i] by {
        lemma_map_ids_zero(table_get(s, ord[i])->Some_0);
        assert(apply_relabel(RelabelV::Shift(0), ord[i]) == ord[i]);
    }
    assert(pool_pairs(s, RelabelV::Shift(0)) =~= document_pages(s));
}

/// Merging a single input is a structural passthrough: the pool is exactly
/// the input's pages, identifiers and contents untouched, in the input's
/// own page order, and exactly one bookmark is recorded when the input
/// has pages, titled for the first document and targeting its first page.
pub proof fn lemma_single_input_passthrough(g: GraphV)
    ensures
        collect_all(seq![g]).pool == document_pages(g.objects),
        document_pages(g.objects).len() > 0 ==> collect_all(seq![g]).bookmarks == seq![
            BookmarkV {
                title: title_rep(1),
                color: crate::outline::default_color(),
                indent: 0,
                target: document_pages(g.objects)[0].0,
            },
        ],
        document_pages(g.objects).len() == 0 ==> collect_all(seq![g]).bookmarks == Seq::<
            BookmarkV,
        >::empty(),
{
    let ds = seq![g];
    assert(ds.drop_last() =~= Seq::<GraphV>::empty());
    assert(ds.last() == g);
    let st = collect_all(ds.drop_last());
    assert(st == crate::merge::empty_collect());
    let r = RelabelV::Shift(0);
    assert(st.next_base as u64 == 0u64);
    lemma_pool_pairs_zero(g.objects);
    crate::merge::lemma_collect_entries_frame(st, g.objects, r);
    let st1 = collect_entries(st, g.objects, r);
    assert(st1.pool + pool_pairs(g.objects, r) =~= document_pages(g.objects));
    if document_pages(g.objects).len() > 0 {
        assert(pool_pairs(g.objects, r)[0] == document_pages(g.objects)[0]);
        assert(collect_all(ds).bookmarks =~= seq![
            BookmarkV {
                title: title_rep(1),
                color: crate::outline::default_color(),
                indent: 0,
                target: document_pages(g.objects)[0].0,
            },
        ]);
    }
}

/// Each outline entry's declared role: an item for every bookmark, the
/// root last.
proof fn lemma_outline_entry_roles(bms: Seq<BookmarkV>, base: int, y: int)
    requires
        bms.len() > 0,
        0 <= y < outline_entries(bms, base).len(),
    ensures
        role_of(outline_entries(bms, base)[y].1) == if y < bms.len() {
            Role::Outline
        } else {
            Role::Outlines
        },
{
    let ol = outline_entries(bms, base);
    let root = crate::outline::outline_root_id(base, bms.len() as int);
    reveal_with_fuel(dict_get, 2);
    if y < bms.len() {
        let d = crate::outline::outline_item_dict(bms[y], root, base, y, bms.len() as int);
        assert(ol[y].1 == ObjV::Dictionary(d));
        assert(d[0] == (nm(NameTag::TypeKey), ObjV::Name(nm(NameTag::OutlineName))));
        assert(dict_get(d, nm(NameTag::TypeKey)) == Some(ObjV::Name(nm(NameTag::OutlineName))));
        assert(nm(NameTag::OutlineName) != nm(NameTag::CatalogName)) by {
            assert(nm(NameTag::OutlineName)[0] == 79u8);
            assert(nm(NameTag::CatalogName)[0] == 67u8);
        }
        assert(nm(NameTag::OutlineName) != nm(NameTag::PagesName)) by {
            assert(nm(NameTag::OutlineName).len() == 7);
            assert(nm(NameTag::PagesName).len() == 5);
        }
        assert(nm(NameTag::OutlineName) != nm(NameTag::PageName)) by {
            assert(nm(NameTag::PageName).len() == 4);
        }
        assert(nm(NameTag::OutlineName) != nm(NameTag::OutlinesName)) by {
            assert(nm(NameTag::OutlinesName).len() == 8);
        }
        assert(role_of(ol[y].1) == Role::Outline);
    } else {
        let d = crate::outline::outline_root_dict(
            crate::outline::outline_item_id(base, 0),
            crate::outline::outline_item_id(base, bms.len() - 1),
            bms.len() as int,
        );
        assert(ol[y].1 == ObjV::Dictionary(d));
        assert(d[0] == (nm(NameTag::TypeKey), ObjV::Name(nm(NameTag::OutlinesName))));
        assert(dict_get(d, nm(NameTag::TypeKey)) == Some(ObjV::Name(nm(NameTag::OutlinesName))));
        assert(nm(NameTag::OutlinesName) != nm(NameTag::CatalogName)) by {
            assert(nm(NameTag::OutlinesName).len() == 8);
            assert(nm(NameTag::CatalogName).len() == 7);
        }
        assert(nm(NameTag::OutlinesName) != nm(NameTag::PagesName)) by {
            assert(nm(NameTag::OutlinesName).len() == 8);
            assert(nm(NameTag::PagesName).len() == 5);
        }
        assert(nm(NameTag::OutlinesName) != nm(NameTag::PageName)) by {
            assert(nm(NameTag::PageName).len() == 4);
        }
        assert(role_of(ol[y].1) == Role::Outlines);
    }
}

/// The structure of a successful merge: the merged table is the collected
/// objects, the re-parented pages in pool order, the rebuilt pages
/// dictionary, the rewired catalog, and the outline, all renamed by the
/// compaction. The pages dictionary's Count equals the number of Kids,
/// which are the pooled page identifiers in order under the compaction
/// renaming; and every page-classified object in the merged table has the
/// merged pages identifier as its Parent.
pub proof fn lemma_merged_structure(ds: Seq<GraphV>)
    requires
        merge_spec(ds) is Ok,
    ensures
        ({
            let c = collect_all(ds);
            let m = merge_spec(ds)->Ok_0;
            let rr = RelabelV::Table(crate::merge::compact_pairs(assemble(c).objects));
            let n0 = c.others.len() as int;
            let n1 = c.pool.len() as int;
            let pid = c.pages->Some_0.0;
            &&& m.objects.len() == assemble(c).objects.len()
            &&& n0 + n1 < m.objects.len()
            &&& m.objects[n0 + n1].1 matches ObjV::Dictionary(pd)
                && dict_get(pd, nm(NameTag::CountKey)) == Some(ObjV::Integer(n1 as i64))
                && (dict_get(pd, nm(NameTag::KidsKey)) matches Some(ObjV::Array(ks))
                && ks.len() == n1
                && forall|j: int| 0 <= j < n1 ==> ks[j] == ObjV::Reference(
                    apply_relabel(rr, (#[trigger] c.pool[j]).0),
                ))
            &&& forall|x: int|
                0 <= x < m.objects.len() && role_of((#[trigger] m.objects[x]).1) == Role::Page
                    ==> dict_of(m.objects[x].1) is Some && dict_get(
                    dict_of(m.objects[x].1)->Some_0,
                    nm(NameTag::ParentKey),
                ) == Some(ObjV::Reference(apply_relabel(rr, pid)))
        }),
{
    let c = collect_all(ds);
    let av = assemble(c);
    let m = merge_spec(ds)->Ok_0;
    let rr = RelabelV::Table(crate::merge::compact_pairs(av.objects));
    let n0 = c.others.len() as int;
    let n1 = c.pool.len() as int;
    let pid = c.pages->Some_0.0;
    let pdict = c.pages->Some_0.1;
    let cid = c.catalog->Some_0.0;
    let bms = adjust_zero(c.bookmarks, c.pool);
    let pool2 = Seq::new(c.pool.len(), |j: int| (c.pool[j].0, reparent(c.pool[j].1, pid)));
    let kids = ObjV::Array(Seq::new(c.pool.len(), |j: int| ObjV::Reference(c.pool[j].0)));
    let pdict2 = dict_set(
        dict_set(pdict, nm(NameTag::KidsKey), kids),
        nm(NameTag::CountKey),
        ObjV::Integer(c.pool.len() as i64),
    );
    assert(m == compact_spec(av));
    assert(m.objects.len() == av.objects.len());
    lemma_collect_all_pool_roles(ds);
    lemma_collect_all_others_roles(ds);
    lemma_collect_all_candidate_roles(ds);
    // key disequalities
    assert(nm(NameTag::KidsKey) != nm(NameTag::CountKey));
    assert(nm(NameTag::TypeKey) != nm(NameTag::KidsKey));
    assert(nm(NameTag::TypeKey) != nm(NameTag::CountKey));
    // the pages dictionary entry
    assert(av.objects[n0 + n1] == (pid, ObjV::Dictionary(pdict2)));
    assert(m.objects[n0 + n1].1 == map_ids(ObjV::Dictionary(pdict2), rr));
    assert(m.objects[n0 + n1].1 == ObjV::Dictionary(map_entries(pdict2, rr)));
    let mpd = map_entries(pdict2, rr);
    lemma_map_entries_get(pdict2, rr, nm(NameTag::CountKey));
    lemma_dict_get_set_same(
        dict_set(pdict, nm(NameTag::KidsKey), kids),
        nm(NameTag::CountKey),
        ObjV::Integer(c.pool.len() as i64),
    );
    assert(dict_get(mpd, nm(NameTag::CountKey)) == Some(ObjV::Integer(n1 as i64)));
    lemma_map_entries_get(pdict2, rr, nm(NameTag::KidsKey));
    lemma_dict_get_set_other(
        dict_set(pdict, nm(NameTag::KidsKey), kids),
        nm(NameTag::CountKey),
        ObjV::Integer(c.pool.len() as i64),
        nm(NameTag::KidsKey),
    );
    lemma_dict_get_set_same(pdict, nm(NameTag::KidsKey), kids);
    assert(dict_get(pdict2, nm(NameTag::KidsKey)) == Some(kids));
    let ks0 = Seq::new(c.pool.len(), |j: int| ObjV::Reference(c.pool[j].0));
    assert(dict_get(mpd, nm(NameTag::KidsKey)) == Some(map_ids(kids, rr)));
    assert(map_ids(kids, rr) == ObjV::Array(map_objs(ks0, rr)));
    crate::relabel::lemma_map_objs(ks0, rr);
    assert forall|j: int| 0 <= j < n1 implies map_objs(ks0, rr)[j] == ObjV::Reference(
        apply_relabel(rr, (#[trigger] c.pool[j]).0),
    ) by {
        assert(map_objs(ks0, rr)[j] == map_ids(ks0[j], rr));
        assert(ks0[j] == ObjV::Reference(c.pool[j].0));
    }
    // every page-classified merged object carries the merged parent
    let ol = outline_entries(bms, c.next_base);
    assert(av.objects.len() == n0 + n1 + 2 + ol.len());
    assert forall|x: int|
        0 <= x < m.objects.len() && role_of((#[trigger] m.objects[x]).1) == Role::Page
        implies dict_of(m.objects[x].1) is Some && dict_get(
        dict_of(m.objects[x].1)->Some_0,
        nm(NameTag::ParentKey),
    ) == Some(ObjV::Reference(apply_relabel(rr, pid))) by {
        assert(m.objects[x].1 == map_ids(av.objects[x].1, rr));
        lemma_role_map(av.objects[x].1, rr);
        if x < n0 {
            assert(av.objects[x] == c.others[x]);
            assert(role_of(c.others[x].1) == Role::Other);
        } else if x < n0 + n1 {
            let j = x - n0;
            assert(av.objects[x] == pool2[j]);
            assert(role_of(c.pool[j].1) == Role::Page);
            lemma_reparent_role(c.pool[j].1, pid);
            let o2 = reparent(c.pool[j].1, pid);
            assert(dict_of(c.pool[j].1) is Some) by {
                assert(role_of(c.pool[j].1) != Role::Other);
            }
            let dd = dict_of(o2)->Some_0;
            assert(dict_get(dd, nm(NameTag::ParentKey)) == Some(ObjV::Reference(pid)));
            lemma_map_entries_get(dd, rr, nm(NameTag::ParentKey));
            match o2 {
                ObjV::Dictionary(d) => {
                    assert(map_ids(o2, rr) == ObjV::Dictionary(map_entries(d, rr)));
                }
                ObjV::Stream(d, p) => {
                    assert(map_ids(o2, rr) == ObjV::Stream(map_entries(d, rr), p));
                }
                _ => {
                    assert(false);
                }
            }
        } else if x == n0 + n1 {
            assert(av.objects[x].1 == ObjV::Dictionary(pdict2));
            assert(role_of_dict(pdict) == Role::Pages);
            lemma_dict_get_set_other(pdict, nm(NameTag::KidsKey), kids, nm(NameTag::TypeKey));
            lemma_dict_get_set_other(
                dict_set(pdict, nm(NameTag::KidsKey), kids),
                nm(NameTag::CountKey),
                ObjV::Integer(c.pool.len() as i64),
                nm(NameTag::TypeKey),
            );
            assert(role_of_dict(pdict2) == Role::Pages);
            assert(role_of(av.objects[x].1) == Role::Pages);
        } else if x == n0 + n1 + 1 {
            let cdict = c.catalog->Some_0.1;
            let cdict2 = dict_remove(
                dict_set(cdict, nm(NameTag::PagesName), ObjV::Reference(pid)),
                nm(NameTag::OutlinesName),
            );
            assert(role_of_dict(cdict) == Role::Catalog);
            assert(nm(NameTag::TypeKey) != nm(NameTag::PagesName));
            assert(nm(NameTag::TypeKey) != nm(NameTag::OutlinesName));
            lemma_dict_get_set_other(
                cdict,
                nm(NameTag::PagesName),
                ObjV::Reference(pid),
                nm(NameTag::TypeKey),
            );
            lemma_dict_get_remove_other(
                dict_set(cdict, nm(NameTag::PagesName), ObjV::Reference(pid)),
                nm(NameTag::OutlinesName),
                nm(NameTag::TypeKey),
            );
            assert(role_of_dict(cdict2) == Role::Catalog);
            if bms.len() > 0 {
                lemma_dict_get_set_other(
                    cdict2,
                    nm(NameTag::OutlinesName),
                    ObjV::Reference(crate::outline::outline_root_id(c.next_base, bms.len() as int)),
                    nm(NameTag::TypeKey),
                );
            }
            assert(role_of(av.objects[x].1) == Role::Catalog);
        } else {
            let y = x - (n0 + n1 + 2);
            assert(av.objects[x] == ol[y]);
            assert(bms.len() > 0);
            lemma_outline_entry_roles(bms, c.next_base, y);
        }
    }
}

/// How many page-classified objects a table holds.
pub open spec fn page_object_count(s: Seq<(ObjectId, ObjV)>) -> int
    decreases s.len(),
{
    if s.len() == 0 {
        0
    } else if role_of(s.last().1) == Role::Page {
        page_object_count(s.drop_last()) + 1
    } else {
        page_object_count(s.drop_last())
    }
}

pub proof fn lemma_page_count_window(s: Seq<(ObjectId, ObjV)>, a: int, b: int)
    requires
        0 <= a <= b <= s.len(),
        forall|x: int|
            0 <= x < s.len() ==> ((role_of((#[trigger] s[x]).1) == Role::Page) <==> (a <= x < b)),
    ensures
        page_object_count(s) == b - a,
    decreases s.len(),
{
    if s.len() > 0 {
        let last = s.len() - 1;
        if role_of(s[last as int].1) == Role::Page {
            assert(b == s.len());
            assert forall|x: int|
                0 <= x < s.drop_last().len() implies ((role_of(
                (#[trigger] s.drop_last()[x]).1,
            ) == Role::Page) <==> (a <= x < b - 1)) by {
                assert(s.drop_last()[x] == s[x]);
            }
            lemma_page_count_window(s.drop_last(), a, b - 1);
        } else if a == b {
            assert forall|x: int|
                0 <= x < s.drop_last().len() implies ((role_of(
                (#[trigger] s.drop_last()[x]).1,
            ) == Role::Page) <==> (0 <= x < 0)) by {
                assert(s.drop_last()[x] == s[x]);
            }
            lemma_page_count_window(s.drop_last(), 0, 0);
        } else {
            assert(b <= last);
            assert forall|x: int|
                0 <= x < s.drop_last().len() implies ((role_of(
                (#[trigger] s.drop_last()[x]).1,
            ) == Role::Page) <==> (a <= x < b)) by {
                assert(s.drop_last()[x] == s[x]);
            }
            lemma_page_count_window(s.drop_last(), a, b);
        }
    }
}

/// The merged table holds exactly the pooled pages as page-classified
/// objects: the merged page count equals the sum of the inputs' page
/// counts.
pub proof fn lemma_merged_page_count(ds: Seq<GraphV>)
    requires
        merge_spec(ds) is Ok,
    ensures
        page_object_count(merge_spec(ds)->Ok_0.objects) == sum_pages(ds),
{
    let c = collect_all(ds);
    let av = assemble(c);
    let m = merge_spec(ds)->Ok_0;
    let rr = RelabelV::Table(crate::merge::compact_pairs(av.objects));
    let n0 = c.others.len() as int;
    let n1 = c.pool.len() as int;
    let pid = c.pages->Some_0.0;
    let pdict = c.pages->Some_0.1;
    let cdict = c.catalog->Some_0.1;
    let bms = adjust_zero(c.bookmarks, c.pool);
    let pool2 = Seq::new(c.pool.len(), |j: int| (c.pool[j].0, reparent(c.pool[j].1, pid)));
    let kids = ObjV::Array(Seq::new(c.pool.len(), |j: int| ObjV::Reference(c.pool[j].0)));
    let pdict2 = dict_set(
        dict_set(pdict, nm(NameTag::KidsKey), kids),
        nm(NameTag::CountKey),
        ObjV::Integer(c.pool.len() as i64),
    );
    let ol = outline_entries(bms, c.next_base);
    lemma_collect_all_pool_roles(ds);
    lemma_collect_all_others_roles(ds);
    lemma_collect_all_candidate_roles(ds);
    lemma_merge_page_concatenation(ds);
    assert(m == compact_spec(av));
    assert forall|x: int|
        0 <= x < m.objects.len() implies ((role_of((#[trigger] m.objects[x]).1) == Role::Page)
        <==> (n0 <= x < n0 + n1)) by {
        assert(m.objects[x].1 == map_ids(av.objects[x].1, rr));
        lemma_role_map(av.objects[x].1, rr);
        if x < n0 {
            assert(av.objects[x] == c.others[x]);
            assert(role_of(c.others[x].1) == Role::Other);
        } else if x < n0 + n1 {
            let j = x - n0;
            assert(av.objects[x] == pool2[j]);
            assert(role_of(c.pool[j].1) == Role::Page);
            lemma_reparent_role(c.pool[j].1, pid);
        } else if x == n0 + n1 {
            assert(av.objects[x].1 == ObjV::Dictionary(pdict2));
            assert(role_of_dict(pdict) == Role::Pages);
            assert(nm(NameTag::TypeKey) != nm(NameTag::KidsKey));
            assert(nm(NameTag::TypeKey) != nm(NameTag::CountKey));
            lemma_dict_get_set_other(pdict, nm(NameTag::KidsKey), kids, nm(NameTag::TypeKey));
            lemma_dict_get_set_other(
                dict_set(pdict, nm(NameTag::KidsKey), kids),
                nm(NameTag::CountKey),
                ObjV::Integer(c.pool.len() as i64),
                nm(NameTag::TypeKey),
            );
            assert(role_of(av.objects[x].1) == Role::Pages);
        } else if x == n0 + n1 + 1 {
            let cdict2 = dict_remove(
                dict_set(cdict, nm(NameTag::PagesName), ObjV::Reference(pid)),
                nm(NameTag::OutlinesName),
            );
            assert(role_of_dict(cdict) == Role::Catalog);
            assert(nm(NameTag::TypeKey) != nm(NameTag::PagesName));
            assert(nm(NameTag::TypeKey) != nm(NameTag::OutlinesName));
            lemma_dict_get_set_other(
                cdict,
                nm(NameTag::PagesName),
                ObjV::Reference(pid),
                nm(NameTag::TypeKey),
            );
            lemma_dict_get_remove_other(
                dict_set(cdict, nm(NameTag::PagesName), ObjV::Reference(pid)),
                nm(NameTag::OutlinesName),
                nm(NameTag::TypeKey),
            );
            assert(role_of_dict(cdict2) == Role::Catalog);
            if bms.len() > 0 {
                lemma_dict_get_set_other(
                    cdict2,
                    nm(NameTag::OutlinesName),
                    ObjV::Reference(crate::outline::outline_root_id(c.next_base, bms.len() as int)),
                    nm(NameTag::TypeKey),
                );
            }
            assert(role_of(av.objects[x].1) == Role::Catalog);
        } else {
            let y = x - (n0 + n1 + 2);
            assert(av.objects[x] == ol[y]);
            assert(bms.len() > 0);
            lemma_outline_entry_roles(bms, c.next_base, y);
        }
    }
    lemma_page_count_window(m.objects, n0, n0 + n1);
}

/// The kept non-structural entries a renumbered table contributes, in
/// table order.
pub open spec fn others_contrib(s: Seq<(ObjectId, ObjV)>, r: RelabelV) -> Seq<(ObjectId, ObjV)>
    decreases s.len(),
{
    if s.len() == 0 {
        Seq::empty()
    } else {
        let h = others_contrib(s.drop_last(), r);
        if role_of(map_ids(s.last().1, r)) == Role::Other {
            h.push((apply_relabel(r, s.last().0), map_ids(s.last().1, r)))
        } else {
            h
        }
    }
}

pub proof fn lemma_entries_others_decomp(st: CollectV, s: Seq<(ObjectId, ObjV)>, r: RelabelV)
    ensures
        collect_entries(st, s, r).others == st.others + others_contrib(s, r),
    decreases s.len(),
{
    if s.len() == 0 {
        assert(st.others + others_contrib(s, r) =~= st.others);
    } else {
        lemma_entries_others_decomp(st, s.drop_last(), r);
        if role_of(map_ids(s.last().1, r)) == Role::Other {
            assert((st.others + others_contrib(s.drop_last(), r)).push(
                (apply_relabel(r, s.last().0), map_ids(s.last().1, r)),
            ) =~= st.others + others_contrib(s, r));
        }
    }
}

pub proof fn lemma_others_contrib_witness(s: Seq<(ObjectId, ObjV)>, r: RelabelV)
    ensures
        forall|x: int|
            0 <= x < others_contrib(s, r).len() ==> exists|w: int|
                0 <= w < s.len() && #[trigger] others_contrib(s, r)[x] == (
                    apply_relabel(r, s[w].0),
                    map_ids(s[w].1, r),
                ) && role_of(map_ids(s[w].1, r)) == Role::Other,
    decreases s.len(),
{
    if s.len() > 0 {
        lemma_others_contrib_witness(s.drop_last(), r);
        assert forall|x: int|
            0 <= x < others_contrib(s, r).len() implies exists|w: int|
            0 <= w < s.len() && #[trigger] others_contrib(s, r)[x] == (
                apply_relabel(r, s[w].0),
                map_ids(s[w].1, r),
            ) && role_of(map_ids(s[w].1, r)) == Role::Other by {
            let h = others_contrib(s.drop_last(), r);
            if x < h.len() {
                let w = choose|w: int|
                    0 <= w < s.drop_last().len() && #[trigger] h[x] == (
                        apply_relabel(r, s.drop_last()[w].0),
                        map_ids(s.drop_last()[w].1, r),
                    ) && role_of(map_ids(s.drop_last()[w].1, r)) == Role::Other;
                assert(s.drop_last()[w] == s[w]);
                assert(others_contrib(s, r)[x] == (
                    apply_relabel(r, s[w].0),
                    map_ids(s[w].1, r),
                ) && role_of(map_ids(s[w].1, r)) == Role::Other);
            } else {
                let w = s.len() - 1;
                assert(s.last() == s[w]);
                assert(others_contrib(s, r)[x] == (
                    apply_relabel(r, s[w].0),
                    map_ids(s[w].1, r),
                ) && role_of(map_ids(s[w].1, r)) == Role::Other);
            }
        }
    }
}

/// The identifier ids of a candidate survive unchanged once chosen; a
/// fresh choice names a renumbered entry of the table just collected.
pub proof fn lemma_entries_candidate_ids(st: CollectV, s: Seq<(ObjectId, ObjV)>, r: RelabelV)
    ensures
        st.catalog matches Some(p) ==> collect_entries(st, s, r).catalog == Some(p),
        st.catalog is None ==> (collect_entries(st, s, r).catalog matches Some(p)
            ==> exists|w: int|
            0 <= w < s.len() && p.0 == apply_relabel(r, (#[trigger] s[w]).0) && role_of(
                map_ids(s[w].1, r),
            ) == Role::Catalog),
        st.pages matches Some(q) ==> (collect_entries(st, s, r).pages matches Some(q2)
            && q2.0 == q.0),
        st.pages is None ==> (collect_entries(st, s, r).pages matches Some(p) ==> exists|w: int|
            0 <= w < s.len() && p.0 == apply_relabel(r, (#[trigger] s[w]).0) && role_of(
                map_ids(s[w].1, r),
            ) == Role::Pages),
    decreases s.len(),
{
    if s.len() > 0 {
        lemma_entries_candidate_ids(st, s.drop_last(), r);
        assert(s.last() == s[s.len() - 1]);
        assert forall|w: int| 0 <= w < s.len() - 1 implies s.drop_last()[w] == s[w] by {}
    }
}

/// A uniform shift without overflow is injective on identifiers.
pub proof fn lemma_shift_inj(k: u64, a: ObjectId, b: ObjectId)
    requires
        a.number + k <= 0xFFFF_FFFF_FFFF_FFFF,
        b.number + k <= 0xFFFF_FFFF_FFFF_FFFF,
        apply_relabel(RelabelV::Shift(k), a) == apply_relabel(RelabelV::Shift(k), b),
    ensures
        a == b,
{
}

/// With pairwise distinct identifiers, lookup returns the entry at the
/// identifier's position.
pub proof fn lemma_table_get_at(s: Seq<(ObjectId, ObjV)>, w: int)
    requires
        forall|x: int, y: int|
            0 <= x < y < s.len() ==> (#[trigger] s[x]).0 != (#[trigger] s[y]).0,
        0 <= w < s.len(),
    ensures
        table_get(s, s[w].0) == Some(s[w].1),
    decreases s.len(),
{
    if w == 0 {
    } else {
        assert(s[0].0 != s[w].0);
        let t = s.subrange(1, s.len() as int);
        assert forall|x: int, y: int|
            0 <= x < y < t.len() implies (#[trigger] t[x]).0 != (#[trigger] t[y]).0 by {
            assert(t[x] == s[x + 1]);
            assert(t[y] == s[y + 1]);
        }
        assert(t[w - 1] == s[w]);
        lemma_table_get_at(t, w - 1);
    }
}

/// No two identifiers in the sequence coincide.
pub open spec fn ids_distinct(s: Seq<(ObjectId, ObjV)>) -> bool {
    forall|x: int, y: int|
        0 <= x < y < s.len() ==> (#[trigger] s[x]).0 != (#[trigger] s[y]).0
}

/// The identifier appears nowhere in the sequence.
pub open spec fn id_absent(s: Seq<(ObjectId, ObjV)>, id: ObjectId) -> bool {
    forall|x: int| 0 <= x < s.len() ==> (#[trigger] s[x]).0 != id
}

/// Every identifier's number lies in (0, b].
pub open spec fn ids_bounded(s: Seq<(ObjectId, ObjV)>, b: int) -> bool {
    forall|x: int| 0 <= x < s.len() ==> 1 <= (#[trigger] s[x]).0.number <= b
}

/// The collected buckets hold pairwise distinct identifiers, each bounded
/// by the running maximum.
pub open spec fn collect_distinct(c: CollectV) -> bool {
    &&& ids_distinct(c.pool)
    &&& ids_distinct(c.others)
    &&& forall|x: int, y: int|
        0 <= x < c.pool.len() && 0 <= y < c.others.len() ==> (#[trigger] c.pool[x]).0 != (
        #[trigger] c.others[y]).0
    &&& c.catalog matches Some(p) ==> id_absent(c.pool, p.0) && id_absent(c.others, p.0)
    &&& c.pages matches Some(p) ==> id_absent(c.pool, p.0) && id_absent(c.others, p.0)
    &&& (c.catalog is Some && c.pages is Some) ==> c.catalog->Some_0.0 != c.pages->Some_0.0
    &&& ids_bounded(c.pool, c.next_base)
    &&& ids_bounded(c.others, c.next_base)
    &&& c.catalog matches Some(p) ==> 1 <= p.0.number <= c.next_base
    &&& c.pages matches Some(p) ==> 1 <= p.0.number <= c.next_base
}

pub proof fn lemma_others_contrib_distinct(s: Seq<(ObjectId, ObjV)>, k: u64)
    requires
        forall|x: int, y: int|
            0 <= x < y < s.len() ==> (#[trigger] s[x]).0 != (#[trigger] s[y]).0,
        forall|w: int| 0 <= w < s.len() ==> (#[trigger] s[w]).0.number + k <= 0xFFFF_FFFF_FFFF_FFFF,
    ensures
        ids_distinct(others_contrib(s, RelabelV::Shift(k))),
    decreases s.len(),
{
    let r = RelabelV::Shift(k);
    if s.len() > 0 {
        assert forall|x: int, y: int|
            0 <= x < y < s.drop_last().len() implies (#[trigger] s.drop_last()[x]).0 != (
            #[trigger] s.drop_last()[y]).0 by {
            assert(s.drop_last()[x] == s[x]);
            assert(s.drop_last()[y] == s[y]);
        }
        assert forall|w: int|
            0 <= w < s.drop_last().len() implies (#[trigger] s.drop_last()[w]).0.number + k
                <= 0xFFFF_FFFF_FFFF_FFFF by {
            assert(s.drop_last()[w] == s[w]);
        }
        lemma_others_contrib_distinct(s.drop_last(), k);
        lemma_others_contrib_witness(s.drop_last(), r);
        if role_of(map_ids(s.last().1, r)) == Role::Other {
            let h = others_contrib(s.drop_last(), r);
            let lastid = apply_relabel(r, s.last().0);
            assert forall|x: int| 0 <= x < h.len() implies (#[trigger] h[x]).0 != lastid by {
                let w = choose|w: int|
                    0 <= w < s.drop_last().len() && #[trigger] h[x] == (
                        apply_relabel(r, s.drop_last()[w].0),
                        map_ids(s.drop_last()[w].1, r),
                    ) && role_of(map_ids(s.drop_last()[w].1, r)) == Role::Other;
                assert(s.drop_last()[w] == s[w]);
                assert(s[w].0 != s.last().0) by {
                    assert(s.last() == s[s.len() - 1]);
                }
                if h[x].0 == lastid {
                    lemma_shift_inj(k, s[w].0, s.last().0);
                }
            }
            assert forall|x: int, y: int|
                0 <= x < y < others_contrib(s, r).len() implies (#[trigger] others_contrib(
                s,
                r,
            )[x]).0 != (#[trigger] others_contrib(s, r)[y]).0 by {
                if y < h.len() {
                } else {
                    assert(others_contrib(s, r)[y].0 == lastid);
                    assert(others_contrib(s, r)[x] == h[x]);
                }
            }
        }
    }
}

/// A freshly chosen candidate identifier, the shift of a table entry of a
/// classified role, appears in neither the pool nor the kept objects.
proof fn lemma_candidate_absent(
    s: Seq<(ObjectId, ObjV)>,
    k: u64,
    base: int,
    st: CollectV,
    c: CollectV,
    cid: ObjectId,
    wc: int,
    role: Role,
)
    requires
        base == k as int,
        0 <= wc < s.len(),
        cid == apply_relabel(RelabelV::Shift(k), s[wc].0),
        role_of(s[wc].1) == role,
        role != Role::Page,
        role != Role::Other,
        forall|x: int, y: int|
            0 <= x < y < s.len() ==> (#[trigger] s[x]).0 != (#[trigger] s[y]).0,
        forall|w: int| 0 <= w < s.len() ==> (#[trigger] s[w]).0.number + k <= 0xFFFF_FFFF_FFFF_FFFF,
        forall|w: int|
            0 <= w < s.len() ==> base + 1 <= (apply_relabel(
                RelabelV::Shift(k),
                (#[trigger] s[w]).0,
            )).number,
        c.pool == st.pool + pool_pairs(s, RelabelV::Shift(k)),
        c.others == st.others + others_contrib(s, RelabelV::Shift(k)),
        ids_bounded(st.pool, base),
        ids_bounded(st.others, base),
    ensures
        id_absent(c.pool, cid),
        id_absent(c.others, cid),
{
    let r = RelabelV::Shift(k);
    let ord = page_id_order(s);
    let padd = pool_pairs(s, r);
    let oc = others_contrib(s, r);
    lemma_page_order_pages(s);
    lemma_others_contrib_witness(s, r);
    assert forall|x: int| 0 <= x < c.pool.len() implies (#[trigger] c.pool[x]).0 != cid by {
        if x < st.pool.len() {
            assert(1 <= c.pool[x].0.number <= base);
            assert(cid.number > base);
        } else {
            let xp = x - st.pool.len();
            assert(table_get(s, ord[xp]) is Some && role_of(table_get(s, ord[xp])->Some_0)
                == Role::Page);
            lemma_table_get_element(s, ord[xp]);
            let wx = choose|w: int|
                0 <= w < s.len() && #[trigger] s[w] == (ord[xp], table_get(s, ord[xp])->Some_0);
            assert(c.pool[x].0 == apply_relabel(r, s[wx].0));
            if c.pool[x].0 == cid {
                lemma_shift_inj(k, s[wx].0, s[wc].0);
                if wx < wc {
                    assert(s[wx].0 != s[wc].0);
                } else if wc < wx {
                    assert(s[wc].0 != s[wx].0);
                }
                assert(false);
            }
        }
    }
    assert forall|x: int| 0 <= x < c.others.len() implies (#[trigger] c.others[x]).0 != cid by {
        if x < st.others.len() {
            assert(1 <= c.others[x].0.number <= base);
            assert(cid.number > base);
        } else {
            let xp = x - st.others.len();
            let wx = choose|w: int|
                0 <= w < s.len() && #[trigger] oc[xp] == (
                    apply_relabel(r, s[w].0),
                    map_ids(s[w].1, r),
                ) && role_of(map_ids(s[w].1, r)) == Role::Other;
            lemma_role_map(s[wx].1, r);
            if c.others[x].0 == cid {
                lemma_shift_inj(k, s[wx].0, s[wc].0);
                if wx < wc {
                    assert(s[wx].0 != s[wc].0);
                } else if wc < wx {
                    assert(s[wc].0 != s[wx].0);
                }
                assert(false);
            }
        }
    }
}

/// After a well-formed collection, every bucket identifier is distinct
/// from every other: the renumbering gives each input a disjoint range,
/// and classification sends each table entry to exactly one bucket.
pub proof fn lemma_collect_all_distinct(ds: Seq<GraphV>)
    requires
        ds.len() <= 0x8000_0000,
        forall|i: int| 0 <= i < ds.len() ==> crate::graph::wf_graph(#[trigger] ds[i]),
        forall|i: int|
            0 <= i < ds.len() ==> (#[trigger] page_id_order(ds[i].objects)).no_duplicates(),
    ensures
        collect_distinct(collect_all(ds)),
        0 <= collect_all(ds).next_base <= ds.len() * 0xFFFF_FFFF,
        collect_all(ds).bookmarks.len() <= ds.len(),
    decreases ds.len(),
{
    if ds.len() == 0 {
        return ;
    }
    assert forall|i: int| 0 <= i < ds.drop_last().len() implies crate::graph::wf_graph(
        #[trigger] ds.drop_last()[i],
    ) by {
        assert(ds.drop_last()[i] == ds[i]);
    }
    assert forall|i: int|
        0 <= i < ds.drop_last().len() implies (#[trigger] page_id_order(
        ds.drop_last()[i].objects,
    )).no_duplicates() by {
        assert(ds.drop_last()[i] == ds[i]);
    }
    lemma_collect_all_distinct(ds.drop_last());
    let st = collect_all(ds.drop_last());
    let g = ds.last();
    assert(g == ds[ds.len() - 1]);
    assert(crate::graph::wf_graph(g));
    assert(page_id_order(g.objects).no_duplicates());
    let base = st.next_base;
    assert(base <= 0x7FFF_FFFF_8000_0000) by (nonlinear_arith)
        requires
            0 <= base <= (ds.len() - 1) * 0xFFFF_FFFF,
            ds.len() <= 0x8000_0000,
    ;
    let k = base as u64;
    let r = RelabelV::Shift(k);
    let st1 = collect_entries(st, g.objects, r);
    lemma_entries_others_decomp(st, g.objects, r);
    lemma_others_contrib_witness(g.objects, r);
    lemma_entries_candidate_ids(st, g.objects, r);
    crate::merge::lemma_collect_entries_frame(st, g.objects, r);
    lemma_page_order_pages(g.objects);
    let s = g.objects;
    let ord = page_id_order(s);
    let padd = pool_pairs(s, r);
    let oc = others_contrib(s, r);
    let c = collect_all(ds);
    // the table's identifiers are pairwise distinct and bounded
    assert forall|x: int, y: int|
        0 <= x < y < s.len() implies (#[trigger] s[x]).0 != (#[trigger] s[y]).0 by {
        assert(crate::graph::id_lt(s[x].0, s[y].0));
    }
    assert forall|w: int|
        0 <= w < s.len() implies (#[trigger] s[w]).0.number + k <= 0xFFFF_FFFF_FFFF_FFFF by {
        assert(1 <= s[w].0.number <= g.max_id);
    }
    lemma_others_contrib_distinct(s, k);
    // every pooled identifier is the shift of a page-classified table entry
    assert forall|x: int|
        0 <= x < padd.len() implies exists|w: int|
        0 <= w < s.len() && (#[trigger] padd[x]).0 == apply_relabel(r, s[w].0) && s[w].0 == ord[x]
            && role_of(s[w].1) == Role::Page by {
        assert(table_get(s, ord[x]) is Some && role_of(table_get(s, ord[x])->Some_0)
            == Role::Page);
        lemma_table_get_element(s, ord[x]);
        let w = choose|w: int|
            0 <= w < s.len() && #[trigger] s[w] == (ord[x], table_get(s, ord[x])->Some_0);
        assert(padd[x].0 == apply_relabel(r, s[w].0) && s[w].0 == ord[x] && role_of(s[w].1)
            == Role::Page);
    }
    // shifted numbers land in (base, base + max]
    assert forall|w: int|
        0 <= w < s.len() implies base + 1 <= (apply_relabel(r, (#[trigger] s[w]).0)).number
            <= base + g.max_id by {
        assert(1 <= s[w].0.number <= g.max_id);
    }
    // pool distinct
    assert forall|x: int, y: int|
        0 <= x < y < c.pool.len() implies (#[trigger] c.pool[x]).0 != (#[trigger] c.pool[y]).0 by {
        if y < st.pool.len() {
        } else if x >= st.pool.len() {
            let xp = x - st.pool.len();
            let yp = y - st.pool.len();
            let wx = choose|w: int|
                0 <= w < s.len() && (#[trigger] padd[xp]).0 == apply_relabel(r, s[w].0) && s[w].0
                    == ord[xp] && role_of(s[w].1) == Role::Page;
            let wy = choose|w: int|
                0 <= w < s.len() && (#[trigger] padd[yp]).0 == apply_relabel(r, s[w].0) && s[w].0
                    == ord[yp] && role_of(s[w].1) == Role::Page;
            assert(ord[xp] != ord[yp]);
            if padd[xp].0 == padd[yp].0 {
                lemma_shift_inj(k, s[wx].0, s[wy].0);
            }
        } else {
            let yp = y - st.pool.len();
            let wy = choose|w: int|
                0 <= w < s.len() && (#[trigger] padd[yp]).0 == apply_relabel(r, s[w].0) && s[w].0
                    == ord[yp] && role_of(s[w].1) == Role::Page;
            assert(1 <= c.pool[x].0.number <= base);
            assert(c.pool[y].0.number > base);
        }
    }
    // others distinct
    assert forall|x: int, y: int|
        0 <= x < y < c.others.len() implies (#[trigger] c.others[x]).0 != (
        #[trigger] c.others[y]).0 by {
        if y < st.others.len() {
        } else if x >= st.others.len() {
            assert(oc[x - st.others.len()].0 != oc[y - st.others.len()].0);
        } else {
            let yp = y - st.others.len();
            let wy = choose|w: int|
                0 <= w < s.len() && #[trigger] oc[yp] == (
                    apply_relabel(r, s[w].0),
                    map_ids(s[w].1, r),
                ) && role_of(map_ids(s[w].1, r)) == Role::Other;
            assert(1 <= c.others[x].0.number <= base);
            assert(c.others[y].0.number > base);
        }
    }
    // a pooled identifier never coincides with a kept one
    assert forall|x: int, y: int|
        0 <= x < c.pool.len() && 0 <= y < c.others.len() implies (#[trigger] c.pool[x]).0 != (
        #[trigger] c.others[y]).0 by {
        if x < st.pool.len() && y < st.others.len() {
        } else if x < st.pool.len() {
            let yp = y - st.others.len();
            let wy = choose|w: int|
                0 <= w < s.len() && #[trigger] oc[yp] == (
                    apply_relabel(r, s[w].0),
                    map_ids(s[w].1, r),
                ) && role_of(map_ids(s[w].1, r)) == Role::Other;
            assert(1 <= c.pool[x].0.number <= base);
            assert(c.others[y].0.number > base);
        } else if y < st.others.len() {
            let xp = x - st.pool.len();
            let wx = choose|w: int|
                0 <= w < s.len() && (#[trigger] padd[xp]).0 == apply_relabel(r, s[w].0) && s[w].0
                    == ord[xp] && role_of(s[w].1) == Role::Page;
            assert(1 <= c.others[y].0.number <= base);
            assert(c.pool[x].0.number > base);
        } else {
            let xp = x - st.pool.len();
            let yp = y - st.others.len();
            let wx = choose|w: int|
                0 <= w < s.len() && (#[trigger] padd[xp]).0 == apply_relabel(r, s[w].0) && s[w].0
                    == ord[xp] && role_of(s[w].1) == Role::Page;
            let wy = choose|w: int|
                0 <= w < s.len() && #[trigger] oc[yp] == (
                    apply_relabel(r, s[w].0),
                    map_ids(s[w].1, r),
                ) && role_of(map_ids(s[w].1, r)) == Role::Other;
            lemma_role_map(s[wy].1, r);
            if c.pool[x].0 == c.others[y].0 {
                lemma_shift_inj(k, s[wx].0, s[wy].0);
                if wx < wy {
                    assert(s[wx].0 != s[wy].0);
                } else if wy < wx {
                    assert(s[wy].0 != s[wx].0);
                }
                assert(wx == wy);
                assert(false);
            }
        }
    }
    // the surviving candidates collide with nothing
    assert(c.next_base == base + g.max_id);
    if !(st.catalog is Some) && c.catalog is Some {
        let cid = c.catalog->Some_0.0;
        let wc = choose|w: int|
            0 <= w < s.len() && cid == apply_relabel(r, (#[trigger] s[w]).0) && role_of(
                map_ids(s[w].1, r),
            ) == Role::Catalog;
        lemma_role_map(s[wc].1, r);
        lemma_candidate_absent(s, k, base, st, c, cid, wc, Role::Catalog);
    }
    if !(st.pages is Some) && c.pages is Some {
        let pid = c.pages->Some_0.0;
        let wc = choose|w: int|
            0 <= w < s.len() && pid == apply_relabel(r, (#[trigger] s[w]).0) && role_of(
                map_ids(s[w].1, r),
            ) == Role::Pages;
        lemma_role_map(s[wc].1, r);
        lemma_candidate_absent(s, k, base, st, c, pid, wc, Role::Pages);
    }
    // an old candidate stays clear of the new entries by its bound
    if st.catalog is Some {
        let cid = st.catalog->Some_0.0;
        assert(c.catalog == st.catalog);
        assert forall|x: int| 0 <= x < c.pool.len() implies (#[trigger] c.pool[x]).0 != cid by {
            if x >= st.pool.len() {
                assert(c.pool[x].0.number > base);
                assert(1 <= cid.number <= base);
            }
        }
        assert forall|x: int| 0 <= x < c.others.len() implies (#[trigger] c.others[x]).0
            != cid by {
            if x >= st.others.len() {
                assert(c.others[x].0.number > base);
                assert(1 <= cid.number <= base);
            }
        }
    }
    if st.pages is Some {
        let pid = st.pages->Some_0.0;
        assert(c.pages matches Some(p2) && p2.0 == pid);
        assert forall|x: int| 0 <= x < c.pool.len() implies (#[trigger] c.pool[x]).0 != pid by {
            if x >= st.pool.len() {
                assert(c.pool[x].0.number > base);
                assert(1 <= pid.number <= base);
            }
        }
        assert forall|x: int| 0 <= x < c.others.len() implies (#[trigger] c.others[x]).0
            != pid by {
            if x >= st.others.len() {
                assert(c.others[x].0.number > base);
                assert(1 <= pid.number <= base);
            }
        }
    }
    // the two candidates differ from each other
    if c.catalog is Some && c.pages is Some {
        let cid = c.catalog->Some_0.0;
        let pid = c.pages->Some_0.0;
        if st.catalog is Some && st.pages is Some {
        } else if st.catalog is Some {
            assert(1 <= cid.number <= base);
            let wp = choose|w: int|
                0 <= w < s.len() && pid == apply_relabel(r, (#[trigger] s[w]).0) && role_of(
                    map_ids(s[w].1, r),
                ) == Role::Pages;
            assert(pid.number > base);
        } else if st.pages is Some {
            assert(1 <= pid.number <= base);
            let wc = choose|w: int|
                0 <= w < s.len() && cid == apply_relabel(r, (#[trigger] s[w]).0) && role_of(
                    map_ids(s[w].1, r),
                ) == Role::Catalog;
            assert(cid.number > base);
        } else {
            let wc = choose|w: int|
                0 <= w < s.len() && cid == apply_relabel(r, (#[trigger] s[w]).0) && role_of(
                    map_ids(s[w].1, r),
                ) == Role::Catalog;
            let wp = choose|w: int|
                0 <= w < s.len() && pid == apply_relabel(r, (#[trigger] s[w]).0) && role_of(
                    map_ids(s[w].1, r),
                ) == Role::Pages;
            if cid == pid {
                lemma_shift_inj(k, s[wc].0, s[wp].0);
                if wc < wp {
                    assert(s[wc].0 != s[wp].0);
                } else if wp < wc {
                    assert(s[wp].0 != s[wc].0);
                }
                assert(false);
            }
        }
    }
    // bounds carry forward
    assert(c.next_base <= ds.len() * 0xFFFF_FFFF) by (nonlinear_arith)
        requires
            c.next_base == base + g.max_id,
            0 <= base <= (ds.len() - 1) * 0xFFFF_FFFF,
            g.max_id <= 0xFFFF_FFFF,
            ds.len() >= 1,
    ;
    assert(ids_bounded(c.pool, c.next_base));
    assert(ids_bounded(c.others, c.next_base));
}

/// The assembled table's identifiers are pairwise distinct: the allocator
/// hands each input a disjoint range, classification sends each entry to
/// one bucket, and the outline claims numbers past every collected one.
pub proof fn lemma_assemble_distinct(ds: Seq<GraphV>)
    requires
        ds.len() <= 0x8000_0000,
        forall|i: int| 0 <= i < ds.len() ==> crate::graph::wf_graph(#[trigger] ds[i]),
        forall|i: int|
            0 <= i < ds.len() ==> (#[trigger] page_id_order(ds[i].objects)).no_duplicates(),
        merge_spec(ds) is Ok,
    ensures
        ids_distinct(assemble(collect_all(ds)).objects),
{
    lemma_collect_all_distinct(ds);
    let c = collect_all(ds);
    let av = assemble(c);
    let t = av.objects;
    let n0 = c.others.len() as int;
    let n1 = c.pool.len() as int;
    let pid = c.pages->Some_0.0;
    let cid = c.catalog->Some_0.0;
    let bms = adjust_zero(c.bookmarks, c.pool);
    let kc = bms.len() as int;
    let ol = outline_entries(bms, c.next_base);
    let nb = c.next_base;
    assert(kc == c.bookmarks.len());
    assert(nb + 1 + kc < 0xFFFF_FFFF_FFFF_FFFF) by (nonlinear_arith)
        requires
            0 <= nb <= ds.len() * 0xFFFF_FFFF,
            0 <= kc <= ds.len(),
            ds.len() <= 0x8000_0000,
    ;
    assert(ol.len() == if kc == 0 { 0int } else { kc + 1 });
    assert(t.len() == n0 + n1 + 2 + ol.len());
    // the identifier at each outline position exceeds every collected one
    assert forall|y: int| 0 <= y < ol.len() implies (#[trigger] ol[y]).0.number > nb by {
        if y < kc {
            assert(ol[y].0 == crate::outline::outline_item_id(nb, y));
        } else {
            assert(ol[y].0 == crate::outline::outline_root_id(nb, kc));
        }
    }
    assert forall|y1: int, y2: int|
        0 <= y1 < y2 < ol.len() implies (#[trigger] ol[y1]).0 != (#[trigger] ol[y2]).0 by {
        assert(ol[y1].0.number == nb + 1 + y1);
        assert(ol[y2].0.number == nb + 1 + y2);
    }
    assert forall|x: int, y: int|
        0 <= x < y < t.len() implies (#[trigger] t[x]).0 != (#[trigger] t[y]).0 by {
        if x < n0 {
            assert(t[x] == c.others[x]);
        } else if x < n0 + n1 {
            assert(t[x].0 == c.pool[x - n0].0);
        } else if x == n0 + n1 {
            assert(t[x].0 == pid);
        } else if x == n0 + n1 + 1 {
            assert(t[x].0 == cid);
        } else {
            assert(t[x] == ol[x - (n0 + n1 + 2)]);
        }
        if y < n0 {
            assert(t[y] == c.others[y]);
        } else if y < n0 + n1 {
            assert(t[y].0 == c.pool[y - n0].0);
        } else if y == n0 + n1 {
            assert(t[y].0 == pid);
        } else if y == n0 + n1 + 1 {
            assert(t[y].0 == cid);
        } else {
            assert(t[y] == ol[y - (n0 + n1 + 2)]);
        }
        if y >= n0 + n1 + 2 {
            if x >= n0 + n1 + 2 {
            } else {
                assert(t[x].0.number <= nb);
                assert(t[y].0.number > nb);
            }
        }
    }
}

proof fn lemma_lookup_shifted(t: Seq<(ObjectId, ObjV)>, m: int, w: int)
    requires
        ids_distinct(t),
        0 <= m <= w < t.len(),
    ensures
        crate::relabel::table_lookup(
            crate::merge::compact_pairs(t).subrange(m, t.len() as int),
            t[w].0,
        ) == crate::merge::compact_id(w),
    decreases w - m,
{
    let ps = crate::merge::compact_pairs(t);
    let sub = ps.subrange(m, t.len() as int);
    assert(sub[0] == ps[m]);
    assert(ps[m] == (t[m].0, crate::merge::compact_id(m)));
    if m == w {
    } else {
        assert(t[m].0 != t[w].0);
        assert(sub.subrange(1, sub.len() as int) =~= ps.subrange(m + 1, t.len() as int));
        lemma_lookup_shifted(t, m + 1, w);
    }
}

/// With pairwise distinct identifiers, the compaction renaming sends the
/// identifier at position `w` to the dense identifier `w + 1`: every
/// reference to it keeps naming the same object.
pub proof fn lemma_compact_lookup_position(t: Seq<(ObjectId, ObjV)>, w: int)
    requires
        ids_distinct(t),
        0 <= w < t.len(),
    ensures
        apply_relabel(
            RelabelV::Table(crate::merge::compact_pairs(t)),
            t[w].0,
        ) == crate::merge::compact_id(w),
{
    let ps = crate::merge::compact_pairs(t);
    assert(ps.subrange(0, t.len() as int) =~= ps);
    lemma_lookup_shifted(t, 0, w);
}

/// In a successful merge of well-formed inputs whose page trees list each
/// page once, the renumbering preserves every reference relationship
/// exactly: the Kids are the dense identifiers of the merged pages in pool
/// order, every merged page's Parent is the dense identifier of the merged
/// pages dictionary, and the trailer Root is the dense identifier of the
/// merged catalog.
pub proof fn lemma_merged_references(ds: Seq<GraphV>)
    requires
        ds.len() <= 0x8000_0000,
        forall|i: int| 0 <= i < ds.len() ==> crate::graph::wf_graph(#[trigger] ds[i]),
        forall|i: int|
            0 <= i < ds.len() ==> (#[trigger] page_id_order(ds[i].objects)).no_duplicates(),
        merge_spec(ds) is Ok,
    ensures
        ({
            let c = collect_all(ds);
            let m = merge_spec(ds)->Ok_0;
            let rr = RelabelV::Table(crate::merge::compact_pairs(assemble(c).objects));
            let n0 = c.others.len() as int;
            let n1 = c.pool.len() as int;
            &&& forall|j: int|
                0 <= j < n1 ==> apply_relabel(rr, (#[trigger] c.pool[j]).0)
                    == crate::merge::compact_id(n0 + j)
            &&& apply_relabel(rr, c.pages->Some_0.0) == crate::merge::compact_id(n0 + n1)
            &&& m.trailer == seq![
                (
                    nm(NameTag::RootKey),
                    ObjV::Reference(crate::merge::compact_id(n0 + n1 + 1)),
                ),
            ]
        }),
{
    lemma_assemble_distinct(ds);
    let c = collect_all(ds);
    let av = assemble(c);
    let t = av.objects;
    let m = merge_spec(ds)->Ok_0;
    let rr = RelabelV::Table(crate::merge::compact_pairs(t));
    let n0 = c.others.len() as int;
    let n1 = c.pool.len() as int;
    assert forall|j: int|
        0 <= j < n1 implies apply_relabel(rr, (#[trigger] c.pool[j]).0)
            == crate::merge::compact_id(n0 + j) by {
        assert(t[n0 + j].0 == c.pool[j].0);
        lemma_compact_lookup_position(t, n0 + j);
    }
    assert(t[n0 + n1].0 == c.pages->Some_0.0);
    lemma_compact_lookup_position(t, n0 + n1);
    assert(t[n0 + n1 + 1].0 == c.catalog->Some_0.0);
    lemma_compact_lookup_position(t, n0 + n1 + 1);
    assert(m == compact_spec(av));
    assert(av.trailer == seq![
        (nm(NameTag::RootKey), ObjV::Reference(c.catalog->Some_0.0)),
    ]);
    reveal_with_fuel(map_entries, 3);
    assert(av.trailer.drop_last() =~= Seq::<(Seq<u8>, ObjV)>::empty());
    assert(m.trailer == map_entries(av.trailer, rr));
    assert(m.trailer =~= seq![
        (
            nm(NameTag::RootKey),
            ObjV::Reference(crate::merge::compact_id(n0 + n1 + 1)),
        ),
    ]);
}

} // verus!
