//! The merge pipeline: allocation of disjoint identifier ranges, object
//! collection and classification, catalog/pages reconciliation, page
//! re-parenting, outline construction, and final compaction.

use vstd::prelude::*;
use crate::object::{Object, ObjV, ObjectId, NameTag, Role, nm, name_bytes, role_of, dict_of,
    dict_set, dict_remove, dict_extend_fw, view_entries, lemma_view_entries, dict_set_exec,
    dict_remove_exec, dict_extend_fw_exec, classify};
use crate::graph::{Graph, GraphV, wf_graph, refs_below, view_id_entries, lemma_refs_below_mono};
use crate::relabel::{Relabel, RelabelV, apply_relabel, relabel_ok, map_ids, map_entries,
    map_ids_exec, map_entries_exec};
use crate::outline::{Bookmark, BookmarkV, view_bookmarks, title_rep, title_bytes, default_color,
    adjust_zero, adjust_zero_exec, outline_entries, outline_root_id, build_outline};
use crate::walk::{table_get, table_get_exec, page_id_order, page_id_order_exec,
    lemma_page_order_pages, lemma_table_get_element};

verus! {

broadcast use vstd::std_specs::vec::group_vec_axioms, vstd::seq::group_seq_axioms;

/// Why a merge failed: no Pages-classified object in any input, or no
/// Catalog-classified object in any input.
#[derive(Clone, Copy, PartialEq, Eq, Structural, Debug)]
pub enum MergeError {
    PagesRootNotFound,
    CatalogRootNotFound,
}

/// The largest number of input graphs one merge accepts.
pub const INPUT_LIMIT: u64 = 0x8000_0000;

/// What collection has produced so far: the ordered page pool, the other
/// surviving objects, the surviving catalog and pages candidates, the
/// pending bookmarks, and the next free identifier number.
pub struct CollectV {
    pub pool: Seq<(ObjectId, ObjV)>,
    pub others: Seq<(ObjectId, ObjV)>,
    pub catalog: Option<(ObjectId, Seq<(Seq<u8>, ObjV)>)>,
    pub pages: Option<(ObjectId, Seq<(Seq<u8>, ObjV)>)>,
    pub bookmarks: Seq<BookmarkV>,
    pub next_base: int,
}

/// The state before any input is collected.
pub open spec fn empty_collect() -> CollectV {
    CollectV {
        pool: Seq::empty(),
        others: Seq::empty(),
        catalog: None,
        pages: None,
        bookmarks: Seq::empty(),
        next_base: 0,
    }
}

/// Classifies one renumbered object and buckets it: the first catalog
/// survives, pages dictionaries merge first-wins into the first one, page
/// objects are left to the page-tree walk (one not reachable from the
/// tree is dropped), outline objects are dropped, everything else is
/// kept.
pub open spec fn collect_entry(st: CollectV, id: ObjectId, o: ObjV) -> CollectV {
    match role_of(o) {
        Role::Page => st,
        Role::Catalog => if st.catalog is None {
            CollectV { catalog: Some((id, dict_of(o)->Some_0)), ..st }
        } else {
            st
        },
        Role::Pages => match st.pages {
            None => CollectV { pages: Some((id, dict_of(o)->Some_0)), ..st },
            Some(p) => CollectV {
                pages: Some((p.0, dict_extend_fw(p.1, dict_of(o)->Some_0))),
                ..st
            },
        },
        Role::Outlines => st,
        Role::Outline => st,
        Role::Other => CollectV { others: st.others.push((id, o)), ..st },
    }
}

/// Folds `collect_entry` over a graph's table, renumbering each entry.
pub open spec fn collect_entries(
    st: CollectV,
    s: Seq<(ObjectId, ObjV)>,
    r: RelabelV,
) -> CollectV
    decreases s.len(),
{
    if s.len() == 0 {
        st
    } else {
        collect_entry(
            collect_entries(st, s.drop_last(), r),
            apply_relabel(r, s.last().0),
            map_ids(s.last().1, r),
        )
    }
}

/// A document's renumbered page entries, in the document's own page
/// order.
pub open spec fn pool_pairs(s: Seq<(ObjectId, ObjV)>, r: RelabelV) -> Seq<(ObjectId, ObjV)> {
    let ord = page_id_order(s);
    Seq::new(
        ord.len(),
        |i: int| (apply_relabel(r, ord[i]), map_ids(table_get(s, ord[i])->Some_0, r)),
    )
}

/// Collects one document: renumbers it past the running maximum, buckets
/// its objects, appends its pages to the pool in the document's own page
/// order, records one pending bookmark for its first pooled page, and
/// advances the running maximum.
pub open spec fn collect_doc(st: CollectV, g: GraphV) -> CollectV {
    let r = RelabelV::Shift(st.next_base as u64);
    let st1 = collect_entries(st, g.objects, r);
    let padd = pool_pairs(g.objects, r);
    let st2 = CollectV { pool: st1.pool + padd, ..st1 };
    let st3 = if padd.len() > 0 {
        CollectV {
            bookmarks: st2.bookmarks.push(
                BookmarkV {
                    title: title_rep((st2.bookmarks.len() + 1) as nat),
                    color: default_color(),
                    indent: 0,
                    target: padd[0].0,
                },
            ),
            ..st2
        }
    } else {
        st2
    };
    CollectV { next_base: st.next_base + g.max_id, ..st3 }
}

/// Collects the ordered input documents in order.
pub open spec fn collect_all(ds: Seq<GraphV>) -> CollectV
    decreases ds.len(),
{
    if ds.len() == 0 {
        empty_collect()
    } else {
        collect_doc(collect_all(ds.drop_last()), ds.last())
    }
}

/// A page with its Parent rewritten to the surviving pages identifier.
pub open spec fn reparent(o: ObjV, pid: ObjectId) -> ObjV {
    match o {
        ObjV::Dictionary(d) => ObjV::Dictionary(
            dict_set(d, nm(NameTag::ParentKey), ObjV::Reference(pid)),
        ),
        ObjV::Stream(d, p) => ObjV::Stream(
            dict_set(d, nm(NameTag::ParentKey), ObjV::Reference(pid)),
            p,
        ),
        _ => o,
    }
}

/// The merged graph before compaction: the kept objects, the re-parented
/// pages, the rebuilt pages dictionary (Kids and Count recomputed), the
/// rewired catalog (Pages set, inherited Outlines stripped, the new
/// outline root attached when bookmarks exist), the outline entries, and a
/// trailer whose Root is the surviving catalog.
pub open spec fn assemble(c: CollectV) -> GraphV {
    let pid = c.pages->Some_0.0;
    let pdict = c.pages->Some_0.1;
    let cid = c.catalog->Some_0.0;
    let cdict = c.catalog->Some_0.1;
    let bms = adjust_zero(c.bookmarks, c.pool);
    let pool2 = Seq::new(c.pool.len(), |j: int| (c.pool[j].0, reparent(c.pool[j].1, pid)));
    let kids = ObjV::Array(Seq::new(c.pool.len(), |j: int| ObjV::Reference(c.pool[j].0)));
    let pdict2 = dict_set(
        dict_set(pdict, nm(NameTag::KidsKey), kids),
        nm(NameTag::CountKey),
        ObjV::Integer(c.pool.len() as i64),
    );
    let cdict2 = dict_remove(
        dict_set(cdict, nm(NameTag::PagesName), ObjV::Reference(pid)),
        nm(NameTag::OutlinesName),
    );
    let cdict3 = if bms.len() > 0 {
        dict_set(
            cdict2,
            nm(NameTag::OutlinesName),
            ObjV::Reference(outline_root_id(c.next_base, bms.len() as int)),
        )
    } else {
        cdict2
    };
    GraphV {
        objects: c.others + pool2 + seq![(pid, ObjV::Dictionary(pdict2))] + seq![
            (cid, ObjV::Dictionary(cdict3)),
        ] + outline_entries(bms, c.next_base),
        trailer: seq![(nm(NameTag::RootKey), ObjV::Reference(cid))],
        max_id: (c.next_base + 1 + bms.len()) as u64,
    }
}

/// The identifier the compaction gives to the entry at position `k`.
pub open spec fn compact_id(k: int) -> ObjectId {
    ObjectId { number: (k + 1) as u64, generation: 0u16 }
}

/// The compaction relabelling of a table: the entry at position `k` is
/// renamed to the dense identifier `k + 1`.
pub open spec fn compact_pairs(s: Seq<(ObjectId, ObjV)>) -> Seq<(ObjectId, ObjectId)> {
    Seq::new(s.len(), |k: int| (s[k].0, compact_id(k)))
}

/// The graph after compaction: dense, monotonically increasing identifiers
/// from one, every reference rewritten accordingly, and the maximum
/// counter equal to the table size.
pub open spec fn compact_spec(g: GraphV) -> GraphV {
    let r = RelabelV::Table(compact_pairs(g.objects));
    GraphV {
        objects: Seq::new(
            g.objects.len(),
            |k: int| (compact_id(k), map_ids(g.objects[k].1, r)),
        ),
        trailer: map_entries(g.trailer, r),
        max_id: g.objects.len() as u64,
    }
}

/// The model of the input documents.
pub open spec fn graphs_view(s: Seq<Graph>) -> Seq<GraphV> {
    Seq::new(s.len(), |i: int| s[i]@)
}

/// What the merge returns: the compacted merged graph, or the distinct
/// error for a missing pages root or a missing catalog root.
pub open spec fn merge_spec(ds: Seq<GraphV>) -> Result<GraphV, MergeError> {
    let c = collect_all(ds);
    if c.pages is None {
        Err(MergeError::PagesRootNotFound)
    } else if c.catalog is None {
        Err(MergeError::CatalogRootNotFound)
    } else {
        Ok(compact_spec(assemble(c)))
    }
}

/// Compacts a merged graph: renumbers the table densely from one and
/// rewrites every reference through the renaming table.
#[verifier::loop_isolation(false)]
pub fn compact(g: &Graph) -> (r: Graph)
    ensures
        r@ == compact_spec(g@),
{
    let n = g.objects.len();
    let mut pairs: Vec<(ObjectId, ObjectId)> = Vec::new();
    let mut k: usize = 0;
    while k < n
        invariant
            0 <= k <= n,
            n == g.objects@.len(),
            pairs@.len() == k,
            forall|m: int|
                0 <= m < k ==> #[trigger] pairs@[m] == (g.objects@[m].0, compact_id(m)),
        decreases n - k,
    {
        pairs.push((g.objects[k].0, ObjectId { number: (k as u64) + 1, generation: 0 }));
        k = k + 1;
    }
    proof {
        assert(pairs@ =~= compact_pairs(g@.objects));
    }
    let rel = Relabel::Table(pairs);
    let ghost rv = rel@;
    let mut out: Vec<(ObjectId, Object)> = Vec::new();
    let mut j: usize = 0;
    while j < n
        invariant
            0 <= j <= n,
            n == g.objects@.len(),
            rv == rel@,
            rv is Table,
            out@.len() == j,
            forall|m: int|
                0 <= m < j ==> (#[trigger] out@[m]).0 == compact_id(m) && out@[m].1@ == map_ids(
                    g@.objects[m].1,
                    rv,
                ),
        decreases n - j,
    {
        let nid = ObjectId { number: (j as u64) + 1, generation: 0 };
        proof {
            assert(relabel_ok(rv, g.objects@[j as int].1@));
            assert(g@.objects[j as int].1 == g.objects@[j as int].1@);
        }
        let no = map_ids_exec(&g.objects[j].1, &rel);
        out.push((nid, no));
        j = j + 1;
    }
    proof {
        lemma_view_entries(g.trailer@);
        assert forall|i: int|
            0 <= i < view_entries(g.trailer@).len() implies relabel_ok(
            rv,
            (#[trigger] view_entries(g.trailer@)[i]).1,
        ) by {}
    }
    let new_trailer = map_entries_exec(&g.trailer, &rel);
    let res = Graph { objects: out, trailer: new_trailer, max_id: n as u64 };
    proof {
        assert(res@.objects =~= compact_spec(g@).objects);
        assert(res@.trailer == compact_spec(g@).trailer);
    }
    res
}

pub proof fn lemma_collect_entries_frame(st: CollectV, s: Seq<(ObjectId, ObjV)>, r: RelabelV)
    ensures
        collect_entries(st, s, r).bookmarks == st.bookmarks,
        collect_entries(st, s, r).next_base == st.next_base,
        collect_entries(st, s, r).pool == st.pool,
    decreases s.len(),
{
    if s.len() > 0 {
        lemma_collect_entries_frame(st, s.drop_last(), r);
    }
}

/// The dictionary a classified object carries, taking ownership; a stream's
/// payload is dropped.
fn take_dict(o: Object) -> (r: Option<Vec<(Vec<u8>, Object)>>)
    ensures
        match r {
            Some(d) => dict_of(o@) == Some(view_entries(d@)),
            None => dict_of(o@) is None,
        },
{
    match o {
        Object::Dictionary(d) => {
            proof {
                assert(o@ == ObjV::Dictionary(view_entries(d@)));
            }
            Some(d)
        }
        Object::Stream(d, p) => {
            proof {
                assert(o@ == ObjV::Stream(view_entries(d@), p@));
            }
            Some(d)
        }
        Object::Null => {
            proof {
                assert(o@ == ObjV::Null);
            }
            None
        }
        Object::Boolean(x) => {
            proof {
                assert(o@ == ObjV::Boolean(x));
            }
            None
        }
        Object::Integer(x) => {
            proof {
                assert(o@ == ObjV::Integer(x));
            }
            None
        }
        Object::Real(x) => {
            proof {
                assert(o@ == ObjV::Real(x));
            }
            None
        }
        Object::Text(t) => {
            proof {
                assert(o@ == ObjV::Text(t@));
            }
            None
        }
        Object::Name(n) => {
            proof {
                assert(o@ == ObjV::Name(n@));
            }
            None
        }
        Object::Array(v) => {
            proof {
                assert(o@ == ObjV::Array(crate::object::view_objs(v@)));
            }
            None
        }
        Object::Reference(id) => {
            proof {
                assert(o@ == ObjV::Reference(id));
            }
            None
        }
    }
}

/// The model of an optional surviving catalog or pages candidate.
pub open spec fn opt_dict_view(c: Option<(ObjectId, Vec<(Vec<u8>, Object)>)>) -> Option<
    (ObjectId, Seq<(Seq<u8>, ObjV)>),
> {
    match c {
        Some(p) => Some((p.0, view_entries(p.1@))),
        None => None,
    }
}

/// Merges the ordered input graphs into one: assigns each input a disjoint
/// identifier range, pools its pages in order, keeps the first catalog and
/// the first pages dictionary (later pages fields merged first-wins),
/// re-parents every pooled page under the surviving pages object, rebuilds
/// Kids and Count, strips inherited outlines, builds one bookmark per
/// contributing document into a fresh outline tree, sets the trailer root,
/// and compacts identifiers densely.  Fails, with nothing built, when no
/// input holds a Pages-classified object, or none holds a Catalog.
#[verifier::loop_isolation(false)]
#[verifier::rlimit(100)]
pub fn merge(docs: &Vec<Graph>) -> (r: Result<Graph, MergeError>)
    requires
        docs@.len() <= INPUT_LIMIT,
        forall|i: int| 0 <= i < docs@.len() ==> wf_graph((#[trigger] docs@[i])@),
    ensures
        match r {
            Ok(g) => merge_spec(graphs_view(docs@)) == Ok::<GraphV, MergeError>(g@),
            Err(e) => merge_spec(graphs_view(docs@)) == Err::<GraphV, MergeError>(e),
        },
{
    let ghost gv = graphs_view(docs@);
    let mut pool: Vec<(ObjectId, Object)> = Vec::new();
    let mut others: Vec<(ObjectId, Object)> = Vec::new();
    let mut catalog: Option<(ObjectId, Vec<(Vec<u8>, Object)>)> = None;
    let mut pages: Option<(ObjectId, Vec<(Vec<u8>, Object)>)> = None;
    let mut bookmarks: Vec<Bookmark> = Vec::new();
    let mut base: u64 = 0;
    proof {
        assert(gv.take(0) =~= Seq::<GraphV>::empty());
    }
    let mut i: usize = 0;
    while i < docs.len()
        invariant
            0 <= i <= docs@.len(),
            gv == graphs_view(docs@),
            view_id_entries(pool@) == collect_all(gv.take(i as int)).pool,
            view_id_entries(others@) == collect_all(gv.take(i as int)).others,
            opt_dict_view(catalog) == collect_all(gv.take(i as int)).catalog,
            opt_dict_view(pages) == collect_all(gv.take(i as int)).pages,
            view_bookmarks(bookmarks@) == collect_all(gv.take(i as int)).bookmarks,
            base as int == collect_all(gv.take(i as int)).next_base,
            base <= (i as int) * 0xFFFF_FFFF,
            bookmarks@.len() <= i,
        decreases docs.len() - i,
    {
        let ghost st0 = collect_all(gv.take(i as int));
        let d = &docs[i];
        let ghost dv = d@;
        proof {
            assert(gv[i as int] == dv);
            assert(wf_graph(dv));
            assert(base <= 0x7FFF_FFFF_8000_0000u64) by (nonlinear_arith)
                requires
                    base as int <= (i as int) * 0xFFFF_FFFF,
                    0 <= i as int <= 0x8000_0000,
            ;
        }
        let rel = Relabel::Shift(base);
        let ghost rv = RelabelV::Shift(base);
        let pool_before = pool.len();
        let ghost bms_before = view_bookmarks(bookmarks@);
        let mut j: usize = 0;
        proof {
            assert(dv.objects.take(0) =~= Seq::<(ObjectId, ObjV)>::empty());
        }
        while j < d.objects.len()
            invariant
                0 <= j <= d.objects@.len(),
                dv.objects.len() == d.objects@.len(),
                view_id_entries(pool@) == collect_entries(st0, dv.objects.take(j as int), rv).pool,
                view_id_entries(others@) == collect_entries(
                    st0,
                    dv.objects.take(j as int),
                    rv,
                ).others,
                opt_dict_view(catalog) == collect_entries(
                    st0,
                    dv.objects.take(j as int),
                    rv,
                ).catalog,
                opt_dict_view(pages) == collect_entries(st0, dv.objects.take(j as int), rv).pages,
                view_bookmarks(bookmarks@) == st0.bookmarks,
                pool_before == st0.pool.len(),
            decreases d.objects.len() - j,
        {
            let ghost stj = collect_entries(st0, dv.objects.take(j as int), rv);
            let ghost entry = dv.objects[j as int];
            proof {
                assert(entry == (d.objects@[j as int].0, d.objects@[j as int].1@));
                assert(1 <= entry.0.number <= dv.max_id);
                assert(dv.max_id <= 0xFFFF_FFFFu64);
                assert(refs_below(entry.1, dv.max_id as int));
                lemma_refs_below_mono(
                    entry.1,
                    dv.max_id as int,
                    (0xFFFF_FFFF_FFFF_FFFFu64 - base) as int,
                );
                assert(relabel_ok(rv, entry.1));
                assert(dv.objects.take(j + 1).drop_last() =~= dv.objects.take(j as int));
                assert(dv.objects.take(j + 1).last() == entry);
                lemma_collect_entries_frame(st0, dv.objects.take(j as int), rv);
            }
            let oid = d.objects[j].0;
            let sid = ObjectId { number: oid.number + base, generation: oid.generation };
            proof {
                assert(sid == apply_relabel(rv, entry.0));
            }
            let sobj = map_ids_exec(&d.objects[j].1, &rel);
            let ghost so = map_ids(entry.1, rv);
            proof {
                assert(sobj@ == so);
                assert(collect_entries(st0, dv.objects.take(j + 1), rv) == collect_entry(
                    stj,
                    sid,
                    so,
                ));
            }
            let role = classify(&sobj);
            match role {
                Role::Page => {}
                Role::Catalog => {
                    if catalog.is_none() {
                        match take_dict(sobj) {
                            Some(dd) => {
                                catalog = Some((sid, dd));
                            }
                            None => {
                                proof {
                                    assert(false);
                                }
                            }
                        }
                    }
                }
                Role::Pages => {
                    match take_dict(sobj) {
                        Some(dd) => {
                            let cur = pages;
                            match cur {
                                None => {
                                    pages = Some((sid, dd));
                                }
                                Some(p) => {
                                    let merged = dict_extend_fw_exec(p.1, dd);
                                    pages = Some((p.0, merged));
                                }
                            }
                        }
                        None => {
                            proof {
                                assert(false);
                            }
                        }
                    }
                }
                Role::Outlines => {}
                Role::Outline => {}
                Role::Other => {
                    others.push((sid, sobj));
                    proof {
                        assert(view_id_entries(others@) =~= stj.others.push((sid, so)));
                    }
                }
            }
            j = j + 1;
        }
        let ghost st1 = collect_entries(st0, dv.objects, rv);
        proof {
            assert(dv.objects.take(dv.objects.len() as int) =~= dv.objects);
            lemma_collect_entries_frame(st0, dv.objects, rv);
            lemma_page_order_pages(dv.objects);
        }
        // the document's pages, in its own page order
        let order = page_id_order_exec(&d.objects);
        let ghost ord = page_id_order(dv.objects);
        let ghost padd = pool_pairs(dv.objects, rv);
        let ghost pool_b4 = view_id_entries(pool@);
        proof {
            assert(order@ == ord);
            assert(pool_b4 + padd.take(0) =~= pool_b4);
        }
        let mut q: usize = 0;
        while q < order.len()
            invariant
                0 <= q <= ord.len(),
                order@ == ord,
                view_id_entries(pool@) == pool_b4 + padd.take(q as int),
            decreases order.len() - q,
        {
            let oid = order[q];
            proof {
                assert(ord[q as int] == oid);
                assert(table_get(dv.objects, oid) is Some && role_of(
                    table_get(dv.objects, oid)->Some_0,
                ) == Role::Page);
                lemma_table_get_element(dv.objects, oid);
                let w = choose|w: int|
                    0 <= w < dv.objects.len() && #[trigger] dv.objects[w] == (
                        oid,
                        table_get(dv.objects, oid)->Some_0,
                    );
                assert(1 <= oid.number <= dv.max_id);
                assert(refs_below(table_get(dv.objects, oid)->Some_0, dv.max_id as int));
                lemma_refs_below_mono(
                    table_get(dv.objects, oid)->Some_0,
                    dv.max_id as int,
                    (0xFFFF_FFFF_FFFF_FFFFu64 - base) as int,
                );
            }
            match table_get_exec(&d.objects, oid) {
                Some(o) => {
                    let so2 = map_ids_exec(o, &rel);
                    let sid2 = ObjectId { number: oid.number + base, generation: oid.generation };
                    let ghost before = view_id_entries(pool@);
                    pool.push((sid2, so2));
                    proof {
                        assert(view_id_entries(pool@) =~= before.push((sid2, so2@)));
                        assert(padd[q as int] == (sid2, so2@));
                        assert(padd.take(q + 1) =~= padd.take(q as int).push(padd[q as int]));
                        assert(view_id_entries(pool@) =~= pool_b4 + padd.take(q + 1));
                    }
                }
                None => {
                    proof {
                        assert(false);
                    }
                }
            }
            q = q + 1;
        }
        proof {
            assert(padd.take(padd.len() as int) =~= padd);
            assert(view_id_entries(pool@) == st1.pool + padd);
        }
        if pool.len() > pool_before {
            let n: u64 = (bookmarks.len() as u64) + 1;
            let bm = Bookmark {
                title: title_bytes(n),
                color: crate::outline::default_color_exec(),
                indent: 0,
                target: pool[pool_before].0,
            };
            bookmarks.push(bm);
            proof {
                assert(view_id_entries(pool@)[pool_before as int] == padd[0]);
                assert(view_bookmarks(bookmarks@) =~= st1.bookmarks.push(
                    BookmarkV {
                        title: title_rep((st1.bookmarks.len() + 1) as nat),
                        color: default_color(),
                        indent: 0,
                        target: padd[0].0,
                    },
                ));
            }
        }
        base = base + d.max_id;
        i = i + 1;
        proof {
            assert(gv.take(i as int).drop_last() =~= gv.take(i - 1));
            assert(gv.take(i as int).last() == dv);
            assert(collect_all(gv.take(i as int)) == collect_doc(st0, dv));
            assert(base as int <= (i as int) * 0xFFFF_FFFF) by (nonlinear_arith)
                requires
                    base as int <= (i as int - 1) * 0xFFFF_FFFF + 0xFFFF_FFFF,
                    i as int >= 1,
            ;
        }
    }
    let ghost c = collect_all(gv);
    proof {
        assert(gv.take(gv.len() as int) =~= gv);
    }
    let (pid, pdict) = match pages {
        Some(p) => p,
        None => {
            proof {
                assert(c.pages is None);
            }
            return Err(MergeError::PagesRootNotFound);
        }
    };
    let (cid, cdict) = match catalog {
        Some(p) => p,
        None => {
            proof {
                assert(c.catalog is None);
            }
            return Err(MergeError::CatalogRootNotFound);
        }
    };
    proof {
        assert(c.pages == Some((pid, view_entries(pdict@))));
        assert(c.catalog == Some((cid, view_entries(cdict@))));
    }
    let bms = adjust_zero_exec(bookmarks, &pool);
    let ghost bmsv = adjust_zero(c.bookmarks, c.pool);
    proof {
        assert(view_bookmarks(bms@) == bmsv);
        assert(bms@.len() <= docs@.len());
    }
    // the ordered child list over the pool
    let mut kids: Vec<Object> = Vec::new();
    let mut m: usize = 0;
    while m < pool.len()
        invariant
            0 <= m <= pool@.len(),
            view_id_entries(pool@) == c.pool,
            kids@.len() == m,
            forall|x: int| 0 <= x < m ==> (#[trigger] kids@[x])@ == ObjV::Reference(c.pool[x].0),
        decreases pool.len() - m,
    {
        kids.push(Object::Reference(pool[m].0));
        m = m + 1;
    }
    proof {
        crate::object::lemma_view_objs(kids@);
        assert(crate::object::view_objs(kids@) =~= Seq::new(
            c.pool.len(),
            |x: int| ObjV::Reference(c.pool[x].0),
        ));
    }
    let count = pool.len();
    // re-parent the pooled pages and move them into the table
    let ghost pool2 = Seq::new(c.pool.len(), |x: int| (c.pool[x].0, reparent(c.pool[x].1, pid)));
    let mut table = others;
    let ghost others_spec = c.others;
    let mut pool = pool;
    let ghost porig = pool@;
    while pool.len() > 0
        invariant
            pool@.len() <= porig.len(),
            pool@ =~= porig.subrange(porig.len() - pool@.len(), porig.len() as int),
            view_id_entries(porig) == c.pool,
            view_id_entries(table@) =~= others_spec + pool2.take(porig.len() - pool@.len()),
        decreases pool.len(),
    {
        let ghost x = porig.len() - pool@.len();
        let ghost ppre = pool@;
        let (id0, o0) = pool.remove(0);
        proof {
            assert(ppre[0] == porig[x]);
            assert(pool@ =~= porig.subrange(x + 1, porig.len() as int));
            assert((id0, o0@) == c.pool[x]);
        }
        let parent_key = name_bytes(NameTag::ParentKey);
        let pref = Object::Reference(pid);
        let new_obj = match o0 {
            Object::Dictionary(dd) => {
                proof {
                    assert(o0@ == ObjV::Dictionary(view_entries(dd@)));
                }
                Object::Dictionary(dict_set_exec(dd, parent_key, pref))
            }
            Object::Stream(dd, pl) => {
                proof {
                    assert(o0@ == ObjV::Stream(view_entries(dd@), pl@));
                }
                Object::Stream(dict_set_exec(dd, parent_key, pref), pl)
            }
            other => other,
        };
        proof {
            assert(new_obj@ == reparent(c.pool[x].1, pid));
        }
        let ghost tpre = view_id_entries(table@);
        table.push((id0, new_obj));
        proof {
            assert(view_id_entries(table@) =~= tpre.push((id0, new_obj@)));
            assert(pool2.take(x + 1) =~= pool2.take(x).push(pool2[x]));
            assert(view_id_entries(table@) =~= others_spec + pool2.take(x + 1));
        }
    }
    proof {
        assert(pool2.take(porig.len() as int) =~= pool2);
        assert(view_id_entries(table@) =~= others_spec + pool2);
    }
    // the rebuilt pages dictionary
    let pdict2 = dict_set_exec(
        dict_set_exec(pdict, name_bytes(NameTag::KidsKey), Object::Array(kids)),
        name_bytes(NameTag::CountKey),
        Object::Integer(count as i64),
    );
    let ghost t2 = view_id_entries(table@);
    table.push((pid, Object::Dictionary(pdict2)));
    proof {
        assert(view_id_entries(table@) =~= t2.push((pid, ObjV::Dictionary(view_entries(
            pdict2@,
        )))));
    }
    // the rewired catalog
    let cdict2 = dict_remove_exec(
        dict_set_exec(cdict, name_bytes(NameTag::PagesName), Object::Reference(pid)),
        &name_bytes(NameTag::OutlinesName),
    );
    let cdict3 = if bms.len() > 0 {
        let root_id = ObjectId { number: base + 1 + (bms.len() as u64), generation: 0 };
        proof {
            assert(root_id == outline_root_id(c.next_base, bmsv.len() as int));
        }
        dict_set_exec(cdict2, name_bytes(NameTag::OutlinesName), Object::Reference(root_id))
    } else {
        cdict2
    };
    let ghost t3 = view_id_entries(table@);
    table.push((cid, Object::Dictionary(cdict3)));
    proof {
        assert(view_id_entries(table@) =~= t3.push((cid, ObjV::Dictionary(view_entries(
            cdict3@,
        )))));
    }
    // the outline tree
    let mut ol = build_outline(&bms, base);
    let ghost t4 = view_id_entries(table@);
    let ghost olv = view_id_entries(ol@);
    table.append(&mut ol);
    proof {
        assert(view_id_entries(table@) =~= t4 + olv);
    }
    // the trailer
    let mut trailer: Vec<(Vec<u8>, Object)> = Vec::new();
    trailer.push((name_bytes(NameTag::RootKey), Object::Reference(cid)));
    proof {
        lemma_view_entries(trailer@);
        assert(view_entries(trailer@) =~= seq![(nm(NameTag::RootKey), ObjV::Reference(cid))]);
    }
    let g1 = Graph {
        objects: table,
        trailer,
        max_id: base + 1 + (bms.len() as u64),
    };
    proof {
        let av = assemble(c);
        assert(view_id_entries(g1.objects@) =~= av.objects);
        assert(g1@ == av);
    }
    let g2 = compact(&g1);
    proof {
        assert(merge_spec(gv) == Ok::<GraphV, MergeError>(g2@));
    }
    Ok(g2)
}

} // verus!
