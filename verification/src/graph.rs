//! One document graph: a trailer dictionary, an identifier-keyed object
//! table, and the running maximum-identifier counter.

use vstd::prelude::*;
use crate::object::{Object, ObjV, ObjectId, view_entries, lemma_view_entries};

verus! {

broadcast use vstd::std_specs::vec::group_vec_axioms, vstd::seq::group_seq_axioms;

/// The largest object number a source graph may use; renumbered copies may
/// exceed it, but stay within `u64` because the merge bounds the number of
/// inputs.
pub const SOURCE_NUMBER_LIMIT: u64 = 0xFFFF_FFFF;

/// A document graph.
#[derive(Debug, PartialEq)]
pub struct Graph {
    /// The identifier-keyed object table, ascending in lexicographic
    /// (number, generation) identifier order.
    pub objects: Vec<(ObjectId, Object)>,
    /// The trailer dictionary; its "Root" entry references the catalog.
    pub trailer: Vec<(Vec<u8>, Object)>,
    /// The running maximum object number.
    pub max_id: u64,
}

/// The mathematical model of a graph.
pub struct GraphV {
    pub objects: Seq<(ObjectId, ObjV)>,
    pub trailer: Seq<(Seq<u8>, ObjV)>,
    pub max_id: u64,
}

/// Model of an exec object-table entry sequence, elementwise.
pub open spec fn view_id_entries(s: Seq<(ObjectId, Object)>) -> Seq<(ObjectId, ObjV)> {
    Seq::new(s.len(), |i: int| (s[i].0, s[i].1@))
}

impl View for Graph {
    type V = GraphV;

    open spec fn view(&self) -> GraphV {
        GraphV {
            objects: view_id_entries(self.objects@),
            trailer: view_entries(self.trailer@),
            max_id: self.max_id,
        }
    }
}

/// Every reference inside the object has a number at most `b`.
pub open spec fn refs_below(o: ObjV, b: int) -> bool
    decreases o,
{
    match o {
        ObjV::Reference(id) => id.number <= b,
        ObjV::Array(s) => forall|i: int| 0 <= i < s.len() ==> refs_below(#[trigger] s[i], b),
        ObjV::Dictionary(d) => forall|i: int|
            0 <= i < d.len() ==> refs_below(#[trigger] d[i].1, b),
        ObjV::Stream(d, _) => forall|i: int|
            0 <= i < d.len() ==> refs_below(#[trigger] d[i].1, b),
        _ => true,
    }
}

pub proof fn lemma_refs_below_mono(o: ObjV, b1: int, b2: int)
    requires
        refs_below(o, b1),
        b1 <= b2,
    ensures
        refs_below(o, b2),
    decreases o,
{
    match o {
        ObjV::Array(s) => {
            assert forall|i: int| 0 <= i < s.len() implies refs_below(#[trigger] s[i], b2) by {
                lemma_refs_below_mono(s[i], b1, b2);
            }
        }
        ObjV::Dictionary(d) => {
            assert forall|i: int| 0 <= i < d.len() implies refs_below(#[trigger] d[i].1, b2) by {
                lemma_refs_below_mono(d[i].1, b1, b2);
            }
        }
        ObjV::Stream(d, _) => {
            assert forall|i: int| 0 <= i < d.len() implies refs_below(#[trigger] d[i].1, b2) by {
                lemma_refs_below_mono(d[i].1, b1, b2);
            }
        }
        _ => {}
    }
}

pub proof fn lemma_refs_below_array(s: Seq<ObjV>, b: int)
    ensures
        refs_below(ObjV::Array(s), b) == (forall|i: int|
            0 <= i < s.len() ==> refs_below(#[trigger] s[i], b)),
{
    let o = ObjV::Array(s);
    assert(o->Array_0 == s);
    if refs_below(o, b) {
        assert forall|i: int| 0 <= i < s.len() implies refs_below(#[trigger] s[i], b) by {
            assert(refs_below(o->Array_0[i], b));
        }
    }
    if forall|i: int| 0 <= i < s.len() ==> refs_below(#[trigger] s[i], b) {
        assert forall|i: int| 0 <= i < o->Array_0.len() implies refs_below(
            #[trigger] o->Array_0[i],
            b,
        ) by {
            assert(refs_below(s[i], b));
        }
        assert(refs_below(o, b));
    }
}

pub proof fn lemma_refs_below_dict(d: Seq<(Seq<u8>, ObjV)>, b: int)
    ensures
        refs_below(ObjV::Dictionary(d), b) == (forall|i: int|
            0 <= i < d.len() ==> refs_below((#[trigger] d[i]).1, b)),
{
    let o = ObjV::Dictionary(d);
    assert(o->Dictionary_0 == d);
    if refs_below(o, b) {
        assert forall|i: int| 0 <= i < d.len() implies refs_below((#[trigger] d[i]).1, b) by {
            assert(refs_below(o->Dictionary_0[i].1, b));
        }
    }
    if forall|i: int| 0 <= i < d.len() ==> refs_below((#[trigger] d[i]).1, b) {
        assert forall|i: int| 0 <= i < o->Dictionary_0.len() implies refs_below(
            #[trigger] o->Dictionary_0[i].1,
            b,
        ) by {
            assert(refs_below(d[i].1, b));
        }
        assert(refs_below(o, b));
    }
}

pub proof fn lemma_refs_below_stream(d: Seq<(Seq<u8>, ObjV)>, p: Seq<u8>, b: int)
    ensures
        refs_below(ObjV::Stream(d, p), b) == (forall|i: int|
            0 <= i < d.len() ==> refs_below((#[trigger] d[i]).1, b)),
{
    let o = ObjV::Stream(d, p);
    assert(o->Stream_0 == d);
    if refs_below(o, b) {
        assert forall|i: int| 0 <= i < d.len() implies refs_below((#[trigger] d[i]).1, b) by {
            assert(refs_below(o->Stream_0[i].1, b));
        }
    }
    if forall|i: int| 0 <= i < d.len() ==> refs_below((#[trigger] d[i]).1, b) {
        assert forall|i: int| 0 <= i < o->Stream_0.len() implies refs_below(
            #[trigger] o->Stream_0[i].1,
            b,
        ) by {
            assert(refs_below(d[i].1, b));
        }
        assert(refs_below(o, b));
    }
}

/// Strict lexicographic order on identifiers: by number, then by
/// generation.  A loaded document's table arrives sorted this way, so two
/// identifiers sharing a number but differing in generation may coexist.
pub open spec fn id_lt(a: ObjectId, b: ObjectId) -> bool {
    a.number < b.number || (a.number == b.number && a.generation < b.generation)
}

/// A well-formed source graph: the maximum counter stays within the source
/// limit, object numbers are positive and at most the maximum, the
/// identifiers are strictly increasing along the table in lexicographic
/// (number, generation) order — so pairwise distinct — and every
/// reference (in the table and in the trailer) stays at most the maximum.
pub open spec fn wf_graph(g: GraphV) -> bool {
    &&& g.max_id <= SOURCE_NUMBER_LIMIT
    &&& forall|i: int|
        0 <= i < g.objects.len() ==> 1 <= (#[trigger] g.objects[i]).0.number <= g.max_id
    &&& forall|i: int|
        0 <= i < g.objects.len() ==> refs_below((#[trigger] g.objects[i]).1, g.max_id as int)
    &&& forall|i: int, j: int|
        0 <= i < j < g.objects.len() ==> id_lt(
            (#[trigger] g.objects[i]).0,
            (#[trigger] g.objects[j]).0,
        )
    &&& forall|i: int|
        0 <= i < g.trailer.len() ==> refs_below((#[trigger] g.trailer[i]).1, g.max_id as int)
}

/// Checks that every reference inside the object has a number at most `b`.
#[verifier::loop_isolation(false)]
pub fn refs_below_exec(o: &Object, b: u64) -> (r: bool)
    ensures
        r == refs_below(o@, b as int),
    decreases o,
{
    match o {
        Object::Reference(id) => {
            proof {
                assert(o@ == ObjV::Reference(*id));
            }
            id.number <= b
        }
        Object::Array(v) => {
            proof {
                crate::object::lemma_view_objs(v@);
            }
            let mut j: usize = 0;
            while j < v.len()
                invariant
                    0 <= j <= v@.len(),
                    crate::object::view_objs(v@).len() == v@.len(),
                    forall|m: int|
                        0 <= m < v@.len() ==> crate::object::view_objs(v@)[m] == v@[m]@,
                    forall|m: int|
                        0 <= m < j ==> refs_below(
                            #[trigger] crate::object::view_objs(v@)[m],
                            b as int,
                        ),
                decreases v.len() - j,
            {
                proof {
                    assert(decreases_to!(*o => v@[j as int]));
                }
                if !refs_below_exec(&v[j], b) {
                    proof {
                        let s = crate::object::view_objs(v@);
                        assert(o@ == ObjV::Array(s));
                        assert(s[j as int] == v@[j as int]@);
                        assert(!refs_below(s[j as int], b as int));
                        lemma_refs_below_array(s, b as int);
                        assert(!refs_below(o@, b as int));
                    }
                    return false;
                }
                j = j + 1;
            }
            proof {
                let s = crate::object::view_objs(v@);
                assert(o@ == ObjV::Array(s));
                lemma_refs_below_array(s, b as int);
                assert(refs_below(o@, b as int));
            }
            true
        }
        Object::Dictionary(d) => {
            let r = refs_below_entries_exec(d, b);
            proof {
                assert(o@ == ObjV::Dictionary(view_entries(d@)));
                lemma_refs_below_dict(view_entries(d@), b as int);
            }
            r
        }
        Object::Stream(d, p) => {
            let r = refs_below_entries_exec(d, b);
            proof {
                assert(o@ == ObjV::Stream(view_entries(d@), p@));
                lemma_refs_below_stream(view_entries(d@), p@, b as int);
            }
            r
        }
        Object::Null => {
            proof {
                assert(o@ == ObjV::Null);
            }
            true
        }
        Object::Boolean(x) => {
            proof {
                assert(o@ == ObjV::Boolean(*x));
            }
            true
        }
        Object::Integer(x) => {
            proof {
                assert(o@ == ObjV::Integer(*x));
            }
            true
        }
        Object::Real(x) => {
            proof {
                assert(o@ == ObjV::Real(*x));
            }
            true
        }
        Object::Text(t) => {
            proof {
                assert(o@ == ObjV::Text(t@));
            }
            true
        }
        Object::Name(n) => {
            proof {
                assert(o@ == ObjV::Name(n@));
            }
            true
        }
    }
}

/// Checks that every reference inside a dictionary's values has a number at
/// most `b`.
#[verifier::loop_isolation(false)]
fn refs_below_entries_exec(d: &Vec<(Vec<u8>, Object)>, b: u64) -> (r: bool)
    ensures
        r == forall|i: int|
            0 <= i < view_entries(d@).len() ==> refs_below(
                (#[trigger] view_entries(d@)[i]).1,
                b as int,
            ),
    decreases d,
{
    proof {
        lemma_view_entries(d@);
    }
    let mut j: usize = 0;
    while j < d.len()
        invariant
            0 <= j <= d@.len(),
            view_entries(d@).len() == d@.len(),
            forall|m: int| 0 <= m < d@.len() ==> view_entries(d@)[m] == (d@[m].0@, d@[m].1@),
            forall|m: int|
                0 <= m < j ==> refs_below((#[trigger] view_entries(d@)[m]).1, b as int),
        decreases d.len() - j,
    {
        proof {
            assert(decreases_to!(*d => d@[j as int]));
        }
        if !refs_below_exec(&d[j].1, b) {
            proof {
                assert(!refs_below(view_entries(d@)[j as int].1, b as int));
            }
            return false;
        }
        j = j + 1;
    }
    true
}

proof fn lemma_adjacent_lt(s: Seq<(ObjectId, ObjV)>, i: int, j: int)
    requires
        forall|m: int|
            0 <= m < s.len() - 1 ==> id_lt((#[trigger] s[m]).0, s[m + 1].0),
        0 <= i < j < s.len(),
    ensures
        id_lt(s[i].0, s[j].0),
    decreases j - i,
{
    if i + 1 < j {
        lemma_adjacent_lt(s, i + 1, j);
    }
}

/// Checks that a graph is well-formed; callers outside the library use this
/// before handing a parsed graph to the merge.
#[verifier::loop_isolation(false)]
pub fn check_graph(g: &Graph) -> (r: bool)
    ensures
        r == wf_graph(g@),
{
    if g.max_id > SOURCE_NUMBER_LIMIT {
        return false;
    }
    let mut i: usize = 0;
    while i < g.objects.len()
        invariant
            0 <= i <= g.objects@.len(),
            g@.objects.len() == g.objects@.len(),
            forall|m: int|
                0 <= m < g.objects@.len() ==> #[trigger] g@.objects[m] == (
                    g.objects@[m].0,
                    g.objects@[m].1@,
                ),
            forall|m: int|
                0 <= m < i ==> 1 <= (#[trigger] g@.objects[m]).0.number <= g.max_id,
            forall|m: int|
                0 <= m < i ==> refs_below((#[trigger] g@.objects[m]).1, g.max_id as int),
            forall|m: int|
                0 <= m < i - 1 ==> id_lt((#[trigger] g@.objects[m]).0, g@.objects[m + 1].0),
        decreases g.objects.len() - i,
    {
        let num = g.objects[i].0.number;
        if num < 1 || num > g.max_id {
            proof {
                assert(!(1 <= g@.objects[i as int].0.number <= g.max_id));
                assert(!wf_graph(g@));
            }
            return false;
        }
        if !refs_below_exec(&g.objects[i].1, g.max_id) {
            proof {
                assert(!refs_below(g@.objects[i as int].1, g.max_id as int));
                assert(!wf_graph(g@));
            }
            return false;
        }
        if i > 0 {
            let prev = g.objects[i - 1].0;
            let cur = g.objects[i].0;
            let ordered = prev.number < cur.number || (prev.number == cur.number
                && prev.generation < cur.generation);
            if !ordered {
                proof {
                    assert(!id_lt(g@.objects[i - 1].0, g@.objects[i as int].0));
                    assert(!wf_graph(g@));
                }
                return false;
            }
        }
        i = i + 1;
    }
    let mut t: usize = 0;
    proof {
        lemma_view_entries(g.trailer@);
    }
    while t < g.trailer.len()
        invariant
            0 <= t <= g.trailer@.len(),
            g@.trailer.len() == g.trailer@.len(),
            forall|m: int|
                0 <= m < g.trailer@.len() ==> #[trigger] g@.trailer[m] == (
                    g.trailer@[m].0@,
                    g.trailer@[m].1@,
                ),
            forall|m: int|
                0 <= m < t ==> refs_below((#[trigger] g@.trailer[m]).1, g.max_id as int),
        decreases g.trailer.len() - t,
    {
        if !refs_below_exec(&g.trailer[t].1, g.max_id) {
            proof {
                assert(!refs_below(g@.trailer[t as int].1, g.max_id as int));
                assert(!wf_graph(g@));
            }
            return false;
        }
        t = t + 1;
    }
    proof {
        assert forall|a: int, b: int|
            0 <= a < b < g@.objects.len() implies id_lt(
            (#[trigger] g@.objects[a]).0,
            (#[trigger] g@.objects[b]).0,
        ) by {
            lemma_adjacent_lt(g@.objects, a, b);
        }
    }
    true
}

} // verus!
