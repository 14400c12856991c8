//! Identifier relabelling: a uniform offset shift for the allocator, and a
//! table-driven replacement for the final compaction.  One walker rewrites
//! every reference an object contains.

use vstd::prelude::*;
use crate::object::{Object, ObjV, ObjectId, view_objs, view_entries, lemma_view_objs,
    lemma_view_entries};
use crate::graph::{refs_below, lemma_refs_below_array, lemma_refs_below_dict,
    lemma_refs_below_stream};

verus! {

broadcast use vstd::std_specs::vec::group_vec_axioms, vstd::seq::group_seq_axioms;

/// The largest value an object number can hold.
pub const NUMBER_LIMIT: u64 = 0xFFFF_FFFF_FFFF_FFFF;

/// How identifiers are rewritten: every number moved up by a fixed offset,
/// or each identifier replaced by its entry in a table (first match wins;
/// absent identifiers stay as they are).
#[derive(Debug)]
pub enum Relabel {
    Shift(u64),
    Table(Vec<(ObjectId, ObjectId)>),
}

/// The mathematical model of a relabelling.
pub enum RelabelV {
    Shift(u64),
    Table(Seq<(ObjectId, ObjectId)>),
}

impl View for Relabel {
    type V = RelabelV;

    open spec fn view(&self) -> RelabelV {
        match self {
            Relabel::Shift(k) => RelabelV::Shift(*k),
            Relabel::Table(t) => RelabelV::Table(t@),
        }
    }
}

/// First-match lookup in a relabelling table; an absent identifier maps to
/// itself.
pub open spec fn table_lookup(t: Seq<(ObjectId, ObjectId)>, id: ObjectId) -> ObjectId
    decreases t.len(),
{
    if t.len() == 0 {
        id
    } else if t[0].0 == id {
        t[0].1
    } else {
        table_lookup(t.subrange(1, t.len() as int), id)
    }
}

/// The identifier a relabelling sends `id` to.
pub open spec fn apply_relabel(r: RelabelV, id: ObjectId) -> ObjectId {
    match r {
        RelabelV::Shift(k) => ObjectId { number: (id.number + k) as u64, generation: id.generation },
        RelabelV::Table(t) => table_lookup(t, id),
    }
}

/// Whether the relabelling can be applied to the object without arithmetic
/// overflow: a shift needs every reference number to stay within range.
pub open spec fn relabel_ok(r: RelabelV, o: ObjV) -> bool {
    match r {
        RelabelV::Shift(k) => refs_below(o, NUMBER_LIMIT - k),
        RelabelV::Table(_) => true,
    }
}

/// The object with every reference it contains rewritten by the
/// relabelling; everything else is kept exactly.
pub open spec fn map_ids(o: ObjV, r: RelabelV) -> ObjV
    decreases o,
{
    match o {
        ObjV::Null => ObjV::Null,
        ObjV::Boolean(b) => ObjV::Boolean(b),
        ObjV::Integer(i) => ObjV::Integer(i),
        ObjV::Real(x) => ObjV::Real(x),
        ObjV::Text(t) => ObjV::Text(t),
        ObjV::Name(n) => ObjV::Name(n),
        ObjV::Array(s) => ObjV::Array(map_objs(s, r)),
        ObjV::Dictionary(d) => ObjV::Dictionary(map_entries(d, r)),
        ObjV::Stream(d, p) => ObjV::Stream(map_entries(d, r), p),
        ObjV::Reference(id) => ObjV::Reference(apply_relabel(r, id)),
    }
}

/// Elementwise `map_ids` over an object sequence.
pub open spec fn map_objs(s: Seq<ObjV>, r: RelabelV) -> Seq<ObjV>
    decreases s,
{
    if s.len() == 0 {
        Seq::empty()
    } else {
        map_objs(s.drop_last(), r).push(map_ids(s.last(), r))
    }
}

/// Elementwise `map_ids` over dictionary values; keys are kept.
pub open spec fn map_entries(d: Seq<(Seq<u8>, ObjV)>, r: RelabelV) -> Seq<(Seq<u8>, ObjV)>
    decreases d,
{
    if d.len() == 0 {
        Seq::empty()
    } else {
        map_entries(d.drop_last(), r).push((d.last().0, map_ids(d.last().1, r)))
    }
}

pub broadcast proof fn lemma_map_objs(s: Seq<ObjV>, r: RelabelV)
    ensures
        (#[trigger] map_objs(s, r)).len() == s.len(),
        forall|i: int| 0 <= i < s.len() ==> map_objs(s, r)[i] == map_ids(s[i], r),
    decreases s.len(),
{
    reveal_with_fuel(map_objs, 2);
    if s.len() > 0 {
        lemma_map_objs(s.drop_last(), r);
        assert forall|i: int| 0 <= i < s.len() implies map_objs(s, r)[i] == map_ids(s[i], r) by {
            if i < s.len() - 1 {
                assert(map_objs(s.drop_last(), r)[i] == map_ids(s.drop_last()[i], r));
                assert(s.drop_last()[i] == s[i]);
            } else {
                assert(s.last() == s[i]);
            }
        }
    }
}

pub broadcast proof fn lemma_map_entries(d: Seq<(Seq<u8>, ObjV)>, r: RelabelV)
    ensures
        (#[trigger] map_entries(d, r)).len() == d.len(),
        forall|i: int| 0 <= i < d.len() ==> map_entries(d, r)[i] == (
            d[i].0,
            map_ids(d[i].1, r),
        ),
    decreases d.len(),
{
    reveal_with_fuel(map_entries, 2);
    if d.len() > 0 {
        lemma_map_entries(d.drop_last(), r);
        assert forall|i: int| 0 <= i < d.len() implies map_entries(d, r)[i] == (
            d[i].0,
            map_ids(d[i].1, r),
        ) by {
            if i < d.len() - 1 {
                assert(map_entries(d.drop_last(), r)[i] == (
                    d.drop_last()[i].0,
                    map_ids(d.drop_last()[i].1, r),
                ));
                assert(d.drop_last()[i] == d[i]);
            } else {
                assert(d.last() == d[i]);
            }
        }
    }
}

/// Copies a byte string.
pub fn copy_bytes(v: &Vec<u8>) -> (r: Vec<u8>)
    ensures
        r@ == v@,
{
    let mut out: Vec<u8> = Vec::new();
    let mut i: usize = 0;
    while i < v.len()
        invariant
            0 <= i <= v@.len(),
            out@ =~= v@.subrange(0, i as int),
        decreases v.len() - i,
    {
        out.push(v[i]);
        i = i + 1;
    }
    proof {
        assert(out@ =~= v@);
    }
    out
}

/// First-match lookup in a relabelling table.
#[verifier::loop_isolation(false)]
pub fn table_lookup_exec(t: &Vec<(ObjectId, ObjectId)>, id: ObjectId) -> (r: ObjectId)
    ensures
        r == table_lookup(t@, id),
{
    proof {
        assert(t@.subrange(0, t@.len() as int) =~= t@);
    }
    let mut i: usize = 0;
    while i < t.len()
        invariant
            0 <= i <= t@.len(),
            table_lookup(t@, id) == table_lookup(t@.subrange(i as int, t@.len() as int), id),
        decreases t.len() - i,
    {
        if t[i].0 == id {
            proof {
                assert(t@.subrange(i as int, t@.len() as int)[0] == t@[i as int]);
            }
            return t[i].1;
        }
        proof {
            assert(t@.subrange(i as int, t@.len() as int).subrange(
                1,
                t@.len() - i,
            ) =~= t@.subrange(i + 1, t@.len() as int));
        }
        i = i + 1;
    }
    id
}

/// Applies a relabelling to one identifier.
pub fn apply_relabel_exec(r: &Relabel, id: ObjectId) -> (res: ObjectId)
    requires
        relabel_ok(r@, ObjV::Reference(id)),
    ensures
        res == apply_relabel(r@, id),
{
    match r {
        Relabel::Shift(k) => {
            proof {
                assert(refs_below(ObjV::Reference(id), NUMBER_LIMIT - *k));
            }
            ObjectId { number: id.number + *k, generation: id.generation }
        }
        Relabel::Table(t) => table_lookup_exec(t, id),
    }
}

/// Rewrites every reference the object contains by the relabelling.
#[verifier::loop_isolation(false)]
pub fn map_ids_exec(o: &Object, r: &Relabel) -> (res: Object)
    requires
        relabel_ok(r@, o@),
    ensures
        res@ == map_ids(o@, r@),
    decreases o,
{
    match o {
        Object::Null => {
            proof {
                assert(o@ == ObjV::Null);
            }
            Object::Null
        }
        Object::Boolean(x) => {
            proof {
                assert(o@ == ObjV::Boolean(*x));
            }
            Object::Boolean(*x)
        }
        Object::Integer(x) => {
            proof {
                assert(o@ == ObjV::Integer(*x));
            }
            Object::Integer(*x)
        }
        Object::Real(x) => {
            proof {
                assert(o@ == ObjV::Real(*x));
            }
            Object::Real(*x)
        }
        Object::Text(t) => {
            proof {
                assert(o@ == ObjV::Text(t@));
            }
            Object::Text(copy_bytes(t))
        }
        Object::Name(n) => {
            proof {
                assert(o@ == ObjV::Name(n@));
            }
            Object::Name(copy_bytes(n))
        }
        Object::Reference(id) => {
            proof {
                assert(o@ == ObjV::Reference(*id));
            }
            Object::Reference(apply_relabel_exec(r, *id))
        }
        Object::Array(v) => {
            proof {
                lemma_view_objs(v@);
                assert(o@ == ObjV::Array(view_objs(v@)));
                if let RelabelV::Shift(k) = r@ {
                    lemma_refs_below_array(view_objs(v@), NUMBER_LIMIT - k);
                }
            }
            let mut out: Vec<Object> = Vec::new();
            let mut j: usize = 0;
            while j < v.len()
                invariant
                    0 <= j <= v@.len(),
                    out@.len() == j,
                    forall|m: int| 0 <= m < j ==> (#[trigger] out@[m])@ == map_ids(v@[m]@, r@),
                decreases v.len() - j,
            {
                proof {
                    assert(decreases_to!(*o => v@[j as int]));
                    assert(view_objs(v@)[j as int] == v@[j as int]@);
                }
                let e = map_ids_exec(&v[j], r);
                out.push(e);
                j = j + 1;
            }
            proof {
                lemma_view_objs(out@);
                lemma_map_objs(view_objs(v@), r@);
                assert(view_objs(out@) =~= map_objs(view_objs(v@), r@));
            }
            Object::Array(out)
        }
        Object::Dictionary(d) => {
            proof {
                assert(o@ == ObjV::Dictionary(view_entries(d@)));
                if let RelabelV::Shift(k) = r@ {
                    lemma_refs_below_dict(view_entries(d@), NUMBER_LIMIT - k);
                }
            }
            let out = map_entries_exec(d, r);
            Object::Dictionary(out)
        }
        Object::Stream(d, p) => {
            proof {
                assert(o@ == ObjV::Stream(view_entries(d@), p@));
                if let RelabelV::Shift(k) = r@ {
                    lemma_refs_below_stream(view_entries(d@), p@, NUMBER_LIMIT - k);
                }
            }
            let out = map_entries_exec(d, r);
            Object::Stream(out, copy_bytes(p))
        }
    }
}

/// Rewrites every reference inside a dictionary's values.
#[verifier::loop_isolation(false)]
pub fn map_entries_exec(d: &Vec<(Vec<u8>, Object)>, r: &Relabel) -> (res: Vec<(Vec<u8>, Object)>)
    requires
        forall|i: int|
            0 <= i < view_entries(d@).len() ==> relabel_ok(r@, (#[trigger] view_entries(d@)[i]).1),
    ensures
        view_entries(res@) == map_entries(view_entries(d@), r@),
    decreases d,
{
    proof {
        lemma_view_entries(d@);
        lemma_map_entries(view_entries(d@), r@);
    }
    let mut out: Vec<(Vec<u8>, Object)> = Vec::new();
    let mut j: usize = 0;
    while j < d.len()
        invariant
            0 <= j <= d@.len(),
            out@.len() == j,
            forall|m: int|
                0 <= m < j ==> (#[trigger] out@[m]).0@ == d@[m].0@ && out@[m].1@ == map_ids(
                    d@[m].1@,
                    r@,
                ),
        decreases d.len() - j,
    {
        proof {
            assert(decreases_to!(*d => d@[j as int]));
            assert(view_entries(d@)[j as int] == (d@[j as int].0@, d@[j as int].1@));
        }
        let key = copy_bytes(&d[j].0);
        let val = map_ids_exec(&d[j].1, r);
        out.push((key, val));
        j = j + 1;
    }
    proof {
        lemma_view_entries(out@);
        assert(view_entries(out@) =~= map_entries(view_entries(d@), r@));
    }
    out
}

} // verus!
