//! Bookmarks and the outline tree: one pending bookmark per contributing
//! source document, compiled into an outline attached to the catalog.

use vstd::prelude::*;
use crate::object::{Object, ObjV, ObjectId, NameTag, nm, name_bytes, view_entries,
    lemma_view_entries};
use crate::graph::view_id_entries;

verus! {

broadcast use vstd::std_specs::vec::group_vec_axioms, vstd::seq::group_seq_axioms;

/// A pending bookmark: a title, a colour (three raw component bit
/// patterns), an indent level (always zero here, kept for extension), and
/// the identifier of the page it targets.
#[derive(Debug)]
pub struct Bookmark {
    pub title: Vec<u8>,
    pub color: (u32, u32, u32),
    pub indent: u32,
    pub target: ObjectId,
}

/// The mathematical model of a bookmark.
pub struct BookmarkV {
    pub title: Seq<u8>,
    pub color: (u32, u32, u32),
    pub indent: u32,
    pub target: ObjectId,
}

impl View for Bookmark {
    type V = BookmarkV;

    open spec fn view(&self) -> BookmarkV {
        BookmarkV {
            title: self.title@,
            color: self.color,
            indent: self.indent,
            target: self.target,
        }
    }
}

/// Model of an exec bookmark sequence, elementwise.
pub open spec fn view_bookmarks(s: Seq<Bookmark>) -> Seq<BookmarkV> {
    Seq::new(s.len(), |i: int| s[i]@)
}

/// The default bookmark colour: the bit patterns of pure blue.
pub open spec fn default_color() -> (u32, u32, u32) {
    (0u32, 0u32, 0x3F80_0000u32)
}

/// Builds the default bookmark colour.
pub fn default_color_exec() -> (r: (u32, u32, u32))
    ensures
        r == default_color(),
{
    (0, 0, 0x3F80_0000)
}

/// The decimal spelling of a number, most significant digit first.
pub open spec fn dec_rep(n: nat) -> Seq<u8>
    decreases n,
{
    if n < 10 {
        seq![(48 + n) as u8]
    } else {
        dec_rep(n / 10).push((48 + (n % 10)) as u8)
    }
}

/// The title of the bookmark for the `n`-th contributing document.
pub open spec fn title_rep(n: nat) -> Seq<u8> {
    nm(NameTag::PagePrefix) + dec_rep(n)
}

/// Builds the decimal spelling of a number.
pub fn dec_bytes(n: u64) -> (r: Vec<u8>)
    ensures
        r@ == dec_rep(n as nat),
    decreases n,
{
    if n < 10 {
        let mut v: Vec<u8> = Vec::new();
        v.push(48 + (n as u8));
        proof {
            assert(v@ =~= dec_rep(n as nat));
        }
        v
    } else {
        let mut v = dec_bytes(n / 10);
        v.push(48 + ((n % 10) as u8));
        proof {
            assert((n as nat) / 10 == (n / 10) as nat);
            assert(v@ =~= dec_rep(n as nat));
        }
        v
    }
}

/// Builds the title of the bookmark for the `n`-th contributing document.
pub fn title_bytes(n: u64) -> (r: Vec<u8>)
    ensures
        r@ == title_rep(n as nat),
{
    let mut v = name_bytes(NameTag::PagePrefix);
    let mut d = dec_bytes(n);
    v.append(&mut d);
    proof {
        assert(v@ =~= title_rep(n as nat));
    }
    v
}

/// Bookmarks after the placeholder policy: a bookmark whose target is the
/// zero identifier is rebound to the first pooled page when one exists.
pub open spec fn adjust_zero(bms: Seq<BookmarkV>, pool: Seq<(ObjectId, ObjV)>) -> Seq<
    BookmarkV,
> {
    Seq::new(
        bms.len(),
        |i: int|
            if bms[i].target.number == 0 && pool.len() > 0 {
                BookmarkV { target: pool[0].0, ..bms[i] }
            } else {
                bms[i]
            },
    )
}

/// Rebinds zero-target bookmarks to the first pooled page.
#[verifier::loop_isolation(false)]
pub fn adjust_zero_exec(bms: Vec<Bookmark>, pool: &Vec<(ObjectId, Object)>) -> (r: Vec<Bookmark>)
    ensures
        view_bookmarks(r@) == adjust_zero(view_bookmarks(bms@), view_id_entries(pool@)),
{
    let ghost orig = view_bookmarks(bms@);
    let ghost spec_pool = view_id_entries(pool@);
    let mut bms = bms;
    let mut i: usize = 0;
    while i < bms.len()
        invariant
            0 <= i <= bms@.len(),
            bms@.len() == orig.len(),
            forall|m: int|
                i <= m < bms@.len() ==> (#[trigger] bms@[m])@ == orig[m],
            forall|m: int|
                0 <= m < i ==> (#[trigger] bms@[m])@ == adjust_zero(orig, spec_pool)[m],
        decreases bms.len() - i,
    {
        if bms[i].target.number == 0 && pool.len() > 0 {
            let first = pool[0].0;
            let ghost pre = bms@[i as int]@;
            let old_bm = bms.remove(i);
            let new_bm = Bookmark {
                title: old_bm.title,
                color: old_bm.color,
                indent: old_bm.indent,
                target: first,
            };
            bms.insert(i, new_bm);
            proof {
                assert(bms@[i as int]@ == BookmarkV { target: spec_pool[0].0, ..pre });
            }
        }
        i = i + 1;
    }
    proof {
        assert(view_bookmarks(bms@) =~= adjust_zero(orig, spec_pool));
    }
    bms
}

/// The identifier of the `i`-th outline item, counting from a base number.
pub open spec fn outline_item_id(base: int, i: int) -> ObjectId {
    ObjectId { number: (base + 1 + i) as u64, generation: 0u16 }
}

/// The identifier of the outline root.
pub open spec fn outline_root_id(base: int, count: int) -> ObjectId {
    ObjectId { number: (base + 1 + count) as u64, generation: 0u16 }
}

/// The dictionary of the `i`-th of `count` outline items: its role, its
/// title, its parent, its colour components (raw bit patterns), a
/// destination holding the target page reference with a Fit mode, and the
/// sibling links that chain the items in order.
pub open spec fn outline_item_dict(
    bm: BookmarkV,
    root: ObjectId,
    base: int,
    i: int,
    count: int,
) -> Seq<(Seq<u8>, ObjV)> {
    let head = seq![
        (nm(NameTag::TypeKey), ObjV::Name(nm(NameTag::OutlineName))),
        (nm(NameTag::TitleKey), ObjV::Text(bm.title)),
        (nm(NameTag::ParentKey), ObjV::Reference(root)),
        (
            nm(NameTag::ColorKey),
            ObjV::Array(
                seq![
                    ObjV::Real(bm.color.0),
                    ObjV::Real(bm.color.1),
                    ObjV::Real(bm.color.2),
                ],
            ),
        ),
        (
            nm(NameTag::DestKey),
            ObjV::Array(seq![ObjV::Reference(bm.target), ObjV::Name(nm(NameTag::FitName))]),
        ),
    ];
    let with_prev = if i > 0 {
        head.push((nm(NameTag::PrevKey), ObjV::Reference(outline_item_id(base, i - 1))))
    } else {
        head
    };
    if i < count - 1 {
        with_prev.push((nm(NameTag::NextKey), ObjV::Reference(outline_item_id(base, i + 1))))
    } else {
        with_prev
    }
}

/// The dictionary of the outline root.
pub open spec fn outline_root_dict(first: ObjectId, last: ObjectId, count: int) -> Seq<
    (Seq<u8>, ObjV),
> {
    seq![
        (nm(NameTag::TypeKey), ObjV::Name(nm(NameTag::OutlinesName))),
        (nm(NameTag::FirstKey), ObjV::Reference(first)),
        (nm(NameTag::LastKey), ObjV::Reference(last)),
        (nm(NameTag::CountKey), ObjV::Integer(count as i64)),
    ]
}

/// The table entries of the outline tree: one item per bookmark, in order,
/// then the root; empty when there are no bookmarks.
pub open spec fn outline_entries(bms: Seq<BookmarkV>, base: int) -> Seq<(ObjectId, ObjV)> {
    if bms.len() == 0 {
        Seq::empty()
    } else {
        let root = outline_root_id(base, bms.len() as int);
        Seq::new(
            bms.len(),
            |i: int| (
                outline_item_id(base, i),
                ObjV::Dictionary(outline_item_dict(bms[i], root, base, i, bms.len() as int)),
            ),
        ).push(
            (
                root,
                ObjV::Dictionary(
                    outline_root_dict(
                        outline_item_id(base, 0),
                        outline_item_id(base, bms.len() - 1),
                        bms.len() as int,
                    ),
                ),
            ),
        )
    }
}

/// Builds the dictionary of one outline item.
fn build_item_dict(bm: &Bookmark, root: ObjectId, base: u64, i: u64, count: u64) -> (r: Vec<
    (Vec<u8>, Object),
>)
    requires
        i < count,
        base + count + 1 <= 0xFFFF_FFFF_FFFF_FFFF,
    ensures
        view_entries(r@) == outline_item_dict(bm@, root, base as int, i as int, count as int),
{
    let mut d: Vec<(Vec<u8>, Object)> = Vec::new();
    d.push((name_bytes(NameTag::TypeKey), Object::Name(name_bytes(NameTag::OutlineName))));
    d.push((name_bytes(NameTag::TitleKey), Object::Text(crate::relabel::copy_bytes(&bm.title))));
    d.push((name_bytes(NameTag::ParentKey), Object::Reference(root)));
    let mut color: Vec<Object> = Vec::new();
    color.push(Object::Real(bm.color.0));
    color.push(Object::Real(bm.color.1));
    color.push(Object::Real(bm.color.2));
    proof {
        crate::object::lemma_view_objs(color@);
        assert(crate::object::view_objs(color@) =~= seq![
            ObjV::Real(bm@.color.0),
            ObjV::Real(bm@.color.1),
            ObjV::Real(bm@.color.2),
        ]);
    }
    d.push((name_bytes(NameTag::ColorKey), Object::Array(color)));
    let mut dest: Vec<Object> = Vec::new();
    dest.push(Object::Reference(bm.target));
    dest.push(Object::Name(name_bytes(NameTag::FitName)));
    proof {
        crate::object::lemma_view_objs(dest@);
        assert(crate::object::view_objs(dest@) =~= seq![
            ObjV::Reference(bm@.target),
            ObjV::Name(nm(NameTag::FitName)),
        ]);
    }
    d.push((name_bytes(NameTag::DestKey), Object::Array(dest)));
    if i > 0 {
        let prev = ObjectId { number: base + i, generation: 0 };
        proof {
            assert(prev == outline_item_id(base as int, i - 1));
        }
        d.push((name_bytes(NameTag::PrevKey), Object::Reference(prev)));
    }
    if i < count - 1 {
        let next = ObjectId { number: base + 2 + i, generation: 0 };
        proof {
            assert(next == outline_item_id(base as int, i + 1));
        }
        d.push((name_bytes(NameTag::NextKey), Object::Reference(next)));
    }
    proof {
        lemma_view_entries(d@);
        assert(view_entries(d@) =~= outline_item_dict(
            bm@,
            root,
            base as int,
            i as int,
            count as int,
        ));
    }
    d
}

/// Builds the dictionary of the outline root.
fn build_root_dict(first: ObjectId, last: ObjectId, count: i64) -> (r: Vec<(Vec<u8>, Object)>)
    ensures
        view_entries(r@) == outline_root_dict(first, last, count as int),
{
    let mut d: Vec<(Vec<u8>, Object)> = Vec::new();
    d.push((name_bytes(NameTag::TypeKey), Object::Name(name_bytes(NameTag::OutlinesName))));
    d.push((name_bytes(NameTag::FirstKey), Object::Reference(first)));
    d.push((name_bytes(NameTag::LastKey), Object::Reference(last)));
    d.push((name_bytes(NameTag::CountKey), Object::Integer(count)));
    proof {
        lemma_view_entries(d@);
        assert(view_entries(d@) =~= outline_root_dict(first, last, count as int));
    }
    d
}

/// Builds the outline table entries for the bookmarks.
#[verifier::loop_isolation(false)]
pub fn build_outline(bms: &Vec<Bookmark>, base: u64) -> (r: Vec<(ObjectId, Object)>)
    requires
        base + bms@.len() + 1 <= 0xFFFF_FFFF_FFFF_FFFF,
        bms@.len() <= 0x7FFF_FFFF_FFFF,
    ensures
        view_id_entries(r@) == outline_entries(view_bookmarks(bms@), base as int),
{
    let mut out: Vec<(ObjectId, Object)> = Vec::new();
    if bms.len() == 0 {
        proof {
            assert(view_id_entries(out@) =~= outline_entries(view_bookmarks(bms@), base as int));
        }
        return out;
    }
    let count: u64 = bms.len() as u64;
    let root = ObjectId { number: base + 1 + count, generation: 0 };
    proof {
        assert(root == outline_root_id(base as int, bms@.len() as int));
    }
    let mut i: usize = 0;
    while i < bms.len()
        invariant
            0 <= i <= bms@.len(),
            out@.len() == i,
            forall|m: int|
                0 <= m < i ==> (#[trigger] out@[m]).0 == outline_item_id(base as int, m)
                    && out@[m].1@ == ObjV::Dictionary(
                    outline_item_dict(view_bookmarks(bms@)[m], root, base as int, m, bms@.len() as int),
                ),
        decreases bms.len() - i,
    {
        let id = ObjectId { number: base + 1 + (i as u64), generation: 0 };
        let d = build_item_dict(&bms[i], root, base, i as u64, count);
        out.push((id, Object::Dictionary(d)));
        i = i + 1;
    }
    let first = ObjectId { number: base + 1, generation: 0 };
    let last = ObjectId { number: base + count, generation: 0 };
    let rd = build_root_dict(first, last, count as i64);
    out.push((root, Object::Dictionary(rd)));
    proof {
        assert(first == outline_item_id(base as int, 0));
        assert(last == outline_item_id(base as int, bms@.len() - 1));
        assert(view_id_entries(out@) =~= outline_entries(view_bookmarks(bms@), base as int));
    }
    out
}

} // verus!
