use pdf_merge::graph::{check_graph, Graph};
use pdf_merge::merge::{merge, MergeError};
use pdf_merge::object::{classify, Object, ObjectId, Role};
use pdf_merge::outline::{adjust_zero_exec, title_bytes, Bookmark};

fn id(number: u64) -> ObjectId {
    ObjectId { number, generation: 0 }
}

fn name(s: &str) -> Vec<u8> {
    s.as_bytes().to_vec()
}

fn dict(entries: Vec<(&str, Object)>) -> Vec<(Vec<u8>, Object)> {
    entries.into_iter().map(|(k, v)| (name(k), v)).collect()
}

fn page(parent: u64) -> Object {
    Object::Dictionary(dict(vec![
        ("Type", Object::Name(name("Page"))),
        ("Parent", Object::Reference(id(parent))),
    ]))
}

fn pages_dict(kids: &[u64]) -> Object {
    Object::Dictionary(dict(vec![
        ("Type", Object::Name(name("Pages"))),
        (
            "Kids",
            Object::Array(kids.iter().map(|k| Object::Reference(id(*k))).collect()),
        ),
        ("Count", Object::Integer(kids.len() as i64)),
    ]))
}

fn catalog(pages: u64) -> Object {
    Object::Dictionary(dict(vec![
        ("Type", Object::Name(name("Catalog"))),
        ("Pages", Object::Reference(id(pages))),
    ]))
}

/// A document whose catalog is object 1, pages dictionary object 2, and
/// pages objects 3.. in order.
fn doc_with_pages(n: u64) -> Graph {
    let mut objects = vec![(id(1), catalog(2))];
    let kids: Vec<u64> = (0..n).map(|k| 3 + k).collect();
    objects.push((id(2), pages_dict(&kids)));
    for k in &kids {
        objects.push((id(*k), page(2)));
    }
    Graph {
        objects,
        trailer: vec![(name("Root"), Object::Reference(id(1)))],
        max_id: 2 + n,
    }
}

fn get<'a>(d: &'a [(Vec<u8>, Object)], key: &str) -> Option<&'a Object> {
    d.iter().find(|e| e.0 == name(key)).map(|e| &e.1)
}

fn as_dict(o: &Object) -> &Vec<(Vec<u8>, Object)> {
    match o {
        Object::Dictionary(d) => d,
        Object::Stream(d, _) => d,
        _ => panic!("not a dictionary"),
    }
}

#[test]
fn classify_roles() {
    assert_eq!(classify(&catalog(2)), Role::Catalog);
    assert_eq!(classify(&pages_dict(&[3])), Role::Pages);
    assert_eq!(classify(&page(2)), Role::Page);
    assert_eq!(classify(&Object::Integer(7)), Role::Other);
    assert_eq!(
        classify(&Object::Dictionary(dict(vec![(
            "Type",
            Object::Name(name("Outlines"))
        )]))),
        Role::Outlines
    );
}

#[test]
fn well_formedness() {
    let good = doc_with_pages(2);
    assert!(check_graph(&good));
    let bad_zero = Graph {
        objects: vec![(id(0), Object::Null)],
        trailer: vec![],
        max_id: 1,
    };
    assert!(!check_graph(&bad_zero));
    let bad_order = Graph {
        objects: vec![(id(2), Object::Null), (id(1), Object::Null)],
        trailer: vec![],
        max_id: 2,
    };
    assert!(!check_graph(&bad_order));
    let bad_ref = Graph {
        objects: vec![(id(1), Object::Reference(id(9)))],
        trailer: vec![],
        max_id: 1,
    };
    assert!(!check_graph(&bad_ref));
}

#[test]
fn titles() {
    assert_eq!(title_bytes(1), name("Page_1"));
    assert_eq!(title_bytes(2), name("Page_2"));
    assert_eq!(title_bytes(12), name("Page_12"));
    assert_eq!(title_bytes(305), name("Page_305"));
}

#[test]
fn three_plus_two_pages() {
    let a = doc_with_pages(3);
    let b = doc_with_pages(2);
    assert!(check_graph(&a));
    assert!(check_graph(&b));
    let m = merge(&vec![a, b]).expect("merge should succeed");

    // five pages, one pages dictionary, one catalog, two outline items,
    // one outline root
    assert_eq!(m.objects.len(), 10);
    assert_eq!(m.max_id, 10);
    // dense identifiers from one
    for (k, e) in m.objects.iter().enumerate() {
        assert_eq!(e.0, id(1 + k as u64));
    }
    // the five pages come first: A's three pages then B's two
    for k in 0..5 {
        assert_eq!(classify(&m.objects[k].1), Role::Page);
        let pd = as_dict(&m.objects[k].1);
        // every page is re-parented under the merged pages dictionary
        assert_eq!(get(pd, "Parent"), Some(&Object::Reference(id(6))));
    }
    // the pages dictionary: Count 5, Kids in pool order
    let pd = as_dict(&m.objects[5].1);
    assert_eq!(get(pd, "Count"), Some(&Object::Integer(5)));
    let kids = match get(pd, "Kids").expect("kids") {
        Object::Array(v) => v,
        _ => panic!("kids not an array"),
    };
    let want: Vec<Object> = (1..=5).map(|k| Object::Reference(id(k))).collect();
    assert_eq!(kids, &want);
    // the catalog: rewired to the merged pages dictionary, outline attached
    let cd = as_dict(&m.objects[6].1);
    assert_eq!(classify(&m.objects[6].1), Role::Catalog);
    assert_eq!(get(cd, "Pages"), Some(&Object::Reference(id(6))));
    assert_eq!(get(cd, "Outlines"), Some(&Object::Reference(id(10))));
    // two bookmarks, in document order, targeting each document's first page
    let item1 = as_dict(&m.objects[7].1);
    assert_eq!(get(item1, "Title"), Some(&Object::Text(name("Page_1"))));
    assert_eq!(
        get(item1, "Dest"),
        Some(&Object::Array(vec![
            Object::Reference(id(1)),
            Object::Name(name("Fit"))
        ]))
    );
    // the default colour rides along as raw component bits
    assert_eq!(
        get(item1, "C"),
        Some(&Object::Array(vec![
            Object::Real(0),
            Object::Real(0),
            Object::Real(0x3F80_0000)
        ]))
    );
    // the sibling chain links the items in order
    assert_eq!(get(item1, "Prev"), None);
    assert_eq!(get(item1, "Next"), Some(&Object::Reference(id(9))));
    let item2 = as_dict(&m.objects[8].1);
    assert_eq!(get(item2, "Title"), Some(&Object::Text(name("Page_2"))));
    assert_eq!(
        get(item2, "Dest"),
        Some(&Object::Array(vec![
            Object::Reference(id(4)),
            Object::Name(name("Fit"))
        ]))
    );
    assert_eq!(get(item2, "Prev"), Some(&Object::Reference(id(8))));
    assert_eq!(get(item2, "Next"), None);
    // the outline root lists both items
    let root = as_dict(&m.objects[9].1);
    assert_eq!(get(root, "First"), Some(&Object::Reference(id(8))));
    assert_eq!(get(root, "Last"), Some(&Object::Reference(id(9))));
    assert_eq!(get(root, "Count"), Some(&Object::Integer(2)));
    // the trailer points at the merged catalog
    assert_eq!(
        m.trailer,
        vec![(name("Root"), Object::Reference(id(7)))]
    );
}

#[test]
fn single_document_passthrough() {
    let a = doc_with_pages(3);
    let m = merge(&vec![a]).expect("merge should succeed");
    // three pages, pages dictionary, catalog, one outline item, outline root
    assert_eq!(m.objects.len(), 7);
    for k in 0..3 {
        assert_eq!(classify(&m.objects[k].1), Role::Page);
    }
    let pd = as_dict(&m.objects[3].1);
    assert_eq!(get(pd, "Count"), Some(&Object::Integer(3)));
    let want: Vec<Object> = (1..=3).map(|k| Object::Reference(id(k))).collect();
    assert_eq!(
        get(pd, "Kids"),
        Some(&Object::Array(want))
    );
    // exactly one bookmark, targeting the first page
    let item = as_dict(&m.objects[5].1);
    assert_eq!(get(item, "Title"), Some(&Object::Text(name("Page_1"))));
    assert_eq!(
        get(item, "Dest"),
        Some(&Object::Array(vec![
            Object::Reference(id(1)),
            Object::Name(name("Fit"))
        ]))
    );
    // a single item carries no sibling links
    assert_eq!(get(item, "Prev"), None);
    assert_eq!(get(item, "Next"), None);
    let root = as_dict(&m.objects[6].1);
    assert_eq!(get(root, "Count"), Some(&Object::Integer(1)));
}

#[test]
fn zero_page_document_contributes_nothing() {
    let empty = doc_with_pages(0);
    let a = doc_with_pages(3);
    let m = merge(&vec![empty, a]).expect("merge should succeed");
    // three pages, pages dictionary, catalog, one outline item, outline root
    assert_eq!(m.objects.len(), 7);
    let pd = as_dict(&m.objects[3].1);
    assert_eq!(get(pd, "Count"), Some(&Object::Integer(3)));
    // only one bookmark: the zero-page document records none
    let root = as_dict(&m.objects[6].1);
    assert_eq!(get(root, "Count"), Some(&Object::Integer(1)));
    let item = as_dict(&m.objects[5].1);
    assert_eq!(get(item, "Title"), Some(&Object::Text(name("Page_1"))));
}

#[test]
fn zero_page_document_alone() {
    let empty = doc_with_pages(0);
    let m = merge(&vec![empty]).expect("merge should succeed");
    // pages dictionary and catalog only; no outline
    assert_eq!(m.objects.len(), 2);
    let pd = as_dict(&m.objects[0].1);
    assert_eq!(get(pd, "Count"), Some(&Object::Integer(0)));
    assert_eq!(get(pd, "Kids"), Some(&Object::Array(vec![])));
    let cd = as_dict(&m.objects[1].1);
    assert_eq!(get(cd, "Outlines"), None);
}

#[test]
fn pages_root_not_found() {
    // a document with a catalog but no pages dictionary
    let g = Graph {
        objects: vec![(id(1), catalog(2))],
        trailer: vec![(name("Root"), Object::Reference(id(1)))],
        max_id: 1,
    };
    assert_eq!(merge(&vec![g]), Err(MergeError::PagesRootNotFound));
    assert_eq!(merge(&vec![]), Err(MergeError::PagesRootNotFound));
}

#[test]
fn catalog_root_not_found() {
    let g = Graph {
        objects: vec![(id(1), pages_dict(&[]))],
        trailer: vec![],
        max_id: 1,
    };
    assert_eq!(merge(&vec![g]), Err(MergeError::CatalogRootNotFound));
}

#[test]
fn merge_is_deterministic() {
    let m1 = merge(&vec![doc_with_pages(3), doc_with_pages(2)]).expect("merge");
    let m2 = merge(&vec![doc_with_pages(3), doc_with_pages(2)]).expect("merge");
    assert_eq!(m1, m2);
}

#[test]
fn pages_fields_merge_first_wins() {
    let mut a = doc_with_pages(1);
    // give A's pages dictionary a custom field
    if let Object::Dictionary(d) = &mut a.objects[1].1 {
        d.push((name("Rotate"), Object::Integer(90)));
    }
    let mut b = doc_with_pages(1);
    if let Object::Dictionary(d) = &mut b.objects[1].1 {
        d.push((name("Rotate"), Object::Integer(180)));
        d.push((name("Extra"), Object::Integer(7)));
    }
    let m = merge(&vec![a, b]).expect("merge");
    // table: two pages, pages dictionary, catalog, two items, root
    let pd = as_dict(&m.objects[2].1);
    // the first document's value survives; the later field is added
    assert_eq!(get(pd, "Rotate"), Some(&Object::Integer(90)));
    assert_eq!(get(pd, "Extra"), Some(&Object::Integer(7)));
    assert_eq!(get(pd, "Count"), Some(&Object::Integer(2)));
}

#[test]
fn source_outlines_dropped() {
    let mut a = doc_with_pages(1);
    // attach an outline tree to the source document
    if let Object::Dictionary(d) = &mut a.objects[0].1 {
        d.push((name("Outlines"), Object::Reference(id(4))));
    }
    a.objects.push((
        id(4),
        Object::Dictionary(dict(vec![("Type", Object::Name(name("Outlines")))])),
    ));
    a.max_id = 4;
    let m = merge(&vec![a]).expect("merge");
    // one page, pages dictionary, catalog, one fresh item, fresh root:
    // the source outline object itself is dropped
    assert_eq!(m.objects.len(), 5);
    let cd = as_dict(&m.objects[2].1);
    // the catalog's outline entry points at the freshly built root
    assert_eq!(get(cd, "Outlines"), Some(&Object::Reference(id(5))));
    let root = as_dict(&m.objects[4].1);
    assert_eq!(
        get(root, "Type"),
        Some(&Object::Name(name("Outlines")))
    );
    assert_eq!(get(root, "Count"), Some(&Object::Integer(1)));
}

#[test]
fn streams_survive() {
    let mut a = doc_with_pages(1);
    a.objects.push((
        id(4),
        Object::Stream(
            dict(vec![("Length", Object::Integer(4))]),
            vec![1, 2, 3, 4],
        ),
    ));
    a.max_id = 4;
    let m = merge(&vec![a]).expect("merge");
    // the stream is kept among the other objects, ahead of the pages
    let found = m
        .objects
        .iter()
        .find(|e| matches!(e.1, Object::Stream(_, _)))
        .expect("stream kept");
    match &found.1 {
        Object::Stream(d, content) => {
            assert_eq!(get(d, "Length"), Some(&Object::Integer(4)));
            assert_eq!(content, &vec![1, 2, 3, 4]);
        }
        _ => unreachable!(),
    }
}

#[test]
fn zero_target_bookmark_rebinds_to_first_page() {
    let bms = vec![
        Bookmark {
            title: name("Page_1"),
            color: (0, 0, 0x3F80_0000),
            indent: 0,
            target: id(0),
        },
        Bookmark {
            title: name("Page_2"),
            color: (0, 0, 0x3F80_0000),
            indent: 0,
            target: id(9),
        },
    ];
    let pool = vec![(id(4), page(2)), (id(5), page(2))];
    let adjusted = adjust_zero_exec(bms, &pool);
    // the dangling bookmark is rebound to the first pooled page
    assert_eq!(adjusted[0].target, id(4));
    // a bound bookmark keeps its target
    assert_eq!(adjusted[1].target, id(9));
    // with no pages available, a zero target is left alone
    let dangling = vec![Bookmark {
        title: name("Page_1"),
        color: (0, 0, 0x3F80_0000),
        indent: 0,
        target: id(0),
    }];
    let kept = adjust_zero_exec(dangling, &vec![]);
    assert_eq!(kept[0].target, id(0));
}


#[test]
fn kids_order_wins_over_table_order() {
    // the page tree lists its pages as [4, 3] while the table holds 3
    // before 4: the merged order must follow the tree
    let mut page_a = dict(vec![
        ("Type", Object::Name(name("Page"))),
        ("Parent", Object::Reference(id(2))),
    ]);
    page_a.push((name("Marker"), Object::Integer(3)));
    let mut page_b = dict(vec![
        ("Type", Object::Name(name("Page"))),
        ("Parent", Object::Reference(id(2))),
    ]);
    page_b.push((name("Marker"), Object::Integer(4)));
    let g = Graph {
        objects: vec![
            (id(1), catalog(2)),
            (id(2), pages_dict(&[4, 3])),
            (id(3), Object::Dictionary(page_a)),
            (id(4), Object::Dictionary(page_b)),
        ],
        trailer: vec![(name("Root"), Object::Reference(id(1)))],
        max_id: 4,
    };
    assert!(check_graph(&g));
    let m = merge(&vec![g]).expect("merge should succeed");
    // old object 4 comes first, old object 3 second
    assert_eq!(get(as_dict(&m.objects[0].1), "Marker"), Some(&Object::Integer(4)));
    assert_eq!(get(as_dict(&m.objects[1].1), "Marker"), Some(&Object::Integer(3)));
    let pd = as_dict(&m.objects[2].1);
    assert_eq!(get(pd, "Count"), Some(&Object::Integer(2)));
    assert_eq!(
        get(pd, "Kids"),
        Some(&Object::Array(vec![
            Object::Reference(id(1)),
            Object::Reference(id(2))
        ]))
    );
    // the single bookmark targets the tree's first page, old object 4
    let item = as_dict(&m.objects[4].1);
    assert_eq!(
        get(item, "Dest"),
        Some(&Object::Array(vec![
            Object::Reference(id(1)),
            Object::Name(name("Fit"))
        ]))
    );
}

#[test]
fn nested_page_tree_in_reading_order() {
    // the root lists an intermediate pages node before a direct page;
    // the intermediate node's page comes first
    let inner = Object::Dictionary(dict(vec![
        ("Type", Object::Name(name("Pages"))),
        ("Kids", Object::Array(vec![Object::Reference(id(5))])),
        ("Count", Object::Integer(1)),
        ("Parent", Object::Reference(id(2))),
    ]));
    let mut deep_page = dict(vec![
        ("Type", Object::Name(name("Page"))),
        ("Parent", Object::Reference(id(3))),
    ]);
    deep_page.push((name("Marker"), Object::Integer(5)));
    let mut flat_page = dict(vec![
        ("Type", Object::Name(name("Page"))),
        ("Parent", Object::Reference(id(2))),
    ]);
    flat_page.push((name("Marker"), Object::Integer(4)));
    let g = Graph {
        objects: vec![
            (id(1), catalog(2)),
            (id(2), pages_dict(&[3, 4])),
            (id(3), inner),
            (id(4), Object::Dictionary(flat_page)),
            (id(5), Object::Dictionary(deep_page)),
        ],
        trailer: vec![(name("Root"), Object::Reference(id(1)))],
        max_id: 5,
    };
    assert!(check_graph(&g));
    let m = merge(&vec![g]).expect("merge should succeed");
    // the nested page first, then the direct one
    assert_eq!(get(as_dict(&m.objects[0].1), "Marker"), Some(&Object::Integer(5)));
    assert_eq!(get(as_dict(&m.objects[1].1), "Marker"), Some(&Object::Integer(4)));
    let pd = as_dict(&m.objects[2].1);
    assert_eq!(get(pd, "Count"), Some(&Object::Integer(2)));
}

#[test]
fn unreachable_page_is_dropped() {
    // a page-classified object the page tree never reaches is dropped,
    // exactly as one outside any Kids chain would be
    let mut g = doc_with_pages(1);
    g.objects.push((id(4), page(2)));
    g.max_id = 4;
    assert!(check_graph(&g));
    let m = merge(&vec![g]).expect("merge should succeed");
    // one page, pages dictionary, catalog, one item, one root
    assert_eq!(m.objects.len(), 5);
    let pd = as_dict(&m.objects[1].1);
    assert_eq!(get(pd, "Count"), Some(&Object::Integer(1)));
}

#[test]
fn generations_share_a_number() {
    // identifiers are (number, generation) pairs: two sharing a number
    // with different generations are accepted in lexicographic order
    let g = Graph {
        objects: vec![
            (id(1), catalog(2)),
            (id(2), pages_dict(&[])),
            (ObjectId { number: 3, generation: 0 }, Object::Null),
            (ObjectId { number: 3, generation: 1 }, Object::Integer(9)),
        ],
        trailer: vec![(name("Root"), Object::Reference(id(1)))],
        max_id: 3,
    };
    assert!(check_graph(&g));
    let m = merge(&vec![g]).expect("merge should succeed");
    assert_eq!(m.objects.len(), 4);
}
