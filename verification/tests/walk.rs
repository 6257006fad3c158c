//! Walks over small graphs, checked item by item.

use drake::Point;
use drake::index::cursor::{IndexCursor, IndexItem};
use drake::index::{Declaration, Index, Kind, TypeOrigin};

fn collect_items(index: &Index, cursor: &mut IndexCursor) -> Vec<(IndexItem, usize)> {
    let mut items = Vec::new();
    while let Some(item) = cursor.next_item(index) {
        items.push(item);
    }
    items
}

fn walk_all(index: &Index, name: &str) -> Vec<(IndexItem, usize)> {
    let mut cursor = index.walk(name).unwrap();
    collect_items(index, &mut cursor)
}

#[test]
fn emits_a_single_reference() {
    let mut index = Index::new();
    index.add_reference("MyType");

    let actual = walk_all(&index, "MyType");
    let expected = vec![(
        IndexItem::Type(0, "MyType".to_string(), TypeOrigin::External),
        0,
    )];

    assert_eq!(actual, expected)
}

#[test]
fn emits_type_with_one_declaration() {
    let mut index = Index::new();
    index.add_declaration(
        "MyType",
        Kind::Enum,
        "./MyType.swift",
        Point::new(10, 20),
        &vec![],
    );

    let declaration = Declaration {
        kind: Kind::Enum,
        point: Point::new(10, 20),
        file: 0,
        dependencies: vec![],
    };

    let actual = walk_all(&index, "MyType");
    let expected = vec![
        (IndexItem::Type(0, "MyType".to_string(), TypeOrigin::Local), 0),
        (IndexItem::Declaration(declaration), 1),
    ];

    assert_eq!(actual, expected)
}

#[test]
fn emits_type_with_two_declarations() {
    let mut index = Index::new();
    index.add_declaration(
        "MyType",
        Kind::Struct,
        "./SomeFile.swift",
        Point::new(10, 20),
        &vec![],
    );
    let declaration = Declaration {
        kind: Kind::Struct,
        point: Point::new(10, 20),
        file: 0,
        dependencies: vec![],
    };

    index.add_declaration(
        "MyType",
        Kind::Extension,
        "./SomeOtherFile.swift",
        Point::new(5, 10),
        &vec![],
    );
    let extension = Declaration {
        kind: Kind::Extension,
        point: Point::new(5, 10),
        file: 1,
        dependencies: vec![],
    };

    let actual = walk_all(&index, "MyType");
    let expected = vec![
        (IndexItem::Type(0, "MyType".to_string(), TypeOrigin::Local), 0),
        (IndexItem::Declaration(declaration), 1),
        (IndexItem::Declaration(extension), 1),
    ];

    assert_eq!(actual, expected)
}

#[test]
fn emits_type_with_one_declaration_and_an_unknown_dependency() {
    let mut index = Index::new();
    index.add_declaration(
        "MyType",
        Kind::Enum,
        "./MyType.swift",
        Point::new(10, 20),
        &vec![("OtherType".to_string(), Point::new(3, 10))],
    );

    let declaration = Declaration {
        kind: Kind::Enum,
        point: Point::new(10, 20),
        file: 0,
        dependencies: vec![(0, Point::new(3, 10))],
    };

    let actual = walk_all(&index, "MyType");
    let expected = vec![
        (IndexItem::Type(1, "MyType".to_string(), TypeOrigin::Local), 0),
        (IndexItem::Declaration(declaration), 1),
        (
            IndexItem::Dependency(0, "OtherType".to_string(), Point::new(3, 10)),
            2,
        ),
        (
            IndexItem::Type(0, "OtherType".to_string(), TypeOrigin::External),
            3,
        ),
    ];

    assert_eq!(actual, expected)
}

#[test]
fn emits_type_with_one_declaration_and_a_known_dependency() {
    let mut index = Index::new();
    index.add_declaration(
        "MyType",
        Kind::Enum,
        "./MyType.swift",
        Point::new(10, 20),
        &vec![("OtherType".to_string(), Point::new(3, 10))],
    );
    index.add_declaration(
        "OtherType",
        Kind::Struct,
        "./OtherType.swift",
        Point::new(10, 20),
        &vec![],
    );

    let other_type_id = index.type_id("OtherType").unwrap();
    let declaration_1 = Declaration {
        kind: Kind::Enum,
        point: Point::new(10, 20),
        file: 0,
        dependencies: vec![(other_type_id, Point::new(3, 10))],
    };
    let declaration_2 = Declaration {
        kind: Kind::Struct,
        point: Point::new(10, 20),
        file: 1,
        dependencies: vec![],
    };

    let actual = walk_all(&index, "MyType");
    let expected = vec![
        (IndexItem::Type(1, "MyType".to_string(), TypeOrigin::Local), 0),
        (IndexItem::Declaration(declaration_1), 1),
        (
            IndexItem::Dependency(0, "OtherType".to_string(), Point::new(3, 10)),
            2,
        ),
        (
            IndexItem::Type(0, "OtherType".to_string(), TypeOrigin::Local),
            3,
        ),
        (IndexItem::Declaration(declaration_2), 4),
    ];

    assert_eq!(actual, expected)
}

#[test]
fn emits_type_with_one_declaration_and_multiple_unknown_dependencies() {
    let mut index = Index::new();
    index.add_declaration(
        "MyType",
        Kind::Enum,
        "./MyType.swift",
        Point::new(10, 20),
        &vec![
            ("OtherType".to_string(), Point::new(3, 10)),
            ("YetAnotherType".to_string(), Point::new(7, 10)),
        ],
    );

    let other_type_id = index.type_id("OtherType").unwrap();
    let yet_another_type_id = index.type_id("YetAnotherType").unwrap();
    let declaration = Declaration {
        kind: Kind::Enum,
        point: Point::new(10, 20),
        file: 0,
        dependencies: vec![
            (other_type_id, Point::new(3, 10)),
            (yet_another_type_id, Point::new(7, 10)),
        ],
    };

    let actual = walk_all(&index, "MyType");
    let expected = vec![
        (IndexItem::Type(2, "MyType".to_string(), TypeOrigin::Local), 0),
        (IndexItem::Declaration(declaration), 1),
        (
            IndexItem::Dependency(0, "OtherType".to_string(), Point::new(3, 10)),
            2,
        ),
        (
            IndexItem::Type(0, "OtherType".to_string(), TypeOrigin::External),
            3,
        ),
        (
            IndexItem::Dependency(1, "YetAnotherType".to_string(), Point::new(7, 10)),
            2,
        ),
        (
            IndexItem::Type(1, "YetAnotherType".to_string(), TypeOrigin::External),
            3,
        ),
    ];

    assert_eq!(actual, expected)
}

#[test]
fn walks_a_straight_path_with_unknown_references() {
    let mut index = Index::new();
    index.add_declaration(
        "MyType",
        Kind::Enum,
        "./MyType.swift",
        Point::new(10, 20),
        &vec![
            ("ExternalType".to_string(), Point::new(3, 10)),
            ("OtherType".to_string(), Point::new(8, 10)),
        ],
    );
    index.add_declaration(
        "OtherType",
        Kind::Struct,
        "./OtherType.swift",
        Point::new(10, 20),
        &vec![
            ("ExternalType".to_string(), Point::new(4, 10)),
            ("OneMoreType".to_string(), Point::new(5, 10)),
            ("AnotherExternalType".to_string(), Point::new(6, 10)),
        ],
    );
    index.add_declaration(
        "OneMoreType",
        Kind::Struct,
        "./OneMoreType.swift",
        Point::new(10, 20),
        &vec![("AnotherExternalType".to_string(), Point::new(6, 10))],
    );

    let declaration_1 = Declaration {
        kind: Kind::Enum,
        point: Point::new(10, 20),
        file: 0,
        dependencies: vec![
            (index.type_id("ExternalType").unwrap(), Point::new(3, 10)),
            (index.type_id("OtherType").unwrap(), Point::new(8, 10)),
        ],
    };
    let declaration_2 = Declaration {
        kind: Kind::Struct,
        point: Point::new(10, 20),
        file: 1,
        dependencies: vec![
            (index.type_id("ExternalType").unwrap(), Point::new(4, 10)),
            (index.type_id("OneMoreType").unwrap(), Point::new(5, 10)),
            (
                index.type_id("AnotherExternalType").unwrap(),
                Point::new(6, 10),
            ),
        ],
    };
    let declaration_3 = Declaration {
        kind: Kind::Struct,
        point: Point::new(10, 20),
        file: 2,
        dependencies: vec![(
            index.type_id("AnotherExternalType").unwrap(),
            Point::new(6, 10),
        )],
    };

    let actual = walk_all(&index, "MyType");
    let expected = vec![
        (IndexItem::Type(2, "MyType".to_string(), TypeOrigin::Local), 0),
        (IndexItem::Declaration(declaration_1), 1),
        (
            IndexItem::Dependency(0, "ExternalType".to_string(), Point::new(3, 10)),
            2,
        ),
        (
            IndexItem::Type(0, "ExternalType".to_string(), TypeOrigin::External),
            3,
        ),
        (
            IndexItem::Dependency(1, "OtherType".to_string(), Point::new(8, 10)),
            2,
        ),
        (
            IndexItem::Type(1, "OtherType".to_string(), TypeOrigin::Local),
            3,
        ),
        (IndexItem::Declaration(declaration_2), 4),
        (
            IndexItem::Dependency(0, "ExternalType".to_string(), Point::new(4, 10)),
            5,
        ),
        (
            IndexItem::Dependency(3, "OneMoreType".to_string(), Point::new(5, 10)),
            5,
        ),
        (
            IndexItem::Type(3, "OneMoreType".to_string(), TypeOrigin::Local),
            6,
        ),
        (IndexItem::Declaration(declaration_3), 7),
        (
            IndexItem::Dependency(4, "AnotherExternalType".to_string(), Point::new(6, 10)),
            8,
        ),
        (
            IndexItem::Type(4, "AnotherExternalType".to_string(), TypeOrigin::External),
            9,
        ),
        (
            IndexItem::Dependency(4, "AnotherExternalType".to_string(), Point::new(6, 10)),
            5,
        ),
    ];

    assert_eq!(actual, expected)
}

#[test]
fn walks_a_tree_with_unknown_references() {
    let mut index = Index::new();
    index.add_declaration(
        "MyType",
        Kind::Enum,
        "./MyType.swift",
        Point::new(10, 20),
        &vec![("OtherType".to_string(), Point::new(8, 10))],
    );
    index.add_declaration(
        "MyType",
        Kind::Extension,
        "./Extension.swift",
        Point::new(12, 20),
        &vec![
            ("ExternalType".to_string(), Point::new(4, 10)),
            ("OneMoreType".to_string(), Point::new(5, 10)),
            ("AnotherExternalType".to_string(), Point::new(6, 10)),
        ],
    );
    index.add_declaration(
        "OneMoreType",
        Kind::Struct,
        "./OneMoreType.swift",
        Point::new(10, 20),
        &vec![("ExternalType".to_string(), Point::new(6, 10))],
    );

    let declaration_1 = Declaration {
        kind: Kind::Enum,
        point: Point::new(10, 20),
        file: 0,
        dependencies: vec![(index.type_id("OtherType").unwrap(), Point::new(8, 10))],
    };
    let declaration_2 = Declaration {
        kind: Kind::Extension,
        point: Point::new(12, 20),
        file: 1,
        dependencies: vec![
            (index.type_id("ExternalType").unwrap(), Point::new(4, 10)),
            (index.type_id("OneMoreType").unwrap(), Point::new(5, 10)),
            (
                index.type_id("AnotherExternalType").unwrap(),
                Point::new(6, 10),
            ),
        ],
    };
    let declaration_3 = Declaration {
        kind: Kind::Struct,
        point: Point::new(10, 20),
        file: 2,
        dependencies: vec![(index.type_id("ExternalType").unwrap(), Point::new(6, 10))],
    };

    let actual = walk_all(&index, "MyType");
    let expected = vec![
        (IndexItem::Type(1, "MyType".to_string(), TypeOrigin::Local), 0),
        (IndexItem::Declaration(declaration_1), 1),
        (
            IndexItem::Dependency(0, "OtherType".to_string(), Point::new(8, 10)),
            2,
        ),
        (
            IndexItem::Type(0, "OtherType".to_string(), TypeOrigin::External),
            3,
        ),
        (IndexItem::Declaration(declaration_2), 1),
        (
            IndexItem::Dependency(2, "ExternalType".to_string(), Point::new(4, 10)),
            2,
        ),
        (
            IndexItem::Type(2, "ExternalType".to_string(), TypeOrigin::External),
            3,
        ),
        (
            IndexItem::Dependency(3, "OneMoreType".to_string(), Point::new(5, 10)),
            2,
        ),
        (
            IndexItem::Type(3, "OneMoreType".to_string(), TypeOrigin::Local),
            3,
        ),
        (IndexItem::Declaration(declaration_3), 4),
        (
            IndexItem::Dependency(2, "ExternalType".to_string(), Point::new(6, 10)),
            5,
        ),
        (
            IndexItem::Dependency(4, "AnotherExternalType".to_string(), Point::new(6, 10)),
            2,
        ),
        (
            IndexItem::Type(4, "AnotherExternalType".to_string(), TypeOrigin::External),
            3,
        ),
    ];

    assert_eq!(actual, expected)
}

#[test]
fn walks_a_graph_ignoring_back_edges() {
    let mut index = Index::new();
    index.add_declaration(
        "MyType",
        Kind::Enum,
        "./MyType.swift",
        Point::new(10, 20),
        &vec![
            ("ExternalType".to_string(), Point::new(7, 10)),
            ("OtherType".to_string(), Point::new(3, 10)),
        ],
    );
    index.add_declaration(
        "OtherType",
        Kind::Enum,
        "./OtherType.swift",
        Point::new(10, 20),
        &vec![
            ("MyType".to_string(), Point::new(7, 10)),
            ("ExternalType".to_string(), Point::new(3, 10)),
        ],
    );

    let declaration_1 = Declaration {
        kind: Kind::Enum,
        point: Point::new(10, 20),
        file: 0,
        dependencies: vec![
            (index.type_id("ExternalType").unwrap(), Point::new(7, 10)),
            (index.type_id("OtherType").unwrap(), Point::new(3, 10)),
        ],
    };

    let declaration_2 = Declaration {
        kind: Kind::Enum,
        point: Point::new(10, 20),
        file: 1,
        dependencies: vec![
            (index.type_id("MyType").unwrap(), Point::new(7, 10)),
            (index.type_id("ExternalType").unwrap(), Point::new(3, 10)),
        ],
    };

    let actual = walk_all(&index, "MyType");
    let expected = vec![
        (IndexItem::Type(2, "MyType".to_string(), TypeOrigin::Local), 0),
        (IndexItem::Declaration(declaration_1), 1),
        (
            IndexItem::Dependency(0, "ExternalType".to_string(), Point::new(7, 10)),
            2,
        ),
        (
            IndexItem::Type(0, "ExternalType".to_string(), TypeOrigin::External),
            3,
        ),
        (
            IndexItem::Dependency(1, "OtherType".to_string(), Point::new(3, 10)),
            2,
        ),
        (
            IndexItem::Type(1, "OtherType".to_string(), TypeOrigin::Local),
            3,
        ),
        (IndexItem::Declaration(declaration_2), 4),
        (
            IndexItem::Dependency(2, "MyType".to_string(), Point::new(7, 10)),
            5,
        ),
        (
            IndexItem::Dependency(0, "ExternalType".to_string(), Point::new(3, 10)),
            5,
        ),
    ];

    assert_eq!(actual, expected);
}

#[test]
fn walk_prunes_back_edge_and_keeps_external_leaves() {
    let mut index = Index::new();
    index.add_declaration(
        "A",
        Kind::Struct,
        "./A.swift",
        Point::new(1, 0),
        &vec![
            ("Ext".to_string(), Point::new(2, 4)),
            ("B".to_string(), Point::new(3, 4)),
        ],
    );
    index.add_declaration(
        "B",
        Kind::Struct,
        "./B.swift",
        Point::new(1, 0),
        &vec![
            ("Ext".to_string(), Point::new(2, 4)),
            ("A".to_string(), Point::new(3, 4)),
        ],
    );

    let a_decl = Declaration {
        kind: Kind::Struct,
        point: Point::new(1, 0),
        file: 0,
        dependencies: vec![(0, Point::new(2, 4)), (1, Point::new(3, 4))],
    };
    let b_decl = Declaration {
        kind: Kind::Struct,
        point: Point::new(1, 0),
        file: 1,
        dependencies: vec![(0, Point::new(2, 4)), (2, Point::new(3, 4))],
    };

    let actual = walk_all(&index, "A");
    let expected = vec![
        (IndexItem::Type(2, "A".to_string(), TypeOrigin::Local), 0),
        (IndexItem::Declaration(a_decl), 1),
        (IndexItem::Dependency(0, "Ext".to_string(), Point::new(2, 4)), 2),
        (IndexItem::Type(0, "Ext".to_string(), TypeOrigin::External), 3),
        (IndexItem::Dependency(1, "B".to_string(), Point::new(3, 4)), 2),
        (IndexItem::Type(1, "B".to_string(), TypeOrigin::Local), 3),
        (IndexItem::Declaration(b_decl), 4),
        (IndexItem::Dependency(0, "Ext".to_string(), Point::new(2, 4)), 5),
        (IndexItem::Dependency(2, "A".to_string(), Point::new(3, 4)), 5),
    ];

    assert_eq!(actual, expected);
}

#[test]
fn walk_of_an_unknown_name_fails() {
    let mut index = Index::new();
    index.add_reference("Known");

    let error = index.walk("Unknown").unwrap_err();
    assert_eq!(error.name, "Unknown".to_string());
    assert!(index.walk("Known").is_ok());
}

#[test]
fn an_exhausted_cursor_stays_exhausted() {
    let mut index = Index::new();
    index.add_reference("Only");

    let mut cursor = index.walk("Only").unwrap();
    assert!(cursor.next_item(&index).is_some());
    assert!(cursor.next_item(&index).is_none());
    assert!(cursor.next_item(&index).is_none());
}

#[test]
fn self_reference_is_a_pruned_back_edge() {
    let mut index = Index::new();
    index.add_declaration(
        "Loop",
        Kind::Class,
        "./Loop.swift",
        Point::new(4, 2),
        &vec![("Loop".to_string(), Point::new(5, 8))],
    );

    let declaration = Declaration {
        kind: Kind::Class,
        point: Point::new(4, 2),
        file: 0,
        dependencies: vec![(0, Point::new(5, 8))],
    };

    let actual = walk_all(&index, "Loop");
    let expected = vec![
        (IndexItem::Type(0, "Loop".to_string(), TypeOrigin::Local), 0),
        (IndexItem::Declaration(declaration), 1),
        (IndexItem::Dependency(0, "Loop".to_string(), Point::new(5, 8)), 2),
    ];

    assert_eq!(actual, expected);
}
