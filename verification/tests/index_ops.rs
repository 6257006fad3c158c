//! The index's mutation and lookup operations.

use drake::Point;
use drake::extract;
use drake::index::cursor::{IndexCursor, IndexItem};
use drake::index::{Declaration, Index, Kind, TypeOrigin};

fn walk_all(index: &Index, name: &str) -> Vec<(IndexItem, usize)> {
    let mut cursor: IndexCursor = index.walk(name).unwrap();
    let mut items = Vec::new();
    while let Some(item) = cursor.next_item(index) {
        items.push(item);
    }
    items
}

#[test]
fn repeated_references_resolve_to_the_same_id() {
    let mut index = Index::new();
    let first = index.add_reference("MyType");
    let second = index.add_reference("MyType");
    let third = index.add_reference("MyType");

    assert_eq!(first, second);
    assert_eq!(second, third);
    assert_eq!(index.type_id("MyType"), Some(first));
}

#[test]
fn a_declaration_attaches_to_the_placeholder_id() {
    let mut index = Index::new();
    let placeholder = index.add_reference("MyType");
    let declared = index.add_declaration(
        "MyType",
        Kind::Struct,
        "./MyType.swift",
        Point::new(0, 0),
        &vec![],
    );

    assert_eq!(placeholder, declared);
    assert_eq!(index.type_count(), 1);
}

#[test]
fn origin_moves_from_external_to_local_and_stays() {
    let mut index = Index::new();
    let id = index.add_reference("MyType");
    assert_eq!(index.get_type(id).unwrap().origin(), TypeOrigin::External);

    index.add_declaration(
        "MyType",
        Kind::Enum,
        "./MyType.swift",
        Point::new(1, 2),
        &vec![],
    );
    assert_eq!(index.get_type(id).unwrap().origin(), TypeOrigin::Local);

    index.add_declaration(
        "MyType",
        Kind::Extension,
        "./More.swift",
        Point::new(3, 4),
        &vec![],
    );
    assert_eq!(index.get_type(id).unwrap().origin(), TypeOrigin::Local);

    // A declaration of another type leaves this origin alone.
    index.add_declaration(
        "Elsewhere",
        Kind::Class,
        "./Elsewhere.swift",
        Point::new(5, 6),
        &vec![("MyType".to_string(), Point::new(5, 20))],
    );
    assert_eq!(index.get_type(id).unwrap().origin(), TypeOrigin::Local);
}

#[test]
fn lookups_answer_from_the_stored_graph() {
    let mut index = Index::new();
    let id = index.add_declaration(
        "MyType",
        Kind::Protocol,
        "./MyType.swift",
        Point::new(9, 1),
        &vec![],
    );

    assert_eq!(index.type_id("MyType"), Some(id));
    assert_eq!(index.type_id("Absent"), None);

    let stored = index.get_type(id).unwrap();
    assert_eq!(stored.name, "MyType".to_string());
    assert_eq!(stored.declarations.len(), 1);
    assert!(index.get_type(id + 1).is_none());

    let declaration = &stored.declarations[0];
    assert_eq!(index.file_path(declaration), Some("./MyType.swift".to_string()));
}

#[test]
fn file_paths_are_interned_once() {
    let mut index = Index::new();
    index.add_declaration("A", Kind::Struct, "./Shared.swift", Point::new(0, 0), &vec![]);
    index.add_declaration("B", Kind::Struct, "./Shared.swift", Point::new(9, 0), &vec![]);

    let a = index.get_type(index.type_id("A").unwrap()).unwrap();
    let b = index.get_type(index.type_id("B").unwrap()).unwrap();
    assert_eq!(a.declarations[0].file, b.declarations[0].file);
}

#[test]
fn dependencies_group_locations_by_target() {
    let mut index = Index::new();
    index.add_declaration(
        "MyType",
        Kind::Class,
        "./MyType.swift",
        Point::new(0, 0),
        &vec![
            ("Twice".to_string(), Point::new(1, 1)),
            ("Once".to_string(), Point::new(2, 2)),
            ("Twice".to_string(), Point::new(3, 3)),
        ],
    );

    let twice = index.type_id("Twice").unwrap();
    let once = index.type_id("Once").unwrap();
    let id = index.type_id("MyType").unwrap();
    let stored = index.get_type(id).unwrap();
    let grouped = stored.declarations[0].dependencies();

    assert_eq!(grouped.len(), 2);
    assert_eq!(
        grouped.get(&twice),
        Some(&vec![Point::new(1, 1), Point::new(3, 3)])
    );
    assert_eq!(grouped.get(&once), Some(&vec![Point::new(2, 2)]));
    assert_eq!(grouped.get(&id), None);
}

#[test]
fn duplicate_edges_stay_distinct_in_the_walk() {
    let mut index = Index::new();
    index.add_declaration(
        "MyType",
        Kind::Struct,
        "./MyType.swift",
        Point::new(0, 0),
        &vec![
            ("Dep".to_string(), Point::new(1, 1)),
            ("Dep".to_string(), Point::new(2, 2)),
        ],
    );

    let declaration = Declaration {
        kind: Kind::Struct,
        point: Point::new(0, 0),
        file: 0,
        dependencies: vec![(0, Point::new(1, 1)), (0, Point::new(2, 2))],
    };

    let actual = walk_all(&index, "MyType");
    let expected = vec![
        (IndexItem::Type(1, "MyType".to_string(), TypeOrigin::Local), 0),
        (IndexItem::Declaration(declaration), 1),
        (IndexItem::Dependency(0, "Dep".to_string(), Point::new(1, 1)), 2),
        (IndexItem::Type(0, "Dep".to_string(), TypeOrigin::External), 3),
        (IndexItem::Dependency(0, "Dep".to_string(), Point::new(2, 2)), 2),
    ];

    assert_eq!(actual, expected);
}

#[test]
fn packages_resolve_by_name_and_longest_path_prefix() {
    let mut index = Index::new();
    index.add_package("Core", "./Packages/Core");
    index.add_package("CoreUtils", "./Packages/Core/Utils");
    index.add_package("App", "./App");

    assert_eq!(index.package_id("Core"), Some(0));
    assert_eq!(index.package_id("CoreUtils"), Some(1));
    assert_eq!(index.package_id("App"), Some(2));
    assert_eq!(index.package_id("Absent"), None);

    assert_eq!(
        index.package_id_for_path("./Packages/Core/Sources/File.swift"),
        Some(0)
    );
    assert_eq!(
        index.package_id_for_path("./Packages/Core/Utils/Sources/File.swift"),
        Some(1)
    );
    assert_eq!(index.package_id_for_path("./App/main.swift"), Some(2));
    assert_eq!(index.package_id_for_path("./Elsewhere/File.swift"), None);
}

#[test]
fn same_package_name_keeps_the_last_write() {
    let mut index = Index::new();
    index.add_package("Core", "./First");
    index.add_package("Core", "./Second");

    assert_eq!(index.package_id("Core"), Some(1));
    assert_eq!(index.package_id_for_path("./First/File.swift"), Some(0));
    assert_eq!(index.package_id_for_path("./Second/File.swift"), Some(1));
}

#[test]
fn ingest_indexes_known_kinds_and_skips_the_rest() {
    let mut index = Index::new();
    let records = vec![
        extract::Declaration {
            definition: extract::Definition::Class {
                kind: "class".to_string(),
                name: "MyClass".to_string(),
            },
            location: Point::new(1, 0),
            references: vec![extract::Reference {
                name: "Helper".to_string(),
                location: Point::new(2, 4),
            }],
        },
        extract::Declaration {
            definition: extract::Definition::Class {
                kind: "struct".to_string(),
                name: "MyStruct".to_string(),
            },
            location: Point::new(5, 0),
            references: vec![],
        },
        extract::Declaration {
            definition: extract::Definition::Class {
                kind: "actor".to_string(),
                name: "Skipped".to_string(),
            },
            location: Point::new(7, 0),
            references: vec![],
        },
        extract::Declaration {
            definition: extract::Definition::Protocol {
                name: "MyProtocol".to_string(),
            },
            location: Point::new(9, 0),
            references: vec![],
        },
        extract::Declaration {
            definition: extract::Definition::Extension {
                name: "MyClass".to_string(),
            },
            location: Point::new(11, 0),
            references: vec![],
        },
    ];

    let count = extract::ingest(&mut index, "./File.swift", &records);
    assert_eq!(count, 4);
    assert_eq!(index.type_id("Skipped"), None);

    let class_id = index.type_id("MyClass").unwrap();
    let class = index.get_type(class_id).unwrap();
    assert_eq!(class.declarations.len(), 2);
    assert_eq!(class.declarations[0].kind, Kind::Class);
    assert_eq!(class.declarations[1].kind, Kind::Extension);
    assert_eq!(class.origin(), TypeOrigin::Local);

    let helper = index.get_type(index.type_id("Helper").unwrap()).unwrap();
    assert_eq!(helper.origin(), TypeOrigin::External);

    let my_struct = index.get_type(index.type_id("MyStruct").unwrap()).unwrap();
    assert_eq!(my_struct.declarations[0].kind, Kind::Struct);
    let my_protocol = index.get_type(index.type_id("MyProtocol").unwrap()).unwrap();
    assert_eq!(my_protocol.declarations[0].kind, Kind::Protocol);
}

#[test]
fn definition_kind_maps_keywords() {
    let class = extract::Definition::Class {
        kind: "class".to_string(),
        name: "C".to_string(),
    };
    assert_eq!(
        extract::definition_kind(&class),
        Some(("C".to_string(), Kind::Class))
    );

    let unknown = extract::Definition::Class {
        kind: "macro".to_string(),
        name: "M".to_string(),
    };
    assert_eq!(extract::definition_kind(&unknown), None);

    let ext = extract::Definition::Extension {
        name: "E".to_string(),
    };
    assert_eq!(
        extract::definition_kind(&ext),
        Some(("E".to_string(), Kind::Extension))
    );
}
