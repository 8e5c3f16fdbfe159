use flatdata::archive::{Archive, ArchiveBuilder, ArchiveSchema, Member, ResourceKind};
use flatdata::array_view::ArrayView;
use flatdata::error::ResourceStorageError;
use flatdata::storage::{to_stored_form, ResourceStorage};
use flatdata::structs::{Field, StructView, StructViewMut};

const META: &str = "namespace coappearances { /**
 * Meta information about the book.
 */
struct Meta {
    title_ref : u32 : 32;
    author_ref : u32 : 32;
} }
namespace coappearances { @explicit_reference( Meta.title_ref, strings )
    @explicit_reference( Meta.author_ref, strings )
    meta : Meta; }";

const VERTICES: &str = "namespace coappearances { /**
 * A character.
 */
struct Character {
    name_ref : u32 : 32;
} }
namespace coappearances { @explicit_reference( Character.name_ref, strings )
    vertices : vector< Character >; }";

const EDGES: &str = "namespace coappearances { struct Coappearance {
    a_ref : u32 : 16;
    b_ref : u32 : 16;
    count : u32 : 16;
    first_chapter_ref: u32 : 16;
} }
namespace coappearances { @explicit_reference( Coappearance.a_ref, vertices )
    @explicit_reference( Coappearance.b_ref, vertices )
    @explicit_reference( Coappearance.first_chapter_ref, chapters )
    edges : vector< Coappearance >; }";

const CHAPTERS: &str = "namespace coappearances { /**
 * A chapter in the book.
 */
struct Chapter {
    major: u8 : 4;
    minor: u8 : 7;
} }
namespace coappearances { chapters : vector< Chapter >; }";

const VERTICES_DATA: &str = "namespace coappearances { struct Nickname { ref: u32 : 32; } }
namespace coappearances { struct Description { ref: u32 : 32; } }
namespace coappearances { struct UnaryRelation { kind_ref: u32 : 32; to_ref: u32 : 16; } }
namespace coappearances { struct BinaryRelation { kind_ref: u32 : 32; to_a_ref: u32 : 16; to_b_ref: u32 : 16; } }
namespace _builtin.multivector { struct IndexType32 { value : u64 : 32; } }
namespace coappearances { @explicit_reference( Nickname.ref, strings )
    vertices_data: multivector< 32, Nickname, Description, UnaryRelation, BinaryRelation >; }";

const VERTICES_DATA_INDEX: &str = "index(namespace coappearances { struct Nickname { ref: u32 : 32; } }
namespace coappearances { struct Description { ref: u32 : 32; } }
namespace coappearances { struct UnaryRelation { kind_ref: u32 : 32; to_ref: u32 : 16; } }
namespace coappearances { struct BinaryRelation { kind_ref: u32 : 32; to_a_ref: u32 : 16; to_b_ref: u32 : 16; } }
namespace _builtin.multivector { struct IndexType32 { value : u64 : 32; } }
namespace coappearances { @explicit_reference( Nickname.ref, strings )
    vertices_data: multivector< 32, Nickname, Description, UnaryRelation, BinaryRelation >; })";

const STRINGS: &str = "namespace coappearances { // All strings contained in the data separated by `\\0`.
    strings: raw_data; }";

const GRAPH: &str = "namespace coappearances { @bound_implicitly( characters: vertices, vertices_data )
archive Graph {
    meta : Meta;
    vertices : vector< Character >;
    edges : vector< Coappearance >;
    vertices_data: multivector< 32, Nickname, Description, UnaryRelation, BinaryRelation >;
    chapters : vector< Chapter >;
    strings: raw_data;
} }";

const VARIANT_SIZES: [usize; 4] = [4, 4, 6, 8];
const NICKNAME: u8 = 0;

const META_MEMBER: usize = 0;
const VERTICES_MEMBER: usize = 1;
const EDGES_MEMBER: usize = 2;
const VERTICES_DATA_MEMBER: usize = 3;
const CHAPTERS_MEMBER: usize = 4;
const STRINGS_MEMBER: usize = 5;

const TITLE_REF: Field = Field { offset: 0, width: 32, signed: false };
const AUTHOR_REF: Field = Field { offset: 32, width: 32, signed: false };
const NAME_REF: Field = Field { offset: 0, width: 32, signed: false };
const A_REF: Field = Field { offset: 0, width: 16, signed: false };
const B_REF: Field = Field { offset: 16, width: 16, signed: false };
const COUNT: Field = Field { offset: 32, width: 16, signed: false };
const FIRST_CHAPTER_REF: Field = Field { offset: 48, width: 16, signed: false };
const MAJOR: Field = Field { offset: 0, width: 4, signed: false };
const MINOR: Field = Field { offset: 4, width: 7, signed: false };
const REF: Field = Field { offset: 0, width: 32, signed: false };
const INDEX_VALUE: Field = Field { offset: 0, width: 32, signed: false };

fn graph_schema_with(schema: &'static str, strings_optional: bool) -> ArchiveSchema {
    ArchiveSchema {
        name: "Graph",
        schema,
        members: vec![
            Member { name: "meta", schema: META, kind: ResourceKind::Struct { size: 8 }, optional: false },
            Member {
                name: "vertices",
                schema: VERTICES,
                kind: ResourceKind::Vector { element_size: 4 },
                optional: false,
            },
            Member {
                name: "edges",
                schema: EDGES,
                kind: ResourceKind::Vector { element_size: 8 },
                optional: false,
            },
            Member {
                name: "vertices_data",
                schema: VERTICES_DATA,
                kind: ResourceKind::MultiVector {
                    index_name: "vertices_data_index",
                    index_schema: VERTICES_DATA_INDEX,
                    index_width: 32,
                    sizes: &VARIANT_SIZES,
                },
                optional: false,
            },
            Member {
                name: "chapters",
                schema: CHAPTERS,
                kind: ResourceKind::Vector { element_size: 2 },
                optional: false,
            },
            Member { name: "strings", schema: STRINGS, kind: ResourceKind::RawData, optional: strings_optional },
        ],
    }
}

fn graph_schema() -> ArchiveSchema {
    graph_schema_with(GRAPH, false)
}

fn build_graph(storage: &mut ResourceStorage, with_strings: bool) {
    let builder = ArchiveBuilder::new(storage, graph_schema()).unwrap();

    let mut meta = vec![0u8; 8];
    {
        let mut view = StructViewMut::new(&mut meta, 0, 8).unwrap();
        view.set_unsigned(&TITLE_REF, 0);
        view.set_unsigned(&AUTHOR_REF, 6);
    }
    builder.set_struct(storage, META_MEMBER, &StructView::new(&meta, 0, 8).unwrap()).unwrap();

    let mut vertices = builder.start_vector(VERTICES_MEMBER).unwrap();
    vertices.grow().set_unsigned(&NAME_REF, 5);
    vertices.close(storage).unwrap();

    let mut edges = vec![0u8; 8];
    {
        let mut edge = StructViewMut::new(&mut edges, 0, 8).unwrap();
        edge.set_unsigned(&A_REF, 0);
        edge.set_unsigned(&B_REF, 0);
        edge.set_unsigned(&COUNT, 1);
        edge.set_unsigned(&FIRST_CHAPTER_REF, 0);
    }
    builder.set_vector(storage, EDGES_MEMBER, &ArrayView::new(&edges, 8)).unwrap();

    let mut vertices_data = builder.start_multivector(VERTICES_DATA_MEMBER).unwrap();
    vertices_data.add(NICKNAME).set_unsigned(&REF, 7);
    vertices_data.finish_item().unwrap();
    vertices_data.close(storage).unwrap();

    let mut chapters = vec![0u8; 2];
    {
        let mut chapter = StructViewMut::new(&mut chapters, 0, 2).unwrap();
        chapter.set_unsigned(&MAJOR, 1);
        chapter.set_unsigned(&MINOR, 2);
    }
    builder.set_vector(storage, CHAPTERS_MEMBER, &ArrayView::new(&chapters, 2)).unwrap();

    if with_strings {
        builder.set_raw_data(storage, STRINGS_MEMBER, b"title\0author\0").unwrap();
    }
}

#[test]
fn a_graph_is_built_and_reopened() {
    let mut storage = ResourceStorage::new();
    build_graph(&mut storage, true);

    assert_eq!(storage.blob("Graph.archive").unwrap(), &[0u8; 16]);
    assert_eq!(storage.blob("Graph.archive.schema").unwrap(), GRAPH.as_bytes());

    let schema = graph_schema();
    let graph = Archive::open(&storage, &schema).unwrap();

    let meta = graph.structure(META_MEMBER).unwrap();
    assert_eq!(meta.unsigned(&TITLE_REF), 0);
    assert_eq!(meta.unsigned(&AUTHOR_REF), 6);

    let vertices = graph.vector(VERTICES_MEMBER).unwrap();
    assert_eq!(vertices.len(), 1);
    assert_eq!(vertices.at(0).unwrap().unsigned(&NAME_REF), 5);

    let edges = graph.vector(EDGES_MEMBER).unwrap();
    assert_eq!(edges.len(), 1);
    let edge = edges.at(0).unwrap();
    assert_eq!(edge.unsigned(&A_REF), 0);
    assert_eq!(edge.unsigned(&B_REF), 0);
    assert_eq!(edge.unsigned(&COUNT), 1);
    assert_eq!(edge.unsigned(&FIRST_CHAPTER_REF), 0);

    let chapters = graph.vector(CHAPTERS_MEMBER).unwrap();
    assert_eq!(chapters.len(), 1);
    assert_eq!(chapters.at(0).unwrap().unsigned(&MAJOR), 1);
    assert_eq!(chapters.at(0).unwrap().unsigned(&MINOR), 2);

    let vertices_data = graph.multivector(VERTICES_DATA_MEMBER).unwrap();
    assert_eq!(vertices_data.len(), 1);
    let items = vertices_data.at(0).unwrap();
    assert_eq!(items.len(), 1);
    assert_eq!(items[0].tag, NICKNAME);
    assert_eq!(items[0].view.unsigned(&REF), 7);

    let index = storage.read("vertices_data_index", VERTICES_DATA_INDEX).unwrap();
    let entries = ArrayView::new(index, 4);
    assert_eq!(entries.len(), 2);
    assert_eq!(entries.at(0).unwrap().unsigned(&INDEX_VALUE), 0);
    assert_eq!(entries.at(1).unwrap().unsigned(&INDEX_VALUE), 5);
    assert_eq!(index, &[0, 0, 0, 0, 5, 0, 0, 0]);
    assert_eq!(storage.read("vertices_data", VERTICES_DATA).unwrap(), &[0, 7, 0, 0, 0]);

    assert_eq!(graph.raw_data(STRINGS_MEMBER).unwrap(), b"title\0author\0");
}

#[test]
fn accessors_answer_for_their_own_kind_only() {
    let mut storage = ResourceStorage::new();
    build_graph(&mut storage, true);
    let schema = graph_schema();
    let graph = Archive::open(&storage, &schema).unwrap();
    assert!(graph.structure(VERTICES_MEMBER).is_none());
    assert!(graph.vector(META_MEMBER).is_none());
    assert!(graph.multivector(EDGES_MEMBER).is_none());
    assert!(graph.raw_data(VERTICES_DATA_MEMBER).is_none());
    assert!(graph.vector(6).is_none());
    assert!(graph.structure(6).is_none());
    assert!(graph.multivector(6).is_none());
    assert!(graph.raw_data(6).is_none());
}

#[test]
fn an_archive_is_not_built_twice() {
    let mut storage = ResourceStorage::new();
    build_graph(&mut storage, true);
    let names = [
        "Graph.archive",
        "Graph.archive.schema",
        "meta",
        "meta.schema",
        "vertices",
        "vertices.schema",
        "edges",
        "edges.schema",
        "vertices_data",
        "vertices_data.schema",
        "vertices_data_index",
        "vertices_data_index.schema",
        "chapters",
        "chapters.schema",
        "strings",
        "strings.schema",
    ];
    let before: Vec<Vec<u8>> = names.iter().map(|n| storage.blob(n).unwrap().to_vec()).collect();
    match ArchiveBuilder::new(&mut storage, graph_schema()).unwrap_err() {
        ResourceStorageError::Io(err, name) => {
            assert_eq!(err.kind(), std::io::ErrorKind::AlreadyExists);
            assert_eq!(name, "Graph.archive");
        }
        other => panic!("expected an I/O error, got {:?}", other),
    }
    let after: Vec<Vec<u8>> = names.iter().map(|n| storage.blob(n).unwrap().to_vec()).collect();
    assert_eq!(before, after);
}

#[test]
fn a_member_is_set_once() {
    let mut storage = ResourceStorage::new();
    build_graph(&mut storage, true);
    let builder_schema = graph_schema();
    let mut other = ResourceStorage::new();
    let builder = ArchiveBuilder::new(&mut other, builder_schema).unwrap();
    builder.set_raw_data(&mut other, STRINGS_MEMBER, b"one").unwrap();
    match builder.set_raw_data(&mut other, STRINGS_MEMBER, b"two").unwrap_err() {
        ResourceStorageError::Io(err, name) => {
            assert_eq!(err.kind(), std::io::ErrorKind::AlreadyExists);
            assert_eq!(name, "strings");
        }
        other => panic!("expected an I/O error, got {:?}", other),
    }
    assert_eq!(other.read("strings", STRINGS).unwrap(), b"one");
    assert_eq!(builder.archive_schema().name, "Graph");
}

#[test]
fn members_are_started_as_what_they_are() {
    let mut storage = ResourceStorage::new();
    let mut schema = graph_schema();
    schema.members[CHAPTERS_MEMBER].kind = ResourceKind::Vector { element_size: 0 };
    let builder = ArchiveBuilder::new(&mut storage, schema).unwrap();
    assert!(builder.start_vector(VERTICES_MEMBER).is_some());
    assert!(builder.start_vector(META_MEMBER).is_none());
    assert!(builder.start_vector(VERTICES_DATA_MEMBER).is_none());
    assert!(builder.start_vector(CHAPTERS_MEMBER).is_none());
    assert!(builder.start_vector(6).is_none());
    assert!(builder.start_multivector(VERTICES_DATA_MEMBER).is_some());
    assert!(builder.start_multivector(VERTICES_MEMBER).is_none());
    assert!(builder.start_multivector(6).is_none());
    let started = builder.start_multivector(VERTICES_DATA_MEMBER).unwrap();
    assert_eq!(started.positions(), 0);
    assert_eq!(started.payload_len(), 0);
    assert_eq!(builder.start_vector(EDGES_MEMBER).unwrap().len(), 0);
}

#[test]
fn opening_without_a_signature_is_missing() {
    let storage = ResourceStorage::new();
    let schema = graph_schema();
    assert!(matches!(Archive::open(&storage, &schema), Err(ResourceStorageError::Missing)));
}

#[test]
fn opening_with_another_archive_schema_is_wrong_signature() {
    let mut storage = ResourceStorage::new();
    build_graph(&mut storage, true);
    let changed = graph_schema_with(
        "namespace coappearances { archive Graph {\n    meta : Meta;\n} }",
        false,
    );
    match Archive::open(&storage, &changed) {
        Err(ResourceStorageError::WrongSignature { resource_name, diff }) => {
            assert_eq!(resource_name, "Graph.archive");
            assert!(!diff.is_empty());
        }
        _ => panic!("expected WrongSignature"),
    }
}

#[test]
fn opening_with_another_member_schema_is_wrong_signature() {
    let mut storage = ResourceStorage::new();
    build_graph(&mut storage, true);
    let mut schema = graph_schema();
    schema.members[CHAPTERS_MEMBER].schema = "namespace coappearances { /**
 * A chapter in the book.
 */
struct Chapter {
    major: u8 : 4;
    lesser: u8 : 7;
} }
namespace coappearances { chapters : vector< Chapter >; }";
    match Archive::open(&storage, &schema) {
        Err(ResourceStorageError::WrongSignature { resource_name, diff }) => {
            assert_eq!(resource_name, "chapters");
            assert_eq!(diff, "--- stored\n    minor: u8 : 7;\n+++ expected\n    lesser: u8 : 7;\n");
        }
        _ => panic!("expected WrongSignature"),
    }
}

#[test]
fn a_required_member_must_be_there_and_an_optional_one_need_not() {
    let mut storage = ResourceStorage::new();
    build_graph(&mut storage, false);
    let required = graph_schema();
    assert!(matches!(Archive::open(&storage, &required), Err(ResourceStorageError::Missing)));
    let optional = graph_schema_with(GRAPH, true);
    let graph = Archive::open(&storage, &optional).unwrap();
    assert!(graph.raw_data(STRINGS_MEMBER).is_none());
    assert!(graph.vector(VERTICES_MEMBER).is_some());
}

#[test]
fn a_multivector_without_its_index_is_missing_data() {
    let mut storage = ResourceStorage::new();
    let builder = ArchiveBuilder::new(&mut storage, graph_schema()).unwrap();
    builder.set_struct(&mut storage, META_MEMBER, &StructView::new(&[0u8; 8], 0, 8).unwrap()).unwrap();
    builder.start_vector(VERTICES_MEMBER).unwrap().close(&mut storage).unwrap();
    builder.start_vector(EDGES_MEMBER).unwrap().close(&mut storage).unwrap();
    storage.write("vertices_data", VERTICES_DATA, &[]).unwrap();
    let schema = graph_schema();
    assert!(matches!(Archive::open(&storage, &schema), Err(ResourceStorageError::MissingData)));
}

#[test]
fn a_member_without_its_schema_is_missing_schema() {
    let mut storage = ResourceStorage::new();
    let _builder = ArchiveBuilder::new(&mut storage, graph_schema()).unwrap();
    storage.put("meta", to_stored_form(&[0u8; 8]));
    let schema = graph_schema();
    match Archive::open(&storage, &schema) {
        Err(ResourceStorageError::MissingSchema(name)) => assert_eq!(name, "meta"),
        _ => panic!("expected MissingSchema"),
    }
}

#[test]
fn a_structure_of_the_wrong_size_is_unexpected_data_size() {
    let mut storage = ResourceStorage::new();
    let _builder = ArchiveBuilder::new(&mut storage, graph_schema()).unwrap();
    storage.write("meta", META, &[0u8; 7]).unwrap();
    let schema = graph_schema();
    assert!(matches!(
        Archive::open(&storage, &schema),
        Err(ResourceStorageError::UnexpectedDataSize)
    ));
}

#[test]
fn schemas_are_looked_up_and_checked() {
    let schema = graph_schema();
    assert!(schema.is_valid());
    assert_eq!(schema.signature_resource(), "Graph.archive");
    assert_eq!(schema.member_index("meta"), Some(0));
    assert_eq!(schema.member_index("chapters"), Some(4));
    assert_eq!(schema.member_index("vertices_data_index"), None);
    let mut broken = graph_schema();
    broken.members[EDGES_MEMBER].kind = ResourceKind::Vector { element_size: 0 };
    assert!(!broken.is_valid());
    assert!(!ResourceKind::MultiVector {
        index_name: "i",
        index_schema: "s",
        index_width: 65,
        sizes: &VARIANT_SIZES,
    }
    .is_valid());
    assert!(!ResourceKind::MultiVector {
        index_name: "i",
        index_schema: "s",
        index_width: 0,
        sizes: &VARIANT_SIZES,
    }
    .is_valid());
    assert!(ResourceKind::RawData.is_valid());
}

#[test]
fn the_resources_of_an_archive_are_named_in_order() {
    assert_eq!(
        graph_schema().resource_names(),
        vec![
            "Graph.archive",
            "meta",
            "vertices",
            "edges",
            "vertices_data",
            "vertices_data_index",
            "chapters",
            "strings",
        ]
    );
    let empty = ArchiveSchema { name: "Empty", schema: "", members: Vec::new() };
    assert_eq!(empty.resource_names(), vec!["Empty.archive"]);
}
