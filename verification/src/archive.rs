//! Archives: named sets of resources that are written and read as one unit.
//!
//! An archive is described by its schema: its name, the text of its full
//! schema, and the table of its member resources. In a storage it is marked
//! by its signature resource, `<name>.archive`, which holds no bytes and is
//! stored with the full schema text. An archive is built through an
//! [`ArchiveBuilder`], which writes the signature first, and read through an
//! [`Archive`], which checks the signature and every member when it is
//! opened.

use crate::array_view::ArrayView;
use crate::error::{already_exists, new_already_exists_error, ErrorView, ResourceStorageError};
use crate::external_vector::ExternalVector;
use crate::multi_vector::{MultiArrayView, MultiVector};
use crate::storage::{holds_part, read_result, written, ResourceStorage};
use crate::structs::StructView;
use crate::text::str_eq;
use vstd::prelude::*;
use vstd::slice::slice_to_vec;
use vstd::string::StringExecFns;

verus! {

/// What kind of resource a member of an archive is.
#[derive(Clone, Copy, Debug)]
pub enum ResourceKind {
    /// One structure of `size` bytes.
    Struct { size: usize },
    /// A vector of structures of `element_size` bytes each.
    Vector { element_size: usize },
    /// A multivector with index entries of `index_width` bits, kept in the
    /// resource `index_name`, and variants of the given sizes, by tag.
    MultiVector {
        index_name: &'static str,
        index_schema: &'static str,
        index_width: usize,
        sizes: &'static [usize],
    },
    /// Bytes without structure.
    RawData,
}

/// One entry of an archive's table of members.
#[derive(Clone, Copy, Debug)]
pub struct Member {
    /// The name of the member's resource.
    pub name: &'static str,
    /// The schema of the member's resource.
    pub schema: &'static str,
    /// The kind of the member's resource.
    pub kind: ResourceKind,
    /// Whether an archive may lack the member.
    pub optional: bool,
}

/// The description of an archive.
#[derive(Debug)]
pub struct ArchiveSchema {
    /// The name of the archive.
    pub name: &'static str,
    /// The text of the full schema of the archive.
    pub schema: &'static str,
    /// The members of the archive.
    pub members: Vec<Member>,
}

/// The name of the signature resource of the archive `name`.
pub open spec fn signature_name(name: Seq<char>) -> Seq<char> {
    name + ".archive"@
}

/// The bytes of a member that an archive holds: those of its resource and,
/// for a multivector, those of its index.
pub struct MemberBytes {
    pub data: Seq<u8>,
    pub index: Seq<u8>,
}

impl ResourceKind {
    /// Whether the sizes of the kind can be used: elements have a size, and
    /// index entries a width from 1 to 64 bits.
    pub open spec fn wf(self) -> bool {
        match self {
            ResourceKind::Vector { element_size } => element_size > 0,
            ResourceKind::MultiVector { index_width, .. } => 1 <= index_width <= 64,
            _ => true,
        }
    }

    /// Whether the sizes of the kind can be used.
    pub fn is_valid(&self) -> (valid: bool)
        ensures
            valid == self.wf(),
    {
        match self {
            ResourceKind::Vector { element_size } => *element_size > 0,
            ResourceKind::MultiVector { index_width, .. } => 1 <= *index_width && *index_width <= 64,
            _ => true,
        }
    }
}

impl Member {
    /// The names of the resources of the member: that of its resource and,
    /// for a multivector, that of its index.
    pub open spec fn resource_names(self) -> Seq<Seq<char>> {
        match self.kind {
            ResourceKind::MultiVector { index_name, .. } => seq![self.name@, index_name@],
            _ => seq![self.name@],
        }
    }

    /// What opening an archive finds of the member in a storage: its bytes,
    /// nothing if the member is optional and absent, or the first check that
    /// fails.
    pub open spec fn found_in(self, store: Map<Seq<char>, Seq<u8>>) -> Result<
        Option<MemberBytes>,
        ErrorView,
    > {
        if !store.contains_key(self.name@) {
            if self.optional {
                Ok(None)
            } else {
                Err(ErrorView::Missing)
            }
        } else {
            match read_result(store, self.name@, self.schema@) {
                Err(e) => Err(e),
                Ok(data) => match self.kind {
                    ResourceKind::Struct { size } => if data.len() == size {
                        Ok(Some(MemberBytes { data, index: Seq::empty() }))
                    } else {
                        Err(ErrorView::UnexpectedDataSize)
                    },
                    ResourceKind::MultiVector { index_name, index_schema, .. } => if !store.contains_key(
                        index_name@,
                    ) {
                        Err(ErrorView::MissingData)
                    } else {
                        match read_result(store, index_name@, index_schema@) {
                            Err(e) => Err(e),
                            Ok(index) => Ok(Some(MemberBytes { data, index })),
                        }
                    },
                    _ => Ok(Some(MemberBytes { data, index: Seq::empty() })),
                },
            }
        }
    }
}

/// The names of the resources of a list of members, in their order: for
/// each member the name of its resource and, for a multivector, the name of
/// its index behind it.
pub open spec fn member_resource_names(members: Seq<Member>) -> Seq<Seq<char>>
    decreases members.len(),
{
    if members.len() == 0 {
        Seq::empty()
    } else {
        member_resource_names(members.drop_last()) + members.last().resource_names()
    }
}

/// The texts of a list of strings.
pub open spec fn texts_of(names: Seq<String>) -> Seq<Seq<char>> {
    Seq::new(names.len(), |i: int| names[i]@)
}

/// The first check that fails among the members from `from` on, if any
/// does.
pub open spec fn first_failure(store: Map<Seq<char>, Seq<u8>>, members: Seq<Member>, from: int) -> Option<
    ErrorView,
>
    decreases members.len() - from,
{
    if from < 0 || from >= members.len() {
        None
    } else {
        match members[from].found_in(store) {
            Err(e) => Some(e),
            Ok(_) => first_failure(store, members, from + 1),
        }
    }
}

impl ArchiveSchema {
    /// Whether the sizes of all members can be used.
    pub open spec fn wf(self) -> bool {
        forall|i: int| 0 <= i < self.members@.len() ==> (#[trigger] self.members@[i]).kind.wf()
    }

    /// The name of the signature resource.
    pub open spec fn signature(self) -> Seq<char> {
        signature_name(self.name@)
    }

    /// Why the signature of the archive is not accepted in a storage, if it
    /// is not: it is missing, or reading it with the full schema fails.
    pub open spec fn signature_failure(self, store: Map<Seq<char>, Seq<u8>>) -> Option<ErrorView> {
        if !store.contains_key(self.signature()) {
            Some(ErrorView::Missing)
        } else {
            match read_result(store, self.signature(), self.schema@) {
                Err(e) => Some(e),
                Ok(_) => None,
            }
        }
    }

    /// Why the archive cannot be opened in a storage, if it cannot: the
    /// signature is checked first, then the members in their order.
    pub open spec fn open_failure(self, store: Map<Seq<char>, Seq<u8>>) -> Option<ErrorView> {
        match self.signature_failure(store) {
            Some(e) => Some(e),
            None => first_failure(store, self.members@, 0),
        }
    }

    /// Whether the sizes of all members can be used.
    pub fn is_valid(&self) -> (valid: bool)
        ensures
            valid == self.wf(),
    {
        let mut i: usize = 0;
        while i < self.members.len()
            invariant
                i <= self.members@.len(),
                forall|k: int| 0 <= k < i ==> (#[trigger] self.members@[k]).kind.wf(),
            decreases self.members@.len() - i,
        {
            if !self.members[i].kind.is_valid() {
                return false;
            }
            i += 1;
        }
        true
    }

    /// The place of the member `name` in the table of members: that of the
    /// first member of this name, if there is one.
    pub fn member_index(&self, name: &str) -> (index: Option<usize>)
        ensures
            match index {
                Some(i) => i < self.members@.len() && self.members@[i as int].name@ == name@
                    && forall|k: int| 0 <= k < i ==> self.members@[k].name@ != name@,
                None => forall|k: int| 0 <= k < self.members@.len() ==> self.members@[k].name@ != name@,
            },
    {
        let mut i: usize = 0;
        while i < self.members.len()
            invariant
                i <= self.members@.len(),
                forall|k: int| 0 <= k < i ==> self.members@[k].name@ != name@,
            decreases self.members@.len() - i,
        {
            if str_eq(self.members[i].name, name) {
                return Some(i);
            }
            i += 1;
        }
        None
    }

    /// The names of all resources of the archive: that of its signature
    /// first, then those of its members in their order.
    pub open spec fn spec_resource_names(self) -> Seq<Seq<char>> {
        seq![self.signature()] + member_resource_names(self.members@)
    }

    /// The names of all resources of the archive: that of its signature
    /// first, then those of its members in their order, the index of a
    /// multivector behind the multivector.
    pub fn resource_names(&self) -> (names: Vec<String>)
        ensures
            texts_of(names@) == self.spec_resource_names(),
    {
        let mut names: Vec<String> = Vec::new();
        names.push(self.signature_resource());
        let mut i: usize = 0;
        assert(self.members@.take(0) =~= Seq::<Member>::empty());
        assert(texts_of(names@) =~= seq![self.signature()] + member_resource_names(
            self.members@.take(0),
        ));
        while i < self.members.len()
            invariant
                i <= self.members@.len(),
                texts_of(names@) == seq![self.signature()] + member_resource_names(
                    self.members@.take(i as int),
                ),
            decreases self.members@.len() - i,
        {
            let ghost before = texts_of(names@);
            let entry = &self.members[i];
            names.push(String::from_str(entry.name));
            match entry.kind {
                ResourceKind::MultiVector { index_name, .. } => {
                    names.push(String::from_str(index_name));
                },
                _ => {},
            }
            proof {
                let done = self.members@.take(i + 1);
                assert(done.drop_last() =~= self.members@.take(i as int));
                assert(done.last() == *entry);
                assert(texts_of(names@) =~= before + entry.resource_names());
            }
            i += 1;
        }
        assert(self.members@.take(i as int) =~= self.members@);
        names
    }

    /// The name of the signature resource.
    pub fn signature_resource(&self) -> (name: String)
        ensures
            name@ == self.signature(),
    {
        let mut name = String::from_str(self.name);
        name.append(".archive");
        name
    }
}

/// The handle through which the members of a new archive are written.
#[derive(Debug)]
pub struct ArchiveBuilder {
    schema: ArchiveSchema,
}

impl ArchiveBuilder {
    /// The description of the archive that is built.
    pub closed spec fn schema(self) -> ArchiveSchema {
        self.schema
    }

    /// Whether `i` is the place of a member of the archive.
    pub open spec fn has_member(self, i: int) -> bool {
        0 <= i < self.schema().members@.len()
    }

    /// The member at place `i`.
    pub open spec fn member(self, i: int) -> Member {
        self.schema().members@[i]
    }

    /// Starts an archive in a storage by writing its signature resource,
    /// which holds no bytes and is stored with the full schema. An archive
    /// that the storage holds already is not started again: the call is
    /// refused with an I/O error that says so, and the storage stays as it
    /// is.
    pub fn new(storage: &mut ResourceStorage, schema: ArchiveSchema) -> (builder: Result<
        ArchiveBuilder,
        ResourceStorageError,
    >)
        ensures
            match builder {
                Ok(b) => {
                    &&& b.schema() == schema
                    &&& !holds_part(old(storage)@, schema.signature())
                    &&& final(storage)@ == written(
                        old(storage)@,
                        schema.signature(),
                        schema.schema@,
                        Seq::empty(),
                    )
                },
                Err(e) => {
                    &&& holds_part(old(storage)@, schema.signature())
                    &&& final(storage)@ == old(storage)@
                    &&& e@ == already_exists(schema.signature())
                },
            },
    {
        let signature = schema.signature_resource();
        if storage.contains(signature.as_str()) {
            let err = new_already_exists_error(signature.as_str());
            return Err(ResourceStorageError::from_io_error(err, signature));
        }
        let empty: Vec<u8> = Vec::new();
        match storage.write(signature.as_str(), schema.schema, empty.as_slice()) {
            Ok(_) => Ok(ArchiveBuilder { schema }),
            Err(e) => Err(e),
        }
    }

    /// The description of the archive that is built.
    pub fn archive_schema(&self) -> (schema: &ArchiveSchema)
        ensures
            *schema == self.schema(),
    {
        &self.schema
    }

    /// What writing the bytes of a member in one go does: the member's
    /// resource is written with the member's schema, unless the storage holds
    /// a part of it already.
    pub open spec fn member_written(
        self,
        member: int,
        bytes: Seq<u8>,
        before: Map<Seq<char>, Seq<u8>>,
        after: Map<Seq<char>, Seq<u8>>,
        done: Result<(), ResourceStorageError>,
    ) -> bool {
        let name = self.member(member).name@;
        match done {
            Ok(_) => !holds_part(before, name) && after == written(
                before,
                name,
                self.member(member).schema@,
                bytes,
            ),
            Err(e) => holds_part(before, name) && after == before && e@ == already_exists(name),
        }
    }

    /// Writes a structure member from the view of an assembled structure.
    pub fn set_struct(&self, storage: &mut ResourceStorage, member: usize, view: &StructView) -> (done:
        Result<(), ResourceStorageError>)
        requires
            self.has_member(member as int),
            self.member(member as int).kind matches ResourceKind::Struct { size } && view@.len()
                == size,
            view@.len() + 16 <= usize::MAX,
        ensures
            self.member_written(member as int, view@, old(storage)@, final(storage)@, done),
    {
        let entry = &self.schema.members[member];
        storage.write(entry.name, entry.schema, view.as_bytes())
    }

    /// Writes a vector member from an array that was built before.
    pub fn set_vector(&self, storage: &mut ResourceStorage, member: usize, array: &ArrayView) -> (done:
        Result<(), ResourceStorageError>)
        requires
            self.has_member(member as int),
            self.member(member as int).kind matches ResourceKind::Vector { element_size }
                && array.element_size() == element_size,
            array.bytes().len() + 16 <= usize::MAX,
        ensures
            self.member_written(member as int, array.bytes(), old(storage)@, final(storage)@, done),
    {
        let entry = &self.schema.members[member];
        storage.write(entry.name, entry.schema, array.as_bytes())
    }

    /// Writes a raw data member.
    pub fn set_raw_data(&self, storage: &mut ResourceStorage, member: usize, data: &[u8]) -> (done:
        Result<(), ResourceStorageError>)
        requires
            self.has_member(member as int),
            self.member(member as int).kind is RawData,
            data@.len() + 16 <= usize::MAX,
        ensures
            self.member_written(member as int, data@, old(storage)@, final(storage)@, done),
    {
        let entry = &self.schema.members[member];
        storage.write(entry.name, entry.schema, data)
    }

    /// Starts a vector member that is built element by element, if `member`
    /// is the place of a vector whose elements have a size.
    pub fn start_vector(&self, member: usize) -> (started: Option<ExternalVector>)
        ensures
            started is Some <==> self.has_member(member as int) && self.member(member as int).kind
                is Vector && self.member(member as int).kind.wf(),
            started is Some ==> {
                let vector = started->0;
                &&& vector.wf()
                &&& vector.name() == self.member(member as int).name@
                &&& vector.schema() == self.member(member as int).schema@
                &&& vector.element_size() == self.member(member as int).kind->Vector_element_size
                &&& vector.spec_len() == 0
                &&& vector.bytes() == Seq::<u8>::empty()
            },
    {
        if member >= self.schema.members.len() {
            return None;
        }
        let entry = &self.schema.members[member];
        match entry.kind {
            ResourceKind::Vector { element_size } => {
                if element_size > 0 {
                    Some(ExternalVector::new(entry.name, entry.schema, element_size))
                } else {
                    None
                }
            },
            _ => None,
        }
    }

    /// Starts a multivector member that is built position by position, if
    /// `member` is the place of a multivector whose index entries have a
    /// width from 1 to 64 bits.
    pub fn start_multivector(&self, member: usize) -> (started: Option<MultiVector>)
        ensures
            started is Some <==> self.has_member(member as int) && self.member(member as int).kind
                is MultiVector && self.member(member as int).kind.wf(),
            started is Some ==> {
                let vector = started->0;
                let kind = self.member(member as int).kind;
                &&& vector@.wf()
                &&& vector@.positions == 0
                &&& vector@.payload == Seq::<u8>::empty()
                &&& vector@.index_width == kind->MultiVector_index_width
                &&& vector@.sizes == kind->MultiVector_sizes@
                &&& vector.name() == self.member(member as int).name@
                &&& vector.schema() == self.member(member as int).schema@
                &&& vector.index_name() == kind->MultiVector_index_name@
                &&& vector.index_schema() == kind->MultiVector_index_schema@
            },
    {
        if member >= self.schema.members.len() {
            return None;
        }
        let entry = &self.schema.members[member];
        match entry.kind {
            ResourceKind::MultiVector { index_name, index_schema, index_width, sizes } => {
                if 1 <= index_width && index_width <= 64 {
                    Some(
                        MultiVector::new(
                            entry.name,
                            entry.schema,
                            index_name,
                            index_schema,
                            index_width,
                            slice_to_vec(sizes),
                        ),
                    )
                } else {
                    None
                }
            },
            _ => None,
        }
    }
}

/// The bytes of one member of an open archive.
#[derive(Clone, Copy, Debug)]
struct Loaded<'a> {
    data: &'a [u8],
    index: &'a [u8],
}

spec fn loaded_bytes(loaded: Option<Loaded>) -> Option<MemberBytes> {
    match loaded {
        Some(l) => Some(MemberBytes { data: l.data@, index: l.index@ }),
        None => None,
    }
}

/// An archive that was opened: its members were found in the storage, with
/// the schemas that the archive's description gives them.
pub struct Archive<'a> {
    schema: &'a ArchiveSchema,
    loaded: Vec<Option<Loaded<'a>>>,
}

impl<'a> Archive<'a> {
    #[verifier::type_invariant]
    spec fn members_are_loaded(self) -> bool {
        &&& self.schema.wf()
        &&& self.loaded@.len() == self.schema.members@.len()
    }

    /// The description of the archive.
    pub closed spec fn schema(self) -> ArchiveSchema {
        *self.schema
    }

    /// The bytes of the member at place `i`, if the archive holds the
    /// member.
    pub closed spec fn member_bytes(self, i: int) -> Option<MemberBytes> {
        if 0 <= i < self.loaded@.len() {
            loaded_bytes(self.loaded@[i])
        } else {
            None
        }
    }

    /// The kind of the member at place `i`.
    pub open spec fn kind(self, i: int) -> ResourceKind {
        self.schema().members@[i].kind
    }

    /// Whether `i` is the place of a member that the archive holds.
    pub open spec fn holds(self, i: int) -> bool {
        0 <= i < self.schema().members@.len() && self.member_bytes(i) is Some
    }

    /// Opens an archive in a storage. The signature is checked first, then
    /// each member in its order, all of them at once: the archive is opened
    /// only if its signature and all its members are found with their
    /// schemas, a member that is optional being allowed to be absent.
    pub fn open(storage: &'a ResourceStorage, schema: &'a ArchiveSchema) -> (archive: Result<
        Archive<'a>,
        ResourceStorageError,
    >)
        requires
            schema.wf(),
        ensures
            match archive {
                Ok(a) => {
                    &&& schema.open_failure(storage@) is None
                    &&& a.schema() == *schema
                    &&& forall|i: int|
                        0 <= i < schema.members@.len() ==> (#[trigger] schema.members@[i]).found_in(
                            storage@,
                        ) == Ok::<Option<MemberBytes>, ErrorView>(a.member_bytes(i))
                },
                Err(e) => schema.open_failure(storage@) == Some(e@),
            },
    {
        let signature = schema.signature_resource();
        if !storage.contains(signature.as_str()) {
            return Err(ResourceStorageError::Missing);
        }
        match storage.read(signature.as_str(), schema.schema) {
            Ok(_) => {},
            Err(e) => {
                return Err(e);
            },
        }
        let empty: &'a [u8] = &[];
        let mut loaded: Vec<Option<Loaded<'a>>> = Vec::new();
        let mut i: usize = 0;
        while i < schema.members.len()
            invariant
                i <= schema.members@.len(),
                loaded@.len() == i,
                empty@ == Seq::<u8>::empty(),
                schema.signature_failure(storage@) is None,
                first_failure(storage@, schema.members@, 0) == first_failure(
                    storage@,
                    schema.members@,
                    i as int,
                ),
                forall|k: int|
                    0 <= k < i ==> (#[trigger] schema.members@[k]).found_in(storage@) == Ok::<
                        Option<MemberBytes>,
                        ErrorView,
                    >(loaded_bytes(loaded@[k])),
            decreases schema.members@.len() - i,
        {
            let entry = &schema.members[i];
            let found = if !storage.contains(entry.name) {
                if entry.optional {
                    None
                } else {
                    return Err(ResourceStorageError::Missing);
                }
            } else {
                let data = match storage.read(entry.name, entry.schema) {
                    Ok(data) => data,
                    Err(e) => {
                        return Err(e);
                    },
                };
                match entry.kind {
                    ResourceKind::Struct { size } => {
                        if data.len() != size {
                            return Err(ResourceStorageError::UnexpectedDataSize);
                        }
                        Some(Loaded { data, index: empty })
                    },
                    ResourceKind::MultiVector { index_name, index_schema, .. } => {
                        if !storage.contains(index_name) {
                            return Err(ResourceStorageError::MissingData);
                        }
                        match storage.read(index_name, index_schema) {
                            Ok(index) => Some(Loaded { data, index }),
                            Err(e) => {
                                return Err(e);
                            },
                        }
                    },
                    _ => Some(Loaded { data, index: empty }),
                }
            };
            loaded.push(found);
            i += 1;
        }
        Ok(Archive { schema, loaded })
    }

    /// The structure of the member at place `member`, if the member is a
    /// structure and the archive holds it.
    pub fn structure(&self, member: usize) -> (view: Option<StructView<'a>>)
        ensures
            view is Some <==> self.holds(member as int) && self.kind(member as int) is Struct,
            view is Some ==> view->0@ == self.member_bytes(member as int)->0.data,
    {
        proof {
            use_type_invariant(self);
        }
        if member >= self.loaded.len() {
            return None;
        }
        match (self.schema.members[member].kind, self.loaded[member]) {
            (ResourceKind::Struct { .. }, Some(loaded)) => Some(StructView::over(loaded.data)),
            _ => None,
        }
    }

    /// The vector of the member at place `member`, if the member is a vector
    /// and the archive holds it.
    pub fn vector(&self, member: usize) -> (array: Option<ArrayView<'a>>)
        ensures
            array is Some <==> self.holds(member as int) && self.kind(member as int) is Vector,
            array is Some ==> array->0.bytes() == self.member_bytes(member as int)->0.data
                && array->0.element_size() == self.kind(member as int)->Vector_element_size,
    {
        proof {
            use_type_invariant(self);
        }
        if member >= self.loaded.len() {
            return None;
        }
        match (self.schema.members[member].kind, self.loaded[member]) {
            (ResourceKind::Vector { element_size }, Some(loaded)) => Some(
                ArrayView::new(loaded.data, element_size),
            ),
            _ => None,
        }
    }

    /// The multivector of the member at place `member`, if the member is a
    /// multivector and the archive holds it.
    pub fn multivector(&self, member: usize) -> (vector: Option<MultiArrayView<'a>>)
        ensures
            vector is Some <==> self.holds(member as int) && self.kind(member as int) is MultiVector,
            vector is Some ==> {
                &&& vector->0.payload() == self.member_bytes(member as int)->0.data
                &&& vector->0.index_bytes() == self.member_bytes(member as int)->0.index
                &&& vector->0.index_width() == self.kind(member as int)->MultiVector_index_width
                &&& vector->0.sizes() == self.kind(member as int)->MultiVector_sizes@
            },
    {
        proof {
            use_type_invariant(self);
        }
        if member >= self.loaded.len() {
            return None;
        }
        match (self.schema.members[member].kind, self.loaded[member]) {
            (ResourceKind::MultiVector { index_width, sizes, .. }, Some(loaded)) => Some(
                MultiArrayView::new(loaded.data, loaded.index, index_width, sizes),
            ),
            _ => None,
        }
    }

    /// The bytes of the member at place `member`, if the member is raw data
    /// and the archive holds it.
    pub fn raw_data(&self, member: usize) -> (bytes: Option<&'a [u8]>)
        ensures
            bytes is Some <==> self.holds(member as int) && self.kind(member as int) is RawData,
            bytes is Some ==> bytes->0@ == self.member_bytes(member as int)->0.data,
    {
        proof {
            use_type_invariant(self);
        }
        if member >= self.loaded.len() {
            return None;
        }
        match (self.schema.members[member].kind, self.loaded[member]) {
            (ResourceKind::RawData, Some(loaded)) => Some(loaded.data),
            _ => None,
        }
    }
}

} // verus!
