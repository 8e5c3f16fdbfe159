//! The resource storage: named byte blobs, and the schema-checked reading
//! and writing of resources on top of them.
//!
//! A resource `name` is kept as two blobs. The blob `name` holds the
//! resource's bytes in their stored form: their length as a 64-bit
//! little-endian number, the bytes themselves, and eight bytes of padding.
//! The blob `name.schema` holds the resource's schema as UTF-8 text.
//!
//! The storage keeps its blobs in memory and writes each name once: writing
//! a resource that the storage already holds, in whole or in part, is refused.

use crate::bits::{
    bits_of,
    encode_unsigned,
    field_bits,
    lemma_bits_determine_bytes,
    lemma_bits_of_bytes_of_bits,
    lemma_bits_of_concat,
    lemma_decode_encoded,
    unsigned_value,
    value_bits,
    with_field,
    zeros,
};
use crate::codec::{read_unsigned, write_unsigned};
use crate::error::{already_exists, new_already_exists_error, ErrorView, ResourceStorageError};
use crate::text::{diff_text, schema_diff, str_eq, text_of, utf8_error_of};
use vstd::arithmetic::power2::pow2;
use vstd::prelude::*;
use vstd::slice::slice_to_vec;
use vstd::string::StringExecFns;
use vstd::utf8::{decode_utf8, encode_utf8, encode_utf8_decode_utf8, encode_utf8_valid_utf8, valid_utf8};

verus! {

/// The size of the length that precedes a resource's bytes, in bytes.
pub const HEADER_SIZE: usize = 8;

/// The size of the padding that follows a resource's bytes, in bytes.
pub const PADDING_SIZE: usize = 8;

/// The name of the blob that holds the schema of resource `name`.
pub open spec fn schema_name(name: Seq<char>) -> Seq<char> {
    name + ".schema"@
}

/// The stored form of a resource's bytes.
pub open spec fn stored_form(data: Seq<u8>) -> Seq<u8> {
    encode_unsigned(data.len() as int, 8) + data + zeros(8)
}

/// The length that a blob records in its first eight bytes.
pub open spec fn size_field(blob: Seq<u8>) -> nat {
    unsigned_value(field_bits(blob, 0, 64))
}

/// The bytes of the resource that a blob holds, if the blob is as long as
/// the length it records asks for.
pub open spec fn payload_of(blob: Seq<u8>) -> Option<Seq<u8>> {
    if blob.len() >= 16 && size_field(blob) + 16 == blob.len() {
        Some(blob.subrange(8, blob.len() - 8))
    } else {
        None
    }
}

/// What reading resource `name` gives when the schema `expected` is asked
/// for: the resource's bytes, or the first check that fails.
pub open spec fn read_result(
    store: Map<Seq<char>, Seq<u8>>,
    name: Seq<char>,
    expected: Seq<char>,
) -> Result<Seq<u8>, ErrorView> {
    let key = schema_name(name);
    if !store.contains_key(key) {
        Err(ErrorView::MissingSchema { resource_name: name })
    } else if !store.contains_key(name) {
        Err(ErrorView::MissingData)
    } else if !valid_utf8(store[key]) {
        Err(ErrorView::Utf8Error { error: utf8_error_of(store[key]) })
    } else if decode_utf8(store[key]) != expected {
        Err(
            ErrorView::WrongSignature {
                resource_name: name,
                diff: diff_text(decode_utf8(store[key]), expected),
            },
        )
    } else {
        match payload_of(store[name]) {
            Some(data) => Ok(data),
            None => Err(ErrorView::UnexpectedDataSize),
        }
    }
}

/// Whether a storage holds any part of resource `name`.
pub open spec fn holds_part(store: Map<Seq<char>, Seq<u8>>, name: Seq<char>) -> bool {
    store.contains_key(name) || store.contains_key(schema_name(name))
}

/// The blobs of a storage after resource `name` was written to it.
pub open spec fn written(
    store: Map<Seq<char>, Seq<u8>>,
    name: Seq<char>,
    schema: Seq<char>,
    data: Seq<u8>,
) -> Map<Seq<char>, Seq<u8>> {
    store.insert(name, stored_form(data)).insert(schema_name(name), encode_utf8(schema))
}

/// The stored form of a resource holds the resource.
pub proof fn lemma_payload_of_stored_form(data: Seq<u8>)
    requires
        data.len() < pow2(64),
    ensures
        stored_form(data).len() == data.len() + 16,
        payload_of(stored_form(data)) == Some(data),
{
    lemma_decode_encoded(data.len() as int, 8, data + zeros(8));
    assert(stored_form(data) =~= encode_unsigned(data.len() as int, 8) + (data + zeros(8)));
    assert(stored_form(data).subrange(8, stored_form(data).len() - 8) =~= data);
}

/// The name of a resource is not the name of its schema.
pub proof fn lemma_schema_name_differs(name: Seq<char>)
    ensures
        schema_name(name) != name,
{
    reveal_strlit(".schema");
    assert(schema_name(name).len() == name.len() + 7);
}

/// A resource that was written is read back as it was written when its own
/// schema is asked for, and refused with the difference of the schemas when
/// another one is.
pub proof fn lemma_read_after_write(
    store: Map<Seq<char>, Seq<u8>>,
    name: Seq<char>,
    schema: Seq<char>,
    data: Seq<u8>,
    expected: Seq<char>,
)
    requires
        data.len() < pow2(64),
    ensures
        expected == schema ==> read_result(written(store, name, schema, data), name, expected)
            == Ok::<Seq<u8>, ErrorView>(data),
        expected != schema ==> read_result(written(store, name, schema, data), name, expected)
            == Err::<Seq<u8>, ErrorView>(
            ErrorView::WrongSignature { resource_name: name, diff: diff_text(schema, expected) },
        ),
{
    lemma_schema_name_differs(name);
    lemma_payload_of_stored_form(data);
    encode_utf8_valid_utf8(schema);
    encode_utf8_decode_utf8(schema);
}

/// Writing one resource leaves what is read of another one as it was, if the
/// two share no blob name.
pub proof fn lemma_write_keeps_others(
    store: Map<Seq<char>, Seq<u8>>,
    name: Seq<char>,
    schema: Seq<char>,
    data: Seq<u8>,
    other: Seq<char>,
    expected: Seq<char>,
)
    requires
        other != name,
        other != schema_name(name),
        schema_name(other) != name,
        schema_name(other) != schema_name(name),
    ensures
        read_result(written(store, name, schema, data), other, expected) == read_result(
            store,
            other,
            expected,
        ),
{
}

/// The name of the blob that holds the schema of resource `name`.
pub fn schema_name_of(name: &str) -> (key: String)
    ensures
        key@ == schema_name(name@),
{
    let mut key = String::from_str(name);
    key.append(".schema");
    key
}

/// One named blob.
struct Blob {
    name: String,
    data: Vec<u8>,
}

spec fn named(blobs: Seq<Blob>, i: int, name: Seq<char>) -> bool {
    0 <= i < blobs.len() && blobs[i].name@ == name
}

/// The blobs by name. Where a name occurs twice, the later blob counts.
spec fn blobs_view(blobs: Seq<Blob>) -> Map<Seq<char>, Seq<u8>>
    decreases blobs.len(),
{
    if blobs.len() == 0 {
        Map::empty()
    } else {
        blobs_view(blobs.drop_last()).insert(blobs.last().name@, blobs.last().data@)
    }
}

proof fn lemma_view_absent(blobs: Seq<Blob>, name: Seq<char>)
    requires
        forall|k: int| !named(blobs, k, name),
    ensures
        !blobs_view(blobs).contains_key(name),
    decreases blobs.len(),
{
    if blobs.len() > 0 {
        let rest = blobs.drop_last();
        assert forall|k: int| !named(rest, k, name) by {
            assert(!named(blobs, k, name));
        }
        lemma_view_absent(rest, name);
        assert(!named(blobs, blobs.len() - 1, name));
    }
}

proof fn lemma_view_last_match(blobs: Seq<Blob>, at: int, name: Seq<char>)
    requires
        named(blobs, at, name),
        forall|k: int| at < k ==> !named(blobs, k, name),
    ensures
        blobs_view(blobs).contains_key(name),
        blobs_view(blobs)[name] == blobs[at].data@,
    decreases blobs.len(),
{
    if at < blobs.len() - 1 {
        let rest = blobs.drop_last();
        assert(named(rest, at, name));
        assert forall|k: int| at < k implies !named(rest, k, name) by {
            assert(!named(blobs, k, name));
        }
        lemma_view_last_match(rest, at, name);
        assert(!named(blobs, blobs.len() - 1, name));
    }
}

proof fn lemma_view_update(blobs: Seq<Blob>, at: int, blob: Blob)
    requires
        named(blobs, at, blob.name@),
        forall|k: int| at < k ==> !named(blobs, k, blob.name@),
    ensures
        blobs_view(blobs.update(at, blob)) == blobs_view(blobs).insert(blob.name@, blob.data@),
    decreases blobs.len(),
{
    let after = blobs.update(at, blob);
    let rest = blobs.drop_last();
    if at == blobs.len() - 1 {
        assert(after.drop_last() =~= rest);
    } else {
        assert(after.drop_last() =~= rest.update(at, blob));
        assert(named(rest, at, blob.name@));
        assert forall|k: int| at < k implies !named(rest, k, blob.name@) by {
            assert(!named(blobs, k, blob.name@));
        }
        lemma_view_update(rest, at, blob);
        assert(!named(blobs, blobs.len() - 1, blob.name@));
    }
    assert(blobs_view(after) =~= blobs_view(blobs).insert(blob.name@, blob.data@));
}

/// A resource storage that keeps its blobs in memory.
pub struct ResourceStorage {
    blobs: Vec<Blob>,
}

impl View for ResourceStorage {
    type V = Map<Seq<char>, Seq<u8>>;

    /// The blobs of the storage by name.
    closed spec fn view(&self) -> Map<Seq<char>, Seq<u8>> {
        blobs_view(self.blobs@)
    }
}

impl ResourceStorage {
    /// A storage that holds nothing.
    pub fn new() -> (storage: ResourceStorage)
        ensures
            storage@ == Map::<Seq<char>, Seq<u8>>::empty(),
    {
        let storage = ResourceStorage { blobs: Vec::new() };
        assert(storage@ =~= Map::<Seq<char>, Seq<u8>>::empty());
        storage
    }

    /// The last blob of this name.
    fn find(&self, name: &str) -> (found: Option<usize>)
        ensures
            match found {
                Some(at) => named(self.blobs@, at as int, name@) && forall|k: int|
                    at < k ==> !named(self.blobs@, k, name@),
                None => forall|k: int| !named(self.blobs@, k, name@),
            },
    {
        let mut i: usize = self.blobs.len();
        while i > 0
            invariant
                i <= self.blobs@.len(),
                forall|k: int| i <= k ==> !named(self.blobs@, k, name@),
            decreases i,
        {
            i -= 1;
            if str_eq(self.blobs[i].name.as_str(), name) {
                return Some(i);
            }
        }
        None
    }

    /// Whether the storage holds a blob of this name.
    pub fn contains(&self, name: &str) -> (found: bool)
        ensures
            found == self@.contains_key(name@),
    {
        self.blob(name).is_some()
    }

    /// Whether the storage holds a part of resource `name`: its bytes or its
    /// schema.
    pub fn holds_part_of(&self, name: &str) -> (held: bool)
        ensures
            held == holds_part(self@, name@),
    {
        let key = schema_name_of(name);
        self.contains(name) || self.contains(key.as_str())
    }

    /// The blob of this name, if the storage holds one.
    pub fn blob(&self, name: &str) -> (blob: Option<&[u8]>)
        ensures
            blob is Some <==> self@.contains_key(name@),
            blob is Some ==> blob->0@ == self@[name@],
    {
        match self.find(name) {
            Some(i) => {
                proof {
                    lemma_view_last_match(self.blobs@, i as int, name@);
                }
                Some(self.blobs[i].data.as_slice())
            },
            None => {
                proof {
                    lemma_view_absent(self.blobs@, name@);
                }
                None
            },
        }
    }

    /// Puts a blob under this name, in place of the one that the storage
    /// held under it, if any.
    pub fn put(&mut self, name: &str, data: Vec<u8>)
        ensures
            final(self)@ == old(self)@.insert(name@, data@),
    {
        let found = self.find(name);
        let blob = Blob { name: String::from_str(name), data };
        match found {
            Some(i) => {
                proof {
                    lemma_view_update(self.blobs@, i as int, blob);
                }
                self.blobs.set(i, blob);
            },
            None => {
                assert(self.blobs@.push(blob).drop_last() =~= self.blobs@);
                self.blobs.push(blob);
            },
        }
    }

    /// Reads the bytes of resource `name`, checking the schema stored with
    /// it against the one expected.
    pub fn read<'a>(&'a self, name: &str, expected_schema: &str) -> (bytes: Result<
        &'a [u8],
        ResourceStorageError,
    >)
        ensures
            match bytes {
                Ok(data) => read_result(self@, name@, expected_schema@) == Ok::<
                    Seq<u8>,
                    ErrorView,
                >(data@),
                Err(e) => read_result(self@, name@, expected_schema@) == Err::<Seq<u8>, ErrorView>(
                    e@,
                ),
            },
    {
        let key = schema_name_of(name);
        let stored_schema = match self.blob(key.as_str()) {
            Some(bytes) => bytes,
            None => {
                return Err(ResourceStorageError::MissingSchema(String::from_str(name)));
            },
        };
        let blob = match self.blob(name) {
            Some(bytes) => bytes,
            None => {
                return Err(ResourceStorageError::MissingData);
            },
        };
        let stored_text = match text_of(stored_schema) {
            Ok(text) => text,
            Err(e) => {
                return Err(ResourceStorageError::Utf8Error(e));
            },
        };
        proof {
            encode_utf8_decode_utf8(stored_text@);
        }
        if !str_eq(stored_text, expected_schema) {
            return Err(
                ResourceStorageError::WrongSignature {
                    resource_name: String::from_str(name),
                    diff: schema_diff(stored_text, expected_schema),
                },
            );
        }
        let len = blob.len();
        if len < HEADER_SIZE + PADDING_SIZE {
            return Err(ResourceStorageError::UnexpectedDataSize);
        }
        let size = read_unsigned(blob, 0, 64);
        if size != (len - HEADER_SIZE - PADDING_SIZE) as u64 {
            return Err(ResourceStorageError::UnexpectedDataSize);
        }
        Ok(&blob[HEADER_SIZE..len - PADDING_SIZE])
    }

    /// Writes resource `name` with its schema. A resource that the storage
    /// holds already, in whole or in part, is not written again: the call is
    /// refused and the storage stays as it is.
    pub fn write(&mut self, name: &str, schema: &str, data: &[u8]) -> (done: Result<
        (),
        ResourceStorageError,
    >)
        requires
            data@.len() + 16 <= usize::MAX,
        ensures
            match done {
                Ok(_) => !holds_part(old(self)@, name@) && final(self)@ == written(
                    old(self)@,
                    name@,
                    schema@,
                    data@,
                ),
                Err(e) => holds_part(old(self)@, name@) && final(self)@ == old(self)@ && e@
                    == already_exists(name@),
            },
    {
        let key = schema_name_of(name);
        if self.holds_part_of(name) {
            return Err(
                ResourceStorageError::from_io_error(
                    new_already_exists_error(name),
                    String::from_str(name),
                ),
            );
        }
        let blob = to_stored_form(data);
        self.put(name, blob);
        self.put(key.as_str(), slice_to_vec(schema.as_bytes()));
        Ok(())
    }
}

/// Builds the stored form of a resource's bytes.
pub fn to_stored_form(data: &[u8]) -> (blob: Vec<u8>)
    requires
        data@.len() + 16 <= usize::MAX,
    ensures
        blob@ == stored_form(data@),
{
    let len = data.len();
    let mut blob: Vec<u8> = Vec::with_capacity(len + HEADER_SIZE + PADDING_SIZE);
    let mut i: usize = 0;
    while i < HEADER_SIZE
        invariant
            i <= HEADER_SIZE,
            blob@ == zeros(i as nat),
        decreases HEADER_SIZE - i,
    {
        blob.push(0u8);
        i += 1;
        assert(blob@ =~= zeros(i as nat));
    }
    i = 0;
    while i < len
        invariant
            i <= len == data@.len(),
            blob@ == zeros(8) + data@.subrange(0, i as int),
        decreases len - i,
    {
        blob.push(data[i]);
        i += 1;
        assert(blob@ =~= zeros(8) + data@.subrange(0, i as int));
    }
    i = 0;
    while i < PADDING_SIZE
        invariant
            i <= PADDING_SIZE,
            len == data@.len(),
            blob@ == zeros(8) + data@ + zeros(i as nat),
        decreases PADDING_SIZE - i,
    {
        blob.push(0u8);
        i += 1;
        assert(blob@ =~= zeros(8) + data@ + zeros(i as nat));
    }
    let ghost before = blob@;
    write_unsigned(blob.as_mut_slice(), 0, 64, len as u64);
    proof {
        let rest = data@ + zeros(8);
        let header = encode_unsigned(len as int, 8);
        let field = value_bits(len as int, 64);
        assert(before =~= zeros(8) + rest);
        assert(stored_form(data@) =~= header + rest);
        lemma_bits_of_bytes_of_bits(field);
        lemma_bits_of_concat(header, rest);
        lemma_bits_of_concat(zeros(8), rest);
        assert(with_field(bits_of(before), 0, field) =~= field + bits_of(rest));
        lemma_bits_determine_bytes(blob@, stored_form(data@));
    }
    blob
}

} // verus!
