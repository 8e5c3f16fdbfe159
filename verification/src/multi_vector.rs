//! Multivectors: sequences of positions that each hold any number of items
//! of different kinds.
//!
//! A multivector is kept as two resources. The payload holds the items of
//! all positions one after the other, each as one tag byte, which names the
//! item's variant by its place in the schema, followed by the bytes of that
//! variant's structure. The index holds one entry per position and one more:
//! entry `i` is the payload offset at which the items of position `i` start,
//! and the last entry is the length of the payload.

use crate::array_view::{
    element_bytes,
    element_count,
    lemma_element_count_exact,
    lemma_element_in_bytes,
    ArrayView,
};
use crate::bits::{
    encode_unsigned,
    field_bits,
    fits_unsigned,
    lemma_field_of_encoded,
    lemma_field_of_zeros,
    lemma_written_to_zeros,
    unsigned_value,
    zeros,
};
use crate::buffer::GrowthBuffer;
use crate::codec::read_unsigned;
use crate::error::{already_exists, new_already_exists_error, ErrorView, ResourceStorageError};
use crate::storage::{
    holds_part,
    lemma_read_after_write,
    lemma_schema_name_differs,
    lemma_write_keeps_others,
    read_result,
    schema_name,
    written,
    ResourceStorage,
};
use crate::structs::{Field, StructView, StructViewMut};
use vstd::arithmetic::power2::lemma2_to64;
use vstd::bits::{lemma_u64_pow2_no_overflow, lemma_u64_shl_is_mul};
use vstd::prelude::*;
use vstd::string::StringExecFns;

verus! {

/// Why the items of a position cannot be read.
#[derive(Clone, Copy, Debug, PartialEq, Eq)]
pub enum ItemsError {
    /// The multivector has no such position.
    OutOfBounds,
    /// The index entries of the position do not delimit a range of the
    /// payload.
    BrokenIndex,
    /// An item's tag names no variant.
    UnknownTag,
    /// The payload ends within an item.
    TruncatedItem,
}

/// The mathematical content of one item: its variant and its bytes.
pub struct ItemView {
    pub tag: u8,
    pub bytes: Seq<u8>,
}

/// One item of a multivector: its variant and the view of its structure.
#[derive(Clone, Copy, Debug)]
pub struct Item<'a> {
    /// The place of the item's variant in the schema, from 0.
    pub tag: u8,
    /// The item's structure.
    pub view: StructView<'a>,
}

impl<'a> View for Item<'a> {
    type V = ItemView;

    open spec fn view(&self) -> ItemView {
        ItemView { tag: self.tag, bytes: self.view@ }
    }
}

/// The contents of a list of items.
pub open spec fn item_views(items: Seq<Item>) -> Seq<ItemView> {
    Seq::new(items.len(), |k: int| items[k]@)
}

/// The bytes that hold one item: its tag, then its structure.
pub open spec fn encode_item(item: ItemView) -> Seq<u8> {
    seq![item.tag] + item.bytes
}

/// The number of bytes that hold a list of items.
pub open spec fn encoded_len(items: Seq<ItemView>) -> nat
    decreases items.len(),
{
    if items.len() == 0 {
        0
    } else {
        encoded_len(items.drop_last()) + 1 + items.last().bytes.len()
    }
}

/// Whether an item is of a variant of the multivector and has its size.
pub open spec fn item_fits(item: ItemView, sizes: Seq<usize>) -> bool {
    item.tag < sizes.len() && item.bytes.len() == sizes[item.tag as int]
}

/// `items` if the rest was read, else the reason why it was not.
pub open spec fn followed_by(items: Seq<ItemView>, rest: Result<Seq<ItemView>, ItemsError>) -> Result<
    Seq<ItemView>,
    ItemsError,
> {
    match rest {
        Ok(more) => Ok(items + more),
        Err(e) => Err(e),
    }
}

/// The items that a run of payload bytes holds, read from its start to its
/// end, or the reason why they cannot be read.
pub open spec fn parse_items(payload: Seq<u8>, sizes: Seq<usize>) -> Result<Seq<ItemView>, ItemsError>
    decreases payload.len(),
{
    if payload.len() == 0 {
        Ok(Seq::empty())
    } else {
        let tag = payload[0];
        if tag >= sizes.len() {
            Err(ItemsError::UnknownTag)
        } else if 1 + sizes[tag as int] > payload.len() {
            Err(ItemsError::TruncatedItem)
        } else {
            let size = sizes[tag as int] as int;
            followed_by(
                seq![ItemView { tag, bytes: payload.subrange(1, 1 + size) }],
                parse_items(payload.skip(1 + size), sizes),
            )
        }
    }
}

/// The size of one index entry in bytes: the fewest bytes that hold `width`
/// bits.
pub open spec fn entry_size(width: nat) -> nat {
    (width + 7) / 8
}

/// Entry `k` of an index.
pub open spec fn index_entry(index: Seq<u8>, width: nat, k: int) -> nat {
    unsigned_value(field_bits(element_bytes(index, entry_size(width), k), 0, width))
}

/// The number of positions that an index delimits: one less than its number
/// of entries.
pub open spec fn position_count(index: Seq<u8>, width: nat) -> nat {
    let entries = element_count(index, entry_size(width));
    if entries == 0 {
        0
    } else {
        (entries - 1) as nat
    }
}

/// The items of position `i`, read from a payload and its index, or the
/// reason why they cannot be read.
pub open spec fn position_result(
    payload: Seq<u8>,
    index: Seq<u8>,
    width: nat,
    sizes: Seq<usize>,
    i: int,
) -> Result<Seq<ItemView>, ItemsError> {
    if !(0 <= i < position_count(index, width)) {
        Err(ItemsError::OutOfBounds)
    } else {
        let start = index_entry(index, width, i);
        let end = index_entry(index, width, i + 1);
        if start <= end <= payload.len() {
            parse_items(payload.subrange(start as int, end as int), sizes)
        } else {
            Err(ItemsError::BrokenIndex)
        }
    }
}

/// The items of a run of payload bytes followed by one more item are the
/// items of the run followed by that item.
pub proof fn lemma_parse_appended(payload: Seq<u8>, item: ItemView, sizes: Seq<usize>)
    requires
        parse_items(payload, sizes) is Ok,
        item_fits(item, sizes),
    ensures
        parse_items(payload + encode_item(item), sizes) == Ok::<Seq<ItemView>, ItemsError>(
            parse_items(payload, sizes)->Ok_0.push(item),
        ),
    decreases payload.len(),
{
    let whole = payload + encode_item(item);
    let none = Seq::<u8>::empty();
    assert(parse_items(none, sizes) == Ok::<Seq<ItemView>, ItemsError>(Seq::empty()));
    assert(whole[0] == if payload.len() == 0 {
        item.tag
    } else {
        payload[0]
    });
    if payload.len() == 0 {
        let size = sizes[item.tag as int] as int;
        assert(whole.len() == 1 + size);
        assert(whole.subrange(1, 1 + size) =~= item.bytes);
        assert(whole.skip(1 + size) =~= none);
        assert(seq![item] + Seq::<ItemView>::empty() =~= Seq::<ItemView>::empty().push(item));
        assert(parse_items(payload, sizes)->Ok_0 =~= Seq::<ItemView>::empty());
    } else {
        let tag = payload[0];
        let size = sizes[tag as int] as int;
        let rest = payload.skip(1 + size);
        let first = ItemView { tag, bytes: payload.subrange(1, 1 + size) };
        assert(parse_items(payload, sizes) == followed_by(seq![first], parse_items(rest, sizes)));
        assert(whole.subrange(1, 1 + size) =~= payload.subrange(1, 1 + size));
        assert(whole.skip(1 + size) =~= rest + encode_item(item));
        lemma_parse_appended(rest, item, sizes);
        let tail = parse_items(rest, sizes)->Ok_0;
        assert(parse_items(whole, sizes) == followed_by(
            seq![first],
            parse_items(rest + encode_item(item), sizes),
        ));
        assert(seq![first] + tail.push(item) =~= (seq![first] + tail).push(item));
    }
}

/// Items that were read fill the bytes they were read from, and each is of a
/// variant of the multivector.
pub proof fn lemma_parsed_items(payload: Seq<u8>, sizes: Seq<usize>)
    requires
        parse_items(payload, sizes) is Ok,
    ensures
        encoded_len(parse_items(payload, sizes)->Ok_0) == payload.len(),
        forall|k: int|
            0 <= k < parse_items(payload, sizes)->Ok_0.len() ==> item_fits(
                #[trigger] parse_items(payload, sizes)->Ok_0[k],
                sizes,
            ),
    decreases payload.len(),
{
    let items = parse_items(payload, sizes)->Ok_0;
    if payload.len() > 0 {
        let tag = payload[0];
        let size = sizes[tag as int] as int;
        let rest = payload.skip(1 + size);
        let first = ItemView { tag, bytes: payload.subrange(1, 1 + size) };
        lemma_parsed_items(rest, sizes);
        let tail = parse_items(rest, sizes)->Ok_0;
        assert(items =~= seq![first] + tail);
        lemma_encoded_len_prepend(first, tail);
        assert forall|k: int| 0 <= k < items.len() implies item_fits(#[trigger] items[k], sizes) by {
            if k > 0 {
                assert(items[k] == tail[k - 1]);
            }
        }
    }
}

proof fn lemma_encoded_len_prepend(first: ItemView, tail: Seq<ItemView>)
    ensures
        encoded_len(seq![first] + tail) == 1 + first.bytes.len() + encoded_len(tail),
    decreases tail.len(),
{
    let all = seq![first] + tail;
    assert(encoded_len(Seq::<ItemView>::empty()) == 0);
    if tail.len() == 0 {
        assert(all.drop_last() =~= Seq::<ItemView>::empty());
        assert(all.last() == first);
        assert(encoded_len(all) == encoded_len(all.drop_last()) + 1 + all.last().bytes.len());
    } else {
        assert(all.drop_last() =~= seq![first] + tail.drop_last());
        assert(all.last() == tail.last());
        lemma_encoded_len_prepend(first, tail.drop_last());
    }
}

/// A read-only view of a multivector over the bytes of its payload and of
/// its index.
#[derive(Clone, Copy, Debug)]
pub struct MultiArrayView<'a> {
    index: ArrayView<'a>,
    data: &'a [u8],
    index_width: usize,
    sizes: &'a [usize],
}

impl<'a> MultiArrayView<'a> {
    #[verifier::type_invariant]
    spec fn index_is_of_entries(self) -> bool {
        &&& 1 <= self.index_width <= 64
        &&& self.index.element_size() == entry_size(self.index_width as nat)
    }

    /// The bytes of the payload.
    pub closed spec fn payload(self) -> Seq<u8> {
        self.data@
    }

    /// The bytes of the index.
    pub closed spec fn index_bytes(self) -> Seq<u8> {
        self.index.bytes()
    }

    /// The width of one index entry in bits.
    pub closed spec fn index_width(self) -> nat {
        self.index_width as nat
    }

    /// The sizes of the structures of the variants, by tag.
    pub closed spec fn sizes(self) -> Seq<usize> {
        self.sizes@
    }

    /// The number of positions.
    pub open spec fn spec_len(self) -> nat {
        position_count(self.index_bytes(), self.index_width())
    }

    /// The items of position `i`, or the reason why they cannot be read.
    pub open spec fn items(self, i: int) -> Result<Seq<ItemView>, ItemsError> {
        position_result(self.payload(), self.index_bytes(), self.index_width(), self.sizes(), i)
    }

    /// The multivector that `data` and `index` hold, with index entries of
    /// `index_width` bits and variants of the given sizes.
    pub fn new(data: &'a [u8], index: &'a [u8], index_width: usize, sizes: &'a [usize]) -> (view:
        MultiArrayView<'a>)
        requires
            1 <= index_width <= 64,
        ensures
            view.payload() == data@,
            view.index_bytes() == index@,
            view.index_width() == index_width,
            view.sizes() == sizes@,
    {
        MultiArrayView { index: ArrayView::new(index, (index_width + 7) / 8), data, index_width, sizes }
    }

    /// The number of positions.
    pub fn len(&self) -> (len: usize)
        ensures
            len == self.spec_len(),
    {
        proof {
            use_type_invariant(self);
        }
        let entries = self.index.len();
        if entries == 0 {
            0
        } else {
            entries - 1
        }
    }

    /// Whether the multivector has no position.
    pub fn is_empty(&self) -> (empty: bool)
        ensures
            empty == (self.spec_len() == 0),
    {
        self.len() == 0
    }

    /// Entry `k` of the index.
    fn entry(&self, k: usize) -> (offset: u64)
        requires
            k < element_count(self.index_bytes(), entry_size(self.index_width())),
        ensures
            offset == index_entry(self.index_bytes(), self.index_width(), k as int),
    {
        let size = self.index.element_size_in_bytes();
        let bytes = self.index.as_bytes();
        let len = bytes.len();
        proof {
            use_type_invariant(self);
            lemma_element_in_bytes(len as nat, size as nat, k as int);
        }
        let start = k * size;
        read_unsigned(&bytes[start..start + size], 0, self.index_width)
    }

    /// The items of position `i`, in the order in which they were added.
    pub fn at(&self, i: usize) -> (items: Result<Vec<Item<'a>>, ItemsError>)
        ensures
            match items {
                Ok(list) => self.items(i as int) == Ok::<Seq<ItemView>, ItemsError>(
                    item_views(list@),
                ),
                Err(e) => self.items(i as int) == Err::<Seq<ItemView>, ItemsError>(e),
            },
    {
        if i >= self.len() {
            return Err(ItemsError::OutOfBounds);
        }
        let start = self.entry(i);
        let end = self.entry(i + 1);
        let limit = self.data.len();
        if start > end || end > limit as u64 {
            return Err(ItemsError::BrokenIndex);
        }
        let range = &self.data[start as usize..end as usize];
        let len = range.len();
        let mut list: Vec<Item<'a>> = Vec::new();
        let mut pos: usize = 0;
        assert(range@.skip(0) =~= range@);
        assert(Seq::<ItemView>::empty() + parse_items(range@, self.sizes@)->Ok_0
            =~= parse_items(range@, self.sizes@)->Ok_0);
        while pos < len
            invariant
                pos <= len == range@.len(),
                self.items(i as int) == parse_items(range@, self.sizes@),
                parse_items(range@, self.sizes@) == followed_by(
                    item_views(list@),
                    parse_items(range@.skip(pos as int), self.sizes@),
                ),
            decreases len - pos,
        {
            let tag = range[pos];
            assert(range@.skip(pos as int)[0] == tag);
            assert(range@.skip(pos as int).len() == len - pos);
            if tag as usize >= self.sizes.len() {
                return Err(ItemsError::UnknownTag);
            }
            let size = self.sizes[tag as usize];
            if size > len - pos - 1 {
                return Err(ItemsError::TruncatedItem);
            }
            let view = StructView::over(&range[pos + 1..pos + 1 + size]);
            proof {
                let here = range@.skip(pos as int);
                let item = ItemView { tag, bytes: view@ };
                let rest = parse_items(range@.skip(pos + 1 + size), self.sizes@);
                assert(here.subrange(1, 1 + size) =~= view@);
                assert(here.skip(1 + size) =~= range@.skip(pos + 1 + size));
                assert(item_views(list@.push(Item { tag, view })) =~= item_views(list@).push(item));
                if rest is Ok {
                    assert(item_views(list@) + (seq![item] + rest->Ok_0) =~= item_views(list@).push(
                        item,
                    ) + rest->Ok_0);
                }
            }
            list.push(Item { tag, view });
            pos += 1 + size;
        }
        assert(item_views(list@) + Seq::<ItemView>::empty() =~= item_views(list@));
        Ok(list)
    }
}

/// The mathematical content of a multivector under construction.
pub struct MultiVectorView {
    /// The bytes of the payload so far.
    pub payload: Seq<u8>,
    /// The bytes of the index so far.
    pub index: Seq<u8>,
    /// The width of one index entry in bits.
    pub index_width: nat,
    /// The sizes of the structures of the variants, by tag.
    pub sizes: Seq<usize>,
    /// The number of positions finished so far.
    pub positions: nat,
}

impl MultiVectorView {
    /// Entry `k` of the index.
    pub open spec fn entry(self, k: int) -> nat {
        index_entry(self.index, self.index_width, k)
    }

    /// The payload offset at which the position under construction starts.
    pub open spec fn open_start(self) -> nat {
        self.entry(self.positions as int)
    }

    /// The payload bytes of the finished position `i`.
    pub open spec fn position_bytes(self, i: int) -> Seq<u8> {
        self.payload.subrange(self.entry(i) as int, self.entry(i + 1) as int)
    }

    /// The payload bytes of the position under construction.
    pub open spec fn open_bytes(self) -> Seq<u8> {
        self.payload.subrange(self.open_start() as int, self.payload.len() as int)
    }

    /// The items of the finished position `i`, in the order in which they
    /// were added.
    pub open spec fn items(self, i: int) -> Seq<ItemView> {
        parse_items(self.position_bytes(i), self.sizes)->Ok_0
    }

    /// The items added to the position under construction, in the order in
    /// which they were added.
    pub open spec fn open_items(self) -> Seq<ItemView> {
        parse_items(self.open_bytes(), self.sizes)->Ok_0
    }

    /// The index has one entry per finished position and one more, the
    /// entries start at 0 and never decrease, and between each entry and the
    /// next, and after the last one, the payload holds whole items.
    pub open spec fn wf(self) -> bool {
        &&& 1 <= self.index_width <= 64
        &&& self.index.len() == (self.positions + 1) * entry_size(self.index_width)
        &&& self.entry(0) == 0
        &&& forall|k: int| 0 <= k <= self.positions ==> #[trigger] self.entry(k) <= self.payload.len()
        &&& forall|k: int|
            0 <= k < self.positions ==> self.entry(k) <= #[trigger] self.entry(k + 1)
        &&& forall|k: int|
            0 <= k < self.positions ==> #[trigger] parse_items(self.position_bytes(k), self.sizes) is Ok
        &&& parse_items(self.open_bytes(), self.sizes) is Ok
        &&& self.payload.len() + 16 <= usize::MAX
        &&& self.index.len() + 16 <= usize::MAX
    }

    /// The multivector after an item was added.
    pub open spec fn added(self, item: ItemView) -> MultiVectorView {
        MultiVectorView { payload: self.payload + encode_item(item), ..self }
    }

    /// The multivector after the position under construction was finished.
    pub open spec fn finished(self) -> MultiVectorView {
        MultiVectorView {
            index: self.index + encode_unsigned(
                self.payload.len() as int,
                entry_size(self.index_width),
            ),
            positions: self.positions + 1,
            ..self
        }
    }
}

/// Adding an item puts it last in the position under construction and
/// leaves all the other items as they were.
pub proof fn lemma_added_item(before: MultiVectorView, item: ItemView)
    requires
        before.wf(),
        item_fits(item, before.sizes),
        before.payload.len() + 1 + item.bytes.len() + 16 <= usize::MAX,
    ensures
        before.added(item).wf(),
        before.added(item).open_items() == before.open_items().push(item),
        forall|i: int|
            0 <= i < before.positions ==> #[trigger] before.added(item).items(i) == before.items(i),
        forall|k: int| #[trigger] before.added(item).entry(k) == before.entry(k),
{
    let after = before.added(item);
    assert(after.open_bytes() =~= before.open_bytes() + encode_item(item)) by {
        assert(before.entry(before.positions as int) <= before.payload.len());
    }
    lemma_parse_appended(before.open_bytes(), item, before.sizes);
    assert forall|k: int| 0 <= k < before.positions implies after.position_bytes(k)
        == before.position_bytes(k) by {
        assert(before.entry(k) <= before.entry(k + 1));
        assert(before.entry(k + 1) <= before.payload.len());
        assert(after.position_bytes(k) =~= before.position_bytes(k));
    }
    assert forall|k: int| 0 <= k < after.positions implies #[trigger] parse_items(
        after.position_bytes(k),
        after.sizes,
    ) is Ok by {
        assert(parse_items(before.position_bytes(k), before.sizes) is Ok);
    }
    assert forall|k: int| 0 <= k <= after.positions implies #[trigger] after.entry(k)
        <= after.payload.len() by {
        assert(before.entry(k) <= before.payload.len());
    }
    assert forall|k: int| 0 <= k < after.positions implies after.entry(k) <= #[trigger] after.entry(
        k + 1,
    ) by {
        assert(before.entry(k) <= before.entry(k + 1));
    }
    assert(parse_items(after.open_bytes(), after.sizes) is Ok);
    assert(after.wf());
    assert forall|i: int| 0 <= i < before.positions implies #[trigger] after.items(i)
        == before.items(i) by {
        assert(after.position_bytes(i) == before.position_bytes(i));
    }
}

proof fn lemma_added_item_if_fits(before: MultiVectorView, item: ItemView)
    requires
        before.wf(),
    ensures
        item_fits(item, before.sizes) && before.payload.len() + 1 + item.bytes.len() + 16
            <= usize::MAX ==> before.added(item).wf(),
{
    if item_fits(item, before.sizes) && before.payload.len() + 1 + item.bytes.len() + 16
        <= usize::MAX {
        lemma_added_item(before, item);
    }
}

proof fn lemma_entry_size(width: nat)
    requires
        1 <= width <= 64,
    ensures
        1 <= entry_size(width) <= 8,
        width <= 8 * entry_size(width),
{
}

/// Finishing a position makes the items added to it the items of that
/// position, records the length of the payload as the next index entry, and
/// leaves all the other positions as they were.
pub proof fn lemma_finished_position(before: MultiVectorView)
    requires
        before.wf(),
        fits_unsigned(before.payload.len() as int, before.index_width),
        before.index.len() + entry_size(before.index_width) + 16 <= usize::MAX,
    ensures
        before.finished().wf(),
        before.finished().items(before.positions as int) == before.open_items(),
        before.finished().open_items() == Seq::<ItemView>::empty(),
        before.finished().entry(before.positions as int + 1) == before.payload.len(),
        forall|k: int| 0 <= k <= before.positions ==> #[trigger] before.finished().entry(k) == before.entry(k),
        forall|i: int|
            0 <= i < before.positions ==> #[trigger] before.finished().items(i) == before.items(i),
{
    let after = before.finished();
    let width = before.index_width;
    let size = entry_size(width);
    let count = before.positions + 1;
    let end = before.payload.len();
    let added = encode_unsigned(end as int, size);
    lemma_entry_size(width);
    lemma_field_of_encoded(end as int, width, size);
    assert((count + 1) * size == count * size + size) by (nonlinear_arith);
    assert forall|k: int| 0 <= k <= count implies #[trigger] after.entry(k) == if k < count {
        before.entry(k)
    } else {
        end
    } by {
        crate::external_vector::lemma_appended_element(before.index, added, size, count, k);
    }
    assert(after.open_bytes() =~= Seq::<u8>::empty());
    assert(parse_items(Seq::<u8>::empty(), after.sizes) == Ok::<Seq<ItemView>, ItemsError>(
        Seq::empty(),
    ));
    assert(after.position_bytes(before.positions as int) == before.open_bytes());
    assert forall|k: int| 0 <= k < before.positions implies after.position_bytes(k)
        == before.position_bytes(k) by {
        assert(after.entry(k) == before.entry(k));
        assert(after.entry(k + 1) == before.entry(k + 1));
    }
    assert forall|k: int| 0 <= k < after.positions implies #[trigger] parse_items(
        after.position_bytes(k),
        after.sizes,
    ) is Ok by {
        if k < before.positions {
            assert(parse_items(before.position_bytes(k), before.sizes) is Ok);
        }
    }
    assert forall|k: int| 0 <= k < after.positions implies after.entry(k) <= #[trigger] after.entry(
        k + 1,
    ) by {
        assert(after.entry(k) == before.entry(k));
        assert(before.entry(k) <= end);
        if k < before.positions {
            assert(after.entry(k + 1) == before.entry(k + 1));
            assert(before.entry(k) <= before.entry(k + 1));
        }
    }
    assert forall|k: int| 0 <= k <= after.positions implies #[trigger] after.entry(k)
        <= after.payload.len() by {
        if k < count {
            assert(after.entry(k) == before.entry(k));
            assert(before.entry(k) <= end);
        }
    }
    assert(after.entry(0) == before.entry(0));
}

/// What was built is what is read: the finished positions of a multivector
/// are read from its payload and its index with the items that were added to
/// them, in the order in which they were added. The index starts at 0, and
/// each position takes as many payload bytes as its items are long.
pub proof fn lemma_positions_read_back(built: MultiVectorView, i: int)
    requires
        built.wf(),
        0 <= i < built.positions,
    ensures
        position_count(built.index, built.index_width) == built.positions,
        position_result(built.payload, built.index, built.index_width, built.sizes, i) == Ok::<
            Seq<ItemView>,
            ItemsError,
        >(built.items(i)),
        built.entry(0) == 0,
        built.entry(i + 1) - built.entry(i) == encoded_len(built.items(i)),
        forall|k: int| 0 <= k < built.items(i).len() ==> item_fits(#[trigger] built.items(i)[k], built.sizes),
{
    lemma_entry_size(built.index_width);
    lemma_element_count_exact(built.index, entry_size(built.index_width), built.positions + 1);
    assert(built.entry(i) <= built.entry(i + 1));
    assert(built.entry(i + 1) <= built.payload.len());
    assert(parse_items(built.position_bytes(i), built.sizes) is Ok);
    lemma_parsed_items(built.position_bytes(i), built.sizes);
}

/// The storage after a multivector was closed into it, and the name of the
/// resource that was refused, if one was: the payload is written first, then
/// the index, and neither is written when the storage holds a part of either.
pub open spec fn closed_into(
    store: Map<Seq<char>, Seq<u8>>,
    built: MultiVectorView,
    name: Seq<char>,
    schema: Seq<char>,
    index_name: Seq<char>,
    index_schema: Seq<char>,
) -> (Map<Seq<char>, Seq<u8>>, Option<Seq<char>>) {
    let with_payload = written(store, name, schema, built.payload);
    if holds_part(store, name) {
        (store, Some(name))
    } else if holds_part(store, index_name) {
        (store, Some(index_name))
    } else if holds_part(with_payload, index_name) {
        (with_payload, Some(index_name))
    } else {
        (written(with_payload, index_name, index_schema, built.index), None)
    }
}

/// Once every item belongs to a finished position, the last index entry is
/// the length of the payload.
pub proof fn lemma_last_entry_is_payload_length(built: MultiVectorView)
    requires
        built.wf(),
        built.open_bytes().len() == 0,
    ensures
        built.entry(built.positions as int) == built.payload.len(),
{
    assert(built.entry(built.positions as int) <= built.payload.len());
}

/// A multivector that was closed into a storage which held no part of its
/// two resources is read back from there: its payload and its index are the
/// bytes that were built.
pub proof fn lemma_closed_multivector_is_read_back(
    store: Map<Seq<char>, Seq<u8>>,
    built: MultiVectorView,
    name: Seq<char>,
    schema: Seq<char>,
    index_name: Seq<char>,
    index_schema: Seq<char>,
)
    requires
        built.wf(),
        closed_into(store, built, name, schema, index_name, index_schema).1 is None,
    ensures
        read_result(
            closed_into(store, built, name, schema, index_name, index_schema).0,
            name,
            schema,
        ) == Ok::<Seq<u8>, ErrorView>(built.payload),
        read_result(
            closed_into(store, built, name, schema, index_name, index_schema).0,
            index_name,
            index_schema,
        ) == Ok::<Seq<u8>, ErrorView>(built.index),
{
    let with_payload = written(store, name, schema, built.payload);
    lemma2_to64();
    lemma_read_after_write(store, name, schema, built.payload, schema);
    lemma_read_after_write(with_payload, index_name, index_schema, built.index, index_schema);
    lemma_schema_name_differs(name);
    lemma_schema_name_differs(index_name);
    assert(with_payload.contains_key(name));
    assert(with_payload.contains_key(schema_name(name)));
    lemma_write_keeps_others(with_payload, index_name, index_schema, built.index, name, schema);
}

/// A multivector under construction.
pub struct MultiVector {
    name: &'static str,
    schema: &'static str,
    index_name: &'static str,
    index_schema: &'static str,
    index_width: usize,
    sizes: Vec<usize>,
    data: GrowthBuffer,
    index: GrowthBuffer,
    positions: usize,
}

impl View for MultiVector {
    type V = MultiVectorView;

    closed spec fn view(&self) -> MultiVectorView {
        MultiVectorView {
            payload: self.data@,
            index: self.index@,
            index_width: self.index_width as nat,
            sizes: self.sizes@,
            positions: self.positions as nat,
        }
    }
}

impl MultiVector {
    /// The name of the resource that the payload is written to.
    pub closed spec fn name(self) -> Seq<char> {
        self.name@
    }

    /// The schema of the resource that the payload is written to.
    pub closed spec fn schema(self) -> Seq<char> {
        self.schema@
    }

    /// The name of the resource that the index is written to.
    pub closed spec fn index_name(self) -> Seq<char> {
        self.index_name@
    }

    /// The schema of the resource that the index is written to.
    pub closed spec fn index_schema(self) -> Seq<char> {
        self.index_schema@
    }

    /// Whether two multivectors are written to the same resources.
    pub open spec fn same_resources(self, other: MultiVector) -> bool {
        &&& self.name() == other.name()
        &&& self.schema() == other.schema()
        &&& self.index_name() == other.index_name()
        &&& self.index_schema() == other.index_schema()
    }

    /// A multivector without positions, whose index holds the one entry 0.
    /// Its payload is to be written to resource `name`, its index, with
    /// entries of `index_width` bits, to resource `index_name`. `sizes` gives
    /// the size of each variant's structure, by tag.
    pub fn new(
        name: &'static str,
        schema: &'static str,
        index_name: &'static str,
        index_schema: &'static str,
        index_width: usize,
        sizes: Vec<usize>,
    ) -> (vector: MultiVector)
        requires
            1 <= index_width <= 64,
        ensures
            vector@.wf(),
            vector@ == (MultiVectorView {
                payload: Seq::empty(),
                index: zeros(entry_size(index_width as nat)),
                index_width: index_width as nat,
                sizes: sizes@,
                positions: 0,
            }),
            vector.name() == name@,
            vector.schema() == schema@,
            vector.index_name() == index_name@,
            vector.index_schema() == index_schema@,
    {
        let mut index = GrowthBuffer::new();
        index.extend_zeroed((index_width + 7) / 8);
        let vector = MultiVector {
            name,
            schema,
            index_name,
            index_schema,
            index_width,
            sizes,
            data: GrowthBuffer::new(),
            index,
            positions: 0,
        };
        proof {
            let size = entry_size(index_width as nat);
            let built = vector@;
            assert(built.index =~= zeros(size));
            assert(element_bytes(built.index, size, 0) =~= zeros(size));
            lemma_field_of_zeros(size, 0, index_width as nat);
            assert(built.open_bytes() =~= Seq::<u8>::empty());
            assert(parse_items(Seq::<u8>::empty(), built.sizes) is Ok);
        }
        vector
    }

    /// The number of positions finished so far.
    pub fn positions(&self) -> (positions: usize)
        ensures
            positions == self@.positions,
    {
        self.positions
    }

    /// The number of payload bytes written so far.
    pub fn payload_len(&self) -> (len: usize)
        ensures
            len == self@.payload.len(),
    {
        self.data.len()
    }

    /// Whether items were added since the last position was finished.
    pub fn has_open_items(&self) -> (open: bool)
        requires
            self@.wf(),
        ensures
            open == (self@.open_bytes().len() > 0),
    {
        let size = (self.index_width + 7) / 8;
        let bytes = self.index.as_slice();
        let len = bytes.len();
        proof {
            lemma_entry_size(self.index_width as nat);
            lemma_element_count_exact(self@.index, size as nat, self@.positions + 1);
            lemma_element_in_bytes(len as nat, size as nat, self.positions as int);
            assert(self@.entry(self.positions as int) <= self@.payload.len());
        }
        let start = self.positions * size;
        let last = read_unsigned(&bytes[start..start + size], 0, self.index_width);
        last != self.data.len() as u64
    }

    /// Adds an item of variant `tag` to the position under construction: the
    /// tag and a structure of the variant's size, all of its bytes zero. It
    /// gives the view through which the structure is filled in; the item
    /// becomes what the view holds when it is given up.
    pub fn add(&mut self, tag: u8) -> (element: StructViewMut<'_>)
        requires
            old(self)@.wf(),
            tag < old(self)@.sizes.len(),
            old(self)@.payload.len() + 1 + old(self)@.sizes[tag as int] + 16 <= usize::MAX,
        ensures
            element@ == zeros(old(self)@.sizes[tag as int] as nat),
            final(self)@ == old(self)@.added(ItemView { tag, bytes: final(element.bytes)@ }),
            final(self).same_resources(*old(self)),
            final(element.bytes)@.len() == element@.len() ==> final(self)@.wf(),
    {
        let size = self.sizes[tag as usize];
        self.data.push(tag);
        let start = self.data.len();
        self.data.extend_zeroed(size);
        let element = self.data.window_mut(start, size);
        proof {
            let before = old(self)@;
            let item = ItemView { tag, bytes: final(element.bytes)@ };
            let grown = before.payload.push(tag) + zeros(size as nat);
            assert(grown.subrange(start as int, start + size) =~= zeros(size as nat));
            assert(grown.subrange(0, start as int) + item.bytes + grown.subrange(
                start + size,
                grown.len() as int,
            ) =~= before.payload + encode_item(item));
            lemma_added_item_if_fits(before, item);
        }
        element
    }

    /// Finishes the position under construction, with the items added since
    /// the position before it was finished: the length of the payload becomes
    /// the next index entry. If that length does not fit in an index entry,
    /// the position is not finished and the multivector stays as it is.
    pub fn finish_item(&mut self) -> (done: Result<(), ResourceStorageError>)
        requires
            old(self)@.wf(),
            old(self)@.index.len() + entry_size(old(self)@.index_width) + 16 <= usize::MAX,
        ensures
            final(self).same_resources(*old(self)),
            match done {
                Ok(_) => {
                    &&& fits_unsigned(old(self)@.payload.len() as int, old(self)@.index_width)
                    &&& final(self)@ == old(self)@.finished()
                    &&& final(self)@.wf()
                },
                Err(e) => {
                    &&& !fits_unsigned(old(self)@.payload.len() as int, old(self)@.index_width)
                    &&& final(self)@ == old(self)@
                    &&& e@ == (ErrorView::TooBig {
                        resource_name: old(self).name(),
                        size: old(self)@.payload.len(),
                    })
                },
            },
    {
        let offset = self.data.len();
        let width = self.index_width;
        proof {
            lemma2_to64();
            if width < 64 {
                lemma_u64_pow2_no_overflow(width as nat);
                lemma_u64_shl_is_mul(1, width as u64);
            }
        }
        if width < 64 && (offset as u64) >= (1u64 << (width as u64)) {
            return Err(ResourceStorageError::TooBig { resource_name: self.name, size: offset });
        }
        let size = (width + 7) / 8;
        let start = self.index.len();
        self.index.extend_zeroed(size);
        let mut entry = self.index.window_mut(start, size);
        let field = Field { offset: 0, width, signed: false };
        assert(entry@ =~= zeros(size as nat));
        entry.set_unsigned(&field, offset as u64);
        let ghost written_entry = entry@;
        proof {
            let before = old(self)@;
            lemma_entry_size(width as nat);
            assert(before.positions + 1 <= before.index.len()) by (nonlinear_arith)
                requires
                    before.index.len() == (before.positions + 1) * entry_size(before.index_width),
                    entry_size(before.index_width) >= 1,
            ;
        }
        self.positions += 1;
        proof {
            let before = old(self)@;
            let grown = before.index + zeros(size as nat);
            lemma_written_to_zeros(written_entry, offset as int, width as nat, size as nat);
            assert(grown.subrange(0, start as int) + written_entry + grown.subrange(
                start + size,
                grown.len() as int,
            ) =~= before.index + written_entry);
            assert(self@ == before.finished());
            lemma_finished_position(before);
        }
        Ok(())
    }

    /// The storage after the multivector was closed into it, and the name of
    /// the resource that was refused, if one was.
    pub open spec fn closing(self, store: Map<Seq<char>, Seq<u8>>) -> (
        Map<Seq<char>, Seq<u8>>,
        Option<Seq<char>>,
    ) {
        closed_into(
            store,
            self@,
            self.name(),
            self.schema(),
            self.index_name(),
            self.index_schema(),
        )
    }

    /// Writes the payload and the index to the storage as the two resources
    /// they were made for: first the payload, then the index. Nothing is
    /// written if the storage holds a part of either resource already. The
    /// multivector is used up: nothing can be added to it afterwards. Every
    /// item must belong to a finished position, so that the last index entry
    /// is the length of the payload.
    pub fn close(self, storage: &mut ResourceStorage) -> (done: Result<(), ResourceStorageError>)
        requires
            self@.wf(),
            self@.open_bytes().len() == 0,
        ensures
            final(storage)@ == self.closing(old(storage)@).0,
            match done {
                Ok(_) => self.closing(old(storage)@).1 is None,
                Err(e) => self.closing(old(storage)@).1 is Some && e@ == already_exists(
                    self.closing(old(storage)@).1->0,
                ),
            },
    {
        if !storage.holds_part_of(self.name) && storage.holds_part_of(self.index_name) {
            return Err(
                ResourceStorageError::from_io_error(
                    new_already_exists_error(self.index_name),
                    String::from_str(self.index_name),
                ),
            );
        }
        match storage.write(self.name, self.schema, self.data.as_slice()) {
            Ok(_) => {},
            Err(e) => {
                return Err(e);
            },
        }
        storage.write(self.index_name, self.index_schema, self.index.as_slice())
    }
}

} // verus!
