//! Conversion of properties and nodes into values that own their contents.
use fallible_iterator::FallibleIterator;
use vstd::prelude::*;
use vstd::slice::slice_to_vec;

use crate::blob::{
    lemma_c_str_len, Cursor, Item, ItemView, Node, NodeView, Property, PropertyView,
};
use crate::deserialize::str_value;
use crate::node::{items_of, law_collect_end, lemma_next_advances, ItemsView};
use crate::prop_value::{
    all_strings, lemma_whole_blocks, next_string, reg_blocks, reg_error, Reg, RegBlock, RegView,
    Strings,
};
use crate::util::{are_words_of, law_cells_of_bytes, lemma_words_of_part};
use crate::{DeserializeNode, DeserializeProperty, Error, NodeContext, PushDeserializedNode};

verus! {

/// Calls `Vec::into_boxed_slice`. Trusted: it keeps the elements in order.
#[verifier::external_body]
fn into_boxed_slice<T>(v: Vec<T>) -> (r: Box<[T]>)
    ensures
        r@ == v@,
{
    v.into_boxed_slice()
}

/// Calls `Box::<str>::from`. Trusted: it keeps the characters.
#[verifier::external_body]
fn boxed_str(s: &str) -> (r: Box<str>)
    ensures
        r@ == s@,
{
    Box::from(s)
}

impl<'dtb, C: ?Sized> DeserializeProperty<'dtb, C> for Vec<u8> {
    open spec fn deserialized(
        prop: PropertyView,
        cx: NodeContext<'_, C>,
        r: Result<Self, Error>,
    ) -> bool {
        r matches Ok(bytes) && bytes@ == prop.value
    }

    fn deserialize(blob_prop: Property<'dtb>, _cx: NodeContext<'_, C>) -> (r: Result<Self, Error>) {
        Ok(slice_to_vec(blob_prop.value()))
    }
}

impl<'dtb, C: ?Sized> DeserializeProperty<'dtb, C> for Box<[u8]> {
    open spec fn deserialized(
        prop: PropertyView,
        cx: NodeContext<'_, C>,
        r: Result<Self, Error>,
    ) -> bool {
        r matches Ok(bytes) && bytes@ == prop.value
    }

    fn deserialize(blob_prop: Property<'dtb>, _cx: NodeContext<'_, C>) -> (r: Result<Self, Error>) {
        Ok(into_boxed_slice(slice_to_vec(blob_prop.value())))
    }
}

/// The words are in the byte order of the blob.
impl<'dtb, C: ?Sized> DeserializeProperty<'dtb, C> for Vec<u32> {
    open spec fn deserialized(
        prop: PropertyView,
        cx: NodeContext<'_, C>,
        r: Result<Self, Error>,
    ) -> bool {
        if prop.value.len() % 4 == 0 {
            r matches Ok(words) && are_words_of(words@, prop.value)
        } else {
            r == Err::<Self, Error>(Error::UnsuitableProperty)
        }
    }

    fn deserialize(blob_prop: Property<'dtb>, cx: NodeContext<'_, C>) -> (r: Result<Self, Error>) {
        match <&'dtb [u32]>::deserialize(blob_prop, cx) {
            Ok(words) => Ok(slice_to_vec(words)),
            Err(err) => Err(err),
        }
    }
}

/// The words are in the byte order of the blob.
impl<'dtb, C: ?Sized> DeserializeProperty<'dtb, C> for Box<[u32]> {
    open spec fn deserialized(
        prop: PropertyView,
        cx: NodeContext<'_, C>,
        r: Result<Self, Error>,
    ) -> bool {
        if prop.value.len() % 4 == 0 {
            r matches Ok(words) && are_words_of(words@, prop.value)
        } else {
            r == Err::<Self, Error>(Error::UnsuitableProperty)
        }
    }

    fn deserialize(blob_prop: Property<'dtb>, cx: NodeContext<'_, C>) -> (r: Result<Self, Error>) {
        match <&'dtb [u32]>::deserialize(blob_prop, cx) {
            Ok(words) => Ok(into_boxed_slice(slice_to_vec(words))),
            Err(err) => Err(err),
        }
    }
}

impl<'dtb, C: ?Sized> DeserializeProperty<'dtb, C> for String {
    open spec fn deserialized(
        prop: PropertyView,
        cx: NodeContext<'_, C>,
        r: Result<Self, Error>,
    ) -> bool {
        match str_value(prop.value) {
            Ok(chars) => r matches Ok(s) && s@ == chars,
            Err(err) => r == Err::<Self, Error>(err),
        }
    }

    fn deserialize(blob_prop: Property<'dtb>, cx: NodeContext<'_, C>) -> (r: Result<Self, Error>) {
        match <&'dtb str>::deserialize(blob_prop, cx) {
            Ok(s) => Ok(s.to_owned()),
            Err(err) => Err(err),
        }
    }
}

impl<'dtb, C: ?Sized> DeserializeProperty<'dtb, C> for Box<str> {
    open spec fn deserialized(
        prop: PropertyView,
        cx: NodeContext<'_, C>,
        r: Result<Self, Error>,
    ) -> bool {
        match str_value(prop.value) {
            Ok(chars) => r matches Ok(s) && s@ == chars,
            Err(err) => r == Err::<Self, Error>(err),
        }
    }

    fn deserialize(blob_prop: Property<'dtb>, cx: NodeContext<'_, C>) -> (r: Result<Self, Error>) {
        match <&'dtb str>::deserialize(blob_prop, cx) {
            Ok(s) => Ok(boxed_str(s)),
            Err(err) => Err(err),
        }
    }
}

// ---------------------------------------------------------------------------
// Lists of strings
// ---------------------------------------------------------------------------

/// The strings that were already read, followed by those that are left.
spec fn with_rest(read: Seq<Seq<char>>, bytes: Seq<u8>) -> Result<Seq<Seq<char>>, Error> {
    match all_strings(bytes) {
        Ok(strings) => Ok(read + strings),
        Err(err) => Err(err),
    }
}

/// Reading one more string does not change the list as a whole.
proof fn lemma_with_rest(read: Seq<Seq<char>>, bytes: Seq<u8>)
    ensures
        match next_string(bytes) {
            (Ok(Some(s)), rest) => {
                &&& rest.len() < bytes.len()
                &&& with_rest(read, bytes) == with_rest(read.push(s), rest)
            },
            (Ok(None), _) => with_rest(read, bytes) == Ok::<Seq<Seq<char>>, Error>(read),
            (Err(err), _) => with_rest(read, bytes) == Err::<Seq<Seq<char>>, Error>(err),
        },
{
    lemma_c_str_len(bytes);
    match next_string(bytes) {
        (Ok(Some(s)), rest) => {
            if let Ok(strings) = all_strings(rest) {
                assert(read + (seq![s] + strings) == read.push(s) + strings);
            }
        },
        (Ok(None), _) => {
            assert(read + Seq::<Seq<char>>::empty() == read);
        },
        (Err(_), _) => {},
    }
}

impl<'dtb, C: ?Sized> DeserializeProperty<'dtb, C> for Vec<&'dtb str> {
    open spec fn deserialized(
        prop: PropertyView,
        cx: NodeContext<'_, C>,
        r: Result<Self, Error>,
    ) -> bool {
        match all_strings(prop.value) {
            Ok(strings) => r matches Ok(v) && v@.map_values(|s: &'dtb str| s@) == strings,
            Err(err) => r == Err::<Self, Error>(err),
        }
    }

    fn deserialize(blob_prop: Property<'dtb>, cx: NodeContext<'_, C>) -> (r: Result<Self, Error>) {
        let mut strings = match Strings::deserialize(blob_prop, cx) {
            Ok(strings) => strings,
            Err(err) => return Err(err),
        };
        let mut v: Vec<&'dtb str> = Vec::new();
        loop
            invariant
                all_strings(blob_prop@.value) == with_rest(
                    v@.map_values(|s: &'dtb str| s@),
                    strings@,
                ),
            decreases strings@.len(),
        {
            let ghost read = v@.map_values(|s: &'dtb str| s@);
            proof {
                lemma_with_rest(read, strings@);
            }
            match strings.next() {
                Ok(Some(s)) => {
                    v.push(s);
                    assert(v@.map_values(|s: &'dtb str| s@) == read.push(s@));
                },
                Ok(None) => return Ok(v),
                Err(err) => return Err(err),
            }
        }
    }
}

impl<'dtb, C: ?Sized> DeserializeProperty<'dtb, C> for Vec<String> {
    open spec fn deserialized(
        prop: PropertyView,
        cx: NodeContext<'_, C>,
        r: Result<Self, Error>,
    ) -> bool {
        match all_strings(prop.value) {
            Ok(strings) => r matches Ok(v) && v@.map_values(|s: String| s@) == strings,
            Err(err) => r == Err::<Self, Error>(err),
        }
    }

    fn deserialize(blob_prop: Property<'dtb>, cx: NodeContext<'_, C>) -> (r: Result<Self, Error>) {
        let mut strings = match Strings::deserialize(blob_prop, cx) {
            Ok(strings) => strings,
            Err(err) => return Err(err),
        };
        let mut v: Vec<String> = Vec::new();
        loop
            invariant
                all_strings(blob_prop@.value) == with_rest(
                    v@.map_values(|s: String| s@),
                    strings@,
                ),
            decreases strings@.len(),
        {
            let ghost read = v@.map_values(|s: String| s@);
            proof {
                lemma_with_rest(read, strings@);
            }
            match strings.next() {
                Ok(Some(s)) => {
                    v.push(s.to_owned());
                    assert(v@.map_values(|s: String| s@) == read.push(s@));
                },
                Ok(None) => return Ok(v),
                Err(err) => return Err(err),
            }
        }
    }
}

impl<'dtb, C: ?Sized> DeserializeProperty<'dtb, C> for Vec<Box<str>> {
    open spec fn deserialized(
        prop: PropertyView,
        cx: NodeContext<'_, C>,
        r: Result<Self, Error>,
    ) -> bool {
        match all_strings(prop.value) {
            Ok(strings) => r matches Ok(v) && v@.map_values(|s: Box<str>| s@) == strings,
            Err(err) => r == Err::<Self, Error>(err),
        }
    }

    fn deserialize(blob_prop: Property<'dtb>, cx: NodeContext<'_, C>) -> (r: Result<Self, Error>) {
        let mut strings = match Strings::deserialize(blob_prop, cx) {
            Ok(strings) => strings,
            Err(err) => return Err(err),
        };
        let mut v: Vec<Box<str>> = Vec::new();
        loop
            invariant
                all_strings(blob_prop@.value) == with_rest(
                    v@.map_values(|s: Box<str>| s@),
                    strings@,
                ),
            decreases strings@.len(),
        {
            let ghost read = v@.map_values(|s: Box<str>| s@);
            proof {
                lemma_with_rest(read, strings@);
            }
            match strings.next() {
                Ok(Some(s)) => {
                    v.push(boxed_str(s));
                    assert(v@.map_values(|s: Box<str>| s@) == read.push(s@));
                },
                Ok(None) => return Ok(v),
                Err(err) => return Err(err),
            }
        }
    }
}

impl<'dtb, C: ?Sized> DeserializeProperty<'dtb, C> for Box<[&'dtb str]> {
    open spec fn deserialized(
        prop: PropertyView,
        cx: NodeContext<'_, C>,
        r: Result<Self, Error>,
    ) -> bool {
        match all_strings(prop.value) {
            Ok(strings) => r matches Ok(v) && v@.map_values(|s: &'dtb str| s@) == strings,
            Err(err) => r == Err::<Self, Error>(err),
        }
    }

    fn deserialize(blob_prop: Property<'dtb>, cx: NodeContext<'_, C>) -> (r: Result<Self, Error>) {
        match <Vec<&'dtb str>>::deserialize(blob_prop, cx) {
            Ok(v) => Ok(into_boxed_slice(v)),
            Err(err) => Err(err),
        }
    }
}

impl<'dtb, C: ?Sized> DeserializeProperty<'dtb, C> for Box<[String]> {
    open spec fn deserialized(
        prop: PropertyView,
        cx: NodeContext<'_, C>,
        r: Result<Self, Error>,
    ) -> bool {
        match all_strings(prop.value) {
            Ok(strings) => r matches Ok(v) && v@.map_values(|s: String| s@) == strings,
            Err(err) => r == Err::<Self, Error>(err),
        }
    }

    fn deserialize(blob_prop: Property<'dtb>, cx: NodeContext<'_, C>) -> (r: Result<Self, Error>) {
        match <Vec<String>>::deserialize(blob_prop, cx) {
            Ok(v) => Ok(into_boxed_slice(v)),
            Err(err) => Err(err),
        }
    }
}

impl<'dtb, C: ?Sized> DeserializeProperty<'dtb, C> for Box<[Box<str>]> {
    open spec fn deserialized(
        prop: PropertyView,
        cx: NodeContext<'_, C>,
        r: Result<Self, Error>,
    ) -> bool {
        match all_strings(prop.value) {
            Ok(strings) => r matches Ok(v) && v@.map_values(|s: Box<str>| s@) == strings,
            Err(err) => r == Err::<Self, Error>(err),
        }
    }

    fn deserialize(blob_prop: Property<'dtb>, cx: NodeContext<'_, C>) -> (r: Result<Self, Error>) {
        match <Vec<Box<str>>>::deserialize(blob_prop, cx) {
            Ok(v) => Ok(into_boxed_slice(v)),
            Err(err) => Err(err),
        }
    }
}

// ---------------------------------------------------------------------------
// Lists of blocks
// ---------------------------------------------------------------------------

/// The next block, read from the cells that bytes hold, is the next one of
/// those bytes.
proof fn lemma_next_block(reg: RegView, bytes: Seq<u8>)
    requires
        reg.is_whole(),
        are_words_of(reg.words, bytes),
        bytes.len() % 4 == 0,
    ensures
        ({
            let blocks = reg_blocks(bytes, reg.address_cells as int, reg.size_cells as int);
            match reg.next() {
                (Some(block), rest) => {
                    let n = 4 * reg.block_cells();
                    &&& rest.is_whole()
                    &&& rest.words.len() < reg.words.len()
                    &&& are_words_of(rest.words, bytes.skip(n))
                    &&& bytes.skip(n).len() % 4 == 0
                    &&& blocks == seq![block] + reg_blocks(
                        bytes.skip(n),
                        reg.address_cells as int,
                        reg.size_cells as int,
                    )
                },
                (None, _) => blocks == Seq::<RegBlock>::empty(),
            }
        }),
{
    if reg.words.len() > 0 {
        lemma_whole_blocks(reg);
        let a = reg.address_cells as int;
        let n = reg.block_cells();
        let len = reg.words.len() as int;
        let words = reg.words;
        lemma_words_of_part(words, bytes, 0, a);
        lemma_words_of_part(words, bytes, a, n);
        lemma_words_of_part(words, bytes, n, len);
        assert(words.take(n).take(a) == words.subrange(0, a));
        assert(words.take(n).skip(a) == words.subrange(a, n));
        assert(words.skip(n) == words.subrange(n, len));
        assert(bytes.take(4 * a) == bytes.subrange(0, 4 * a));
        assert(bytes.skip(4 * n) == bytes.subrange(4 * n, 4 * len));
        law_cells_of_bytes(words.subrange(0, a), bytes.subrange(0, 4 * a));
        law_cells_of_bytes(words.subrange(a, n), bytes.subrange(4 * a, 4 * n));
    }
}

impl<'dtb, C: ?Sized> DeserializeProperty<'dtb, C> for Vec<RegBlock> {
    open spec fn deserialized(
        prop: PropertyView,
        cx: NodeContext<'_, C>,
        r: Result<Self, Error>,
    ) -> bool {
        match reg_error(prop.value, cx.address_cells, cx.size_cells) {
            Some(err) => r == Err::<Self, Error>(err),
            None => r matches Ok(v) && v@ == reg_blocks(
                prop.value,
                cx.address_cells as int,
                cx.size_cells as int,
            ),
        }
    }

    fn deserialize(blob_prop: Property<'dtb>, cx: NodeContext<'_, C>) -> (r: Result<Self, Error>) {
        let mut reg = match Reg::deserialize(blob_prop, cx) {
            Ok(reg) => reg,
            Err(err) => return Err(err),
        };
        let ghost mut bytes = blob_prop@.value;
        let mut v: Vec<RegBlock> = Vec::new();
        loop
            invariant
                reg@.is_whole(),
                reg@.address_cells == cx.address_cells,
                reg@.size_cells == cx.size_cells,
                are_words_of(reg@.words, bytes),
                bytes.len() % 4 == 0,
                reg_error(blob_prop@.value, cx.address_cells, cx.size_cells) is None,
                reg_blocks(blob_prop@.value, cx.address_cells as int, cx.size_cells as int) == v@
                    + reg_blocks(bytes, cx.address_cells as int, cx.size_cells as int),
            decreases reg@.words.len(),
        {
            proof {
                lemma_next_block(reg@, bytes);
                bytes = bytes.skip(4 * reg@.block_cells());
            }
            match reg.next() {
                Some(block) => {
                    v.push(block);
                },
                None => return Ok(v),
            }
        }
    }
}

impl<'dtb, C: ?Sized> DeserializeProperty<'dtb, C> for Box<[RegBlock]> {
    open spec fn deserialized(
        prop: PropertyView,
        cx: NodeContext<'_, C>,
        r: Result<Self, Error>,
    ) -> bool {
        match reg_error(prop.value, cx.address_cells, cx.size_cells) {
            Some(err) => r == Err::<Self, Error>(err),
            None => r matches Ok(v) && v@ == reg_blocks(
                prop.value,
                cx.address_cells as int,
                cx.size_cells as int,
            ),
        }
    }

    fn deserialize(blob_prop: Property<'dtb>, cx: NodeContext<'_, C>) -> (r: Result<Self, Error>) {
        match <Vec<RegBlock>>::deserialize(blob_prop, cx) {
            Ok(v) => Ok(into_boxed_slice(v)),
            Err(err) => Err(err),
        }
    }
}

// ---------------------------------------------------------------------------
// Nodes
// ---------------------------------------------------------------------------

/// The items that were already read, followed by those that are left, and the
/// end of the node.
spec fn with_items(read: Seq<ItemView>, items: ItemsView) -> Result<
    (Seq<ItemView>, Cursor),
    Error,
> {
    match items.collect() {
        Ok((rest, end)) => Ok((read + rest, end)),
        Err(err) => Err(err),
    }
}

/// Reading one more item does not change the list as a whole.
proof fn lemma_with_items(read: Seq<ItemView>, items: ItemsView)
    ensures
        match items.next() {
            (Ok(Some(item)), rest) => {
                &&& rest.bytes_left() < items.bytes_left()
                &&& with_items(read, items) == with_items(read.push(item), rest)
            },
            (Ok(None), rest) => with_items(read, items) == Ok::<(Seq<ItemView>, Cursor), Error>(
                (read, rest.cursor),
            ),
            (Err(err), _) => with_items(read, items) == Err::<(Seq<ItemView>, Cursor), Error>(err),
        },
{
    lemma_next_advances(items);
    match items.next() {
        (Ok(Some(item)), rest) => {
            if let Ok((behind, _)) = rest.collect() {
                assert(read + (seq![item] + behind) == read.push(item) + behind);
            }
        },
        (Ok(None), _) => {
            assert(read + Seq::<ItemView>::empty() == read);
        },
        (Err(_), _) => {},
    }
}

/// Collects the items of a node.
fn collect_items<'dtb>(node: &Node<'dtb>) -> (r: Result<(Vec<Item<'dtb>>, Cursor), Error>)
    ensures
        match items_of(node@).collect() {
            Ok((items, end)) => {
                &&& r matches Ok((v, cursor))
                &&& v@.map_values(|item: Item<'dtb>| item@) == items
                &&& cursor == end
            },
            Err(err) => r == Err::<(Vec<Item<'dtb>>, Cursor), Error>(err),
        },
{
    let mut items = node.items();
    let mut v: Vec<Item<'dtb>> = Vec::new();
    loop
        invariant
            items_of(node@).collect() == with_items(
                v@.map_values(|item: Item<'dtb>| item@),
                items@,
            ),
        decreases items@.bytes_left(),
    {
        let ghost read = v@.map_values(|item: Item<'dtb>| item@);
        proof {
            lemma_with_items(read, items@);
        }
        match items.next() {
            Ok(Some(item)) => {
                v.push(item);
                assert(v@.map_values(|item: Item<'dtb>| item@) == read.push(item@));
            },
            Ok(None) => return Ok((v, items._cursor_())),
            Err(err) => return Err(err),
        }
    }
}

impl<'dtb, C: ?Sized> DeserializeNode<'dtb, C> for Vec<Item<'dtb>> {
    open spec fn deserialized(
        node: NodeView,
        cx: NodeContext<'_, C>,
        r: Result<Self, Error>,
    ) -> bool {
        match items_of(node).collect() {
            Ok((items, _)) => r matches Ok(v) && v@.map_values(|item: Item<'dtb>| item@) == items,
            Err(err) => r == Err::<Self, Error>(err),
        }
    }

    fn deserialize(blob_node: &Node<'dtb>, _cx: NodeContext<'_, C>) -> (r: Result<
        (Self, Cursor),
        Error,
    >) {
        proof {
            law_collect_end(items_of(blob_node@));
        }
        collect_items(blob_node)
    }
}

impl<'dtb, C: ?Sized> DeserializeNode<'dtb, C> for Box<[Item<'dtb>]> {
    open spec fn deserialized(
        node: NodeView,
        cx: NodeContext<'_, C>,
        r: Result<Self, Error>,
    ) -> bool {
        match items_of(node).collect() {
            Ok((items, _)) => r matches Ok(v) && v@.map_values(|item: Item<'dtb>| item@) == items,
            Err(err) => r == Err::<Self, Error>(err),
        }
    }

    fn deserialize(blob_node: &Node<'dtb>, _cx: NodeContext<'_, C>) -> (r: Result<
        (Self, Cursor),
        Error,
    >) {
        proof {
            law_collect_end(items_of(blob_node@));
        }
        match collect_items(blob_node) {
            Ok((v, end)) => Ok((into_boxed_slice(v), end)),
            Err(err) => Err(err),
        }
    }
}

impl<'dtb, C: ?Sized, A: DeserializeNode<'dtb, C>> PushDeserializedNode<'dtb, C> for Vec<A> {
    type Node = A;

    open spec fn can_push(&self, node: A) -> bool {
        true
    }

    open spec fn pushed(&self, node: A, r: Result<(), Error>, after: &Self) -> bool {
        r is Ok && after@ == self@.push(node)
    }

    fn push_node(&mut self, node: A, _cx: NodeContext<'_, C>) -> (r: Result<(), Error>) {
        self.push(node);
        Ok(())
    }
}

} // verus!
