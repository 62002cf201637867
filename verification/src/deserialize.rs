//! Conversion of properties and nodes into Rust values.
use vstd::prelude::*;
use vstd::slice::slice_subrange;

use crate::blob::{Cursor, Node, NodeView, Property, PropertyView};
use crate::node::items_of;
use crate::util::{
    are_words_of, ascii_chars, be_number, from_ascii, is_ascii_bytes, u32_from_be_bytes,
    u64_from_be_bytes,
};
use crate::{Error, NodeContext};

verus! {

// ---------------------------------------------------------------------------
// Properties
// ---------------------------------------------------------------------------

/// Types that can be parsed from a devicetree property.
pub trait DeserializeProperty<'dtb, C: ?Sized = ()>: Sized {
    /// Whether parsing the property can give `r`.
    spec fn deserialized(
        prop: PropertyView,
        cx: NodeContext<'_, C>,
        r: Result<Self, Error>,
    ) -> bool;

    /// Parses a devicetree property into this type.
    fn deserialize(blob_prop: Property<'dtb>, cx: NodeContext<'_, C>) -> (r: Result<Self, Error>)
        ensures
            Self::deserialized(blob_prop@, cx, r),
    ;
}

impl<'dtb, C: ?Sized> DeserializeProperty<'dtb, C> for Property<'dtb> {
    open spec fn deserialized(
        prop: PropertyView,
        cx: NodeContext<'_, C>,
        r: Result<Self, Error>,
    ) -> bool {
        r matches Ok(p) && p@ == prop
    }

    fn deserialize(blob_prop: Property<'dtb>, _cx: NodeContext<'_, C>) -> (r: Result<Self, Error>) {
        Ok(blob_prop)
    }
}

impl<'dtb, C: ?Sized> DeserializeProperty<'dtb, C> for () {
    open spec fn deserialized(
        prop: PropertyView,
        cx: NodeContext<'_, C>,
        r: Result<Self, Error>,
    ) -> bool {
        if prop.value.len() == 0 {
            r is Ok
        } else {
            r == Err::<Self, Error>(Error::UnsuitableProperty)
        }
    }

    fn deserialize(blob_prop: Property<'dtb>, _cx: NodeContext<'_, C>) -> (r: Result<Self, Error>) {
        if blob_prop.value().len() != 0 {
            return Err(Error::UnsuitableProperty);
        }
        Ok(())
    }
}

impl<'dtb, C: ?Sized> DeserializeProperty<'dtb, C> for bool {
    open spec fn deserialized(
        prop: PropertyView,
        cx: NodeContext<'_, C>,
        r: Result<Self, Error>,
    ) -> bool {
        if prop.value.len() == 0 {
            r == Ok::<Self, Error>(true)
        } else {
            r == Err::<Self, Error>(Error::UnsuitableProperty)
        }
    }

    fn deserialize(blob_prop: Property<'dtb>, _cx: NodeContext<'_, C>) -> (r: Result<Self, Error>) {
        if blob_prop.value().len() != 0 {
            return Err(Error::UnsuitableProperty);
        }
        Ok(true)
    }
}

impl<'dtb, C: ?Sized> DeserializeProperty<'dtb, C> for &'dtb [u8] {
    open spec fn deserialized(
        prop: PropertyView,
        cx: NodeContext<'_, C>,
        r: Result<Self, Error>,
    ) -> bool {
        r matches Ok(bytes) && bytes@ == prop.value
    }

    fn deserialize(blob_prop: Property<'dtb>, _cx: NodeContext<'_, C>) -> (r: Result<Self, Error>) {
        Ok(blob_prop.value())
    }
}

/// The words are in the byte order of the blob.
impl<'dtb, C: ?Sized> DeserializeProperty<'dtb, C> for &'dtb [u32] {
    open spec fn deserialized(
        prop: PropertyView,
        cx: NodeContext<'_, C>,
        r: Result<Self, Error>,
    ) -> bool {
        if prop.value.len() % 4 == 0 {
            r matches Ok(words) && are_words_of(words@, prop.value)
        } else {
            r == Err::<Self, Error>(Error::UnsuitableProperty)
        }
    }

    fn deserialize(blob_prop: Property<'dtb>, _cx: NodeContext<'_, C>) -> (r: Result<Self, Error>) {
        let value = blob_prop.value();
        if value.len() % 4 != 0 {
            return Err(Error::UnsuitableProperty);
        }
        Ok(blob_prop.words())
    }
}

impl<'dtb, C: ?Sized> DeserializeProperty<'dtb, C> for u32 {
    open spec fn deserialized(
        prop: PropertyView,
        cx: NodeContext<'_, C>,
        r: Result<Self, Error>,
    ) -> bool {
        if prop.value.len() == 4 {
            r matches Ok(number) && number == be_number(prop.value)
        } else {
            r == Err::<Self, Error>(Error::UnsuitableProperty)
        }
    }

    fn deserialize(blob_prop: Property<'dtb>, _cx: NodeContext<'_, C>) -> (r: Result<Self, Error>) {
        let value = blob_prop.value();
        if value.len() != 4 {
            return Err(Error::UnsuitableProperty);
        }
        Ok(u32_from_be_bytes(value))
    }
}

impl<'dtb, C: ?Sized> DeserializeProperty<'dtb, C> for u64 {
    open spec fn deserialized(
        prop: PropertyView,
        cx: NodeContext<'_, C>,
        r: Result<Self, Error>,
    ) -> bool {
        if prop.value.len() == 8 {
            r matches Ok(number) && number == be_number(prop.value)
        } else {
            r == Err::<Self, Error>(Error::UnsuitableProperty)
        }
    }

    fn deserialize(blob_prop: Property<'dtb>, _cx: NodeContext<'_, C>) -> (r: Result<Self, Error>) {
        let value = blob_prop.value();
        if value.len() != 8 {
            return Err(Error::UnsuitableProperty);
        }
        Ok(u64_from_be_bytes(value))
    }
}

/// The string that a property value stands for: ASCII, with a NUL byte at the
/// end.
pub open spec fn str_value(value: Seq<u8>) -> Result<Seq<char>, Error> {
    if value.len() > 0 && value.last() == 0 && is_ascii_bytes(value.drop_last()) {
        Ok(ascii_chars(value.drop_last()))
    } else {
        Err(Error::UnsuitableProperty)
    }
}

impl<'dtb, C: ?Sized> DeserializeProperty<'dtb, C> for &'dtb str {
    open spec fn deserialized(
        prop: PropertyView,
        cx: NodeContext<'_, C>,
        r: Result<Self, Error>,
    ) -> bool {
        match str_value(prop.value) {
            Ok(chars) => r matches Ok(s) && s@ == chars,
            Err(err) => r == Err::<Self, Error>(err),
        }
    }

    fn deserialize(blob_prop: Property<'dtb>, _cx: NodeContext<'_, C>) -> (r: Result<Self, Error>) {
        let value = blob_prop.value();
        let len = value.len();
        if len == 0 || value[len - 1] != 0 {
            return Err(Error::UnsuitableProperty);
        }
        let rest = slice_subrange(value, 0, len - 1);
        assert(rest@ == value@.drop_last());
        match from_ascii(rest) {
            Ok(s) => Ok(s),
            Err(_) => Err(Error::UnsuitableProperty),
        }
    }
}

impl<'dtb, C: ?Sized, T: DeserializeProperty<'dtb, C>> DeserializeProperty<'dtb, C> for Option<T> {
    open spec fn deserialized(
        prop: PropertyView,
        cx: NodeContext<'_, C>,
        r: Result<Self, Error>,
    ) -> bool {
        match r {
            Ok(Some(value)) => T::deserialized(prop, cx, Ok(value)),
            Ok(None) => false,
            Err(err) => T::deserialized(prop, cx, Err(err)),
        }
    }

    fn deserialize(blob_prop: Property<'dtb>, cx: NodeContext<'_, C>) -> (r: Result<Self, Error>) {
        match T::deserialize(blob_prop, cx) {
            Ok(value) => Ok(Some(value)),
            Err(err) => Err(err),
        }
    }
}

// ---------------------------------------------------------------------------
// Nodes
// ---------------------------------------------------------------------------

/// Types that can be parsed from a devicetree node.
pub trait DeserializeNode<'dtb, C: ?Sized = ()>: Sized {
    /// Whether parsing the node can give `r`.
    spec fn deserialized(node: NodeView, cx: NodeContext<'_, C>, r: Result<Self, Error>) -> bool;

    /// Parses a devicetree node into this type.
    ///
    /// The second return value is a cursor pointing to the next token after the
    /// node.
    fn deserialize(blob_node: &Node<'dtb>, cx: NodeContext<'_, C>) -> (r: Result<
        (Self, Cursor),
        Error,
    >)
        ensures
            match r {
                Ok((value, end)) => {
                    &&& Self::deserialized(blob_node@, cx, Ok(value))
                    &&& items_of(blob_node@).end() == Ok::<Cursor, Error>(end)
                },
                Err(err) => Self::deserialized(blob_node@, cx, Err(err)),
            },
    ;
}

impl<'dtb, C: ?Sized> DeserializeNode<'dtb, C> for Node<'dtb> {
    open spec fn deserialized(
        node: NodeView,
        cx: NodeContext<'_, C>,
        r: Result<Self, Error>,
    ) -> bool {
        match items_of(node).end() {
            Ok(_) => r matches Ok(n) && n@ == node,
            Err(err) => r == Err::<Self, Error>(err),
        }
    }

    fn deserialize(blob_node: &Node<'dtb>, _cx: NodeContext<'_, C>) -> (r: Result<
        (Self, Cursor),
        Error,
    >) {
        match blob_node.end_cursor() {
            Ok(end) => Ok((*blob_node, end)),
            Err(err) => Err(err),
        }
    }
}

impl<'dtb, C: ?Sized> DeserializeNode<'dtb, C> for Cursor {
    open spec fn deserialized(
        node: NodeView,
        cx: NodeContext<'_, C>,
        r: Result<Self, Error>,
    ) -> bool {
        match items_of(node).end() {
            Ok(_) => r == Ok::<Self, Error>(node.start),
            Err(err) => r == Err::<Self, Error>(err),
        }
    }

    fn deserialize(blob_node: &Node<'dtb>, _cx: NodeContext<'_, C>) -> (r: Result<
        (Self, Cursor),
        Error,
    >) {
        match blob_node.end_cursor() {
            Ok(end) => Ok((blob_node.start_cursor(), end)),
            Err(err) => Err(err),
        }
    }
}

impl<'dtb, C: ?Sized, T: DeserializeNode<'dtb, C>> DeserializeNode<'dtb, C> for Option<T> {
    open spec fn deserialized(
        node: NodeView,
        cx: NodeContext<'_, C>,
        r: Result<Self, Error>,
    ) -> bool {
        match r {
            Ok(Some(value)) => T::deserialized(node, cx, Ok(value)),
            Ok(None) => false,
            Err(err) => T::deserialized(node, cx, Err(err)),
        }
    }

    fn deserialize(blob_node: &Node<'dtb>, cx: NodeContext<'_, C>) -> (r: Result<
        (Self, Cursor),
        Error,
    >) {
        match T::deserialize(blob_node, cx) {
            Ok((value, end)) => Ok((Some(value), end)),
            Err(err) => Err(err),
        }
    }
}

/// Types that can collect several devicetree nodes.
pub trait PushDeserializedNode<'dtb, C: ?Sized = ()> {
    /// What a node is parsed into before it is appended.
    type Node: DeserializeNode<'dtb, C>;

    /// Whether the node may be appended to the collection.
    spec fn can_push(&self, node: Self::Node) -> bool;

    /// Whether appending the node to the collection can give `r` and leave
    /// `after`.
    spec fn pushed(&self, node: Self::Node, r: Result<(), Error>, after: &Self) -> bool;

    /// Appends a node to the back of the collection.
    ///
    /// This function has to be called with the nodes in the same order as they
    /// appear in the devicetree, without skipping any qualified ones.
    fn push_node(&mut self, node: Self::Node, cx: NodeContext<'_, C>) -> (r: Result<(), Error>)
        requires
            old(self).can_push(node),
        ensures
            old(self).pushed(node, r, &*final(self)),
    ;
}

} // verus!
