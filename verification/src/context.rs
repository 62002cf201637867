//! What is known about a node from its surroundings.
use fallible_iterator::FallibleIterator;
use vstd::prelude::*;

use crate::blob::{self, Cursor, Item, ItemView, Node, NodeView, Property, PropertyView};
use crate::node::{items_of, lemma_next_advances, ItemsView};
use crate::prop_value::{cells_value, AddressCells, SizeCells};
use crate::util::str_eq;
use crate::{Cells, DeserializeProperty, Error};

verus! {

/// Holds information for deserialization.
///
/// `C` is the type of the custom information, for which there is no use in this
/// crate.
#[derive(Debug)]
#[non_exhaustive]
pub struct NodeContext<'a, C: ?Sized = ()> {
    /// Custom information, handed down to all nodes.
    pub custom: Option<&'a C>,
    /// `#address-cells` property of the parent node.
    pub address_cells: Cells,
    /// `#size-cells` property of the parent node.
    pub size_cells: Cells,
}

impl<'a, C: ?Sized> Clone for NodeContext<'a, C> {
    fn clone(&self) -> (r: Self)
        ensures
            r == *self,
    {
        *self
    }
}

impl<'a, C: ?Sized> Copy for NodeContext<'a, C> {

}

impl<'a, C: ?Sized> Default for NodeContext<'a, C> {
    fn default() -> (r: Self)
        ensures
            r == NodeContext::<'a, C>::initial(None),
    {
        NodeContext {
            custom: None,
            address_cells: AddressCells::default().0,
            size_cells: SizeCells::default().0,
        }
    }
}

/// A call of one of the closures that deserialize a node.
pub enum Call<'a, C: ?Sized> {
    /// The closure for properties was called.
    Property {
        /// The name it was given.
        name: Seq<char>,
        /// The property it was given.
        prop: PropertyView,
        /// What it returned.
        result: Result<(), Error>,
    },
    /// The closure for child nodes was called.
    Child {
        /// The node it was given.
        node: NodeView,
        /// The context it was given.
        cx: NodeContext<'a, C>,
        /// The cursor it was given.
        before: Cursor,
        /// The cursor it left.
        after: Cursor,
        /// What it returned.
        result: Result<(), Error>,
    },
}

/// Whether the closure for properties can act as a call says.
pub open spec fn property_call<'dtb, F: FnMut(&'dtb str, Property<'dtb>) -> Result<(), Error>>(
    f_prop: F,
    name: Seq<char>,
    prop: PropertyView,
    result: Result<(), Error>,
) -> bool {
    exists|s: &'dtb str, p: Property<'dtb>|
        s@ == name && p@ == prop && #[trigger] call_ensures(f_prop, (s, p), result)
}

impl<'a, C: ?Sized> NodeContext<'a, C> {
    /// The context of the children of a node without properties: the default
    /// counts of cells.
    pub open spec fn initial(custom: Option<&'a C>) -> NodeContext<'a, C> {
        NodeContext { custom, address_cells: 2, size_cells: 1 }
    }

    /// The context of the children of a node, updated by a property of that
    /// node.
    pub open spec fn with_property(self, name: Seq<char>, prop: PropertyView) -> Result<
        NodeContext<'a, C>,
        Error,
    > {
        if name == "#address-cells"@ {
            match cells_value(prop.value) {
                Ok(address_cells) => Ok(NodeContext { address_cells, ..self }),
                Err(err) => Err(err),
            }
        } else if name == "#size-cells"@ {
            match cells_value(prop.value) {
                Ok(size_cells) => Ok(NodeContext { size_cells, ..self }),
                Err(err) => Err(err),
            }
        } else {
            Ok(self)
        }
    }

    /// Whether visiting the items of a node makes the given calls, in that
    /// order, and gives `r`. The context is the one that the children get.
    ///
    /// Repeated calls whose results are dropped are not excluded: a closure has no
    /// state here that would show them.
    pub open spec fn visits(
        self,
        items: ItemsView,
        calls: Seq<Call<'a, C>>,
        r: Result<Cursor, Error>,
    ) -> bool
        decreases calls.len(),
    {
        match items.next() {
            (Err(err), _) => calls.len() == 0 && r == Err::<Cursor, Error>(err),
            (Ok(None), rest) => calls.len() == 0 && r == Ok::<Cursor, Error>(rest.cursor),
            (Ok(Some(ItemView::Property(prop))), rest) => match prop.name {
                Err(err) => calls.len() == 0 && r == Err::<Cursor, Error>(Error::Blob(err)),
                Ok(name) => match self.with_property(name, prop) {
                    Err(err) => calls.len() == 0 && r == Err::<Cursor, Error>(err),
                    Ok(cx) => calls.len() > 0 && match calls[0] {
                        Call::Property { name: n, prop: p, result } => {
                            &&& n == name
                            &&& p == prop
                            &&& match result {
                                Err(err) => calls.len() == 1 && r == Err::<Cursor, Error>(err),
                                Ok(()) => cx.visits(rest, calls.skip(1), r),
                            }
                        },
                        Call::Child { .. } => false,
                    },
                },
            },
            (Ok(Some(ItemView::Child(node))), rest) => calls.len() > 0 && match calls[0] {
                Call::Property { .. } => false,
                Call::Child { node: n, cx, before, after, result } => {
                    &&& n == node
                    &&& cx == self
                    &&& before == rest.cursor
                    &&& match result {
                        Err(err) => calls.len() == 1 && r == Err::<Cursor, Error>(err),
                        Ok(()) => self.visits(rest.at(after), calls.skip(1), r),
                    }
                },
            },
        }
    }

    /// Where a call for the next item leads to, if the call is for that item and
    /// succeeds: the context that the children get from there on, and the items
    /// that follow.
    pub open spec fn after_call(self, items: ItemsView, call: Call<'a, C>) -> Option<
        (NodeContext<'a, C>, ItemsView),
    > {
        match (items.next(), call) {
            (
                (Ok(Some(ItemView::Property(prop))), rest),
                Call::Property { name, prop: p, result },
            ) => if p == prop && self.hands_out(name, prop) && result is Ok {
                match self.with_property(name, prop) {
                    Ok(cx) => Some((cx, rest)),
                    Err(_) => None,
                }
            } else {
                None
            },
            (
                (Ok(Some(ItemView::Child(node))), rest),
                Call::Child { node: n, cx, before, after, result },
            ) => if n == node && cx == self && before == rest.cursor && result is Ok {
                Some((self, rest.at(after)))
            } else {
                None
            },
            _ => None,
        }
    }

    /// Where calls for the first items lead to, if they are for these items, in
    /// order, and succeed.
    pub open spec fn after_calls(self, items: ItemsView, calls: Seq<Call<'a, C>>) -> Option<
        (NodeContext<'a, C>, ItemsView),
    >
        decreases calls.len(),
    {
        if calls.len() == 0 {
            Some((self, items))
        } else {
            match self.after_calls(items, calls.drop_last()) {
                Some((cx, rest)) => cx.after_call(rest, calls.last()),
                None => None,
            }
        }
    }

    /// Whether the property has this name, and is handed to the closure for
    /// properties.
    pub open spec fn hands_out(self, name: Seq<char>, prop: PropertyView) -> bool {
        &&& prop.name == Ok::<Seq<char>, blob::Error>(name)
        &&& self.with_property(name, prop) is Ok
    }

    /// Helps you deserialize a node by creating the `NodeContext` for the child
    /// nodes for you.
    ///
    /// `f_prop` is called with the name of each property and that property.
    ///
    /// `f_child` is called with each node, the new `NodeContext` and a mutable
    /// reference to a cursor. The cursor points to that child node, but the
    /// function has to replace it with a cursor which points to next token
    /// after that child. It may not move the cursor backwards.
    ///
    /// The closures only have to accept what they can be given: the next item
    /// behind calls that they can have answered, and the context that is known
    /// there. What is stated of the calls are those whose results count, in their
    /// order. That none of them is repeated is left unsaid.
    pub fn deserialize_node<'dtb>(
        self,
        blob_node: &Node<'dtb>,
        f_prop: impl FnMut(&'dtb str, Property<'dtb>) -> Result<(), Error>,
        f_child: impl FnMut(Node<'dtb>, Self, &mut Cursor) -> Result<(), Error>,
    ) -> (r: Result<Cursor, Error>)
        requires
            forall|calls: Seq<Call<'a, C>>|
                match #[trigger] Self::initial(self.custom).after_calls(
                    items_of(blob_node@),
                    calls,
                ) {
                    Some((cx, items)) => (forall|i: int|
                        #![trigger calls[i]]
                        0 <= i < calls.len() ==> match calls[i] {
                            Call::Property { name, prop, result } => property_call(
                                f_prop,
                                name,
                                prop,
                                result,
                            ),
                            Call::Child { node, cx, before, after, result } => exists|
                                n: Node<'dtb>,
                                c: &mut Cursor,
                            |
                                {
                                    &&& n@ == node
                                    &&& *c == before
                                    &&& *final(c) == after
                                    &&& #[trigger] call_ensures(f_child, (n, cx, c), result)
                                },
                        }) ==> match items.next() {
                        (Ok(Some(ItemView::Property(prop))), _) => forall|
                            s: &'dtb str,
                            p: Property<'dtb>,
                        |
                            p@ == prop && cx.hands_out(s@, prop) ==> #[trigger] call_requires(
                                f_prop,
                                (s, p),
                            ),
                        (Ok(Some(ItemView::Child(node))), rest) => {
                            &&& forall|n: Node<'dtb>, c: &mut Cursor|
                                n@ == node && *c == rest.cursor ==> #[trigger] call_requires(
                                    f_child,
                                    (n, cx, c),
                                )
                            &&& forall|n: Node<'dtb>, c: &mut Cursor, result: Result<(), Error>|
                                {
                                    &&& n@ == node
                                    &&& *c == rest.cursor
                                    &&& #[trigger] call_ensures(f_child, (n, cx, c), result)
                                    &&& result is Ok
                                } ==> c.offset <= final(c).offset
                        },
                        _ => true,
                    },
                    None => true,
                },
        ensures
            exists|calls: Seq<Call<'a, C>>|
                {
                    &&& #[trigger] Self::initial(self.custom).visits(
                        items_of(blob_node@),
                        calls,
                        r,
                    )
                    &&& forall|i: int|
                        #![trigger calls[i]]
                        0 <= i < calls.len() ==> match calls[i] {
                            Call::Property { name, prop, result } => property_call(
                                f_prop,
                                name,
                                prop,
                                result,
                            ),
                            Call::Child { node, cx, before, after, result } => exists|
                                n: Node<'dtb>,
                                c: &mut Cursor,
                            |
                                {
                                    &&& n@ == node
                                    &&& *c == before
                                    &&& *final(c) == after
                                    &&& #[trigger] call_ensures(f_child, (n, cx, c), result)
                                },
                        }
                },
    {
        let mut on_prop = f_prop;
        let mut on_child = f_child;
        let mut child_cx: Self = NodeContext { custom: self.custom, ..Self::default() };
        let mut items = blob_node.items();
        let ghost mut calls: Seq<Call<'a, C>> = Seq::empty();
        assert forall|tail: Seq<Call<'a, C>>, r: Result<Cursor, Error>| #[trigger]
            child_cx.visits(items@, tail, r) implies Self::initial(self.custom).visits(
            items_of(blob_node@),
            calls + tail,
            r,
        ) by {
            assert(calls + tail == tail);
        }
        #[verifier::loop_isolation(false)]
        loop
            invariant
                on_prop == f_prop,
                on_child == f_child,
                Self::initial(self.custom).after_calls(items_of(blob_node@), calls) == Some(
                    (child_cx, items@),
                ),
                forall|tail: Seq<Call<'a, C>>, r: Result<Cursor, Error>| #[trigger]
                    child_cx.visits(items@, tail, r) ==> Self::initial(self.custom).visits(
                        items_of(blob_node@),
                        calls + tail,
                        r,
                    ),
                forall|i: int|
                    #![trigger calls[i]]
                    0 <= i < calls.len() ==> match calls[i] {
                        Call::Property { name, prop, result } => property_call(
                            f_prop,
                            name,
                            prop,
                            result,
                        ),
                        Call::Child { node, cx, before, after, result } => exists|
                            n: Node<'dtb>,
                            c: &mut Cursor,
                        |
                            {
                                &&& n@ == node
                                &&& *c == before
                                &&& *final(c) == after
                                &&& #[trigger] call_ensures(f_child, (n, cx, c), result)
                            },
                    },
            decreases items@.bytes_left(),
        {
            let ghost start = items@;
            let ghost start_cx = child_cx;
            let ghost done = calls;
            proof {
                lemma_next_advances(start);
                assert(calls + Seq::empty() == calls);
            }
            match items.next() {
                Err(err) => {
                    assert(child_cx.visits(start, Seq::empty(), Err(err)));
                    return Err(err);
                },
                Ok(None) => {
                    let cursor = items._cursor_();
                    assert(child_cx.visits(start, Seq::empty(), Ok(cursor)));
                    return Ok(cursor);
                },
                Ok(Some(Item::Property(prop))) => {
                    let name = match prop.name() {
                        Ok(name) => name,
                        Err(err) => {
                            assert(child_cx.visits(start, Seq::empty(), Err(err)));
                            return Err(err);
                        },
                    };
                    if str_eq(name, "#address-cells") {
                        match AddressCells::deserialize(prop, self) {
                            Ok(cells) => {
                                child_cx.address_cells = cells.0;
                            },
                            Err(err) => {
                                assert(child_cx.visits(start, Seq::empty(), Err(err)));
                                return Err(err);
                            },
                        }
                    } else if str_eq(name, "#size-cells") {
                        match SizeCells::deserialize(prop, self) {
                            Ok(cells) => {
                                child_cx.size_cells = cells.0;
                            },
                            Err(err) => {
                                assert(child_cx.visits(start, Seq::empty(), Err(err)));
                                return Err(err);
                            },
                        }
                    }
                    assert(start_cx.with_property(name@, prop@) == Ok::<Self, Error>(child_cx));
                    let result = on_prop(name, prop);
                    proof {
                        assert(property_call(f_prop, name@, prop@, result));
                        calls = calls.push(
                            Call::Property { name: name@, prop: prop@, result },
                        );
                    }
                    if let Err(err) = result {
                        proof {
                            let last = seq![calls.last()];
                            assert(start_cx.visits(start, last, Err(err)));
                            assert(done + last == calls);
                        }
                        return Err(err);
                    }
                },
                Ok(Some(Item::Child(node))) => {
                    let mut cursor = items._cursor_();
                    let ghost before = cursor;
                    let result = on_child(node, child_cx, &mut cursor);
                    proof {
                        assert(exists|n: Node<'dtb>, c: &mut Cursor|
                            {
                                &&& n@ == node@
                                &&& *c == before
                                &&& *final(c) == cursor
                                &&& #[trigger] call_ensures(f_child, (n, child_cx, c), result)
                            });
                        let (cx, after) = (child_cx, cursor);
                        calls = calls.push(Call::Child { node: node@, cx, before, after, result });
                    }
                    if let Err(err) = result {
                        proof {
                            let last = seq![calls.last()];
                            assert(start_cx.visits(start, last, Err(err)));
                            assert(done + last == calls);
                        }
                        return Err(err);
                    }
                    assert(before.offset <= cursor.offset);
                    items.go_on_at(cursor);
                },
            }
            proof {
                let last = calls.last();
                assert(calls.drop_last() == done);
                assert forall|tail: Seq<Call<'a, C>>, r: Result<Cursor, Error>| #[trigger]
                    child_cx.visits(items@, tail, r) implies Self::initial(self.custom).visits(
                    items_of(blob_node@),
                    calls + tail,
                    r,
                ) by {
                    let longer = seq![last] + tail;
                    assert(longer.skip(1) == tail);
                    assert(start_cx.visits(start, longer, r));
                    assert(done + longer == calls + tail);
                }
            }
        }
    }
}

} // verus!
