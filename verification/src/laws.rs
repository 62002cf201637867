//! What holds of the iterators and of deserialization as a whole.
use vstd::prelude::*;

use crate::blob::{
    lemma_skip_nops, lemma_token_advances, Cursor, DevicetreeView, ItemView, NodeView,
    PropertyView, TokenView, NOP,
};
use crate::context::Call;
use crate::node::{
    hashed_parts, items_of, law_collect_end, law_end_after_next, lemma_next_advances,
    lemma_next_child_advances, next_in_range, range_iter, range_push, same_range, ItemsView,
    NamedRangeIterView, NamedRangeView, PropertiesView,
};
use crate::util::split_name;
use crate::{Error, NodeContext};

verus! {

// ---------------------------------------------------------------------------
// Cursors
// ---------------------------------------------------------------------------

/// Skipping twice is skipping once.
proof fn lemma_skip_nops_twice(dt: DevicetreeView, offset: int)
    requires
        0 <= offset,
    ensures
        dt.skip_nops(dt.skip_nops(offset)) == dt.skip_nops(offset),
    decreases dt.structure.len() - offset,
{
    if dt.has_end(offset + 4) && dt.number_at(offset) == NOP {
        lemma_skip_nops_twice(dt, offset + 4);
    }
}

/// The start cursor of a node points to the token of that node: reading there
/// gives the same node again, and leads to the same position.
pub proof fn law_start_cursor(dt: DevicetreeView, cursor: Cursor)
    ensures
        dt.token_at(cursor) matches Ok(Some((TokenView::BeginNode(node), next)))
            ==> dt.token_at(node.start) == dt.token_at(cursor),
{
    lemma_skip_nops(dt, cursor.offset as int);
    lemma_skip_nops_twice(dt, cursor.offset as int);
    lemma_token_advances(dt, cursor);
}

// ---------------------------------------------------------------------------
// Items
// ---------------------------------------------------------------------------

/// [`Items`](crate::node::Items) is fused: behind its last item it stays where
/// it is, and there are no more items. An error comes again, too.
pub proof fn law_items_fused(items: ItemsView)
    ensures
        match items.next() {
            (Ok(Some(_)), _) => true,
            (r, rest) => rest.next() == (r, rest),
        },
    decreases items.dt.structure.len() - items.cursor.offset,
{
    if items.cursor.depth >= items.at_depth {
        lemma_token_advances(items.dt, items.cursor);
        if let Ok(Some((_, next))) = items.dt.token_at(items.cursor) {
            if items.cursor.depth != items.at_depth {
                law_items_fused(items.at(next));
            }
        }
    }
}

/// [`Children`](crate::node::Children) is fused: behind its last child it stays
/// where it is, and there are no more children. An error comes again, too.
pub proof fn law_children_fused(items: ItemsView)
    ensures
        match items.next_child() {
            (Ok(Some(_)), _) => true,
            (r, rest) => rest.next_child() == (r, rest),
        },
    decreases items.bytes_left(),
{
    law_items_fused(items);
    lemma_next_advances(items);
    if let (Ok(Some(ItemView::Property(_))), rest) = items.next() {
        law_children_fused(rest);
    }
}

/// The end of a node is not in front of the position from which it is looked
/// for. Seen from within a node that is not the whole devicetree, it is behind
/// that position, and one level up from the contents of the node.
pub proof fn law_end_cursor(items: ItemsView)
    ensures
        items.end() matches Ok(end) ==> {
            &&& items.cursor.offset <= end.offset
            &&& 0 < items.at_depth <= items.cursor.depth ==> {
                &&& end.depth + 1 == items.at_depth
                &&& items.cursor.offset < end.offset <= items.dt.structure.len()
            }
        },
    decreases items.dt.structure.len() - items.cursor.offset,
{
    lemma_token_advances(items.dt, items.cursor);
    if items.cursor.depth >= items.at_depth {
        if let Ok(Some((_, next))) = items.dt.token_at(items.cursor) {
            law_end_cursor(items.at(next));
            if next.depth < items.at_depth {
                assert(items.at(next).end() == Ok::<Cursor, Error>(next));
            }
        }
    }
}

/// Going on from the end of a child gives the same as going on from within that
/// child.
proof fn lemma_skip_child(items: ItemsView, inner: ItemsView)
    requires
        inner.dt == items.dt,
        inner.cursor == items.cursor,
        inner.at_depth == items.at_depth + 1,
        items.cursor.depth >= items.at_depth,
    ensures
        match inner.end() {
            Ok(end) => {
                &&& items.next() == items.at(end).next()
                &&& items.end() == items.at(end).end()
            },
            Err(err) => {
                &&& items.next().0 == Err::<Option<ItemView>, Error>(err)
                &&& items.end() == Err::<Cursor, Error>(err)
            },
        },
    decreases items.dt.structure.len() - items.cursor.offset,
{
    lemma_token_advances(items.dt, items.cursor);
    if inner.cursor.depth < inner.at_depth {
        assert(items.at(items.cursor) == items);
    } else if let Ok(Some((_, next))) = items.dt.token_at(items.cursor) {
        lemma_skip_child(items.at(next), inner.at(next));
    }
}

/// Once a child was found, the iterator may be set to the end of that child:
/// the items that follow, and the end of the node, are the same as without
/// that. Where the child has no end, the node has none for the same reason.
pub proof fn law_skip_child(items: ItemsView)
    ensures
        items.next() matches (Ok(Some(ItemView::Child(node))), rest) ==> match items_of(
            node,
        ).end() {
            Ok(end) => {
                &&& end.depth == items.at_depth
                &&& rest.at(end).next() == rest.next()
                &&& rest.at(end).end() == items.end()
            },
            Err(err) => {
                &&& rest.next().0 == Err::<Option<ItemView>, Error>(err)
                &&& items.end() == Err::<Cursor, Error>(err)
            },
        },
{
    lemma_next_advances(items);
    law_end_after_next(items);
    lemma_child_depth(items);
    if let (Ok(Some(ItemView::Child(node))), rest) = items.next() {
        lemma_skip_child(rest, items_of(node));
        law_end_cursor(items_of(node));
    }
}

/// A closure of [`Children::walk_next`](crate::node::Children::walk_next) that
/// returns the end of the child it is given may do so, and the walk then goes
/// on with the next child.
pub proof fn law_walk_next(items: ItemsView)
    ensures
        items.next_child() matches (Ok(Some(node)), rest) ==> match items_of(node).end() {
            Ok(end) => {
                &&& items.at_depth <= end.depth
                &&& rest.at(end).next_child() == rest.next_child()
            },
            Err(err) => rest.next_child().0 == Err::<Option<NodeView>, Error>(err),
        },
    decreases items.bytes_left(),
{
    lemma_next_advances(items);
    law_skip_child(items);
    if let (Ok(Some(ItemView::Property(_))), rest) = items.next() {
        law_walk_next(rest);
    }
}

/// A child starts at the depth of the contents of its parent.
proof fn lemma_child_depth(items: ItemsView)
    ensures
        items.next() matches (Ok(Some(ItemView::Child(node))), rest) ==> {
            &&& node.start.depth == items.at_depth
            &&& node.contents.depth == items.at_depth + 1
            &&& node.dt == items.dt
            &&& items.dt.token_at(node.start) == Ok::<
                Option<(TokenView, Cursor)>,
                crate::blob::Error,
            >(Some((TokenView::BeginNode(node), rest.cursor)))
        },
    decreases items.dt.structure.len() - items.cursor.offset,
{
    if items.cursor.depth >= items.at_depth {
        lemma_token_advances(items.dt, items.cursor);
        law_start_cursor(items.dt, items.cursor);
        if let Ok(Some((_, next))) = items.dt.token_at(items.cursor) {
            if items.cursor.depth != items.at_depth {
                lemma_child_depth(items.at(next));
            }
        }
    }
}

// ---------------------------------------------------------------------------
// Children and properties
// ---------------------------------------------------------------------------

/// The children that [`Children`](crate::node::Children) gives, one after the
/// other.
pub open spec fn all_children(items: ItemsView) -> Result<Seq<NodeView>, Error>
    decreases items.bytes_left(),
{
    match items.next_child() {
        (Err(err), _) => Err(err),
        (Ok(None), _) => Ok(Seq::empty()),
        (Ok(Some(node)), rest) => {
            proof {
                lemma_next_child_advances(items);
            }
            match all_children(rest) {
                Ok(nodes) => Ok(seq![node] + nodes),
                Err(err) => Err(err),
            }
        },
    }
}

/// The children in a list of items.
pub open spec fn children_among(list: Seq<ItemView>) -> Seq<NodeView>
    decreases list.len(),
{
    if list.len() == 0 {
        Seq::empty()
    } else {
        match list[0] {
            ItemView::Child(node) => seq![node] + children_among(list.skip(1)),
            ItemView::Property(_) => children_among(list.skip(1)),
        }
    }
}

/// [`Children`](crate::node::Children) gives what filtering the items gives.
pub proof fn law_children_are_filtered_items(items: ItemsView)
    ensures
        match items.collect() {
            Ok((list, _)) => all_children(items) == Ok::<Seq<NodeView>, Error>(
                children_among(list),
            ),
            Err(err) => all_children(items) == Err::<Seq<NodeView>, Error>(err),
        },
    decreases items.bytes_left(),
{
    lemma_next_advances(items);
    if let (Ok(Some(item)), rest) = items.next() {
        law_children_are_filtered_items(rest);
        if let Ok((list, _)) = rest.collect() {
            assert((seq![item] + list).skip(1) == list);
        }
    }
}

/// The properties that [`Properties`](crate::node::Properties) gives, one after
/// the other, up to the first token of another kind.
pub open spec fn all_properties(props: PropertiesView) -> Result<Seq<PropertyView>, Error>
    decreases props.dt.structure.len() - props.cursor.offset,
{
    match props.next() {
        (Err(err), _) => Err(err),
        (Ok(None), _) => Ok(Seq::empty()),
        (Ok(Some(prop)), rest) => {
            proof {
                lemma_token_advances(props.dt, props.cursor);
            }
            match all_properties(rest) {
                Ok(behind) => Ok(seq![prop] + behind),
                Err(err) => Err(err),
            }
        },
    }
}

/// The properties in a list of items.
pub open spec fn properties_among(list: Seq<ItemView>) -> Seq<PropertyView>
    decreases list.len(),
{
    if list.len() == 0 {
        Seq::empty()
    } else {
        match list[0] {
            ItemView::Property(prop) => seq![prop] + properties_among(list.skip(1)),
            ItemView::Child(_) => properties_among(list.skip(1)),
        }
    }
}

/// Whether all properties come before the child nodes, as in compliant
/// devicetrees.
pub open spec fn properties_first(list: Seq<ItemView>) -> bool {
    forall|i: int, j: int|
        0 <= i < j < list.len() && #[trigger] list[j] is Property ==> #[trigger] list[i] is Property
}

/// A list of children only has no properties.
proof fn lemma_no_properties(list: Seq<ItemView>)
    requires
        forall|i: int| 0 <= i < list.len() ==> #[trigger] list[i] is Child,
    ensures
        properties_among(list) == Seq::<PropertyView>::empty(),
    decreases list.len(),
{
    if list.len() > 0 {
        assert(list[0] is Child);
        let rest = list.skip(1);
        assert forall|i: int| 0 <= i < rest.len() implies #[trigger] rest[i] is Child by {
            assert(rest[i] == list[i + 1]);
        }
        lemma_no_properties(rest);
    }
}

/// Where the properties of a node come before its children,
/// [`Properties`](crate::node::Properties) gives what filtering the items gives.
pub proof fn law_properties_are_filtered_items(items: ItemsView)
    requires
        items.cursor.depth == items.at_depth,
        items.collect() matches Ok((list, _)) && properties_first(list),
    ensures
        items.collect() matches Ok((list, _)) && all_properties(
            PropertiesView { dt: items.dt, cursor: items.cursor },
        ) == Ok::<Seq<PropertyView>, Error>(properties_among(list)),
    decreases items.bytes_left(),
{
    lemma_next_advances(items);
    lemma_token_advances(items.dt, items.cursor);
    if let Ok((list, _)) = items.collect() {
        match items.next() {
            (Ok(Some(item)), rest) => {
                let behind = list.skip(1);
                if let Ok((tail, _)) = rest.collect() {
                    assert((seq![item] + tail).skip(1) == tail);
                    assert(list[0] == item);
                }
                match item {
                    ItemView::Property(prop) => {
                        assert(properties_first(behind)) by {
                            assert forall|i: int, j: int|
                                0 <= i < j < behind.len()
                                    && #[trigger] behind[j] is Property implies #[trigger] behind[i]
                                is Property by {
                                assert(behind[i] == list[i + 1] && behind[j] == list[j + 1]);
                            }
                        }
                        law_properties_are_filtered_items(rest);
                    },
                    ItemView::Child(_) => {
                        assert forall|i: int| 0 <= i < list.len() implies #[trigger] list[i]
                            is Child by {
                            if i > 0 && list[i] is Property {
                                assert(list[0] is Property);
                            }
                        }
                        lemma_no_properties(list);
                    },
                }
            },
            _ => {},
        }
    }
}

// ---------------------------------------------------------------------------
// Deserialization of nodes
// ---------------------------------------------------------------------------

/// The item that a call was made for.
pub open spec fn call_item<'a, C: ?Sized>(call: Call<'a, C>) -> ItemView {
    match call {
        Call::Property { prop, .. } => ItemView::Property(prop),
        Call::Child { node, .. } => ItemView::Child(node),
    }
}

/// Whether each call for a child, unless it fails, leaves a cursor that points
/// to the next token after that child.
pub open spec fn leaves_children<'a, C: ?Sized>(calls: Seq<Call<'a, C>>) -> bool {
    forall|i: int|
        0 <= i < calls.len() ==> match #[trigger] calls[i] {
            Call::Property { .. } => true,
            Call::Child { node, after, result, .. } => {
                result is Ok ==> items_of(node).end() == Ok::<Cursor, Error>(after)
            },
        }
}

/// The calls that [`NodeContext::deserialize_node`] is stated to make are one for
/// each item of the node, in order, and it returns the end of the node, provided
/// that its closure for children points the cursor behind each child. Repeated
/// calls are not excluded.
pub proof fn law_deserialize_node<'a, C: ?Sized>(
    cx: NodeContext<'a, C>,
    items: ItemsView,
    calls: Seq<Call<'a, C>>,
    end: Cursor,
)
    requires
        cx.visits(items, calls, Ok(end)),
        leaves_children(calls),
    ensures
        items.collect() == Ok::<(Seq<ItemView>, Cursor), Error>(
            (calls.map_values(|call: Call<'a, C>| call_item(call)), end),
        ),
        items.end() == Ok::<Cursor, Error>(end),
    decreases calls.len(),
{
    let handed_out = calls.map_values(|call: Call<'a, C>| call_item(call));
    lemma_next_advances(items);
    law_collect_end(items);
    if let (Ok(Some(item)), rest) = items.next() {
        let behind = calls.skip(1);
        assert(leaves_children(behind)) by {
            assert forall|i: int| 0 <= i < behind.len() implies match #[trigger] behind[i] {
                Call::Property { .. } => true,
                Call::Child { node, after, result, .. } => result is Ok ==> items_of(node).end()
                    == Ok::<Cursor, Error>(after),
            } by {
                assert(behind[i] == calls[i + 1]);
            }
        }
        assert(handed_out == seq![item] + behind.map_values(|call: Call<'a, C>| call_item(call)));
        match item {
            ItemView::Property(prop) => {
                if let Ok(name) = prop.name {
                    if let Ok(next_cx) = cx.with_property(name, prop) {
                        law_deserialize_node(next_cx, rest, behind, end);
                    }
                }
            },
            ItemView::Child(node) => {
                law_skip_child(items);
                if let Call::Child { after, .. } = calls[0] {
                    law_deserialize_node(cx, rest.at(after), behind, end);
                    assert(rest.at(after).collect() == rest.collect());
                }
            },
        }
    } else {
        assert(handed_out == Seq::<ItemView>::empty());
    }
}

/// Behind any calls that the closures of [`NodeContext::deserialize_node`] can
/// answer, the context passes on the custom information, its counts of cells are
/// within the limit, and the items are those of the same node.
pub proof fn law_context_after_calls<'a, C: ?Sized>(
    cx: NodeContext<'a, C>,
    items: ItemsView,
    calls: Seq<Call<'a, C>>,
)
    requires
        cx.address_cells <= 4,
        cx.size_cells <= 4,
    ensures
        cx.after_calls(items, calls) matches Some((known, rest)) ==> {
            &&& known.custom == cx.custom
            &&& known.address_cells <= 4
            &&& known.size_cells <= 4
            &&& rest.dt == items.dt
            &&& rest.at_depth == items.at_depth
        },
    decreases calls.len(),
{
    if calls.len() > 0 {
        law_context_after_calls(cx, items, calls.drop_last());
        if let Some((_, rest)) = cx.after_calls(items, calls.drop_last()) {
            lemma_next_advances(rest);
        }
    }
}

/// The context that children get passes on the custom information, and its
/// counts of cells are within the limit.
pub proof fn law_child_context<'a, C: ?Sized>(
    cx: NodeContext<'a, C>,
    items: ItemsView,
    calls: Seq<Call<'a, C>>,
    r: Result<Cursor, Error>,
)
    requires
        cx.visits(items, calls, r),
        cx.address_cells <= 4,
        cx.size_cells <= 4,
    ensures
        forall|i: int|
            0 <= i < calls.len() ==> match #[trigger] calls[i] {
                Call::Property { .. } => true,
                Call::Child { cx: child_cx, .. } => {
                    &&& child_cx.custom == cx.custom
                    &&& child_cx.address_cells <= 4
                    &&& child_cx.size_cells <= 4
                },
            },
    decreases calls.len(),
{
    if calls.len() > 0 {
        let behind = calls.skip(1);
        match calls[0] {
            Call::Property { name, prop, result } => {
                if result is Ok {
                    if let Ok(next_cx) = cx.with_property(name, prop) {
                        law_child_context(next_cx, items.next().1, behind, r);
                    }
                }
            },
            Call::Child { after, result, .. } => {
                if result is Ok {
                    law_child_context(cx, items.next().1.at(after), behind, r);
                }
            },
        }
        assert forall|i: int| 0 <= i < calls.len() implies match #[trigger] calls[i] {
            Call::Property { .. } => true,
            Call::Child { cx: child_cx, .. } => {
                &&& child_cx.custom == cx.custom
                &&& child_cx.address_cells <= 4
                &&& child_cx.size_cells <= 4
            },
        } by {
            if i > 0 {
                assert(calls[i] == behind[i - 1]);
            }
        }
    }
}

// ---------------------------------------------------------------------------
// Searches
// ---------------------------------------------------------------------------

/// What a search finds passes the test.
pub proof fn law_found_child_passes(
    items: ItemsView,
    test: spec_fn(NodeView, Result<bool, Error>) -> bool,
    node: NodeView,
    end: ItemsView,
)
    requires
        items.finds(test, Ok(Some(node)), end),
    ensures
        test(node, Ok(true)),
    decreases items.bytes_left(),
{
    lemma_next_child_advances(items);
    if let (Ok(Some(child)), rest) = items.next_child() {
        if !(test(child, Ok(true)) && child == node) {
            law_found_child_passes(rest, test, node, end);
        }
    }
}

/// A search tests no other children than those of the node.
pub proof fn law_tested_child_is_a_child(
    items: ItemsView,
    test: spec_fn(NodeView, Result<bool, Error>) -> bool,
    node: NodeView,
)
    requires
        items.tests(test, node),
    ensures
        all_children(items) matches Ok(list) ==> list.contains(node),
    decreases items.bytes_left(),
{
    lemma_next_child_advances(items);
    if let (Ok(Some(child)), rest) = items.next_child() {
        if let Ok(behind) = all_children(rest) {
            let list = seq![child] + behind;
            if child == node {
                assert(list[0] == node);
            } else {
                law_tested_child_is_a_child(rest, test, node);
                let i = choose|i: int| 0 <= i < behind.len() && behind[i] == node;
                assert(list[i + 1] == node);
            }
        }
    }
}

/// What a search for a property finds passes the test.
pub proof fn law_found_property_passes(
    props: PropertiesView,
    test: spec_fn(Seq<char>, bool) -> bool,
    prop: PropertyView,
    end: PropertiesView,
)
    requires
        props.finds(test, Ok(Some(prop)), end),
    ensures
        prop.name matches Ok(name) && test(name, true),
    decreases props.dt.structure.len() - props.cursor.offset,
{
    lemma_token_advances(props.dt, props.cursor);
    if let (Ok(Some(found)), rest) = props.next() {
        if let Ok(name) = found.name {
            if !(test(name, true) && found == prop) {
                law_found_property_passes(rest, test, prop, end);
            }
        }
    }
}

/// If there is one answer for each name, a search for a property has one
/// result, and leaves off at one position.
pub proof fn law_property_search_is_determined(
    props: PropertiesView,
    test: spec_fn(Seq<char>, bool) -> bool,
    r0: Result<Option<PropertyView>, Error>,
    end0: PropertiesView,
    r1: Result<Option<PropertyView>, Error>,
    end1: PropertiesView,
)
    requires
        forall|name: Seq<char>| !(#[trigger] test(name, true) && test(name, false)),
        props.finds(test, r0, end0),
        props.finds(test, r1, end1),
    ensures
        r0 == r1,
        end0 == end1,
    decreases props.dt.structure.len() - props.cursor.offset,
{
    lemma_token_advances(props.dt, props.cursor);
    if let (Ok(Some(prop)), rest) = props.next() {
        if let Ok(name) = prop.name {
            if !test(name, true) {
                law_property_search_is_determined(rest, test, r0, end0, r1, end1);
            }
        }
    }
}

/// If there is one answer for each child, a search has one result, and leaves
/// off at one position.
pub proof fn law_search_is_determined(
    items: ItemsView,
    test: spec_fn(NodeView, Result<bool, Error>) -> bool,
    r0: Result<Option<NodeView>, Error>,
    end0: ItemsView,
    r1: Result<Option<NodeView>, Error>,
    end1: ItemsView,
)
    requires
        forall|node: NodeView, a: Result<bool, Error>, b: Result<bool, Error>| #[trigger]
            test(node, a) && #[trigger] test(node, b) ==> a == b,
        items.finds(test, r0, end0),
        items.finds(test, r1, end1),
    ensures
        r0 == r1,
        end0 == end1,
    decreases items.bytes_left(),
{
    lemma_next_child_advances(items);
    if let (Ok(Some(node)), rest) = items.next_child() {
        if test(node, Ok(false)) {
            assert(!test(node, Ok(true)));
            assert(forall|err: Error| !#[trigger] test(node, Err(err)));
            law_search_is_determined(rest, test, r0, end0, r1, end1);
        }
    }
}

/// Whether searching again and again gives exactly these children, and then
/// nothing.
pub open spec fn yields(
    items: ItemsView,
    test: spec_fn(NodeView, Result<bool, Error>) -> bool,
    nodes: Seq<NodeView>,
) -> bool
    decreases nodes.len(),
{
    if nodes.len() == 0 {
        exists|end: ItemsView| #[trigger] items.finds(test, Ok(None), end)
    } else {
        exists|rest: ItemsView| #[trigger]
            items.finds(test, Ok(Some(nodes[0])), rest) && yields(rest, test, nodes.skip(1))
    }
}

/// The nodes of a list that pass a test.
pub open spec fn passing(list: Seq<NodeView>, passes: spec_fn(NodeView) -> bool) -> Seq<NodeView>
    decreases list.len(),
{
    if list.len() == 0 {
        Seq::empty()
    } else if passes(list[0]) {
        seq![list[0]] + passing(list.skip(1), passes)
    } else {
        passing(list.skip(1), passes)
    }
}

/// [`Children::filter_by_split_name`](crate::node::Children::filter_by_split_name),
/// and searching again and again, give exactly the children that pass the test,
/// in order.
pub proof fn law_filter(
    items: ItemsView,
    test: spec_fn(NodeView, Result<bool, Error>) -> bool,
    passes: spec_fn(NodeView) -> bool,
    nodes: Seq<NodeView>,
)
    requires
        forall|node: NodeView, r: Result<bool, Error>| #[trigger]
            test(node, r) ==> r is Ok ==> r == Ok::<bool, Error>(passes(node)),
        yields(items, test, nodes),
    ensures
        all_children(items) matches Ok(list) && nodes == passing(list, passes),
    decreases items.bytes_left(),
{
    lemma_next_child_advances(items);
    match items.next_child() {
        (Ok(Some(node)), rest) => {
            if passes(node) {
                assert(!test(node, Ok(false)));
                if nodes.len() == 0 {
                    let end = choose|end: ItemsView| #[trigger] items.finds(test, Ok(None), end);
                    assert(items.finds(test, Ok(None), end));
                } else {
                    let found = choose|found: ItemsView| #[trigger]
                        items.finds(test, Ok(Some(nodes[0])), found) && yields(
                            found,
                            test,
                            nodes.skip(1),
                        );
                    assert(items.finds(test, Ok(Some(nodes[0])), found));
                    assert(found == rest && nodes[0] == node);
                    law_filter(rest, test, passes, nodes.skip(1));
                    assert(nodes == seq![node] + nodes.skip(1));
                }
            } else {
                assert(!test(node, Ok(true)));
                if nodes.len() == 0 {
                    let end = choose|end: ItemsView| #[trigger] items.finds(test, Ok(None), end);
                    assert(rest.finds(test, Ok(None), end));
                } else {
                    let found = choose|found: ItemsView| #[trigger]
                        items.finds(test, Ok(Some(nodes[0])), found) && yields(
                            found,
                            test,
                            nodes.skip(1),
                        );
                    assert(rest.finds(test, Ok(Some(nodes[0])), found));
                }
                law_filter(rest, test, passes, nodes);
            }
            if let Ok(behind) = all_children(rest) {
                assert((seq![node] + behind).skip(1) == behind);
            }
        },
        _ => {
            if nodes.len() > 0 {
                let found = choose|found: ItemsView| #[trigger]
                    items.finds(test, Ok(Some(nodes[0])), found) && yields(
                        found,
                        test,
                        nodes.skip(1),
                    );
                assert(items.finds(test, Ok(Some(nodes[0])), found));
            } else {
                let end = choose|end: ItemsView| #[trigger] items.finds(test, Ok(None), end);
                assert(items.finds(test, Ok(None), end));
            }
        },
    }
}

/// The test that a child has a node name.
pub open spec fn has_node_name(name: Seq<char>) -> spec_fn(NodeView, Result<bool, Error>) -> bool {
    |node: NodeView, r: Result<bool, Error>|
        match split_name(node.name) {
            Ok((node_name, _)) => r == Ok::<bool, Error>(node_name == name),
            Err(err) => r == Err::<bool, Error>(err),
        }
}

/// A search whose test is that a child has a node name goes on as a
/// [`NamedRangeIter`](crate::node::NamedRangeIter) of that name does.
pub proof fn law_search_by_node_name(
    items: ItemsView,
    name: Seq<char>,
    r: Result<Option<NodeView>, Error>,
    end: ItemsView,
)
    ensures
        items.finds(has_node_name(name), r, end) <==> items.find_named(name) == (r, end),
    decreases items.bytes_left(),
{
    lemma_next_child_advances(items);
    let test = has_node_name(name);
    if let (Ok(Some(node)), rest) = items.next_child() {
        match split_name(node.name) {
            Ok((node_name, _)) => {
                assert(forall|err: Error| !#[trigger] test(node, Err(err)));
                if node_name != name {
                    law_search_by_node_name(rest, name, r, end);
                }
            },
            Err(err) => {
                assert(test(node, Err(err)));
            },
        }
    }
}

// ---------------------------------------------------------------------------
// Named ranges
// ---------------------------------------------------------------------------

/// Comparing ranges is an equivalence relation.
pub proof fn law_range_equality(
    a: Option<NamedRangeView>,
    b: Option<NamedRangeView>,
    c: Option<NamedRangeView>,
)
    ensures
        same_range(a, a),
        same_range(a, b) ==> same_range(b, a),
        same_range(a, b) && same_range(b, c) ==> same_range(a, c),
{
}

/// Nodes of one devicetree that start at the same offset have the same name, so
/// ranges of one devicetree that start at the same offset have it, too.
pub proof fn law_same_start_same_name(dt: DevicetreeView, a: Cursor, b: Cursor)
    ensures
        dt.token_at(a) matches Ok(Some((TokenView::BeginNode(n), _))) ==> dt.token_at(
            b,
        ) matches Ok(Some((TokenView::BeginNode(m), _))) ==> n.start.offset == m.start.offset ==> {
            &&& n.name == m.name
            &&& NamedRangeView::single(n) matches Ok(x) ==> NamedRangeView::single(m) matches Ok(y)
                && x.name == y.name
        },
{
    lemma_skip_nops(dt, a.offset as int);
    lemma_skip_nops(dt, b.offset as int);
}

/// Whether a range starts with the node whose token a cursor points to.
pub open spec fn starts_with(range: NamedRangeView, dt: DevicetreeView, cursor: Cursor) -> bool {
    &&& dt.token_at(cursor) matches Ok(Some((TokenView::BeginNode(node), _)))
    &&& NamedRangeView::single(node) matches Ok(single)
    &&& range.name == single.name
    &&& range.first == single.first
}

/// Ranges of one devicetree that compare equal are hashed equally.
pub proof fn law_equal_ranges_are_hashed_equally(
    dt: DevicetreeView,
    x: NamedRangeView,
    y: NamedRangeView,
    a: Cursor,
    b: Cursor,
)
    requires
        starts_with(x, dt, a),
        starts_with(y, dt, b),
        same_range(Some(x), Some(y)),
    ensures
        hashed_parts(Some(x)) == hashed_parts(Some(y)),
{
    law_same_start_same_name(dt, a, b);
}

/// The position behind the first `n` tokens of a devicetree, if there are as
/// many.
pub open spec fn position(dt: DevicetreeView, n: nat) -> Option<Cursor>
    decreases n,
{
    if n == 0 {
        Some(Cursor { depth: 0, offset: 0 })
    } else {
        match position(dt, (n - 1) as nat) {
            Some(cursor) => match dt.token_at(cursor) {
                Ok(Some((_, next))) => Some(next),
                _ => None,
            },
            None => None,
        }
    }
}

/// Behind more tokens, there is no position that is further in front.
proof fn lemma_position_advances(dt: DevicetreeView, n: nat, m: nat)
    requires
        n <= m,
        position(dt, m) is Some,
    ensures
        position(dt, n) matches Some(a) && position(dt, m) matches Some(b) && a.offset <= b.offset,
    decreases m,
{
    if n < m {
        let before = (m - 1) as nat;
        lemma_position_advances(dt, n, before);
        if let Some(cursor) = position(dt, before) {
            lemma_token_advances(dt, cursor);
        }
    }
}

/// Nodes that are reached from the start of one devicetree, token by token, and
/// start at the same offset are the same node. So they have the same name and
/// depth, and so have ranges that start with them.
pub proof fn law_same_start_same_node(
    dt: DevicetreeView,
    n: nat,
    m: nat,
    a: Cursor,
    b: Cursor,
    node_a: NodeView,
    node_b: NodeView,
    next_a: Cursor,
    next_b: Cursor,
)
    requires
        position(dt, n) == Some(a),
        position(dt, m) == Some(b),
        dt.token_at(a) == Ok::<Option<(TokenView, Cursor)>, crate::blob::Error>(
            Some((TokenView::BeginNode(node_a), next_a)),
        ),
        dt.token_at(b) == Ok::<Option<(TokenView, Cursor)>, crate::blob::Error>(
            Some((TokenView::BeginNode(node_b), next_b)),
        ),
        node_a.start.offset == node_b.start.offset,
    ensures
        node_a == node_b,
{
    lemma_token_advances(dt, a);
    lemma_token_advances(dt, b);
    if n < m {
        assert(position(dt, n + 1) == Some(next_a));
        lemma_position_advances(dt, n + 1, m);
    } else if m < n {
        assert(position(dt, m + 1) == Some(next_b));
        lemma_position_advances(dt, m + 1, n);
    }
}

/// Whether these are the first children with a node name from a position on.
pub open spec fn first_named(items: ItemsView, name: Seq<char>, nodes: Seq<NodeView>) -> bool
    decreases nodes.len(),
{
    nodes.len() > 0 ==> {
        &&& items.find_named(name).0 == Ok::<Option<NodeView>, Error>(Some(nodes[0]))
        &&& first_named(items.find_named(name).1, name, nodes.skip(1))
    }
}

/// The range that comes out of pushing nodes one after the other to an empty
/// range.
pub open spec fn pushed_range(nodes: Seq<NodeView>) -> Result<Option<NamedRangeView>, Error>
    decreases nodes.len(),
{
    if nodes.len() == 0 {
        Ok(None)
    } else {
        match pushed_range(nodes.drop_last()) {
            Ok(range) => range_push(range, nodes.last()),
            Err(err) => Err(err),
        }
    }
}

/// Whether iterating gives exactly these nodes, and then nothing.
pub open spec fn iterates(iter: Option<NamedRangeIterView>, nodes: Seq<NodeView>) -> bool
    decreases nodes.len(),
{
    if nodes.len() == 0 {
        next_in_range(iter) == (Ok::<Option<NodeView>, Error>(None), None::<NamedRangeIterView>)
    } else {
        &&& next_in_range(iter).0 == Ok::<Option<NodeView>, Error>(Some(nodes[0]))
        &&& iterates(next_in_range(iter).1, nodes.skip(1))
    }
}

/// A child that is found by its node name has that name, starts at the depth of
/// the search, and is found again from its start.
proof fn lemma_find_named(items: ItemsView, name: Seq<char>)
    ensures
        items.find_named(name) matches (Ok(Some(node)), rest) ==> {
            &&& split_name(node.name) matches Ok((node_name, _)) && node_name == name
            &&& node.start.depth == items.at_depth
            &&& items.at(node.start).find_named(name) == items.find_named(name)
            &&& rest.dt == items.dt
            &&& rest.at_depth == items.at_depth
        },
    decreases items.bytes_left(),
{
    lemma_next_child_advances(items);
    lemma_next_child_again(items);
    if let (Ok(Some(node)), rest) = items.next_child() {
        if let Ok((node_name, _)) = split_name(node.name) {
            if node_name != name {
                lemma_find_named(rest, name);
            }
        }
    }
}

/// A child is found again from its start.
proof fn lemma_next_child_again(items: ItemsView)
    ensures
        items.next_child() matches (Ok(Some(node)), rest) ==> {
            &&& node.start.depth == items.at_depth
            &&& items.at(node.start).next_child() == items.next_child()
        },
    decreases items.bytes_left(),
{
    lemma_next_advances(items);
    lemma_child_depth(items);
    match items.next() {
        (Ok(Some(ItemView::Child(node))), rest) => {
            assert(items.at(node.start).next() == items.next());
        },
        (Ok(Some(ItemView::Property(_))), rest) => {
            lemma_next_child_again(rest);
        },
        _ => {},
    }
}

/// The first children with a node name start at the depth of the search.
proof fn lemma_first_named_depth(items: ItemsView, name: Seq<char>, nodes: Seq<NodeView>)
    requires
        first_named(items, name, nodes),
    ensures
        forall|i: int| 0 <= i < nodes.len() ==> (#[trigger] nodes[i]).start.depth == items.at_depth,
    decreases nodes.len(),
{
    if nodes.len() > 0 {
        lemma_find_named(items, name);
        let behind = nodes.skip(1);
        lemma_first_named_depth(items.find_named(name).1, name, behind);
        assert forall|i: int| 0 <= i < nodes.len() implies (#[trigger] nodes[i]).start.depth
            == items.at_depth by {
            if i > 0 {
                assert(nodes[i] == behind[i - 1]);
            }
        }
    }
}

/// The first children with a node name may all be pushed to one range. It spans
/// as many nodes as were pushed, from the first one on.
pub proof fn law_pushed_range(items: ItemsView, name: Seq<char>, nodes: Seq<NodeView>)
    requires
        0 < nodes.len() <= u32::MAX,
        first_named(items, name, nodes),
    ensures
        forall|i: int|
            0 <= i < nodes.len() ==> (#[trigger] nodes[i]).start.depth == nodes[0].start.depth,
        pushed_range(nodes) == Ok::<Option<NamedRangeView>, Error>(
            Some(NamedRangeView { name, first: nodes[0].start, len: nodes.len() as u32 }),
        ),
    decreases nodes.len(),
{
    lemma_first_named_depth(items, name, nodes);
    let before = nodes.drop_last();
    if nodes.len() == 1 {
        lemma_find_named(items, name);
        assert(pushed_range(before) == Ok::<Option<NamedRangeView>, Error>(None));
    } else {
        lemma_first_named_prefix(items, name, nodes);
        law_pushed_range(items, name, before);
    }
}

/// Without the last one, they are still the first children with that name.
proof fn lemma_first_named_prefix(items: ItemsView, name: Seq<char>, nodes: Seq<NodeView>)
    requires
        nodes.len() > 0,
        first_named(items, name, nodes),
    ensures
        first_named(items, name, nodes.drop_last()),
    decreases nodes.len(),
{
    if nodes.len() > 1 {
        lemma_first_named_prefix(items.find_named(name).1, name, nodes.skip(1));
        assert(nodes.skip(1).drop_last() == nodes.drop_last().skip(1));
    }
}

/// Iterating over as many nodes as are left gives the next nodes with that name.
proof fn lemma_iterates(
    items: ItemsView,
    name: Seq<char>,
    nodes: Seq<NodeView>,
    iter: Option<NamedRangeIterView>,
)
    requires
        nodes.len() <= u32::MAX,
        first_named(items, name, nodes),
        nodes.len() == 0 ==> iter is None,
        nodes.len() > 0 ==> iter == Some(
            NamedRangeIterView { children: items, name, len: nodes.len() as u32 },
        ),
    ensures
        iterates(iter, nodes),
    decreases nodes.len(),
{
    if nodes.len() > 0 {
        let (r, rest) = next_in_range(iter);
        lemma_iterates(items.find_named(name).1, name, nodes.skip(1), rest);
    }
}

/// Iterating over a range gives back the nodes that were pushed to it, in order
/// and none else, provided that these were the first children with that node
/// name, without skipping any.
pub proof fn law_range_gives_back_nodes(items: ItemsView, name: Seq<char>, nodes: Seq<NodeView>)
    requires
        nodes.len() <= u32::MAX,
        first_named(items, name, nodes),
    ensures
        pushed_range(nodes) matches Ok(range) && iterates(range_iter(range, items.dt), nodes),
{
    if nodes.len() > 0 {
        law_pushed_range(items, name, nodes);
        lemma_find_named(items, name);
        let start = items.at(nodes[0].start);
        lemma_iterates(
            start,
            name,
            nodes,
            Some(NamedRangeIterView { children: start, name, len: nodes.len() as u32 }),
        );
    }
}

} // verus!
