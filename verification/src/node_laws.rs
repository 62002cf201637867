//! What holds of nodes, of their iterators and of ranges of them.
use vstd::prelude::*;

use crate::blob::{Cursor, Devicetree, Item, ItemView, Node, NodeView, Property, Token};
use crate::laws::{
    all_children, first_named, iterates, law_range_gives_back_nodes, passing, pushed_range,
};
use crate::node::{
    hashed_parts, items_of, law_collect_end, lemma_next_child_advances, next_in_range, range_iter,
    range_nodes, Children, Items, ItemsView, NamedRange, NamedRangeIter, NamedRangeIterView,
    NamedRangeView, Properties,
};
use crate::search_laws::{
    ends_at, found_after, found_first, law_collected_items, lemma_ends_at, lemma_found_later,
    nth_child, nth_item,
};
use crate::text_laws::{at_signs, law_split_by_at_signs};
use crate::util::{
    be_number, law_join_name, law_split_name, lemma_word_number_of_native_number, split_name,
    word_number,
};
use crate::{DeserializeNode, Error, NodeContext, PushDeserializedNode};

verus! {

// ---------------------------------------------------------------------------
// Nodes, properties and positions
// ---------------------------------------------------------------------------

/// What a node says of itself is what its token said.
pub proof fn law_node<'dtb>(
    node: &Node<'dtb>,
    name: &'dtb str,
    start: Cursor,
    items: Items<'dtb>,
)
    requires
        call_ensures(Node::<'dtb>::name, (node,), name),
        call_ensures(Node::<'dtb>::start_cursor, (node,), start),
        call_ensures(Node::<'dtb>::items, (node,), items),
    ensures
        name@ == node.name@,
        start == node.start,
        items@.dt == node.dt@,
        items@.at_depth == node.contents.depth,
        items@.cursor == node.contents,
{
}

/// The split name of a node is what splitting its name gives.
pub proof fn law_node_split_name<'dtb>(
    node: &Node<'dtb>,
    r: Result<(&'dtb str, Option<&'dtb str>), Error>,
)
    requires
        call_ensures(Node::<'dtb>::split_name, (node,), r),
    ensures
        match r {
            Ok((node_name, None)) => node_name@ == node.name@ && !node.name@.contains('@'),
            Ok((node_name, Some(unit_address))) => {
                &&& node.name@ == node_name@ + seq!['@'] + unit_address@
                &&& !node_name@.contains('@')
                &&& !unit_address@.contains('@')
            },
            Err(err) => err == Error::InvalidNodeName && exists|i: int, j: int|
                0 <= i < j < node.name@.len() && #[trigger] node.name@[i] == '@'
                    && #[trigger] node.name@[j] == '@',
        },
{
    law_split_name(node.name@);
}

/// What a property says of itself is what its token said.
pub proof fn law_property_parts<'dtb>(
    prop: &Property<'dtb>,
    name: Result<&'dtb str, Error>,
    value: &'dtb [u8],
    words: &'dtb [u32],
)
    requires
        call_ensures(Property::<'dtb>::name, (prop,), name),
        call_ensures(Property::<'dtb>::value, (prop,), value),
        call_ensures(Property::<'dtb>::words, (prop,), words),
    ensures
        value@ == prop@.value,
        match prop@.name {
            Ok(chars) => name matches Ok(s) && s@ == chars,
            Err(err) => name == Err::<&'dtb str, Error>(Error::Blob(err)),
        },
        words@.len() == prop@.value.len() / 4,
        forall|i: int|
            0 <= i < words@.len() ==> word_number(#[trigger] words@[i] as nat, 4)
                == prop@.value[4 * i] * 0x100_0000 + prop@.value[4 * i + 1] * 0x1_0000
                + prop@.value[4 * i + 2] * 0x100 + prop@.value[4 * i + 3],
{
    assert forall|i: int| 0 <= i < words@.len() implies word_number(
        #[trigger] words@[i] as nat,
        4,
    ) == prop@.value[4 * i] * 0x100_0000 + prop@.value[4 * i + 1] * 0x1_0000 + prop@.value[4 * i
        + 2] * 0x100 + prop@.value[4 * i + 3] by {
        let bytes = prop@.value.subrange(4 * i, 4 * i + 4);
        lemma_word_number_of_native_number(bytes);
        reveal_with_fuel(be_number, 5);
    }
}

/// A token that opens a node is a child, one of a property is that property, and
/// one that closes a node is no item.
pub proof fn law_token_into_item<'dtb>(token: Token<'dtb>, r: Option<Item<'dtb>>)
    requires
        call_ensures(Token::<'dtb>::into_item, (token,), r),
    ensures
        match token {
            Token::BeginNode(node) => r matches Some(Item::Child(n)) && n@ == node@,
            Token::Property(prop) => r matches Some(Item::Property(p)) && p@ == prop@,
            Token::EndNode => r is None,
        },
{
}

/// Iterators start at the cursor that they are given, inside of the node that they
/// are given.
pub proof fn law_new_iterators<'dtb>(
    node: &Node<'dtb>,
    cursor: Cursor,
    dt: &'dtb Devicetree,
    items: Items<'dtb>,
    children: Children<'dtb>,
    props: Properties<'dtb>,
    of_items: Cursor,
    of_props: Cursor,
)
    requires
        call_ensures(Items::<'dtb>::new, (node, cursor), items),
        call_ensures(Children::<'dtb>::new, (node, cursor), children),
        call_ensures(Properties::<'dtb>::new, (dt, cursor), props),
        call_ensures(Items::<'dtb>::_cursor_, (items,), of_items),
        call_ensures(Properties::<'dtb>::cursor, (&props,), of_props),
    ensures
        items@.dt == node.dt@,
        items@.at_depth == node.contents.depth,
        items@.cursor == cursor,
        children@ == items@,
        props@.dt == dt@,
        props@.cursor == cursor,
        of_items == cursor,
        of_props == cursor,
{
}

/// Setting the cursor changes the position, and nothing else.
pub proof fn law_set_cursor<'dtb>()
    ensures
        forall|c: &mut Items<'dtb>, cursor: Cursor|
            #![trigger call_ensures(Items::<'dtb>::set_cursor, (c, cursor), ())]
            call_ensures(Items::<'dtb>::set_cursor, (c, cursor), ()) ==> {
                &&& final(c)@.cursor == cursor
                &&& final(c)@.dt == c@.dt
                &&& final(c)@.at_depth == c@.at_depth
            },
        forall|c: &mut Children<'dtb>, cursor: Cursor|
            #![trigger call_ensures(Children::<'dtb>::set_cursor, (c, cursor), ())]
            call_ensures(Children::<'dtb>::set_cursor, (c, cursor), ()) ==> {
                &&& final(c)@.cursor == cursor
                &&& final(c)@.dt == c@.dt
                &&& final(c)@.at_depth == c@.at_depth
            },
{
}

/// [`Children::walk_next`] hands the next child to the closure, returns what it
/// returns, and goes on at the cursor that it returns. Where the closure fails, it
/// goes on behind the token of that child.
pub proof fn law_walk_next_call<
    'dtb,
    T,
    F: FnOnce(Node<'dtb>) -> Result<(T, Cursor), Error>,
>(f: F)
    ensures
        forall|c: &mut Children<'dtb>, r: Result<Option<T>, Error>|
            #![trigger call_ensures(Children::<'dtb>::walk_next, (c, f), r)]
            call_ensures(Children::<'dtb>::walk_next, (c, f), r) ==> match nth_child(c@, 0) {
                (Err(err), rest) => r == Err::<Option<T>, Error>(err) && final(c)@ == rest,
                (Ok(None), rest) => r == Ok::<Option<T>, Error>(None) && final(c)@ == rest,
                (Ok(Some(child)), rest) => {
                    &&& final(c)@.dt == rest.dt
                    &&& final(c)@.at_depth == rest.at_depth
                    &&& exists|node: Node<'dtb>, result: Result<(T, Cursor), Error>|
                        {
                            &&& node@ == child
                            &&& #[trigger] call_ensures(f, (node,), result)
                            &&& match result {
                                Ok((value, cursor)) => r == Ok::<Option<T>, Error>(Some(value))
                                    && final(c)@.cursor == cursor,
                                Err(err) => r == Err::<Option<T>, Error>(err)
                                    && final(c)@.cursor == rest.cursor,
                            }
                        }
                },
            },
{
    assert forall|items: ItemsView| #[trigger] nth_child(items, 0) == items.next_child() by {}
}

// ---------------------------------------------------------------------------
// Values of nodes
// ---------------------------------------------------------------------------

/// A node is converted into itself, or into a cursor that points to its token, and
/// comes with its end. Where it has no end, there is an error for the same reason.
pub proof fn law_node_values<'dtb, C: ?Sized>(
    node: &Node<'dtb>,
    cx: NodeContext<'_, C>,
    as_node: Result<(Node<'dtb>, Cursor), Error>,
    as_cursor: Result<(Cursor, Cursor), Error>,
    end: Result<Cursor, Error>,
)
    requires
        call_ensures(<Node<'dtb> as DeserializeNode<'dtb, C>>::deserialize, (node, cx), as_node),
        call_ensures(<Cursor as DeserializeNode<'dtb, C>>::deserialize, (node, cx), as_cursor),
        call_ensures(Node::<'dtb>::end_cursor, (node,), end),
    ensures
        match end {
            Ok(end) => {
                &&& as_node matches Ok((n, c)) && n@ == node@ && c == end
                &&& as_cursor == Ok::<(Cursor, Cursor), Error>((node.start, end))
            },
            Err(err) => {
                &&& as_node == Err::<(Node<'dtb>, Cursor), Error>(err)
                &&& as_cursor == Err::<(Cursor, Cursor), Error>(err)
            },
        },
{
}

/// A list of items holds what [`Items`] gives one after the other, all of it, and
/// comes with the position where that ends. An error among the items is the error.
pub proof fn law_item_lists<'dtb, C: ?Sized>(
    node: &Node<'dtb>,
    cx: NodeContext<'_, C>,
    vec: Result<(Vec<Item<'dtb>>, Cursor), Error>,
    boxed: Result<(Box<[Item<'dtb>]>, Cursor), Error>,
)
    requires
        call_ensures(<Vec<Item<'dtb>> as DeserializeNode<'dtb, C>>::deserialize, (node, cx), vec),
        call_ensures(
            <Box<[Item<'dtb>]> as DeserializeNode<'dtb, C>>::deserialize,
            (node, cx),
            boxed,
        ),
    ensures
        match vec {
            Ok((v, end)) => lists_items(items_of(node@), v@, end),
            Err(err) => exists|n: nat|
                (#[trigger] nth_item(items_of(node@), n)).0 == Err::<Option<ItemView>, Error>(err),
        },
        match boxed {
            Ok((v, end)) => lists_items(items_of(node@), v@, end),
            Err(err) => exists|n: nat|
                (#[trigger] nth_item(items_of(node@), n)).0 == Err::<Option<ItemView>, Error>(err),
        },
{
    let items = items_of(node@);
    law_collected_items(items);
    law_collect_end(items);
    if let Ok((v, end)) = vec {
        lemma_lists_items(items, v@, end);
    }
    if let Ok((v, end)) = boxed {
        lemma_lists_items(items, v@, end);
    }
}

/// Whether a list holds all items, one after the other, up to the end.
pub open spec fn lists_items(items: ItemsView, list: Seq<Item<'_>>, end: Cursor) -> bool {
    &&& forall|i: nat|
        i < list.len() ==> (#[trigger] nth_item(items, i)).0 == Ok::<Option<ItemView>, Error>(
            Some(list[i as int]@),
        )
    &&& nth_item(items, list.len()).0 == Ok::<Option<ItemView>, Error>(None)
    &&& nth_item(items, list.len()).1.cursor == end
}

/// The items that were collected are all items.
proof fn lemma_lists_items<'dtb>(items: ItemsView, list: Seq<Item<'dtb>>, end: Cursor)
    requires
        items.collect() matches Ok((views, c)) && c == end && list.map_values(
            |item: Item<'dtb>| item@,
        ) == views,
    ensures
        lists_items(items, list, end),
{
    law_collected_items(items);
    let views = items.collect()->Ok_0.0;
    assert(views.len() == list.len());
    assert forall|i: nat| i < list.len() implies (#[trigger] nth_item(items, i)).0 == Ok::<
        Option<ItemView>,
        Error,
    >(Some(list[i as int]@)) by {
        assert(views[i as int] == list[i as int]@);
    }
}

/// An optional node is the node: there is always one where there is no error.
pub proof fn law_optional_node<'dtb, C: ?Sized, T: DeserializeNode<'dtb, C>>(
    node: &Node<'dtb>,
    cx: NodeContext<'_, C>,
    r: Result<(Option<T>, Cursor), Error>,
)
    requires
        call_ensures(<Option<T> as DeserializeNode<'dtb, C>>::deserialize, (node, cx), r),
    ensures
        match r {
            Ok((value, end)) => {
                &&& value is Some
                &&& T::deserialized(node@, cx, Ok(value->0))
                &&& ends_at(node@.dt, node@.contents, node@.contents.depth, Ok(end))
            },
            Err(err) => T::deserialized(node@, cx, Err(err)),
        },
{
    lemma_ends_at(items_of(node@));
}

/// Pushing to a list puts the value behind all others, and always succeeds.
pub proof fn law_push_to_vec<'dtb, C: ?Sized, A: DeserializeNode<'dtb, C>>(
    before: Vec<A>,
    node: A,
    r: Result<(), Error>,
    after: Vec<A>,
)
    ensures
        PushDeserializedNode::<'dtb, C>::can_push(&before, node),
        PushDeserializedNode::<'dtb, C>::pushed(&before, node, r, &after) ==> {
            &&& r is Ok
            &&& after@.len() == before@.len() + 1
            &&& after@[before@.len() as int] == node
            &&& forall|i: int| 0 <= i < before@.len() ==> #[trigger] after@[i] == before@[i]
        },
{
}

// ---------------------------------------------------------------------------
// Ranges
// ---------------------------------------------------------------------------

/// Whether a node has a node name: in front of its `@`, or as its whole name.
pub open spec fn is_named(node: NodeView, name: Seq<char>) -> bool {
    &&& !name.contains('@')
    &&& node.name == name || exists|unit_address: Seq<char>|
        !unit_address.contains('@') && node.name == #[trigger] (name + seq!['@'] + unit_address)
}

/// A node has the node name that its name splits into, and no other.
proof fn lemma_is_named(node: NodeView, name: Seq<char>)
    ensures
        match split_name(node.name) {
            Ok((node_name, _)) => is_named(node, name) <==> node_name == name,
            Err(_) => !is_named(node, name),
        },
{
    law_split_name(node.name);
    if is_named(node, name) {
        if node.name == name {
            law_join_name(name, Seq::empty());
        } else {
            let unit_address = choose|unit_address: Seq<char>|
                !unit_address.contains('@') && node.name == #[trigger] (name + seq!['@']
                    + unit_address);
            law_join_name(name, unit_address);
        }
    }
    if let Ok((node_name, unit_address)) = split_name(node.name) {
        if let Some(a) = unit_address {
            assert(node.name == node_name + seq!['@'] + a);
        }
    }
}

/// The verdict whether a node has a node name. A name with more than one `@` cannot
/// be judged.
pub open spec fn on_node_name(name: Seq<char>) -> spec_fn(NodeView) -> Result<bool, Error> {
    |node: NodeView|
        if at_signs(node.name) > 1 {
            Err(Error::InvalidNodeName)
        } else {
            Ok(is_named(node, name))
        }
}

/// A range of a single node has its node name, its start and the length 1. A node
/// whose name has more than one `@` has no range.
pub proof fn law_single_range<'dtb>(node: Node<'dtb>, r: Result<NamedRange<'dtb>, Error>)
    requires
        call_ensures(NamedRange::<'dtb>::new_single, (node,), r),
    ensures
        match r {
            Ok(range) => range@ matches Some(v) && {
                &&& is_named(node@, v.name)
                &&& v.first == node.start
                &&& v.len == 1
            },
            Err(err) => err == Error::InvalidNodeName && forall|name: Seq<char>|
                !#[trigger] is_named(node@, name),
        },
{
    law_split_name(node@.name);
    assert forall|name: Seq<char>| split_name(node@.name) is Err implies !#[trigger] is_named(
        node@,
        name,
    ) by {
        lemma_is_named(node@, name);
    }
    if let Ok((node_name, _)) = split_name(node@.name) {
        lemma_is_named(node@, node_name);
    }
}

/// Pushing to an empty range makes it the range of that node; pushing to another
/// range makes it longer by one, and changes nothing else.
pub proof fn law_push_to_range<'dtb, C: ?Sized>(
    before: NamedRange<'dtb>,
    node: Node<'dtb>,
    r: Result<(), Error>,
    after: NamedRange<'dtb>,
)
    requires
        PushDeserializedNode::<'dtb, C>::can_push(&before, node),
        PushDeserializedNode::<'dtb, C>::pushed(&before, node, r, &after),
    ensures
        match before@ {
            Some(x) => {
                &&& r is Ok
                &&& after@ matches Some(y) && {
                    &&& y.name == x.name
                    &&& y.first == x.first
                    &&& y.len == x.len + 1
                }
            },
            None => if at_signs(node@.name) <= 1 {
                &&& r is Ok
                &&& after@ matches Some(y) && {
                    &&& is_named(node@, y.name)
                    &&& y.first == node.start
                    &&& y.len == 1
                }
            } else {
                r == Err::<(), Error>(Error::InvalidNodeName) && after@ is None
            },
        },
{
    law_split_by_at_signs(node@.name);
    if let Ok((node_name, _)) = split_name(node@.name) {
        lemma_is_named(node@, node_name);
    }
}

/// Nodes may be pushed to an empty range, and to any other range whose nodes are at
/// the same depth, unless its length is at the limit.
pub proof fn law_can_push_to_range<'dtb, C: ?Sized>(before: NamedRange<'dtb>, node: Node<'dtb>)
    requires
        before@ matches Some(x) ==> x.len < u32::MAX && node.start.depth == x.first.depth,
    ensures
        PushDeserializedNode::<'dtb, C>::can_push(&before, node),
{
}

/// What a range says of itself.
pub proof fn law_range<'dtb>(
    range: NamedRange<'dtb>,
    empty: NamedRange<'dtb>,
    default: NamedRange<'dtb>,
    first: Option<Cursor>,
    len: usize,
    is_empty: bool,
)
    requires
        call_ensures(NamedRange::<'dtb>::empty, (), empty),
        call_ensures(<NamedRange<'dtb> as Default>::default, (), default),
        call_ensures(NamedRange::<'dtb>::first, (range,), first),
        call_ensures(NamedRange::<'dtb>::len, (range,), len),
        call_ensures(NamedRange::<'dtb>::is_empty, (range,), is_empty),
    ensures
        empty@ is None,
        default@ is None,
        match range@ {
            Some(v) => first == Some(v.first) && len == v.len && !is_empty,
            None => first is None && len == 0 && is_empty,
        },
{
}

/// An iterator over a range starts at its first node, among the nodes at the depth
/// of that node, and has all of its nodes left.
pub proof fn law_range_iter<'dtb>(
    range: NamedRange<'dtb>,
    dt: &'dtb Devicetree,
    r: NamedRangeIter<'dtb>,
)
    requires
        call_ensures(NamedRange::<'dtb>::iter, (range, dt), r),
    ensures
        match range@ {
            Some(v) => r@ matches Some(iter) && {
                &&& iter.name == v.name
                &&& iter.len == v.len
                &&& iter.children.dt == dt@
                &&& iter.children.at_depth == v.first.depth
                &&& iter.children.cursor == v.first
            },
            None => r@ is None,
        },
{
}

/// Two ranges of one devicetree are equal if both are empty, or if they start at
/// the same offset and have the same length.
pub proof fn law_equal_ranges<'dtb>(a: NamedRange<'dtb>, b: NamedRange<'dtb>, r: bool)
    requires
        call_ensures(<NamedRange<'dtb> as PartialEq>::eq, (&a, &b), r),
    ensures
        r <==> match (a@, b@) {
            (Some(x), Some(y)) => x.first.offset == y.first.offset && x.len == y.len,
            (None, None) => true,
            _ => false,
        },
{
}

/// Ranges are hashed alike if they are both empty, or if they have the same name, first
/// offset and length, and only then. The depth has no influence.
pub proof fn law_hashed_parts(a: Option<NamedRangeView>, b: Option<NamedRangeView>)
    ensures
        hashed_parts(a) == hashed_parts(b) <==> match (a, b) {
            (Some(x), Some(y)) => {
                &&& x.name == y.name
                &&& x.first.offset == y.first.offset
                &&& x.len == y.len
            },
            (None, None) => true,
            _ => false,
        },
        a matches Some(x) ==> hashed_parts(a) == Some((x.name, x.first.offset, x.len)),
{
}

/// Searching by node name finds the first child that has that name. A child whose
/// name cannot be split ends the search with an error.
pub proof fn law_find_named(items: ItemsView, name: Seq<char>)
    ensures
        found_first(
            items,
            on_node_name(name),
            items.find_named(name).0,
            items.find_named(name).1,
        ),
    decreases items.bytes_left(),
{
    let verdict = on_node_name(name);
    let (r, end) = items.find_named(name);
    lemma_next_child_advances(items);
    assert(nth_child(items, 0) == items.next_child());
    if let (Ok(Some(child)), rest) = items.next_child() {
        law_split_by_at_signs(child.name);
        lemma_is_named(child, name);
        if verdict(child) == Ok::<bool, Error>(false) {
            law_find_named(rest, name);
            lemma_found_later(items, verdict, r, end);
        } else {
            assert(found_after(items, verdict, r, end, 0));
        }
    } else {
        assert(found_after(items, verdict, r, end, 0));
    }
}

/// A range that is iterated over gives the next child with its name as long as
/// there are nodes left. There is one node less each time, and nothing at the end.
pub proof fn law_next_in_range(iter: NamedRangeIterView)
    requires
        iter.len >= 1,
    ensures
        exists|end: ItemsView|
            {
                &&& #[trigger] found_first(
                    iter.children,
                    on_node_name(iter.name),
                    next_in_range(Some(iter)).0,
                    end,
                )
                &&& iter.len == 1 ==> next_in_range(Some(iter)).1 is None
                &&& iter.len > 1 ==> next_in_range(Some(iter)).1 == Some(
                    NamedRangeIterView {
                        children: end,
                        name: iter.name,
                        len: (iter.len - 1) as u32,
                    },
                )
            },
        next_in_range(None) == (Ok::<Option<NodeView>, Error>(None), None::<NamedRangeIterView>),
{
    law_find_named(iter.children, iter.name);
    let end = iter.children.find_named(iter.name).1;
    assert(found_first(
        iter.children,
        on_node_name(iter.name),
        next_in_range(Some(iter)).0,
        end,
    ));
}

/// The list of the nodes of a range holds what iterating over it gives.
pub proof fn law_range_nodes(iter: Option<NamedRangeIterView>, nodes: Seq<NodeView>)
    requires
        iterates(iter, nodes),
        iter matches Some(inner) ==> inner.len >= 1,
    ensures
        range_nodes(iter) == Ok::<Seq<NodeView>, Error>(nodes),
    decreases nodes.len(),
{
    if nodes.len() > 0 {
        law_range_nodes(next_in_range(iter).1, nodes.skip(1));
        assert(nodes == seq![nodes[0]] + nodes.skip(1));
    } else {
        assert(nodes == Seq::<NodeView>::empty());
    }
}

/// How many nodes an iterator over a range says are left.
pub proof fn law_remaining_len<'dtb>(
    iter: &NamedRangeIter<'dtb>,
    empty: NamedRangeIter<'dtb>,
    default: NamedRangeIter<'dtb>,
    len: u32,
)
    requires
        call_ensures(NamedRangeIter::<'dtb>::remaining_len, (iter,), len),
        call_ensures(NamedRangeIter::<'dtb>::empty, (), empty),
        call_ensures(<NamedRangeIter<'dtb> as Default>::default, (), default),
    ensures
        empty@ is None,
        default@ is None,
        match iter@ {
            Some(inner) => len == inner.len,
            None => len == 0,
        },
{
}

/// The children of a list that have a node name.
proof fn lemma_first_named(items: ItemsView, name: Seq<char>, list: Seq<NodeView>)
    requires
        all_children(items) == Ok::<Seq<NodeView>, Error>(list),
        forall|i: int| 0 <= i < list.len() ==> at_signs((#[trigger] list[i]).name) <= 1,
    ensures
        first_named(items, name, passing(list, |node: NodeView| is_named(node, name))),
    decreases items.bytes_left(),
{
    let named = |node: NodeView| is_named(node, name);
    let nodes = passing(list, named);
    lemma_next_child_advances(items);
    if let (Ok(Some(child)), rest) = items.next_child() {
        let behind = all_children(rest)->Ok_0;
        assert(list == seq![child] + behind);
        assert(list.skip(1) == behind);
        assert(list[0] == child);
        assert forall|i: int| 0 <= i < behind.len() implies at_signs(
            (#[trigger] behind[i]).name,
        ) <= 1 by {
            assert(behind[i] == list[i + 1]);
        }
        law_split_by_at_signs(child.name);
        lemma_first_named(rest, name, behind);
        lemma_is_named(child, name);
        let later = passing(behind, named);
        if is_named(child, name) {
            assert(nodes.skip(1) == later);
            assert(items.find_named(name) == (Ok::<Option<NodeView>, Error>(Some(child)), rest));
        } else {
            assert(items.find_named(name) == rest.find_named(name));
            if later.len() > 0 {
                assert(first_named(rest, name, later));
            }
        }
    }
}

/// The range to which all children with a node name are pushed gives exactly these
/// children when it is iterated over, in order.
pub proof fn law_range_of_named_children(
    items: ItemsView,
    name: Seq<char>,
    list: Seq<NodeView>,
)
    requires
        all_children(items) == Ok::<Seq<NodeView>, Error>(list),
        forall|i: int| 0 <= i < list.len() ==> at_signs((#[trigger] list[i]).name) <= 1,
        list.len() <= u32::MAX,
    ensures
        ({
            let nodes = passing(list, |node: NodeView| is_named(node, name));
            &&& pushed_range(nodes) matches Ok(range)
            &&& iterates(range_iter(range, items.dt), nodes)
        }),
{
    let named = |node: NodeView| is_named(node, name);
    lemma_first_named(items, name, list);
    lemma_passing_len(list, named);
    law_range_gives_back_nodes(items, name, passing(list, named));
}

/// No more nodes pass than there are.
proof fn lemma_passing_len(list: Seq<NodeView>, passes: spec_fn(NodeView) -> bool)
    ensures
        passing(list, passes).len() <= list.len(),
    decreases list.len(),
{
    if list.len() > 0 {
        lemma_passing_len(list.skip(1), passes);
    }
}

} // verus!
