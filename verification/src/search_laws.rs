//! What iterators and searches give, in terms of the tokens, items and children
//! that they come by one after the other.
use vstd::prelude::*;

use crate::blob::{
    lemma_token_advances, Cursor, DevicetreeView, ItemView, Node, NodeView, Property, PropertyView,
    TokenView,
};
use crate::laws::{all_children, all_properties};
use crate::node::{
    by_name, by_split_name, items_of, lemma_next_advances, lemma_next_child_advances, name_answers,
    Children, Items, ItemsView, Properties, PropertiesView,
};
use crate::util::{law_split_name, split_name};
use crate::Error;

verus! {

// ---------------------------------------------------------------------------
// Items
// ---------------------------------------------------------------------------

/// The position behind the next `n` tokens, if there are as many.
pub open spec fn tokens_on(dt: DevicetreeView, cursor: Cursor, n: nat) -> Option<Cursor>
    decreases n,
{
    if n == 0 {
        Some(cursor)
    } else {
        match dt.token_at(cursor) {
            Ok(Some((_, next))) => tokens_on(dt, next, (n - 1) as nat),
            _ => None,
        }
    }
}

/// Whether all of the next `n` tokens start at a depth above a limit.
pub open spec fn stays_above(dt: DevicetreeView, cursor: Cursor, n: nat, limit: int) -> bool {
    forall|m: nat|
        m < n ==> (#[trigger] tokens_on(dt, cursor, m)) is Some && tokens_on(dt, cursor, m)->0.depth
            > limit
}

/// One token more in front.
proof fn lemma_one_more(dt: DevicetreeView, cursor: Cursor, next: Cursor, n: nat, limit: int)
    requires
        dt.token_at(cursor) matches Ok(Some((_, behind))) && behind == next,
        cursor.depth > limit,
        stays_above(dt, next, n, limit),
    ensures
        stays_above(dt, cursor, n + 1, limit),
        tokens_on(dt, cursor, n + 1) == tokens_on(dt, next, n),
{
    assert forall|m: nat| m < n + 1 implies (#[trigger] tokens_on(dt, cursor, m)) is Some
        && tokens_on(dt, cursor, m)->0.depth > limit by {
        if m > 0 {
            assert(tokens_on(dt, cursor, m) == tokens_on(dt, next, (m - 1) as nat));
        }
    }
}

/// What [`Items`] gives is determined by the first token that is not nested deeper
/// than the contents of the node: a property or a child is given, and there is
/// nothing where the node or the devicetree ends.
pub open spec fn item_after(items: ItemsView, n: nat) -> bool {
    &&& stays_above(items.dt, items.cursor, n, items.at_depth as int)
    &&& tokens_on(items.dt, items.cursor, n) matches Some(c) && {
        let (r, rest) = items.next();
        &&& rest.dt == items.dt
        &&& rest.at_depth == items.at_depth
        &&& if c.depth < items.at_depth {
            r == Ok::<Option<ItemView>, Error>(None) && rest.cursor == c
        } else {
            match items.dt.token_at(c) {
                Err(err) => r == Err::<Option<ItemView>, Error>(Error::Blob(err)) && rest.cursor
                    == c,
                Ok(None) => r == Ok::<Option<ItemView>, Error>(None) && rest.cursor == c,
                Ok(Some((token, next))) => {
                    &&& c.depth == items.at_depth
                    &&& rest.cursor == next
                    &&& r == Ok::<Option<ItemView>, Error>(
                        match token {
                            TokenView::BeginNode(node) => Some(ItemView::Child(node)),
                            TokenView::Property(prop) => Some(ItemView::Property(prop)),
                            TokenView::EndNode => None,
                        },
                    )
                },
            }
        }
    }
}

/// [`Items`] skips the tokens that are nested deeper, and nothing else.
pub proof fn law_next_item(items: ItemsView)
    ensures
        exists|n: nat| #[trigger] item_after(items, n),
    decreases items.dt.structure.len() - items.cursor.offset,
{
    lemma_token_advances(items.dt, items.cursor);
    if items.cursor.depth > items.at_depth {
        if let Ok(Some((_, next))) = items.dt.token_at(items.cursor) {
            law_next_item(items.at(next));
            let n = choose|n: nat| #[trigger] item_after(items.at(next), n);
            lemma_one_more(items.dt, items.cursor, next, n, items.at_depth as int);
            assert(item_after(items, n + 1));
        } else {
            assert(item_after(items, 0));
        }
    } else {
        assert(item_after(items, 0));
    }
}

/// Whether the end of a node is the first position, after `n` tokens, that is not
/// inside of it.
pub open spec fn ends_after(items: ItemsView, n: nat) -> bool {
    &&& stays_above(items.dt, items.cursor, n, items.at_depth - 1)
    &&& tokens_on(items.dt, items.cursor, n) matches Some(c) && if c.depth < items.at_depth {
        items.end() == Ok::<Cursor, Error>(c)
    } else {
        match items.dt.token_at(c) {
            Err(err) => items.end() == Err::<Cursor, Error>(Error::Blob(err)),
            Ok(None) => items.end() == Ok::<Cursor, Error>(c),
            Ok(Some(_)) => false,
        }
    }
}

/// The end of a node is where the depth first falls below that of its contents.
proof fn lemma_end(items: ItemsView)
    ensures
        exists|n: nat| #[trigger] ends_after(items, n),
    decreases items.dt.structure.len() - items.cursor.offset,
{
    lemma_token_advances(items.dt, items.cursor);
    if items.cursor.depth >= items.at_depth {
        if let Ok(Some((_, next))) = items.dt.token_at(items.cursor) {
            lemma_end(items.at(next));
            let n = choose|n: nat| #[trigger] ends_after(items.at(next), n);
            lemma_one_more(items.dt, items.cursor, next, n, items.at_depth - 1);
            assert(ends_after(items, n + 1));
        } else {
            assert(ends_after(items, 0));
        }
    } else {
        assert(ends_after(items, 0));
    }
}

/// The end cursor of a node, asked of the node or of an iterator inside of it, is
/// the first position where the depth falls below that of its contents.
pub proof fn law_end_cursors<'dtb>(
    node: &Node<'dtb>,
    items: Items<'dtb>,
    children: Children<'dtb>,
    of_node: Result<Cursor, Error>,
    of_items: Result<Cursor, Error>,
    of_children: Result<Cursor, Error>,
)
    requires
        call_ensures(Node::<'dtb>::end_cursor, (node,), of_node),
        call_ensures(Items::<'dtb>::end_cursor, (items,), of_items),
        call_ensures(Children::<'dtb>::end_cursor, (children,), of_children),
    ensures
        ends_at(node@.dt, node@.contents, node@.contents.depth, of_node),
        ends_at(items@.dt, items@.cursor, items@.at_depth, of_items),
        ends_at(children@.dt, children@.cursor, children@.at_depth, of_children),
{
    lemma_ends_at(items_of(node@));
    lemma_ends_at(items@);
    lemma_ends_at(children@);
}

/// Whether `r` is the first position at which the depth is below that of the
/// contents of a node, or the error on the way there. The end of the devicetree
/// ends all nodes.
pub open spec fn ends_at(
    dt: DevicetreeView,
    cursor: Cursor,
    at_depth: u32,
    r: Result<Cursor, Error>,
) -> bool {
    exists|n: nat|
        {
            &&& #[trigger] stays_above(dt, cursor, n, at_depth - 1)
            &&& tokens_on(dt, cursor, n) matches Some(c) && if c.depth < at_depth {
                r == Ok::<Cursor, Error>(c)
            } else {
                match dt.token_at(c) {
                    Err(err) => r == Err::<Cursor, Error>(Error::Blob(err)),
                    Ok(None) => r == Ok::<Cursor, Error>(c),
                    Ok(Some(_)) => false,
                }
            }
        }
}

/// The same for a position among items.
pub proof fn lemma_ends_at(items: ItemsView)
    ensures
        ends_at(items.dt, items.cursor, items.at_depth, items.end()),
{
    lemma_end(items);
    let n = choose|n: nat| #[trigger] ends_after(items, n);
    assert(stays_above(items.dt, items.cursor, n, items.at_depth - 1));
}

/// What asking for the next item gives after it was asked `n` times.
pub open spec fn nth_item(items: ItemsView, n: nat) -> (Result<Option<ItemView>, Error>, ItemsView)
    decreases n,
{
    if n == 0 {
        items.next()
    } else {
        nth_item(items.next().1, (n - 1) as nat)
    }
}

/// A list of items holds what asking for the next item gives, one after the other,
/// up to the end.
pub proof fn law_collected_items(items: ItemsView)
    ensures
        match items.collect() {
            Ok((list, end)) => {
                &&& forall|i: nat|
                    i < list.len() ==> (#[trigger] nth_item(items, i)).0 == Ok::<
                        Option<ItemView>,
                        Error,
                    >(Some(list[i as int]))
                &&& nth_item(items, list.len()).0 == Ok::<Option<ItemView>, Error>(None)
                &&& nth_item(items, list.len()).1.cursor == end
            },
            Err(err) => exists|n: nat|
                (#[trigger] nth_item(items, n)).0 == Err::<Option<ItemView>, Error>(err),
        },
    decreases items.bytes_left(),
{
    lemma_next_advances(items);
    match items.next() {
        (Ok(Some(item)), rest) => {
            law_collected_items(rest);
            match rest.collect() {
                Ok((behind, _)) => {
                    let list = seq![item] + behind;
                    assert forall|i: nat| i < list.len() implies (#[trigger] nth_item(items, i)).0
                        == Ok::<Option<ItemView>, Error>(Some(list[i as int])) by {
                        if i > 0 {
                            assert(nth_item(items, i) == nth_item(rest, (i - 1) as nat));
                        }
                    }
                    assert(nth_item(items, list.len()) == nth_item(rest, behind.len()));
                },
                Err(err) => {
                    let n = choose|n: nat|
                        (#[trigger] nth_item(rest, n)).0 == Err::<Option<ItemView>, Error>(err);
                    assert(nth_item(items, n + 1) == nth_item(rest, n));
                },
            }
        },
        (Ok(None), _) => {
            assert(nth_item(items, 0) == items.next());
        },
        (Err(_), _) => {
            assert(nth_item(items, 0) == items.next());
        },
    }
}

// ---------------------------------------------------------------------------
// Children
// ---------------------------------------------------------------------------

/// Whether the next child is the first child among the items: the `n` items in
/// front of it are properties.
pub open spec fn child_after(items: ItemsView, n: nat) -> bool {
    &&& forall|m: nat|
        m < n ==> ((#[trigger] nth_item(items, m)).0 matches Ok(Some(ItemView::Property(_))))
    &&& items.next_child().1 == nth_item(items, n).1
    &&& match nth_item(items, n).0 {
        Ok(Some(ItemView::Child(node))) => items.next_child().0 == Ok::<Option<NodeView>, Error>(
            Some(node),
        ),
        Ok(Some(ItemView::Property(_))) => false,
        Ok(None) => items.next_child().0 == Ok::<Option<NodeView>, Error>(None),
        Err(err) => items.next_child().0 == Err::<Option<NodeView>, Error>(err),
    }
}

/// [`Children`] gives the first item that is a child.
pub proof fn law_next_child(items: ItemsView)
    ensures
        exists|n: nat| #[trigger] child_after(items, n),
    decreases items.bytes_left(),
{
    lemma_next_advances(items);
    if let (Ok(Some(ItemView::Property(_))), rest) = items.next() {
        law_next_child(rest);
        let n = choose|n: nat| #[trigger] child_after(rest, n);
        assert forall|m: nat| m < n + 1 implies ((#[trigger] nth_item(items, m)).0 matches Ok(
            Some(ItemView::Property(_)),
        )) by {
            if m > 0 {
                assert(nth_item(items, m) == nth_item(rest, (m - 1) as nat));
            }
        }
        assert(nth_item(items, n + 1) == nth_item(rest, n));
        assert(child_after(items, n + 1));
    } else {
        assert(nth_item(items, 0) == items.next());
        assert(child_after(items, 0));
    }
}

/// What asking for the next child gives after it was asked `n` times.
pub open spec fn nth_child(items: ItemsView, n: nat) -> (Result<Option<NodeView>, Error>, ItemsView)
    decreases n,
{
    if n == 0 {
        items.next_child()
    } else {
        nth_child(items.next_child().1, (n - 1) as nat)
    }
}

/// The list of children holds what asking for the next child gives, one after the
/// other.
pub proof fn law_nth_child(items: ItemsView)
    ensures
        all_children(items) matches Ok(list) ==> {
            &&& forall|i: nat|
                i < list.len() ==> (#[trigger] nth_child(items, i)).0 == Ok::<
                    Option<NodeView>,
                    Error,
                >(Some(list[i as int]))
            &&& nth_child(items, list.len()).0 == Ok::<Option<NodeView>, Error>(None)
        },
    decreases items.bytes_left(),
{
    lemma_next_child_advances(items);
    assert(nth_child(items, 0) == items.next_child());
    if let (Ok(Some(node)), rest) = items.next_child() {
        law_nth_child(rest);
        if let Ok(behind) = all_children(rest) {
            let list = seq![node] + behind;
            assert forall|i: nat| i < list.len() implies (#[trigger] nth_child(items, i)).0 == Ok::<
                Option<NodeView>,
                Error,
            >(Some(list[i as int])) by {
                if i > 0 {
                    assert(nth_child(items, i) == nth_child(rest, (i - 1) as nat));
                }
            }
            assert(nth_child(items, list.len()) == nth_child(rest, behind.len()));
        }
    }
}

/// Whether `r` is the first child that passes, after `n` children that fail, and
/// `end` is the position behind its token. A child that cannot be judged, and an
/// error of the children themselves, end the search.
pub open spec fn found_after(
    items: ItemsView,
    verdict: spec_fn(NodeView) -> Result<bool, Error>,
    r: Result<Option<NodeView>, Error>,
    end: ItemsView,
    n: nat,
) -> bool {
    &&& forall|m: nat|
        m < n ==> ((#[trigger] nth_child(items, m)).0 matches Ok(Some(child)) && verdict(child)
            == Ok::<bool, Error>(false))
    &&& end == nth_child(items, n).1
    &&& match nth_child(items, n).0 {
        Ok(Some(child)) => match verdict(child) {
            Ok(true) => r == Ok::<Option<NodeView>, Error>(Some(child)),
            Ok(false) => false,
            Err(err) => r == Err::<Option<NodeView>, Error>(err),
        },
        Ok(None) => r == Ok::<Option<NodeView>, Error>(None),
        Err(err) => r == Err::<Option<NodeView>, Error>(err),
    }
}

/// Whether `r` is the first child that passes.
pub open spec fn found_first(
    items: ItemsView,
    verdict: spec_fn(NodeView) -> Result<bool, Error>,
    r: Result<Option<NodeView>, Error>,
    end: ItemsView,
) -> bool {
    exists|n: nat| #[trigger] found_after(items, verdict, r, end, n)
}

/// One child more in front.
pub proof fn lemma_found_later(
    items: ItemsView,
    verdict: spec_fn(NodeView) -> Result<bool, Error>,
    r: Result<Option<NodeView>, Error>,
    end: ItemsView,
)
    requires
        items.next_child() matches (Ok(Some(child)), rest) && verdict(child) == Ok::<bool, Error>(
            false,
        ) && found_first(rest, verdict, r, end),
    ensures
        found_first(items, verdict, r, end),
{
    let rest = items.next_child().1;
    let n = choose|n: nat| #[trigger] found_after(rest, verdict, r, end, n);
    assert(nth_child(items, n + 1) == nth_child(rest, n));
    assert forall|m: nat| m < n + 1 implies ((#[trigger] nth_child(items, m)).0 matches Ok(
        Some(child),
    ) && verdict(child) == Ok::<bool, Error>(false)) by {
        if m > 0 {
            assert(nth_child(items, m) == nth_child(rest, (m - 1) as nat));
        } else {
            assert(nth_child(items, 0) == items.next_child());
        }
    }
    assert(found_after(items, verdict, r, end, n + 1));
}

/// A search whose test gives the verdict finds the first child that passes.
proof fn lemma_finds_first(
    items: ItemsView,
    test: spec_fn(NodeView, Result<bool, Error>) -> bool,
    verdict: spec_fn(NodeView) -> Result<bool, Error>,
    r: Result<Option<NodeView>, Error>,
    end: ItemsView,
)
    requires
        forall|node: NodeView, a: Result<bool, Error>| #[trigger]
            test(node, a) ==> a == verdict(node),
        items.finds(test, r, end),
    ensures
        found_first(items, verdict, r, end),
    decreases items.bytes_left(),
{
    lemma_next_child_advances(items);
    assert(nth_child(items, 0) == items.next_child());
    if let (Ok(Some(child)), rest) = items.next_child() {
        if test(child, Ok(false)) && rest.finds(test, r, end) {
            lemma_finds_first(rest, test, verdict, r, end);
            lemma_found_later(items, verdict, r, end);
        } else {
            assert(found_after(items, verdict, r, end, 0));
        }
    } else {
        assert(found_after(items, verdict, r, end, 0));
    }
}

/// The verdict on the name of a node.
pub open spec fn on_name(passes: spec_fn(Seq<char>) -> bool) -> spec_fn(NodeView) -> Result<
    bool,
    Error,
> {
    |node: NodeView| Ok(passes(node.name))
}

/// The verdict on the parts of the name of a node. A name with more than one `@`
/// cannot be judged.
pub open spec fn on_split_name(passes: spec_fn(Seq<char>, Option<Seq<char>>) -> bool) -> spec_fn(
    NodeView,
) -> Result<bool, Error> {
    |node: NodeView|
        match split_name(node.name) {
            Ok((node_name, unit_address)) => Ok(passes(node_name, unit_address)),
            Err(_) => Err(Error::InvalidNodeName),
        }
}

/// [`Children::find_by_name`] returns the first child for whose name the predicate
/// holds, whatever else is true of that child, and nothing only if it holds for
/// none.
pub proof fn law_find_child_by_name<'dtb, F: FnMut(&str) -> bool>(
    predicate: F,
    passes: spec_fn(Seq<char>) -> bool,
)
    requires
        forall|s: &str, answer: bool| #[trigger]
            call_ensures(predicate, (s,), answer) ==> answer == passes(s@),
    ensures
        forall|c: &mut Children<'dtb>, r: Result<Option<Node<'dtb>>, Error>|
            #![trigger call_ensures(Children::<'dtb>::find_by_name, (c, predicate), r)]
            call_ensures(Children::<'dtb>::find_by_name, (c, predicate), r) ==> found_first(
                c@,
                on_name(passes),
                as_found(r),
                final(c)@,
            ),
{
    let test = by_name(predicate);
    assert forall|items: ItemsView, r: Result<Option<NodeView>, Error>, end: ItemsView|
        #[trigger] items.finds(test, r, end) implies found_first(
        items,
        on_name(passes),
        r,
        end,
    ) by {
        lemma_finds_first(items, test, on_name(passes), r, end);
    }
}

/// What a node that was found, or an error, stands for.
pub open spec fn as_found(r: Result<Option<Node<'_>>, Error>) -> Result<Option<NodeView>, Error> {
    match r {
        Ok(None) => Ok(None),
        Ok(Some(node)) => Ok(
            Some(
                NodeView {
                    dt: node.dt@,
                    name: node.name@,
                    start: node.start,
                    contents: node.contents,
                },
            ),
        ),
        Err(err) => Err(err),
    }
}

/// The answers to a split name are verdicts on it.
proof fn lemma_split_verdict<F: FnMut(&str, Option<&str>) -> bool>(
    predicate: F,
    passes: spec_fn(Seq<char>, Option<Seq<char>>) -> bool,
)
    requires
        forall|s: &str, t: Option<&str>, answer: bool| #[trigger]
            call_ensures(predicate, (s, t), answer) ==> answer == passes(
                s@,
                match t {
                    Some(t) => Some(t@),
                    None => None,
                },
            ),
    ensures
        forall|node: NodeView, a: Result<bool, Error>| #[trigger]
            by_split_name(predicate)(node, a) ==> a == on_split_name(passes)(node),
{
    assert forall|node: NodeView, a: Result<bool, Error>| #[trigger]
        by_split_name(predicate)(node, a) implies a == on_split_name(passes)(node) by {
        law_split_name(node.name);
    }
}

/// [`Children::find_by_split_name`] returns the first child for whose split name
/// the predicate holds, and nothing only if it holds for none. A child whose name
/// cannot be split ends the search with an error.
pub proof fn law_find_child_by_split_name<'dtb, F: FnMut(&str, Option<&str>) -> bool>(
    predicate: F,
    passes: spec_fn(Seq<char>, Option<Seq<char>>) -> bool,
)
    requires
        forall|s: &str, t: Option<&str>, answer: bool| #[trigger]
            call_ensures(predicate, (s, t), answer) ==> answer == passes(
                s@,
                match t {
                    Some(t) => Some(t@),
                    None => None,
                },
            ),
    ensures
        forall|c: &mut Children<'dtb>, r: Result<Option<Node<'dtb>>, Error>|
            #![trigger call_ensures(Children::<'dtb>::find_by_split_name, (c, predicate), r)]
            call_ensures(Children::<'dtb>::find_by_split_name, (c, predicate), r) ==> found_first(
                c@,
                on_split_name(passes),
                as_found(r),
                final(c)@,
            ),
        forall|items: ItemsView, r: Result<Option<NodeView>, Error>, end: ItemsView|
            #[trigger] items.finds(by_split_name(predicate), r, end) ==> found_first(
                items,
                on_split_name(passes),
                r,
                end,
            ),
{
    let test = by_split_name(predicate);
    lemma_split_verdict(predicate, passes);
    assert forall|items: ItemsView, r: Result<Option<NodeView>, Error>, end: ItemsView|
        #[trigger] items.finds(test, r, end) implies found_first(
        items,
        on_split_name(passes),
        r,
        end,
    ) by {
        lemma_finds_first(items, test, on_split_name(passes), r, end);
    }
}

// ---------------------------------------------------------------------------
// Properties
// ---------------------------------------------------------------------------

/// [`Properties`] gives the property whose token comes next, whatever its name and
/// value, and goes on behind that token. It gives nothing at any other token.
pub proof fn law_next_property(props: PropertiesView)
    ensures
        ({
            let (r, rest) = props.next();
            &&& rest.dt == props.dt
            &&& match props.dt.token_at(props.cursor) {
                Err(err) => r == Err::<Option<PropertyView>, Error>(Error::Blob(err))
                    && rest.cursor == props.cursor,
                Ok(None) => r == Ok::<Option<PropertyView>, Error>(None) && rest.cursor
                    == props.cursor,
                Ok(Some((token, next))) => rest.cursor == next && r == Ok::<
                    Option<PropertyView>,
                    Error,
                >(
                    match token {
                        TokenView::Property(prop) => Some(prop),
                        _ => None,
                    },
                ),
            }
        }),
{
}

/// What asking for the next property gives after it was asked `n` times.
pub open spec fn nth_property(props: PropertiesView, n: nat) -> (
    Result<Option<PropertyView>, Error>,
    PropertiesView,
)
    decreases n,
{
    if n == 0 {
        props.next()
    } else {
        nth_property(props.next().1, (n - 1) as nat)
    }
}

/// The list of properties holds what asking for the next property gives, one after
/// the other.
pub proof fn law_nth_property(props: PropertiesView)
    ensures
        all_properties(props) matches Ok(list) ==> {
            &&& forall|i: nat|
                i < list.len() ==> (#[trigger] nth_property(props, i)).0 == Ok::<
                    Option<PropertyView>,
                    Error,
                >(Some(list[i as int]))
            &&& nth_property(props, list.len()).0 == Ok::<Option<PropertyView>, Error>(None)
        },
    decreases props.dt.structure.len() - props.cursor.offset,
{
    lemma_token_advances(props.dt, props.cursor);
    assert(nth_property(props, 0) == props.next());
    if let (Ok(Some(prop)), rest) = props.next() {
        law_nth_property(rest);
        if let Ok(behind) = all_properties(rest) {
            let list = seq![prop] + behind;
            assert forall|i: nat| i < list.len() implies (#[trigger] nth_property(props, i)).0
                == Ok::<Option<PropertyView>, Error>(Some(list[i as int])) by {
                if i > 0 {
                    assert(nth_property(props, i) == nth_property(rest, (i - 1) as nat));
                }
            }
            assert(nth_property(props, list.len()) == nth_property(rest, behind.len()));
        }
    }
}

/// Whether `r` is the first property whose name passes, after `n` properties whose
/// names fail, and `end` is the position behind its token. A name that cannot be
/// read, and an error of the properties themselves, end the search.
pub open spec fn property_found_after(
    props: PropertiesView,
    passes: spec_fn(Seq<char>) -> bool,
    r: Result<Option<PropertyView>, Error>,
    end: PropertiesView,
    n: nat,
) -> bool {
    &&& forall|m: nat|
        m < n ==> ((#[trigger] nth_property(props, m)).0 matches Ok(Some(prop))
            && prop.name matches Ok(name) && !passes(name))
    &&& end == nth_property(props, n).1
    &&& match nth_property(props, n).0 {
        Ok(Some(prop)) => match prop.name {
            Ok(name) => passes(name) && r == Ok::<Option<PropertyView>, Error>(Some(prop)),
            Err(err) => r == Err::<Option<PropertyView>, Error>(Error::Blob(err)),
        },
        Ok(None) => r == Ok::<Option<PropertyView>, Error>(None),
        Err(err) => r == Err::<Option<PropertyView>, Error>(err),
    }
}

/// Whether `r` is the first property whose name passes.
pub open spec fn property_found_first(
    props: PropertiesView,
    passes: spec_fn(Seq<char>) -> bool,
    r: Result<Option<PropertyView>, Error>,
    end: PropertiesView,
) -> bool {
    exists|n: nat| #[trigger] property_found_after(props, passes, r, end, n)
}

/// A search whose test is the predicate finds the first property that passes.
proof fn lemma_property_finds_first(
    props: PropertiesView,
    test: spec_fn(Seq<char>, bool) -> bool,
    passes: spec_fn(Seq<char>) -> bool,
    r: Result<Option<PropertyView>, Error>,
    end: PropertiesView,
)
    requires
        forall|name: Seq<char>, answer: bool| #[trigger]
            test(name, answer) ==> answer == passes(name),
        props.finds(test, r, end),
    ensures
        property_found_first(props, passes, r, end),
    decreases props.dt.structure.len() - props.cursor.offset,
{
    lemma_token_advances(props.dt, props.cursor);
    assert(nth_property(props, 0) == props.next());
    let (found, rest) = props.next();
    if found matches Ok(Some(prop)) && prop.name is Ok && test(prop.name->Ok_0, false)
        && rest.finds(test, r, end) {
        lemma_property_finds_first(rest, test, passes, r, end);
        let n = choose|n: nat| #[trigger] property_found_after(rest, passes, r, end, n);
        assert(nth_property(props, n + 1) == nth_property(rest, n));
        assert forall|m: nat| m < n + 1 implies ((#[trigger] nth_property(props, m)).0 matches Ok(
            Some(prop),
        ) && prop.name matches Ok(name) && !passes(name)) by {
            if m > 0 {
                assert(nth_property(props, m) == nth_property(rest, (m - 1) as nat));
            }
        }
        assert(property_found_after(props, passes, r, end, n + 1));
    } else {
        assert(property_found_after(props, passes, r, end, 0));
    }
}

/// [`Properties::find_by_name`] returns the first property for whose name the
/// predicate holds, whatever its value, and nothing only if it holds for none.
pub proof fn law_find_property_by_name<'dtb, F: FnMut(&str) -> bool>(
    predicate: F,
    passes: spec_fn(Seq<char>) -> bool,
)
    requires
        forall|s: &str, answer: bool| #[trigger]
            call_ensures(predicate, (s,), answer) ==> answer == passes(s@),
    ensures
        forall|c: &mut Properties<'dtb>, r: Result<Option<Property<'dtb>>, Error>|
            #![trigger call_ensures(Properties::<'dtb>::find_by_name, (c, predicate), r)]
            call_ensures(Properties::<'dtb>::find_by_name, (c, predicate), r)
                ==> property_found_first(
                c@,
                passes,
                match r {
                    Ok(None) => Ok(None),
                    Ok(Some(prop)) => Ok(Some(prop@)),
                    Err(err) => Err(err),
                },
                final(c)@,
            ),
{
    let test = name_answers(predicate);
    assert forall|
        props: PropertiesView,
        r: Result<Option<PropertyView>, Error>,
        end: PropertiesView,
    | #[trigger] props.finds(test, r, end) implies property_found_first(
        props,
        passes,
        r,
        end,
    ) by {
        lemma_property_finds_first(props, test, passes, r, end);
    }
}

} // verus!
