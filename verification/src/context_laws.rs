//! What the closures that deserialize a node are given.
use vstd::prelude::*;

use crate::blob::{Cursor, ItemView, Node, Property};
use crate::context::Call;
use crate::laws::call_item;
use crate::node::{items_of, lemma_next_advances, ItemsView};
use crate::prop_value::cells_value;
use crate::util::be_number;
use crate::{Cells, Error, NodeContext};

verus! {

/// The number in the last property with a name among those that were handed out,
/// or the default if there is none.
pub open spec fn last_count<'a, C: ?Sized>(
    calls: Seq<Call<'a, C>>,
    name: Seq<char>,
    default: nat,
) -> nat
    decreases calls.len(),
{
    if calls.len() == 0 {
        default
    } else {
        match calls.last() {
            Call::Property { prop, .. } => if prop.name == Ok::<Seq<char>, crate::blob::Error>(
                name,
            ) {
                be_number(prop.value)
            } else {
                last_count(calls.drop_last(), name, default)
            },
            Call::Child { .. } => last_count(calls.drop_last(), name, default),
        }
    }
}

/// What a closure returned.
pub open spec fn call_result<'a, C: ?Sized>(call: Call<'a, C>) -> Result<(), Error> {
    match call {
        Call::Property { result, .. } => result,
        Call::Child { result, .. } => result,
    }
}

/// Why the value is no count of cells, if it is none.
pub open spec fn count_error(value: Seq<u8>) -> Option<Error> {
    if value.len() != 4 {
        Some(Error::UnsuitableProperty)
    } else if value[0] == 0 && value[1] == 0 && value[2] == 0 && value[3] <= 4 {
        None
    } else {
        Some(Error::TooManyCells)
    }
}

/// Whether a property sets a count of cells.
pub open spec fn sets_count(name: Seq<char>) -> bool {
    name == "#address-cells"@ || name == "#size-cells"@
}

/// Whether a closure is given what it should be given for the next item at a
/// position: a property comes with its name. A child comes with its contents as the
/// cursor, with the custom information, and with the counts of cells in the last
/// properties of its parent that are in front of it, whatever other properties
/// there are.
pub open spec fn is_given_right<'a, C: ?Sized>(
    start: NodeContext<'a, C>,
    calls: Seq<Call<'a, C>>,
    i: int,
    at: ItemsView,
) -> bool {
    &&& at.next().0 == Ok::<Option<ItemView>, Error>(Some(call_item(calls[i])))
    &&& match calls[i] {
        Call::Property { name, prop, .. } => {
            &&& prop.name == Ok::<Seq<char>, crate::blob::Error>(name)
            &&& sets_count(name) ==> count_error(prop.value) is None
        },
        Call::Child { node, cx, before, .. } => {
            let in_front = calls.take(i);
            &&& before == node.contents
            &&& cx.custom == start.custom
            &&& cx.address_cells == last_count(
                in_front,
                "#address-cells"@,
                start.address_cells as nat,
            )
            &&& cx.size_cells == last_count(in_front, "#size-cells"@, start.size_cells as nat)
        },
    }
}

/// Where a call leaves off: behind the property, or at the cursor that the closure
/// for children left.
pub open spec fn goes_on_at<'a, C: ?Sized>(call: Call<'a, C>, at: ItemsView) -> ItemsView {
    match call {
        Call::Property { .. } => at.next().1,
        Call::Child { after, .. } => ItemsView { cursor: after, ..at },
    }
}

/// Whether the calls are for the items one after the other, and `r` says how this
/// ended: with the error of a closure, with that of an item or of a property that
/// sets a count of cells, or behind the node.
pub open spec fn is_walk<'a, C: ?Sized>(
    start: NodeContext<'a, C>,
    items: ItemsView,
    calls: Seq<Call<'a, C>>,
    at: Seq<ItemsView>,
    r: Result<Cursor, Error>,
) -> bool {
    &&& at.len() == calls.len() + 1
    &&& at[0] == items
    &&& forall|i: int|
        0 <= i < calls.len() ==> {
            &&& is_given_right(start, calls, i, #[trigger] at[i])
            &&& at[i + 1] == goes_on_at(calls[i], at[i])
            &&& i + 1 < calls.len() ==> call_result(calls[i]) is Ok
        }
    &&& if calls.len() > 0 && call_result(calls.last()) is Err {
        r == Err::<Cursor, Error>(call_result(calls.last())->Err_0)
    } else {
        match at.last().next() {
            (Err(err), _) => r == Err::<Cursor, Error>(err),
            (Ok(None), rest) => r == Ok::<Cursor, Error>(rest.cursor),
            (Ok(Some(ItemView::Child(_))), _) => false,
            (Ok(Some(ItemView::Property(prop))), _) => match prop.name {
                Err(err) => r == Err::<Cursor, Error>(Error::Blob(err)),
                Ok(name) => {
                    &&& sets_count(name)
                    &&& count_error(prop.value) matches Some(err) && r == Err::<Cursor, Error>(err)
                },
            },
        }
    }
}

/// One call more in front.
proof fn lemma_last_count<'a, C: ?Sized>(
    first: Call<'a, C>,
    behind: Seq<Call<'a, C>>,
    name: Seq<char>,
    default: nat,
)
    ensures
        last_count(seq![first] + behind, name, default) == last_count(
            behind,
            name,
            last_count(seq![first], name, default),
        ),
    decreases behind.len(),
{
    let all = seq![first] + behind;
    if behind.len() == 0 {
        assert(all == seq![first]);
    } else {
        assert(all.last() == behind.last());
        assert(all.drop_last() == seq![first] + behind.drop_last());
        lemma_last_count(first, behind.drop_last(), name, default);
    }
}

/// One call by itself.
proof fn lemma_one_count<'a, C: ?Sized>(first: Call<'a, C>, name: Seq<char>, default: nat)
    ensures
        last_count(seq![first], name, default) == match first {
            Call::Property { prop, .. } => if prop.name == Ok::<Seq<char>, crate::blob::Error>(
                name,
            ) {
                be_number(prop.value)
            } else {
                default
            },
            Call::Child { .. } => default,
        },
{
    reveal_with_fuel(last_count, 2);
    assert(seq![first].drop_last() == Seq::<Call<'a, C>>::empty());
}

/// The context behind a call has the counts of cells that the property of that call
/// sets, and else those that were known in front of it.
proof fn lemma_context_step<'a, C: ?Sized>(
    start: NodeContext<'a, C>,
    first: Call<'a, C>,
    cx: NodeContext<'a, C>,
)
    requires
        match first {
            Call::Property { name, prop, .. } => {
                &&& prop.name == Ok::<Seq<char>, crate::blob::Error>(name)
                &&& start.with_property(name, prop) == Ok::<NodeContext<'a, C>, Error>(cx)
            },
            Call::Child { .. } => cx == start,
        },
    ensures
        cx.custom == start.custom,
        cx.address_cells == last_count(
            seq![first],
            "#address-cells"@,
            start.address_cells as nat,
        ),
        cx.size_cells == last_count(seq![first], "#size-cells"@, start.size_cells as nat),
{
    lemma_names_differ();
    lemma_one_count(first, "#address-cells"@, start.address_cells as nat);
    lemma_one_count(first, "#size-cells"@, start.size_cells as nat);
    if let Call::Property { prop, .. } = first {
        lemma_count(prop.value);
    }
}

/// A visit is a walk over the items.
proof fn lemma_visits_walk<'a, C: ?Sized>(
    start: NodeContext<'a, C>,
    items: ItemsView,
    calls: Seq<Call<'a, C>>,
    r: Result<Cursor, Error>,
) -> (at: Seq<ItemsView>)
    requires
        start.visits(items, calls, r),
    ensures
        is_walk(start, items, calls, at, r),
    decreases calls.len(),
{
    lemma_names_differ();
    lemma_next_advances(items);
    if let (Ok(Some(ItemView::Property(prop))), _) = items.next() {
        lemma_count(prop.value);
    }
    if calls.len() == 0 {
        let at = seq![items];
        assert(is_walk(start, items, calls, at, r));
        at
    } else {
        let first = calls[0];
        let behind = calls.skip(1);
        let rest = goes_on_at(first, items);
        assert(calls == seq![first] + behind);
        assert(calls.take(0) == Seq::<Call<'a, C>>::empty());
        assert(is_given_right(start, calls, 0, items));
        if call_result(first) is Err {
            let at = seq![items, rest];
            assert(calls.last() == first);
            assert(is_walk(start, items, calls, at, r));
            at
        } else {
            let cx = match first {
                Call::Property { name, prop, .. } => start.with_property(name, prop)->Ok_0,
                Call::Child { .. } => start,
            };
            lemma_context_step(start, first, cx);
            assert(cx.visits(rest, behind, r));
            let later = lemma_visits_walk(cx, rest, behind, r);
            let at = seq![items] + later;
            assert forall|i: int| 0 <= i < calls.len() implies {
                &&& is_given_right(start, calls, i, #[trigger] at[i])
                &&& at[i + 1] == goes_on_at(calls[i], at[i])
                &&& i + 1 < calls.len() ==> call_result(calls[i]) is Ok
            } by {
                if i > 0 {
                    let j = i - 1;
                    assert(at[i] == later[j] && at[i + 1] == later[j + 1]);
                    assert(calls[i] == behind[j]);
                    assert(is_given_right(cx, behind, j, later[j]));
                    assert(calls.take(i) == seq![first] + behind.take(j));
                    lemma_last_count(
                        first,
                        behind.take(j),
                        "#address-cells"@,
                        start.address_cells as nat,
                    );
                    lemma_last_count(
                        first,
                        behind.take(j),
                        "#size-cells"@,
                        start.size_cells as nat,
                    );
                }
            }
            assert(at.last() == later.last());
            if behind.len() > 0 {
                assert(calls.last() == behind.last());
            } else {
                assert(calls.last() == first);
            }
            assert(is_walk(start, items, calls, at, r));
            at
        }
    }
}

/// A count of cells is the number that its value is, where there is no error.
proof fn lemma_count(value: Seq<u8>)
    ensures
        match count_error(value) {
            Some(err) => cells_value(value) == Err::<Cells, Error>(err),
            None => cells_value(value) matches Ok(cells) && cells == be_number(value),
        },
{
    reveal_with_fuel(be_number, 5);
}

/// The two names of properties that set a count of cells differ.
proof fn lemma_names_differ()
    ensures
        "#address-cells"@ != "#size-cells"@,
{
    reveal_strlit("#address-cells");
    reveal_strlit("#size-cells");
    assert("#address-cells"@.len() != "#size-cells"@.len());
}

/// [`NodeContext::deserialize_node`] gives its closures the items of the node, one
/// after the other. A child gets as counts of cells what the last `#address-cells`
/// and the last `#size-cells` of the node in front of that child say, or else 2 and
/// 1, and the custom information of the node itself. The context of the node has no
/// other influence.
pub proof fn law_deserialize_node_walks<
    'a,
    'dtb,
    C: ?Sized,
    F: FnMut(&'dtb str, Property<'dtb>) -> Result<(), Error>,
    G: FnMut(Node<'dtb>, NodeContext<'a, C>, &mut Cursor) -> Result<(), Error>,
>(cx: NodeContext<'a, C>, node: &Node<'dtb>, f_prop: F, f_child: G, r: Result<Cursor, Error>)
    requires
        call_ensures(NodeContext::<'a, C>::deserialize_node, (cx, node, f_prop, f_child), r),
    ensures
        exists|calls: Seq<Call<'a, C>>, at: Seq<ItemsView>|
            {
                &&& #[trigger] is_walk(
                    NodeContext { custom: cx.custom, address_cells: 2, size_cells: 1 },
                    items_of(node@),
                    calls,
                    at,
                    r,
                )
                &&& forall|i: int|
                    #![trigger calls[i]]
                    0 <= i < calls.len() ==> match calls[i] {
                        Call::Property { name, prop, result } => exists|
                            s: &'dtb str,
                            p: Property<'dtb>,
                        |
                            s@ == name && p@ == prop && #[trigger] call_ensures(
                                f_prop,
                                (s, p),
                                result,
                            ),
                        Call::Child { node, cx, before, after, result } => exists|
                            n: Node<'dtb>,
                            c: &mut Cursor,
                        |
                            {
                                &&& n@ == node
                                &&& *c == before
                                &&& *final(c) == after
                                &&& #[trigger] call_ensures(f_child, (n, cx, c), result)
                            },
                    }
            },
{
    let start = NodeContext { custom: cx.custom, address_cells: 2, size_cells: 1 };
    assert(start == NodeContext::<'a, C>::initial(cx.custom));
    assert forall|calls: Seq<Call<'a, C>>| #[trigger]
        start.visits(items_of(node@), calls, r) implies exists|at: Seq<ItemsView>| #[trigger]
        is_walk(start, items_of(node@), calls, at, r) by {
        let at = lemma_visits_walk(start, items_of(node@), calls, r);
        assert(is_walk(start, items_of(node@), calls, at, r));
    }
}

/// A copy of a context is the same context.
pub proof fn law_cloned_context<'a, C: ?Sized>(cx: &NodeContext<'a, C>, r: NodeContext<'a, C>)
    requires
        call_ensures(<NodeContext<'a, C> as Clone>::clone, (cx,), r),
    ensures
        r.custom == cx.custom,
        r.address_cells == cx.address_cells,
        r.size_cells == cx.size_cells,
{
}

/// The default context has no custom information, 2 address cells and 1 size cell.
pub proof fn law_default_context<'a, C: ?Sized>(cx: NodeContext<'a, C>)
    requires
        call_ensures(<NodeContext<'a, C> as Default>::default, (), cx),
    ensures
        cx.custom is None,
        cx.address_cells == 2,
        cx.size_cells == 1,
{
}

} // verus!
