//! Iterators over what is contained in a node.
use core::hash::{Hash, Hasher};

use fallible_iterator::FallibleIterator;
use vstd::prelude::*;

use crate::blob::{
    lemma_token_advances, Cursor, Devicetree, DevicetreeView, Item, ItemView, Node, NodeView,
    Property, PropertyView, Token, TokenView,
};
use crate::util::{split_name, str_eq};
use crate::{Error, NodeContext, PushDeserializedNode};

verus! {

// ---------------------------------------------------------------------------
// Items
// ---------------------------------------------------------------------------

/// A position among the items of a node.
pub struct ItemsView {
    /// The devicetree that the node is part of.
    pub dt: DevicetreeView,
    /// The depth of the contents of the node.
    pub at_depth: u32,
    /// Where the next token is.
    pub cursor: Cursor,
}

impl ItemsView {
    /// The same node at another position.
    pub open spec fn at(self, cursor: Cursor) -> ItemsView {
        ItemsView { cursor, ..self }
    }

    /// Number of bytes of the structure block behind the position.
    pub open spec fn bytes_left(self) -> int {
        if self.cursor.offset <= self.dt.structure.len() {
            self.dt.structure.len() - self.cursor.offset
        } else {
            0
        }
    }

    /// The first token at the depth of the node's contents, as an item, and the
    /// position behind it. Tokens that are nested deeper are skipped. There is
    /// no item where the node ends, nor behind its end.
    pub open spec fn next(self) -> (Result<Option<ItemView>, Error>, ItemsView)
        decreases self.dt.structure.len() - self.cursor.offset,
    {
        if self.cursor.depth < self.at_depth {
            (Ok(None), self)
        } else {
            match self.dt.token_at(self.cursor) {
                Err(err) => (Err(Error::Blob(err)), self),
                Ok(None) => (Ok(None), self),
                Ok(Some((token, next))) => {
                    proof {
                        lemma_token_advances(self.dt, self.cursor);
                    }
                    if self.cursor.depth == self.at_depth {
                        (Ok(token.into_item()), self.at(next))
                    } else {
                        self.at(next).next()
                    }
                },
            }
        }
    }

    /// The first position that is outside of the node.
    pub open spec fn end(self) -> Result<Cursor, Error>
        decreases self.dt.structure.len() - self.cursor.offset,
    {
        if self.cursor.depth < self.at_depth {
            Ok(self.cursor)
        } else {
            match self.dt.token_at(self.cursor) {
                Err(err) => Err(Error::Blob(err)),
                Ok(None) => Ok(self.cursor),
                Ok(Some((_, next))) => {
                    proof {
                        lemma_token_advances(self.dt, self.cursor);
                    }
                    self.at(next).end()
                },
            }
        }
    }

    /// All items from this position on, and the position behind the node.
    pub open spec fn collect(self) -> Result<(Seq<ItemView>, Cursor), Error>
        decreases self.bytes_left(),
    {
        let (r, rest) = self.next();
        match r {
            Err(err) => Err(err),
            Ok(None) => Ok((Seq::empty(), rest.cursor)),
            Ok(Some(item)) => {
                proof {
                    lemma_next_advances(self);
                }
                match rest.collect() {
                    Err(err) => Err(err),
                    Ok((items, end)) => Ok((seq![item] + items, end)),
                }
            },
        }
    }

    /// The first child from this position on, and the position behind its
    /// token.
    pub open spec fn next_child(self) -> (Result<Option<NodeView>, Error>, ItemsView)
        decreases self.bytes_left(),
    {
        let (r, rest) = self.next();
        match r {
            Err(err) => (Err(err), rest),
            Ok(None) => (Ok(None), rest),
            Ok(Some(ItemView::Child(node))) => (Ok(Some(node)), rest),
            Ok(Some(ItemView::Property(_))) => {
                proof {
                    lemma_next_advances(self);
                }
                rest.next_child()
            },
        }
    }

    /// Whether a search for the first child that passes `test` can give `r` and
    /// leave off at `end`. What `test` allows are the results that the test of
    /// a child can have.
    pub open spec fn finds(
        self,
        test: spec_fn(NodeView, Result<bool, Error>) -> bool,
        r: Result<Option<NodeView>, Error>,
        end: ItemsView,
    ) -> bool
        decreases self.bytes_left(),
    {
        let (child, rest) = self.next_child();
        match child {
            Err(err) => r == Err::<Option<NodeView>, Error>(err) && end == rest,
            Ok(None) => r == Ok::<Option<NodeView>, Error>(None) && end == rest,
            Ok(Some(node)) => {
                proof {
                    lemma_next_child_advances(self);
                }
                ||| test(node, Ok(true)) && r == Ok::<Option<NodeView>, Error>(Some(node)) && end
                    == rest
                ||| test(node, Ok(false)) && rest.finds(test, r, end)
                ||| exists|err: Error| #[trigger]
                    test(node, Err(err)) && r == Err::<Option<NodeView>, Error>(err) && end == rest
            },
        }
    }

    /// Whether a search for the first child that passes `test` can come to test
    /// this child: those in front of it may fail the test.
    pub open spec fn tests(
        self,
        test: spec_fn(NodeView, Result<bool, Error>) -> bool,
        node: NodeView,
    ) -> bool
        decreases self.bytes_left(),
    {
        match self.next_child() {
            (Ok(Some(child)), rest) => {
                proof {
                    lemma_next_child_advances(self);
                }
                ||| child == node
                ||| test(child, Ok(false)) && rest.tests(test, node)
            },
            _ => false,
        }
    }

    /// The first child with a node name, and the position behind its token.
    pub open spec fn find_named(self, name: Seq<char>) -> (
        Result<Option<NodeView>, Error>,
        ItemsView,
    )
        decreases self.bytes_left(),
    {
        let (child, rest) = self.next_child();
        match child {
            Err(err) => (Err(err), rest),
            Ok(None) => (Ok(None), rest),
            Ok(Some(node)) => match split_name(node.name) {
                Err(err) => (Err(err), rest),
                Ok((node_name, _)) => if node_name == name {
                    (Ok(Some(node)), rest)
                } else {
                    proof {
                        lemma_next_child_advances(self);
                    }
                    rest.find_named(name)
                },
            },
        }
    }
}

/// The items of a node, from its first one on.
pub open spec fn items_of(node: NodeView) -> ItemsView {
    ItemsView { dt: node.dt, at_depth: node.contents.depth, cursor: node.contents }
}

/// Going on to the next item stays in the node and goes forward.
pub proof fn lemma_next_advances(items: ItemsView)
    ensures
        items.next().1.dt == items.dt,
        items.next().1.at_depth == items.at_depth,
        items.next().1.cursor.offset >= items.cursor.offset,
        items.next().1.cursor.offset > items.cursor.offset ==> items.next().1.cursor.offset
            <= items.dt.structure.len(),
        items.next().0 matches Ok(Some(_)) ==> items.cursor.offset
            < items.next().1.cursor.offset <= items.dt.structure.len(),
        items.next().0 matches Ok(Some(ItemView::Child(node))) ==> node.dt == items.dt
            && node.contents == items.next().1.cursor,
    decreases items.dt.structure.len() - items.cursor.offset,
{
    if items.cursor.depth >= items.at_depth {
        lemma_token_advances(items.dt, items.cursor);
        if let Ok(Some((_, next))) = items.dt.token_at(items.cursor) {
            if items.cursor.depth != items.at_depth {
                lemma_next_advances(items.at(next));
            }
        }
    }
}

/// Going on to the next child stays in the node and goes forward.
pub proof fn lemma_next_child_advances(items: ItemsView)
    ensures
        items.next_child().1.dt == items.dt,
        items.next_child().1.at_depth == items.at_depth,
        items.next_child().1.cursor.offset >= items.cursor.offset,
        items.next_child().0 matches Ok(Some(_)) ==> items.cursor.offset
            < items.next_child().1.cursor.offset <= items.dt.structure.len(),
    decreases items.bytes_left(),
{
    lemma_next_advances(items);
    if let (Ok(Some(ItemView::Property(_))), rest) = items.next() {
        lemma_next_child_advances(rest);
    }
}

/// The result of asking for an item.
pub open spec fn item_result(r: Result<Option<Item<'_>>, Error>) -> Result<
    Option<ItemView>,
    Error,
> {
    match r {
        Ok(Some(item)) => Ok(Some(item@)),
        Ok(None) => Ok(None),
        Err(err) => Err(err),
    }
}

/// An iterator over the [`Item`]s ([`Property`]s and child [`Node`]s)
/// contained in a node.
///
/// Fused (see [`core::iter::FusedIterator`]).
///
/// In compliant devicetrees, the properties always come before the child nodes.
#[derive(Clone, Copy, Debug)]
#[must_use]
pub struct Items<'dtb> {
    dt: &'dtb Devicetree,
    at_depth: u32,
    cursor: Cursor,
}

impl<'dtb> View for Items<'dtb> {
    type V = ItemsView;

    closed spec fn view(&self) -> ItemsView {
        ItemsView { dt: self.dt@, at_depth: self.at_depth, cursor: self.cursor }
    }
}

impl<'dtb> Items<'dtb> {
    /// Creates a new iterator over the [`Item`]s contained in a node.
    ///
    /// The cursor has to be inside the node.
    pub fn new(node: &Node<'dtb>, cursor: Cursor) -> (r: Self)
        requires
            node@.contents.offset <= cursor.offset,
            node@.contents.depth <= cursor.depth,
        ensures
            r@ == items_of(node@).at(cursor),
    {
        Items { dt: node.dt, at_depth: node.contents.depth, cursor }
    }

    /// The cursor has to be inside the node.
    pub fn set_cursor(&mut self, cursor: Cursor)
        requires
            old(self)@.at_depth <= cursor.depth,
        ensures
            final(self)@ == old(self)@.at(cursor),
    {
        self.go_on_at(cursor);
    }

    /// Goes on at any position, which may be behind the node.
    pub(crate) fn go_on_at(&mut self, cursor: Cursor)
        ensures
            final(self)@ == old(self)@.at(cursor),
    {
        self.cursor = cursor;
    }

    /// A cursor pointing to the next [`Token`] after this node. Most expensive
    /// to determine if this iterator has not been advanced very much.
    pub fn end_cursor(self) -> (r: Result<Cursor, Error>)
        ensures
            r == self@.end(),
    {
        let mut items = self;
        loop
            invariant
                items@.end() == self@.end(),
            decreases items@.bytes_left(),
        {
            proof {
                lemma_next_advances(items@);
                law_end_after_next(items@);
            }
            match items.next() {
                Ok(Some(_)) => {},
                Ok(None) => return Ok(items.cursor),
                Err(err) => return Err(err),
            }
        }
    }

    /// Where the next token is.
    pub fn _cursor_(self) -> (r: Cursor)
        ensures
            r == self@.cursor,
    {
        self.cursor
    }
}

/// The end of a node is the same seen from the next item.
pub proof fn law_end_after_next(items: ItemsView)
    ensures
        match items.next() {
            (Ok(Some(_)), rest) => rest.end() == items.end(),
            (Ok(None), rest) => items.end() == Ok::<Cursor, Error>(rest.cursor),
            (Err(err), _) => items.end() == Err::<Cursor, Error>(err),
        },
    decreases items.dt.structure.len() - items.cursor.offset,
{
    if items.cursor.depth >= items.at_depth {
        lemma_token_advances(items.dt, items.cursor);
        if let Ok(Some((token, next))) = items.dt.token_at(items.cursor) {
            if items.cursor.depth == items.at_depth {
                if token is EndNode {
                    assert(items.at(next).end() == Ok::<Cursor, Error>(next));
                }
            } else {
                law_end_after_next(items.at(next));
            }
        }
    }
}

/// Collecting the items of a node leads to the end of the node, and fails where
/// the end cannot be found.
pub proof fn law_collect_end(items: ItemsView)
    ensures
        match items.collect() {
            Ok((_, end)) => items.end() == Ok::<Cursor, Error>(end),
            Err(err) => items.end() == Err::<Cursor, Error>(err),
        },
    decreases items.bytes_left(),
{
    lemma_next_advances(items);
    law_end_after_next(items);
    if let (Ok(Some(_)), rest) = items.next() {
        law_collect_end(rest);
    }
}

impl<'dtb> FallibleIterator for Items<'dtb> {
    type Item = Item<'dtb>;

    type Error = Error;

    fn next(&mut self) -> (r: Result<Option<Item<'dtb>>, Error>)
        ensures
            item_result(r) == old(self)@.next().0,
            final(self)@ == old(self)@.next().1,
    {
        while self.cursor.depth >= self.at_depth
            invariant
                self@.next() == old(self)@.next(),
            decreases self.dt@.structure.len() - self.cursor.offset,
        {
            proof {
                lemma_token_advances(self.dt@, self.cursor);
            }
            let token_depth = self.cursor.depth;
            match self.dt.next_token(&mut self.cursor) {
                Ok(Some(token)) => {
                    if token_depth == self.at_depth {
                        return Ok(token.into_item());
                    }
                },
                Ok(None) => return Ok(None),
                Err(err) => return Err(Error::Blob(err)),
            }
        }
        Ok(None)
    }
}

// ---------------------------------------------------------------------------
// Properties
// ---------------------------------------------------------------------------

/// A position among the properties of a node.
pub struct PropertiesView {
    /// The devicetree that the node is part of.
    pub dt: DevicetreeView,
    /// Where the next token is.
    pub cursor: Cursor,
}

impl PropertiesView {
    /// The property at this position, and the position behind the token there.
    /// There is none if the token is not that of a property.
    pub open spec fn next(self) -> (Result<Option<PropertyView>, Error>, PropertiesView) {
        match self.dt.token_at(self.cursor) {
            Err(err) => (Err(Error::Blob(err)), self),
            Ok(None) => (Ok(None), self),
            Ok(Some((TokenView::Property(prop), cursor))) => (
                Ok(Some(prop)),
                PropertiesView { cursor, ..self },
            ),
            Ok(Some((_, cursor))) => (Ok(None), PropertiesView { cursor, ..self }),
        }
    }

    /// Whether a search for the first property whose name passes `test` can
    /// give `r` and leave off at `end`. What `test` allows are the answers that
    /// the test of a name can give.
    pub open spec fn finds(
        self,
        test: spec_fn(Seq<char>, bool) -> bool,
        r: Result<Option<PropertyView>, Error>,
        end: PropertiesView,
    ) -> bool
        decreases self.dt.structure.len() - self.cursor.offset,
    {
        let (found, rest) = self.next();
        match found {
            Err(err) => r == Err::<Option<PropertyView>, Error>(err) && end == rest,
            Ok(None) => r == Ok::<Option<PropertyView>, Error>(None) && end == rest,
            Ok(Some(prop)) => match prop.name {
                Err(err) => r == Err::<Option<PropertyView>, Error>(Error::Blob(err)) && end
                    == rest,
                Ok(name) => {
                    proof {
                        lemma_token_advances(self.dt, self.cursor);
                    }
                    ||| test(name, true) && r == Ok::<Option<PropertyView>, Error>(Some(prop))
                        && end == rest
                    ||| test(name, false) && rest.finds(test, r, end)
                },
            },
        }
    }

    /// Whether a search for the first property whose name passes `test` can come
    /// to test this name: those in front of it may fail the test.
    pub open spec fn tests(
        self,
        test: spec_fn(Seq<char>, bool) -> bool,
        name: Seq<char>,
    ) -> bool
        decreases self.dt.structure.len() - self.cursor.offset,
    {
        match self.next() {
            (Ok(Some(prop)), rest) => match prop.name {
                Ok(found) => {
                    proof {
                        lemma_token_advances(self.dt, self.cursor);
                    }
                    ||| found == name
                    ||| test(found, false) && rest.tests(test, name)
                },
                Err(_) => false,
            },
            _ => false,
        }
    }
}

/// The result of asking for a property.
pub open spec fn property_result(r: Result<Option<Property<'_>>, Error>) -> Result<
    Option<PropertyView>,
    Error,
> {
    match r {
        Ok(Some(prop)) => Ok(Some(prop@)),
        Ok(None) => Ok(None),
        Err(err) => Err(err),
    }
}

/// The answers that a predicate can give for a name.
pub open spec fn name_answers<F: FnMut(&str) -> bool>(predicate: F) -> spec_fn(
    Seq<char>,
    bool,
) -> bool {
    |name: Seq<char>, answer: bool|
        exists|s: &str| s@ == name && #[trigger] call_ensures(predicate, (s,), answer)
}

/// An iterator over the [`Property`]s contained in a node.
///
/// This is currently more efficient than filtering the [`Items`] manually.
#[derive(Clone, Copy, Debug)]
#[must_use]
pub struct Properties<'dtb> {
    dt: &'dtb Devicetree,
    cursor: Cursor,
}

impl<'dtb> View for Properties<'dtb> {
    type V = PropertiesView;

    closed spec fn view(&self) -> PropertiesView {
        PropertiesView { dt: self.dt@, cursor: self.cursor }
    }
}

impl<'dtb> Properties<'dtb> {
    /// Creates an iterator over the [`Property`]s contained in a node.
    ///
    /// The cursor has to be inside the node.
    pub fn new(dt: &'dtb Devicetree, cursor: Cursor) -> (r: Self)
        ensures
            r@ == (PropertiesView { dt: dt@, cursor }),
    {
        Properties { dt, cursor }
    }

    /// Cursor pointing to the next [`Token`].
    pub fn cursor(&self) -> (r: Cursor)
        ensures
            r == self@.cursor,
    {
        self.cursor
    }

    /// Finds a contained property by name.
    pub fn find_by_name(&mut self, predicate: impl FnMut(&str) -> bool) -> (r: Result<
        Option<Property<'dtb>>,
        Error,
    >)
        requires
            forall|s: &str|
                old(self)@.tests(name_answers(predicate), s@) ==> #[trigger] call_requires(
                    predicate,
                    (s,),
                ),
        ensures
            old(self)@.finds(name_answers(predicate), property_result(r), final(self)@),
    {
        let ghost test = name_answers(predicate);
        let mut ask = predicate;
        loop
            invariant
                ask == predicate,
                test == name_answers(predicate),
                forall|s: &str|
                    old(self)@.tests(test, s@) ==> #[trigger] call_requires(predicate, (s,)),
                forall|name: Seq<char>| #[trigger]
                    self@.tests(test, name) ==> old(self)@.tests(test, name),
                forall|r: Result<Option<PropertyView>, Error>, end: PropertiesView|
                    #[trigger] self@.finds(test, r, end) ==> old(self)@.finds(test, r, end),
            decreases self@.dt.structure.len() - self@.cursor.offset,
        {
            let ghost before = self@;
            proof {
                lemma_token_advances(before.dt, before.cursor);
            }
            let prop = match self.next() {
                Ok(Some(prop)) => prop,
                Ok(None) => {
                    assert(before.finds(test, Ok(None), self@));
                    return Ok(None);
                },
                Err(err) => {
                    assert(before.finds(test, Err(err), self@));
                    return Err(err);
                },
            };
            let name = match prop.name() {
                Ok(name) => name,
                Err(err) => {
                    assert(before.finds(test, Err(err), self@));
                    return Err(err);
                },
            };
            assert(before.tests(test, name@));
            let answer = ask(name);
            assert(test(name@, answer));
            if answer {
                assert(before.finds(test, Ok(Some(prop@)), self@));
                return Ok(Some(prop));
            }
            assert forall|r: Result<Option<PropertyView>, Error>, end: PropertiesView|
                #[trigger] self@.finds(test, r, end) implies old(self)@.finds(test, r, end) by {
                assert(before.finds(test, r, end));
            }
            assert forall|name: Seq<char>| #[trigger] self@.tests(test, name) implies old(
                self,
            )@.tests(test, name) by {
                assert(before.tests(test, name));
            }
        }
    }
}

impl<'dtb> FallibleIterator for Properties<'dtb> {
    type Item = Property<'dtb>;

    type Error = Error;

    fn next(&mut self) -> (r: Result<Option<Property<'dtb>>, Error>)
        ensures
            property_result(r) == old(self)@.next().0,
            final(self)@ == old(self)@.next().1,
    {
        match self.dt.next_token(&mut self.cursor) {
            Ok(Some(Token::Property(prop))) => Ok(Some(prop)),
            Ok(_) => Ok(None),
            Err(err) => Err(Error::Blob(err)),
        }
    }
}

// ---------------------------------------------------------------------------
// Children
// ---------------------------------------------------------------------------

/// The result of asking for a node.
pub open spec fn node_result(r: Result<Option<Node<'_>>, Error>) -> Result<
    Option<NodeView>,
    Error,
> {
    match r {
        Ok(Some(node)) => Ok(Some(node@)),
        Ok(None) => Ok(None),
        Err(err) => Err(err),
    }
}

/// The characters of an optional string.
pub open spec fn optional_chars(s: Option<&str>) -> Option<Seq<char>> {
    match s {
        Some(s) => Some(s@),
        None => None,
    }
}

/// The results that testing the name of a node with a predicate can have.
pub open spec fn by_name<F: FnMut(&str) -> bool>(predicate: F) -> spec_fn(
    NodeView,
    Result<bool, Error>,
) -> bool {
    |node: NodeView, r: Result<bool, Error>|
        r matches Ok(answer) && name_answers(predicate)(node.name, answer)
}

/// The answers that a predicate can give for the parts of a split name.
pub open spec fn split_name_answers<F: FnMut(&str, Option<&str>) -> bool>(
    predicate: F,
    node_name: Seq<char>,
    unit_address: Option<Seq<char>>,
    answer: bool,
) -> bool {
    exists|s: &str, t: Option<&str>|
        s@ == node_name && optional_chars(t) == unit_address && #[trigger] call_ensures(
            predicate,
            (s, t),
            answer,
        )
}

/// Whether a node name splits into these parts.
pub open spec fn splits_into(name: Seq<char>, s: &str, t: Option<&str>) -> bool {
    split_name(name) == Ok::<(Seq<char>, Option<Seq<char>>), Error>((s@, optional_chars(t)))
}

/// The results that testing the split name of a node with a predicate can have.
pub open spec fn by_split_name<F: FnMut(&str, Option<&str>) -> bool>(predicate: F) -> spec_fn(
    NodeView,
    Result<bool, Error>,
) -> bool {
    |node: NodeView, r: Result<bool, Error>|
        match split_name(node.name) {
            Ok((node_name, unit_address)) => r matches Ok(answer) && split_name_answers(
                predicate,
                node_name,
                unit_address,
                answer,
            ),
            Err(err) => r == Err::<bool, Error>(err),
        }
}

/// One step of a search: a child that does not pass leaves the search to what
/// follows it.
proof fn lemma_finds_step(
    items: ItemsView,
    test: spec_fn(NodeView, Result<bool, Error>) -> bool,
    r: Result<Option<NodeView>, Error>,
    end: ItemsView,
)
    ensures
        match items.next_child() {
            (Ok(Some(node)), rest) => {
                &&& test(node, Ok(true)) ==> items.finds(test, Ok(Some(node)), rest)
                &&& forall|err: Error| #[trigger]
                    test(node, Err(err)) ==> items.finds(test, Err(err), rest)
                &&& test(node, Ok(false)) && rest.finds(test, r, end) ==> items.finds(test, r, end)
            },
            (Ok(None), rest) => items.finds(test, Ok(None), rest),
            (Err(err), rest) => items.finds(test, Err(err), rest),
        },
{
    lemma_next_child_advances(items);
}

/// An iterator over the child [`Node`]s contained in a node.
///
/// This is currently not any more efficient than filtering the [`Items`]
/// manually.
///
/// Fused (see [`core::iter::FusedIterator`]).
#[derive(Clone, Copy, Debug)]
#[must_use]
pub struct Children<'dtb>(Items<'dtb>);

impl<'dtb> View for Children<'dtb> {
    type V = ItemsView;

    closed spec fn view(&self) -> ItemsView {
        self.0@
    }
}

impl<'dtb> Children<'dtb> {
    /// Creates an iterator over the child [`Node`]s contained in a node.
    ///
    /// The cursor has to be inside the node.
    pub fn new(node: &Node<'dtb>, cursor: Cursor) -> (r: Self)
        requires
            node@.contents.offset <= cursor.offset,
            node@.contents.depth <= cursor.depth,
        ensures
            r@ == items_of(node@).at(cursor),
    {
        Children(Items::new(node, cursor))
    }

    /// The cursor has to be inside the node.
    pub fn set_cursor(&mut self, cursor: Cursor)
        requires
            old(self)@.at_depth <= cursor.depth,
        ensures
            final(self)@ == old(self)@.at(cursor),
    {
        self.0.set_cursor(cursor);
    }

    /// A cursor pointing to the next [`Token`] after this node. Most expensive
    /// to determine if this iterator has not been advanced very much.
    pub fn end_cursor(self) -> (r: Result<Cursor, Error>)
        ensures
            r == self@.end(),
    {
        self.0.end_cursor()
    }

    /// Advances the iterator and passes the next node to the given closure.
    ///
    /// The closure's second return value is a cursor pointing to the next token
    /// after the current node.
    pub fn walk_next<T>(&mut self, f: impl FnOnce(Node<'dtb>) -> Result<(T, Cursor), Error>) -> (r:
        Result<Option<T>, Error>)
        requires
            forall|node: Node<'dtb>|
                old(self)@.next_child().0 == Ok::<Option<NodeView>, Error>(Some(node@))
                    ==> #[trigger] call_requires(f, (node,)),
            forall|node: Node<'dtb>, value: T, cursor: Cursor|
                old(self)@.next_child().0 == Ok::<Option<NodeView>, Error>(Some(node@))
                    && #[trigger] call_ensures(f, (node,), Ok((value, cursor)))
                    ==> old(self)@.at_depth <= cursor.depth,
        ensures
            match old(self)@.next_child() {
                (Err(err), rest) => r == Err::<Option<T>, Error>(err) && final(self)@ == rest,
                (Ok(None), rest) => r == Ok::<Option<T>, Error>(None) && final(self)@ == rest,
                (Ok(Some(child)), rest) => exists|
                    node: Node<'dtb>,
                    result: Result<(T, Cursor), Error>,
                |
                    {
                        &&& node@ == child
                        &&& #[trigger] call_ensures(f, (node,), result)
                        &&& match result {
                            Ok((value, cursor)) => {
                                &&& r == Ok::<Option<T>, Error>(Some(value))
                                &&& final(self)@ == rest.at(cursor)
                            },
                            Err(err) => {
                                &&& r == Err::<Option<T>, Error>(err)
                                &&& final(self)@ == rest
                            },
                        }
                    },
            },
    {
        proof {
            lemma_next_child_advances(self@);
        }
        let child = match self.next() {
            Ok(Some(child)) => child,
            Ok(None) => return Ok(None),
            Err(err) => return Err(err),
        };
        match f(child) {
            Ok((value, cursor)) => {
                self.0.set_cursor(cursor);
                Ok(Some(value))
            },
            Err(err) => Err(err),
        }
    }

    /// Searches for a node whose name satisfies the predicate.
    pub fn find_by_name(&mut self, predicate: impl FnMut(&str) -> bool) -> (r: Result<
        Option<Node<'dtb>>,
        Error,
    >)
        requires
            forall|s: &str, node: NodeView|
                #![trigger call_requires(predicate, (s,)), old(self)@.tests(
                    by_name(predicate),
                    node,
                )]
                old(self)@.tests(by_name(predicate), node) && s@ == node.name ==> call_requires(
                    predicate,
                    (s,),
                ),
        ensures
            old(self)@.finds(by_name(predicate), node_result(r), final(self)@),
    {
        let ghost test = by_name(predicate);
        let mut ask = predicate;
        loop
            invariant
                ask == predicate,
                test == by_name(predicate),
                forall|s: &str, node: NodeView|
                    #![trigger call_requires(predicate, (s,)), old(self)@.tests(test, node)]
                    old(self)@.tests(test, node) && s@ == node.name ==> call_requires(
                        predicate,
                        (s,),
                    ),
                forall|node: NodeView| #[trigger]
                    self@.tests(test, node) ==> old(self)@.tests(test, node),
                forall|r: Result<Option<NodeView>, Error>, end: ItemsView| #[trigger]
                    self@.finds(test, r, end) ==> old(self)@.finds(test, r, end),
            decreases self@.bytes_left(),
        {
            let ghost before = self@;
            proof {
                lemma_next_child_advances(before);
                lemma_finds_step(before, test, Ok(None), before);
            }
            let node = match self.next() {
                Ok(Some(node)) => node,
                Ok(None) => return Ok(None),
                Err(err) => return Err(err),
            };
            assert(before.tests(test, node@));
            let answer = ask(node.name());
            assert(test(node@, Ok(answer)));
            if answer {
                return Ok(Some(node));
            }
            assert forall|node: NodeView| #[trigger] self@.tests(test, node) implies old(
                self,
            )@.tests(test, node) by {
                assert(before.tests(test, node));
            }
            assert forall|r: Result<Option<NodeView>, Error>, end: ItemsView| #[trigger]
                self@.finds(test, r, end) implies old(self)@.finds(test, r, end) by {
                lemma_finds_step(before, test, r, end);
            }
        }
    }

    /// Searches for a node whose split name satisfies the predicate.
    pub fn find_by_split_name(
        &mut self,
        predicate: impl FnMut(&str, Option<&str>) -> bool,
    ) -> (r: Result<Option<Node<'dtb>>, Error>)
        requires
            forall|s: &str, t: Option<&str>, node: NodeView|
                #![trigger call_requires(predicate, (s, t)), old(self)@.tests(
                    by_split_name(predicate),
                    node,
                )]
                old(self)@.tests(by_split_name(predicate), node) && splits_into(node.name, s, t)
                    ==> call_requires(predicate, (s, t)),
        ensures
            old(self)@.finds(by_split_name(predicate), node_result(r), final(self)@),
    {
        let mut filter = self.filter_by_split_name(predicate);
        filter.next()
    }

    /// Creates an iterator which uses a closure to determine if a node should
    /// be yielded. The predicate takes the node's split name as input.
    pub fn filter_by_split_name<'a, F: FnMut(&str, Option<&str>) -> bool>(
        &'a mut self,
        predicate: F,
    ) -> (r: FilterBySplitName<'a, 'dtb, F>)
        ensures
            r.predicate == predicate,
            *r.children == *old(self),
            *final(self) == *final(r.children),
    {
        FilterBySplitName { children: self, predicate }
    }
}

/// Searches for a child whose split name satisfies the predicate.
fn find_child_by_split_name<'dtb, F: FnMut(&str, Option<&str>) -> bool>(
    children: &mut Children<'dtb>,
    predicate: &mut F,
) -> (r: Result<Option<Node<'dtb>>, Error>)
    requires
        forall|s: &str, t: Option<&str>, node: NodeView|
            #![trigger call_requires(*old(predicate), (s, t)), old(children)@.tests(
                by_split_name(*old(predicate)),
                node,
            )]
            old(children)@.tests(by_split_name(*old(predicate)), node) && splits_into(
                node.name,
                s,
                t,
            ) ==> call_requires(*old(predicate), (s, t)),
    ensures
        old(children)@.finds(by_split_name(*old(predicate)), node_result(r), final(children)@),
        *final(predicate) == *old(predicate),
{
    let ghost test = by_split_name(*predicate);
    loop
        invariant
            *predicate == *old(predicate),
            test == by_split_name(*old(predicate)),
            forall|s: &str, t: Option<&str>, node: NodeView|
                #![trigger call_requires(*old(predicate), (s, t)), old(children)@.tests(test, node)]
                old(children)@.tests(test, node) && splits_into(node.name, s, t) ==> call_requires(
                    *old(predicate),
                    (s, t),
                ),
            forall|node: NodeView| #[trigger]
                children@.tests(test, node) ==> old(children)@.tests(test, node),
            forall|r: Result<Option<NodeView>, Error>, end: ItemsView| #[trigger]
                children@.finds(test, r, end) ==> old(children)@.finds(test, r, end),
        decreases children@.bytes_left(),
    {
        let ghost before = children@;
        proof {
            lemma_next_child_advances(before);
            lemma_finds_step(before, test, Ok(None), before);
        }
        let node = match children.next() {
            Ok(Some(node)) => node,
            Ok(None) => return Ok(None),
            Err(err) => return Err(err),
        };
        let (node_name, unit_address) = match node.split_name() {
            Ok(parts) => parts,
            Err(err) => {
                assert(test(node@, Err(err)));
                return Err(err);
            },
        };
        assert(before.tests(test, node@));
        let answer = predicate(node_name, unit_address);
        assert(test(node@, Ok(answer)));
        if answer {
            return Ok(Some(node));
        }
        assert forall|node: NodeView| #[trigger] children@.tests(test, node) implies old(
            children,
        )@.tests(test, node) by {
            assert(before.tests(test, node));
        }
        assert forall|r: Result<Option<NodeView>, Error>, end: ItemsView| #[trigger]
            children@.finds(test, r, end) implies old(children)@.finds(test, r, end) by {
            lemma_finds_step(before, test, r, end);
        }
    }
}

impl<'dtb> FallibleIterator for Children<'dtb> {
    type Item = Node<'dtb>;

    type Error = Error;

    fn next(&mut self) -> (r: Result<Option<Node<'dtb>>, Error>)
        ensures
            node_result(r) == old(self)@.next_child().0,
            final(self)@ == old(self)@.next_child().1,
    {
        loop
            invariant
                self@.next_child() == old(self)@.next_child(),
            decreases self@.bytes_left(),
        {
            proof {
                lemma_next_advances(self@);
            }
            match self.0.next() {
                Ok(Some(Item::Child(node))) => return Ok(Some(node)),
                Ok(Some(Item::Property(_))) => {},
                Ok(None) => return Ok(None),
                Err(err) => return Err(err),
            }
        }
    }
}

/// An iterator over the child [`Node`]s whose split name satisfies a predicate.
/// Obtained from [`Children::filter_by_split_name`].
#[must_use]
pub struct FilterBySplitName<'a, 'dtb, F> {
    /// The children to choose from.
    pub children: &'a mut Children<'dtb>,
    /// Which children to yield.
    pub predicate: F,
}

impl<'a, 'dtb, F: FnMut(&str, Option<&str>) -> bool> FallibleIterator for FilterBySplitName<
    'a,
    'dtb,
    F,
> {
    type Item = Node<'dtb>;

    type Error = Error;

    fn next(&mut self) -> (r: Result<Option<Node<'dtb>>, Error>)
        requires
            forall|s: &str, t: Option<&str>, node: NodeView|
                #![trigger call_requires(old(self).predicate, (s, t)), old(self).children@.tests(
                    by_split_name(old(self).predicate),
                    node,
                )]
                old(self).children@.tests(by_split_name(old(self).predicate), node) && splits_into(
                    node.name,
                    s,
                    t,
                ) ==> call_requires(old(self).predicate, (s, t)),
        ensures
            old(self).children@.finds(
                by_split_name(old(self).predicate),
                node_result(r),
                final(self).children@,
            ),
            final(self).predicate == old(self).predicate,
            *final(final(self).children) == *final(old(self).children),
    {
        find_child_by_split_name(self.children, &mut self.predicate)
    }
}

// ---------------------------------------------------------------------------
// Named ranges
// ---------------------------------------------------------------------------

/// What a non-empty range stands for.
pub struct NamedRangeView {
    /// The node name that all nodes of the range have.
    pub name: Seq<char>,
    /// Where the token of the first node is.
    pub first: Cursor,
    /// Number of nodes.
    pub len: u32,
}

impl NamedRangeView {
    /// The range that spans a single node.
    pub open spec fn single(node: NodeView) -> Result<NamedRangeView, Error> {
        match split_name(node.name) {
            Ok((name, _)) => Ok(NamedRangeView { name, first: node.start, len: 1 }),
            Err(err) => Err(err),
        }
    }

    /// The range with one more node.
    pub open spec fn grown(self) -> NamedRangeView {
        NamedRangeView { len: (self.len + 1) as u32, ..self }
    }
}

/// The range with a node behind its last one.
pub open spec fn range_push(range: Option<NamedRangeView>, node: NodeView) -> Result<
    Option<NamedRangeView>,
    Error,
> {
    match range {
        Some(range) => Ok(Some(range.grown())),
        None => match NamedRangeView::single(node) {
            Ok(range) => Ok(Some(range)),
            Err(err) => Err(err),
        },
    }
}

/// Whether two ranges of the same devicetree are the same.
pub open spec fn same_range(a: Option<NamedRangeView>, b: Option<NamedRangeView>) -> bool {
    match (a, b) {
        (Some(a), Some(b)) => a.first.offset == b.first.offset && a.len == b.len,
        (None, None) => true,
        _ => false,
    }
}

/// What of a range goes to a hasher: the name, the first offset and the length.
pub open spec fn hashed_parts(range: Option<NamedRangeView>) -> Option<(Seq<char>, u32, u32)> {
    match range {
        Some(range) => Some((range.name, range.first.offset, range.len)),
        None => None,
    }
}

/// A range over all the child nodes with the same name, represented by cursors
/// to them.
///
/// Do not compare cursor ranges from different devicetrees.
/// Empty ranges do not belong to any node name/devicetree.
#[derive(Clone, Copy, Debug, Eq)]
pub struct NamedRange<'dtb>(Option<(&'dtb str, BaseRange)>);

impl<'dtb> View for NamedRange<'dtb> {
    type V = Option<NamedRangeView>;

    closed spec fn view(&self) -> Option<NamedRangeView> {
        match self.0 {
            Some((name, base)) => Some(
                NamedRangeView {
                    name: name@,
                    first: Cursor { depth: base.depth, offset: base.first_offset },
                    len: base.len,
                },
            ),
            None => None,
        }
    }
}

impl<'dtb> PartialEq for NamedRange<'dtb> {
    fn eq(&self, other: &Self) -> (r: bool) {
        if let (Some((_, base0)), Some((_, base1))) = (self.0, other.0) {
            base0.first_offset == base1.first_offset && base0.len == base1.len
        } else {
            self.is_empty() == other.is_empty()
        }
    }
}

impl<'dtb> vstd::std_specs::cmp::PartialEqSpecImpl for NamedRange<'dtb> {
    open spec fn obeys_eq_spec() -> bool {
        true
    }

    open spec fn eq_spec(&self, other: &Self) -> bool {
        same_range(self@, other@)
    }
}

/// The name goes to the hasher, if there is one, and then the first offset and
/// the length. The depth has no influence.
impl<'dtb> Hash for NamedRange<'dtb> {
    fn hash<H: Hasher>(&self, state: &mut H)
        ensures
            match hashed_parts(self@) {
                None => exists|name: Option<&str>, a: &mut H|
                    {
                        &&& optional_chars(name) is None
                        &&& *a == *old(state)
                        &&& *final(a) == *final(state)
                        &&& #[trigger] feeds_name(name, a)
                    },
                Some((chars, offset, len)) => exists|
                    name: Option<&str>,
                    a: &mut H,
                    b: &mut H,
                    c: &mut H,
                |
                    {
                        &&& optional_chars(name) == Some(chars)
                        &&& *a == *old(state)
                        &&& *b == *final(a)
                        &&& *c == *final(b)
                        &&& *final(c) == *final(state)
                        &&& #[trigger] feeds_name(name, a)
                        &&& #[trigger] feeds_number(offset, b)
                        &&& #[trigger] feeds_number(len, c)
                    },
            },
    {
        match self.0 {
            Some((name, base)) => {
                let ghost (chars, offset, len) = hashed_parts(self@)->0;
                assert(base.hashed().0 == offset && base.hashed().1 == len);
                assert(optional_chars(Some(name)) == Some(chars));
                feed_name(Some(name), state);
                base.hash(state);
            },
            None => feed_name(None, state),
        }
    }
}

impl<'dtb, C: ?Sized> PushDeserializedNode<'dtb, C> for NamedRange<'dtb> {
    type Node = Node<'dtb>;

    open spec fn can_push(&self, node: Node<'dtb>) -> bool {
        self@ matches Some(range) ==> range.len < u32::MAX && node@.start.depth
            == range.first.depth
    }

    open spec fn pushed(&self, node: Node<'dtb>, r: Result<(), Error>, after: &Self) -> bool {
        match range_push(self@, node@) {
            Ok(range) => r is Ok && after@ == range,
            Err(err) => r == Err::<(), Error>(err) && after@ == self@,
        }
    }

    fn push_node(&mut self, node: Node<'dtb>, _cx: NodeContext<'_, C>) -> (r: Result<(), Error>) {
        match self.0 {
            Some((name, base)) => {
                self.0 = Some((name, BaseRange { len: base.len + 1, ..base }));
                Ok(())
            },
            None => match NamedRange::new_single(node) {
                Ok(single) => {
                    *self = single;
                    Ok(())
                },
                Err(err) => Err(err),
            },
        }
    }
}

impl<'dtb> Default for NamedRange<'dtb> {
    fn default() -> (r: Self)
        ensures
            r@ is None,
    {
        NamedRange::empty()
    }
}

impl<'dtb> NamedRange<'dtb> {
    #[verifier::type_invariant]
    spec fn inv(&self) -> bool {
        self@ matches Some(range) ==> range.len >= 1
    }

    /// Default empty range.
    pub fn empty() -> (r: Self)
        ensures
            r@ is None,
    {
        NamedRange(None)
    }

    /// Creates a new range spanning a single node.
    pub fn new_single(node: Node<'dtb>) -> (r: Result<Self, Error>)
        ensures
            match NamedRangeView::single(node@) {
                Ok(range) => r matches Ok(single) && single@ == Some(range),
                Err(err) => r == Err::<Self, Error>(err),
            },
    {
        let cursor = node.start_cursor();
        match node.split_name() {
            Ok((name, _)) => {
                let Cursor { depth, offset } = cursor;
                Ok(NamedRange(Some((name, BaseRange { depth, first_offset: offset, len: 1 }))))
            },
            Err(err) => Err(err),
        }
    }

    /// Cursor pointing to the first node's [`Token`].
    pub fn first(self) -> (r: Option<Cursor>)
        ensures
            match self@ {
                Some(range) => r == Some(range.first),
                None => r is None,
            },
    {
        match self.0 {
            Some((_, base)) => Some(base.first()),
            None => None,
        }
    }

    /// Number of nodes in the range.
    pub fn len(self) -> (r: usize)
        ensures
            match self@ {
                Some(range) => r == range.len && r > 0,
                None => r == 0,
            },
    {
        proof {
            use_type_invariant(&self);
        }
        match self.0 {
            Some((_, base)) => base.len as usize,
            None => 0,
        }
    }

    /// Whether there are no nodes in the range.
    pub fn is_empty(self) -> (r: bool)
        ensures
            r == (self@ is None),
    {
        self.0.is_none()
    }

    /// All nodes of the range, which are in `dt`.
    pub fn nodes(self, dt: &'dtb Devicetree) -> (r: Result<Vec<Node<'dtb>>, Error>)
        ensures
            match range_nodes(range_iter(self@, dt@)) {
                Ok(nodes) => r matches Ok(v) && v@.map_values(|node: Node<'dtb>| node@) == nodes,
                Err(err) => r == Err::<Vec<Node<'dtb>>, Error>(err),
            },
    {
        let mut iter = self.iter(dt);
        let mut v: Vec<Node<'dtb>> = Vec::new();
        loop
            invariant
                range_nodes(range_iter(self@, dt@)) == with_nodes(
                    v@.map_values(|node: Node<'dtb>| node@),
                    iter@,
                ),
            decreases nodes_left(iter@),
        {
            proof {
                use_type_invariant(&iter);
            }
            let (low, high) = iter.size_hint();
            assert(low == nodes_left(iter@) && high == Some(low));
            let ghost read = v@.map_values(|node: Node<'dtb>| node@);
            match iter.next() {
                Ok(Some(node)) => {
                    v.push(node);
                    proof {
                        let now = v@.map_values(|node: Node<'dtb>| node@);
                        assert(now == read.push(node@));
                        if let Ok(behind) = range_nodes(iter@) {
                            assert(read + (seq![node@] + behind) == now + behind);
                        }
                    }
                },
                Ok(None) => {
                    assert(read + Seq::<NodeView>::empty() == read);
                    return Ok(v);
                },
                Err(err) => return Err(err),
            }
        }
    }

    /// An iterator over the nodes of the range, which are in `dt`.
    pub fn iter(self, dt: &'dtb Devicetree) -> (r: NamedRangeIter<'dtb>)
        ensures
            r@ == range_iter(self@, dt@),
    {
        proof {
            use_type_invariant(&self);
        }
        match self.0 {
            Some((filter_name, base)) => NamedRangeIter(
                Some(
                    NamedRangeIterInner {
                        children: base.to_children(dt),
                        filter_name,
                        len: base.len,
                    },
                ),
            ),
            None => NamedRangeIter(None),
        }
    }
}

#[derive(Clone, Copy, Debug, PartialEq, Eq)]
struct BaseRange {
    depth: u32,
    first_offset: u32,
    len: u32,
}

/// Calls `<u32 as Hash>::hash`, which feeds a number to a hasher. Trusted:
/// nothing. What the hasher then holds is left unsaid.
#[verifier::external_body]
fn hash_number<H: Hasher>(x: u32, state: &mut H) {
    x.hash(state)
}

/// Calls `<Option<&str> as Hash>::hash`, which feeds an optional string to a
/// hasher. Trusted: nothing. What the hasher then holds is left unsaid.
#[verifier::external_body]
fn hash_name<H: Hasher>(name: Option<&str>, state: &mut H) {
    name.hash(state)
}

/// Whether a number goes to the hasher, in the way that
/// `<u32 as Hash>::hash` feeds it.
pub closed spec fn feeds_number<H: Hasher>(x: u32, state: &mut H) -> bool {
    call_ensures(hash_number::<H>, (x, state), ())
}

/// Whether an optional string goes to the hasher, in the way that
/// `<Option<&str> as Hash>::hash` feeds it.
pub closed spec fn feeds_name<H: Hasher>(name: Option<&str>, state: &mut H) -> bool {
    call_ensures(hash_name::<H>, (name, state), ())
}

/// Calls a function that feeds a value to a hasher.
fn feed<T, H>(f: impl Fn(T, &mut H), x: T, state: &mut H)
    requires
        forall|c: &mut H| #[trigger] call_requires(f, (x, c)),
    ensures
        exists|c: &mut H|
            {
                &&& *c == *old(state)
                &&& *final(c) == *final(state)
                &&& #[trigger] call_ensures(f, (x, c), ())
            },
{
    f(x, state)
}

/// Feeds a number to a hasher.
fn feed_number<H: Hasher>(x: u32, state: &mut H)
    ensures
        exists|c: &mut H|
            {
                &&& *c == *old(state)
                &&& *final(c) == *final(state)
                &&& #[trigger] feeds_number(x, c)
            },
{
    assert(forall|c: &mut H| #[trigger]
        call_ensures(hash_number::<H>, (x, c), ()) ==> feeds_number(x, c));
    feed(hash_number::<H>, x, state)
}

/// Feeds an optional string to a hasher.
fn feed_name<H: Hasher>(name: Option<&str>, state: &mut H)
    ensures
        exists|c: &mut H|
            {
                &&& *c == *old(state)
                &&& *final(c) == *final(state)
                &&& #[trigger] feeds_name(name, c)
            },
{
    assert(forall|c: &mut H| #[trigger]
        call_ensures(hash_name::<H>, (name, c), ()) ==> feeds_name(name, c));
    feed(hash_name::<H>, name, state)
}

/// The first offset and then the length go to the hasher. The depth has no
/// influence.
impl Hash for BaseRange {
    fn hash<H: Hasher>(&self, state: &mut H)
        ensures
            exists|a: &mut H, b: &mut H|
                {
                    &&& *a == *old(state)
                    &&& *b == *final(a)
                    &&& *final(b) == *final(state)
                    &&& #[trigger] feeds_number(self.hashed().0, a)
                    &&& #[trigger] feeds_number(self.hashed().1, b)
                },
    {
        assert(self.hashed().0 == self.first_offset && self.hashed().1 == self.len);
        feed_number(self.first_offset, state);
        feed_number(self.len, state);
    }
}

impl BaseRange {
    /// What goes to a hasher.
    pub closed spec fn hashed(&self) -> (u32, u32) {
        (self.first_offset, self.len)
    }

    fn first(self) -> (r: Cursor)
        ensures
            r == (Cursor { depth: self.depth, offset: self.first_offset }),
    {
        Cursor { depth: self.depth, offset: self.first_offset }
    }

    fn to_children(self, dt: &Devicetree) -> (r: Children<'_>)
        ensures
            r@ == (ItemsView {
                dt: dt@,
                at_depth: self.depth,
                cursor: Cursor { depth: self.depth, offset: self.first_offset },
            }),
    {
        Children(
            Items {
                dt,
                at_depth: self.depth,
                cursor: Cursor { depth: self.depth, offset: self.first_offset },
            },
        )
    }
}

/// A position in a range.
pub struct NamedRangeIterView {
    /// The position among the children of the parent.
    pub children: ItemsView,
    /// The node name that the nodes have.
    pub name: Seq<char>,
    /// Number of nodes that are left.
    pub len: u32,
}

/// The start of a range.
pub open spec fn range_iter(range: Option<NamedRangeView>, dt: DevicetreeView) -> Option<
    NamedRangeIterView,
> {
    match range {
        Some(range) => Some(
            NamedRangeIterView {
                children: ItemsView { dt, at_depth: range.first.depth, cursor: range.first },
                name: range.name,
                len: range.len,
            },
        ),
        None => None,
    }
}

/// The next node of a range, and the position behind it. Behind the last node
/// there is no position.
pub open spec fn next_in_range(iter: Option<NamedRangeIterView>) -> (
    Result<Option<NodeView>, Error>,
    Option<NamedRangeIterView>,
) {
    match iter {
        None => (Ok(None), None),
        Some(inner) => {
            let (r, children) = inner.children.find_named(inner.name);
            if inner.len <= 1 {
                (r, None)
            } else {
                (r, Some(NamedRangeIterView { children, len: (inner.len - 1) as u32, ..inner }))
            }
        },
    }
}

/// Number of nodes that are left in a range.
pub open spec fn nodes_left(iter: Option<NamedRangeIterView>) -> nat {
    match iter {
        Some(inner) => inner.len as nat,
        None => 0,
    }
}

/// The nodes of a range, up to where there are no more of them.
pub open spec fn range_nodes(iter: Option<NamedRangeIterView>) -> Result<Seq<NodeView>, Error>
    decreases nodes_left(iter),
{
    match next_in_range(iter) {
        (Err(err), _) => Err(err),
        (Ok(None), _) => Ok(Seq::empty()),
        (Ok(Some(node)), rest) => if nodes_left(rest) < nodes_left(iter) {
            match range_nodes(rest) {
                Ok(nodes) => Ok(seq![node] + nodes),
                Err(err) => Err(err),
            }
        } else {
            Ok(seq![node])
        },
    }
}

/// The nodes that were already read, followed by those that are left.
spec fn with_nodes(read: Seq<NodeView>, iter: Option<NamedRangeIterView>) -> Result<
    Seq<NodeView>,
    Error,
> {
    match range_nodes(iter) {
        Ok(nodes) => Ok(read + nodes),
        Err(err) => Err(err),
    }
}

/// Iterator over the [`Node`]s in a named range.
/// Obtained from [`NamedRange::iter`].
#[derive(Clone, Copy, Debug)]
#[must_use]
pub struct NamedRangeIter<'dtb>(Option<NamedRangeIterInner<'dtb>>);

#[derive(Clone, Copy, Debug)]
struct NamedRangeIterInner<'dtb> {
    children: Children<'dtb>,
    filter_name: &'dtb str,
    len: u32,
}

impl<'dtb> View for NamedRangeIter<'dtb> {
    type V = Option<NamedRangeIterView>;

    closed spec fn view(&self) -> Option<NamedRangeIterView> {
        match self.0 {
            Some(inner) => Some(
                NamedRangeIterView {
                    children: inner.children@,
                    name: inner.filter_name@,
                    len: inner.len,
                },
            ),
            None => None,
        }
    }
}

impl<'dtb> Default for NamedRangeIter<'dtb> {
    fn default() -> (r: Self)
        ensures
            r@ is None,
    {
        NamedRangeIter::empty()
    }
}

impl<'dtb> NamedRangeIter<'dtb> {
    #[verifier::type_invariant]
    spec fn inv(&self) -> bool {
        self@ matches Some(inner) ==> inner.len >= 1
    }

    /// Default empty iterator.
    pub fn empty() -> (r: Self)
        ensures
            r@ is None,
    {
        NamedRangeIter(None)
    }

    /// Number of nodes that are left.
    pub fn remaining_len(&self) -> (r: u32)
        ensures
            match self@ {
                Some(inner) => r == inner.len && r > 0,
                None => r == 0,
            },
    {
        proof {
            use_type_invariant(self);
        }
        match &self.0 {
            Some(inner) => inner.len,
            None => 0,
        }
    }
}

impl<'dtb> FallibleIterator for NamedRangeIter<'dtb> {
    type Item = Node<'dtb>;

    type Error = Error;

    fn next(&mut self) -> (r: Result<Option<Node<'dtb>>, Error>)
        ensures
            node_result(r) == next_in_range(old(self)@).0,
            final(self)@ == next_in_range(old(self)@).1,
    {
        proof {
            use_type_invariant(&*self);
        }
        let mut inner = match self.0 {
            Some(inner) => inner,
            None => return Ok(None),
        };
        inner.len = inner.len - 1;
        let res = find_child_named(&mut inner.children, inner.filter_name);
        if inner.len == 0 {
            *self = NamedRangeIter::empty();
        } else {
            self.0 = Some(inner);
        }
        res
    }

    fn size_hint(&self) -> (r: (usize, Option<usize>))
        ensures
            match self@ {
                Some(inner) => r.0 == inner.len && r.1 == Some(r.0),
                None => r == (0usize, Some(0usize)),
            },
    {
        let len = self.remaining_len() as usize;
        (len, Some(len))
    }
}

/// Searches for the next child with a node name.
fn find_child_named<'dtb>(children: &mut Children<'dtb>, name: &str) -> (r: Result<
    Option<Node<'dtb>>,
    Error,
>)
    ensures
        node_result(r) == old(children)@.find_named(name@).0,
        final(children)@ == old(children)@.find_named(name@).1,
{
    loop
        invariant
            children@.find_named(name@) == old(children)@.find_named(name@),
        decreases children@.bytes_left(),
    {
        proof {
            lemma_next_child_advances(children@);
        }
        let node = match children.next() {
            Ok(Some(node)) => node,
            Ok(None) => return Ok(None),
            Err(err) => return Err(err),
        };
        match node.split_name() {
            Ok((node_name, _)) => {
                if str_eq(node_name, name) {
                    return Ok(Some(node));
                }
            },
            Err(err) => return Err(err),
        }
    }
}

} // verus!
