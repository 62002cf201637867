//! The blocks of a flattened devicetree and the tokens of its structure block.
use vstd::prelude::*;
use vstd::slice::slice_subrange;

use crate::node::{items_of, Items};
use crate::util::{self, are_words_of};
use crate::ReserveEntries;

verus! {

/// Errors caused by a malformed blob.
#[derive(Clone, Copy, Debug, PartialEq, Eq, Structural)]
#[non_exhaustive]
pub enum Error {
    /// A string lacks its terminator or is not ASCII.
    InvalidString,
    /// Nodes are nested deeper than a cursor can count.
    NestingTooDeep,
    /// A token does not start at a multiple of 4 bytes.
    UnalignedToken,
    /// A block ends within a token, or before the terminator of a list.
    UnexpectedEnd,
    /// A node is closed that was never opened.
    UnexpectedEndNodeToken,
    /// The structure block ends within a node.
    UnexpectedEndToken,
    /// A token has an unknown number.
    UnknownToken,
}

impl Error {
    /// The text that describes the error.
    pub open spec fn spec_message(self) -> Seq<char> {
        "devicetree blob error: "@ + match self {
            Error::InvalidString => "invalid string"@,
            Error::NestingTooDeep => "nesting too deep"@,
            Error::UnalignedToken => "unaligned token"@,
            Error::UnexpectedEnd => "unexpected end of block"@,
            Error::UnexpectedEndNodeToken => "unexpected end-node token"@,
            Error::UnexpectedEndToken => "unexpected end token"@,
            Error::UnknownToken => "unknown token"@,
        }
    }

    /// Describes the error in words.
    pub fn message(&self) -> (text: String)
        ensures
            text@ == self.spec_message(),
    {
        let description: &str = match self {
            Error::InvalidString => "invalid string",
            Error::NestingTooDeep => "nesting too deep",
            Error::UnalignedToken => "unaligned token",
            Error::UnexpectedEnd => "unexpected end of block",
            Error::UnexpectedEndNodeToken => "unexpected end-node token",
            Error::UnexpectedEndToken => "unexpected end token",
            Error::UnknownToken => "unknown token",
        };
        let mut text = "devicetree blob error: ".to_owned();
        text.append(description);
        text
    }
}

/// Number of the token that opens a node.
pub const BEGIN_NODE: u32 = 1;

/// Number of the token that closes a node.
pub const END_NODE: u32 = 2;

/// Number of the token of a property.
pub const PROP: u32 = 3;

/// Number of the token that is skipped.
pub const NOP: u32 = 4;

/// Number of the token that ends the structure block.
pub const END: u32 = 9;

/// A position in the structure block of a devicetree.
///
/// Do not mix up cursors from different devicetrees.
#[derive(Clone, Copy, Debug, Default, PartialEq, Eq, Structural, Hash)]
pub struct Cursor {
    /// Number of nodes that are open at this position.
    pub depth: u32,
    /// Offset from the start of the structure block, in bytes.
    pub offset: u32,
}

/// What the blocks of a devicetree hold.
pub struct DevicetreeView {
    /// The memory reservation block, as words in the byte order of the blob.
    pub reserve: Seq<u64>,
    /// The structure block.
    pub structure: Seq<u8>,
    /// The strings block.
    pub strings: Seq<u8>,
}

/// What a node token says.
pub struct NodeView {
    /// The devicetree that the node is part of.
    pub dt: DevicetreeView,
    /// The name, with the unit address.
    pub name: Seq<char>,
    /// Where the token of the node is.
    pub start: Cursor,
    /// Where the first token inside the node is.
    pub contents: Cursor,
}

/// What a property token says.
pub struct PropertyView {
    /// The name, or why it cannot be read.
    pub name: Result<Seq<char>, Error>,
    /// The value.
    pub value: Seq<u8>,
}

/// What a token says.
pub enum TokenView {
    /// A node starts.
    BeginNode(NodeView),
    /// The innermost open node ends.
    EndNode,
    /// A property of the innermost open node.
    Property(PropertyView),
}

/// What is contained in a node.
pub enum ItemView {
    /// A property of the node.
    Property(PropertyView),
    /// A child of the node.
    Child(NodeView),
}

impl TokenView {
    /// The item that the token stands for, if it stands for one.
    pub open spec fn into_item(self) -> Option<ItemView> {
        match self {
            TokenView::BeginNode(node) => Some(ItemView::Child(node)),
            TokenView::EndNode => None,
            TokenView::Property(prop) => Some(ItemView::Property(prop)),
        }
    }
}

/// The next multiple of 4.
pub open spec fn align(offset: int) -> int {
    (offset + 3) / 4 * 4
}

/// The name of a property whose name is at an offset in the strings block.
pub open spec fn property_name(strings: Seq<u8>, name_offset: int) -> Result<Seq<char>, Error> {
    if name_offset > strings.len() {
        Err(Error::UnexpectedEnd)
    } else {
        util::c_str(strings.skip(name_offset))
    }
}

impl DevicetreeView {
    /// Whether there is an end of a token at the offset, and a cursor can
    /// express it.
    pub open spec fn has_end(self, offset: int) -> bool {
        offset <= self.structure.len() && offset <= u32::MAX
    }

    /// The big-endian number at an offset in the structure block.
    pub open spec fn number_at(self, offset: int) -> nat {
        util::be_number(self.structure.subrange(offset, offset + 4))
    }

    /// The offset of the first token at or after `offset` that is not to be
    /// skipped.
    pub open spec fn skip_nops(self, offset: int) -> int
        decreases self.structure.len() - offset,
    {
        if 0 <= offset && self.has_end(offset + 4) && self.number_at(offset) == NOP {
            self.skip_nops(offset + 4)
        } else {
            offset
        }
    }

    /// The node whose token is at `at`, and the position behind that token.
    pub open spec fn node_at(self, depth: u32, at: int) -> Result<(NodeView, Cursor), Error> {
        match util::c_str(self.structure.skip(at + 4)) {
            Err(err) => Err(err),
            Ok(name) => {
                let end = align(at + 4 + name.len() + 1);
                if !self.has_end(end) {
                    Err(Error::UnexpectedEnd)
                } else if depth == u32::MAX {
                    Err(Error::NestingTooDeep)
                } else {
                    let contents = Cursor { depth: (depth + 1) as u32, offset: end as u32 };
                    let start = Cursor { depth, offset: at as u32 };
                    Ok((NodeView { dt: self, name, start, contents }, contents))
                }
            },
        }
    }

    /// The property whose token is at `at`, and the position behind that token.
    pub open spec fn property_at(self, depth: u32, at: int) -> Result<
        (PropertyView, Cursor),
        Error,
    > {
        if !self.has_end(at + 12) {
            Err(Error::UnexpectedEnd)
        } else {
            let len = self.number_at(at + 4);
            let name = property_name(self.strings, self.number_at(at + 8) as int);
            let end = align(at + 12 + len);
            if !self.has_end(end) {
                Err(Error::UnexpectedEnd)
            } else {
                let value = self.structure.subrange(at + 12, at + 12 + len);
                Ok((PropertyView { name, value }, Cursor { depth, offset: end as u32 }))
            }
        }
    }

    /// The token that a cursor points to, and the position behind that token;
    /// nothing at the end of the devicetree.
    pub open spec fn token_at(self, cursor: Cursor) -> Result<Option<(TokenView, Cursor)>, Error> {
        let at = self.skip_nops(cursor.offset as int);
        if cursor.offset % 4 != 0 {
            Err(Error::UnalignedToken)
        } else if !self.has_end(at + 4) {
            Err(Error::UnexpectedEnd)
        } else if self.number_at(at) == BEGIN_NODE {
            match self.node_at(cursor.depth, at) {
                Ok((node, next)) => Ok(Some((TokenView::BeginNode(node), next))),
                Err(err) => Err(err),
            }
        } else if self.number_at(at) == END_NODE {
            if cursor.depth == 0 {
                Err(Error::UnexpectedEndNodeToken)
            } else {
                let next = Cursor { depth: (cursor.depth - 1) as u32, offset: (at + 4) as u32 };
                Ok(Some((TokenView::EndNode, next)))
            }
        } else if self.number_at(at) == PROP {
            match self.property_at(cursor.depth, at) {
                Ok((prop, next)) => Ok(Some((TokenView::Property(prop), next))),
                Err(err) => Err(err),
            }
        } else if self.number_at(at) == END {
            if cursor.depth != 0 {
                Err(Error::UnexpectedEndToken)
            } else {
                Ok(None)
            }
        } else {
            Err(Error::UnknownToken)
        }
    }
}

/// Skipping goes forward, in steps of 4, within the structure block.
pub proof fn lemma_skip_nops(dt: DevicetreeView, offset: int)
    requires
        0 <= offset,
    ensures
        offset <= dt.skip_nops(offset),
        dt.skip_nops(offset) % 4 == offset % 4,
        dt.has_end(offset) ==> dt.has_end(dt.skip_nops(offset)),
    decreases dt.structure.len() - offset,
{
    if dt.has_end(offset + 4) && dt.number_at(offset) == NOP {
        lemma_skip_nops(dt, offset + 4);
    }
}

/// A string of bytes has no more characters than there are bytes in front of
/// its end.
pub proof fn lemma_c_str_len(bytes: Seq<u8>)
    ensures
        util::c_str(bytes) matches Ok(s) ==> s.len() < bytes.len() && s.len() == util::first_index(
            bytes,
            0u8,
        ),
{
    util::lemma_first_index(bytes, 0u8);
}

/// Each token moves the cursor forward within the structure block, to a
/// multiple of 4, and changes the depth as its kind says.
pub proof fn lemma_token_advances(dt: DevicetreeView, cursor: Cursor)
    ensures
        dt.token_at(cursor) matches Ok(Some((token, next))) ==> {
            &&& cursor.offset < next.offset <= dt.structure.len()
            &&& next.offset % 4 == 0
            &&& match token {
                TokenView::BeginNode(node) => {
                    &&& next.depth == cursor.depth + 1
                    &&& node.dt == dt
                    &&& node.contents == next
                    &&& node.start.depth == cursor.depth
                    &&& cursor.offset <= node.start.offset < next.offset
                },
                TokenView::EndNode => next.depth + 1 == cursor.depth,
                TokenView::Property(_) => next.depth == cursor.depth,
            }
        },
{
    lemma_skip_nops(dt, cursor.offset as int);
    let at = dt.skip_nops(cursor.offset as int);
    lemma_c_str_len(dt.structure.skip(at + 4));
}

/// The blocks of a flattened devicetree.
#[derive(Debug)]
pub struct Devicetree {
    reserve: Vec<u64>,
    structure: Vec<u8>,
    /// The structure block once more, as words in the byte order of the blob.
    words: Vec<u32>,
    strings: Vec<u8>,
}

impl View for Devicetree {
    type V = DevicetreeView;

    closed spec fn view(&self) -> DevicetreeView {
        DevicetreeView {
            reserve: self.reserve@,
            structure: self.structure@,
            strings: self.strings@,
        }
    }
}

impl Devicetree {
    #[verifier::type_invariant]
    spec fn inv(&self) -> bool {
        are_words_of(self.words@, self.structure@)
    }

    /// Creates a devicetree from its memory reservation block, whose words are
    /// in the byte order of the blob, its structure block and its strings block.
    pub fn new(reserve: Vec<u64>, structure: Vec<u8>, strings: Vec<u8>) -> (r: Devicetree)
        ensures
            r@ == (DevicetreeView {
                reserve: reserve@,
                structure: structure@,
                strings: strings@,
            }),
    {
        let len = structure.len();
        let count = len / 4;
        let mut words: Vec<u32> = Vec::new();
        for i in 0..count
            invariant
                len == structure@.len(),
                count == len / 4,
                words@.len() == i,
                forall|j: int|
                    0 <= j < i ==> #[trigger] words@[j] == util::native_number(
                        structure@.subrange(4 * j, 4 * j + 4),
                    ),
        {
            let bytes: [u8; 4] = [
                structure[4 * i],
                structure[4 * i + 1],
                structure[4 * i + 2],
                structure[4 * i + 3],
            ];
            assert(bytes@ == structure@.subrange(4 * i as int, 4 * i + 4));
            words.push(util::u32_from_ne_bytes(bytes));
        }
        Devicetree { reserve, structure, words, strings }
    }

    /// The entries of the memory reservation block.
    pub fn reserve_entries(&self) -> (r: ReserveEntries<'_>)
        ensures
            r@ == self@.reserve,
    {
        ReserveEntries::new(self.reserve.as_slice())
    }

    /// Reads the big-endian number at an offset in the structure block.
    fn read_number(&self, offset: usize) -> (r: u32)
        requires
            offset + 4 <= self@.structure.len(),
        ensures
            r == self@.number_at(offset as int),
    {
        let structure = self.structure.as_slice();
        let len = structure.len();
        util::u32_from_be_bytes(slice_subrange(structure, offset, offset + 4))
    }

    /// The token that the cursor points to. Moves the cursor behind it.
    ///
    /// Returns `Ok(None)` at the end of the devicetree. The cursor then stays
    /// where it is, and so it does if there is an error.
    pub fn next_token<'dtb>(&'dtb self, cursor: &mut Cursor) -> (r: Result<
        Option<Token<'dtb>>,
        Error,
    >)
        ensures
            match self@.token_at(*old(cursor)) {
                Ok(Some((token, next))) => {
                    &&& r matches Ok(Some(t)) && t@ == token
                    &&& *final(cursor) == next
                },
                Ok(None) => r == Ok::<Option<Token<'dtb>>, Error>(None) && *final(cursor) == *old(
                    cursor,
                ),
                Err(err) => r == Err::<Option<Token<'dtb>>, Error>(err) && *final(cursor) == *old(
                    cursor,
                ),
            },
    {
        let at = match self.find_token(*cursor) {
            Ok(at) => at,
            Err(err) => return Err(err),
        };
        proof {
            lemma_skip_nops(self@, cursor.offset as int);
        }
        let number = self.read_number(at);
        if number == BEGIN_NODE {
            let node = match self.read_node(cursor.depth, at) {
                Ok(node) => node,
                Err(err) => return Err(err),
            };
            *cursor = node.contents;
            Ok(Some(Token::BeginNode(node)))
        } else if number == END_NODE {
            if cursor.depth == 0 {
                return Err(Error::UnexpectedEndNodeToken);
            }
            *cursor = Cursor { depth: cursor.depth - 1, offset: (at + 4) as u32 };
            Ok(Some(Token::EndNode))
        } else if number == PROP {
            let (prop, next) = match self.read_property(cursor.depth, at) {
                Ok(r) => r,
                Err(err) => return Err(err),
            };
            *cursor = next;
            Ok(Some(Token::Property(prop)))
        } else if number == END {
            if cursor.depth != 0 {
                return Err(Error::UnexpectedEndToken);
            }
            Ok(None)
        } else {
            Err(Error::UnknownToken)
        }
    }

    /// The largest offset at which a token can end.
    fn limit(&self) -> (r: usize)
        ensures
            forall|offset: int| self@.has_end(offset) <==> offset <= r,
            r <= self@.structure.len(),
            r <= u32::MAX,
    {
        let len = self.structure.len();
        if len <= u32::MAX as usize {
            len
        } else {
            u32::MAX as usize
        }
    }

    /// Finds the token that the cursor points to.
    fn find_token(&self, cursor: Cursor) -> (r: Result<usize, Error>)
        ensures
            match r {
                Ok(at) => {
                    &&& cursor.offset % 4 == 0
                    &&& at == self@.skip_nops(cursor.offset as int)
                    &&& self@.has_end(at + 4)
                },
                Err(err) => if cursor.offset % 4 != 0 {
                    err == Error::UnalignedToken
                } else {
                    &&& err == Error::UnexpectedEnd
                    &&& !self@.has_end(self@.skip_nops(cursor.offset as int) + 4)
                },
            },
    {
        if cursor.offset % 4 != 0 {
            return Err(Error::UnalignedToken);
        }
        let limit = self.limit();
        let mut at = cursor.offset as usize;
        while limit >= 4 && at <= limit - 4 && self.read_number(at) == NOP
            invariant
                self@.skip_nops(at as int) == self@.skip_nops(cursor.offset as int),
                forall|offset: int| self@.has_end(offset) <==> offset <= limit,
                limit <= self@.structure.len(),
            decreases limit - at,
        {
            at = at + 4;
        }
        if limit >= 4 && at <= limit - 4 {
            Ok(at)
        } else {
            Err(Error::UnexpectedEnd)
        }
    }

    /// Reads the node whose token is at `at`.
    fn read_node<'dtb>(&'dtb self, depth: u32, at: usize) -> (r: Result<Node<'dtb>, Error>)
        requires
            self@.has_end(at + 4),
        ensures
            match self@.node_at(depth, at as int) {
                Ok((node, next)) => r matches Ok(n) && n@ == node && n.contents == next,
                Err(err) => r == Err::<Node<'dtb>, Error>(err),
            },
    {
        let limit = self.limit();
        let structure = self.structure.as_slice();
        let name = match util::get_c_str(slice_subrange(structure, at + 4, structure.len())) {
            Ok(name) => name,
            Err(err) => return Err(err),
        };
        let ghost rest = self@.structure.skip(at + 4);
        assert(structure@.subrange(at + 4, structure@.len() as int) == rest);
        proof {
            lemma_c_str_len(rest);
        }
        let name_len = name.unicode_len();
        if name_len > limit {
            return Err(Error::UnexpectedEnd);
        }
        let end: u64 = (at as u64 + 4 + name_len as u64 + 4) / 4 * 4;
        if end > limit as u64 {
            return Err(Error::UnexpectedEnd);
        }
        if depth == u32::MAX {
            return Err(Error::NestingTooDeep);
        }
        let start = Cursor { depth, offset: at as u32 };
        let contents = Cursor { depth: depth + 1, offset: end as u32 };
        Ok(Node { dt: self, name, start, contents })
    }

    /// Reads the property whose token is at `at`.
    fn read_property<'dtb>(&'dtb self, depth: u32, at: usize) -> (r: Result<
        (Property<'dtb>, Cursor),
        Error,
    >)
        requires
            self@.has_end(at + 4),
            at % 4 == 0,
        ensures
            match self@.property_at(depth, at as int) {
                Ok((prop, next)) => r matches Ok((p, n)) && p@ == prop && n == next,
                Err(err) => r == Err::<(Property<'dtb>, Cursor), Error>(err),
            },
    {
        let limit = self.limit();
        if limit < 12 || at > limit - 12 {
            return Err(Error::UnexpectedEnd);
        }
        let value_len = self.read_number(at + 4);
        let name_offset = self.read_number(at + 8);
        let end: u64 = (at as u64 + 12 + value_len as u64 + 3) / 4 * 4;
        if end > limit as u64 {
            return Err(Error::UnexpectedEnd);
        }
        let from = at + 12;
        let to = from + value_len as usize;
        let value = slice_subrange(self.structure.as_slice(), from, to);
        proof {
            use_type_invariant(self);
        }
        let first = from / 4;
        let words = slice_subrange(self.words.as_slice(), first, first + value_len as usize / 4);
        assert(are_words_of(words@, value@)) by {
            assert forall|i: int| 0 <= i < words@.len() implies #[trigger] words@[i]
                == util::native_number(value@.subrange(4 * i, 4 * i + 4)) by {
                let j = from / 4 + i;
                assert(words@[i] == self.words@[j]);
                assert(value@.subrange(4 * i, 4 * i + 4) == self.structure@.subrange(
                    4 * j,
                    4 * j + 4,
                ));
            }
        }
        let strings = self.strings.as_slice();
        Ok((Property { strings, name_offset, value, words }, Cursor { depth, offset: end as u32 }))
    }
}

/// A node of a devicetree.
#[derive(Clone, Copy, Debug)]
pub struct Node<'dtb> {
    /// The devicetree that the node is part of.
    pub dt: &'dtb Devicetree,
    /// The name, with the unit address.
    pub name: &'dtb str,
    /// Where the token of the node is.
    pub start: Cursor,
    /// Where the first token inside the node is.
    pub contents: Cursor,
}

impl<'dtb> View for Node<'dtb> {
    type V = NodeView;

    open spec fn view(&self) -> NodeView {
        NodeView {
            dt: self.dt@,
            name: self.name@,
            start: self.start,
            contents: self.contents,
        }
    }
}

impl<'dtb> Node<'dtb> {
    /// The name of the node, with the unit address.
    pub fn name(&self) -> (r: &'dtb str)
        ensures
            r@ == self@.name,
    {
        self.name
    }

    /// The name of the node, split around the `@` in front of the unit address.
    pub fn split_name(&self) -> (r: Result<(&'dtb str, Option<&'dtb str>), crate::Error>)
        ensures
            util::split_name_view(r) == util::split_name(self@.name),
    {
        util::split_node_name(self.name)
    }

    /// The items contained in the node.
    pub fn items(&self) -> (r: Items<'dtb>)
        ensures
            r@ == items_of(self@),
    {
        Items::new(self, self.contents)
    }

    /// Cursor pointing to the token of this node.
    pub fn start_cursor(&self) -> (r: Cursor)
        ensures
            r == self@.start,
    {
        self.start
    }

    /// Cursor pointing to the next token after this node.
    pub fn end_cursor(&self) -> (r: Result<Cursor, crate::Error>)
        ensures
            r == items_of(self@).end(),
    {
        self.items().end_cursor()
    }
}

/// A property of a node.
#[derive(Clone, Copy, Debug)]
pub struct Property<'dtb> {
    strings: &'dtb [u8],
    name_offset: u32,
    value: &'dtb [u8],
    words: &'dtb [u32],
}

impl<'dtb> View for Property<'dtb> {
    type V = PropertyView;

    closed spec fn view(&self) -> PropertyView {
        PropertyView {
            name: property_name(self.strings@, self.name_offset as int),
            value: self.value@,
        }
    }
}

/// A token of the structure block.
#[derive(Clone, Copy, Debug)]
pub enum Token<'dtb> {
    /// A node starts.
    BeginNode(Node<'dtb>),
    /// The innermost open node ends.
    EndNode,
    /// A property of the innermost open node.
    Property(Property<'dtb>),
}

impl<'dtb> View for Token<'dtb> {
    type V = TokenView;

    open spec fn view(&self) -> TokenView {
        match self {
            Token::BeginNode(node) => TokenView::BeginNode(node@),
            Token::EndNode => TokenView::EndNode,
            Token::Property(prop) => TokenView::Property(prop@),
        }
    }
}

/// What is contained in a node.
#[derive(Clone, Copy, Debug)]
pub enum Item<'dtb> {
    /// A property of the node.
    Property(Property<'dtb>),
    /// A child of the node.
    Child(Node<'dtb>),
}

impl<'dtb> View for Item<'dtb> {
    type V = ItemView;

    open spec fn view(&self) -> ItemView {
        match self {
            Item::Property(prop) => ItemView::Property(prop@),
            Item::Child(node) => ItemView::Child(node@),
        }
    }
}

impl<'dtb> Token<'dtb> {
    /// The item that the token stands for, if it stands for one.
    pub fn into_item(self) -> (r: Option<Item<'dtb>>)
        ensures
            match self@.into_item() {
                Some(item) => r matches Some(i) && i@ == item,
                None => r is None,
            },
    {
        match self {
            Token::BeginNode(node) => Some(Item::Child(node)),
            Token::EndNode => None,
            Token::Property(prop) => Some(Item::Property(prop)),
        }
    }
}

impl<'dtb> Property<'dtb> {
    #[verifier::type_invariant]
    spec fn inv(&self) -> bool {
        are_words_of(self.words@, self.value@)
    }

    /// The name of the property.
    pub fn name(&self) -> (r: Result<&'dtb str, crate::Error>)
        ensures
            match self@.name {
                Ok(name) => r matches Ok(s) && s@ == name,
                Err(err) => r == Err::<&'dtb str, crate::Error>(crate::Error::Blob(err)),
            },
    {
        let offset = self.name_offset as usize;
        if offset > self.strings.len() {
            return Err(crate::Error::Blob(Error::UnexpectedEnd));
        }
        match util::get_c_str(slice_subrange(self.strings, offset, self.strings.len())) {
            Ok(name) => Ok(name),
            Err(err) => Err(crate::Error::Blob(err)),
        }
    }

    /// The value of the property.
    pub fn value(&self) -> (r: &'dtb [u8])
        ensures
            r@ == self@.value,
    {
        self.value
    }

    /// The words of the value, without the bytes that do not fill a word, in
    /// the byte order of the blob.
    pub fn words(&self) -> (r: &'dtb [u32])
        ensures
            are_words_of(r@, self@.value),
    {
        proof {
            use_type_invariant(self);
        }
        self.words
    }
}

} // verus!
