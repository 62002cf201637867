//! The flattened form of a tree, and what reading it gives.
use vstd::prelude::*;

use crate::blob::{
    align, property_name, Cursor, Devicetree, DevicetreeView, Error, ItemView, NodeView,
    PropertyView, Token, TokenView, BEGIN_NODE, END_NODE, PROP,
};
use crate::laws::law_skip_child;
use crate::node::{items_of, law_collect_end, lemma_next_advances, ItemsView};
use crate::util::{
    ascii_chars, be_number, c_str, is_ascii_bytes, lemma_first_index_unique,
};

verus! {

/// The 4 bytes of a number, most significant byte first.
pub open spec fn be_bytes(x: u32) -> Seq<u8> {
    seq![
        (x / 0x100_0000) as u8,
        (x / 0x1_0000 % 0x100) as u8,
        (x / 0x100 % 0x100) as u8,
        (x % 0x100) as u8,
    ]
}

/// The zeros that fill up `len` bytes to a multiple of 4.
pub open spec fn padding(len: nat) -> Seq<u8> {
    Seq::new((align(len as int) - len) as nat, |i: int| 0u8)
}

/// The token that opens a node.
#[verifier::opaque]
pub open spec fn begin_token(name: Seq<u8>) -> Seq<u8> {
    be_bytes(BEGIN_NODE) + (name + seq![0u8]) + padding(name.len() + 1)
}

/// The token of a property.
#[verifier::opaque]
pub open spec fn property_token(name_offset: u32, value: Seq<u8>) -> Seq<u8> {
    be_bytes(PROP) + be_bytes(value.len() as u32) + be_bytes(name_offset) + value + padding(
        value.len(),
    )
}

/// The token that closes a node.
pub open spec fn end_token() -> Seq<u8> {
    be_bytes(END_NODE)
}

/// Whether the structure block holds the given bytes at an offset.
pub open spec fn holds(dt: DevicetreeView, offset: int, bytes: Seq<u8>) -> bool {
    &&& 0 <= offset
    &&& offset + bytes.len() <= dt.structure.len()
    &&& dt.structure.subrange(offset, offset + bytes.len()) == bytes
}

/// Where bytes are held, their parts are held one behind the other.
proof fn lemma_holds_parts(dt: DevicetreeView, offset: int, a: Seq<u8>, b: Seq<u8>)
    requires
        holds(dt, offset, a + b),
    ensures
        holds(dt, offset, a),
        holds(dt, offset + a.len(), b),
{
    let both = dt.structure.subrange(offset, offset + (a + b).len());
    assert(dt.structure.subrange(offset, offset + a.len()) == both.take(a.len() as int));
    assert((a + b).take(a.len() as int) == a);
    assert(dt.structure.subrange(offset + a.len(), offset + a.len() + b.len()) == both.skip(
        a.len() as int,
    ));
    assert((a + b).skip(a.len() as int) == b);
}

/// The bytes of a number stand for it.
proof fn lemma_be_bytes(x: u32)
    ensures
        be_number(be_bytes(x)) == x,
        be_bytes(x).len() == 4,
{
    reveal_with_fuel(be_number, 5);
    assert(x == (x / 0x100_0000) * 0x100_0000 + (x / 0x1_0000 % 0x100) * 0x1_0000 + (x / 0x100
        % 0x100) * 0x100 + x % 0x100);
    let bytes = be_bytes(x);
    assert(bytes.drop_last().drop_last().drop_last().drop_last() == Seq::<u8>::empty());
}

/// A number is read where its bytes are held.
proof fn lemma_number_at(dt: DevicetreeView, offset: int, x: u32)
    requires
        holds(dt, offset, be_bytes(x)),
    ensures
        dt.number_at(offset) == x,
{
    lemma_be_bytes(x);
}

/// The parts of the token that opens a node are read one by one.
proof fn lemma_begin_parts(dt: DevicetreeView, at: int, name: Seq<u8>)
    requires
        is_ascii_bytes(name),
        !name.contains(0),
        holds(dt, at, begin_token(name)),
    ensures
        dt.number_at(at) == BEGIN_NODE,
        c_str(dt.structure.skip(at + 4)) == Ok::<Seq<char>, Error>(ascii_chars(name)),
        begin_token(name).len() == align(5int + name.len()),
{
    reveal(begin_token);
    let head = be_bytes(BEGIN_NODE);
    let text = name + seq![0u8];
    lemma_holds_parts(dt, at, head + text, padding(name.len() + 1));
    lemma_holds_parts(dt, at, head, text);
    lemma_number_at(dt, at, BEGIN_NODE);
    let rest = dt.structure.skip(at + 4);
    let len = name.len() as int;
    assert forall|j: int| 0 <= j <= len implies rest[j] == text[j] by {
        assert(dt.structure.subrange(at + 4, at + 4 + text.len())[j] == text[j]);
    }
    assert forall|j: int| 0 <= j < len implies rest[j] != 0 by {
        assert(text[j] == name[j]);
    }
    lemma_first_index_unique(rest, 0u8, len);
    assert(rest.take(len) == name);
}

/// The token that opens a node is read back.
pub proof fn law_begin_token(dt: DevicetreeView, depth: u32, offset: u32, name: Seq<u8>)
    requires
        offset % 4 == 0,
        depth < u32::MAX,
        is_ascii_bytes(name),
        !name.contains(0),
        holds(dt, offset as int, begin_token(name)),
        offset + begin_token(name).len() <= u32::MAX,
    ensures
        ({
            let contents = Cursor {
                depth: (depth + 1) as u32,
                offset: (offset + begin_token(name).len()) as u32,
            };
            let start = Cursor { depth, offset };
            let node = NodeView { dt, name: ascii_chars(name), start, contents };
            dt.token_at(start) == Ok::<Option<(TokenView, Cursor)>, Error>(
                Some((TokenView::BeginNode(node), contents)),
            )
        }),
{
    let at = offset as int;
    lemma_begin_parts(dt, at, name);
    assert(align(at + 4 + name.len() + 1) == at + align(5int + name.len()));
}

/// The parts of the token of a property are read one by one.
proof fn lemma_property_parts(dt: DevicetreeView, at: int, name_offset: u32, value: Seq<u8>)
    requires
        value.len() <= u32::MAX,
        holds(dt, at, property_token(name_offset, value)),
    ensures
        dt.number_at(at) == PROP,
        dt.number_at(at + 4) == value.len(),
        dt.number_at(at + 8) == name_offset,
        holds(dt, at + 12, value),
        property_token(name_offset, value).len() == align(12int + value.len()),
{
    reveal(property_token);
    let len = value.len() as u32;
    let pad = padding(value.len());
    let (a, b, c) = (be_bytes(PROP), be_bytes(len), be_bytes(name_offset));
    lemma_holds_parts(dt, at, a + b + c + value, pad);
    lemma_holds_parts(dt, at, a + b + c, value);
    lemma_holds_parts(dt, at, a + b, c);
    lemma_holds_parts(dt, at, a, b);
    lemma_number_at(dt, at, PROP);
    lemma_number_at(dt, at + 4, len);
    lemma_number_at(dt, at + 8, name_offset);
}

/// The token of a property is read back.
pub proof fn law_property_token(
    dt: DevicetreeView,
    depth: u32,
    offset: u32,
    name_offset: u32,
    value: Seq<u8>,
)
    requires
        offset % 4 == 0,
        value.len() <= u32::MAX,
        holds(dt, offset as int, property_token(name_offset, value)),
        offset + property_token(name_offset, value).len() <= u32::MAX,
    ensures
        ({
            let next = Cursor {
                depth,
                offset: (offset + property_token(name_offset, value).len()) as u32,
            };
            let prop = PropertyView {
                name: property_name(dt.strings, name_offset as int),
                value,
            };
            dt.token_at(Cursor { depth, offset }) == Ok::<Option<(TokenView, Cursor)>, Error>(
                Some((TokenView::Property(prop), next)),
            )
        }),
{
    let at = offset as int;
    lemma_property_parts(dt, at, name_offset, value);
    assert(align(at + 12 + value.len()) == at + align(12int + value.len()));
}

/// The token that closes a node is read back.
pub proof fn law_end_token(dt: DevicetreeView, depth: u32, offset: u32)
    requires
        offset % 4 == 0,
        depth > 0,
        holds(dt, offset as int, end_token()),
        offset + 4 <= u32::MAX,
    ensures
        dt.token_at(Cursor { depth, offset }) == Ok::<Option<(TokenView, Cursor)>, Error>(
            Some(
                (
                    TokenView::EndNode,
                    Cursor { depth: (depth - 1) as u32, offset: (offset + 4) as u32 },
                ),
            ),
        ),
{
    lemma_number_at(dt, offset as int, END_NODE);
}

/// No token is read at an offset that is not a multiple of 4, nor where fewer than
/// 4 bytes are left.
pub proof fn law_no_token(dt: DevicetreeView, cursor: Cursor)
    ensures
        cursor.offset % 4 != 0 ==> dt.token_at(cursor) == Err::<
            Option<(TokenView, Cursor)>,
            Error,
        >(Error::UnalignedToken),
        cursor.offset % 4 == 0 && cursor.offset + 4 > dt.structure.len() ==> dt.token_at(cursor)
            == Err::<Option<(TokenView, Cursor)>, Error>(Error::UnexpectedEnd),
{
}

/// The token that is to be skipped is skipped. The token that ends the structure
/// block ends it where no node is open, and is an error elsewhere. No node is closed
/// where none is open. Any other number is no token.
pub proof fn law_other_tokens(dt: DevicetreeView, cursor: Cursor, number: u32)
    requires
        cursor.offset % 4 == 0,
        cursor.offset + 4 <= u32::MAX,
        holds(dt, cursor.offset as int, be_bytes(number)),
    ensures
        number == 4 ==> dt.token_at(cursor) == dt.token_at(
            Cursor { depth: cursor.depth, offset: (cursor.offset + 4) as u32 },
        ),
        number == 9 ==> dt.token_at(cursor) == (if cursor.depth == 0 {
            Ok::<Option<(TokenView, Cursor)>, Error>(None)
        } else {
            Err(Error::UnexpectedEndToken)
        }),
        number == 2 && cursor.depth == 0 ==> dt.token_at(cursor) == Err::<
            Option<(TokenView, Cursor)>,
            Error,
        >(Error::UnexpectedEndNodeToken),
        number == 0 || 5 <= number <= 8 || 10 <= number ==> dt.token_at(cursor) == Err::<
            Option<(TokenView, Cursor)>,
            Error,
        >(Error::UnknownToken),
{
    lemma_number_at(dt, cursor.offset as int, number);
}

/// A node is not read if its name has no NUL byte at its end or is not ASCII, if its
/// token goes beyond the structure block, or if there is no depth for its contents.
pub proof fn law_broken_begin_token(dt: DevicetreeView, depth: u32, offset: u32, name: Seq<u8>)
    requires
        offset % 4 == 0,
        offset + 4 <= u32::MAX,
        !name.contains(0),
        holds(dt, offset as int, be_bytes(1) + name),
    ensures
        ({
            let r = dt.token_at(Cursor { depth, offset });
            let end = offset + 4 + name.len();
            let len = dt.structure.len();
            let is_ascii = forall|i: int| 0 <= i < name.len() ==> name[i] < 128;
            let invalid = Err::<Option<(TokenView, Cursor)>, Error>(Error::InvalidString);
            &&& end == len ==> r == invalid
            &&& end < len && dt.structure[end] == 0 && !is_ascii ==> r == invalid
            &&& end < len && dt.structure[end] == 0 && is_ascii && align(end + 1) > len ==> r
                == Err::<Option<(TokenView, Cursor)>, Error>(Error::UnexpectedEnd)
            &&& end < len && dt.structure[end] == 0 && is_ascii && align(end + 1) <= len && align(
                end + 1,
            ) <= u32::MAX && depth == u32::MAX ==> r == Err::<Option<(TokenView, Cursor)>, Error>(
                Error::NestingTooDeep,
            )
        }),
{
    lemma_holds_parts(dt, offset as int, be_bytes(1), name);
    lemma_number_at(dt, offset as int, 1);
    let rest = dt.structure.skip(offset + 4);
    let len = name.len() as int;
    assert forall|j: int| 0 <= j < len implies rest[j] == name[j] && rest[j] != 0 by {
        assert(dt.structure.subrange(offset + 4, offset + 4 + name.len())[j] == name[j]);
        assert(name.contains(name[j]));
    }
    if rest.len() == len || rest[len] == 0 {
        lemma_first_index_unique(rest, 0u8, len);
        assert(rest.take(len) == name);
    }
}

/// A property is not read if its numbers or its value go beyond the structure block.
pub proof fn law_broken_property_token(
    dt: DevicetreeView,
    depth: u32,
    offset: u32,
    value_len: u32,
    name_offset: u32,
)
    requires
        offset % 4 == 0,
        offset + 4 <= u32::MAX,
    ensures
        ({
            let r = dt.token_at(Cursor { depth, offset });
            let beyond = Err::<Option<(TokenView, Cursor)>, Error>(Error::UnexpectedEnd);
            let len = dt.structure.len();
            &&& holds(dt, offset as int, be_bytes(3)) && offset + 12 > len ==> r == beyond
            &&& holds(
                dt,
                offset as int,
                be_bytes(3) + be_bytes(value_len) + be_bytes(name_offset),
            ) && align(offset + 12 + value_len) > len ==> r == beyond
        }),
{
    let at = offset as int;
    if holds(dt, at, be_bytes(3)) {
        lemma_number_at(dt, at, 3);
    }
    if holds(dt, at, be_bytes(3) + be_bytes(value_len) + be_bytes(name_offset)) {
        lemma_holds_parts(dt, at, be_bytes(3) + be_bytes(value_len), be_bytes(name_offset));
        lemma_holds_parts(dt, at, be_bytes(3), be_bytes(value_len));
        lemma_number_at(dt, at, 3);
        lemma_number_at(dt, at + 4, value_len);
    }
}

/// The name of a property is all of the text that is at its offset in the strings
/// block, up to a NUL byte. There is no name beyond the block, none without a NUL
/// byte at its end, and none that is not ASCII.
pub proof fn law_property_name(before: Seq<u8>, name: Seq<u8>, behind: Seq<u8>, beyond: nat)
    requires
        !name.contains(0),
        beyond > before.len(),
    ensures
        ({
            let read = property_name(before + name + seq![0u8] + behind, before.len() as int);
            let invalid = Err::<Seq<char>, Error>(Error::InvalidString);
            &&& if exists|i: int| 0 <= i < name.len() && name[i] >= 128 {
                read == invalid
            } else {
                &&& read matches Ok(chars) && chars.len() == name.len() && forall|i: int|
                    0 <= i < name.len() ==> #[trigger] chars[i] as u32 == name[i] as u32
            }
            &&& property_name(before + name, before.len() as int) == invalid
            &&& property_name(before, beyond as int) == Err::<Seq<char>, Error>(
                Error::UnexpectedEnd,
            )
        }),
{
    let strings = before + name + seq![0u8] + behind;
    let rest = strings.skip(before.len() as int);
    let len = name.len() as int;
    assert(rest == name + seq![0u8] + behind);
    assert((before + name).skip(before.len() as int) == name);
    assert forall|j: int| 0 <= j < len implies rest[j] != 0 && name[j] != 0 by {
        assert(rest[j] == name[j]);
        assert(name.contains(name[j]));
    }
    lemma_first_index_unique(rest, 0u8, len);
    lemma_first_index_unique(name, 0u8, len);
    assert(rest.take(len) == name);
    assert forall|i: int| 0 <= i < name.len() implies #[trigger] ascii_chars(name)[i]
        == name[i] as char by {}
}

/// A devicetree holds the blocks that it was made of.
pub proof fn law_new_devicetree(
    reserve: Vec<u64>,
    structure: Vec<u8>,
    strings: Vec<u8>,
    dt: Devicetree,
)
    requires
        call_ensures(Devicetree::new, (reserve, structure, strings), dt),
    ensures
        dt@.reserve == reserve@,
        dt@.structure == structure@,
        dt@.strings == strings@,
{
}

/// Asking for the next token gives the token that the cursor points to, and moves
/// the cursor behind it. The cursor stays at the end of the devicetree, and where
/// there is an error.
pub proof fn law_next_token<'dtb>(dt: &'dtb Devicetree)
    ensures
        forall|c: &mut Cursor, r: Result<Option<Token<'dtb>>, Error>|
            #![trigger call_ensures(Devicetree::next_token, (dt, c), r)]
            call_ensures(Devicetree::next_token, (dt, c), r) ==> match r {
                Ok(Some(token)) => dt@.token_at(*c) == Ok::<Option<(TokenView, Cursor)>, Error>(
                    Some(
                        (
                            match token {
                                Token::BeginNode(node) => TokenView::BeginNode(node@),
                                Token::EndNode => TokenView::EndNode,
                                Token::Property(prop) => TokenView::Property(prop@),
                            },
                            *final(c),
                        ),
                    ),
                ),
                Ok(None) => dt@.token_at(*c) == Ok::<Option<(TokenView, Cursor)>, Error>(None)
                    && *final(c) == *c,
                Err(err) => dt@.token_at(*c) == Err::<Option<(TokenView, Cursor)>, Error>(err)
                    && *final(c) == *c,
            },
{
}

// ---------------------------------------------------------------------------
// Trees
// ---------------------------------------------------------------------------

/// A property, as it is written.
pub struct FlatProperty {
    /// Where the name is in the strings block.
    pub name_offset: u32,
    /// The value.
    pub value: Seq<u8>,
}

/// A node, as it is written: its properties come before its children.
pub struct FlatNode {
    /// The name, with the unit address.
    pub name: Seq<u8>,
    /// The properties.
    pub properties: Seq<FlatProperty>,
    /// The children.
    pub children: Seq<FlatNode>,
}

/// The tokens of properties.
pub open spec fn flat_properties(properties: Seq<FlatProperty>) -> Seq<u8>
    decreases properties.len(),
{
    if properties.len() == 0 {
        Seq::empty()
    } else {
        property_token(properties[0].name_offset, properties[0].value) + flat_properties(
            properties.skip(1),
        )
    }
}

/// The tokens of a node.
pub open spec fn flat_node(node: FlatNode) -> Seq<u8>
    decreases node,
{
    begin_token(node.name) + (flat_properties(node.properties) + (flat_nodes(node.children)
        + end_token()))
}

/// The tokens of nodes.
pub open spec fn flat_nodes(nodes: Seq<FlatNode>) -> Seq<u8>
    decreases nodes,
{
    if nodes.len() == 0 {
        Seq::empty()
    } else {
        flat_node(nodes[0]) + flat_nodes(nodes.subrange(1, nodes.len() as int))
    }
}

/// Whether the properties can be written.
pub open spec fn are_writable(properties: Seq<FlatProperty>) -> bool {
    forall|i: int| 0 <= i < properties.len() ==> (#[trigger] properties[i]).value.len() <= u32::MAX
}

/// Whether the node can be written: names are ASCII, without NUL.
pub open spec fn is_writable(node: FlatNode) -> bool
    decreases node,
{
    &&& is_ascii_bytes(node.name)
    &&& !node.name.contains(0)
    &&& are_writable(node.properties)
    &&& forall|i: int| 0 <= i < node.children.len() ==> is_writable(#[trigger] node.children[i])
}

/// What is read of properties.
pub open spec fn read_properties(dt: DevicetreeView, properties: Seq<FlatProperty>) -> Seq<
    ItemView,
> {
    properties.map_values(
        |prop: FlatProperty|
            ItemView::Property(
                PropertyView {
                    name: property_name(dt.strings, prop.name_offset as int),
                    value: prop.value,
                },
            ),
    )
}

/// What is read of a node at an offset.
pub open spec fn read_node(
    dt: DevicetreeView,
    node: FlatNode,
    depth: u32,
    offset: int,
) -> NodeView {
    NodeView {
        dt,
        name: ascii_chars(node.name),
        start: Cursor { depth, offset: offset as u32 },
        contents: Cursor {
            depth: (depth + 1) as u32,
            offset: (offset + begin_token(node.name).len()) as u32,
        },
    }
}

/// What is read of nodes from an offset on.
pub open spec fn read_nodes(
    dt: DevicetreeView,
    nodes: Seq<FlatNode>,
    depth: u32,
    offset: int,
) -> Seq<ItemView>
    decreases nodes.len(),
{
    if nodes.len() == 0 {
        Seq::empty()
    } else {
        seq![ItemView::Child(read_node(dt, nodes[0], depth, offset))] + read_nodes(
            dt,
            nodes.subrange(1, nodes.len() as int),
            depth,
            offset + flat_node(nodes[0]).len(),
        )
    }
}

/// Padding fills up to a multiple of 4 bytes.
proof fn lemma_padding_len(len: nat)
    ensures
        padding(len).len() == align(len as int) - len,
        align(len as int) % 4 == 0,
        align(len as int) >= len,
{
}

/// The token that opens a node fills a multiple of 4 bytes.
proof fn lemma_begin_len(name: Seq<u8>)
    ensures
        begin_token(name).len() == align(5int + name.len()),
        begin_token(name).len() % 4 == 0,
        begin_token(name).len() >= 8,
{
    reveal(begin_token);
    lemma_padding_len(name.len() + 1);
    let (head, text) = (be_bytes(BEGIN_NODE), name + seq![0u8]);
    assert(begin_token(name).len() == head.len() + text.len() + padding(name.len() + 1).len());
}

/// The token of a property fills a multiple of 4 bytes.
proof fn lemma_property_len(name_offset: u32, value: Seq<u8>)
    ensures
        property_token(name_offset, value).len() == align(12int + value.len()),
        property_token(name_offset, value).len() % 4 == 0,
        property_token(name_offset, value).len() >= 12,
{
    reveal(property_token);
    lemma_padding_len(value.len());
    let (a, b, c) = (be_bytes(PROP), be_bytes(value.len() as u32), be_bytes(name_offset));
    assert(property_token(name_offset, value).len() == a.len() + b.len() + c.len() + value.len()
        + padding(value.len()).len());
}

/// The tokens of a node fill a multiple of 4 bytes.
proof fn lemma_flat_node_len(node: FlatNode)
    ensures
        flat_node(node).len() == begin_token(node.name).len() + flat_properties(
            node.properties,
        ).len() + flat_nodes(node.children).len() + 4,
        flat_node(node).len() % 4 == 0,
    decreases node,
{
    lemma_begin_len(node.name);
    lemma_flat_properties_len(node.properties);
    lemma_flat_nodes_len(node.children);
}

/// The tokens of nodes fill a multiple of 4 bytes.
proof fn lemma_flat_nodes_len(nodes: Seq<FlatNode>)
    ensures
        flat_nodes(nodes).len() % 4 == 0,
    decreases nodes,
{
    if nodes.len() > 0 {
        lemma_flat_node_len(nodes[0]);
        lemma_flat_nodes_len(nodes.subrange(1, nodes.len() as int));
    }
}

/// The tokens of properties fill a multiple of 4 bytes.
proof fn lemma_flat_properties_len(properties: Seq<FlatProperty>)
    ensures
        flat_properties(properties).len() % 4 == 0,
    decreases properties.len(),
{
    if properties.len() > 0 {
        lemma_property_len(properties[0].name_offset, properties[0].value);
        lemma_flat_properties_len(properties.skip(1));
    }
}

/// A node that is written in the flattened form is read back: its token gives
/// its name, its items are its properties and its children, in order, and its
/// end is behind its last token.
///
/// The bounds on the offset and the depth are those of a cursor. For the root
/// node, whose depth is 0, they come down to the size of the structure block.
pub proof fn law_node_is_read_back(dt: DevicetreeView, node: FlatNode, depth: u32, offset: u32)
    requires
        offset % 4 == 0,
        is_writable(node),
        holds(dt, offset as int, flat_node(node)),
        offset + flat_node(node).len() <= u32::MAX,
        depth + flat_node(node).len() <= u32::MAX,
    ensures
        ({
            let read = read_node(dt, node, depth, offset as int);
            let end = Cursor { depth, offset: (offset + flat_node(node).len()) as u32 };
            let inside = offset + begin_token(node.name).len() + flat_properties(
                node.properties,
            ).len();
            &&& dt.token_at(read.start) == Ok::<Option<(TokenView, Cursor)>, Error>(
                Some((TokenView::BeginNode(read), read.contents)),
            )
            &&& items_of(read).collect() == Ok::<(Seq<ItemView>, Cursor), crate::Error>(
                (
                    read_properties(dt, node.properties) + read_nodes(
                        dt,
                        node.children,
                        (depth + 1) as u32,
                        inside,
                    ),
                    end,
                ),
            )
            &&& items_of(read).end() == Ok::<Cursor, crate::Error>(end)
        }),
    decreases flat_node(node).len(), 0int,
{
    let begin = begin_token(node.name);
    let behind = flat_properties(node.properties) + (flat_nodes(node.children) + end_token());
    lemma_flat_node_len(node);
    lemma_begin_len(node.name);
    lemma_holds_parts(dt, offset as int, begin, behind);
    law_begin_token(dt, depth, offset, node.name);
    let contents = read_node(dt, node, depth, offset as int).contents;
    lemma_contents_are_read_back(
        dt,
        node.properties,
        node.children,
        contents.depth,
        contents.offset,
    );
    law_collect_end(items_of(read_node(dt, node, depth, offset as int)));
}

/// The contents of a node are read back.
proof fn lemma_contents_are_read_back(
    dt: DevicetreeView,
    properties: Seq<FlatProperty>,
    children: Seq<FlatNode>,
    depth: u32,
    offset: u32,
)
    requires
        offset % 4 == 0,
        depth > 0,
        are_writable(properties),
        forall|i: int| 0 <= i < children.len() ==> is_writable(#[trigger] children[i]),
        holds(
            dt,
            offset as int,
            flat_properties(properties) + (flat_nodes(children) + end_token()),
        ),
        offset + flat_properties(properties).len() + flat_nodes(children).len() + 4 <= u32::MAX,
        depth + flat_properties(properties).len() + flat_nodes(children).len() <= u32::MAX,
    ensures
        ({
            let items = ItemsView { dt, at_depth: depth, cursor: Cursor { depth, offset } };
            let inside = offset + flat_properties(properties).len();
            let end = Cursor {
                depth: (depth - 1) as u32,
                offset: (inside + flat_nodes(children).len() + 4) as u32,
            };
            items.collect() == Ok::<(Seq<ItemView>, Cursor), crate::Error>(
                (
                    read_properties(dt, properties) + read_nodes(dt, children, depth, inside),
                    end,
                ),
            )
        }),
    decreases flat_properties(properties).len() + flat_nodes(children).len(), 2int,
{
    let items = ItemsView { dt, at_depth: depth, cursor: Cursor { depth, offset } };
    let tail = flat_nodes(children) + end_token();
    if properties.len() == 0 {
        assert(flat_properties(properties) + tail == tail);
        lemma_nodes_are_read_back(dt, children, depth, offset);
        assert(read_properties(dt, properties) + read_nodes(dt, children, depth, offset as int)
            == read_nodes(dt, children, depth, offset as int));
    } else {
        let (first, rest) = (properties[0], properties.skip(1));
        let token = property_token(first.name_offset, first.value);
        lemma_property_len(first.name_offset, first.value);
        assert(first.value.len() <= u32::MAX);
        assert(flat_properties(properties) + tail == token + (flat_properties(rest) + tail));
        lemma_holds_parts(dt, offset as int, token, flat_properties(rest) + tail);
        law_property_token(dt, depth, offset, first.name_offset, first.value);
        lemma_next_advances(items);
        assert(are_writable(rest)) by {
            assert forall|i: int| 0 <= i < rest.len() implies (#[trigger] rest[i]).value.len()
                <= u32::MAX by {
                assert(rest[i] == properties[i + 1]);
            }
        }
        lemma_contents_are_read_back(dt, rest, children, depth, (offset + token.len()) as u32);
        let inside = offset + flat_properties(properties).len();
        let nodes = read_nodes(dt, children, depth, inside);
        assert(read_properties(dt, properties) + nodes == seq![read_properties(dt, properties)[0]]
            + (read_properties(dt, rest) + nodes));
    }
}

/// The children of a node are read back.
proof fn lemma_nodes_are_read_back(
    dt: DevicetreeView,
    nodes: Seq<FlatNode>,
    depth: u32,
    offset: u32,
)
    requires
        offset % 4 == 0,
        depth > 0,
        forall|i: int| 0 <= i < nodes.len() ==> is_writable(#[trigger] nodes[i]),
        holds(dt, offset as int, flat_nodes(nodes) + end_token()),
        offset + flat_nodes(nodes).len() + 4 <= u32::MAX,
        depth + flat_nodes(nodes).len() <= u32::MAX,
    ensures
        ({
            let items = ItemsView { dt, at_depth: depth, cursor: Cursor { depth, offset } };
            let end = Cursor {
                depth: (depth - 1) as u32,
                offset: (offset + flat_nodes(nodes).len() + 4) as u32,
            };
            items.collect() == Ok::<(Seq<ItemView>, Cursor), crate::Error>(
                (read_nodes(dt, nodes, depth, offset as int), end),
            )
        }),
    decreases flat_nodes(nodes).len(), 1int,
{
    let items = ItemsView { dt, at_depth: depth, cursor: Cursor { depth, offset } };
    lemma_next_advances(items);
    if nodes.len() == 0 {
        assert(flat_nodes(nodes) + end_token() == end_token());
        law_end_token(dt, depth, offset);
    } else {
        let (first, rest) = (nodes[0], nodes.subrange(1, nodes.len() as int));
        let len = flat_node(first).len();
        lemma_flat_node_len(first);
        lemma_begin_len(first.name);
        assert(flat_nodes(nodes) + end_token() == flat_node(first) + (flat_nodes(rest)
            + end_token()));
        lemma_holds_parts(dt, offset as int, flat_node(first), flat_nodes(rest) + end_token());
        law_node_is_read_back(dt, first, depth, offset);
        law_skip_child(items);
        assert forall|i: int| 0 <= i < rest.len() implies is_writable(#[trigger] rest[i]) by {
            assert(rest[i] == nodes[i + 1]);
        }
        lemma_nodes_are_read_back(dt, rest, depth, (offset + len) as u32);
        let inside = items.next().1;
        let behind = inside.at(Cursor { depth, offset: (offset + len) as u32 });
        assert(behind.collect() == inside.collect());
    }
}

} // verus!
