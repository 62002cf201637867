use std::any::Any;
use std::collections::hash_map::DefaultHasher;
use std::hash::{Hash, Hasher};

use devicetree::blob::{Cursor, Devicetree, Item, Node, Token};
use devicetree::fallible_iterator::FallibleIterator;
use devicetree::node::{Children, Items, NamedRange, NamedRangeIter, Properties};
use devicetree::prop_value::RegBlock;
use devicetree::{
    blob, DeserializeNode, DeserializeProperty, Error, NodeContext, PushDeserializedNode,
};

/// Writes the structure block and the strings block of a devicetree.
#[derive(Default)]
struct Writer {
    structure: Vec<u8>,
    strings: Vec<u8>,
}

impl Writer {
    fn number(mut self, number: u32) -> Self {
        self.structure.extend(number.to_be_bytes());
        self
    }

    fn padded(mut self, bytes: &[u8]) -> Self {
        self.structure.extend(bytes);
        while self.structure.len() % 4 != 0 {
            self.structure.push(0);
        }
        self
    }

    fn open(self, name: &str) -> Self {
        self.number(1).padded(format!("{}\0", name).as_bytes())
    }

    fn close(self) -> Self {
        self.number(2)
    }

    fn prop(mut self, name: &str, value: &[u8]) -> Self {
        let offset = self.strings.len() as u32;
        self.strings.extend(name.as_bytes());
        self.strings.push(0);
        self.number(3).number(value.len() as u32).number(offset).padded(value)
    }

    fn nop(self) -> Self {
        self.number(4)
    }

    fn finish(self) -> Devicetree {
        let done = self.number(9);
        Devicetree::new(vec![], done.structure, done.strings)
    }
}

fn sample() -> Devicetree {
    Writer::default()
        .nop()
        .open("")
        .prop("#address-cells", &[0, 0, 0, 1])
        .prop("model", b"board\0")
        .nop()
        .prop("#size-cells", &[0, 0, 0, 0])
        .open("cpu@0")
        .prop("reg", &[0, 0, 0, 0])
        .open("cache")
        .close()
        .close()
        .open("memory@80")
        .close()
        .nop()
        .open("cpu@1")
        .prop("reg", &[0, 0, 0, 1])
        .close()
        .open("cpu@2")
        .close()
        .open("chosen")
        .close()
        .close()
        .finish()
}

fn root(dt: &Devicetree) -> Node<'_> {
    match dt.next_token(&mut Cursor::default()) {
        Ok(Some(Token::BeginNode(node))) => node,
        other => panic!("{:?}", other),
    }
}

fn names<'a>(mut children: impl FallibleIterator<Item = Node<'a>, Error = Error>) -> Vec<&'a str> {
    let mut names = Vec::new();
    while let Some(node) = children.next().unwrap() {
        names.push(node.name());
    }
    names
}

fn label(item: &Item<'_>) -> String {
    match item {
        Item::Property(prop) => format!(".{}", prop.name().unwrap()),
        Item::Child(node) => String::from(node.name()),
    }
}

const LABELS: [&str; 8] = [
    ".#address-cells",
    ".model",
    ".#size-cells",
    "cpu@0",
    "memory@80",
    "cpu@1",
    "cpu@2",
    "chosen",
];

#[test]
fn tokens() {
    let dt = Writer::default().open("a").prop("p", &[7]).nop().close().finish();
    let mut cursor = Cursor::default();
    let Ok(Some(Token::BeginNode(node))) = dt.next_token(&mut cursor) else { panic!() };
    assert_eq!(node.name(), "a");
    assert_eq!(node.start_cursor(), Cursor { depth: 0, offset: 0 });
    assert_eq!(cursor, Cursor { depth: 1, offset: 8 });
    let Ok(Some(Token::Property(prop))) = dt.next_token(&mut cursor) else { panic!() };
    assert_eq!(prop.name(), Ok("p"));
    assert_eq!(prop.value(), &[7]);
    assert_eq!(cursor, Cursor { depth: 1, offset: 24 });
    assert!(matches!(dt.next_token(&mut cursor), Ok(Some(Token::EndNode))));
    assert_eq!(cursor, Cursor { depth: 0, offset: 32 });
    assert!(matches!(dt.next_token(&mut cursor), Ok(None)));
    assert_eq!(cursor, Cursor { depth: 0, offset: 32 });
}

#[test]
fn tokens_as_items() {
    let dt = Writer::default().open("a").prop("p", &[7]).close().finish();
    let mut cursor = Cursor::default();
    let mut next = || dt.next_token(&mut cursor).unwrap().unwrap().into_item();
    assert_eq!(label(&next().unwrap()), "a");
    assert_eq!(label(&next().unwrap()), ".p");
    assert!(next().is_none());
}

fn token_error(dt: &Devicetree, cursor: Cursor) -> blob::Error {
    let mut moved = cursor;
    let err = dt.next_token(&mut moved).unwrap_err();
    assert_eq!(moved, cursor);
    err
}

#[test]
fn malformed_tokens() {
    let start = Cursor::default();
    let dt = sample();
    assert_eq!(token_error(&dt, Cursor { depth: 0, offset: 2 }), blob::Error::UnalignedToken);
    assert_eq!(token_error(&dt, Cursor { depth: 0, offset: 4000 }), blob::Error::UnexpectedEnd);
    let dt = Writer::default().close().finish();
    assert_eq!(token_error(&dt, start), blob::Error::UnexpectedEndNodeToken);
    let dt = Writer::default().open("a").finish();
    assert_eq!(token_error(&dt, Cursor { depth: 1, offset: 8 }), blob::Error::UnexpectedEndToken);
    let dt = Writer::default().number(5).finish();
    assert_eq!(token_error(&dt, start), blob::Error::UnknownToken);
    let dt = Writer::default().open("a").close().finish();
    assert_eq!(
        token_error(&dt, Cursor { depth: u32::MAX, offset: 0 }),
        blob::Error::NestingTooDeep
    );
}

#[test]
fn truncated_tokens() {
    let start = Cursor::default();
    let truncated = |writer: Writer| Devicetree::new(vec![], writer.structure, writer.strings);
    assert_eq!(token_error(&truncated(Writer::default()), start), blob::Error::UnexpectedEnd);
    let dt = truncated(Writer::default().nop().nop());
    assert_eq!(token_error(&dt, start), blob::Error::UnexpectedEnd);
    let dt = truncated(Writer::default().number(1).padded(b"abcd"));
    assert_eq!(token_error(&dt, start), blob::Error::InvalidString);
    let dt = truncated(Writer::default().number(1).padded(b"\x80\0"));
    assert_eq!(token_error(&dt, start), blob::Error::InvalidString);
    let dt = Devicetree::new(vec![], vec![0, 0, 0, 1, b'a', 0], vec![]);
    assert_eq!(token_error(&dt, start), blob::Error::UnexpectedEnd);
    let dt = truncated(Writer::default().number(3).number(0));
    assert_eq!(token_error(&dt, start), blob::Error::UnexpectedEnd);
    let dt = truncated(Writer::default().number(3).number(5).number(0).padded(&[1; 4]));
    assert_eq!(token_error(&dt, start), blob::Error::UnexpectedEnd);
    let dt = truncated(Writer::default().number(3).number(u32::MAX).number(0).padded(&[1; 4]));
    assert_eq!(token_error(&dt, start), blob::Error::UnexpectedEnd);
}

#[test]
fn names_of_properties() {
    let structure = Writer::default().number(3).number(0).number(2).structure;
    let name_in = |strings: &[u8]| {
        let dt = Devicetree::new(vec![], structure.clone(), strings.to_vec());
        let prop = Properties::new(&dt, Cursor::default()).next().unwrap().unwrap();
        prop.name().map(String::from)
    };
    assert_eq!(name_in(b"a\0bc\0"), Ok(String::from("bc")));
    assert_eq!(name_in(b"a\0b"), Err(Error::Blob(blob::Error::InvalidString)));
    assert_eq!(name_in(b"a\0"), Err(Error::Blob(blob::Error::InvalidString)));
    assert_eq!(name_in(b"a"), Err(Error::Blob(blob::Error::UnexpectedEnd)));
}

#[test]
fn items_in_order() {
    let dt = sample();
    let mut items = root(&dt).items();
    let mut labels = Vec::new();
    while let Some(item) = items.next().unwrap() {
        labels.push(label(&item));
    }
    assert_eq!(labels, LABELS);
}

#[test]
fn items_are_fused() {
    let dt = sample();
    let mut items = root(&dt).items();
    while items.next().unwrap().is_some() {}
    let end = items.clone()._cursor_();
    for _ in 0..3 {
        assert!(matches!(items.next(), Ok(None)));
        assert_eq!(items.clone()._cursor_(), end);
    }
    assert_eq!(end.depth, 0);
}

#[test]
fn items_repeat_an_error() {
    let dt = Writer::default().open("a").number(7).finish();
    let mut items = root(&dt).items();
    for _ in 0..2 {
        assert_eq!(items.next().unwrap_err(), Error::Blob(blob::Error::UnknownToken));
    }
    assert_eq!(items.end_cursor(), Err(Error::Blob(blob::Error::UnknownToken)));
}

#[test]
fn end_cursor_is_the_same_from_everywhere() {
    let dt = sample();
    let node = root(&dt);
    let end = node.end_cursor().unwrap();
    assert!(matches!(dt.next_token(&mut { end }), Ok(None)));
    let mut items = node.items();
    while items.next().unwrap().is_some() {
        assert_eq!(items.clone().end_cursor(), Ok(end));
    }
    assert_eq!(items.end_cursor(), Ok(end));
    let children = Children::new(&node, node.contents);
    assert_eq!(children.end_cursor(), Ok(end));
}

#[test]
fn start_cursor_leads_to_the_same_node() {
    let dt = sample();
    let node = root(&dt);
    let mut children = Children::new(&node, node.contents);
    while let Some(child) = children.next().unwrap() {
        let mut cursor = child.start_cursor();
        let Ok(Some(Token::BeginNode(again))) = dt.next_token(&mut cursor) else { panic!() };
        assert_eq!(again.name(), child.name());
        assert_eq!(again.start_cursor(), child.start_cursor());
        assert_eq!(cursor, child.contents);
    }
}

#[test]
fn going_on_behind_a_child() {
    let dt = sample();
    let node = root(&dt);
    let mut items = node.items();
    let mut labels = Vec::new();
    while let Some(item) = items.next().unwrap() {
        labels.push(label(&item));
        if let Item::Child(child) = item {
            items.set_cursor(child.end_cursor().unwrap());
        }
    }
    assert_eq!(labels, LABELS);
    assert_eq!(items._cursor_(), node.end_cursor().unwrap());
}

#[test]
fn items_from_a_position() {
    let dt = sample();
    let node = root(&dt);
    let mut items = node.items();
    for _ in 0..4 {
        items.next().unwrap();
    }
    let mut rest = Items::new(&node, items._cursor_());
    assert_eq!(label(&rest.next().unwrap().unwrap()), "memory@80");
}

#[test]
fn properties_of_a_node() {
    let dt = sample();
    let node = root(&dt);
    let mut props = Properties::new(&dt, node.contents);
    assert_eq!(props.cursor(), node.contents);
    for name in ["#address-cells", "model", "#size-cells"] {
        assert_eq!(props.next().unwrap().unwrap().name(), Ok(name));
    }
    assert!(props.next().unwrap().is_none());
}

#[test]
fn property_by_name() {
    let dt = sample();
    let node = root(&dt);
    let mut props = Properties::new(&dt, node.contents);
    let found = props.find_by_name(|name| name == "model").unwrap().unwrap();
    assert_eq!(found.value(), b"board\0");
    let found = props.find_by_name(|name| name.starts_with('#')).unwrap().unwrap();
    assert_eq!(found.name(), Ok("#size-cells"));
    assert!(props.find_by_name(|_| true).unwrap().is_none());
}

#[test]
fn property_by_name_fails() {
    let dt = Writer::default().number(3).number(0).number(9).finish();
    let mut props = Properties::new(&dt, Cursor::default());
    assert_eq!(
        props.find_by_name(|_| true).unwrap_err(),
        Error::Blob(blob::Error::UnexpectedEnd)
    );
    let dt = Writer::default().number(6).finish();
    let mut props = Properties::new(&dt, Cursor::default());
    assert_eq!(
        props.find_by_name(|_| true).unwrap_err(),
        Error::Blob(blob::Error::UnknownToken)
    );
}

#[test]
fn children_of_a_node() {
    let dt = sample();
    let node = root(&dt);
    let mut children = Children::new(&node, node.contents);
    assert_eq!(names(&mut children), &LABELS[3..]);
    assert!(children.next().unwrap().is_none());
    children.set_cursor(node.contents);
    assert_eq!(names(children), &LABELS[3..]);
}

#[test]
fn walking_over_children() {
    let dt = sample();
    let node = root(&dt);
    let mut children = Children::new(&node, node.contents);
    let mut walked = Vec::new();
    while let Some(name) = children
        .walk_next(|child| Ok((child.name(), child.end_cursor()?)))
        .unwrap()
    {
        walked.push(name);
    }
    assert_eq!(walked, &LABELS[3..]);
    assert_eq!(children.end_cursor(), node.end_cursor());
}

#[test]
fn walking_stops_at_an_error() {
    let dt = sample();
    let node = root(&dt);
    let mut children = Children::new(&node, node.contents);
    let failed: Result<Option<()>, Error> = children.walk_next(|_| Err(Error::Unknown));
    assert_eq!(failed, Err(Error::Unknown));
    assert_eq!(children.next().unwrap().unwrap().name(), "memory@80");
}

#[test]
fn child_by_name() {
    let dt = sample();
    let node = root(&dt);
    let mut children = Children::new(&node, node.contents);
    let found = children.find_by_name(|name| name == "cpu@1").unwrap().unwrap();
    assert_eq!(found.name(), "cpu@1");
    assert!(children.find_by_name(|name| name == "cpu@0").unwrap().is_none());
    let mut children = Children::new(&node, node.contents);
    assert!(children.find_by_name(|name| name == "cache").unwrap().is_none());
}

#[test]
fn child_by_split_name() {
    let dt = sample();
    let node = root(&dt);
    let mut children = Children::new(&node, node.contents);
    let found = children.find_by_split_name(|name, address| name == "cpu" && address == Some("2"));
    assert_eq!(found.unwrap().unwrap().name(), "cpu@2");
    let found = children.find_by_split_name(|_, address| address.is_none());
    assert_eq!(found.unwrap().unwrap().name(), "chosen");
    assert!(children.find_by_split_name(|_, _| true).unwrap().is_none());
}

#[test]
fn child_by_split_name_fails() {
    let dt = Writer::default().open("").open("a@b@c").close().close().finish();
    let node = root(&dt);
    let mut children = Children::new(&node, node.contents);
    assert_eq!(
        children.find_by_split_name(|_, _| true).unwrap_err(),
        Error::InvalidNodeName
    );
    let mut children = Children::new(&node, node.contents);
    assert_eq!(children.find_by_name(|_| true).unwrap().unwrap().name(), "a@b@c");
}

#[test]
fn filtered_children() {
    let dt = sample();
    let node = root(&dt);
    let mut children = Children::new(&node, node.contents);
    assert_eq!(
        names(children.filter_by_split_name(|name, _| name == "cpu")),
        ["cpu@0", "cpu@1", "cpu@2"]
    );
    let mut children = Children::new(&node, node.contents);
    let mut filtered = children.filter_by_split_name(|_, address| address == Some("80"));
    assert_eq!(filtered.next().unwrap().unwrap().name(), "memory@80");
    assert_eq!(children.next().unwrap().unwrap().name(), "cpu@1");
}

fn cpus(dt: &Devicetree) -> NamedRange<'_> {
    let node = root(dt);
    let mut children = Children::new(&node, node.contents);
    let mut range = NamedRange::empty();
    let mut filtered = children.filter_by_split_name(|name, _| name == "cpu");
    while let Some(cpu) = filtered.next().unwrap() {
        range.push_node(cpu, NodeContext::<()>::default()).unwrap();
    }
    range
}

#[test]
fn range_gives_back_its_nodes() {
    let dt = sample();
    let range = cpus(&dt);
    assert_eq!(range.len(), 3);
    assert!(!range.is_empty());
    let mut iter = range.iter(&dt);
    assert_eq!(iter.size_hint(), (3, Some(3)));
    assert_eq!(iter.next().unwrap().unwrap().name(), "cpu@0");
    assert_eq!(iter.remaining_len(), 2);
    assert_eq!(iter.next().unwrap().unwrap().name(), "cpu@1");
    assert_eq!(iter.next().unwrap().unwrap().name(), "cpu@2");
    assert_eq!(iter.remaining_len(), 0);
    assert_eq!(iter.size_hint(), (0, Some(0)));
    assert!(iter.next().unwrap().is_none());
    assert!(iter.next().unwrap().is_none());
}

#[test]
fn range_starts_at_its_first_node() {
    let dt = sample();
    let node = root(&dt);
    let first = Children::new(&node, node.contents).next().unwrap().unwrap();
    assert_eq!(cpus(&dt).first(), Some(first.start_cursor()));
    let single = NamedRange::new_single(first).unwrap();
    assert_eq!(single.len(), 1);
    assert_eq!(single.first(), Some(first.start_cursor()));
    assert_eq!(names(single.iter(&dt)), ["cpu@0"]);
}

#[test]
fn empty_ranges() {
    let dt = sample();
    for range in [NamedRange::empty(), NamedRange::default()] {
        assert_eq!(range.len(), 0);
        assert!(range.is_empty());
        assert_eq!(range.first(), None);
        assert!(range.iter(&dt).next().unwrap().is_none());
    }
    assert_eq!(NamedRangeIter::empty().remaining_len(), 0);
    assert_eq!(NamedRangeIter::default().size_hint(), (0, Some(0)));
}

#[test]
fn range_of_a_malformed_name() {
    let dt = Writer::default().open("a@b@c").close().finish();
    let node = root(&dt);
    assert_eq!(NamedRange::new_single(node).unwrap_err(), Error::InvalidNodeName);
    let mut range = NamedRange::empty();
    assert_eq!(
        range.push_node(node, NodeContext::<()>::default()),
        Err(Error::InvalidNodeName)
    );
    assert!(range.is_empty());
}

#[test]
fn comparing_ranges() {
    let dt = sample();
    let node = root(&dt);
    let mut children = Children::new(&node, node.contents);
    let first = NamedRange::new_single(children.next().unwrap().unwrap()).unwrap();
    let second = NamedRange::new_single(children.next().unwrap().unwrap()).unwrap();
    assert_eq!(cpus(&dt), cpus(&dt));
    assert_eq!(first, first);
    assert_ne!(first, second);
    assert_ne!(first, cpus(&dt));
    assert_ne!(first, NamedRange::empty());
    assert_eq!(NamedRange::empty(), NamedRange::default());
}

#[test]
fn equal_ranges_have_equal_hashes() {
    let dt = sample();
    let hash = |range: NamedRange<'_>| {
        let mut hasher = DefaultHasher::new();
        range.hash(&mut hasher);
        hasher.finish()
    };
    assert_eq!(hash(cpus(&dt)), hash(cpus(&dt)));
    assert_ne!(hash(cpus(&dt)), hash(NamedRange::empty()));
}

#[test]
fn hash_of_a_range() {
    let dt = sample();
    let range = cpus(&dt);
    let mut expected = DefaultHasher::new();
    Some("cpu").hash(&mut expected);
    range.first().unwrap().offset.hash(&mut expected);
    (range.len() as u32).hash(&mut expected);
    let mut hasher = DefaultHasher::new();
    range.hash(&mut hasher);
    assert_eq!(hasher.finish(), expected.finish());
    let mut expected = DefaultHasher::new();
    None::<&str>.hash(&mut expected);
    let mut hasher = DefaultHasher::new();
    NamedRange::empty().hash(&mut hasher);
    assert_eq!(hasher.finish(), expected.finish());
}

#[test]
fn depth_of_a_range_is_not_hashed() {
    let dt = sample();
    let mut node = root(&dt);
    let hash = |node| {
        let mut hasher = DefaultHasher::new();
        NamedRange::new_single(node).unwrap().hash(&mut hasher);
        hasher.finish()
    };
    let before = hash(node);
    node.start.depth = 7;
    assert_eq!(hash(node), before);
    node.start.offset += 4;
    assert_ne!(hash(node), before);
}

#[test]
fn nodes_as_values() {
    let dt = sample();
    let node = root(&dt);
    let cx = NodeContext::<()>::default();
    let end = node.end_cursor().unwrap();
    let (same, cursor) = Node::deserialize(&node, cx).unwrap();
    assert_eq!((same.start_cursor(), cursor), (node.start_cursor(), end));
    assert_eq!(Cursor::deserialize(&node, cx), Ok((node.start_cursor(), end)));
    let optional = <Option<Cursor> as DeserializeNode<'_, ()>>::deserialize(&node, cx);
    assert_eq!(optional, Ok((Some(node.start_cursor()), end)));
}

#[test]
fn items_as_values() {
    let dt = sample();
    let node = root(&dt);
    let cx = NodeContext::<()>::default();
    let end = node.end_cursor().unwrap();
    let (items, cursor) = <Vec<Item<'_>>>::deserialize(&node, cx).unwrap();
    assert_eq!(items.iter().map(label).collect::<Vec<_>>(), LABELS);
    assert_eq!(cursor, end);
    let (items, cursor) = <Box<[Item<'_>]>>::deserialize(&node, cx).unwrap();
    assert_eq!(items.iter().map(label).collect::<Vec<_>>(), LABELS);
    assert_eq!(cursor, end);
}

#[test]
fn unfinished_nodes_have_no_value() {
    let dt = Writer::default().open("a").open("b").close().finish();
    let node = root(&dt);
    let cx = NodeContext::<()>::default();
    let err = Error::Blob(blob::Error::UnexpectedEndToken);
    assert_eq!(Node::deserialize(&node, cx).unwrap_err(), err);
    assert_eq!(Cursor::deserialize(&node, cx).unwrap_err(), err);
    assert_eq!(<Vec<Item<'_>>>::deserialize(&node, cx).unwrap_err(), err);
    assert_eq!(<Box<[Item<'_>]>>::deserialize(&node, cx).unwrap_err(), err);
    let optional = <Option<Node<'_>> as DeserializeNode<'_, ()>>::deserialize(&node, cx);
    assert_eq!(optional.unwrap_err(), err);
}

#[test]
fn pushing_to_a_vec() {
    let dt = sample();
    let mut cursors: Vec<Cursor> = Vec::new();
    let cx = NodeContext::<()>::default();
    for offset in [4, 8] {
        assert_eq!(cursors.push_node(Cursor { depth: 1, offset }, cx), Ok(()));
    }
    assert_eq!(cursors.len(), 2);
    assert_eq!(cursors[1].offset, 8);
    assert_eq!(root(&dt).name(), "");
}

#[test]
fn default_context() {
    let cx = NodeContext::<()>::default();
    assert!(cx.custom.is_none());
    assert_eq!((cx.address_cells, cx.size_cells), (2, 1));
}

#[test]
fn deserializing_a_node() {
    let dt = sample();
    let node = root(&dt);
    let note = String::from("note");
    let mut cx: NodeContext<'_, dyn Any> = NodeContext::default();
    cx.custom = Some(&note);
    cx.address_cells = 4;
    let mut labels = Vec::new();
    let mut contexts = Vec::new();
    let end = cx.deserialize_node(
        &node,
        |name, prop| {
            assert_eq!(prop.name(), Ok(name));
            labels.push(format!(".{}", name));
            Ok(())
        },
        |child, child_cx, cursor| {
            assert_eq!(*cursor, child.contents);
            let custom = child_cx.custom.unwrap().downcast_ref::<String>();
            assert_eq!(custom.unwrap(), "note");
            contexts.push((child.name(), child_cx.address_cells, child_cx.size_cells));
            *cursor = child.end_cursor()?;
            Ok(())
        },
    );
    assert_eq!(end, node.end_cursor());
    assert_eq!(labels, &LABELS[..3]);
    let names: Vec<&str> = contexts.iter().map(|c| c.0).collect();
    assert_eq!(names, &LABELS[3..]);
    assert!(contexts.iter().all(|c| (c.1, c.2) == (1, 0)));
}

#[test]
fn deserializing_without_moving_the_cursor() {
    let dt = sample();
    let node = root(&dt);
    let mut count = 0;
    let end = NodeContext::<()>::default().deserialize_node(
        &node,
        |_, _| Ok(()),
        |_, _, _| {
            count += 1;
            Ok(())
        },
    );
    assert_eq!(end, node.end_cursor());
    assert_eq!(count, 5);
}

#[test]
fn context_changes_between_children() {
    let dt = Writer::default()
        .open("")
        .open("a")
        .close()
        .prop("#size-cells", &[0, 0, 0, 3])
        .open("b")
        .close()
        .close()
        .finish();
    let mut contexts = Vec::new();
    NodeContext::<()>::default()
        .deserialize_node(
            &root(&dt),
            |_, _| Ok(()),
            |child, cx, _| {
                contexts.push((child.name(), cx.address_cells, cx.size_cells));
                Ok(())
            },
        )
        .unwrap();
    assert_eq!(contexts, [("a", 2, 1), ("b", 2, 3)]);
}

#[test]
fn deserializing_reports_errors() {
    let run = |dt: &Devicetree, prop: Result<(), Error>, child: Result<(), Error>| {
        NodeContext::<()>::default().deserialize_node(&root(dt), |_, _| prop, |_, _, _| child)
    };
    let dt = sample();
    assert_eq!(run(&dt, Err(Error::InvalidPath), Ok(())), Err(Error::InvalidPath));
    assert_eq!(run(&dt, Ok(()), Err(Error::Unknown)), Err(Error::Unknown));
    let dt = Writer::default().open("").prop("#address-cells", &[0, 0, 0, 5]).close().finish();
    assert_eq!(run(&dt, Err(Error::Unknown), Ok(())), Err(Error::TooManyCells));
    let dt = Writer::default().open("").prop("#size-cells", &[1]).close().finish();
    assert_eq!(run(&dt, Err(Error::Unknown), Ok(())), Err(Error::UnsuitableProperty));
    let dt = Writer::default().open("").number(3).number(0).number(7).close().finish();
    assert_eq!(run(&dt, Ok(()), Ok(())), Err(Error::Blob(blob::Error::UnexpectedEnd)));
    let dt = Writer::default().open("").finish();
    assert_eq!(run(&dt, Ok(()), Ok(())), Err(Error::Blob(blob::Error::UnexpectedEndToken)));
}

#[test]
fn registers_of_children() {
    let dt = sample();
    let mut blocks = Vec::new();
    NodeContext::<()>::default()
        .deserialize_node(
            &root(&dt),
            |_, _| Ok(()),
            |child, cx, cursor| {
                *cursor = cx.deserialize_node(
                    &child,
                    |name, prop| {
                        if name == "reg" {
                            blocks.extend(<Vec<RegBlock>>::deserialize(prop, cx)?);
                        }
                        Ok(())
                    },
                    |_, _, _| Ok(()),
                )?;
                Ok(())
            },
        )
        .unwrap();
    assert_eq!(blocks, [RegBlock(0, 0), RegBlock(1, 0)]);
}
