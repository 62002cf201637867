use devicetree::blob::{Cursor, Devicetree, Property};
use devicetree::fallible_iterator::FallibleIterator;
use devicetree::node::Properties;
use devicetree::prop_value::{AddressCells, Reg, RegBlock, SizeCells, Strings};
use devicetree::util::{
    parse_cells, parse_cells_back, u32_from_be_bytes, u64_from_be_bytes,
};
use devicetree::{blob, DeserializeProperty, Error, NodeContext, ReserveEntry};

/// A devicetree whose structure block starts with a property.
fn holding(value: &[u8]) -> Devicetree {
    let mut structure = Vec::new();
    structure.extend(3u32.to_be_bytes());
    structure.extend((value.len() as u32).to_be_bytes());
    structure.extend(0u32.to_be_bytes());
    structure.extend(value);
    while structure.len() % 4 != 0 {
        structure.push(0);
    }
    Devicetree::new(vec![], structure, b"value\0".to_vec())
}

fn property(dt: &Devicetree) -> Property<'_> {
    Properties::new(dt, Cursor::default()).next().unwrap().unwrap()
}

fn read<T>(value: &[u8]) -> Result<T, Error>
where
    T: for<'a> DeserializeProperty<'a>,
{
    T::deserialize(property(&holding(value)), NodeContext::default())
}

fn words(numbers: &[u32]) -> Vec<u32> {
    numbers.iter().map(|n| n.to_be()).collect()
}

#[test]
fn cells_from_the_front() {
    let all = words(&[1, 2, 3, 4, 5]);
    let mut rest = &all[..];
    assert_eq!(parse_cells(&mut rest, 0), Some(0));
    assert_eq!(rest.len(), 5);
    assert_eq!(parse_cells(&mut rest, 1), Some(1));
    assert_eq!(parse_cells(&mut rest, 2), Some(0x2_0000_0003));
    assert_eq!(rest, &all[3..]);
    assert_eq!(parse_cells(&mut rest, 3), None);
    assert_eq!(rest, &all[3..]);
    assert_eq!(parse_cells(&mut rest, 2), Some(0x4_0000_0005));
    assert_eq!(parse_cells(&mut rest, 1), None);
    assert_eq!(parse_cells(&mut rest, 0), Some(0));
}

#[test]
fn at_most_four_cells() {
    let all = words(&[0xffff_ffff; 6]);
    let mut rest = &all[..];
    assert_eq!(parse_cells(&mut rest, 5), None);
    assert_eq!(parse_cells_back(&mut rest, 5), None);
    assert_eq!(parse_cells_back(&mut rest, 255), None);
    assert_eq!(rest.len(), 6);
    assert_eq!(parse_cells(&mut rest, 4), Some(u128::MAX));
    assert_eq!(rest.len(), 2);
}

#[test]
fn cells_from_the_back() {
    let all = words(&[1, 2, 3, 4, 5]);
    let mut rest = &all[..];
    assert_eq!(parse_cells_back(&mut rest, 0), Some(0));
    assert_eq!(parse_cells_back(&mut rest, 2), Some(0x4_0000_0005));
    assert_eq!(rest, &all[..3]);
    assert_eq!(parse_cells_back(&mut rest, 4), None);
    assert_eq!(parse_cells_back(&mut rest, 3), Some(0x1_0000_0002_0000_0003));
    assert_eq!(rest.len(), 0);
    assert_eq!(parse_cells_back(&mut rest, 1), None);
}

#[test]
fn cells_one_behind_the_other() {
    let all = words(&[7, 8, 9]);
    let (mut a, mut b) = (&all[..], &all[..]);
    let high = parse_cells(&mut a, 1).unwrap();
    let low = parse_cells(&mut a, 2).unwrap();
    assert_eq!(parse_cells(&mut b, 3), Some((high << 64) | low));
}

#[test]
fn numbers_from_bytes() {
    assert_eq!(u32_from_be_bytes(&[0x12, 0x34, 0x56, 0x78]), 0x1234_5678);
    assert_eq!(u32_from_be_bytes(&[0xff; 4]), u32::MAX);
    assert_eq!(u64_from_be_bytes(&[1, 2, 3, 4, 5, 6, 7, 8]), 0x0102_0304_0506_0708);
    assert_eq!(u64_from_be_bytes(&[0xff; 8]), u64::MAX);
}

#[test]
fn reserved_memory() {
    let block = vec![
        0x8000_0000u64.to_be(),
        0x1000u64.to_be(),
        0u64.to_be(),
        1u64.to_be(),
        0,
        0,
        7,
    ];
    let dt = Devicetree::new(block, vec![], vec![]);
    let mut entries = dt.reserve_entries();
    assert_eq!(
        entries.next(),
        Ok(Some(ReserveEntry { address: 0x8000_0000, size: 0x1000 }))
    );
    assert_eq!(entries.next(), Ok(Some(ReserveEntry { address: 0, size: 1 })));
    assert_eq!(entries.next(), Ok(None));
    assert_eq!(entries.next(), Err(Error::Blob(blob::Error::UnexpectedEnd)));
    assert_eq!(entries.next(), Err(Error::Blob(blob::Error::UnexpectedEnd)));
}

#[test]
fn reserved_memory_without_end() {
    let dt = Devicetree::new(vec![1, 2], vec![], vec![]);
    let mut entries = dt.reserve_entries();
    assert_eq!(
        entries.next(),
        Ok(Some(ReserveEntry { address: u64::from_be(1), size: u64::from_be(2) }))
    );
    assert_eq!(entries.next(), Err(Error::Blob(blob::Error::UnexpectedEnd)));
}

#[test]
fn property_as_itself() {
    let dt = holding(&[1, 2, 3]);
    let prop = Property::deserialize(property(&dt), NodeContext::<()>::default()).unwrap();
    assert_eq!(prop.name(), Ok("value"));
    assert_eq!(prop.value(), &[1, 2, 3]);
}

#[test]
fn flags() {
    assert_eq!(read::<()>(&[]), Ok(()));
    assert_eq!(read::<()>(&[0]), Err(Error::UnsuitableProperty));
    assert_eq!(read::<bool>(&[]), Ok(true));
    assert_eq!(read::<bool>(&[1]), Err(Error::UnsuitableProperty));
}

#[test]
fn bytes() {
    let dt = holding(&[9, 8, 7, 6, 5]);
    let cx = NodeContext::<()>::default();
    assert_eq!(<&[u8]>::deserialize(property(&dt), cx), Ok(&[9, 8, 7, 6, 5][..]));
    assert_eq!(read::<Vec<u8>>(&[1, 2]), Ok(vec![1, 2]));
    assert_eq!(read::<Box<[u8]>>(&[1, 2]), Ok(vec![1, 2].into_boxed_slice()));
    assert_eq!(read::<Box<[u8]>>(&[]), Ok(vec![].into_boxed_slice()));
}

#[test]
fn words_in_the_byte_order_of_the_blob() {
    let value = [0x12, 0x34, 0x56, 0x78, 0, 0, 0, 1];
    let dt = holding(&value);
    let cx = NodeContext::<()>::default();
    let expected = words(&[0x1234_5678, 1]);
    assert_eq!(<&[u32]>::deserialize(property(&dt), cx), Ok(&expected[..]));
    assert_eq!(property(&dt).words(), &expected[..]);
    assert_eq!(read::<Vec<u32>>(&value), Ok(expected.clone()));
    assert_eq!(read::<Box<[u32]>>(&value), Ok(expected.into_boxed_slice()));
    assert_eq!(read::<Vec<u32>>(&[]), Ok(vec![]));
}

#[test]
fn words_of_a_wrong_length() {
    let dt = holding(&[1, 2, 3, 4, 5]);
    let cx = NodeContext::<()>::default();
    assert_eq!(<&[u32]>::deserialize(property(&dt), cx), Err(Error::UnsuitableProperty));
    assert_eq!(property(&dt).words(), &[u32::from_ne_bytes([1, 2, 3, 4])]);
    assert_eq!(read::<Vec<u32>>(&[1]), Err(Error::UnsuitableProperty));
    assert_eq!(read::<Box<[u32]>>(&[1]), Err(Error::UnsuitableProperty));
}

#[test]
fn numbers() {
    assert_eq!(read::<u32>(&[0, 0, 1, 2]), Ok(0x102));
    assert_eq!(read::<u32>(&[0, 1, 2]), Err(Error::UnsuitableProperty));
    assert_eq!(read::<u32>(&[0; 8]), Err(Error::UnsuitableProperty));
    assert_eq!(read::<u64>(&[0, 0, 0, 1, 0, 0, 0, 2]), Ok(0x1_0000_0002));
    assert_eq!(read::<u64>(&[0; 4]), Err(Error::UnsuitableProperty));
}

#[test]
fn strings() {
    let dt = holding(b"okay\0");
    let cx = NodeContext::<()>::default();
    assert_eq!(<&str>::deserialize(property(&dt), cx), Ok("okay"));
    assert_eq!(read::<String>(b"okay\0"), Ok(String::from("okay")));
    assert_eq!(read::<Box<str>>(b"okay\0"), Ok(Box::from("okay")));
    assert_eq!(read::<String>(b"a\0b\0"), Ok(String::from("a\0b")));
    assert_eq!(read::<String>(b"\0"), Ok(String::new()));
    assert_eq!(read::<String>(b""), Err(Error::UnsuitableProperty));
    assert_eq!(read::<String>(b"okay"), Err(Error::UnsuitableProperty));
    assert_eq!(read::<String>(b"\xff\0"), Err(Error::UnsuitableProperty));
    assert_eq!(read::<Box<str>>(b"okay"), Err(Error::UnsuitableProperty));
}

#[test]
fn optional_values() {
    assert_eq!(read::<Option<u32>>(&[0, 0, 0, 5]), Ok(Some(5)));
    assert_eq!(read::<Option<u32>>(&[5]), Err(Error::UnsuitableProperty));
    assert_eq!(read::<Option<Option<bool>>>(&[]), Ok(Some(Some(true))));
}

#[test]
fn string_lists() {
    let value = b"arm,pl011\0arm,primecell\0";
    let dt = holding(value);
    let cx = NodeContext::<()>::default();
    let mut list = Strings::deserialize(property(&dt), cx).unwrap();
    assert_eq!(list.next(), Ok(Some("arm,pl011")));
    assert_eq!(list.next(), Ok(Some("arm,primecell")));
    assert_eq!(list.next(), Ok(None));
    assert_eq!(list.next(), Ok(None));
    let expected = vec!["arm,pl011", "arm,primecell"];
    assert_eq!(<Vec<&str>>::deserialize(property(&dt), cx), Ok(expected.clone()));
    assert_eq!(
        <Box<[&str]>>::deserialize(property(&dt), cx),
        Ok(expected.clone().into_boxed_slice())
    );
    let owned: Vec<String> = expected.iter().map(|s| String::from(*s)).collect();
    assert_eq!(read::<Vec<String>>(value), Ok(owned.clone()));
    assert_eq!(read::<Box<[String]>>(value), Ok(owned.into_boxed_slice()));
    let boxed: Vec<Box<str>> = expected.iter().map(|s| Box::from(*s)).collect();
    assert_eq!(read::<Vec<Box<str>>>(value), Ok(boxed.clone()));
    assert_eq!(read::<Box<[Box<str>]>>(value), Ok(boxed.into_boxed_slice()));
}

#[test]
fn string_lists_at_the_edges() {
    assert_eq!(read::<Vec<String>>(b""), Ok(vec![]));
    assert_eq!(read::<Vec<String>>(b"\0a\0"), Ok(vec![String::new(), String::from("a")]));
    let invalid = Error::Blob(blob::Error::InvalidString);
    assert_eq!(read::<Vec<String>>(b"a\0b"), Err(invalid));
    assert_eq!(read::<Vec<Box<str>>>(b"a\0\x80\0"), Err(invalid));
    assert_eq!(read::<Box<[String]>>(b"a"), Err(invalid));
    let dt = holding(b"a\0b");
    let mut list = Strings::deserialize(property(&dt), NodeContext::<()>::default()).unwrap();
    assert_eq!(list.next(), Ok(Some("a")));
    assert_eq!(list.next(), Err(invalid));
    assert_eq!(list.next(), Err(invalid));
}

#[test]
fn cell_counts() {
    assert_eq!(AddressCells::default(), AddressCells(2));
    assert_eq!(SizeCells::default(), SizeCells(1));
    assert_eq!(read::<AddressCells>(&[0, 0, 0, 4]), Ok(AddressCells(4)));
    assert_eq!(read::<AddressCells>(&[0, 0, 0, 5]), Err(Error::TooManyCells));
    assert_eq!(read::<AddressCells>(&[1, 0, 0, 0]), Err(Error::TooManyCells));
    assert_eq!(read::<AddressCells>(&[4]), Err(Error::UnsuitableProperty));
    assert_eq!(read::<SizeCells>(&[0, 0, 0, 0]), Ok(SizeCells(0)));
    assert_eq!(read::<SizeCells>(&[0, 0, 0, 9]), Err(Error::TooManyCells));
    assert_eq!(read::<SizeCells>(&[]), Err(Error::UnsuitableProperty));
}

fn cells(address_cells: u8, size_cells: u8) -> NodeContext<'static> {
    let mut cx = NodeContext::default();
    cx.address_cells = address_cells;
    cx.size_cells = size_cells;
    cx
}

fn reg_value() -> Vec<u8> {
    let mut value = Vec::new();
    for number in [1u32, 0x10, 0x100, 2, 0x20, 0x200] {
        value.extend(number.to_be_bytes());
    }
    value
}

#[test]
fn reg_blocks() {
    let dt = holding(&reg_value());
    let expected = vec![
        RegBlock(0x1_0000_0010, 0x100),
        RegBlock(0x2_0000_0020, 0x200),
    ];
    let cx = cells(2, 1);
    assert_eq!(<Vec<RegBlock>>::deserialize(property(&dt), cx), Ok(expected.clone()));
    assert_eq!(
        <Box<[RegBlock]>>::deserialize(property(&dt), cx),
        Ok(expected.clone().into_boxed_slice())
    );
    assert_eq!(
        <Vec<RegBlock>>::deserialize(property(&dt), NodeContext::<()>::default()),
        Ok(expected)
    );
}

#[test]
fn reg_from_both_ends() {
    let dt = holding(&reg_value());
    let mut reg = Reg::deserialize(property(&dt), cells(1, 1)).unwrap();
    assert_eq!(reg.next(), Some(RegBlock(1, 0x10)));
    assert_eq!(reg.next_back(), Some(RegBlock(0x20, 0x200)));
    assert_eq!(reg.next(), Some(RegBlock(0x100, 2)));
    assert_eq!(reg.next(), None);
    assert_eq!(reg.next_back(), None);
}

#[test]
fn reg_from_the_back_is_reversed() {
    let dt = holding(&reg_value());
    let cx = cells(1, 0);
    let mut forth = <Vec<RegBlock>>::deserialize(property(&dt), cx).unwrap();
    let mut reg = Reg::deserialize(property(&dt), cx).unwrap();
    let mut back = Vec::new();
    while let Some(block) = reg.next_back() {
        back.push(block);
    }
    forth.reverse();
    assert_eq!(back, forth);
    assert_eq!(back.len(), 6);
    assert_eq!(back[0], RegBlock(0x200, 0));
}

#[test]
fn reg_errors() {
    let dt = holding(&reg_value());
    let read_with = |a, s| <Vec<RegBlock>>::deserialize(property(&dt), cells(a, s));
    assert_eq!(read_with(5, 1), Err(Error::TooManyCells));
    assert_eq!(read_with(1, 5), Err(Error::TooManyCells));
    assert_eq!(read_with(2, 2), Err(Error::UnsuitableProperty));
    assert_eq!(read_with(0, 0), Err(Error::UnsuitableProperty));
    assert_eq!(read::<Vec<RegBlock>>(&[1, 2, 3]), Err(Error::UnsuitableProperty));
    let nothing = holding(&[]);
    assert_eq!(<Vec<RegBlock>>::deserialize(property(&nothing), cells(0, 0)), Ok(vec![]));
    assert_eq!(<Vec<RegBlock>>::deserialize(property(&nothing), cells(4, 4)), Ok(vec![]));
}
