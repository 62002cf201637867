use devicetree::util::{get_c_str, slice_get_with_len, split_node_name};
use devicetree::{blob, Error, Path};

#[test]
fn split_node_name_examples() {
    assert_eq!(split_node_name("compatible"), Ok(("compatible", None)));
    assert_eq!(split_node_name("clock@0"), Ok(("clock", Some("0"))));
    assert_eq!(split_node_name("a@b@2"), Err(Error::InvalidNodeName));
}

#[test]
fn split_node_name_at_the_edges() {
    assert_eq!(split_node_name(""), Ok(("", None)));
    assert_eq!(split_node_name("@"), Ok(("", Some(""))));
    assert_eq!(split_node_name("@1"), Ok(("", Some("1"))));
    assert_eq!(split_node_name("a@"), Ok(("a", Some(""))));
    assert_eq!(split_node_name("@@"), Err(Error::InvalidNodeName));
    assert_eq!(split_node_name("grün@ü"), Ok(("grün", Some("ü"))));
}

#[test]
fn split_name_joins_again() {
    for name in ["cpu@1", "memory@80000000", "@"] {
        let (node_name, unit_address) = split_node_name(name).unwrap();
        assert_eq!(format!("{}@{}", node_name, unit_address.unwrap()), name);
    }
    assert_eq!(split_node_name("cpus").unwrap().0, "cpus");
}

#[test]
fn c_strings() {
    assert_eq!(get_c_str(b"abc\0def\0"), Ok("abc"));
    assert_eq!(get_c_str(b"\0"), Ok(""));
    assert_eq!(get_c_str(b"abc"), Err(blob::Error::InvalidString));
    assert_eq!(get_c_str(b""), Err(blob::Error::InvalidString));
    assert_eq!(get_c_str(b"a\x80\0"), Err(blob::Error::InvalidString));
    assert_eq!(get_c_str(b"a\0\x80"), Ok("a"));
    assert_eq!(get_c_str(b"\x7f\0"), Ok("\x7f"));
}

#[test]
fn slices_with_len() {
    let numbers = [1, 2, 3, 4];
    assert_eq!(slice_get_with_len(&numbers, 1, 2), Some(&[2, 3][..]));
    assert_eq!(slice_get_with_len(&numbers, 4, 0), Some(&[][..]));
    assert_eq!(slice_get_with_len(&numbers, 0, 4), Some(&numbers[..]));
    assert_eq!(slice_get_with_len(&numbers, 2, 3), None);
    assert_eq!(slice_get_with_len(&numbers, 5, 0), None);
}

#[test]
fn string_paths() {
    assert_eq!("/cpus/cpu@0".as_components(), Ok(vec!["cpus", "cpu@0"]));
    assert_eq!("/memory".as_components(), Ok(vec!["memory"]));
    assert_eq!("/a/".as_components(), Ok(vec!["a", ""]));
    assert_eq!("//".as_components(), Ok(vec!["", ""]));
    assert_eq!("/ü/ö".as_components(), Ok(vec!["ü", "ö"]));
}

#[test]
fn path_of_the_root_node() {
    assert_eq!("/".as_components(), Ok(vec![]));
}

#[test]
fn string_path_without_leading_slash() {
    assert_eq!("".as_components(), Err(Error::InvalidPath));
    assert_eq!("a".as_components(), Err(Error::InvalidPath));
    assert_eq!("a/b".as_components(), Err(Error::InvalidPath));
    assert_eq!("ü/b".as_components(), Err(Error::InvalidPath));
}

#[test]
fn paths_from_components() {
    let parts = ["soc", "uart@0"];
    assert_eq!(parts.as_components(), Ok(vec!["soc", "uart@0"]));
    assert_eq!(parts[..1].as_components(), Ok(vec!["soc"]));
    let owned = [String::from("soc"), String::from("uart@0")];
    assert_eq!(owned.as_components(), Ok(vec!["soc", "uart@0"]));
    assert_eq!(owned[1..].as_components(), Ok(vec!["uart@0"]));
    let none: [&str; 0] = [];
    assert_eq!(none.as_components(), Ok(vec![]));
}

#[test]
fn joined_path_has_the_same_components() {
    let parts = ["soc", "i2c@1", "", "sensor"];
    let mut path = String::new();
    for part in parts {
        path.push('/');
        path.push_str(part);
    }
    assert_eq!(path.as_str().as_components(), parts.as_components());
}

#[test]
fn error_messages() {
    assert_eq!(Error::Unknown.message(), "devicetree error: unknown");
    assert_eq!(Error::InvalidNodeName.message(), "devicetree error: invalid node name");
    assert_eq!(Error::InvalidPath.message(), "devicetree error: invalid path");
    assert_eq!(Error::TooManyCells.message(), "devicetree error: too many cells");
    assert_eq!(Error::UnsuitableProperty.message(), "devicetree error: unsuitable property");
    assert_eq!(
        Error::Blob(blob::Error::UnexpectedEnd).message(),
        "devicetree blob error: unexpected end of block"
    );
}

#[test]
fn blob_error_messages() {
    let messages = [
        (blob::Error::InvalidString, "invalid string"),
        (blob::Error::NestingTooDeep, "nesting too deep"),
        (blob::Error::UnalignedToken, "unaligned token"),
        (blob::Error::UnexpectedEnd, "unexpected end of block"),
        (blob::Error::UnexpectedEndNodeToken, "unexpected end-node token"),
        (blob::Error::UnexpectedEndToken, "unexpected end token"),
        (blob::Error::UnknownToken, "unknown token"),
    ];
    for (err, text) in messages {
        assert_eq!(err.message(), format!("devicetree blob error: {}", text));
        assert_eq!(Error::from(err), Error::Blob(err));
    }
}
