//! What holds of names, paths, reserved memory and cells, whatever they are.
use vstd::prelude::*;

use crate::blob::{self, Devicetree};
use crate::path::{joined, law_components_of_path};
use crate::reserve::next_entry;
use crate::util::{
    are_words_of, ascii_chars, be_number, cells_number, get_c_str, law_cells_of_bytes,
    law_split_name, lemma_first_index, lemma_first_index_unique, lemma_words_of_part, parse_cells,
    parse_cells_back, slice_get_with_len, split_name, split_node_name, u32_from_be_bytes,
    u64_from_be_bytes, word_number,
};
use crate::value_laws::same_text;
use crate::{Error, Path, ReserveEntries, ReserveEntry};

verus! {

/// Number of `@` in a name.
pub open spec fn at_signs(name: Seq<char>) -> nat
    decreases name.len(),
{
    if name.len() == 0 {
        0
    } else {
        at_signs(name.drop_last()) + (if name.last() == '@' {
            1nat
        } else {
            0nat
        })
    }
}

/// A name has no `@` if none of its characters is one.
proof fn lemma_no_at_sign(name: Seq<char>)
    ensures
        at_signs(name) == 0 <==> !name.contains('@'),
    decreases name.len(),
{
    if name.len() > 0 {
        let before = name.drop_last();
        lemma_no_at_sign(before);
        if name.contains('@') {
            let i = choose|i: int| 0 <= i < name.len() && name[i] == '@';
            if i < before.len() {
                assert(before[i] == '@');
            }
        }
        if before.contains('@') {
            let i = choose|i: int| 0 <= i < before.len() && before[i] == '@';
            assert(name[i] == '@');
        }
        if name.last() == '@' {
            assert(name[name.len() - 1] == '@');
        }
    }
}

/// The `@` of two names, one behind the other, add up.
proof fn lemma_at_signs_concat(a: Seq<char>, b: Seq<char>)
    ensures
        at_signs(a + b) == at_signs(a) + at_signs(b),
    decreases b.len(),
{
    if b.len() == 0 {
        assert(a + b == a);
    } else {
        assert((a + b).drop_last() == a + b.drop_last());
        lemma_at_signs_concat(a, b.drop_last());
    }
}

/// Two of them are more than one.
proof fn lemma_two_at_signs(name: Seq<char>, i: int, j: int)
    requires
        0 <= i < j < name.len(),
        name[i] == '@',
        name[j] == '@',
    ensures
        at_signs(name) >= 2,
{
    let (a, b) = (name.take(j), name.skip(j));
    assert(a + b == name);
    lemma_at_signs_concat(a, b);
    lemma_no_at_sign(a);
    lemma_no_at_sign(b);
    assert(a[i] == '@');
    assert(b[0] == '@');
}

/// A name without `@` is a node name without unit address. One `@` separates the
/// two. More than one is an error.
pub proof fn law_split_by_at_signs(name: Seq<char>)
    ensures
        match split_name(name) {
            Ok((node_name, None)) => at_signs(name) == 0 && node_name == name,
            Ok((node_name, Some(unit_address))) => {
                &&& at_signs(name) == 1
                &&& name == node_name + seq!['@'] + unit_address
            },
            Err(err) => at_signs(name) >= 2 && err == Error::InvalidNodeName,
        },
{
    law_split_name(name);
    lemma_no_at_sign(name);
    match split_name(name) {
        Ok((_, None)) => {},
        Ok((a, Some(b))) => {
            lemma_at_signs_concat(a + seq!['@'], b);
            lemma_at_signs_concat(a, seq!['@']);
            lemma_no_at_sign(a);
            lemma_no_at_sign(b);
            reveal_with_fuel(at_signs, 2);
            assert(seq!['@'].drop_last() == Seq::<char>::empty());
        },
        Err(_) => {
            let (i, j) = choose|i: int, j: int|
                0 <= i < j < name.len() && #[trigger] name[i] == '@' && #[trigger] name[j] == '@';
            lemma_two_at_signs(name, i, j);
        },
    }
}

/// The same of the function that splits a name.
pub proof fn law_split_node_name(name: &str, r: Result<(&str, Option<&str>), Error>)
    requires
        call_ensures(split_node_name, (name,), r),
    ensures
        if at_signs(name@) == 0 {
            r matches Ok((node_name, None)) && node_name@ == name@
        } else if at_signs(name@) == 1 {
            r matches Ok((node_name, Some(unit_address))) && name@ == node_name@ + seq!['@']
                + unit_address@
        } else {
            r == Err::<(&str, Option<&str>), Error>(Error::InvalidNodeName)
        },
{
    law_split_by_at_signs(name@);
}

/// The string in front of the first NUL byte is all of the text there, in order.
/// There has to be such a byte, and only ASCII in front of it; what is behind it
/// has no influence.
pub proof fn law_get_c_str(
    text: Seq<u8>,
    behind: Seq<u8>,
    terminated: &[u8],
    unterminated: &[u8],
    of_terminated: Result<&str, blob::Error>,
    of_unterminated: Result<&str, blob::Error>,
)
    requires
        !text.contains(0),
        terminated@ == text + seq![0u8] + behind,
        unterminated@ == text,
        call_ensures(get_c_str, (terminated,), of_terminated),
        call_ensures(get_c_str, (unterminated,), of_unterminated),
    ensures
        if exists|i: int| 0 <= i < text.len() && text[i] >= 128 {
            of_terminated == Err::<&str, blob::Error>(blob::Error::InvalidString)
        } else {
            of_terminated matches Ok(s) && same_text(s@, text)
        },
        of_unterminated == Err::<&str, blob::Error>(blob::Error::InvalidString),
{
    let bytes = terminated@;
    let len = text.len() as int;
    assert forall|j: int| 0 <= j < len implies bytes[j] != 0 by {
        assert(bytes[j] == text[j]);
        assert(text.contains(text[j]));
    }
    lemma_first_index_unique(bytes, 0u8, len);
    lemma_first_index(text, 0u8);
    assert(bytes.take(len) == text);
    assert forall|i: int| 0 <= i < text.len() implies #[trigger] ascii_chars(text)[i]
        == text[i] as char by {}
}

/// A part of a slice is all that is between its ends, and there is none that goes
/// beyond the slice.
pub proof fn law_slice_get_with_len<T>(slice: &[T], offset: usize, len: usize, r: Option<&[T]>)
    requires
        offset + len <= usize::MAX,
        call_ensures(slice_get_with_len::<T>, (slice, offset, len), r),
    ensures
        r is Some <==> offset + len <= slice@.len(),
        r matches Some(part) ==> part@.len() == len && forall|i: int|
            0 <= i < len ==> #[trigger] part@[i] == slice@[offset + i],
{
}

/// Numbers are read with the most significant byte first.
pub proof fn law_numbers_of_bytes(four: &[u8], eight: &[u8], x: u32, y: u64)
    requires
        four@.len() == 4,
        eight@.len() == 8,
        call_ensures(u32_from_be_bytes, (four,), x),
        call_ensures(u64_from_be_bytes, (eight,), y),
    ensures
        x == four@[0] * 0x100_0000 + four@[1] * 0x1_0000 + four@[2] * 0x100 + four@[3],
        y == eight@[0] * 0x100_0000_0000_0000 + eight@[1] * 0x1_0000_0000_0000 + eight@[2]
            * 0x100_0000_0000 + eight@[3] * 0x1_0000_0000 + eight@[4] * 0x100_0000 + eight@[5]
            * 0x1_0000 + eight@[6] * 0x100 + eight@[7],
{
    reveal_with_fuel(be_number, 9);
}

/// Parsing cells from the front gives the number that their bytes are, with the
/// most significant byte first, and takes these cells away. It gives nothing, and
/// takes nothing, if there are too few cells or more than 4 are asked for.
pub proof fn law_parse_cells(bytes: Seq<u8>)
    requires
        bytes.len() % 4 == 0,
    ensures
        forall|c: &mut &[u32], cells: u8, r: Option<u128>|
            #![trigger call_ensures(parse_cells, (c, cells), r)]
            are_words_of((*c)@, bytes) && call_ensures(parse_cells, (c, cells), r) ==> {
                if cells <= 4 && 4 * cells <= bytes.len() {
                    &&& r matches Some(value) && value as nat == be_number(bytes.take(4 * cells))
                    &&& (*final(c))@ == (*c)@.skip(cells as int)
                } else {
                    r is None && (*final(c))@ == (*c)@
                }
            },
{
    assert forall|words: Seq<u32>, cells: u8|
        #![trigger words.take(cells as int)]
        are_words_of(words, bytes) && cells <= words.len() implies cells_number(
        words.take(cells as int),
    ) == be_number(bytes.take(4 * cells)) by {
        let n = cells as int;
        lemma_words_of_part(words, bytes, 0, n);
        assert(words.take(n) == words.subrange(0, n));
        assert(bytes.take(4 * n) == bytes.subrange(0, 4 * n));
        law_cells_of_bytes(words.subrange(0, n), bytes.subrange(0, 4 * n));
    }
}

/// Parsing cells from the back gives the number that their bytes are, with the most
/// significant byte first, and takes these cells away. It gives nothing, and takes
/// nothing, if there are too few cells or more than 4 are asked for.
pub proof fn law_parse_cells_back(bytes: Seq<u8>)
    requires
        bytes.len() % 4 == 0,
    ensures
        forall|c: &mut &[u32], cells: u8, r: Option<u128>|
            #![trigger call_ensures(parse_cells_back, (c, cells), r)]
            are_words_of((*c)@, bytes) && call_ensures(parse_cells_back, (c, cells), r) ==> {
                if cells <= 4 && 4 * cells <= bytes.len() {
                    &&& r matches Some(value) && value as nat == be_number(
                        bytes.skip(bytes.len() - 4 * cells),
                    )
                    &&& (*final(c))@ == (*c)@.take((*c)@.len() - cells)
                } else {
                    r is None && (*final(c))@ == (*c)@
                }
            },
{
    assert forall|words: Seq<u32>, n: int|
        #![trigger words.skip(n)]
        are_words_of(words, bytes) && 0 <= n <= words.len() implies cells_number(
        words.skip(n),
    ) == be_number(bytes.skip(4 * n)) by {
        let len = words.len() as int;
        lemma_words_of_part(words, bytes, n, len);
        assert(words.skip(n) == words.subrange(n, len));
        assert(bytes.skip(4 * n) == bytes.subrange(4 * n, 4 * len));
        law_cells_of_bytes(words.subrange(n, len), bytes.subrange(4 * n, 4 * len));
    }
}

/// A string is a path if it starts with a slash, and only then. Its components hold
/// no slash, and make up the path if a slash is put in front of each. The path `/`
/// has no components.
pub proof fn law_string_path<'a>(path: &'a str, r: Result<Vec<&'a str>, Error>)
    requires
        call_ensures(<str as Path>::as_components, (path,), r),
    ensures
        if path@.len() == 0 || path@[0] != '/' {
            r == Err::<Vec<&'a str>, Error>(Error::InvalidPath)
        } else if path@.len() == 1 {
            r matches Ok(v) && v@.len() == 0
        } else {
            r matches Ok(v) && {
                &&& joined(v@.map_values(|s: &str| s@)) == path@
                &&& forall|i: int| 0 <= i < v@.len() ==> !(#[trigger] v@[i])@.contains('/')
            }
        },
{
    if path@.len() > 1 && path@[0] == '/' {
        law_components_of_path(path@);
        let list = r->Ok_0@;
        let views = list.map_values(|s: &str| s@);
        assert forall|i: int| 0 <= i < list.len() implies !(#[trigger] list[i])@.contains('/') by {
            assert(views[i] == list[i]@);
        }
    } else if path@.len() == 1 && path@[0] == '/' {
        let list = r->Ok_0@;
        assert(list.map_values(|s: &str| s@).len() == 0);
    }
}

/// A slice or an array of components is a path with these components, all of them
/// in order, whether they are borrowed or owned.
pub proof fn law_paths_of_components<'b, const N: usize>(
    slice: &[&'b str],
    array: &[&'b str; N],
    owned_slice: &[String],
    owned_array: &[String; N],
)
    ensures
        slice.components() matches Ok(list) && list.len() == slice@.len() && forall|i: int|
            0 <= i < list.len() ==> #[trigger] list[i] == slice@[i]@,
        array.components() matches Ok(list) && list.len() == array@.len() && forall|i: int|
            0 <= i < list.len() ==> #[trigger] list[i] == array@[i]@,
        owned_slice.components() matches Ok(list) && list.len() == owned_slice@.len() && forall|
            i: int,
        |
            0 <= i < list.len() ==> #[trigger] list[i] == owned_slice@[i]@,
        owned_array.components() matches Ok(list) && list.len() == owned_array@.len() && forall|
            i: int,
        |
            0 <= i < list.len() ==> #[trigger] list[i] == owned_array@[i]@,
{
}

/// An entry of reserved memory is what its two words stand for, unless both are
/// zero, which ends the block. Either way both words are taken. A block of fewer
/// than two words ends too early, and stays as it is.
pub proof fn law_next_entry(first: u64, second: u64, behind: Seq<u64>, short: Seq<u64>)
    requires
        short.len() < 2,
    ensures
        ({
            let (r, rest) = next_entry(seq![first, second] + behind);
            &&& rest == behind
            &&& if first == 0 && second == 0 {
                r == Ok::<Option<ReserveEntry>, Error>(None)
            } else {
                r == Ok::<Option<ReserveEntry>, Error>(
                    Some(
                        ReserveEntry {
                            address: word_number(first as nat, 8) as u64,
                            size: word_number(second as nat, 8) as u64,
                        },
                    ),
                )
            }
        }),
        next_entry(short) == (
            Err::<Option<ReserveEntry>, Error>(Error::Blob(blob::Error::UnexpectedEnd)),
            short,
        ),
{
    assert((seq![first, second] + behind).skip(2) == behind);
}

/// An error is described by its own words, behind those of the crate. An error of
/// the blob is described as by itself.
pub proof fn law_messages(err: &Error, inner: &blob::Error, text: String, inner_text: String)
    requires
        call_ensures(Error::message, (err,), text),
        call_ensures(blob::Error::message, (inner,), inner_text),
    ensures
        match *err {
            Error::Unknown => text@ == "devicetree error: unknown"@,
            Error::Blob(e) => e == *inner ==> text@ == inner_text@,
            Error::InvalidNodeName => text@ == "devicetree error: invalid node name"@,
            Error::InvalidPath => text@ == "devicetree error: invalid path"@,
            Error::TooManyCells => text@ == "devicetree error: too many cells"@,
            Error::UnsuitableProperty => text@ == "devicetree error: unsuitable property"@,
        },
        inner_text@ == match *inner {
            blob::Error::InvalidString => "devicetree blob error: invalid string"@,
            blob::Error::NestingTooDeep => "devicetree blob error: nesting too deep"@,
            blob::Error::UnalignedToken => "devicetree blob error: unaligned token"@,
            blob::Error::UnexpectedEnd => "devicetree blob error: unexpected end of block"@,
            blob::Error::UnexpectedEndNodeToken => {
                "devicetree blob error: unexpected end-node token"@
            },
            blob::Error::UnexpectedEndToken => "devicetree blob error: unexpected end token"@,
            blob::Error::UnknownToken => "devicetree blob error: unknown token"@,
        },
{
    reveal_strlit("devicetree error: ");
    reveal_strlit("unknown");
    reveal_strlit("invalid node name");
    reveal_strlit("invalid path");
    reveal_strlit("too many cells");
    reveal_strlit("unsuitable property");
    reveal_strlit("devicetree error: unknown");
    reveal_strlit("devicetree error: invalid node name");
    reveal_strlit("devicetree error: invalid path");
    reveal_strlit("devicetree error: too many cells");
    reveal_strlit("devicetree error: unsuitable property");
    lemma_blob_message(inner, inner_text);
}

/// How errors of the blob are described.
proof fn lemma_blob_message(inner: &blob::Error, text: String)
    requires
        call_ensures(blob::Error::message, (inner,), text),
    ensures
        text@ == match *inner {
            blob::Error::InvalidString => "devicetree blob error: invalid string"@,
            blob::Error::NestingTooDeep => "devicetree blob error: nesting too deep"@,
            blob::Error::UnalignedToken => "devicetree blob error: unaligned token"@,
            blob::Error::UnexpectedEnd => "devicetree blob error: unexpected end of block"@,
            blob::Error::UnexpectedEndNodeToken => {
                "devicetree blob error: unexpected end-node token"@
            },
            blob::Error::UnexpectedEndToken => "devicetree blob error: unexpected end token"@,
            blob::Error::UnknownToken => "devicetree blob error: unknown token"@,
        },
{
    reveal_strlit("devicetree blob error: ");
    reveal_strlit("invalid string");
    reveal_strlit("nesting too deep");
    reveal_strlit("unaligned token");
    reveal_strlit("unexpected end of block");
    reveal_strlit("unexpected end-node token");
    reveal_strlit("unexpected end token");
    reveal_strlit("unknown token");
    reveal_strlit("devicetree blob error: invalid string");
    reveal_strlit("devicetree blob error: nesting too deep");
    reveal_strlit("devicetree blob error: unaligned token");
    reveal_strlit("devicetree blob error: unexpected end of block");
    reveal_strlit("devicetree blob error: unexpected end-node token");
    reveal_strlit("devicetree blob error: unexpected end token");
    reveal_strlit("devicetree blob error: unknown token");
}

/// An error of the blob is kept as it is.
pub proof fn law_blob_error(err: blob::Error, r: Error)
    requires
        call_ensures(<Error as From<blob::Error>>::from, (err,), r),
    ensures
        r == Error::Blob(err),
{
}

/// The entries of a devicetree are those of all of its memory reservation block.
pub proof fn law_reserve_entries(dt: &Devicetree, r: ReserveEntries<'_>)
    requires
        call_ensures(Devicetree::reserve_entries, (dt,), r),
    ensures
        r@ == dt@.reserve,
{
}

} // verus!
