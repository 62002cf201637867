//! Utility functions.
use ascii::{AsAsciiStrError, AsciiStr};
use vstd::arithmetic::power2::pow2;
use vstd::endian::{endianness, Endian};
use vstd::prelude::*;
use vstd::slice::slice_subrange;
use vstd::string::*;
use vstd::utf8::encode_utf8_decode_utf8;

use crate::blob;
use crate::{Cells, Error};

verus! {

// ---------------------------------------------------------------------------
// Sequences
// ---------------------------------------------------------------------------

/// Index of the first occurrence of `x` in `s`, or the length of `s` if there
/// is none.
pub open spec fn first_index<T>(s: Seq<T>, x: T) -> int
    decreases s.len(),
{
    if s.len() == 0 || s[0] == x {
        0
    } else {
        1 + first_index(s.skip(1), x)
    }
}

/// The first index is within bounds, holds `x` unless it is the length, and
/// nothing before it is `x`.
pub proof fn lemma_first_index<T>(s: Seq<T>, x: T)
    ensures
        0 <= first_index(s, x) <= s.len(),
        first_index(s, x) < s.len() ==> s[first_index(s, x)] == x,
        forall|j: int| 0 <= j < first_index(s, x) ==> s[j] != x,
        s.contains(x) <==> first_index(s, x) < s.len(),
    decreases s.len(),
{
    if s.len() == 0 || s[0] == x {
    } else {
        let t = s.skip(1);
        lemma_first_index(t, x);
        assert forall|j: int| 0 <= j < first_index(s, x) implies s[j] != x by {
            if j > 0 {
                assert(t[j - 1] == s[j]);
            }
        }
        if s.contains(x) {
            let k = choose|k: int| 0 <= k < s.len() && s[k] == x;
            assert(t[k - 1] == x);
        }
        if t.contains(x) {
            let k = choose|k: int| 0 <= k < t.len() && t[k] == x;
            assert(s[k + 1] == x);
        }
    }
}

/// An index with the properties of the first index is the first index.
pub proof fn lemma_first_index_unique<T>(s: Seq<T>, x: T, i: int)
    requires
        0 <= i <= s.len(),
        i < s.len() ==> s[i] == x,
        forall|j: int| 0 <= j < i ==> s[j] != x,
    ensures
        first_index(s, x) == i,
{
    lemma_first_index(s, x);
    let k = first_index(s, x);
    if k < i {
        assert(s[k] != x);
    } else if i < k {
        assert(s[i] != x);
    }
}

/// Splits `s` around the first occurrence of `c`.
pub open spec fn split_once(s: Seq<char>, c: char) -> Option<(Seq<char>, Seq<char>)> {
    let i = first_index(s, c);
    if i < s.len() {
        Some((s.take(i), s.skip(i + 1)))
    } else {
        None
    }
}

/// Splits `s` around every occurrence of `c`.
pub open spec fn split_all(s: Seq<char>, c: char) -> Seq<Seq<char>>
    decreases s.len(),
{
    let i = first_index(s, c);
    if 0 <= i < s.len() {
        seq![s.take(i)] + split_all(s.skip(i + 1), c)
    } else {
        seq![s]
    }
}

// ---------------------------------------------------------------------------
// Strings
// ---------------------------------------------------------------------------

/// Whether all bytes are ASCII.
pub open spec fn is_ascii_bytes(bytes: Seq<u8>) -> bool {
    forall|i: int| 0 <= i < bytes.len() ==> bytes[i] < 128
}

/// The characters that ASCII bytes stand for.
pub open spec fn ascii_chars(bytes: Seq<u8>) -> Seq<char> {
    bytes.map_values(|b: u8| b as char)
}

/// The string in front of the first NUL byte.
pub open spec fn c_str(bytes: Seq<u8>) -> Result<Seq<char>, blob::Error> {
    let len = first_index(bytes, 0u8);
    if len == bytes.len() || !is_ascii_bytes(bytes.take(len)) {
        Err(blob::Error::InvalidString)
    } else {
        Ok(ascii_chars(bytes.take(len)))
    }
}

/// The error of the `ascii` crate for bytes that are not ASCII.
#[verifier::external_type_specification]
#[verifier::external_body]
pub struct ExAsAsciiStrError(AsAsciiStrError);

/// Calls `ascii::AsciiStr::from_ascii` and hands its result out as a `str`
/// (`ascii::AsciiStr::as_str`). Trusted: it succeeds exactly for bytes that
/// are all ASCII, and the string then holds those bytes as characters.
#[verifier::external_body]
pub(crate) fn from_ascii(bytes: &[u8]) -> (r: Result<&str, AsAsciiStrError>)
    ensures
        r is Ok <==> is_ascii_bytes(bytes@),
        r matches Ok(s) ==> s@ == ascii_chars(bytes@),
{
    match AsciiStr::from_ascii(bytes) {
        Ok(s) => Ok(s.as_str()),
        Err(err) => Err(err),
    }
}

/// Compares two strings.
pub(crate) fn str_eq(a: &str, b: &str) -> (r: bool)
    ensures
        r == (a@ == b@),
{
    let x = a.as_bytes();
    let y = b.as_bytes();
    proof {
        encode_utf8_decode_utf8(a@);
        encode_utf8_decode_utf8(b@);
    }
    if x.len() != y.len() {
        return false;
    }
    for i in 0..x.len()
        invariant
            x@ == a.spec_bytes(),
            y@ == b.spec_bytes(),
            x@.len() == y@.len(),
            forall|j: int| 0 <= j < i ==> x@[j] == y@[j],
    {
        if x[i] != y[i] {
            return false;
        }
    }
    assert(x@ == y@);
    true
}

/// Finds the first occurrence of a character.
fn find_char(s: &str, c: char) -> (r: usize)
    ensures
        r == first_index(s@, c),
{
    let len = s.unicode_len();
    let mut i: usize = 0;
    for ch in it: s.chars()
        invariant
            i == it.index(),
            it.seq() == s@,
            s@.len() == len,
            forall|j: int| 0 <= j < i ==> s@[j] != c,
    {
        if ch == c {
            proof {
                lemma_first_index_unique(s@, c, i as int);
            }
            return i;
        }
        i = i + 1;
    }
    proof {
        lemma_first_index_unique(s@, c, i as int);
    }
    i
}

/// Splits a string around the first occurrence of a character.
fn split_str_once(s: &str, c: char) -> (r: Option<(&str, &str)>)
    ensures
        match r {
            Some((head, tail)) => split_once(s@, c) == Some((head@, tail@)),
            None => split_once(s@, c) is None,
        },
{
    let len = s.unicode_len();
    let i = find_char(s, c);
    proof {
        lemma_first_index(s@, c);
    }
    if i < len {
        Some((s.substring_char(0, i), s.substring_char(i + 1, len)))
    } else {
        None
    }
}

/// Splits a string around every occurrence of a character.
pub(crate) fn split_str_all(s: &str, c: char) -> (r: Vec<&str>)
    ensures
        r@.map_values(|part: &str| part@) == split_all(s@, c),
{
    let mut parts: Vec<&str> = Vec::new();
    let mut rest = s;
    loop
        invariant
            split_all(s@, c) == parts@.map_values(|part: &str| part@) + split_all(rest@, c),
        decreases rest@.len(),
    {
        proof {
            lemma_first_index(rest@, c);
        }
        match split_str_once(rest, c) {
            Some((head, tail)) => {
                parts.push(head);
                rest = tail;
            },
            None => {
                parts.push(rest);
                return parts;
            },
        }
    }
}

/// What a node name splits into.
pub open spec fn split_name(name: Seq<char>) -> Result<(Seq<char>, Option<Seq<char>>), Error> {
    match split_once(name, '@') {
        None => Ok((name, None)),
        Some((node_name, rest)) => if rest.contains('@') {
            Err(Error::InvalidNodeName)
        } else {
            Ok((node_name, Some(rest)))
        },
    }
}

/// The parts of a split name, joined by `@`, are the name, and hold no `@`
/// themselves. Splitting fails exactly if there is more than one `@`.
pub proof fn law_split_name(name: Seq<char>)
    ensures
        match split_name(name) {
            Ok((node_name, None)) => node_name == name && !name.contains('@'),
            Ok((node_name, Some(unit_address))) => {
                &&& name == node_name + seq!['@'] + unit_address
                &&& !node_name.contains('@')
                &&& !unit_address.contains('@')
            },
            Err(err) => {
                &&& err == Error::InvalidNodeName
                &&& exists|i: int, j: int|
                    0 <= i < j < name.len() && #[trigger] name[i] == '@' && #[trigger] name[j]
                        == '@'
            },
        },
{
    lemma_first_index(name, '@');
    let i = first_index(name, '@');
    if i < name.len() {
        let rest = name.skip(i + 1);
        assert(name == name.take(i) + seq!['@'] + rest);
        if rest.contains('@') {
            let k = choose|k: int| 0 <= k < rest.len() && rest[k] == '@';
            assert(name[i] == '@' && name[i + 1 + k] == '@');
        }
    }
}

/// A node name and a unit address, joined by `@`, split into the two again.
pub proof fn law_join_name(node_name: Seq<char>, unit_address: Seq<char>)
    requires
        !node_name.contains('@'),
        !unit_address.contains('@'),
    ensures
        split_name(node_name) == Ok::<(Seq<char>, Option<Seq<char>>), Error>((node_name, None)),
        split_name(node_name + seq!['@'] + unit_address) == Ok::<
            (Seq<char>, Option<Seq<char>>),
            Error,
        >((node_name, Some(unit_address))),
{
    lemma_first_index(node_name, '@');
    let name = node_name + seq!['@'] + unit_address;
    let i = node_name.len() as int;
    assert forall|j: int| 0 <= j < i implies name[j] != '@' by {
        assert(name[j] == node_name[j]);
    }
    lemma_first_index_unique(name, '@', i);
    assert(name.take(i) == node_name);
    assert(name.skip(i + 1) == unit_address);
}

/// The characters of a split name.
pub open spec fn split_name_view(
    r: Result<(&str, Option<&str>), Error>,
) -> Result<(Seq<char>, Option<Seq<char>>), Error> {
    match r {
        Ok((node_name, None)) => Ok((node_name@, None)),
        Ok((node_name, Some(unit_address))) => Ok((node_name@, Some(unit_address@))),
        Err(err) => Err(err),
    }
}

/// Splits a node name as follows:
/// ```text
/// <node-name> [@ <unit-address>]
/// ```
///
/// # Errors
/// There cannot be more than one `@`.
pub fn split_node_name(name: &str) -> (r: Result<(&str, Option<&str>), Error>)
    ensures
        split_name_view(r) == split_name(name@),
{
    match split_str_once(name, '@') {
        None => Ok((name, None)),
        Some((node_name, rest)) => {
            proof {
                lemma_first_index(rest@, '@');
            }
            if split_str_once(rest, '@').is_some() {
                Err(Error::InvalidNodeName)
            } else {
                Ok((node_name, Some(rest)))
            }
        },
    }
}

/// Reads the string in front of the first NUL byte.
pub fn get_c_str(blob: &[u8]) -> (r: Result<&str, blob::Error>)
    ensures
        match r {
            Ok(s) => c_str(blob@) == Ok::<Seq<char>, blob::Error>(s@),
            Err(err) => c_str(blob@) == Err::<Seq<char>, blob::Error>(err),
        },
{
    let mut len: usize = 0;
    while len < blob.len() && blob[len] != 0
        invariant
            len <= blob@.len(),
            forall|j: int| 0 <= j < len ==> blob@[j] != 0,
        decreases blob@.len() - len,
    {
        len = len + 1;
    }
    proof {
        lemma_first_index_unique(blob@, 0u8, len as int);
    }
    if len == blob.len() {
        return Err(blob::Error::InvalidString);
    }
    match from_ascii(slice_subrange(blob, 0, len)) {
        Ok(s) => Ok(s),
        Err(_) => Err(blob::Error::InvalidString),
    }
}

/// Same as `<[_]>::get` with a range except that it takes a length, not an end
/// offset.
pub fn slice_get_with_len<T>(slice: &[T], offset: usize, len: usize) -> (r: Option<&[T]>)
    requires
        offset + len <= usize::MAX,
    ensures
        match r {
            Some(part) => offset + len <= slice@.len() && part@ == slice@.subrange(
                offset as int,
                offset + len,
            ),
            None => offset + len > slice@.len(),
        },
{
    if offset + len <= slice.len() {
        Some(slice_subrange(slice, offset, offset + len))
    } else {
        None
    }
}

// ---------------------------------------------------------------------------
// Numbers
// ---------------------------------------------------------------------------

/// The number that bytes stand for, most significant byte first.
pub open spec fn be_number(bytes: Seq<u8>) -> nat
    decreases bytes.len(),
{
    if bytes.len() == 0 {
        0
    } else {
        be_number(bytes.drop_last()) * 256 + bytes.last() as nat
    }
}

/// The number that bytes stand for, least significant byte first.
pub open spec fn le_number(bytes: Seq<u8>) -> nat
    decreases bytes.len(),
{
    if bytes.len() == 0 {
        0
    } else {
        bytes[0] as nat + 256 * le_number(bytes.skip(1))
    }
}

/// The number that bytes stand for in the byte order of the machine.
pub open spec fn native_number(bytes: Seq<u8>) -> nat {
    match endianness() {
        Endian::Big => be_number(bytes),
        Endian::Little => le_number(bytes),
    }
}

/// The `len` bytes of a number, least significant byte first.
pub open spec fn le_bytes(x: nat, len: nat) -> Seq<u8>
    decreases len,
{
    if len == 0 {
        Seq::empty()
    } else {
        seq![(x % 256) as u8] + le_bytes(x / 256, (len - 1) as nat)
    }
}

/// The number that a machine word of `len` bytes stands for if the bytes of the
/// word, in memory, are a number with the most significant byte first.
pub open spec fn word_number(x: nat, len: nat) -> nat {
    match endianness() {
        Endian::Big => x,
        Endian::Little => be_number(le_bytes(x, len)),
    }
}

/// Trusted: `u32::from_be` keeps the number on a big-endian machine and
/// reverses its bytes on a little-endian one.
pub assume_specification[ u32::from_be ](x: u32) -> (r: u32)
    ensures
        r == word_number(x as nat, 4),
;

/// Trusted: `u64::from_be` keeps the number on a big-endian machine and
/// reverses its bytes on a little-endian one.
pub assume_specification[ u64::from_be ](x: u64) -> (r: u64)
    ensures
        r == word_number(x as nat, 8),
;

/// Calls `u32::from_ne_bytes`. Trusted: it reads the bytes in the byte order of
/// the machine.
#[verifier::external_body]
pub(crate) fn u32_from_ne_bytes(bytes: [u8; 4]) -> (r: u32)
    ensures
        r == native_number(bytes@),
{
    u32::from_ne_bytes(bytes)
}

/// A number of `n` bytes is below `2^(8 n)`.
pub proof fn lemma_be_number_bound(bytes: Seq<u8>)
    ensures
        be_number(bytes) < pow2(8 * bytes.len()),
    decreases bytes.len(),
{
    if bytes.len() == 0 {
        vstd::arithmetic::power2::lemma2_to64();
    } else {
        lemma_be_number_bound(bytes.drop_last());
        let n = (8 * (bytes.len() - 1)) as nat;
        vstd::arithmetic::power2::lemma_pow2_adds(n, 8);
        vstd::arithmetic::power2::lemma2_to64();
        assert(pow2(n + 8) == pow2(n) * 256);
    }
}

/// Reading the bytes of a number gives them back.
pub proof fn lemma_le_bytes_of_le_number(bytes: Seq<u8>)
    ensures
        le_bytes(le_number(bytes), bytes.len()) == bytes,
    decreases bytes.len(),
{
    if bytes.len() > 0 {
        let rest = bytes.skip(1);
        lemma_le_bytes_of_le_number(rest);
        let x = le_number(bytes);
        assert(x % 256 == bytes[0] as nat && x / 256 == le_number(rest)) by (nonlinear_arith)
            requires
                x == bytes[0] as nat + 256 * le_number(rest),
                (bytes[0] as nat) < 256,
        ;
        assert(bytes == seq![bytes[0]] + rest);
    }
}

/// A machine word read from bytes stands for the number that those bytes are
/// with the most significant byte first, on every machine.
pub proof fn lemma_word_number_of_native_number(bytes: Seq<u8>)
    ensures
        word_number(native_number(bytes), bytes.len()) == be_number(bytes),
{
    lemma_le_bytes_of_le_number(bytes);
}

/// Reads 4 bytes as a number with the most significant byte first.
pub fn u32_from_be_bytes(bytes: &[u8]) -> (r: u32)
    requires
        bytes@.len() == 4,
    ensures
        r == be_number(bytes@),
{
    reveal_with_fuel(be_number, 5);
    (bytes[0] as u32) * 0x100_0000 + (bytes[1] as u32) * 0x1_0000 + (bytes[2] as u32) * 0x100 + (
    bytes[3] as u32)
}

/// Reads 8 bytes as a number with the most significant byte first.
pub fn u64_from_be_bytes(bytes: &[u8]) -> (r: u64)
    requires
        bytes@.len() == 8,
    ensures
        r == be_number(bytes@),
{
    reveal_with_fuel(be_number, 9);
    (bytes[0] as u64) * 0x100_0000_0000_0000 + (bytes[1] as u64) * 0x1_0000_0000_0000 + (
    bytes[2] as u64) * 0x100_0000_0000 + (bytes[3] as u64) * 0x1_0000_0000 + (bytes[4] as u64)
        * 0x100_0000 + (bytes[5] as u64) * 0x1_0000 + (bytes[6] as u64) * 0x100 + (bytes[7] as u64)
}

/// The number that cells stand for, most significant cell first.
pub open spec fn cells_number(words: Seq<u32>) -> nat
    decreases words.len(),
{
    if words.len() == 0 {
        0
    } else {
        cells_number(words.drop_last()) * 0x1_0000_0000 + word_number(words.last() as nat, 4)
    }
}

/// Whether `words` are the machine words that `bytes` hold.
pub open spec fn are_words_of(words: Seq<u32>, bytes: Seq<u8>) -> bool {
    &&& words.len() == bytes.len() / 4
    &&& forall|i: int|
        0 <= i < words.len() ==> #[trigger] words[i] == native_number(
            bytes.subrange(4 * i, 4 * i + 4),
        )
}

/// A word of 4 bytes stands for a number of 4 bytes.
proof fn lemma_word_number_bound(x: u32)
    ensures
        word_number(x as nat, 4) <= u32::MAX,
{
    let bytes = le_bytes(x as nat, 4);
    assert(bytes.len() == 4) by {
        reveal_with_fuel(le_bytes, 5);
    }
    lemma_be_number_bound(bytes);
    vstd::arithmetic::power2::lemma2_to64();
}

/// `n` cells stand for a number below `2^(32 n)`.
pub proof fn law_cells_bound(words: Seq<u32>)
    ensures
        cells_number(words) < pow2(32 * words.len()),
    decreases words.len(),
{
    vstd::arithmetic::power2::lemma2_to64();
    if words.len() > 0 {
        let head = words.drop_last();
        law_cells_bound(head);
        lemma_word_number_bound(words.last());
        let n = (32 * head.len()) as nat;
        vstd::arithmetic::power2::lemma_pow2_adds(n, 32);
        assert(pow2(n + 32) == pow2(n) * 0x1_0000_0000);
        assert(n + 32 == 32 * words.len());
    }
}

/// The bytes of two numbers, one behind the other, are the first number shifted
/// by the bytes of the second one, plus the second one.
pub proof fn lemma_be_number_concat(a: Seq<u8>, b: Seq<u8>)
    ensures
        be_number(a + b) == be_number(a) * pow2(8 * b.len()) + be_number(b),
    decreases b.len(),
{
    vstd::arithmetic::power2::lemma2_to64();
    if b.len() == 0 {
        assert(a + b == a);
        let (x, p) = (be_number(a), pow2(8 * b.len()));
        assert(x * p == x) by (nonlinear_arith)
            requires
                p == 1,
        ;
    } else {
        let head = b.drop_last();
        lemma_be_number_concat(a, head);
        assert((a + b).drop_last() == a + head);
        let n = (8 * head.len()) as nat;
        vstd::arithmetic::power2::lemma_pow2_adds(n, 8);
        assert(n + 8 == 8 * b.len());
        let x = be_number(a);
        let p = pow2(n);
        let y = be_number(head);
        assert((x * p + y) * 256 == x * (p * 256) + y * 256) by (nonlinear_arith);
        assert(pow2(n + 8) == p * 256);
        assert((a + b).last() == b.last());
    }
}

/// The cells of two numbers, one behind the other, are the first number shifted
/// by the cells of the second one, plus the second one.
pub proof fn law_cells_concat(a: Seq<u32>, b: Seq<u32>)
    ensures
        cells_number(a + b) == cells_number(a) * pow2(32 * b.len()) + cells_number(b),
    decreases b.len(),
{
    vstd::arithmetic::power2::lemma2_to64();
    if b.len() == 0 {
        assert(a + b == a);
        let (x, p) = (cells_number(a), pow2(32 * b.len()));
        assert(x * p == x) by (nonlinear_arith)
            requires
                p == 1,
        ;
    } else {
        let head = b.drop_last();
        law_cells_concat(a, head);
        assert((a + b).drop_last() == a + head);
        let n = (32 * head.len()) as nat;
        vstd::arithmetic::power2::lemma_pow2_adds(n, 32);
        assert(n + 32 == 32 * b.len());
        let x = cells_number(a);
        let p = pow2(n);
        let y = cells_number(head);
        assert((x * p + y) * 0x1_0000_0000 == x * (p * 0x1_0000_0000) + y * 0x1_0000_0000)
            by (nonlinear_arith);
        assert(pow2(n + 32) == p * 0x1_0000_0000);
        assert((a + b).last() == b.last());
    }
}

/// The words that bytes hold, read as cells, stand for the number that the
/// bytes are with the most significant byte first, on every machine.
pub proof fn law_cells_of_bytes(words: Seq<u32>, bytes: Seq<u8>)
    requires
        are_words_of(words, bytes),
        bytes.len() % 4 == 0,
    ensures
        cells_number(words) == be_number(bytes),
    decreases bytes.len(),
{
    if bytes.len() > 0 {
        let n = words.len() - 1;
        let head = bytes.take(4 * n);
        let last = bytes.skip(4 * n);
        assert(are_words_of(words.drop_last(), head)) by {
            lemma_words_of_part(words, bytes, 0, n);
            assert(words.subrange(0, n) == words.drop_last());
            assert(bytes.subrange(0, 4 * n) == head);
        }
        law_cells_of_bytes(words.drop_last(), head);
        assert(bytes.subrange(4 * n, 4 * n + 4) == last);
        assert(words[n] == native_number(last));
        lemma_word_number_of_native_number(last);
        lemma_be_number_concat(head, last);
        assert(head + last == bytes);
        vstd::arithmetic::power2::lemma2_to64();
    }
}

/// Part of the words that bytes hold are the words of part of the bytes.
pub proof fn lemma_words_of_part(words: Seq<u32>, bytes: Seq<u8>, from: int, to: int)
    requires
        are_words_of(words, bytes),
        0 <= from <= to <= words.len(),
    ensures
        are_words_of(words.subrange(from, to), bytes.subrange(4 * from, 4 * to)),
{
    let some_words = words.subrange(from, to);
    let some_bytes = bytes.subrange(4 * from, 4 * to);
    assert forall|i: int| 0 <= i < some_words.len() implies #[trigger] some_words[i]
        == native_number(some_bytes.subrange(4 * i, 4 * i + 4)) by {
        let j = from + i;
        assert(some_words[i] == words[j]);
        assert(some_bytes.subrange(4 * i, 4 * i + 4) == bytes.subrange(4 * j, 4 * j + 4));
    }
}

/// Appends one cell to a number.
fn push_cell(value: u128, cell: u32) -> (r: u128)
    requires
        value < 0x1_0000_0000_0000_0000_0000_0000,
    ensures
        r == value * 0x1_0000_0000 + cell,
{
    assert((value << 0x20) | (cell as u128) == value * 0x1_0000_0000 + cell) by (bit_vector)
        requires
            value < 0x1_0000_0000_0000_0000_0000_0000,
    ;
    (value << 0x20) | (cell as u128)
}

/// Reads all given cells as one number.
fn read_cells(words: &[u32]) -> (r: u128)
    requires
        words@.len() <= 4,
    ensures
        r == cells_number(words@),
{
    let mut value: u128 = 0;
    let mut i: usize = 0;
    assert(words@.take(0) == Seq::<u32>::empty());
    while i < words.len()
        invariant
            i <= words@.len() <= 4,
            value == cells_number(words@.take(i as int)),
            i == 0 ==> value == 0,
            i == 1 ==> value < 0x1_0000_0000,
            i == 2 ==> value < 0x1_0000_0000_0000_0000,
            i == 3 ==> value < 0x1_0000_0000_0000_0000_0000_0000,
        decreases words@.len() - i,
    {
        let cell = u32::from_be(words[i]);
        value = push_cell(value, cell);
        assert(words@.take(i + 1).drop_last() == words@.take(i as int));
        i = i + 1;
    }
    assert(words@.take(i as int) == words@);
    value
}

/// Parses the 4-byte cells of a property value.
///
/// Returns something only if `bytes` is long enough and the cell count is
/// no bigger than 16 bytes. The devicetree format has no such limit.
/// Defaults to 0 if zero cells are to be parsed.
pub fn parse_cells(bytes: &mut &[u32], cells: Cells) -> (r: Option<u128>)
    ensures
        match r {
            Some(value) => {
                &&& cells <= 4
                &&& cells <= old(bytes)@.len()
                &&& value == cells_number(old(bytes)@.take(cells as int))
                &&& final(bytes)@ == old(bytes)@.skip(cells as int)
            },
            None => {
                &&& cells > 4 || cells > old(bytes)@.len()
                &&& final(bytes)@ == old(bytes)@
            },
        },
{
    if cells > 4 {
        return None;
    }
    let count = cells as usize;
    if count > bytes.len() {
        return None;
    }
    let value = read_cells(slice_subrange(*bytes, 0, count));
    *bytes = slice_subrange(*bytes, count, bytes.len());
    Some(value)
}

/// Parses the 4-byte cells at the end of a property value.
///
/// Returns something only if `bytes` is long enough and the cell count is
/// no bigger than 16 bytes.
pub fn parse_cells_back(bytes: &mut &[u32], cells: Cells) -> (r: Option<u128>)
    ensures
        match r {
            Some(value) => {
                &&& cells <= 4
                &&& cells <= old(bytes)@.len()
                &&& value == cells_number(old(bytes)@.skip(old(bytes)@.len() - cells))
                &&& final(bytes)@ == old(bytes)@.take(old(bytes)@.len() - cells)
            },
            None => {
                &&& cells > 4 || cells > old(bytes)@.len()
                &&& final(bytes)@ == old(bytes)@
            },
        },
{
    if cells > 4 {
        return None;
    }
    let count = cells as usize;
    if count > bytes.len() {
        return None;
    }
    let idx = bytes.len() - count;
    let value = read_cells(slice_subrange(*bytes, idx, bytes.len()));
    *bytes = slice_subrange(*bytes, 0, idx);
    Some(value)
}

} // verus!
