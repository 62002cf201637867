//! What holds of the values that properties are converted into, whatever bytes
//! they hold.
use vstd::arithmetic::power2::pow2;
use vstd::prelude::*;

use crate::blob::{self, Property};
use crate::prop_value::{
    all_strings, lemma_whole_blocks, next_string, reg_blocks, AddressCells, Reg, RegBlock, RegView,
    SizeCells, Strings,
};
use crate::util::{
    are_words_of, ascii_chars, be_number, cells_number, first_index, is_ascii_bytes,
    law_cells_of_bytes, lemma_be_number_bound, lemma_first_index, lemma_first_index_unique,
    lemma_word_number_of_native_number, lemma_words_of_part, word_number,
};
use crate::{DeserializeProperty, Error, NodeContext};

verus! {

// ---------------------------------------------------------------------------
// Numbers
// ---------------------------------------------------------------------------

/// One byte is a number by itself. Together with
/// [`lemma_be_number_concat`](crate::util::lemma_be_number_concat), this
/// determines what number any bytes are.
pub proof fn law_be_number_of_byte(b: u8)
    ensures
        be_number(seq![b]) == b,
        be_number(Seq::empty()) == 0,
{
    reveal_with_fuel(be_number, 2);
    assert(seq![b].drop_last() == Seq::<u8>::empty());
}

/// The `len` lowest bytes of a number, most significant byte first.
pub open spec fn number_bytes(x: nat, len: nat) -> Seq<u8>
    decreases len,
{
    if len == 0 {
        Seq::empty()
    } else {
        number_bytes(x / 256, (len - 1) as nat).push((x % 256) as u8)
    }
}

/// A number that fits in bytes is read back from them.
pub proof fn law_number_is_read_back(x: nat, len: nat)
    requires
        x < pow2(8 * len),
    ensures
        number_bytes(x, len).len() == len,
        be_number(number_bytes(x, len)) == x,
    decreases len,
{
    vstd::arithmetic::power2::lemma2_to64();
    if len > 0 {
        let before = (len - 1) as nat;
        vstd::arithmetic::power2::lemma_pow2_adds(8 * before, 8);
        assert(8 * len == 8 * before + 8);
        assert(x / 256 < pow2(8 * before)) by (nonlinear_arith)
            requires
                x < pow2(8 * before) * 256,
        ;
        law_number_is_read_back(x / 256, before);
        let bytes = number_bytes(x, len);
        assert(bytes.drop_last() == number_bytes(x / 256, before));
    }
}

/// A value of 4 bytes is read as the number that it is with the most significant
/// byte first; no other value is read.
pub proof fn law_u32<'dtb, C: ?Sized>(
    prop: Property<'dtb>,
    cx: NodeContext<'_, C>,
    r: Result<u32, Error>,
)
    requires
        call_ensures(<u32 as DeserializeProperty<'dtb, C>>::deserialize, (prop, cx), r),
    ensures
        ({
            let v = prop@.value;
            if v.len() == 4 {
                r == Ok::<u32, Error>(
                    (v[0] * 0x100_0000 + v[1] * 0x1_0000 + v[2] * 0x100 + v[3]) as u32,
                )
            } else {
                r == Err::<u32, Error>(Error::UnsuitableProperty)
            }
        }),
{
    reveal_with_fuel(be_number, 5);
}

/// A value of 8 bytes is read as the number that it is with the most significant
/// byte first; no other value is read.
pub proof fn law_u64<'dtb, C: ?Sized>(
    prop: Property<'dtb>,
    cx: NodeContext<'_, C>,
    r: Result<u64, Error>,
)
    requires
        call_ensures(<u64 as DeserializeProperty<'dtb, C>>::deserialize, (prop, cx), r),
    ensures
        ({
            let v = prop@.value;
            if v.len() == 8 {
                r == Ok::<u64, Error>(
                    (v[0] * 0x100_0000_0000_0000 + v[1] * 0x1_0000_0000_0000 + v[2]
                        * 0x100_0000_0000 + v[3] * 0x1_0000_0000 + v[4] * 0x100_0000 + v[5]
                        * 0x1_0000 + v[6] * 0x100 + v[7]) as u64,
                )
            } else {
                r == Err::<u64, Error>(Error::UnsuitableProperty)
            }
        }),
{
    reveal_with_fuel(be_number, 9);
}

/// A count of cells is a value of 4 bytes; counts up to 4 are read.
pub proof fn law_address_cells<'dtb, C: ?Sized>(
    prop: Property<'dtb>,
    cx: NodeContext<'_, C>,
    r: Result<AddressCells, Error>,
)
    requires
        call_ensures(<AddressCells as DeserializeProperty<'dtb, C>>::deserialize, (prop, cx), r),
    ensures
        ({
            let v = prop@.value;
            if v.len() != 4 {
                r == Err::<AddressCells, Error>(Error::UnsuitableProperty)
            } else if v[0] == 0 && v[1] == 0 && v[2] == 0 && v[3] <= 4 {
                r == Ok::<AddressCells, Error>(AddressCells(v[3]))
            } else {
                r == Err::<AddressCells, Error>(Error::TooManyCells)
            }
        }),
{
    reveal_with_fuel(be_number, 5);
}

/// A count of cells is a value of 4 bytes; counts up to 4 are read.
pub proof fn law_size_cells<'dtb, C: ?Sized>(
    prop: Property<'dtb>,
    cx: NodeContext<'_, C>,
    r: Result<SizeCells, Error>,
)
    requires
        call_ensures(<SizeCells as DeserializeProperty<'dtb, C>>::deserialize, (prop, cx), r),
    ensures
        ({
            let v = prop@.value;
            if v.len() != 4 {
                r == Err::<SizeCells, Error>(Error::UnsuitableProperty)
            } else if v[0] == 0 && v[1] == 0 && v[2] == 0 && v[3] <= 4 {
                r == Ok::<SizeCells, Error>(SizeCells(v[3]))
            } else {
                r == Err::<SizeCells, Error>(Error::TooManyCells)
            }
        }),
{
    reveal_with_fuel(be_number, 5);
}

// ---------------------------------------------------------------------------
// Flags, bytes and words
// ---------------------------------------------------------------------------

/// A property is converted into itself.
pub proof fn law_property<'dtb, C: ?Sized>(
    prop: Property<'dtb>,
    cx: NodeContext<'_, C>,
    r: Result<Property<'dtb>, Error>,
)
    requires
        call_ensures(<Property<'dtb> as DeserializeProperty<'dtb, C>>::deserialize, (prop, cx), r),
    ensures
        r matches Ok(p) && p@.name == prop@.name && p@.value == prop@.value,
{
}

/// A flag is a property without a value, and nothing else is.
pub proof fn law_flag<'dtb, C: ?Sized>(
    prop: Property<'dtb>,
    cx: NodeContext<'_, C>,
    flag: Result<bool, Error>,
    unit: Result<(), Error>,
)
    requires
        call_ensures(<bool as DeserializeProperty<'dtb, C>>::deserialize, (prop, cx), flag),
        call_ensures(<() as DeserializeProperty<'dtb, C>>::deserialize, (prop, cx), unit),
    ensures
        if prop@.value.len() == 0 {
            flag == Ok::<bool, Error>(true) && unit is Ok
        } else {
            flag == Err::<bool, Error>(Error::UnsuitableProperty) && unit == Err::<(), Error>(
                Error::UnsuitableProperty,
            )
        },
{
}

/// Bytes are the whole value, borrowed or owned.
pub proof fn law_bytes<'dtb, C: ?Sized>(
    prop: Property<'dtb>,
    cx: NodeContext<'_, C>,
    slice: Result<&'dtb [u8], Error>,
    vec: Result<Vec<u8>, Error>,
    boxed: Result<Box<[u8]>, Error>,
)
    requires
        call_ensures(<&'dtb [u8] as DeserializeProperty<'dtb, C>>::deserialize, (prop, cx), slice),
        call_ensures(<Vec<u8> as DeserializeProperty<'dtb, C>>::deserialize, (prop, cx), vec),
        call_ensures(<Box<[u8]> as DeserializeProperty<'dtb, C>>::deserialize, (prop, cx), boxed),
    ensures
        slice matches Ok(b) && b@ == prop@.value,
        vec matches Ok(b) && b@ == prop@.value,
        boxed matches Ok(b) && b@ == prop@.value,
{
}

/// Whether each word, read as a big-endian number, is the number that its 4 bytes
/// are.
pub open spec fn are_numbers_of(words: Seq<u32>, value: Seq<u8>) -> bool {
    &&& 4 * words.len() == value.len()
    &&& forall|i: int|
        0 <= i < words.len() ==> word_number(#[trigger] words[i] as nat, 4) == value[4 * i]
            * 0x100_0000 + value[4 * i + 1] * 0x1_0000 + value[4 * i + 2] * 0x100 + value[4 * i + 3]
}

/// The machine words of bytes are their big-endian numbers.
proof fn lemma_are_numbers_of(words: Seq<u32>, value: Seq<u8>)
    requires
        are_words_of(words, value),
        value.len() % 4 == 0,
    ensures
        are_numbers_of(words, value),
{
    assert forall|i: int| 0 <= i < words.len() implies word_number(#[trigger] words[i] as nat, 4)
        == value[4 * i] * 0x100_0000 + value[4 * i + 1] * 0x1_0000 + value[4 * i + 2] * 0x100
        + value[4 * i + 3] by {
        let bytes = value.subrange(4 * i, 4 * i + 4);
        lemma_word_number_of_native_number(bytes);
        reveal_with_fuel(be_number, 5);
    }
}

/// Words are the whole value, borrowed or owned, where it consists of whole
/// words; no other value is read.
pub proof fn law_words<'dtb, C: ?Sized>(
    prop: Property<'dtb>,
    cx: NodeContext<'_, C>,
    slice: Result<&'dtb [u32], Error>,
    vec: Result<Vec<u32>, Error>,
    boxed: Result<Box<[u32]>, Error>,
)
    requires
        call_ensures(<&'dtb [u32] as DeserializeProperty<'dtb, C>>::deserialize, (prop, cx), slice),
        call_ensures(<Vec<u32> as DeserializeProperty<'dtb, C>>::deserialize, (prop, cx), vec),
        call_ensures(<Box<[u32]> as DeserializeProperty<'dtb, C>>::deserialize, (prop, cx), boxed),
    ensures
        if prop@.value.len() % 4 == 0 {
            &&& slice matches Ok(w) && are_numbers_of(w@, prop@.value)
            &&& vec matches Ok(w) && are_numbers_of(w@, prop@.value)
            &&& boxed matches Ok(w) && are_numbers_of(w@, prop@.value)
        } else {
            &&& slice == Err::<&'dtb [u32], Error>(Error::UnsuitableProperty)
            &&& vec == Err::<Vec<u32>, Error>(Error::UnsuitableProperty)
            &&& boxed == Err::<Box<[u32]>, Error>(Error::UnsuitableProperty)
        },
{
    if prop@.value.len() % 4 == 0 {
        lemma_are_numbers_of(slice->Ok_0@, prop@.value);
        lemma_are_numbers_of(vec->Ok_0@, prop@.value);
        lemma_are_numbers_of(boxed->Ok_0@, prop@.value);
    }
}

/// An optional value is the value: there is always one where there is no error.
pub proof fn law_optional_value<'dtb, C: ?Sized, T: DeserializeProperty<'dtb, C>>(
    prop: Property<'dtb>,
    cx: NodeContext<'_, C>,
    r: Result<Option<T>, Error>,
)
    requires
        call_ensures(<Option<T> as DeserializeProperty<'dtb, C>>::deserialize, (prop, cx), r),
    ensures
        match r {
            Ok(value) => value is Some && T::deserialized(prop@, cx, Ok(value->0)),
            Err(err) => T::deserialized(prop@, cx, Err(err)),
        },
{
}

// ---------------------------------------------------------------------------
// Strings
// ---------------------------------------------------------------------------

/// Whether characters are the ASCII characters of bytes, all of them in order.
pub open spec fn same_text(chars: Seq<char>, bytes: Seq<u8>) -> bool {
    &&& chars.len() == bytes.len()
    &&& forall|i: int|
        0 <= i < bytes.len() ==> bytes[i] < 128 && #[trigger] chars[i] as u32 == bytes[i] as u32
}

/// Any ASCII text in front of a NUL byte at the end of the value is the string,
/// all of it and in order, borrowed or owned.
pub proof fn law_text_is_read_back<'dtb, C: ?Sized>(
    text: Seq<u8>,
    prop: Property<'dtb>,
    cx: NodeContext<'_, C>,
    slice: Result<&'dtb str, Error>,
    owned: Result<String, Error>,
    boxed: Result<Box<str>, Error>,
)
    requires
        forall|i: int| 0 <= i < text.len() ==> text[i] < 128,
        prop@.value == text.push(0),
        call_ensures(<&'dtb str as DeserializeProperty<'dtb, C>>::deserialize, (prop, cx), slice),
        call_ensures(<String as DeserializeProperty<'dtb, C>>::deserialize, (prop, cx), owned),
        call_ensures(<Box<str> as DeserializeProperty<'dtb, C>>::deserialize, (prop, cx), boxed),
    ensures
        slice matches Ok(s) && same_text(s@, text),
        owned matches Ok(s) && same_text(s@, text),
        boxed matches Ok(s) && same_text(s@, text),
{
    assert(prop@.value.drop_last() == text);
    assert(is_ascii_bytes(text));
    assert forall|i: int| 0 <= i < text.len() implies #[trigger] ascii_chars(text)[i] as u32
        == text[i] as u32 by {
        assert(ascii_chars(text)[i] == text[i] as char);
    }
}

/// A value that is not text with a NUL byte at the end is no string.
pub proof fn law_other_values_are_no_text<'dtb, C: ?Sized>(
    prop: Property<'dtb>,
    cx: NodeContext<'_, C>,
    slice: Result<&'dtb str, Error>,
    owned: Result<String, Error>,
    boxed: Result<Box<str>, Error>,
)
    requires
        prop@.value.len() == 0 || prop@.value[prop@.value.len() - 1] != 0 || exists|i: int|
            0 <= i < prop@.value.len() && prop@.value[i] >= 128,
        call_ensures(<&'dtb str as DeserializeProperty<'dtb, C>>::deserialize, (prop, cx), slice),
        call_ensures(<String as DeserializeProperty<'dtb, C>>::deserialize, (prop, cx), owned),
        call_ensures(<Box<str> as DeserializeProperty<'dtb, C>>::deserialize, (prop, cx), boxed),
    ensures
        slice == Err::<&'dtb str, Error>(Error::UnsuitableProperty),
        owned == Err::<String, Error>(Error::UnsuitableProperty),
        boxed == Err::<Box<str>, Error>(Error::UnsuitableProperty),
{
    let v = prop@.value;
    if exists|i: int| 0 <= i < v.len() && v[i] >= 128 {
        let i = choose|i: int| 0 <= i < v.len() && v[i] >= 128;
        if v.last() == 0 {
            assert(v.drop_last()[i] >= 128);
        }
    }
}

/// Strings, one behind the other, each with a NUL character at its end.
pub open spec fn lines(strings: Seq<Seq<char>>) -> Seq<char>
    decreases strings.len(),
{
    if strings.len() == 0 {
        Seq::empty()
    } else {
        strings[0] + seq!['\0'] + lines(strings.skip(1))
    }
}

/// Whether a value is a list of strings: text in which the last string has a NUL
/// byte at its end, too.
pub open spec fn is_list(value: Seq<u8>) -> bool {
    &&& forall|i: int| 0 <= i < value.len() ==> value[i] < 128
    &&& value.len() > 0 ==> value[value.len() - 1] == 0
}

/// Whether these strings, with their NUL characters, make up the whole value.
pub open spec fn are_strings_of(strings: Seq<Seq<char>>, value: Seq<u8>) -> bool {
    &&& same_text(lines(strings), value)
    &&& forall|i: int| 0 <= i < strings.len() ==> !(#[trigger] strings[i]).contains('\0')
}

/// The strings of a list make up the whole value.
proof fn lemma_all_strings(bytes: Seq<u8>)
    ensures
        match all_strings(bytes) {
            Ok(strings) => is_list(bytes) && are_strings_of(strings, bytes),
            Err(err) => !is_list(bytes) && err == Error::Blob(blob::Error::InvalidString),
        },
    decreases bytes.len(),
{
    if bytes.len() == 0 {
        assert(lines(Seq::<Seq<char>>::empty()) == Seq::<char>::empty());
    } else {
        lemma_first_index(bytes, 0u8);
        let len = first_index(bytes, 0u8);
        if len < bytes.len() {
            let head = bytes.take(len);
            let rest = bytes.skip(len + 1);
            lemma_all_strings(rest);
            assert(forall|i: int| 0 <= i < rest.len() ==> rest[i] == bytes[i + len + 1]);
            if is_ascii_bytes(head) {
                let first = ascii_chars(head);
                assert forall|i: int| 0 <= i < len implies bytes[i] < 128 by {
                    assert(head[i] == bytes[i]);
                }
                if is_list(rest) {
                    assert forall|i: int| 0 <= i < bytes.len() implies bytes[i] < 128 by {
                        if i > len {
                            assert(rest[i - len - 1] < 128);
                        }
                    }
                    let strings = all_strings(rest)->Ok_0;
                    let all = seq![first] + strings;
                    assert(all.skip(1) == strings);
                    assert(lines(all) == first + seq!['\0'] + lines(strings));
                    assert forall|i: int| 0 <= i < bytes.len() implies #[trigger] lines(
                        all,
                    )[i] as u32 == bytes[i] as u32 by {
                        if i < len {
                            assert(lines(all)[i] == first[i]);
                            assert(first[i] == head[i] as char);
                        } else if i > len {
                            assert(lines(all)[i] == lines(strings)[i - len - 1]);
                            assert(rest[i - len - 1] == bytes[i]);
                        }
                    }
                    assert forall|i: int| 0 <= i < all.len() implies !(#[trigger] all[i]).contains(
                        '\0',
                    ) by {
                        if i == 0 {
                            assert forall|j: int| 0 <= j < first.len() implies first[j] != '\0' by {
                                assert(first[j] == head[j] as char);
                                assert(bytes[j] != 0);
                            }
                        } else {
                            assert(all[i] == strings[i - 1]);
                        }
                    }
                    assert(all_strings(bytes) == Ok::<Seq<Seq<char>>, Error>(all));
                } else if rest.len() > 0 && rest[rest.len() - 1] != 0 {
                    assert(bytes[bytes.len() - 1] != 0);
                } else {
                    let i = choose|i: int| 0 <= i < rest.len() && rest[i] >= 128;
                    assert(bytes[i + len + 1] >= 128);
                }
            } else {
                let i = choose|i: int| 0 <= i < head.len() && head[i] >= 128;
                assert(bytes[i] >= 128);
            }
        } else {
            assert(bytes[bytes.len() - 1] != 0);
        }
    }
}

/// A list of strings is read into strings that make up the whole value, each
/// without its NUL character; no other value is read.
pub proof fn law_borrowed_strings<'dtb, C: ?Sized>(
    prop: Property<'dtb>,
    cx: NodeContext<'_, C>,
    vec: Result<Vec<&'dtb str>, Error>,
    boxed: Result<Box<[&'dtb str]>, Error>,
)
    requires
        call_ensures(
            <Vec<&'dtb str> as DeserializeProperty<'dtb, C>>::deserialize,
            (prop, cx),
            vec,
        ),
        call_ensures(
            <Box<[&'dtb str]> as DeserializeProperty<'dtb, C>>::deserialize,
            (prop, cx),
            boxed,
        ),
    ensures
        if is_list(prop@.value) {
            &&& vec matches Ok(v) && are_strings_of(
                v@.map_values(|s: &'dtb str| s@),
                prop@.value,
            )
            &&& boxed matches Ok(v) && are_strings_of(
                v@.map_values(|s: &'dtb str| s@),
                prop@.value,
            )
        } else {
            let err = Error::Blob(blob::Error::InvalidString);
            &&& vec == Err::<Vec<&'dtb str>, Error>(err)
            &&& boxed == Err::<Box<[&'dtb str]>, Error>(err)
        },
{
    lemma_all_strings(prop@.value);
}

/// A list of strings is read into strings that make up the whole value, each
/// without its NUL character; no other value is read.
pub proof fn law_owned_strings<'dtb, C: ?Sized>(
    prop: Property<'dtb>,
    cx: NodeContext<'_, C>,
    vec: Result<Vec<String>, Error>,
    boxed: Result<Box<[String]>, Error>,
)
    requires
        call_ensures(<Vec<String> as DeserializeProperty<'dtb, C>>::deserialize, (prop, cx), vec),
        call_ensures(
            <Box<[String]> as DeserializeProperty<'dtb, C>>::deserialize,
            (prop, cx),
            boxed,
        ),
    ensures
        if is_list(prop@.value) {
            &&& vec matches Ok(v) && are_strings_of(v@.map_values(|s: String| s@), prop@.value)
            &&& boxed matches Ok(v) && are_strings_of(v@.map_values(|s: String| s@), prop@.value)
        } else {
            let err = Error::Blob(blob::Error::InvalidString);
            &&& vec == Err::<Vec<String>, Error>(err)
            &&& boxed == Err::<Box<[String]>, Error>(err)
        },
{
    lemma_all_strings(prop@.value);
}

/// A list of strings is read into strings that make up the whole value, each
/// without its NUL character; no other value is read.
pub proof fn law_boxed_strings<'dtb, C: ?Sized>(
    prop: Property<'dtb>,
    cx: NodeContext<'_, C>,
    vec: Result<Vec<Box<str>>, Error>,
    boxed: Result<Box<[Box<str>]>, Error>,
)
    requires
        call_ensures(<Vec<Box<str>> as DeserializeProperty<'dtb, C>>::deserialize, (prop, cx), vec),
        call_ensures(
            <Box<[Box<str>]> as DeserializeProperty<'dtb, C>>::deserialize,
            (prop, cx),
            boxed,
        ),
    ensures
        if is_list(prop@.value) {
            &&& vec matches Ok(v) && are_strings_of(v@.map_values(|s: Box<str>| s@), prop@.value)
            &&& boxed matches Ok(v) && are_strings_of(v@.map_values(|s: Box<str>| s@), prop@.value)
        } else {
            let err = Error::Blob(blob::Error::InvalidString);
            &&& vec == Err::<Vec<Box<str>>, Error>(err)
            &&& boxed == Err::<Box<[Box<str>]>, Error>(err)
        },
{
    lemma_all_strings(prop@.value);
}

/// [`Strings`] starts with the whole value. Each string that it gives is what is
/// in front of the next NUL byte, and it goes on behind that byte.
pub proof fn law_next_string<'dtb, C: ?Sized>(
    prop: Property<'dtb>,
    cx: NodeContext<'_, C>,
    r: Result<Strings<'dtb>, Error>,
    text: Seq<u8>,
    behind: Seq<u8>,
)
    requires
        call_ensures(<Strings<'dtb> as DeserializeProperty<'dtb, C>>::deserialize, (prop, cx), r),
        forall|i: int| 0 <= i < text.len() ==> 0 < #[trigger] text[i] < 128,
    ensures
        r matches Ok(strings) && strings@ == prop@.value,
        ({
            let (next, rest) = next_string(text + seq![0u8] + behind);
            &&& next matches Ok(Some(chars)) && same_text(chars, text)
            &&& rest == behind
        }),
        next_string(Seq::empty()) == (Ok::<Option<Seq<char>>, Error>(None), Seq::<u8>::empty()),
        text.len() > 0 ==> next_string(text) == (
            Err::<Option<Seq<char>>, Error>(Error::Blob(blob::Error::InvalidString)),
            text,
        ),
        forall|b: u8|
            b >= 128 ==> #[trigger] next_string(text.push(b) + seq![0u8] + behind) == (
                Err::<Option<Seq<char>>, Error>(Error::Blob(blob::Error::InvalidString)),
                text.push(b) + seq![0u8] + behind,
            ),
{
    assert forall|b: u8| b >= 128 implies #[trigger] next_string(text.push(b) + seq![0u8] + behind)
        == (
        Err::<Option<Seq<char>>, Error>(Error::Blob(blob::Error::InvalidString)),
        text.push(b) + seq![0u8] + behind,
    ) by {
        let bytes = text.push(b) + seq![0u8] + behind;
        let n = text.len() as int + 1;
        assert forall|j: int| 0 <= j < n implies bytes[j] != 0 by {
            if j < text.len() {
                assert(bytes[j] == text[j]);
            }
        }
        lemma_first_index_unique(bytes, 0u8, n);
        assert(bytes.take(n)[n - 1] == b);
    }
    let bytes = text + seq![0u8] + behind;
    let len = text.len() as int;
    assert forall|j: int| 0 <= j < len implies bytes[j] != 0 by {
        assert(bytes[j] == text[j]);
    }
    lemma_first_index_unique(bytes, 0u8, len);
    lemma_first_index_unique(text, 0u8, len);
    assert(bytes.take(len) == text);
    assert(is_ascii_bytes(text));
    assert(bytes.skip(len + 1) == behind);
    assert forall|i: int| 0 <= i < text.len() implies #[trigger] ascii_chars(text)[i] as u32
        == text[i] as u32 by {
        assert(ascii_chars(text)[i] == text[i] as char);
    }
}

// ---------------------------------------------------------------------------
// Blocks
// ---------------------------------------------------------------------------

/// Whether blocks of `n` bytes, whose addresses have `a` bytes, make up the whole
/// value: the address and the size of each are the numbers that all of their own
/// bytes are.
pub open spec fn are_blocks_of(blocks: Seq<RegBlock>, value: Seq<u8>, a: int, n: int) -> bool {
    &&& blocks.len() * n == value.len()
    &&& forall|i: int|
        0 <= i < blocks.len() ==> {
            &&& (#[trigger] blocks[i]).0 as nat == be_number(value.subrange(i * n, i * n + a))
            &&& blocks[i].1 as nat == be_number(value.subrange(i * n + a, i * n + n))
        }
}

/// A number of at most 16 bytes is below `2^128`.
proof fn lemma_fits(bytes: Seq<u8>)
    requires
        bytes.len() <= 16,
    ensures
        be_number(bytes) <= u128::MAX,
{
    lemma_be_number_bound(bytes);
    if bytes.len() < 16 {
        vstd::arithmetic::power2::lemma_pow2_strictly_increases(8 * bytes.len(), 128);
    }
    vstd::arithmetic::power2::lemma2_to64();
    vstd::arithmetic::power2::lemma2_to64_rest();
    vstd::arithmetic::power2::lemma_pow2_adds(64, 64);
}

/// The blocks make up the whole value.
proof fn lemma_reg_blocks(bytes: Seq<u8>, address_cells: int, size_cells: int)
    requires
        0 <= address_cells <= 4,
        0 <= size_cells <= 4,
        0 < address_cells + size_cells,
        bytes.len() % (4 * (address_cells + size_cells)) as nat == 0,
    ensures
        are_blocks_of(
            reg_blocks(bytes, address_cells, size_cells),
            bytes,
            4 * address_cells,
            4 * (address_cells + size_cells),
        ),
    decreases bytes.len(),
{
    let a = 4 * address_cells;
    let n = 4 * (address_cells + size_cells);
    let len = bytes.len() as int;
    let blocks = reg_blocks(bytes, address_cells, size_cells);
    if len == 0 {
        assert(blocks.len() * n == 0) by (nonlinear_arith)
            requires
                blocks.len() == 0,
        ;
    } else {
        assert(n <= len && (len - n) % n == 0) by (nonlinear_arith)
            requires
                0 < n,
                0 < len,
                len % n == 0,
        ;
        let rest = bytes.skip(n);
        lemma_reg_blocks(rest, address_cells, size_cells);
        let behind = reg_blocks(rest, address_cells, size_cells);
        assert(blocks.len() * n == behind.len() * n + n) by (nonlinear_arith)
            requires
                blocks.len() == behind.len() + 1,
        ;
        assert forall|i: int| 0 <= i < blocks.len() implies {
            &&& (#[trigger] blocks[i]).0 as nat == be_number(bytes.subrange(i * n, i * n + a))
            &&& blocks[i].1 as nat == be_number(bytes.subrange(i * n + a, i * n + n))
        } by {
            if i == 0 {
                assert(i * n == 0) by (nonlinear_arith)
                    requires
                        i == 0,
                ;
                assert(bytes.take(a) == bytes.subrange(0, a));
                lemma_fits(bytes.subrange(0, a));
                lemma_fits(bytes.subrange(a, n));
            } else {
                let j = i - 1;
                assert(blocks[i] == behind[j]);
                assert(j * n + n == i * n && 0 <= j * n && j * n + n <= behind.len() * n)
                    by (nonlinear_arith)
                    requires
                        j == i - 1,
                        0 <= j < behind.len(),
                        0 < n,
                ;
                assert(rest.subrange(j * n, j * n + a) == bytes.subrange(i * n, i * n + a));
                assert(rest.subrange(j * n + a, j * n + n) == bytes.subrange(i * n + a, i * n + n));
            }
        }
    }
}

/// A value that consists of whole blocks is read into blocks that make up the
/// whole value; no other value is read, and none with more than 4 cells.
pub proof fn law_blocks<'dtb, C: ?Sized>(
    prop: Property<'dtb>,
    cx: NodeContext<'_, C>,
    vec: Result<Vec<RegBlock>, Error>,
    boxed: Result<Box<[RegBlock]>, Error>,
)
    requires
        call_ensures(<Vec<RegBlock> as DeserializeProperty<'dtb, C>>::deserialize, (prop, cx), vec),
        call_ensures(
            <Box<[RegBlock]> as DeserializeProperty<'dtb, C>>::deserialize,
            (prop, cx),
            boxed,
        ),
    ensures
        ({
            let value = prop@.value;
            let a = 4 * cx.address_cells;
            let n = 4 * (cx.address_cells + cx.size_cells);
            if cx.address_cells > 4 || cx.size_cells > 4 {
                &&& vec == Err::<Vec<RegBlock>, Error>(Error::TooManyCells)
                &&& boxed == Err::<Box<[RegBlock]>, Error>(Error::TooManyCells)
            } else if value.len() == 0 {
                &&& vec matches Ok(v) && v@.len() == 0
                &&& boxed matches Ok(v) && v@.len() == 0
            } else if n == 0 || value.len() % n as nat != 0 {
                &&& vec == Err::<Vec<RegBlock>, Error>(Error::UnsuitableProperty)
                &&& boxed == Err::<Box<[RegBlock]>, Error>(Error::UnsuitableProperty)
            } else {
                &&& vec matches Ok(v) && are_blocks_of(v@, value, a, n)
                &&& boxed matches Ok(v) && are_blocks_of(v@, value, a, n)
            }
        }),
{
    let (a, s) = (cx.address_cells as int, cx.size_cells as int);
    let len = prop@.value.len() as int;
    if a <= 4 && s <= 4 && a + s > 0 {
        lemma_none_fill(4 * (a + s));
        lemma_whole_words(len, a + s);
        if len % (4 * (a + s)) == 0 {
            lemma_reg_blocks(prop@.value, a, s);
        }
    }
}

/// Bytes make up whole blocks of cells if they make up whole cells, and the cells
/// make up whole blocks.
proof fn lemma_whole_words(len: int, n: int)
    requires
        0 <= len,
        1 <= n <= 8,
    ensures
        len % (4 * n) == 0 <==> len % 4 == 0 && len / 4 % n == 0,
{
    vstd::arithmetic::div_mod::lemma_breakdown(len, 4, n);
    assert(4 * (len / 4 % n) + len % 4 == 0 <==> len % 4 == 0 && len / 4 % n == 0) by {
        assert(0 <= len / 4 % n) by (nonlinear_arith)
            requires
                1 <= n,
                0 <= len,
        ;
    }
}

/// Nothing makes up whole blocks of any length.
proof fn lemma_none_fill(n: int)
    requires
        0 < n,
    ensures
        0int % n == 0,
{
    assert(0int % n == 0) by (nonlinear_arith)
        requires
            0 < n,
    ;
}

/// The bytes of a list of addresses and sizes.
pub open spec fn block_bytes(pairs: Seq<(nat, nat)>, address_cells: nat, size_cells: nat) -> Seq<u8>
    decreases pairs.len(),
{
    if pairs.len() == 0 {
        Seq::empty()
    } else {
        number_bytes(pairs[0].0, 4 * address_cells) + number_bytes(pairs[0].1, 4 * size_cells)
            + block_bytes(pairs.skip(1), address_cells, size_cells)
    }
}

/// Addresses and sizes that fit in their cells are read back.
proof fn lemma_blocks_are_read_back(
    pairs: Seq<(nat, nat)>,
    address_cells: nat,
    size_cells: nat,
)
    requires
        address_cells <= 4,
        size_cells <= 4,
        0 < address_cells + size_cells,
        forall|i: int|
            0 <= i < pairs.len() ==> (#[trigger] pairs[i]).0 < pow2(32 * address_cells)
                && pairs[i].1 < pow2(32 * size_cells),
    ensures
        ({
            let bytes = block_bytes(pairs, address_cells, size_cells);
            let blocks = reg_blocks(bytes, address_cells as int, size_cells as int);
            &&& bytes.len() % (4 * (address_cells + size_cells)) == 0
            &&& blocks.len() == pairs.len()
            &&& forall|i: int|
                0 <= i < pairs.len() ==> (#[trigger] blocks[i]).0 == pairs[i].0 && blocks[i].1
                    == pairs[i].1
        }),
    decreases pairs.len(),
{
    let bytes = block_bytes(pairs, address_cells, size_cells);
    let blocks = reg_blocks(bytes, address_cells as int, size_cells as int);
    let n = 4 * (address_cells + size_cells);
    lemma_none_fill(n as int);
    if pairs.len() > 0 {
        let (x, y) = pairs[0];
        let rest = pairs.skip(1);
        assert(pairs[0].0 < pow2(32 * address_cells));
        assert(8 * (4 * address_cells) == 32 * address_cells);
        assert(8 * (4 * size_cells) == 32 * size_cells);
        law_number_is_read_back(x, 4 * address_cells);
        law_number_is_read_back(y, 4 * size_cells);
        let (head, tail) = (number_bytes(x, 4 * address_cells), number_bytes(y, 4 * size_cells));
        lemma_fits(head);
        lemma_fits(tail);
        assert forall|i: int| 0 <= i < rest.len() implies (#[trigger] rest[i]).0 < pow2(
            32 * address_cells,
        ) && rest[i].1 < pow2(32 * size_cells) by {
            assert(rest[i] == pairs[i + 1]);
        }
        lemma_blocks_are_read_back(rest, address_cells, size_cells);
        let behind = block_bytes(rest, address_cells, size_cells);
        assert(bytes.take(4 * address_cells as int) == head);
        assert(bytes.subrange(4 * address_cells as int, n as int) == tail);
        assert(bytes.skip(n as int) == behind);
        assert(bytes.len() == behind.len() + n);
        assert(bytes.len() % n == 0) by (nonlinear_arith)
            requires
                bytes.len() == behind.len() + n,
                behind.len() % n == 0,
                n > 0,
        ;
        assert forall|i: int| 0 <= i < pairs.len() implies (#[trigger] blocks[i]).0 == pairs[i].0
            && blocks[i].1 == pairs[i].1 by {
            if i > 0 {
                let later = reg_blocks(behind, address_cells as int, size_cells as int);
                assert(blocks[i] == later[i - 1]);
                assert(pairs[i] == rest[i - 1]);
            }
        }
    }
}

/// Addresses and sizes that are written as big-endian cells, and fit in them, are
/// read back as the blocks of the property.
pub proof fn law_blocks_are_read_back<'dtb, C: ?Sized>(
    pairs: Seq<(nat, nat)>,
    prop: Property<'dtb>,
    cx: NodeContext<'_, C>,
    r: Result<Vec<RegBlock>, Error>,
)
    requires
        cx.address_cells <= 4,
        cx.size_cells <= 4,
        0 < cx.address_cells + cx.size_cells,
        forall|i: int|
            0 <= i < pairs.len() ==> (#[trigger] pairs[i]).0 < pow2(32 * cx.address_cells as nat)
                && pairs[i].1 < pow2(32 * cx.size_cells as nat),
        prop@.value == block_bytes(pairs, cx.address_cells as nat, cx.size_cells as nat),
        call_ensures(<Vec<RegBlock> as DeserializeProperty<'dtb, C>>::deserialize, (prop, cx), r),
    ensures
        r matches Ok(v) && v@.len() == pairs.len() && forall|i: int|
            0 <= i < pairs.len() ==> (#[trigger] v@[i]).0 == pairs[i].0 && v@[i].1 == pairs[i].1,
{
    let (a, s) = (cx.address_cells as nat, cx.size_cells as nat);
    lemma_blocks_are_read_back(pairs, a, s);
    lemma_whole_words(prop@.value.len() as int, (a + s) as int);
}

/// [`Reg`] starts with the words of the whole value, and with the counts of cells
/// of the context.
pub proof fn law_reg<'dtb, C: ?Sized>(
    prop: Property<'dtb>,
    cx: NodeContext<'_, C>,
    r: Result<Reg<'dtb>, Error>,
)
    requires
        call_ensures(<Reg<'dtb> as DeserializeProperty<'dtb, C>>::deserialize, (prop, cx), r),
        cx.address_cells <= 4,
        cx.size_cells <= 4,
        0 < cx.address_cells + cx.size_cells,
        prop@.value.len() % (4 * (cx.address_cells + cx.size_cells)) as nat == 0,
    ensures
        r matches Ok(reg) && {
            &&& are_numbers_of(reg@.words, prop@.value)
            &&& reg@.address_cells == cx.address_cells
            &&& reg@.size_cells == cx.size_cells
        },
{
    lemma_whole_words(prop@.value.len() as int, cx.address_cells + cx.size_cells);
    lemma_are_numbers_of(r->Ok_0@.words, prop@.value);
}

/// What [`Reg::next`] and [`Reg::next_back`] give of the words that bytes hold.
proof fn lemma_reg_ends(reg: RegView, bytes: Seq<u8>)
    requires
        reg.is_whole(),
        reg.words.len() > 0,
        are_words_of(reg.words, bytes),
        bytes.len() % 4 == 0,
    ensures
        ({
            let a = 4 * reg.address_cells;
            let n = 4 * (reg.address_cells + reg.size_cells);
            let m = bytes.len() - n;
            &&& n <= bytes.len()
            &&& reg.next().0 matches Some(block) && {
                &&& block.0 as nat == be_number(bytes.take(a))
                &&& block.1 as nat == be_number(bytes.subrange(a, n))
            }
            &&& reg.next_back().0 matches Some(block) && {
                &&& block.0 as nat == be_number(bytes.subrange(m, m + a))
                &&& block.1 as nat == be_number(bytes.skip(m + a))
            }
        }),
{
    lemma_whole_blocks(reg);
    let words = reg.words;
    let a = reg.address_cells as int;
    let n = reg.block_cells();
    let len = words.len() as int;
    let m = len - n;
    assert(words.take(n).take(a) == words.subrange(0, a));
    assert(words.take(n).skip(a) == words.subrange(a, n));
    assert(words.skip(m).take(a) == words.subrange(m, m + a));
    assert(words.skip(m).skip(a) == words.subrange(m + a, len));
    assert(bytes.take(4 * a) == bytes.subrange(0, 4 * a));
    assert(bytes.skip(4 * (m + a)) == bytes.subrange(4 * (m + a), 4 * len));
    lemma_part(words, bytes, 0, a);
    lemma_part(words, bytes, a, n);
    lemma_part(words, bytes, m, m + a);
    lemma_part(words, bytes, m + a, len);
}

/// The cells in part of the words are the number that their bytes are.
proof fn lemma_part(words: Seq<u32>, bytes: Seq<u8>, from: int, to: int)
    requires
        are_words_of(words, bytes),
        0 <= from <= to <= words.len(),
        to - from <= 4,
    ensures
        cells_number(words.subrange(from, to)) == be_number(
            bytes.subrange(4 * from, 4 * to),
        ),
        be_number(bytes.subrange(4 * from, 4 * to)) <= u128::MAX,
{
    lemma_words_of_part(words, bytes, from, to);
    law_cells_of_bytes(words.subrange(from, to), bytes.subrange(4 * from, 4 * to));
    lemma_fits(bytes.subrange(4 * from, 4 * to));
}

/// [`Reg::next`] gives the address and the size in the first cells that are left,
/// and [`Reg::next_back`] those in the last cells. Each takes away the cells that
/// it read. There is nothing where no cells are left.
pub proof fn law_reg_ends<'dtb>(bytes: Seq<u8>)
    requires
        bytes.len() % 4 == 0,
    ensures
        forall|c: &mut Reg<'dtb>, r: Option<RegBlock>|
            #![trigger call_ensures(Reg::<'dtb>::next, (c,), r)]
            c@.is_whole() && are_words_of(c@.words, bytes) && call_ensures(
                Reg::<'dtb>::next,
                (c,),
                r,
            ) ==> {
                let a = 4 * c@.address_cells;
                let n = 4 * (c@.address_cells + c@.size_cells);
                &&& final(c)@.address_cells == c@.address_cells
                &&& final(c)@.size_cells == c@.size_cells
                &&& if bytes.len() == 0 {
                    r is None && final(c)@.words == c@.words
                } else {
                    &&& r matches Some(block) && block.0 as nat == be_number(bytes.take(a))
                        && block.1 as nat == be_number(bytes.subrange(a, n))
                    &&& final(c)@.words == c@.words.skip(n / 4)
                }
            },
        forall|c: &mut Reg<'dtb>, r: Option<RegBlock>|
            #![trigger call_ensures(Reg::<'dtb>::next_back, (c,), r)]
            c@.is_whole() && are_words_of(c@.words, bytes) && call_ensures(
                Reg::<'dtb>::next_back,
                (c,),
                r,
            ) ==> {
                let a = 4 * c@.address_cells;
                let m = bytes.len() - 4 * (c@.address_cells + c@.size_cells);
                &&& final(c)@.address_cells == c@.address_cells
                &&& final(c)@.size_cells == c@.size_cells
                &&& if bytes.len() == 0 {
                    r is None && final(c)@.words == c@.words
                } else {
                    &&& r matches Some(block) && block.0 as nat == be_number(
                        bytes.subrange(m, m + a),
                    ) && block.1 as nat == be_number(bytes.skip(m + a))
                    &&& final(c)@.words == c@.words.take(m / 4)
                }
            },
{
    assert forall|reg: RegView|
        #![trigger reg.next()]
        #![trigger reg.next_back()]
        reg.is_whole() && reg.words.len() > 0 && are_words_of(reg.words, bytes) implies {
        let a = 4 * reg.address_cells;
        let n = 4 * (reg.address_cells + reg.size_cells);
        let m = bytes.len() - n;
        &&& n <= bytes.len()
        &&& reg.next().0 matches Some(block) && {
            &&& block.0 as nat == be_number(bytes.take(a))
            &&& block.1 as nat == be_number(bytes.subrange(a, n))
        }
        &&& reg.next_back().0 matches Some(block) && {
            &&& block.0 as nat == be_number(bytes.subrange(m, m + a))
            &&& block.1 as nat == be_number(bytes.skip(m + a))
        }
    } by {
        lemma_reg_ends(reg, bytes);
    }
}

} // verus!
