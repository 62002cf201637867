//! Values of common properties.
use fallible_iterator::FallibleIterator;
use vstd::prelude::*;
use vstd::slice::slice_subrange;

use crate::blob::{lemma_c_str_len, Property, PropertyView};
use crate::util::{
    are_words_of, ascii_chars, be_number, c_str, cells_number, get_c_str, is_ascii_bytes,
    lemma_first_index_unique, parse_cells, parse_cells_back, u32_from_be_bytes,
};
use crate::{Cells, DeserializeProperty, Error, NodeContext};

verus! {

/// The count of cells that a property value stands for.
pub open spec fn cells_value(value: Seq<u8>) -> Result<Cells, Error> {
    if value.len() != 4 {
        Err(Error::UnsuitableProperty)
    } else if be_number(value) > 4 {
        Err(Error::TooManyCells)
    } else {
        Ok(be_number(value) as u8)
    }
}

/// Reads a count of cells from a property.
fn deserialize_cells(prop: &Property<'_>) -> (r: Result<Cells, Error>)
    ensures
        r == cells_value(prop@.value),
{
    let value = prop.value();
    if value.len() != 4 {
        return Err(Error::UnsuitableProperty);
    }
    let number = u32_from_be_bytes(value);
    if number > 4 {
        Err(Error::TooManyCells)
    } else {
        Ok(number as u8)
    }
}

/// Value of `#address-cells`.
#[derive(Clone, Copy, Debug, PartialEq, Eq, Structural, Hash)]
pub struct AddressCells(pub Cells);

impl Default for AddressCells {
    fn default() -> (r: Self)
        ensures
            r.0 == 2,
    {
        AddressCells(2)
    }
}

impl<'dtb, C: ?Sized> DeserializeProperty<'dtb, C> for AddressCells {
    open spec fn deserialized(
        prop: PropertyView,
        cx: NodeContext<'_, C>,
        r: Result<Self, Error>,
    ) -> bool {
        match cells_value(prop.value) {
            Ok(cells) => r == Ok::<Self, Error>(AddressCells(cells)),
            Err(err) => r == Err::<Self, Error>(err),
        }
    }

    fn deserialize(blob_prop: Property<'dtb>, _cx: NodeContext<'_, C>) -> (r: Result<Self, Error>) {
        match deserialize_cells(&blob_prop) {
            Ok(cells) => Ok(AddressCells(cells)),
            Err(err) => Err(err),
        }
    }
}

/// Value of `#size-cells`.
#[derive(Clone, Copy, Debug, PartialEq, Eq, Structural, Hash)]
pub struct SizeCells(pub Cells);

impl Default for SizeCells {
    fn default() -> (r: Self)
        ensures
            r.0 == 1,
    {
        SizeCells(1)
    }
}

impl<'dtb, C: ?Sized> DeserializeProperty<'dtb, C> for SizeCells {
    open spec fn deserialized(
        prop: PropertyView,
        cx: NodeContext<'_, C>,
        r: Result<Self, Error>,
    ) -> bool {
        match cells_value(prop.value) {
            Ok(cells) => r == Ok::<Self, Error>(SizeCells(cells)),
            Err(err) => r == Err::<Self, Error>(err),
        }
    }

    fn deserialize(blob_prop: Property<'dtb>, _cx: NodeContext<'_, C>) -> (r: Result<Self, Error>) {
        match deserialize_cells(&blob_prop) {
            Ok(cells) => Ok(SizeCells(cells)),
            Err(err) => Err(err),
        }
    }
}

// ---------------------------------------------------------------------------
// Strings
// ---------------------------------------------------------------------------

/// The first string of a list of NUL-terminated strings, and the rest of the
/// list.
pub open spec fn next_string(bytes: Seq<u8>) -> (Result<Option<Seq<char>>, Error>, Seq<u8>) {
    if bytes.len() == 0 {
        (Ok(None), bytes)
    } else {
        match c_str(bytes) {
            Ok(s) => (Ok(Some(s)), bytes.skip(s.len() as int + 1)),
            Err(err) => (Err(Error::Blob(err)), bytes),
        }
    }
}

/// All strings of a list of NUL-terminated strings.
pub open spec fn all_strings(bytes: Seq<u8>) -> Result<Seq<Seq<char>>, Error>
    decreases bytes.len(),
{
    proof {
        lemma_c_str_len(bytes);
    }
    match next_string(bytes) {
        (Err(err), _) => Err(err),
        (Ok(None), _) => Ok(Seq::empty()),
        (Ok(Some(s)), rest) => match all_strings(rest) {
            Ok(strings) => Ok(seq![s] + strings),
            Err(err) => Err(err),
        },
    }
}

/// The result of asking for a string.
pub open spec fn string_result(r: Result<Option<&str>, Error>) -> Result<
    Option<Seq<char>>,
    Error,
> {
    match r {
        Ok(Some(s)) => Ok(Some(s@)),
        Ok(None) => Ok(None),
        Err(err) => Err(err),
    }
}

/// An iterator over the strings of a property value. Each of them is terminated
/// by a NUL byte.
#[derive(Clone, Copy, Debug)]
#[must_use]
pub struct Strings<'dtb> {
    value: &'dtb [u8],
}

impl<'dtb> View for Strings<'dtb> {
    type V = Seq<u8>;

    closed spec fn view(&self) -> Seq<u8> {
        self.value@
    }
}

impl<'dtb> FallibleIterator for Strings<'dtb> {
    type Item = &'dtb str;

    type Error = Error;

    fn next(&mut self) -> (r: Result<Option<&'dtb str>, Error>)
        ensures
            string_result(r) == next_string(old(self)@).0,
            final(self)@ == next_string(old(self)@).1,
    {
        if self.value.len() == 0 {
            return Ok(None);
        }
        match get_c_str(self.value) {
            Ok(s) => {
                proof {
                    lemma_c_str_len(self.value@);
                }
                let len = s.unicode_len();
                self.value = slice_subrange(self.value, len + 1, self.value.len());
                Ok(Some(s))
            },
            Err(err) => Err(Error::Blob(err)),
        }
    }
}

impl<'dtb, C: ?Sized> DeserializeProperty<'dtb, C> for Strings<'dtb> {
    open spec fn deserialized(
        prop: PropertyView,
        cx: NodeContext<'_, C>,
        r: Result<Self, Error>,
    ) -> bool {
        r matches Ok(strings) && strings@ == prop.value
    }

    fn deserialize(blob_prop: Property<'dtb>, _cx: NodeContext<'_, C>) -> (r: Result<Self, Error>) {
        Ok(Strings { value: blob_prop.value() })
    }
}

// ---------------------------------------------------------------------------
// Reg
// ---------------------------------------------------------------------------

/// A block of addresses: its address and its size.
#[derive(Clone, Copy, Debug, PartialEq, Eq, Structural, Hash)]
pub struct RegBlock(pub u128, pub u128);

/// What is left of a `reg` property.
pub struct RegView {
    /// The cells that are left.
    pub words: Seq<u32>,
    /// Number of cells of an address.
    pub address_cells: Cells,
    /// Number of cells of a size.
    pub size_cells: Cells,
}

/// The block that the given cells stand for.
pub open spec fn reg_block(words: Seq<u32>, address_cells: int) -> RegBlock {
    RegBlock(
        cells_number(words.take(address_cells)) as u128,
        cells_number(words.skip(address_cells)) as u128,
    )
}

impl RegView {
    /// Number of cells of a block.
    pub open spec fn block_cells(self) -> int {
        self.address_cells + self.size_cells
    }

    /// Whether the cells make up whole blocks, whose numbers are within the
    /// limit of cells.
    pub open spec fn is_whole(self) -> bool {
        &&& self.address_cells <= 4
        &&& self.size_cells <= 4
        &&& fills_blocks(self.words.len() as int, self.block_cells())
    }

    /// The first block, and what is left behind it.
    pub open spec fn next(self) -> (Option<RegBlock>, RegView) {
        if self.words.len() == 0 {
            (None, self)
        } else {
            let n = self.block_cells();
            let block = reg_block(self.words.take(n), self.address_cells as int);
            (Some(block), RegView { words: self.words.skip(n), ..self })
        }
    }

    /// The last block, and what is left in front of it.
    pub open spec fn next_back(self) -> (Option<RegBlock>, RegView) {
        if self.words.len() == 0 {
            (None, self)
        } else {
            let n = self.words.len() - self.block_cells();
            let block = reg_block(self.words.skip(n), self.address_cells as int);
            (Some(block), RegView { words: self.words.take(n), ..self })
        }
    }
}

/// Whether `len` cells make up whole blocks of `n` cells.
pub open spec fn fills_blocks(len: int, n: int) -> bool {
    if n == 0 {
        len == 0
    } else {
        len % n == 0
    }
}

/// The blocks of a `reg` property, from its bytes.
pub open spec fn reg_blocks(bytes: Seq<u8>, address_cells: int, size_cells: int) -> Seq<RegBlock>
    decreases bytes.len(),
{
    let n = 4 * (address_cells + size_cells);
    if address_cells < 0 || size_cells < 0 || n == 0 || bytes.len() < n {
        Seq::empty()
    } else {
        let block = RegBlock(
            be_number(bytes.take(4 * address_cells)) as u128,
            be_number(bytes.subrange(4 * address_cells, n)) as u128,
        );
        seq![block] + reg_blocks(bytes.skip(n), address_cells, size_cells)
    }
}

/// Why a property value cannot be read as blocks, if it cannot.
pub open spec fn reg_error(value: Seq<u8>, address_cells: Cells, size_cells: Cells) -> Option<
    Error,
> {
    if address_cells > 4 || size_cells > 4 {
        Some(Error::TooManyCells)
    } else if value.len() % 4 != 0 || !fills_blocks(
        (value.len() / 4) as int,
        address_cells + size_cells,
    ) {
        Some(Error::UnsuitableProperty)
    } else {
        None
    }
}

/// An iterator over the blocks of a `reg` property.
#[derive(Clone, Copy, Debug)]
#[must_use]
pub struct Reg<'dtb> {
    words: &'dtb [u32],
    address_cells: Cells,
    size_cells: Cells,
}

impl<'dtb> View for Reg<'dtb> {
    type V = RegView;

    closed spec fn view(&self) -> RegView {
        RegView {
            words: self.words@,
            address_cells: self.address_cells,
            size_cells: self.size_cells,
        }
    }
}

impl<'dtb> Reg<'dtb> {
    #[verifier::type_invariant]
    spec fn inv(&self) -> bool {
        self@.is_whole()
    }

    /// The next block.
    pub fn next(&mut self) -> (r: Option<RegBlock>)
        ensures
            r == old(self)@.next().0,
            final(self)@ == old(self)@.next().1,
    {
        proof {
            use_type_invariant(&*self);
        }
        if self.words.len() == 0 {
            return None;
        }
        proof {
            lemma_whole_blocks(self@);
        }
        let ghost words = self.words@;
        let ghost a = self.address_cells as int;
        let ghost n = self@.block_cells();
        let mut rest = self.words;
        let address = parse_cells(&mut rest, self.address_cells)?;
        let size = parse_cells(&mut rest, self.size_cells)?;
        assert(words.take(n).take(a) == words.take(a));
        assert(words.take(n).skip(a) == words.skip(a).take(n - a));
        assert(words.skip(a).skip(n - a) == words.skip(n));
        *self = Reg { words: rest, ..*self };
        Some(RegBlock(address, size))
    }

    /// The last block.
    pub fn next_back(&mut self) -> (r: Option<RegBlock>)
        ensures
            r == old(self)@.next_back().0,
            final(self)@ == old(self)@.next_back().1,
    {
        proof {
            use_type_invariant(&*self);
        }
        if self.words.len() == 0 {
            return None;
        }
        proof {
            lemma_whole_blocks(self@);
        }
        let ghost words = self.words@;
        let ghost a = self.address_cells as int;
        let ghost n = words.len() - self@.block_cells();
        let mut rest = self.words;
        let size = parse_cells_back(&mut rest, self.size_cells)?;
        let address = parse_cells_back(&mut rest, self.address_cells)?;
        assert(words.skip(n).skip(a) == words.skip(n + a));
        assert(words.skip(n).take(a) == words.take(n + a).skip(n));
        assert(words.take(n + a).take(n) == words.take(n));
        *self = Reg { words: rest, ..*self };
        Some(RegBlock(address, size))
    }
}

impl<'dtb, C: ?Sized> DeserializeProperty<'dtb, C> for Reg<'dtb> {
    open spec fn deserialized(
        prop: PropertyView,
        cx: NodeContext<'_, C>,
        r: Result<Self, Error>,
    ) -> bool {
        match reg_error(prop.value, cx.address_cells, cx.size_cells) {
            Some(err) => r == Err::<Self, Error>(err),
            None => {
                &&& r matches Ok(reg)
                &&& are_words_of(reg@.words, prop.value)
                &&& reg@.address_cells == cx.address_cells
                &&& reg@.size_cells == cx.size_cells
            },
        }
    }

    fn deserialize(blob_prop: Property<'dtb>, cx: NodeContext<'_, C>) -> (r: Result<Self, Error>) {
        if cx.address_cells > 4 || cx.size_cells > 4 {
            return Err(Error::TooManyCells);
        }
        let value = blob_prop.value();
        let words = blob_prop.words();
        if value.len() % 4 != 0 {
            return Err(Error::UnsuitableProperty);
        }
        let block_cells = cx.address_cells as usize + cx.size_cells as usize;
        if block_cells == 0 {
            if words.len() != 0 {
                return Err(Error::UnsuitableProperty);
            }
        } else if words.len() % block_cells != 0 {
            return Err(Error::UnsuitableProperty);
        }
        Ok(Reg { words, address_cells: cx.address_cells, size_cells: cx.size_cells })
    }
}

/// Where there are cells left, there is a whole block of them at either end,
/// and whole blocks are left without it.
pub proof fn lemma_whole_blocks(reg: RegView)
    requires
        reg.is_whole(),
        reg.words.len() > 0,
    ensures
        0 < reg.block_cells() <= reg.words.len(),
        reg.next().1.is_whole(),
        reg.next_back().1.is_whole(),
{
    let n = reg.block_cells();
    let len = reg.words.len() as int;
    assert(n <= len && (len - n) % n == 0) by (nonlinear_arith)
        requires
            0 < n,
            0 < len,
            len % n == 0,
    ;
}

/// The blocks that [`Reg::next`] gives, one after the other.
pub open spec fn blocks_from_front(reg: RegView) -> Seq<RegBlock>
    decreases reg.words.len(),
{
    if reg.words.len() == 0 || !reg.is_whole() {
        Seq::empty()
    } else {
        proof {
            lemma_whole_blocks(reg);
        }
        seq![reg.next().0->0] + blocks_from_front(reg.next().1)
    }
}

/// The blocks that [`Reg::next_back`] gives, one after the other.
pub open spec fn blocks_from_back(reg: RegView) -> Seq<RegBlock>
    decreases reg.words.len(),
{
    if reg.words.len() == 0 || !reg.is_whole() {
        Seq::empty()
    } else {
        proof {
            lemma_whole_blocks(reg);
        }
        seq![reg.next_back().0->0] + blocks_from_back(reg.next_back().1)
    }
}

/// Without the last block, the blocks from the front on are the same but for
/// the last one.
proof fn lemma_blocks_without_last(reg: RegView)
    requires
        reg.is_whole(),
        reg.words.len() > 0,
    ensures
        blocks_from_front(reg) == blocks_from_front(reg.next_back().1).push(reg.next_back().0->0),
    decreases reg.words.len(),
{
    lemma_whole_blocks(reg);
    let n = reg.block_cells();
    let words = reg.words;
    let rest = reg.next().1;
    let front = reg.next_back().1;
    if rest.words.len() == 0 {
        assert(words.take(n) == words);
        assert(words.skip(0) == words);
        assert(blocks_from_front(rest) == Seq::<RegBlock>::empty());
        assert(blocks_from_front(front) == Seq::<RegBlock>::empty());
    } else {
        lemma_whole_blocks(rest);
        lemma_blocks_without_last(rest);
        let len = words.len() as int;
        assert(words.skip(n).skip(len - n - n) == words.skip(len - n));
        assert(rest.next_back().0 == reg.next_back().0);
        assert(words.take(len - n).take(n) == words.take(n));
        assert(front.next().0 == reg.next().0);
        assert(words.take(len - n).skip(n) == words.skip(n).take(len - n - n));
        assert(front.next().1 == rest.next_back().1);
    }
}

/// [`Reg`] gives the same blocks from the back as from the front, the other way
/// round.
pub proof fn law_reg_back_is_reversed(reg: RegView)
    requires
        reg.is_whole(),
    ensures
        blocks_from_back(reg) == blocks_from_front(reg).reverse(),
    decreases reg.words.len(),
{
    if reg.words.len() > 0 {
        lemma_whole_blocks(reg);
        lemma_blocks_without_last(reg);
        law_reg_back_is_reversed(reg.next_back().1);
    }
}

/// The bytes of a list of NUL-terminated strings.
pub open spec fn terminated(strings: Seq<Seq<u8>>) -> Seq<u8>
    decreases strings.len(),
{
    if strings.len() == 0 {
        Seq::empty()
    } else {
        strings[0] + seq![0u8] + terminated(strings.skip(1))
    }
}

/// ASCII strings without NUL are read back from a list of NUL-terminated
/// strings.
pub proof fn law_strings_read_back(strings: Seq<Seq<u8>>)
    requires
        forall|i: int|
            0 <= i < strings.len() ==> is_ascii_bytes(#[trigger] strings[i])
                && !strings[i].contains(0),
    ensures
        all_strings(terminated(strings)) == Ok::<Seq<Seq<char>>, Error>(
            strings.map_values(|s: Seq<u8>| ascii_chars(s)),
        ),
    decreases strings.len(),
{
    let chars = strings.map_values(|s: Seq<u8>| ascii_chars(s));
    let bytes = terminated(strings);
    if strings.len() == 0 {
        assert(chars == Seq::<Seq<char>>::empty());
    } else {
        let first = strings[0];
        let rest = strings.skip(1);
        assert forall|i: int| 0 <= i < rest.len() implies is_ascii_bytes(#[trigger] rest[i])
            && !rest[i].contains(0) by {
            assert(rest[i] == strings[i + 1]);
        }
        law_strings_read_back(rest);
        let len = first.len() as int;
        assert forall|j: int| 0 <= j < len implies bytes[j] != 0 by {
            assert(bytes[j] == first[j]);
        }
        lemma_first_index_unique(bytes, 0u8, len);
        assert(bytes.take(len) == first);
        assert(bytes.skip(len + 1) == terminated(rest));
        assert(chars == seq![ascii_chars(first)] + rest.map_values(|s: Seq<u8>| ascii_chars(s)));
    }
}

} // verus!
