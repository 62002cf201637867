//! The memory reservation block of a devicetree.
use fallible_iterator::FallibleIterator;
use vstd::prelude::*;
use vstd::slice::slice_subrange;

use crate::blob::{self, Devicetree};
use crate::util::{be_number, le_bytes, word_number};
use crate::Error;

verus! {

/// An entry from a blob's memory reservation block, obtained from
/// [`ReserveEntries`].
#[derive(Clone, Copy, Debug, PartialEq, Eq, Structural, Hash)]
pub struct ReserveEntry {
    /// Where the reserved memory starts.
    pub address: u64,
    /// How many bytes are reserved.
    pub size: u64,
}

/// The first entry of a memory reservation block, and the rest of the block. An
/// entry of zeros ends the block.
pub open spec fn next_entry(words: Seq<u64>) -> (Result<Option<ReserveEntry>, Error>, Seq<u64>) {
    if words.len() < 2 {
        (Err(Error::Blob(blob::Error::UnexpectedEnd)), words)
    } else if words[0] == 0 && words[1] == 0 {
        (Ok(None), words.skip(2))
    } else {
        let entry = ReserveEntry {
            address: word_number(words[0] as nat, 8) as u64,
            size: word_number(words[1] as nat, 8) as u64,
        };
        (Ok(Some(entry)), words.skip(2))
    }
}

/// An iterator over the [`ReserveEntry`] from a [`Devicetree`] blob's memory
/// reservation block.
///
/// [`Devicetree`]: crate::blob::Devicetree
#[derive(Clone, Copy, Debug)]
#[must_use]
pub struct ReserveEntries<'dtb> {
    blob: &'dtb [u64],
}

impl<'dtb> View for ReserveEntries<'dtb> {
    type V = Seq<u64>;

    closed spec fn view(&self) -> Seq<u64> {
        self.blob@
    }
}

impl<'dtb> ReserveEntries<'dtb> {
    /// Creates an iterator over the entries that the words hold.
    pub(crate) fn new(blob: &'dtb [u64]) -> (r: Self)
        ensures
            r@ == blob@,
    {
        ReserveEntries { blob }
    }
}

impl<'dtb> FallibleIterator for ReserveEntries<'dtb> {
    type Item = ReserveEntry;

    type Error = Error;

    fn next(&mut self) -> (r: Result<Option<ReserveEntry>, Error>)
        ensures
            r == next_entry(old(self)@).0,
            final(self)@ == next_entry(old(self)@).1,
    {
        let blob = self.blob;
        if blob.len() < 2 {
            return Err(Error::Blob(blob::Error::UnexpectedEnd));
        }
        self.blob = slice_subrange(blob, 2, blob.len());
        let address = blob[0];
        let size = blob[1];
        if address != 0 || size != 0 {
            Ok(
                Some(
                    ReserveEntry { address: u64::from_be(address), size: u64::from_be(size) },
                ),
            )
        } else {
            Ok(None)
        }
    }
}

/// The entries that [`ReserveEntries`] gives, one after the other, up to the end
/// of the block.
pub open spec fn all_entries(words: Seq<u64>) -> Result<Seq<ReserveEntry>, Error>
    decreases words.len(),
{
    match next_entry(words) {
        (Err(err), _) => Err(err),
        (Ok(None), _) => Ok(Seq::empty()),
        (Ok(Some(entry)), rest) => match all_entries(rest) {
            Ok(entries) => Ok(seq![entry] + entries),
            Err(err) => Err(err),
        },
    }
}

/// Whether the words hold the given entries, one after the other.
pub open spec fn hold_entries(words: Seq<u64>, entries: Seq<ReserveEntry>) -> bool {
    &&& words.len() == 2 * entries.len()
    &&& forall|i: int|
        0 <= i < entries.len() ==> {
            &&& word_number(words[2 * i] as nat, 8) == (#[trigger] entries[i]).address
            &&& word_number(words[2 * i + 1] as nat, 8) == entries[i].size
        }
}

/// A word of zero stands for zero.
proof fn lemma_word_number_zero()
    ensures
        word_number(0, 8) == 0,
{
    reveal_with_fuel(le_bytes, 9);
    reveal_with_fuel(be_number, 9);
}

/// Entries that are followed by an entry of zeros are read back, whatever comes
/// behind. None of them may itself consist of zeros.
pub proof fn law_entries_read_back(
    words: Seq<u64>,
    entries: Seq<ReserveEntry>,
    behind: Seq<u64>,
)
    requires
        hold_entries(words, entries),
        forall|i: int|
            0 <= i < entries.len() ==> (#[trigger] entries[i]) != (ReserveEntry {
                address: 0,
                size: 0,
            }),
    ensures
        all_entries(words + seq![0u64, 0u64] + behind) == Ok::<Seq<ReserveEntry>, Error>(entries),
    decreases entries.len(),
{
    let block = words + seq![0u64, 0u64] + behind;
    if entries.len() == 0 {
        assert(entries == Seq::<ReserveEntry>::empty());
    } else {
        lemma_word_number_zero();
        let first = entries[0];
        let rest = entries.skip(1);
        let rest_words = words.skip(2);
        let i = 0int;
        assert(word_number(words[2 * i] as nat, 8) == entries[i].address);
        assert(block[0] == words[0] && block[1] == words[1]);
        assert(!(block[0] == 0 && block[1] == 0));
        assert(hold_entries(rest_words, rest)) by {
            assert forall|i: int| 0 <= i < rest.len() implies {
                &&& word_number(rest_words[2 * i] as nat, 8) == (#[trigger] rest[i]).address
                &&& word_number(rest_words[2 * i + 1] as nat, 8) == rest[i].size
            } by {
                assert(rest[i] == entries[i + 1]);
                assert(rest_words[2 * i] == words[2 * (i + 1)]);
                assert(rest_words[2 * i + 1] == words[2 * (i + 1) + 1]);
            }
        }
        assert forall|i: int| 0 <= i < rest.len() implies (#[trigger] rest[i]) != (ReserveEntry {
            address: 0,
            size: 0,
        }) by {
            assert(rest[i] == entries[i + 1]);
        }
        law_entries_read_back(rest_words, rest, behind);
        assert(block.skip(2) == rest_words + seq![0u64, 0u64] + behind);
        assert(entries == seq![first] + rest);
        assert(next_entry(block).0 == Ok::<Option<ReserveEntry>, Error>(Some(first)));
    }
}

/// Whether the entry with the given index consists of zeros.
pub open spec fn is_zero_entry(words: Seq<u64>, i: int) -> bool {
    words[2 * i] == 0 && words[2 * i + 1] == 0
}

/// A block that ends without an entry of zeros is reported as ending too early.
pub proof fn law_unterminated_block(words: Seq<u64>)
    requires
        forall|i: int| 0 <= i && 2 * i + 1 < words.len() ==> !#[trigger] is_zero_entry(words, i),
    ensures
        all_entries(words) == Err::<Seq<ReserveEntry>, Error>(
            Error::Blob(blob::Error::UnexpectedEnd),
        ),
    decreases words.len(),
{
    if words.len() >= 2 {
        assert(!is_zero_entry(words, 0));
        let rest = words.skip(2);
        assert forall|i: int| 0 <= i && 2 * i + 1 < rest.len() implies !#[trigger] is_zero_entry(
            rest,
            i,
        ) by {
            assert(!is_zero_entry(words, i + 1));
        }
        law_unterminated_block(rest);
    }
}

/// The entries that were already read, followed by those that are left.
spec fn with_entries(read: Seq<ReserveEntry>, words: Seq<u64>) -> Result<Seq<ReserveEntry>, Error> {
    match all_entries(words) {
        Ok(entries) => Ok(read + entries),
        Err(err) => Err(err),
    }
}

impl Devicetree {
    /// All entries of the memory reservation block.
    pub fn reserved_memory(&self) -> (r: Result<Vec<ReserveEntry>, Error>)
        ensures
            match all_entries(self@.reserve) {
                Ok(entries) => r matches Ok(v) && v@ == entries,
                Err(err) => r == Err::<Vec<ReserveEntry>, Error>(err),
            },
    {
        let mut entries = self.reserve_entries();
        let mut v: Vec<ReserveEntry> = Vec::new();
        loop
            invariant
                all_entries(self@.reserve) == with_entries(v@, entries@),
            decreases entries@.len(),
        {
            let ghost read = v@;
            match entries.next() {
                Ok(Some(entry)) => {
                    v.push(entry);
                    proof {
                        if let Ok(behind) = all_entries(entries@) {
                            assert(read + (seq![entry] + behind) == v@ + behind);
                        }
                    }
                },
                Ok(None) => {
                    assert(read + Seq::<ReserveEntry>::empty() == read);
                    return Ok(v);
                },
                Err(err) => return Err(err),
            }
        }
    }
}

} // verus!
