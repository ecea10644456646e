//! The palette store and its block I/O against the ROM image.
//!
//! A `PaletteManager` owns the ROM bytes, holds named palettes (character
//! name to ordered packed words), and reads or writes the 32-byte palette
//! block at each character's fixed offset, delegating color conversion to
//! the codec. Loading the image from disk and flushing it back are the
//! caller's concern.

use vstd::prelude::*;
use crate::codec::{Color, GBAColorCache, decode_spec, encode_spec};

verus! {

/// A character descriptor: an identity plus the byte offset of that
/// character's 32-byte palette block inside the ROM. The roster of
/// descriptors is supplied by the caller; the store never invents one.
pub struct Character {
    pub name: String,
    pub palette_offset: u64,
}

/// The errors a palette operation can surface.
#[derive(Clone, Copy, PartialEq, Eq, Structural, Debug)]
pub enum PaletteError {
    /// No palette is stored under the requested name.
    NotFound,
    /// A palette block would fall outside the ROM image.
    OutOfBounds,
}

/// The abstract state of a manager: the ROM bytes and the palettes keyed by
/// character name.
pub ghost struct PaletteManagerView {
    pub rom: Seq<u8>,
    pub palettes: Map<Seq<char>, Seq<i32>>,
}

/// A packed word composed from its two little-endian bytes: the first byte
/// of the pair occupies the low-order bits.
pub open spec fn word_of_bytes(lo: u8, hi: u8) -> i32 {
    ((hi as i32) << 8) | (lo as i32)
}

/// The 16 packed words stored little-endian in the 32 bytes of `rom`
/// starting at `off`.
pub open spec fn words_at(rom: Seq<u8>, off: int) -> Seq<i32> {
    Seq::new(16, |i: int| word_of_bytes(rom[off + 2 * i], rom[off + 2 * i + 1]))
}

/// The low-order byte of a packed word: the first byte of its pair on disk.
pub open spec fn low_byte(word: i32) -> u8 {
    (word & 0xff) as u8
}

/// The high-order byte of a packed word: the second byte of its pair on disk.
pub open spec fn high_byte(word: i32) -> u8 {
    ((word >> 8) & 0xff) as u8
}

/// The little-endian byte image of a word sequence: each word contributes
/// its low byte, then its high byte.
pub open spec fn bytes_of_words(words: Seq<i32>) -> Seq<u8> {
    Seq::new(
        2 * words.len(),
        |i: int| if i % 2 == 0 {
            low_byte(words[i / 2])
        } else {
            high_byte(words[i / 2])
        },
    )
}

/// `rom` with the block starting at `off` replaced by `bytes`; everything
/// outside the block is untouched.
pub open spec fn write_block(rom: Seq<u8>, off: int, bytes: Seq<u8>) -> Seq<u8> {
    Seq::new(
        rom.len(),
        |p: int| if off <= p < off + bytes.len() {
            bytes[p - off]
        } else {
            rom[p]
        },
    )
}

/// Whether a descriptor's 32-byte block lies entirely inside the ROM.
pub open spec fn in_bounds(rom: Seq<u8>, character: Character) -> bool {
    character.palette_offset + 32 <= rom.len()
}

/// The palette map after reading every descriptor of `roster` in order from
/// `rom`, starting from `palettes`.
pub open spec fn palettes_after_reads(
    rom: Seq<u8>,
    palettes: Map<Seq<char>, Seq<i32>>,
    roster: Seq<Character>,
) -> Map<Seq<char>, Seq<i32>>
    decreases roster.len(),
{
    if roster.len() == 0 {
        palettes
    } else {
        palettes_after_reads(rom, palettes, roster.drop_last()).insert(
            roster.last().name@,
            words_at(rom, roster.last().palette_offset as int),
        )
    }
}

/// Reading an empty roster is a no-op: the palette map comes back unchanged
/// (and `read_palettes` cannot fail on it, since no descriptor is out of
/// bounds).
pub proof fn lemma_read_all_empty(rom: Seq<u8>, palettes: Map<Seq<char>, Seq<i32>>)
    ensures
        palettes_after_reads(rom, palettes, Seq::<Character>::empty()) == palettes,
{
}

/// Writing a 16-word palette at an offset and reading 16 words back from the
/// same offset reproduces the palette exactly, for every word that fits in
/// 16 bits: the byte split and the byte-swapped composition are inverses.
pub proof fn lemma_write_then_read(rom: Seq<u8>, off: int, words: Seq<i32>)
    requires
        words.len() == 16,
        forall|i: int| 0 <= i < 16 ==> 0 <= #[trigger] words[i] < 0x10000,
        0 <= off,
        off + 32 <= rom.len(),
    ensures
        words_at(write_block(rom, off, bytes_of_words(words)), off) == words,
{
    let written = write_block(rom, off, bytes_of_words(words));
    assert forall|i: int| 0 <= i < 16 implies words_at(written, off)[i] == words[i] by {
        let w = words[i];
        assert(written[off + 2 * i] == low_byte(w));
        assert(written[off + 2 * i + 1] == high_byte(w));
        assert(word_of_bytes(low_byte(w), high_byte(w)) == w) by (bit_vector)
            requires
                0 <= w < 0x10000,
        ;
    }
    assert(words_at(written, off) =~= words);
}

/// The palette map an entry list denotes: later entries win, though the
/// store keeps at most one entry per name.
spec fn palette_table(entries: Seq<(String, Vec<i32>)>) -> Map<Seq<char>, Seq<i32>>
    decreases entries.len(),
{
    if entries.len() == 0 {
        Map::empty()
    } else {
        palette_table(entries.drop_last()).insert(entries.last().0@, entries.last().1@)
    }
}

/// No two entries share a name.
spec fn keys_unique(entries: Seq<(String, Vec<i32>)>) -> bool {
    forall|i: int, j: int|
        0 <= i < j < entries.len() ==> (#[trigger] entries[i]).0@ != (#[trigger] entries[j]).0@
}

/// A name is in the table exactly when some entry carries it.
proof fn lemma_table_contains(entries: Seq<(String, Vec<i32>)>, name: Seq<char>)
    ensures
        palette_table(entries).contains_key(name) <==> exists|i: int|
            0 <= i < entries.len() && (#[trigger] entries[i]).0@ == name,
    decreases entries.len(),
{
    if entries.len() > 0 {
        let prefix = entries.drop_last();
        lemma_table_contains(prefix, name);
        if entries.last().0@ == name {
            assert(entries[entries.len() - 1].0@ == name);
        } else {
            if palette_table(entries).contains_key(name) {
                let i = choose|i: int| 0 <= i < prefix.len() && (#[trigger] prefix[i]).0@ == name;
                assert(entries[i].0@ == name);
            }
            if exists|i: int| 0 <= i < entries.len() && (#[trigger] entries[i]).0@ == name {
                let i = choose|i: int|
                    0 <= i < entries.len() && (#[trigger] entries[i]).0@ == name;
                assert(i < entries.len() - 1);
                assert(prefix[i].0@ == name);
            }
        }
    }
}

/// With unique names, the table maps each entry's name to that entry's words.
proof fn lemma_table_value(entries: Seq<(String, Vec<i32>)>, i: int)
    requires
        keys_unique(entries),
        0 <= i < entries.len(),
    ensures
        palette_table(entries).contains_key(entries[i].0@),
        palette_table(entries)[entries[i].0@] == entries[i].1@,
    decreases entries.len(),
{
    if i < entries.len() - 1 {
        let prefix = entries.drop_last();
        assert(keys_unique(prefix)) by {
            assert forall|p: int, q: int|
                0 <= p < q < prefix.len() implies (#[trigger] prefix[p]).0@ != (
            #[trigger] prefix[q]).0@ by {
                assert(entries[p].0@ != entries[q].0@);
            }
        }
        lemma_table_value(prefix, i);
        assert(entries[i].0@ != entries.last().0@);
    }
}

/// Replacing the entry that carries a name leaves the table with that name
/// bound to the new words and every other name untouched.
proof fn lemma_table_update(entries: Seq<(String, Vec<i32>)>, i: int, entry: (String, Vec<i32>))
    requires
        keys_unique(entries),
        0 <= i < entries.len(),
        entries[i].0@ == entry.0@,
    ensures
        palette_table(entries.update(i, entry)) == palette_table(entries).insert(
            entry.0@,
            entry.1@,
        ),
    decreases entries.len(),
{
    let updated = entries.update(i, entry);
    if i == entries.len() - 1 {
        assert(updated.drop_last() =~= entries.drop_last());
        assert(palette_table(updated) =~= palette_table(entries).insert(entry.0@, entry.1@));
    } else {
        let prefix = entries.drop_last();
        assert(keys_unique(prefix)) by {
            assert forall|p: int, q: int|
                0 <= p < q < prefix.len() implies (#[trigger] prefix[p]).0@ != (
            #[trigger] prefix[q]).0@ by {
                assert(entries[p].0@ != entries[q].0@);
            }
        }
        assert(prefix[i].0@ == entries[i].0@);
        lemma_table_update(prefix, i, entry);
        assert(updated.drop_last() =~= prefix.update(i, entry));
        assert(updated.last() == entries.last());
        assert(entries[i].0@ != entries.last().0@);
        assert(palette_table(updated) =~= palette_table(entries).insert(entry.0@, entry.1@));
    }
}

/// Copy a word sequence into a fresh vector.
fn copy_words(words: &Vec<i32>) -> (out: Vec<i32>)
    ensures
        out@ == words@,
{
    let mut out: Vec<i32> = Vec::new();
    let mut i: usize = 0;
    while i < words.len()
        invariant
            i <= words@.len(),
            out@ == words@.take(i as int),
        decreases words@.len() - i,
    {
        out.push(words[i]);
        assert(out@ =~= words@.take(i as int + 1));
        i += 1;
    }
    assert(out@ =~= words@);
    out
}

/// The palette store: the ROM image, the codec cache, and the named
/// palettes, kept one entry per name.
pub struct PaletteManager {
    rom: Vec<u8>,
    color_cache: GBAColorCache,
    palettes: Vec<(String, Vec<i32>)>,
}

impl View for PaletteManager {
    type V = PaletteManagerView;

    closed spec fn view(&self) -> PaletteManagerView {
        PaletteManagerView { rom: self.rom@, palettes: palette_table(self.palettes@) }
    }
}

impl PaletteManager {
    /// The store's invariant: one entry per name, and a cache that agrees
    /// with the pure codec. Established by `new`, preserved by every method.
    pub closed spec fn wf(&self) -> bool {
        keys_unique(self.palettes@) && self.color_cache.wf()
    }

    /// A manager over the given ROM image, with no palettes stored yet.
    pub fn new(rom: Vec<u8>) -> (manager: PaletteManager)
        ensures
            manager.wf(),
            manager@.rom == rom@,
            manager@.palettes == Map::<Seq<char>, Seq<i32>>::empty(),
    {
        PaletteManager { rom, color_cache: GBAColorCache::new(), palettes: Vec::new() }
    }

    /// The ROM image as it currently stands, palette writes included.
    pub fn rom_bytes(&self) -> (bytes: &Vec<u8>)
        ensures
            bytes@ == self@.rom,
    {
        &self.rom
    }

    /// The index of the entry carrying `name`, if one is stored.
    fn find_palette(&self, name: &String) -> (position: Option<usize>)
        requires
            self.wf(),
        ensures
            match position {
                Some(i) => i < self.palettes@.len() && self.palettes@[i as int].0@ == name@
                    && self@.palettes.contains_key(name@) && self@.palettes[name@]
                    == self.palettes@[i as int].1@,
                None => !self@.palettes.contains_key(name@),
            },
    {
        let mut i: usize = 0;
        while i < self.palettes.len()
            invariant
                self.wf(),
                i <= self.palettes@.len(),
                forall|j: int| 0 <= j < i ==> (#[trigger] self.palettes@[j]).0@ != name@,
            decreases self.palettes@.len() - i,
        {
            if self.palettes[i].0 == *name {
                proof {
                    lemma_table_value(self.palettes@, i as int);
                }
                return Some(i);
            }
            i += 1;
        }
        proof {
            lemma_table_contains(self.palettes@, name@);
        }
        None
    }

    /// Insert or overwrite the palette stored under `name` with the given
    /// packed words, exactly as handed in. An existing palette under the
    /// same name is replaced silently; length and content are not validated.
    pub fn store_palette_i32(&mut self, name: String, colors: Vec<i32>)
        requires
            old(self).wf(),
        ensures
            final(self).wf(),
            final(self)@.rom == old(self)@.rom,
            final(self)@.palettes == old(self)@.palettes.insert(name@, colors@),
    {
        let position = self.find_palette(&name);
        match position {
            Some(i) => {
                proof {
                    lemma_table_update(self.palettes@, i as int, (name, colors));
                }
                let ghost entries = self.palettes@;
                self.palettes[i] = (name, colors);
                proof {
                    assert(self.palettes@ == entries.update(i as int, self.palettes@[i as int]));
                    assert forall|p: int, q: int|
                        0 <= p < q < self.palettes@.len() implies (#[trigger] self.palettes@[p]).0@
                        != (#[trigger] self.palettes@[q]).0@ by {
                        assert(entries[p].0@ != entries[q].0@);
                    }
                }
            },
            None => {
                proof {
                    lemma_table_contains(self.palettes@, name@);
                }
                let ghost entries = self.palettes@;
                self.palettes.push((name, colors));
                proof {
                    assert(self.palettes@.drop_last() =~= entries);
                    assert forall|p: int, q: int|
                        0 <= p < q < self.palettes@.len() implies (#[trigger] self.palettes@[p]).0@
                        != (#[trigger] self.palettes@[q]).0@ by {
                        if q < entries.len() {
                            assert(entries[p].0@ != entries[q].0@);
                        } else {
                            assert(entries[p].0@ != self.palettes@[q].0@);
                        }
                    }
                }
            },
        }
    }

    /// Encode each color through the codec cache and store the packed
    /// palette under `name`.
    pub fn store_palette_colors(&mut self, name: String, colors: Vec<Color>)
        requires
            old(self).wf(),
        ensures
            final(self).wf(),
            final(self)@.rom == old(self)@.rom,
            final(self)@.palettes == old(self)@.palettes.insert(
                name@,
                colors@.map_values(|c: Color| encode_spec(c)),
            ),
    {
        let mut words: Vec<i32> = Vec::new();
        let mut i: usize = 0;
        while i < colors.len()
            invariant
                self.wf(),
                self.rom@ == old(self).rom@,
                self.palettes@ == old(self).palettes@,
                i <= colors@.len(),
                words@.len() == i,
                forall|j: int| 0 <= j < i ==> words@[j] == encode_spec(#[trigger] colors@[j]),
            decreases colors@.len() - i,
        {
            let word = self.color_cache.rgb_to_gba(colors[i]);
            words.push(word);
            i += 1;
        }
        proof {
            assert(words@ =~= colors@.map_values(|c: Color| encode_spec(c)));
        }
        self.store_palette_i32(name, words);
    }

    /// The packed palette stored under `name`, or `NotFound` if no palette
    /// has ever been stored under it.
    pub fn load_palette_i32(&self, name: String) -> (result: Result<Vec<i32>, PaletteError>)
        requires
            self.wf(),
        ensures
            match result {
                Ok(colors) => self@.palettes.contains_key(name@) && colors@
                    == self@.palettes[name@],
                Err(error) => error == PaletteError::NotFound && !self@.palettes.contains_key(
                    name@,
                ),
            },
    {
        match self.find_palette(&name) {
            Some(i) => Ok(copy_words(&self.palettes[i].1)),
            None => Err(PaletteError::NotFound),
        }
    }

    /// The palette stored under `name`, decoded word by word through the
    /// codec cache.
    pub fn load_palette_colors(&mut self, name: String) -> (result: Result<
        Vec<Color>,
        PaletteError,
    >)
        requires
            old(self).wf(),
        ensures
            final(self).wf(),
            final(self)@ == old(self)@,
            match result {
                Ok(colors) => old(self)@.palettes.contains_key(name@) && colors@
                    == old(self)@.palettes[name@].map_values(|w: i32| decode_spec(w)),
                Err(error) => error == PaletteError::NotFound && !old(self)@.palettes.contains_key(
                    name@,
                ),
            },
    {
        let words = match self.load_palette_i32(name) {
            Ok(words) => words,
            Err(error) => {
                return Err(error);
            },
        };
        let mut colors: Vec<Color> = Vec::new();
        let mut i: usize = 0;
        while i < words.len()
            invariant
                self.wf(),
                self.rom@ == old(self).rom@,
                self.palettes@ == old(self).palettes@,
                i <= words@.len(),
                colors@.len() == i,
                forall|j: int| 0 <= j < i ==> colors@[j] == decode_spec(#[trigger] words@[j]),
            decreases words@.len() - i,
        {
            let color = self.color_cache.gba_to_rgb(words[i]);
            colors.push(color);
            i += 1;
        }
        proof {
            assert(colors@ =~= words@.map_values(|w: i32| decode_spec(w)));
        }
        Ok(colors)
    }

    /// Read the 32-byte block at the descriptor's offset, compose each
    /// little-endian byte pair into a packed word (low byte first in the
    /// stream, low-order bits in the word), and store the 16 words under the
    /// descriptor's name. Fails with `OutOfBounds`, storing nothing, when
    /// the block does not lie inside the ROM.
    pub fn read_palette(&mut self, character: &Character) -> (result: Result<(), PaletteError>)
        requires
            old(self).wf(),
        ensures
            final(self).wf(),
            final(self)@.rom == old(self)@.rom,
            match result {
                Ok(()) => in_bounds(old(self)@.rom, *character) && final(self)@.palettes == old(
                    self,
                )@.palettes.insert(
                    character.name@,
                    words_at(old(self)@.rom, character.palette_offset as int),
                ),
                Err(error) => error == PaletteError::OutOfBounds && !in_bounds(
                    old(self)@.rom,
                    *character,
                ) && final(self)@ == old(self)@,
            },
    {
        if self.rom.len() < 32 {
            return Err(PaletteError::OutOfBounds);
        }
        let limit: usize = self.rom.len() - 32;
        if character.palette_offset > limit as u64 {
            return Err(PaletteError::OutOfBounds);
        }
        let off: usize = character.palette_offset as usize;
        let mut words: Vec<i32> = Vec::new();
        let mut i: usize = 0;
        while i < 16
            invariant
                self.wf(),
                self == old(self),
                off == character.palette_offset,
                off + 32 <= self.rom.len(),
                i <= 16,
                words@.len() == i,
                forall|j: int|
                    0 <= j < i ==> #[trigger] words@[j] == word_of_bytes(
                        self.rom@[off + 2 * j],
                        self.rom@[off + 2 * j + 1],
                    ),
            decreases 16 - i,
        {
            let lo = self.rom[off + 2 * i];
            let hi = self.rom[off + 2 * i + 1];
            let word: i32 = ((hi as i32) << 8) | (lo as i32);
            words.push(word);
            i += 1;
        }
        proof {
            assert(words@ =~= words_at(self.rom@, off as int));
        }
        self.store_palette_i32(character.name.clone(), words);
        Ok(())
    }

    /// Read the palette block of every descriptor in the roster, in roster
    /// order, stopping at the first failure. Palettes read before the
    /// failing descriptor stay stored.
    pub fn read_palettes(&mut self, roster: &Vec<Character>) -> (result: Result<(), PaletteError>)
        requires
            old(self).wf(),
        ensures
            final(self).wf(),
            final(self)@.rom == old(self)@.rom,
            match result {
                Ok(()) => (forall|i: int|
                    0 <= i < roster@.len() ==> in_bounds(old(self)@.rom, #[trigger] roster@[i]))
                    && final(self)@.palettes == palettes_after_reads(
                    old(self)@.rom,
                    old(self)@.palettes,
                    roster@,
                ),
                Err(error) => error == PaletteError::OutOfBounds && exists|k: int|
                    0 <= k < roster@.len() && !in_bounds(old(self)@.rom, #[trigger] roster@[k]) && (
                    forall|j: int| 0 <= j < k ==> in_bounds(old(self)@.rom, #[trigger] roster@[j]))
                    && final(self)@.palettes == palettes_after_reads(
                        old(self)@.rom,
                        old(self)@.palettes,
                        roster@.take(k),
                    ),
            },
    {
        let mut i: usize = 0;
        while i < roster.len()
            invariant
                self.wf(),
                self@.rom == old(self)@.rom,
                i <= roster@.len(),
                forall|j: int| 0 <= j < i ==> in_bounds(old(self)@.rom, #[trigger] roster@[j]),
                self@.palettes == palettes_after_reads(
                    old(self)@.rom,
                    old(self)@.palettes,
                    roster@.take(i as int),
                ),
            decreases roster@.len() - i,
        {
            let ghost before = self@.palettes;
            match self.read_palette(&roster[i]) {
                Ok(()) => {
                    proof {
                        assert(roster@.take(i as int + 1).drop_last() =~= roster@.take(i as int));
                        assert(roster@.take(i as int + 1).last() == roster@[i as int]);
                    }
                },
                Err(error) => {
                    proof {
                        let k = i as int;
                        assert(0 <= k < roster@.len() && !in_bounds(old(self)@.rom, roster@[k]) && (
                        forall|j: int|
                            0 <= j < k ==> in_bounds(old(self)@.rom, #[trigger] roster@[j]))
                            && self@.palettes == palettes_after_reads(
                            old(self)@.rom,
                            old(self)@.palettes,
                            roster@.take(k),
                        ));
                    }
                    return Err(error);
                },
            }
            i += 1;
        }
        proof {
            assert(roster@.take(roster@.len() as int) =~= roster@);
        }
        Ok(())
    }

    /// Write the palette stored under the descriptor's name into the ROM at
    /// the descriptor's offset: each word becomes two bytes, low byte first.
    /// Fails with `NotFound` when no palette is stored under the name, and
    /// with `OutOfBounds`, writing nothing, when the stored words do not fit
    /// inside the ROM at that offset.
    pub fn write_palette(&mut self, character: &Character) -> (result: Result<(), PaletteError>)
        requires
            old(self).wf(),
        ensures
            final(self).wf(),
            final(self)@.palettes == old(self)@.palettes,
            match result {
                Ok(()) => old(self)@.palettes.contains_key(character.name@)
                    && character.palette_offset + 2 * old(self)@.palettes[character.name@].len()
                    <= old(self)@.rom.len() && final(self)@.rom == write_block(
                    old(self)@.rom,
                    character.palette_offset as int,
                    bytes_of_words(old(self)@.palettes[character.name@]),
                ),
                Err(PaletteError::NotFound) => !old(self)@.palettes.contains_key(character.name@)
                    && final(self)@ == old(self)@,
                Err(PaletteError::OutOfBounds) => old(self)@.palettes.contains_key(character.name@)
                    && character.palette_offset + 2 * old(self)@.palettes[character.name@].len()
                    > old(self)@.rom.len() && final(self)@ == old(self)@,
            },
    {
        let words = match self.load_palette_i32(character.name.clone()) {
            Ok(words) => words,
            Err(_) => {
                return Err(PaletteError::NotFound);
            },
        };
        let count = words.len();
        if count > self.rom.len() / 2 {
            return Err(PaletteError::OutOfBounds);
        }
        let byte_len: usize = 2 * count;
        let limit: usize = self.rom.len() - byte_len;
        if character.palette_offset > limit as u64 {
            return Err(PaletteError::OutOfBounds);
        }
        let off: usize = character.palette_offset as usize;
        let ghost old_rom = self.rom@;
        let ghost bytes = bytes_of_words(words@);
        let mut j: usize = 0;
        while j < count
            invariant
                self.wf(),
                self.palettes@ == old(self).palettes@,
                self.color_cache == old(self).color_cache,
                self.rom@.len() == old_rom.len(),
                words@.len() == count,
                off == character.palette_offset,
                off + 2 * count <= self.rom.len(),
                bytes == bytes_of_words(words@),
                j <= count,
                forall|p: int|
                    0 <= p < old_rom.len() && !(off <= p < off + 2 * j) ==> self.rom@[p]
                        == old_rom[p],
                forall|p: int| 0 <= p < 2 * j ==> self.rom@[off + p] == bytes[p],
            decreases count - j,
        {
            let word = words[j];
            proof {
                assert(0 <= (word & 0xff) < 256) by (bit_vector);
                assert(0 <= ((word >> 8) & 0xff) < 256) by (bit_vector);
            }
            let lo: u8 = (word & 0xff) as u8;
            let hi: u8 = ((word >> 8) & 0xff) as u8;
            self.rom[off + 2 * j] = lo;
            self.rom[off + 2 * j + 1] = hi;
            j += 1;
        }
        proof {
            assert(self.rom@ =~= write_block(old_rom, off as int, bytes));
        }
        Ok(())
    }
}

} // verus!
