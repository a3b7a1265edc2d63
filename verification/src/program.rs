//! Programs for DPUs: sections of instructions and of data, each with the
//! address it is loaded at.

use vstd::prelude::*;

verus! {

pub type IramAddress = u16;

pub type WramAddress = u32;

pub type Instruction = u64;

pub type WramData = u32;

/// A program: its instruction sections and its data sections, each under the
/// address it is loaded at, and the file it was read from, if any.
#[derive(Debug)]
pub struct Program {
    pub iram_sections: Vec<(IramAddress, Vec<Instruction>)>,
    pub wram_sections: Vec<(WramAddress, Vec<WramData>)>,
    pub binary_file: Option<String>,
}

/// The number that `bytes` spell, least significant byte first.
pub open spec fn little_endian(bytes: Seq<u8>) -> nat
    decreases bytes.len(),
{
    if bytes.len() == 0 {
        0
    } else {
        bytes[0] as nat + 256 * little_endian(bytes.skip(1))
    }
}

/// Number of chunks of `width` bytes that `length` bytes fall into, the last
/// of them possibly short.
pub open spec fn nr_of_chunks(length: int, width: int) -> int {
    (length + width - 1) / width
}

/// Chunk `index` of `bytes` cut into chunks of `width` bytes.
pub open spec fn chunk(bytes: Seq<u8>, width: int, index: int) -> Seq<u8> {
    bytes.subrange(
        index * width,
        if (index + 1) * width <= bytes.len() {
            (index + 1) * width
        } else {
            bytes.len() as int
        },
    )
}

/// The words that `bytes` spell when cut into chunks of `width` bytes, each
/// chunk least significant byte first.
pub open spec fn words(bytes: Seq<u8>, width: int) -> Seq<nat> {
    Seq::new(
        nr_of_chunks(bytes.len() as int, width) as nat,
        |i: int| little_endian(chunk(bytes, width, i)),
    )
}

proof fn lemma_little_endian_push(bytes: Seq<u8>, byte: u8)
    ensures
        little_endian(bytes.push(byte)) == little_endian(bytes) + byte as nat * pow256(bytes.len()),
    decreases bytes.len(),
{
    let longer = bytes.push(byte);
    if bytes.len() == 0 {
        assert(longer.skip(1) =~= Seq::<u8>::empty());
        assert(little_endian(longer.skip(1)) == 0);
        assert(longer[0] == byte);
        assert(pow256(0) == 1);
        assert(byte as nat * 1 == byte as nat) by (nonlinear_arith);
    } else {
        let rest = bytes.skip(1);
        assert(longer.skip(1) =~= rest.push(byte));
        assert(longer[0] == bytes[0]);
        lemma_little_endian_push(rest, byte);
        assert(pow256(bytes.len()) == 256 * pow256(rest.len()));
        let high = little_endian(rest);
        let unit = pow256(rest.len());
        assert(256 * (high + byte as nat * unit) == 256 * high + byte as nat * (256 * unit)) by (nonlinear_arith);
    }
}

/// 256 to the power of `n`.
pub open spec fn pow256(n: nat) -> nat
    decreases n,
{
    if n == 0 {
        1
    } else {
        256 * pow256((n - 1) as nat)
    }
}

proof fn lemma_little_endian_bound(bytes: Seq<u8>)
    ensures
        little_endian(bytes) < pow256(bytes.len()),
    decreases bytes.len(),
{
    if bytes.len() > 0 {
        lemma_little_endian_bound(bytes.skip(1));
        assert(bytes[0] as nat + 256 * little_endian(bytes.skip(1)) < 256 * pow256(
            bytes.skip(1).len(),
        )) by (nonlinear_arith)
            requires
                bytes[0] < 256,
                little_endian(bytes.skip(1)) < pow256(bytes.skip(1).len()),
        ;
    }
}

proof fn lemma_pow256_values()
    ensures
        pow256(0) == 1,
        pow256(1) == 0x100,
        pow256(2) == 0x1_0000,
        pow256(3) == 0x100_0000,
        pow256(4) == 0x1_0000_0000,
        pow256(5) == 0x100_0000_0000,
        pow256(6) == 0x1_0000_0000_0000,
        pow256(7) == 0x100_0000_0000_0000,
        pow256(8) == 0x1_0000_0000_0000_0000,
{
    reveal_with_fuel(pow256, 10);
}

/// The word that the bytes from `from` up to `end` spell, least significant
/// byte first.
fn word_at(bytes: &Vec<u8>, from: usize, end: usize) -> (word: u64)
    requires
        from <= end <= bytes@.len(),
        end - from <= 8,
    ensures
        word == little_endian(bytes@.subrange(from as int, end as int)),
{
    let mut word: u64 = 0;
    let mut factor: u64 = 1;
    let mut i: usize = from;
    proof {
        lemma_pow256_values();
        assert(bytes@.subrange(from as int, from as int) =~= Seq::<u8>::empty());
    }
    while i < end
        invariant
            from <= i <= end,
            end <= bytes@.len(),
            end - from <= 8,
            word == little_endian(bytes@.subrange(from as int, i as int)),
            i < end ==> factor == pow256((i - from) as nat),
        decreases end - i,
    {
        let ghost so_far = bytes@.subrange(from as int, i as int);
        let ghost longer = bytes@.subrange(from as int, i + 1);
        proof {
            lemma_pow256_values();
            lemma_little_endian_bound(so_far);
            lemma_little_endian_push(so_far, bytes@[i as int]);
            assert(so_far.push(bytes@[i as int]) =~= longer);
            lemma_little_endian_bound(longer);
            lemma_pow256_monotone(longer.len(), 8);
            assert(pow256((i + 1 - from) as nat) == 256 * pow256((i - from) as nat));
        }
        let byte = bytes[i] as u64;
        proof {
            assert(byte as nat * pow256((i - from) as nat) <= little_endian(longer));
            lemma_pow256_monotone((i - from) as nat, 7);
        }
        assert(byte * factor <= 255 * factor) by (nonlinear_arith)
            requires
                byte <= 255,
        ;
        word = word + byte * factor;
        i += 1;
        if i < end {
            proof {
                lemma_pow256_monotone((i - from) as nat, 7);
            }
            factor = factor * 256;
        }
    }
    word
}

/// The words that `bytes` spell when cut into chunks of `width` bytes.
fn pack(bytes: &Vec<u8>, width: usize) -> (packed: Vec<u64>)
    requires
        1 <= width <= 8,
    ensures
        packed@.len() == words(bytes@, width as int).len(),
        forall|i: int| 0 <= i < packed@.len() ==> (#[trigger] packed@[i]) as nat == words(
            bytes@,
            width as int,
        )[i],
{
    let mut packed: Vec<u64> = Vec::new();
    let mut from: usize = 0;
    let ghost w = width as int;
    let ghost length = bytes@.len() as int;
    proof {
        assert(0 * w == 0) by (nonlinear_arith);
    }
    while from < bytes.len()
        invariant
            1 <= width <= 8,
            w == width,
            length == bytes@.len(),
            from <= length,
            from < length ==> from == packed@.len() * w,
            from == length ==> (packed@.len() == 0 && length == 0) || ((packed@.len() - 1) * w
                < length <= packed@.len() * w),
            forall|i: int|
                0 <= i < packed@.len() ==> (#[trigger] packed@[i]) as nat == little_endian(
                    chunk(bytes@, w, i),
                ),
        decreases length - from,
    {
        let ghost index = packed@.len() as int;
        proof {
            assert((index + 1) * w == index * w + w) by (nonlinear_arith);
            assert((index + 1 - 1) * w == index * w) by (nonlinear_arith);
        }
        let end = if bytes.len() - from > width {
            from + width
        } else {
            bytes.len()
        };
        let word = word_at(bytes, from, end);
        proof {
            assert(chunk(bytes@, w, index) =~= bytes@.subrange(from as int, end as int));
        }
        packed.push(word);
        from = end;
    }
    proof {
        let count = packed@.len() as int;
        if length == 0 {
            assert((0 + w - 1) / w == 0) by (nonlinear_arith)
                requires
                    1 <= w <= 8,
            ;
        } else {
            assert((length + w - 1) / w == count) by (nonlinear_arith)
                requires
                    (count - 1) * w < length <= count * w,
                    1 <= w <= 8,
            ;
        }
    }
    packed
}

impl Program {
    /// The program with the instructions `iram` and the data `wram`, both
    /// loaded at address 0.
    pub fn new(iram: Vec<Instruction>, wram: Vec<WramData>, binary_file: Option<String>) -> (program:
        Program)
        ensures
            program.iram_sections@ == seq![(0u16, iram)],
            program.wram_sections@ == seq![(0u32, wram)],
            program.binary_file == binary_file,
    {
        let mut iram_sections: Vec<(IramAddress, Vec<Instruction>)> = Vec::new();
        let mut wram_sections: Vec<(WramAddress, Vec<WramData>)> = Vec::new();
        iram_sections.push((0, iram));
        wram_sections.push((0, wram));
        Program { iram_sections, wram_sections, binary_file }
    }

    /// The program whose instructions and data are spelled by the bytes
    /// `iram` and `wram`: eight bytes an instruction, four bytes a word of
    /// data, least significant byte first, a short last chunk counting as if
    /// filled up with zeros.
    pub fn new_raw(iram: Vec<u8>, wram: Vec<u8>) -> (program: Program)
        ensures
            program.iram_sections@.len() == 1,
            program.iram_sections@[0].0 == 0,
            program.iram_sections@[0].1@.len() == words(iram@, 8).len(),
            forall|i: int|
                0 <= i < words(iram@, 8).len() ==> (#[trigger] program.iram_sections@[0].1@[i]) as nat
                    == words(iram@, 8)[i],
            program.wram_sections@.len() == 1,
            program.wram_sections@[0].0 == 0,
            program.wram_sections@[0].1@.len() == words(wram@, 4).len(),
            forall|i: int|
                0 <= i < words(wram@, 4).len() ==> (#[trigger] program.wram_sections@[0].1@[i]) as nat
                    == words(wram@, 4)[i],
            program.binary_file is None,
    {
        let instructions = pack(&iram, 8);
        let wide = pack(&wram, 4);
        let mut data: Vec<WramData> = Vec::new();
        let mut i: usize = 0;
        while i < wide.len()
            invariant
                i <= wide@.len(),
                data@.len() == i,
                wide@.len() == words(wram@, 4).len(),
                forall|j: int| 0 <= j < wide@.len() ==> (#[trigger] wide@[j]) as nat == words(wram@, 4)[j],
                forall|j: int| 0 <= j < i ==> (#[trigger] data@[j]) as nat == words(wram@, 4)[j],
            decreases wide.len() - i,
        {
            proof {
                lemma_pow256_values();
                lemma_little_endian_bound(chunk(wram@, 4, i as int));
                reveal_with_fuel(pow256, 5);
                assert(chunk(wram@, 4, i as int).len() <= 4);
                lemma_pow256_monotone(chunk(wram@, 4, i as int).len(), 4);
            }
            data.push(wide[i] as u32);
            i += 1;
        }
        Program::new(instructions, data, None)
    }

    /// Number of instructions of the program, and number of bytes of its
    /// data; each is `u32::MAX` where it would be larger.
    pub fn size(&self) -> (size: (u32, u32))
        ensures
            size.0 == capped(nr_of_instructions(self.iram_sections@)),
            size.1 == capped(4 * nr_of_data_words(self.wram_sections@)),
    {
        let mut instructions: u64 = 0;
        let mut i: usize = 0;
        proof {
            assert(self.iram_sections@.subrange(0, 0) =~= Seq::<(u16, Vec<u64>)>::empty());
            assert(self.wram_sections@.subrange(0, 0) =~= Seq::<(u32, Vec<u32>)>::empty());
        }
        while i < self.iram_sections.len()
            invariant
                i <= self.iram_sections@.len(),
                instructions == capped(nr_of_instructions(self.iram_sections@.subrange(0, i as int))),
            decreases self.iram_sections.len() - i,
        {
            proof {
                assert(self.iram_sections@.subrange(0, i + 1).drop_last()
                    =~= self.iram_sections@.subrange(0, i as int));
            }
            let length = self.iram_sections[i].1.len();
            instructions = if length as u64 >= 0xffff_ffff - instructions {
                0xffff_ffff
            } else {
                instructions + length as u64
            };
            i += 1;
        }
        let mut words: u64 = 0;
        let mut j: usize = 0;
        while j < self.wram_sections.len()
            invariant
                j <= self.wram_sections@.len(),
                words == capped(nr_of_data_words(self.wram_sections@.subrange(0, j as int))),
            decreases self.wram_sections.len() - j,
        {
            proof {
                assert(self.wram_sections@.subrange(0, j + 1).drop_last()
                    =~= self.wram_sections@.subrange(0, j as int));
            }
            let length = self.wram_sections[j].1.len();
            words = if length as u64 >= 0xffff_ffff - words {
                0xffff_ffff
            } else {
                words + length as u64
            };
            j += 1;
        }
        proof {
            assert(self.iram_sections@.subrange(0, i as int) =~= self.iram_sections@);
            assert(self.wram_sections@.subrange(0, j as int) =~= self.wram_sections@);
        }
        let bytes: u64 = if words >= 0x4000_0000 {
            0xffff_ffff
        } else {
            words * 4
        };
        (instructions as u32, bytes as u32)
    }
}

proof fn lemma_pow256_monotone(a: nat, b: nat)
    requires
        a <= b,
    ensures
        pow256(a) <= pow256(b),
    decreases b,
{
    if a < b {
        lemma_pow256_monotone(a, (b - 1) as nat);
    }
}

/// `n`, or `u32::MAX` where `n` is larger.
pub open spec fn capped(n: nat) -> nat {
    if n >= 0xffff_ffff {
        0xffff_ffff
    } else {
        n
    }
}

/// Number of instructions in `sections`.
pub open spec fn nr_of_instructions(sections: Seq<(IramAddress, Vec<Instruction>)>) -> nat
    decreases sections.len(),
{
    if sections.len() == 0 {
        0
    } else {
        nr_of_instructions(sections.drop_last()) + sections.last().1@.len()
    }
}

/// Number of words of data in `sections`.
pub open spec fn nr_of_data_words(sections: Seq<(WramAddress, Vec<WramData>)>) -> nat
    decreases sections.len(),
{
    if sections.len() == 0 {
        0
    } else {
        nr_of_data_words(sections.drop_last()) + sections.last().1@.len()
    }
}

} // verus!
