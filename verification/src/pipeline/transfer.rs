//! The memory description of one work item.

use vstd::prelude::*;

verus! {

/// Bytes to write into DPU memory at `offset` before the DPU is booted.
#[derive(Debug)]
pub struct InputMemoryTransfer {
    pub offset: u32,
    pub content: Vec<u8>,
}

/// The region of DPU memory to read back once the DPU has finished.
#[derive(Clone, Copy, Debug, PartialEq, Eq, Structural)]
pub struct OutputMemoryTransfer {
    pub offset: u32,
    pub length: u32,
}

/// Everything the pipeline needs to know about one work item: the regions to
/// write, in order, the region to read back, and the caller's key, which is
/// handed back unchanged with the result.
#[derive(Debug)]
pub struct MemoryTransfers<K> {
    pub inputs: Vec<InputMemoryTransfer>,
    pub output: OutputMemoryTransfer,
    pub key: K,
}

/// The bytes of `words`, four a word, least significant byte first.
pub open spec fn bytes_of_words(words: Seq<u32>) -> Seq<u8> {
    Seq::new(
        4 * words.len(),
        |i: int|
            if i % 4 == 0 {
                (words[i / 4] % 256) as u8
            } else if i % 4 == 1 {
                (words[i / 4] / 0x100 % 256) as u8
            } else if i % 4 == 2 {
                (words[i / 4] / 0x1_0000 % 256) as u8
            } else {
                (words[i / 4] / 0x100_0000 % 256) as u8
            },
    )
}

impl InputMemoryTransfer {
    /// The transfer of the bytes of `content`, four a word, least significant
    /// byte first.
    pub fn from_u32_vec(offset: u32, content: Vec<u32>) -> (t: InputMemoryTransfer)
        ensures
            t.offset == offset,
            t.content@ == bytes_of_words(content@),
    {
        let mut bytes: Vec<u8> = Vec::new();
        let mut i: usize = 0;
        while i < content.len()
            invariant
                i <= content@.len(),
                bytes@ == bytes_of_words(content@.subrange(0, i as int)),
            decreases content.len() - i,
        {
            let word = content[i];
            let ghost before = bytes@;
            bytes.push((word % 256) as u8);
            bytes.push((word / 0x100 % 256) as u8);
            bytes.push((word / 0x1_0000 % 256) as u8);
            bytes.push((word / 0x100_0000 % 256) as u8);
            proof {
                let shorter = content@.subrange(0, i as int);
                let longer = content@.subrange(0, i + 1);
                assert forall|k: int| 0 <= k < 4 * (i + 1) implies bytes@[k] == bytes_of_words(
                    longer,
                )[k] by {
                    if k < 4 * i {
                        assert(bytes@[k] == before[k]);
                        assert(shorter[k / 4] == longer[k / 4]);
                    } else {
                        assert(k / 4 == i as int);
                        assert(longer[k / 4] == word);
                    }
                }
                assert(bytes@ =~= bytes_of_words(longer));
            }
            i += 1;
        }
        proof {
            assert(content@.subrange(0, i as int) =~= content@);
        }
        InputMemoryTransfer { offset, content: bytes }
    }

    pub fn from_u8_vec(offset: u32, content: Vec<u8>) -> (t: InputMemoryTransfer)
        ensures
            t.offset == offset,
            t.content == content,
    {
        InputMemoryTransfer { offset, content }
    }
}

} // verus!
