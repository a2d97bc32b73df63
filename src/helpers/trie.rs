//! A compact three-level bitmap index of a set of Unicode scalar values.
use vstd::prelude::*;

use crate::builtin::is_predicate;
use crate::results::{ParseResult, StopBecause};
use crate::state::ParseState;

verus! {

/// Whether bit `cp mod 64` of `chunk` is set.
pub open spec fn chunk_bit(chunk: u64, cp: usize) -> bool {
    ((chunk >> ((cp & 63usize) as u64)) & 1u64) == 1u64
}

/// A set of code points: code points below U+0800 index a flat table of
/// 64-bit chunks; those below U+10000 go through one table of leaf numbers;
/// the others through two.
#[derive(Clone, Copy, Debug)]
pub struct CharactersTrie {
    /// Name of the set, reported when a character is not in it.
    pub set_name: &'static str,
    /// Chunks of the code points below U+0800.
    pub tree1_level1: &'static [u64],
    /// Leaf numbers of the chunks of the code points from U+0800 to U+FFFF.
    pub tree2_level1: &'static [u8],
    /// Leaves of the second tree.
    pub tree2_level2: &'static [u64],
    /// Child numbers of the blocks of 4096 code points from U+10000.
    pub tree3_level1: &'static [u8],
    /// Leaf numbers, 64 for each child.
    pub tree3_level2: &'static [u8],
    /// Leaves of the third tree.
    pub tree3_level3: &'static [u64],
}

impl CharactersTrie {
    /// The tables are consistent: every index that a lookup computes is in
    /// bounds.
    pub open spec fn wf(&self) -> bool {
        &&& self.tree1_level1@.len() >= 32
        &&& forall|i: int| 0 <= i < self.tree2_level1@.len() ==> (#[trigger] self.tree2_level1@[i] as int) < self.tree2_level2@.len()
        &&& forall|i: int| 0 <= i < self.tree3_level1@.len() ==> (#[trigger] self.tree3_level1@[i] as int) * 64 + 64 <= self.tree3_level2@.len()
        &&& forall|i: int| 0 <= i < self.tree3_level2@.len() ==> (#[trigger] self.tree3_level2@[i] as int) < self.tree3_level3@.len()
    }

    /// Whether the set holds the code point `cp`, read off the tables.
    pub open spec fn spec_contains(&self, cp: usize) -> bool {
        if cp < 0x800 {
            chunk_bit(self.tree1_level1@[(cp >> 6usize) as int], cp)
        } else if cp < 0x10000 {
            let i = (cp >> 6usize) - 0x20;
            if i >= self.tree2_level1@.len() {
                false
            } else {
                chunk_bit(self.tree2_level2@[self.tree2_level1@[i] as int], cp)
            }
        } else {
            let i = (cp >> 12usize) - 0x10;
            if i >= self.tree3_level1@.len() {
                false
            } else {
                let child = self.tree3_level1@[i];
                let j = (child as int) * 64 + ((cp >> 6usize) & 63usize);
                chunk_bit(self.tree3_level3@[self.tree3_level2@[j] as int], cp)
            }
        }
    }

    /// Whether the set holds the character `c`.
    pub fn contains(&self, c: char) -> (r: bool)
        requires
            self.wf(),
        ensures
            r == self.spec_contains(c as usize),
    {
        self.contains_inner(c as u32 as usize)
    }

    /// Whether the set holds the code point `cp`; never for a value beyond
    /// U+10FFFF.
    pub fn contains_u32(&self, cp: u32) -> (r: bool)
        requires
            self.wf(),
        ensures
            cp > 0x10FFFF ==> !r,
            cp <= 0x10FFFF ==> r == self.spec_contains(cp as usize),
    {
        if cp > 0x10FFFF {
            return false;
        }
        self.contains_inner(cp as usize)
    }

    fn contains_inner(&self, cp: usize) -> (r: bool)
        requires
            self.wf(),
            cp <= 0x10FFFF,
        ensures
            r == self.spec_contains(cp),
    {
        if cp < 0x800 {
            assert((cp >> 6usize) < 32) by (bit_vector)
                requires
                    cp < 0x800,
            ;
            self.chunk_contains(cp, self.tree1_level1[cp >> 6])
        } else if cp < 0x10000 {
            assert((cp >> 6usize) >= 0x20) by (bit_vector)
                requires
                    cp >= 0x800,
            ;
            let i = (cp >> 6) - 0x20;
            if i >= self.tree2_level1.len() {
                return false;
            }
            let leaf = self.tree2_level1[i];
            self.chunk_contains(cp, self.tree2_level2[leaf as usize])
        } else {
            assert((cp >> 12usize) >= 0x10) by (bit_vector)
                requires
                    cp >= 0x10000,
            ;
            let i = (cp >> 12) - 0x10;
            if i >= self.tree3_level1.len() {
                return false;
            }
            let child = self.tree3_level1[i];
            assert(((cp >> 6usize) & 63usize) < 64) by (bit_vector);
            let j = (child as usize) * 64 + ((cp >> 6) & 0b111111);
            let leaf = self.tree3_level2[j];
            self.chunk_contains(cp, self.tree3_level3[leaf as usize])
        }
    }

    fn chunk_contains(&self, cp: usize, chunk: u64) -> (r: bool)
        ensures
            r == chunk_bit(chunk, cp),
    {
        let shift = (cp & 0b111111) as u64;
        assert((cp & 63usize) < 64) by (bit_vector);
        ((chunk >> shift) & 1) == 1
    }

    /// Match a character of the set.
    pub fn consume<'i>(&self, input: ParseState<'i>) -> (r: ParseResult<'i, char>)
        requires
            input.wf(),
            self.wf(),
        ensures
            r is Pending <==> input@.len() > 0 && self.spec_contains(input@[0] as usize),
            r matches ParseResult::Pending(n, v) ==> v == input@[0] && input.moved(n, 1) && n.wf(),
            r matches ParseResult::Stop(e) ==> e == (StopBecause::MustBe {
                message: self.set_name,
                position: input.start_offset,
            }),
    {
        let this = *self;
        let member = |c: char| -> (b: bool)
            requires
                this.wf(),
            ensures
                b == this.spec_contains(c as usize),
            { this.contains(c) };
        assert(is_predicate(member));
        input.match_char_if(member, self.set_name)
    }
}

} // verus!
