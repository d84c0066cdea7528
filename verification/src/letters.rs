//! The alphabet `a..z` and compact sets of its letters.
use vstd::prelude::*;

verus! {

/// Number of letters in the alphabet `a..z`.
pub const ALPHABET_SIZE: usize = 26;

/// Whether `c` is one of the lowercase letters `a..z`.
pub open spec fn is_letter(c: char) -> bool {
    'a' <= c && c <= 'z'
}

/// Position of a letter in the alphabet, `a` being 0.
pub open spec fn letter_index(c: char) -> int {
    c as int - 'a' as int
}

/// Whether every character of `w` is a letter of the alphabet.
pub open spec fn all_letters(w: Seq<char>) -> bool {
    forall|i: int| 0 <= i < w.len() ==> is_letter(#[trigger] w[i])
}

/// Tests whether `c` belongs to the alphabet.
pub fn check_letter(c: char) -> (b: bool)
    ensures
        b == is_letter(c),
{
    'a' <= c && c <= 'z'
}

/// Maps a letter to its position in the alphabet.
pub fn letter_to_index(c: char) -> (i: usize)
    requires
        is_letter(c),
    ensures
        i == letter_index(c),
        i < ALPHABET_SIZE,
{
    (c as u32 - 'a' as u32) as usize
}

/// Maps a position in the alphabet back to its letter.
pub fn index_to_letter(i: usize) -> (c: char)
    requires
        i < ALPHABET_SIZE,
    ensures
        is_letter(c),
        letter_index(c) == i,
{
    (97u8 + i as u8) as char
}

/// Reads the character at position `i` of `chars`.
pub fn char_at(chars: &Vec<char>, i: usize) -> (c: char)
    requires
        i < chars.len(),
    ensures
        c == chars@[i as int],
{
    chars[i]
}

/// Whether bit `i` of `bits` is set.
pub open spec fn has_bit(bits: u32, i: int) -> bool {
    0 <= i < 32 && (bits >> (i as u32)) & 1u32 == 1u32
}

proof fn lemma_bit_of_zero(i: u32)
    requires
        i < 32,
    ensures
        (0u32 >> i) & 1u32 == 0u32,
{
    assert((0u32 >> i) & 1u32 == 0u32) by (bit_vector)
        requires
            i < 32,
    ;
}

proof fn lemma_bit_of_full(i: u32)
    requires
        i < 26,
    ensures
        (0x3ff_ffffu32 >> i) & 1u32 == 1u32,
{
    assert((0x3ff_ffffu32 >> i) & 1u32 == 1u32) by (bit_vector)
        requires
            i < 26,
    ;
}

proof fn lemma_bit_after_set(bits: u32, i: u32, j: u32)
    requires
        i < 32,
        j < 32,
    ensures
        ((bits | (1u32 << i)) >> j) & 1u32 == (if i == j {
            1u32
        } else {
            (bits >> j) & 1u32
        }),
{
    assert(((bits | (1u32 << i)) >> j) & 1u32 == (if i == j {
        1u32
    } else {
        (bits >> j) & 1u32
    })) by (bit_vector)
        requires
            i < 32,
            j < 32,
    ;
}

/// A set of letters of the alphabet, kept as a bit mask: bit `i` stands for
/// the letter at position `i`.
#[derive(Clone, Copy, Debug)]
pub struct LetterSet {
    pub bits: u32,
}

impl View for LetterSet {
    type V = Set<char>;

    open spec fn view(&self) -> Set<char> {
        Set::new(|c: char| is_letter(c) && has_bit(self.bits, letter_index(c)))
    }
}

/// The whole alphabet as a mathematical set.
pub open spec fn alphabet() -> Set<char> {
    Set::new(|c: char| is_letter(c))
}

impl LetterSet {
    /// The set without any letter.
    pub fn empty() -> (s: LetterSet)
        ensures
            s@ == Set::<char>::empty(),
    {
        let s = LetterSet { bits: 0 };
        proof {
            assert forall|c: char| !s@.contains(c) by {
                if is_letter(c) {
                    lemma_bit_of_zero(letter_index(c) as u32);
                }
            }
            assert(s@ =~= Set::<char>::empty());
        }
        s
    }

    /// The set of all letters of the alphabet.
    pub fn full() -> (s: LetterSet)
        ensures
            s@ == alphabet(),
    {
        let s = LetterSet { bits: 0x3ff_ffff };
        proof {
            assert forall|c: char| is_letter(c) implies s@.contains(c) by {
                lemma_bit_of_full(letter_index(c) as u32);
            }
            assert(s@ =~= alphabet());
        }
        s
    }

    /// Membership test; characters outside the alphabet are never members.
    pub fn contains(&self, c: char) -> (b: bool)
        ensures
            b == self@.contains(c),
    {
        if check_letter(c) {
            let i = letter_to_index(c);
            (self.bits >> (i as u32)) & 1u32 == 1u32
        } else {
            false
        }
    }

    /// Adds the letter `c` to the set.
    pub fn insert(&mut self, c: char)
        requires
            is_letter(c),
        ensures
            final(self)@ == old(self)@.insert(c),
    {
        let i = letter_to_index(c);
        let ghost before = self.bits;
        self.bits = self.bits | (1u32 << (i as u32));
        proof {
            assert forall|d: char| self@.contains(d) == old(self)@.insert(c).contains(d) by {
                if is_letter(d) {
                    lemma_bit_after_set(before, i as u32, letter_index(d) as u32);
                }
            }
            assert(self@ =~= old(self)@.insert(c));
        }
    }
}

} // verus!
