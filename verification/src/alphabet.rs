//! The 26-symbol uppercase alphabet and its mapping to signal indices.

use vstd::prelude::*;

verus! {

/// Holds when `c` is a symbol of the supported alphabet: an uppercase letter.
pub open spec fn is_upper(c: char) -> bool {
    'A' <= c && c <= 'Z'
}

/// The alphabet position of an uppercase letter (`'A'` is 0, `'Z'` is 25).
pub open spec fn idx_of(c: char) -> int {
    c as int - 65
}

/// The uppercase letter standing at alphabet position `i`.
pub open spec fn char_of(i: int) -> char {
    (i + 65) as char
}

pub proof fn lemma_char_of_idx_of(c: char)
    requires
        is_upper(c),
    ensures
        0 <= idx_of(c) < 26,
        char_of(idx_of(c)) == c,
{
}

pub proof fn lemma_idx_of_char_of(i: int)
    requires
        0 <= i < 26,
    ensures
        is_upper(char_of(i)),
        idx_of(char_of(i)) == i,
{
}

/// Holds when every symbol of the sequence belongs to the alphabet.
pub open spec fn upper_seq(s: Seq<char>) -> bool {
    forall|i: int| 0 <= i < s.len() ==> is_upper(#[trigger] s[i])
}

/// The signal indices spelled by a sequence of alphabet symbols.
pub open spec fn indices_of(s: Seq<char>) -> Seq<usize> {
    Seq::new(s.len(), |i: int| (s[i] as int - 65) as usize)
}

/// Sum of two signal indices, wrapped back into the alphabet.
pub open spec fn add_mod26(a: int, b: int) -> int {
    if a + b < 26 {
        a + b
    } else {
        a + b - 26
    }
}

/// Difference of two signal indices, wrapped back into the alphabet.
pub open spec fn sub_mod26(a: int, b: int) -> int {
    if a >= b {
        a - b
    } else {
        a + 26 - b
    }
}

/// Converts an alphabet symbol to the signal index the wiring tables use.
pub fn char_to_index(c: char) -> (r: usize)
    requires
        is_upper(c),
    ensures
        r == idx_of(c),
        r < 26,
{
    ((c as u32) - 65) as usize
}

/// Converts a signal index back to the alphabet symbol it stands for.
pub fn index_to_char(i: usize) -> (c: char)
    requires
        i < 26,
    ensures
        c == char_of(i as int),
        is_upper(c),
        idx_of(c) == i,
{
    ((i as u8) + 65) as char
}

} // verus!
