//! The machine's three kinds of component: rotors, the plug board and the
//! reflector, together with the wiring validator run at rotor construction.

use vstd::prelude::*;

use crate::alphabet::add_mod26;
use crate::alphabet::char_of;
use crate::alphabet::char_to_index;
use crate::alphabet::idx_of;
use crate::alphabet::index_to_char;
use crate::alphabet::indices_of;
use crate::alphabet::is_upper;
use crate::alphabet::sub_mod26;
use crate::alphabet::upper_seq;
use crate::enigma_types::EnigmaPlugBoardError;
use crate::enigma_types::EnigmaPlugBoardWire;
use crate::enigma_types::EnigmaRotorSetting;
use crate::enigma_types::EnigmaRotorWireError;
use crate::enigma_types::wire_wf;

verus! {

/// Every entry of a wiring table is a valid signal index.
pub open spec fn entries_in_range(s: Seq<usize>) -> bool {
    forall|i: int| 0 <= i < s.len() ==> (#[trigger] s[i]) < 26
}

/// No two positions of a wiring table share a value.
pub open spec fn entries_distinct(s: Seq<usize>) -> bool {
    forall|i: int, j: int|
        0 <= i < s.len() && 0 <= j < s.len() && i != j ==> s[i] != s[j]
}

/// A single 26-entry table forms a bijection over the signal indices.
pub open spec fn table_bijective(s: Seq<usize>) -> bool {
    s.len() == 26 && entries_in_range(s) && entries_distinct(s)
}

/// The pair of tables a rotor is wired with is valid: both are bijections
/// over the 26 signal indices and they are mutual inverses of each other.
pub open spec fn wiring_valid(f: Seq<usize>, b: Seq<usize>) -> bool {
    &&& table_bijective(f)
    &&& table_bijective(b)
    &&& forall|i: int| 0 <= i < 26 ==> b[#[trigger] f[i] as int] as int == i
}

/// A valid pair is inverse in the other direction as well: threading a signal
/// backward and then forward returns it unchanged.
pub proof fn lemma_wiring_valid_inverse(f: Seq<usize>, b: Seq<usize>)
    requires
        wiring_valid(f, b),
    ensures
        forall|j: int| 0 <= j < 26 ==> f[#[trigger] b[j] as int] as int == j,
{
    assert forall|j: int| 0 <= j < 26 implies f[#[trigger] b[j] as int] as int == j by {
        let i = b[j] as int;
        assert(b[f[i] as int] as int == i);
        if f[i] as int != j {
            assert(b[f[i] as int] != b[j]);
        }
    }
}

/// The identity wiring: every signal index maps to itself.
pub open spec fn identity_table() -> Seq<usize> {
    Seq::new(26, |i: int| i as usize)
}

/// Builds the identity wiring table.
fn identity_vec() -> (v: Vec<usize>)
    ensures
        v@ == identity_table(),
{
    let mut v: Vec<usize> = Vec::new();
    let mut i: usize = 0;
    while i < 26
        invariant
            i <= 26,
            v@.len() == i,
            forall|j: int| 0 <= j < i ==> v@[j] == j,
        decreases 26 - i,
    {
        v.push(i);
        i += 1;
    }
    assert(v@ =~= identity_table());
    v
}

pub proof fn lemma_identity_table_valid()
    ensures
        wiring_valid(identity_table(), identity_table()),
{
}

/// The signal indices spelled by a table of byte-sized entries.
pub open spec fn widened(s: Seq<u8>) -> Seq<usize> {
    Seq::new(s.len(), |i: int| s[i] as usize)
}

/// Holds when a rotor setting spells its symbols from the alphabet; lengths
/// and wiring are judged separately, at construction.
pub open spec fn setting_wf(s: EnigmaRotorSetting) -> bool {
    &&& upper_seq(s.wiring.forward@)
    &&& upper_seq(s.wiring.backward@)
    &&& is_upper(s.window)
}

/// Holds when a rotor setting's wiring strings spell a valid mutual-inverse
/// permutation pair.
pub open spec fn setting_valid(s: EnigmaRotorSetting) -> bool {
    wiring_valid(indices_of(s.wiring.forward@), indices_of(s.wiring.backward@))
}

/// The error an invalid rotor setting is rejected with: a wrong length is
/// reported before a wiring mismatch.
pub open spec fn setting_error(s: EnigmaRotorSetting) -> EnigmaRotorWireError {
    if s.wiring.forward@.len() != 26 || s.wiring.backward@.len() != 26 {
        EnigmaRotorWireError::InvaildLength
    } else {
        EnigmaRotorWireError::InvaildWiring
    }
}

/// Holds when a rotor carries exactly the state its setting asked for.
pub open spec fn rotor_matches_setting(rt: EnigmaRotor, s: EnigmaRotorSetting) -> bool {
    &&& rt.forward_mapping_array@ == indices_of(s.wiring.forward@)
    &&& rt.backward_mapping_array@ == indices_of(s.wiring.backward@)
    &&& rt.notch == s.notch
    &&& rt.window == s.window
    &&& rt.offset == idx_of(s.window)
}

/// One rotor: a mutually inverse pair of wiring tables, a notch symbol, and a
/// rotating offset with the window symbol derived from it.
pub struct EnigmaRotor {
    pub window: char,
    pub notch: char,
    pub forward_mapping_array: Vec<usize>,
    pub backward_mapping_array: Vec<usize>,
    pub offset: usize,
}

impl EnigmaRotor {
    /// Well-formedness: valid mutual-inverse wiring, offset inside the
    /// alphabet, and the window showing the symbol the offset stands for.
    pub open spec fn wf(self) -> bool {
        &&& wiring_valid(self.forward_mapping_array@, self.backward_mapping_array@)
        &&& self.offset < 26
        &&& self.window == char_of(self.offset as int)
    }

    /// The substitution this rotor applies on the forward pass: the rotation
    /// is removed from the incoming signal, the forward table applied, and
    /// the rotation put back.
    pub open spec fn fwd(self, i: int) -> int {
        add_mod26(
            self.forward_mapping_array@[sub_mod26(i, self.offset as int)] as int,
            self.offset as int,
        )
    }

    /// The substitution this rotor applies on the backward pass.
    pub open spec fn bwd(self, i: int) -> int {
        add_mod26(
            self.backward_mapping_array@[sub_mod26(i, self.offset as int)] as int,
            self.offset as int,
        )
    }

    /// Whether the window currently shows the notch symbol, which is what
    /// makes the next rotor step as well.
    pub open spec fn at_notch(self) -> bool {
        self.window == self.notch
    }

    /// The rotor after one step: offset advanced by one, wrapped, and the
    /// window recomputed; wiring and notch unchanged.
    pub open spec fn stepped(self) -> EnigmaRotor {
        EnigmaRotor {
            offset: (if self.offset == 25 { 0int } else { self.offset + 1 }) as usize,
            window: char_of(if self.offset == 25 { 0int } else { self.offset as int + 1 }),
            ..self
        }
    }

    /// The forward pass undoes the backward pass and the other way round.
    pub proof fn lemma_fwd_bwd_inverse(self, i: int)
        requires
            self.wf(),
            0 <= i < 26,
        ensures
            0 <= self.fwd(i) < 26,
            0 <= self.bwd(i) < 26,
            self.bwd(self.fwd(i)) == i,
            self.fwd(self.bwd(i)) == i,
    {
        let o = self.offset as int;
        let f = self.forward_mapping_array@;
        let b = self.backward_mapping_array@;
        lemma_wiring_valid_inverse(f, b);
        let k = sub_mod26(i, o);
        assert(f[k] < 26);
        assert(b[k] < 26);
        assert(b[f[k] as int] as int == k);
        assert(f[b[k] as int] as int == k);
        assert(sub_mod26(add_mod26(f[k] as int, o), o) == f[k] as int);
        assert(sub_mod26(add_mod26(b[k] as int, o), o) == b[k] as int);
        assert(add_mod26(k, o) == i);
    }

    /// A fresh rotor with identity wiring, notch and window at `'A'`.
    pub fn new() -> (r: Self)
        ensures
            r.wf(),
            r.window == 'A',
            r.notch == 'A',
            r.offset == 0,
            r.forward_mapping_array@ == identity_table(),
            r.backward_mapping_array@ == identity_table(),
    {
        let r = Self {
            notch: 'A',
            window: 'A',
            forward_mapping_array: identity_vec(),
            backward_mapping_array: identity_vec(),
            offset: 0,
        };
        proof {
            lemma_identity_table_valid();
            assert(r.window == char_of(0));
        }
        r
    }

    /// Sets the window directly to the given symbol and recomputes the offset
    /// from it; the notch is neither checked nor applied.
    pub fn set_window(&mut self, c: char)
        requires
            is_upper(c),
        ensures
            *final(self) == (EnigmaRotor { window: c, offset: idx_of(c) as usize, ..*old(self) }),
    {
        self.window = c;
        self.offset = char_to_index(c);
    }

    /// Advances this rotor's own offset by one, wrapping, and recomputes the
    /// window. The notch-driven cascade is the machine's business: it decides
    /// which rotors to step before their own state changes.
    pub fn rotate(&mut self)
        requires
            old(self).offset < 26,
        ensures
            *final(self) == old(self).stepped(),
    {
        self.offset = if self.offset == 25 {
            0
        } else {
            self.offset + 1
        };
        self.window = index_to_char(self.offset);
    }

    /// Builds a rotor from a full setting. The wiring is validated first: an
    /// invalid pair is rejected with an explicit error instead of being
    /// silently replaced, so a machine builder sees the failure.
    pub fn new_with_setting(setting: EnigmaRotorSetting<'_>) -> (r: Result<
        EnigmaRotor,
        EnigmaRotorWireError,
    >)
        requires
            setting_wf(setting),
        ensures
            r is Ok <==> setting_valid(setting),
            r matches Ok(rt) ==> {
                &&& rt.wf()
                &&& rt.forward_mapping_array@ == indices_of(setting.wiring.forward@)
                &&& rt.backward_mapping_array@ == indices_of(setting.wiring.backward@)
                &&& rt.notch == setting.notch
                &&& rt.window == setting.window
                &&& rt.offset == idx_of(setting.window)
            },
            r matches Err(e) ==> e == setting_error(setting),
    {
        let mut ret = Self::new();
        match ret.set_rotor_wiring_with_str(setting.wiring.forward, setting.wiring.backward) {
            Ok(()) => {
                ret.notch = setting.notch;
                ret.set_window(setting.window);
                proof {
                    crate::alphabet::lemma_char_of_idx_of(setting.window);
                }
                Ok(ret)
            },
            Err(e) => Err(e),
        }
    }

    /// Replaces this rotor's wiring from two 26-symbol strings, validating
    /// them first; on failure the rotor is left unchanged.
    pub fn set_rotor_wiring_with_str(&mut self, forward: &str, backward: &str) -> (r: Result<
        (),
        EnigmaRotorWireError,
    >)
        requires
            upper_seq(forward@),
            upper_seq(backward@),
        ensures
            r is Ok <==> wiring_valid(indices_of(forward@), indices_of(backward@)),
            r is Ok ==> {
                &&& final(self).forward_mapping_array@ == indices_of(forward@)
                &&& final(self).backward_mapping_array@ == indices_of(backward@)
                &&& final(self).window == old(self).window
                &&& final(self).notch == old(self).notch
                &&& final(self).offset == old(self).offset
            },
            r matches Err(e) ==> {
                &&& *final(self) == *old(self)
                &&& e == (if forward@.len() != 26 || backward@.len() != 26 {
                    EnigmaRotorWireError::InvaildLength
                } else {
                    EnigmaRotorWireError::InvaildWiring
                })
            },
    {
        let n = forward.unicode_len();
        let mut f_v: Vec<u8> = Vec::new();
        let mut i: usize = 0;
        while i < n
            invariant
                i <= n,
                n == forward@.len(),
                upper_seq(forward@),
                f_v@.len() == i,
                forall|j: int| 0 <= j < i ==> (#[trigger] f_v@[j]) as int == forward@[j] as int - 65,
            decreases n - i,
        {
            let c = forward.get_char(i);
            assert(is_upper(c));
            f_v.push(char_to_index(c) as u8);
            i += 1;
        }
        let m = backward.unicode_len();
        let mut b_v: Vec<u8> = Vec::new();
        let mut k: usize = 0;
        while k < m
            invariant
                k <= m,
                m == backward@.len(),
                upper_seq(backward@),
                b_v@.len() == k,
                forall|j: int| 0 <= j < k ==> (#[trigger] b_v@[j]) as int == backward@[j] as int - 65,
            decreases m - k,
        {
            let c = backward.get_char(k);
            assert(is_upper(c));
            b_v.push(char_to_index(c) as u8);
            k += 1;
        }
        proof {
            assert(widened(f_v@) =~= indices_of(forward@));
            assert(widened(b_v@) =~= indices_of(backward@));
        }
        self.set_rotor_wiring_with_vec(f_v, b_v)
    }

    /// Replaces this rotor's wiring from two tables of byte-sized indices,
    /// validating length and permutation; on failure the rotor is unchanged.
    fn set_rotor_wiring_with_vec(&mut self, forward: Vec<u8>, backward: Vec<u8>) -> (r: Result<
        (),
        EnigmaRotorWireError,
    >)
        requires
            forall|i: int| 0 <= i < forward@.len() ==> (#[trigger] forward@[i]) < 26,
            forall|i: int| 0 <= i < backward@.len() ==> (#[trigger] backward@[i]) < 26,
        ensures
            r is Ok <==> wiring_valid(widened(forward@), widened(backward@)),
            r is Ok ==> {
                &&& final(self).forward_mapping_array@ == widened(forward@)
                &&& final(self).backward_mapping_array@ == widened(backward@)
                &&& final(self).window == old(self).window
                &&& final(self).notch == old(self).notch
                &&& final(self).offset == old(self).offset
            },
            r matches Err(e) ==> {
                &&& *final(self) == *old(self)
                &&& e == (if forward@.len() != 26 || backward@.len() != 26 {
                    EnigmaRotorWireError::InvaildLength
                } else {
                    EnigmaRotorWireError::InvaildWiring
                })
            },
    {
        if forward.len() != 26 || backward.len() != 26 {
            return Err(EnigmaRotorWireError::InvaildLength);
        }
        let mut f: Vec<usize> = Vec::new();
        let mut i: usize = 0;
        while i < 26
            invariant
                i <= 26,
                forward@.len() == 26,
                forall|j: int| 0 <= j < 26 ==> (#[trigger] forward@[j]) < 26,
                f@.len() == i,
                forall|j: int| 0 <= j < i ==> (#[trigger] f@[j]) == forward@[j] as usize,
            decreases 26 - i,
        {
            f.push(forward[i] as usize);
            i += 1;
        }
        let mut b: Vec<usize> = Vec::new();
        let mut k: usize = 0;
        while k < 26
            invariant
                k <= 26,
                backward@.len() == 26,
                forall|j: int| 0 <= j < 26 ==> (#[trigger] backward@[j]) < 26,
                b@.len() == k,
                forall|j: int| 0 <= j < k ==> (#[trigger] b@[j]) == backward@[j] as usize,
            decreases 26 - k,
        {
            b.push(backward[k] as usize);
            k += 1;
        }
        proof {
            assert(f@ =~= widened(forward@));
            assert(b@ =~= widened(backward@));
        }
        if !Self::is_vec_wiring_vaild(&f, &b) {
            return Err(EnigmaRotorWireError::InvaildWiring);
        }
        self.forward_mapping_array = f;
        self.backward_mapping_array = b;
        Ok(())
    }

    /// Encodes one signal index on the forward pass through this rotor.
    pub fn encode_forward_index(&self, idx: usize) -> (r: usize)
        requires
            self.wf(),
            idx < 26,
        ensures
            r < 26,
            r as int == self.fwd(idx as int),
    {
        let shifted = if idx >= self.offset {
            idx - self.offset
        } else {
            idx + 26 - self.offset
        };
        assert(self.forward_mapping_array@[shifted as int] < 26);
        let mapped = self.forward_mapping_array[shifted];
        if mapped + self.offset >= 26 {
            mapped + self.offset - 26
        } else {
            mapped + self.offset
        }
    }

    /// Encodes one signal index on the backward pass through this rotor.
    pub fn encode_backward_index(&self, idx: usize) -> (r: usize)
        requires
            self.wf(),
            idx < 26,
        ensures
            r < 26,
            r as int == self.bwd(idx as int),
    {
        let shifted = if idx >= self.offset {
            idx - self.offset
        } else {
            idx + 26 - self.offset
        };
        assert(self.backward_mapping_array@[shifted as int] < 26);
        let mapped = self.backward_mapping_array[shifted];
        if mapped + self.offset >= 26 {
            mapped + self.offset - 26
        } else {
            mapped + self.offset
        }
    }

    /// Checks that one table holds no value twice.
    fn table_distinct(w: &Vec<usize>) -> (r: bool)
        requires
            w@.len() == 26,
            entries_in_range(w@),
        ensures
            r == entries_distinct(w@),
    {
        let mut seen: Vec<bool> = Vec::new();
        let mut k: usize = 0;
        while k < 26
            invariant
                k <= 26,
                seen@.len() == k,
                forall|v: int| 0 <= v < k ==> !seen@[v],
            decreases 26 - k,
        {
            seen.push(false);
            k += 1;
        }
        let mut i: usize = 0;
        while i < 26
            invariant
                i <= 26,
                w@.len() == 26,
                entries_in_range(w@),
                seen@.len() == 26,
                forall|v: int|
                    0 <= v < 26 ==> (seen@[v] <==> exists|j: int|
                        0 <= j < i && (#[trigger] w@[j]) as int == v),
                forall|j: int, l: int| 0 <= j < i && 0 <= l < i && j != l ==> w@[j] != w@[l],
            decreases 26 - i,
        {
            let v = w[i];
            assert(v < 26);
            if seen[v] {
                proof {
                    let j = choose|j: int| 0 <= j < i && (#[trigger] w@[j]) as int == v as int;
                    assert(w@[j] == w@[i as int]);
                }
                return false;
            }
            seen.set(v, true);
            i += 1;
        }
        true
    }

    /// The permutation validator: both tables must be 26-entry bijections and
    /// mutual inverses of each other.
    fn is_vec_wiring_vaild(f_wiring: &Vec<usize>, b_wiring: &Vec<usize>) -> (r: bool)
        requires
            f_wiring@.len() == 26,
            b_wiring@.len() == 26,
            entries_in_range(f_wiring@),
            entries_in_range(b_wiring@),
        ensures
            r == wiring_valid(f_wiring@, b_wiring@),
    {
        if !Self::table_distinct(f_wiring) {
            return false;
        }
        if !Self::table_distinct(b_wiring) {
            return false;
        }
        let mut i: usize = 0;
        while i < 26
            invariant
                i <= 26,
                f_wiring@.len() == 26,
                b_wiring@.len() == 26,
                entries_in_range(f_wiring@),
                entries_in_range(b_wiring@),
                forall|j: int| 0 <= j < i ==> b_wiring@[#[trigger] f_wiring@[j] as int] as int == j,
            decreases 26 - i,
        {
            assert(f_wiring@[i as int] < 26);
            if b_wiring[f_wiring[i]] != i {
                return false;
            }
            i += 1;
        }
        true
    }
}

/// The plug board: an incrementally built involutive substitution applied
/// once before and once after the rotor chain.
pub struct EnigmaPlugBoard {
    pub mapping_array: Vec<usize>,
}

impl EnigmaPlugBoard {
    /// Well-formedness: a 26-entry table over the signal indices that is its
    /// own inverse; symbols not yet wired stay fixed points.
    pub open spec fn wf(self) -> bool {
        &&& self.mapping_array@.len() == 26
        &&& entries_in_range(self.mapping_array@)
        &&& forall|i: int|
            0 <= i < 26 ==> self.mapping_array@[#[trigger] self.mapping_array@[i] as int] as int == i
    }

    /// The substitution the plug board applies.
    pub open spec fn map_idx(self, i: int) -> int {
        self.mapping_array@[i] as int
    }

    /// A fresh plug board with no wires: the identity substitution.
    pub fn new() -> (r: Self)
        ensures
            r.wf(),
            r.mapping_array@ == identity_table(),
    {
        Self { mapping_array: identity_vec() }
    }

    /// Wires two symbols together so that each substitutes for the other.
    /// Fails, leaving the board unchanged, if either symbol is already wired.
    pub fn add_wire(&mut self, wire: EnigmaPlugBoardWire) -> (r: Result<
        EnigmaPlugBoardWire,
        EnigmaPlugBoardError,
    >)
        requires
            old(self).wf(),
            wire_wf(wire),
        ensures
            final(self).wf(),
            ({
                let a = idx_of(wire.0);
                let b = idx_of(wire.1);
                if old(self).map_idx(a) == a && old(self).map_idx(b) == b {
                    &&& r == Ok::<EnigmaPlugBoardWire, EnigmaPlugBoardError>(wire)
                    &&& final(self).mapping_array@ == old(self).mapping_array@.update(
                        a,
                        b as usize,
                    ).update(b, a as usize)
                } else {
                    &&& r == Err::<EnigmaPlugBoardWire, EnigmaPlugBoardError>(
                        EnigmaPlugBoardError::AlreadyHaveWire(wire),
                    )
                    &&& *final(self) == *old(self)
                }
            }),
    {
        let link_0 = char_to_index(wire.0);
        let link_1 = char_to_index(wire.1);
        let mapping_0 = self.mapping_array[link_0];
        let mapping_1 = self.mapping_array[link_1];
        if mapping_0 == link_0 && mapping_1 == link_1 {
            self.mapping_array.set(link_0, link_1);
            self.mapping_array.set(link_1, link_0);
            proof {
                let m0 = old(self).mapping_array@;
                let m = self.mapping_array@;
                assert forall|i: int| 0 <= i < 26 implies m[#[trigger] m[i] as int] as int == i by {
                    let a = link_0 as int;
                    let b = link_1 as int;
                    if i != a && i != b {
                        assert(m[i] == m0[i]);
                        if m0[i] as int == a {
                            assert(m0[m0[i] as int] as int == i);
                        }
                        if m0[i] as int == b {
                            assert(m0[m0[i] as int] as int == i);
                        }
                        assert(m[m[i] as int] == m0[m0[i] as int]);
                    }
                }
            }
            Ok(wire)
        } else {
            Err(EnigmaPlugBoardError::AlreadyHaveWire(wire))
        }
    }

    /// Applies the plug board's substitution to one signal index.
    pub fn encode_index(&self, idx: usize) -> (r: usize)
        requires
            self.wf(),
            idx < 26,
        ensures
            r < 26,
            r as int == self.map_idx(idx as int),
    {
        assert(self.mapping_array@[idx as int] < 26);
        self.mapping_array[idx]
    }
}

/// The reflector: a fixed substitution applied exactly once per keypress,
/// between the forward and the backward pass. The table is stored verbatim;
/// that it is an involution is the caller's responsibility.
pub struct EnigmaReflector {
    pub mapping_array: Vec<usize>,
}

impl EnigmaReflector {
    /// Well-formedness: a 26-entry table over the signal indices. Nothing
    /// more is checked; supplying a self-inverse table is up to the caller.
    pub open spec fn wf(self) -> bool {
        self.mapping_array@.len() == 26 && entries_in_range(self.mapping_array@)
    }

    /// The substitution the reflector applies.
    pub open spec fn map_idx(self, i: int) -> int {
        self.mapping_array@[i] as int
    }

    /// Holds when the stored table is its own inverse. Not enforced by the
    /// system; the round-trip law asks for it.
    pub open spec fn is_involution(self) -> bool {
        forall|i: int|
            0 <= i < 26 ==> self.mapping_array@[#[trigger] self.mapping_array@[i] as int] as int == i
    }

    /// Builds a reflector from a 26-symbol string: position `i` maps to the
    /// index of the symbol given there.
    pub fn new_with_str(s: &str) -> (r: Self)
        requires
            s@.len() == 26,
            upper_seq(s@),
        ensures
            r.wf(),
            r.mapping_array@ == indices_of(s@),
    {
        let mut ret = Self { mapping_array: Vec::new() };
        ret.set_reflect_with_str(s);
        ret
    }

    /// Builds a reflector from 26 symbols given as bytes.
    pub fn new_with_vec(mapping: Vec<u8>) -> (r: Self)
        requires
            mapping@.len() == 26,
            forall|i: int| 0 <= i < 26 ==> 65 <= (#[trigger] mapping@[i]) <= 90,
        ensures
            r.wf(),
            r.mapping_array@ == Seq::new(26, |i: int| (mapping@[i] - 65) as usize),
    {
        let mut ret = Self { mapping_array: Vec::new() };
        ret.set_reflect_with_vec(mapping);
        ret
    }

    /// Replaces the stored table from a 26-symbol string.
    pub fn set_reflect_with_str(&mut self, s: &str)
        requires
            s@.len() == 26,
            upper_seq(s@),
        ensures
            final(self).wf(),
            final(self).mapping_array@ == indices_of(s@),
    {
        let mut v: Vec<u8> = Vec::new();
        let mut i: usize = 0;
        while i < 26
            invariant
                i <= 26,
                s@.len() == 26,
                upper_seq(s@),
                v@.len() == i,
                forall|j: int| 0 <= j < i ==> 65 <= (#[trigger] v@[j]) <= 90,
                forall|j: int| 0 <= j < i ==> (#[trigger] v@[j]) as int == s@[j] as int,
            decreases 26 - i,
        {
            let c = s.get_char(i);
            assert(is_upper(c));
            v.push((c as u32) as u8);
            i += 1;
        }
        self.set_reflect_with_vec(v);
        proof {
            assert(final(self).mapping_array@ =~= indices_of(s@));
        }
    }

    /// Replaces the stored table from 26 symbols given as bytes.
    pub fn set_reflect_with_vec(&mut self, r: Vec<u8>)
        requires
            r@.len() == 26,
            forall|i: int| 0 <= i < 26 ==> 65 <= (#[trigger] r@[i]) <= 90,
        ensures
            final(self).wf(),
            final(self).mapping_array@ == Seq::new(26, |i: int| (r@[i] - 65) as usize),
    {
        let mut table: Vec<usize> = Vec::new();
        let mut i: usize = 0;
        while i < 26
            invariant
                i <= 26,
                r@.len() == 26,
                forall|j: int| 0 <= j < 26 ==> 65 <= (#[trigger] r@[j]) <= 90,
                table@.len() == i,
                forall|j: int| 0 <= j < i ==> (#[trigger] table@[j]) as int == r@[j] - 65,
            decreases 26 - i,
        {
            let u = r[i];
            table.push((u - 65) as usize);
            i += 1;
        }
        self.mapping_array = table;
        proof {
            assert(self.mapping_array@ =~= Seq::new(26, |i: int| (r@[i] - 65) as usize));
        }
    }

    /// Applies the reflector's substitution to one signal index.
    pub fn encode_index(&self, idx: usize) -> (r: usize)
        requires
            self.wf(),
            idx < 26,
        ensures
            r < 26,
            r as int == self.map_idx(idx as int),
    {
        assert(self.mapping_array@[idx as int] < 26);
        self.mapping_array[idx]
    }
}

} // verus!
