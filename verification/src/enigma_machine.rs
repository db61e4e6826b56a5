//! The machine: an ordered rotor chain, a plug board and a reflector,
//! orchestrating one full encode cycle per input symbol.
//!
//! Adjacency in the chain is expressed by position in one owned sequence;
//! stepping and signal threading are loops over that sequence, left to right
//! on the forward pass and right to left on the backward pass.

use vstd::prelude::*;

use crate::alphabet::char_of;
use crate::alphabet::char_to_index;
use crate::alphabet::idx_of;
use crate::alphabet::index_to_char;
use crate::alphabet::indices_of;
use crate::alphabet::is_upper;
use crate::alphabet::lemma_char_of_idx_of;
use crate::alphabet::lemma_idx_of_char_of;
use crate::alphabet::upper_seq;
use crate::enigma_component::EnigmaPlugBoard;
use crate::enigma_component::EnigmaReflector;
use crate::enigma_component::EnigmaRotor;
use crate::enigma_component::identity_table;
use crate::enigma_component::rotor_matches_setting;
use crate::enigma_component::setting_error;
use crate::enigma_component::setting_valid;
use crate::enigma_component::setting_wf;
use crate::enigma_types::EnigmaPlugBoardError;
use crate::enigma_types::EnigmaPlugBoardWire;
use crate::enigma_types::EnigmaRotorSetting;
use crate::enigma_types::EnigmaRotorWireError;
use crate::enigma_types::wire_wf;

verus! {

/// Every rotor of the chain is well-formed.
pub open spec fn rotors_wf(rotors: Seq<EnigmaRotor>) -> bool {
    forall|k: int| 0 <= k < rotors.len() ==> (#[trigger] rotors[k]).wf()
}

/// Whether rotor `k` rotates during one keypress: the rotor nearest the plug
/// board always does, and each further rotor does exactly when every rotor
/// before it stands at its notch (checked before any of them moves).
pub open spec fn steps_through(rotors: Seq<EnigmaRotor>, k: int) -> bool
    decreases k,
{
    if k <= 0 {
        true
    } else {
        steps_through(rotors, k - 1) && rotors[k - 1].at_notch()
    }
}

/// The rotor chain after the stepping cascade of one keypress.
pub open spec fn step_rotors(rotors: Seq<EnigmaRotor>) -> Seq<EnigmaRotor> {
    Seq::new(
        rotors.len(),
        |k: int|
            if steps_through(rotors, k) {
                rotors[k].stepped()
            } else {
                rotors[k]
            },
    )
}

/// A rotor that the cascade never reaches does not move.
pub proof fn lemma_steps_through_monotone(rotors: Seq<EnigmaRotor>, k: int, j: int)
    requires
        0 <= k <= j,
        !steps_through(rotors, k),
    ensures
        !steps_through(rotors, j),
    decreases j - k,
{
    if j > k {
        lemma_steps_through_monotone(rotors, k, j - 1);
    }
}

/// Stepping keeps every rotor well-formed and the chain's length unchanged.
pub proof fn lemma_step_rotors_wf(rotors: Seq<EnigmaRotor>)
    requires
        rotors_wf(rotors),
    ensures
        rotors_wf(step_rotors(rotors)),
        step_rotors(rotors).len() == rotors.len(),
{
    assert forall|k: int| 0 <= k < step_rotors(rotors).len() implies (#[trigger] step_rotors(
        rotors,
    )[k]).wf() by {
        assert(rotors[k].wf());
    }
}

/// The signal threaded forward through the first `n` rotors of the chain,
/// entering at the rotor nearest the plug board.
pub open spec fn chain_fwd(rotors: Seq<EnigmaRotor>, n: int, i: int) -> int
    decreases n,
{
    if n <= 0 {
        i
    } else {
        rotors[n - 1].fwd(chain_fwd(rotors, n - 1, i))
    }
}

/// The signal threaded backward through the first `n` rotors of the chain,
/// entering at the rotor nearest the reflector.
pub open spec fn chain_bwd(rotors: Seq<EnigmaRotor>, n: int, i: int) -> int
    decreases n,
{
    if n <= 0 {
        i
    } else {
        chain_bwd(rotors, n - 1, rotors[n - 1].bwd(i))
    }
}

/// The backward pass through the chain undoes the forward pass, and the
/// other way round; both keep the signal inside the alphabet.
pub proof fn lemma_chain_inverse(rotors: Seq<EnigmaRotor>, n: int, i: int)
    requires
        rotors_wf(rotors),
        0 <= n <= rotors.len(),
        0 <= i < 26,
    ensures
        0 <= chain_fwd(rotors, n, i) < 26,
        0 <= chain_bwd(rotors, n, i) < 26,
        chain_bwd(rotors, n, chain_fwd(rotors, n, i)) == i,
        chain_fwd(rotors, n, chain_bwd(rotors, n, i)) == i,
    decreases n,
{
    if n > 0 {
        assert(rotors[n - 1].wf());
        lemma_chain_inverse(rotors, n - 1, i);
        let x = chain_fwd(rotors, n - 1, i);
        rotors[n - 1].lemma_fwd_bwd_inverse(x);
        rotors[n - 1].lemma_fwd_bwd_inverse(i);
        let y = rotors[n - 1].bwd(i);
        lemma_chain_inverse(rotors, n - 1, y);
    }
}

/// The full substitution one keypress applies once the rotors have stepped:
/// plug board, forward pass, reflector, backward pass, plug board again.
pub open spec fn signal_subst(
    pb: EnigmaPlugBoard,
    rotors: Seq<EnigmaRotor>,
    refl: EnigmaReflector,
    i: int,
) -> int {
    let n = rotors.len() as int;
    pb.map_idx(chain_bwd(rotors, n, refl.map_idx(chain_fwd(rotors, n, pb.map_idx(i)))))
}

/// The substitution keeps the signal inside the alphabet.
pub proof fn lemma_signal_subst_range(
    pb: EnigmaPlugBoard,
    rotors: Seq<EnigmaRotor>,
    refl: EnigmaReflector,
    i: int,
)
    requires
        pb.wf(),
        rotors_wf(rotors),
        refl.wf(),
        0 <= i < 26,
    ensures
        0 <= signal_subst(pb, rotors, refl, i) < 26,
{
    let n = rotors.len() as int;
    assert(pb.mapping_array@[i] < 26);
    lemma_chain_inverse(rotors, n, pb.map_idx(i));
    let f = chain_fwd(rotors, n, pb.map_idx(i));
    assert(refl.mapping_array@[f] < 26);
    lemma_chain_inverse(rotors, n, refl.map_idx(f));
    let b = chain_bwd(rotors, n, refl.map_idx(f));
    assert(pb.mapping_array@[b] < 26);
}

/// With a self-inverse reflector, the substitution of one keypress is an
/// involution: every stage of the path is undone by its second traversal.
pub proof fn lemma_signal_subst_involution(
    pb: EnigmaPlugBoard,
    rotors: Seq<EnigmaRotor>,
    refl: EnigmaReflector,
    i: int,
)
    requires
        pb.wf(),
        rotors_wf(rotors),
        refl.wf(),
        refl.is_involution(),
        0 <= i < 26,
    ensures
        0 <= signal_subst(pb, rotors, refl, i) < 26,
        signal_subst(pb, rotors, refl, signal_subst(pb, rotors, refl, i)) == i,
{
    let n = rotors.len() as int;
    lemma_signal_subst_range(pb, rotors, refl, i);
    let p1 = pb.map_idx(i);
    assert(pb.mapping_array@[i] < 26);
    lemma_chain_inverse(rotors, n, p1);
    let f1 = chain_fwd(rotors, n, p1);
    let r1 = refl.map_idx(f1);
    assert(refl.mapping_array@[f1] < 26);
    lemma_chain_inverse(rotors, n, r1);
    let b1 = chain_bwd(rotors, n, r1);
    let out = pb.map_idx(b1);
    assert(pb.mapping_array@[b1] < 26);
    // The second keypress walks the same stages from `out`.
    assert(pb.map_idx(out) == b1);
    assert(chain_fwd(rotors, n, b1) == r1);
    assert(refl.map_idx(r1) == f1);
    assert(chain_bwd(rotors, n, f1) == p1);
    assert(pb.map_idx(p1) == i);
}

/// The rotor chain after `n` keypresses' stepping cascades.
pub open spec fn rotors_after(rotors: Seq<EnigmaRotor>, n: nat) -> Seq<EnigmaRotor>
    decreases n,
{
    if n == 0 {
        rotors
    } else {
        rotors_after(step_rotors(rotors), (n - 1) as nat)
    }
}

pub proof fn lemma_rotors_after_step(rotors: Seq<EnigmaRotor>, n: nat)
    ensures
        rotors_after(step_rotors(rotors), n) == step_rotors(rotors_after(rotors, n)),
    decreases n,
{
    if n > 0 {
        lemma_rotors_after_step(step_rotors(rotors), (n - 1) as nat);
    }
}

pub proof fn lemma_rotors_after_wf(rotors: Seq<EnigmaRotor>, n: nat)
    requires
        rotors_wf(rotors),
    ensures
        rotors_wf(rotors_after(rotors, n)),
        rotors_after(rotors, n).len() == rotors.len(),
    decreases n,
{
    if n > 0 {
        lemma_step_rotors_wf(rotors);
        lemma_rotors_after_wf(step_rotors(rotors), (n - 1) as nat);
    }
}

/// The sequence of symbols produced by encoding `s` symbol by symbol: each
/// keypress first steps the rotors, then applies the resulting substitution.
pub open spec fn encode_seq(
    pb: EnigmaPlugBoard,
    rotors: Seq<EnigmaRotor>,
    refl: EnigmaReflector,
    s: Seq<char>,
) -> Seq<char>
    decreases s.len(),
{
    if s.len() == 0 {
        Seq::empty()
    } else {
        let r1 = step_rotors(rotors);
        seq![char_of(signal_subst(pb, r1, refl, idx_of(s[0])))] + encode_seq(
            pb,
            r1,
            refl,
            s.drop_first(),
        )
    }
}

pub proof fn lemma_encode_seq_len(
    pb: EnigmaPlugBoard,
    rotors: Seq<EnigmaRotor>,
    refl: EnigmaReflector,
    s: Seq<char>,
)
    ensures
        encode_seq(pb, rotors, refl, s).len() == s.len(),
    decreases s.len(),
{
    if s.len() > 0 {
        lemma_encode_seq_len(pb, step_rotors(rotors), refl, s.drop_first());
    }
}

/// Every symbol an encoding produces belongs to the alphabet.
pub proof fn lemma_encode_seq_upper(
    pb: EnigmaPlugBoard,
    rotors: Seq<EnigmaRotor>,
    refl: EnigmaReflector,
    s: Seq<char>,
)
    requires
        pb.wf(),
        rotors_wf(rotors),
        refl.wf(),
        upper_seq(s),
    ensures
        upper_seq(encode_seq(pb, rotors, refl, s)),
    decreases s.len(),
{
    if s.len() > 0 {
        let r1 = step_rotors(rotors);
        lemma_step_rotors_wf(rotors);
        assert(is_upper(s[0]));
        lemma_char_of_idx_of(s[0]);
        lemma_signal_subst_range(pb, r1, refl, idx_of(s[0]));
        lemma_idx_of_char_of(signal_subst(pb, r1, refl, idx_of(s[0])));
        assert(upper_seq(s.drop_first()));
        lemma_encode_seq_upper(pb, r1, refl, s.drop_first());
        let e = encode_seq(pb, rotors, refl, s);
        let tail = encode_seq(pb, r1, refl, s.drop_first());
        assert forall|i: int| 0 <= i < e.len() implies is_upper(#[trigger] e[i]) by {
            if i > 0 {
                assert(e[i] == tail[i - 1]);
            }
        }
    }
}

/// Appending one symbol to the plaintext appends one symbol to the
/// ciphertext, encoded with the chain as it stands after the earlier
/// keypresses and one further step.
pub proof fn lemma_encode_seq_snoc(
    pb: EnigmaPlugBoard,
    rotors: Seq<EnigmaRotor>,
    refl: EnigmaReflector,
    t: Seq<char>,
    c: char,
)
    ensures
        encode_seq(pb, rotors, refl, t.push(c)) == encode_seq(pb, rotors, refl, t).push(
            char_of(signal_subst(pb, rotors_after(rotors, (t.len() + 1) as nat), refl, idx_of(c))),
        ),
    decreases t.len(),
{
    let r1 = step_rotors(rotors);
    if t.len() == 0 {
        assert(t.push(c)[0] == c);
        assert(t.push(c).drop_first() =~= Seq::<char>::empty());
        assert(encode_seq(pb, r1, refl, Seq::<char>::empty()) == Seq::<char>::empty());
        assert(encode_seq(pb, rotors, refl, t) == Seq::<char>::empty());
        assert(rotors_after(r1, 0) == r1);
        assert(rotors_after(rotors, 1) == rotors_after(r1, 0));
        assert(encode_seq(pb, rotors, refl, t.push(c)) =~= encode_seq(pb, rotors, refl, t).push(
            char_of(signal_subst(pb, rotors_after(rotors, 1), refl, idx_of(c))),
        ));
    } else {
        lemma_encode_seq_snoc(pb, r1, refl, t.drop_first(), c);
        assert(t.push(c).drop_first() =~= t.drop_first().push(c));
        assert(t.push(c)[0] == t[0]);
        assert(rotors_after(r1, t.len() as nat) == rotors_after(rotors, (t.len() + 1) as nat));
        let head = char_of(signal_subst(pb, r1, refl, idx_of(t[0])));
        let x = char_of(
            signal_subst(pb, rotors_after(rotors, (t.len() + 1) as nat), refl, idx_of(c)),
        );
        assert(encode_seq(pb, rotors, refl, t.push(c)) == seq![head] + encode_seq(
            pb,
            r1,
            refl,
            t.drop_first().push(c),
        ));
        assert(seq![head] + encode_seq(pb, r1, refl, t.drop_first()).push(x) =~= (seq![head]
            + encode_seq(pb, r1, refl, t.drop_first())).push(x));
    }
}

/// The round-trip law: encoding a plaintext from some rotor state and then
/// encoding the resulting ciphertext from that same state reproduces the
/// plaintext, provided the reflector's table is an involution. Both passes
/// step the rotors identically, so every position's substitution — itself an
/// involution — is applied twice.
pub proof fn lemma_round_trip(
    pb: EnigmaPlugBoard,
    rotors: Seq<EnigmaRotor>,
    refl: EnigmaReflector,
    s: Seq<char>,
)
    requires
        pb.wf(),
        rotors_wf(rotors),
        refl.wf(),
        refl.is_involution(),
        upper_seq(s),
    ensures
        encode_seq(pb, rotors, refl, encode_seq(pb, rotors, refl, s)) == s,
    decreases s.len(),
{
    let c = encode_seq(pb, rotors, refl, s);
    lemma_encode_seq_len(pb, rotors, refl, s);
    if s.len() == 0 {
        assert(encode_seq(pb, rotors, refl, c) =~= s);
    } else {
        let r1 = step_rotors(rotors);
        lemma_step_rotors_wf(rotors);
        let x = signal_subst(pb, r1, refl, idx_of(s[0]));
        assert(is_upper(s[0]));
        lemma_char_of_idx_of(s[0]);
        lemma_signal_subst_involution(pb, r1, refl, idx_of(s[0]));
        lemma_idx_of_char_of(x);
        assert(c[0] == char_of(x));
        assert(c.drop_first() =~= encode_seq(pb, r1, refl, s.drop_first()));
        assert(upper_seq(s.drop_first()));
        lemma_round_trip(pb, r1, refl, s.drop_first());
        assert(idx_of(c[0]) == x);
        assert(signal_subst(pb, r1, refl, x) == idx_of(s[0]));
        assert(char_of(idx_of(s[0])) == s[0]);
        assert(encode_seq(pb, rotors, refl, c) =~= s);
    }
}

/// Hands out a mutable borrow of one rotor of the chain.
fn rotor_at_mut(rotors: &mut Vec<EnigmaRotor>, i: usize) -> (r: &mut EnigmaRotor)
    requires
        i < old(rotors).len(),
    ensures
        *r == old(rotors)@[i as int],
        final(rotors)@ == old(rotors)@.update(i as int, *final(r)),
{
    &mut rotors[i]
}

/// Runs the stepping cascade of one keypress: the rotor nearest the plug
/// board always steps; each further rotor steps exactly when the rotor
/// before it stood at its notch when checked, before any state changed.
fn rotate_rotors(rotors: &mut Vec<EnigmaRotor>)
    requires
        rotors_wf(old(rotors)@),
    ensures
        final(rotors)@ == step_rotors(old(rotors)@),
{
    let ghost orig = rotors@;
    let n = rotors.len();
    let mut k: usize = 0;
    let mut carry = true;
    while carry && k < n
        invariant
            k <= n,
            n == rotors@.len(),
            n == orig.len(),
            rotors_wf(orig),
            carry == steps_through(orig, k as int),
            forall|j: int| k <= j < n ==> rotors@[j] == orig[j],
            forall|j: int|
                0 <= j < k ==> rotors@[j] == (if steps_through(orig, j) {
                    (#[trigger] orig[j]).stepped()
                } else {
                    orig[j]
                }),
        decreases n - k,
    {
        assert(orig[k as int].wf());
        let r = rotor_at_mut(rotors, k);
        let at = r.window == r.notch;
        r.rotate();
        carry = at;
        k += 1;
    }
    proof {
        if k < n {
            assert forall|j: int| k <= j < n implies !steps_through(orig, j) by {
                lemma_steps_through_monotone(orig, k as int, j);
            }
        }
        assert(rotors@ =~= step_rotors(orig));
    }
}

/// Threads a signal forward through the whole chain, first rotor to last.
fn encode_rotors_forward(rotors: &Vec<EnigmaRotor>, idx: usize) -> (r: usize)
    requires
        rotors_wf(rotors@),
        idx < 26,
    ensures
        r < 26,
        r as int == chain_fwd(rotors@, rotors@.len() as int, idx as int),
{
    let mut cur = idx;
    let mut k: usize = 0;
    let n = rotors.len();
    while k < n
        invariant
            k <= n,
            n == rotors@.len(),
            rotors_wf(rotors@),
            cur < 26,
            cur as int == chain_fwd(rotors@, k as int, idx as int),
        decreases n - k,
    {
        assert(rotors@[k as int].wf());
        cur = rotors[k].encode_forward_index(cur);
        k += 1;
    }
    cur
}

/// Threads a signal backward through the whole chain, last rotor to first.
fn encode_rotors_backward(rotors: &Vec<EnigmaRotor>, idx: usize) -> (r: usize)
    requires
        rotors_wf(rotors@),
        idx < 26,
    ensures
        r < 26,
        r as int == chain_bwd(rotors@, rotors@.len() as int, idx as int),
{
    let mut cur = idx;
    let mut k: usize = rotors.len();
    while k > 0
        invariant
            k <= rotors@.len(),
            rotors_wf(rotors@),
            cur < 26,
            chain_bwd(rotors@, k as int, cur as int) == chain_bwd(
                rotors@,
                rotors@.len() as int,
                idx as int,
            ),
        decreases k,
    {
        assert(rotors@[k - 1].wf());
        cur = rotors[k - 1].encode_backward_index(cur);
        k -= 1;
    }
    cur
}

/// Relies on String::push: appends exactly the one character to the end.
#[verifier::external_body]
fn push_char(s: &mut String, c: char)
    ensures
        final(s)@ == old(s)@.push(c),
{
    s.push(c);
}

/// The machine: one rotor chain, one plug board, one reflector.
pub struct EnigmaMachine {
    pub rotors: Vec<EnigmaRotor>,
    pub reflector: EnigmaReflector,
    pub plug_board: EnigmaPlugBoard,
}

impl EnigmaMachine {
    /// Well-formedness of the whole machine.
    pub open spec fn wf(self) -> bool {
        rotors_wf(self.rotors@) && self.reflector.wf() && self.plug_board.wf()
    }

    /// A machine with the given reflector, no rotors yet, and an unwired
    /// plug board.
    fn new_with_reflector_and_empty_rotors(reflector_setting: &str) -> (r: Self)
        requires
            reflector_setting@.len() == 26,
            upper_seq(reflector_setting@),
        ensures
            r.wf(),
            r.rotors@.len() == 0,
            r.reflector.mapping_array@ == indices_of(reflector_setting@),
            r.plug_board.mapping_array@ == identity_table(),
    {
        Self {
            rotors: Vec::new(),
            reflector: EnigmaReflector::new_with_str(reflector_setting),
            plug_board: EnigmaPlugBoard::new(),
        }
    }

    /// Builds the whole machine: each rotor from its setting, in order, the
    /// rotor nearest the plug board first; then the reflector and an unwired
    /// plug board. An invalid rotor wiring is an explicit error: the first
    /// failing setting's error is returned and no machine is built.
    pub fn new_with_all_setting<'a>(
        rotor_settings: Vec<EnigmaRotorSetting<'a>>,
        reflector_setting_str: &str,
    ) -> (r: Result<Self, EnigmaRotorWireError>)
        requires
            reflector_setting_str@.len() == 26,
            upper_seq(reflector_setting_str@),
            forall|k: int|
                0 <= k < rotor_settings@.len() ==> setting_wf(#[trigger] rotor_settings@[k]),
        ensures
            r is Ok <==> (forall|k: int|
                0 <= k < rotor_settings@.len() ==> setting_valid(#[trigger] rotor_settings@[k])),
            r matches Ok(m) ==> {
                &&& m.wf()
                &&& m.rotors@.len() == rotor_settings@.len()
                &&& forall|k: int|
                    0 <= k < rotor_settings@.len() ==> rotor_matches_setting(
                        #[trigger] m.rotors@[k],
                        rotor_settings@[k],
                    )
                &&& m.reflector.mapping_array@ == indices_of(reflector_setting_str@)
                &&& m.plug_board.mapping_array@ == identity_table()
            },
            r matches Err(e) ==> exists|k: int|
                {
                    &&& 0 <= k < rotor_settings@.len()
                    &&& !setting_valid(#[trigger] rotor_settings@[k])
                    &&& forall|j: int| 0 <= j < k ==> setting_valid(#[trigger] rotor_settings@[j])
                    &&& e == setting_error(rotor_settings@[k])
                },
    {
        let mut ret = Self::new_with_reflector_and_empty_rotors(reflector_setting_str);
        let n = rotor_settings.len();
        let mut i: usize = 0;
        while i < n
            invariant
                i <= n,
                n == rotor_settings@.len(),
                forall|k: int|
                    0 <= k < rotor_settings@.len() ==> setting_wf(#[trigger] rotor_settings@[k]),
                ret.rotors@.len() == i,
                forall|k: int| 0 <= k < i ==> setting_valid(#[trigger] rotor_settings@[k]),
                forall|k: int|
                    0 <= k < i ==> rotor_matches_setting(
                        #[trigger] ret.rotors@[k],
                        rotor_settings@[k],
                    ),
                rotors_wf(ret.rotors@),
                ret.reflector.mapping_array@ == indices_of(reflector_setting_str@),
                ret.reflector.wf(),
                ret.plug_board.mapping_array@ == identity_table(),
                ret.plug_board.wf(),
            decreases n - i,
        {
            let setting = rotor_settings[i];
            match EnigmaRotor::new_with_setting(setting) {
                Ok(rotor) => {
                    ret.rotors.push(rotor);
                    i += 1;
                },
                Err(e) => {
                    return Err(e);
                },
            }
        }
        Ok(ret)
    }

    /// Replaces the reflector's table from a 26-symbol string.
    pub fn set_reflector(&mut self, s: &str)
        requires
            s@.len() == 26,
            upper_seq(s@),
        ensures
            final(self).reflector.mapping_array@ == indices_of(s@),
            final(self).reflector.wf(),
            final(self).rotors == old(self).rotors,
            final(self).plug_board == old(self).plug_board,
    {
        self.reflector.set_reflect_with_str(s);
    }

    /// Re-keys the machine: assigns one window symbol per rotor, left to
    /// right. Extra symbols beyond the rotor count are ignored; a shorter
    /// string leaves the remaining rotors' windows untouched.
    pub fn set_window(&mut self, s: &str)
        requires
            old(self).wf(),
            forall|i: int|
                0 <= i < s@.len() && i < old(self).rotors@.len() ==> is_upper(#[trigger] s@[i]),
        ensures
            final(self).wf(),
            final(self).rotors@.len() == old(self).rotors@.len(),
            forall|k: int|
                0 <= k < old(self).rotors@.len() && k < s@.len() ==> final(self).rotors@[k]
                    == (EnigmaRotor {
                    window: s@[k],
                    offset: idx_of(s@[k]) as usize,
                    ..old(self).rotors@[k]
                }),
            forall|k: int|
                s@.len() <= k < old(self).rotors@.len() ==> final(self).rotors@[k] == old(
                    self,
                ).rotors@[k],
            final(self).reflector == old(self).reflector,
            final(self).plug_board == old(self).plug_board,
    {
        let chars = s.unicode_len();
        let count = self.rotors.len();
        let bound = if chars < count {
            chars
        } else {
            count
        };
        let ghost orig = self.rotors@;
        let mut k: usize = 0;
        while k < bound
            invariant
                k <= bound,
                bound <= orig.len(),
                bound <= s@.len(),
                chars == s@.len(),
                (bound == s@.len() || bound == orig.len()),
                forall|j: int|
                    0 <= j < s@.len() && j < orig.len() ==> is_upper(#[trigger] s@[j]),
                rotors_wf(orig),
                self.reflector == old(self).reflector,
                self.plug_board == old(self).plug_board,
                self.rotors@.len() == orig.len(),
                forall|j: int|
                    0 <= j < k ==> self.rotors@[j] == (EnigmaRotor {
                        window: s@[j],
                        offset: idx_of(s@[j]) as usize,
                        ..orig[j]
                    }),
                forall|j: int| k <= j < orig.len() ==> self.rotors@[j] == orig[j],
            decreases bound - k,
        {
            let c = s.get_char(k);
            assert(is_upper(c));
            let r = rotor_at_mut(&mut self.rotors, k);
            r.set_window(c);
            k += 1;
        }
        proof {
            assert forall|k: int| 0 <= k < self.rotors@.len() implies (
            #[trigger] self.rotors@[k]).wf() by {
                assert(orig[k].wf());
                if k < bound {
                    lemma_char_of_idx_of(s@[k]);
                }
            }
        }
    }

    /// Adds one swap to the plug board; fails, changing nothing, if either
    /// symbol is already wired.
    pub fn add_plug_wire(&mut self, wire: EnigmaPlugBoardWire) -> (r: Result<
        EnigmaPlugBoardWire,
        EnigmaPlugBoardError,
    >)
        requires
            old(self).plug_board.wf(),
            wire_wf(wire),
        ensures
            final(self).plug_board.wf(),
            final(self).rotors == old(self).rotors,
            final(self).reflector == old(self).reflector,
            ({
                let a = idx_of(wire.0);
                let b = idx_of(wire.1);
                if old(self).plug_board.map_idx(a) == a && old(self).plug_board.map_idx(b) == b {
                    &&& r == Ok::<EnigmaPlugBoardWire, EnigmaPlugBoardError>(wire)
                    &&& final(self).plug_board.mapping_array@ == old(
                        self,
                    ).plug_board.mapping_array@.update(a, b as usize).update(b, a as usize)
                } else {
                    &&& r == Err::<EnigmaPlugBoardWire, EnigmaPlugBoardError>(
                        EnigmaPlugBoardError::AlreadyHaveWire(wire),
                    )
                    &&& final(self).plug_board == old(self).plug_board
                }
            }),
    {
        self.plug_board.add_wire(wire)
    }

    /// One full encode cycle: step the rotor chain, then thread the symbol's
    /// signal through plug board, rotors, reflector, rotors in reverse, and
    /// plug board again.
    pub fn encode_charater(&mut self, c: char) -> (r: char)
        requires
            old(self).wf(),
            old(self).rotors@.len() >= 1,
            is_upper(c),
        ensures
            final(self).wf(),
            final(self).rotors@ == step_rotors(old(self).rotors@),
            final(self).plug_board == old(self).plug_board,
            final(self).reflector == old(self).reflector,
            is_upper(r),
            idx_of(r) == signal_subst(
                old(self).plug_board,
                step_rotors(old(self).rotors@),
                old(self).reflector,
                idx_of(c),
            ),
    {
        let char_in_usize = char_to_index(c);
        rotate_rotors(&mut self.rotors);
        proof {
            lemma_step_rotors_wf(old(self).rotors@);
        }
        let step1 = self.plug_board.encode_index(char_in_usize);
        let step2 = encode_rotors_forward(&self.rotors, step1);
        let reflect_index = self.reflector.encode_index(step2);
        let step3 = encode_rotors_backward(&self.rotors, reflect_index);
        let last = self.plug_board.encode_index(step3);
        proof {
            lemma_idx_of_char_of(last as int);
        }
        index_to_char(last)
    }

    /// Encodes a whole string by repeated single-symbol encode cycles; the
    /// output has one symbol per input symbol.
    pub fn encode_str(&mut self, s: &str) -> (r: String)
        requires
            old(self).wf(),
            old(self).rotors@.len() >= 1,
            upper_seq(s@),
        ensures
            final(self).wf(),
            r@ == encode_seq(old(self).plug_board, old(self).rotors@, old(self).reflector, s@),
            r@.len() == s@.len(),
            upper_seq(r@),
            final(self).rotors@ == rotors_after(old(self).rotors@, s@.len()),
            final(self).plug_board == old(self).plug_board,
            final(self).reflector == old(self).reflector,
    {
        let n = s.unicode_len();
        let mut out = String::new();
        let mut i: usize = 0;
        while i < n
            invariant
                i <= n,
                n == s@.len(),
                upper_seq(s@),
                self.wf(),
                self.rotors@.len() == old(self).rotors@.len(),
                old(self).rotors@.len() >= 1,
                self.plug_board == old(self).plug_board,
                self.reflector == old(self).reflector,
                self.rotors@ == rotors_after(old(self).rotors@, i as nat),
                out@ == encode_seq(
                    old(self).plug_board,
                    old(self).rotors@,
                    old(self).reflector,
                    s@.subrange(0, i as int),
                ),
            decreases n - i,
        {
            let c = s.get_char(i);
            assert(is_upper(c));
            let ghost pre = self.rotors@;
            let e = self.encode_charater(c);
            push_char(&mut out, e);
            proof {
                lemma_encode_seq_snoc(
                    old(self).plug_board,
                    old(self).rotors@,
                    old(self).reflector,
                    s@.subrange(0, i as int),
                    c,
                );
                assert(s@.subrange(0, i as int).push(s@[i as int]) =~= s@.subrange(0, i + 1));
                lemma_rotors_after_step(old(self).rotors@, i as nat);
                assert(self.rotors@ == rotors_after(old(self).rotors@, (i + 1) as nat));
            }
            i += 1;
        }
        proof {
            assert(s@.subrange(0, n as int) =~= s@);
            lemma_encode_seq_upper(
                old(self).plug_board,
                old(self).rotors@,
                old(self).reflector,
                s@,
            );
            lemma_encode_seq_len(old(self).plug_board, old(self).rotors@, old(self).reflector, s@);
        }
        out
    }
}

} // verus!
