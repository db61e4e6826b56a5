use enigma::EnigmaMachine;
use enigma::EnigmaPlugBoard;
use enigma::EnigmaPlugBoardError;
use enigma::EnigmaPlugBoardWire;
use enigma::EnigmaReflector;
use enigma::EnigmaRotor;
use enigma::EnigmaRotorSetting;
use enigma::EnigmaRotorWireError;
use enigma::EnigmaRotorWiring;

const REFLECTOR_B: &str = "YRUHQSLDPXNGOKMIEBFZCWVJAT";

const ROTOR_I_FORWARD: &str = "EKMFLGDQVZNTOWYHXUSPAIBRCJ";
const ROTOR_I_BACKWARD: &str = "UWYGADFPVZBECKMTHXSLRINQOJ";
const ROTOR_II_FORWARD: &str = "AJDKSIRUXBLHWTMCQGZNPYFVOE";
const ROTOR_II_BACKWARD: &str = "AJPCZWRLFBDKOTYUQGENHXMIVS";
const ROTOR_III_FORWARD: &str = "BDFHJLCPRTXVZNYEIWGAKMUSQO";
const ROTOR_III_BACKWARD: &str = "TAGBPCSDQEUFVNZHYIXJWLRKOM";

fn rotor_i() -> EnigmaRotorSetting<'static> {
    EnigmaRotorSetting {
        wiring: EnigmaRotorWiring { forward: ROTOR_I_FORWARD, backward: ROTOR_I_BACKWARD },
        window: 'A',
        notch: 'Q',
    }
}

fn rotor_ii() -> EnigmaRotorSetting<'static> {
    EnigmaRotorSetting {
        wiring: EnigmaRotorWiring { forward: ROTOR_II_FORWARD, backward: ROTOR_II_BACKWARD },
        window: 'A',
        notch: 'E',
    }
}

fn rotor_iii() -> EnigmaRotorSetting<'static> {
    EnigmaRotorSetting {
        wiring: EnigmaRotorWiring { forward: ROTOR_III_FORWARD, backward: ROTOR_III_BACKWARD },
        window: 'A',
        notch: 'V',
    }
}

fn standard_machine() -> EnigmaMachine {
    EnigmaMachine::new_with_all_setting(vec![rotor_i(), rotor_ii(), rotor_iii()], REFLECTOR_B)
        .unwrap()
}

#[test]
fn test_diff_cipher_and_plain() {
    let mut enigma_machine = standard_machine();

    enigma_machine.set_window("AAA");
    let plain_text = "ILOVERUST";
    let cipher_text = enigma_machine.encode_str(plain_text);
    enigma_machine.set_window("AAA");
    let decode_text = enigma_machine.encode_str(cipher_text.as_str());

    // decode should be the same.
    assert_eq!(plain_text, decode_text.as_str());
    // but cipher should be different.
    assert_ne!(plain_text, cipher_text.as_str());
}

#[test]
fn test_plugboard() {
    let mut enigma_machine = standard_machine();

    enigma_machine.set_window("AAA");
    let plain_text = "ILOVERUST";

    // connect R and A
    let plugboard_wire = EnigmaPlugBoardWire('A', 'R');

    enigma_machine.set_window("AAA");
    // plaintext doesn't contain 'A', so R alone is swapped going in.
    let compare_before_plugboard =
        enigma_machine.encode_str(plain_text.replace("R", "A").as_str());
    // imitate the plug board on the way out: R->A, A->R
    let compare_before_plugboard = compare_before_plugboard
        .chars()
        .map(|c| {
            if c == 'A' {
                'R'
            } else if c == 'R' {
                'A'
            } else {
                c
            }
        })
        .collect::<String>();

    enigma_machine.set_window("AAA");
    let _ = enigma_machine.add_plug_wire(plugboard_wire);
    let with_plugboard_cipher = enigma_machine.encode_str(plain_text);

    enigma_machine.set_window("AAA");
    let plugboard_decode = enigma_machine.encode_str(with_plugboard_cipher.as_str());

    // two should be the same
    assert_eq!(compare_before_plugboard, with_plugboard_cipher);
    // even with plugboard, decode should still work
    assert_eq!(plugboard_decode.as_str(), plain_text);
    println!(
        "plainText:\t{}\nmodify cipher:\t{}\nplugboard cipher:\t{}\ndecode:\t{}",
        plain_text, compare_before_plugboard, with_plugboard_cipher, plugboard_decode
    );
}

#[test]
fn test_repeating_char() {
    let mut enigma_machine = standard_machine();

    enigma_machine.set_window("AAA");
    let plain_text = "TTTTTTTTTTTTTTTTTTTTTTTTTTTTTTTTTTTTTTTT";
    let cipher_text = enigma_machine.encode_str(plain_text);
    enigma_machine.set_window("AAA");
    let decode_text = enigma_machine.encode_str(cipher_text.as_str());

    println!(
        "plain: {}\ncipher: {}\ndecode: {}",
        plain_text, cipher_text, decode_text
    );
    // decode should be the same.
    assert_eq!(plain_text, decode_text.as_str());
    // but cipher should be different.
    assert_ne!(plain_text, cipher_text.as_str());
}

// Encoding 40 repetitions of one symbol must not come out as a short
// repeating pattern: the stepping changes the substitution per position.
#[test]
fn test_repeating_char_has_no_short_period() {
    let mut enigma_machine = standard_machine();
    enigma_machine.set_window("AAA");
    let cipher: Vec<char> = enigma_machine
        .encode_str("TTTTTTTTTTTTTTTTTTTTTTTTTTTTTTTTTTTTTTTT")
        .chars()
        .collect();
    assert_eq!(cipher.len(), 40);
    for period in 1..=13 {
        let mut repeats_with_period = true;
        for i in 0..cipher.len() - period {
            if cipher[i] != cipher[i + period] {
                repeats_with_period = false;
                break;
            }
        }
        assert!(!repeats_with_period, "cipher repeats with period {}", period);
    }
}

// Round trip with a plugboard and a non-initial window state.
#[test]
fn test_round_trip_keyed_with_plugboard() {
    let mut enigma_machine = standard_machine();
    enigma_machine.add_plug_wire(EnigmaPlugBoardWire('C', 'Q')).unwrap();
    enigma_machine.add_plug_wire(EnigmaPlugBoardWire('T', 'Z')).unwrap();
    enigma_machine.set_window("QEV");
    let plain_text = "ATTACKATDAWN";
    let cipher_text = enigma_machine.encode_str(plain_text);
    enigma_machine.set_window("QEV");
    let decode_text = enigma_machine.encode_str(cipher_text.as_str());
    assert_eq!(plain_text, decode_text.as_str());
    assert_ne!(plain_text, cipher_text.as_str());
}

// After wiring A-R, wiring A-B must fail with the already-wired error and
// leave A still mapped to R and R to A.
#[test]
fn test_plug_wire_conflict() {
    let mut board = EnigmaPlugBoard::new();
    let first = board.add_wire(EnigmaPlugBoardWire('A', 'R'));
    assert_eq!(first, Ok(EnigmaPlugBoardWire('A', 'R')));
    let second = board.add_wire(EnigmaPlugBoardWire('A', 'B'));
    assert_eq!(
        second,
        Err(EnigmaPlugBoardError::AlreadyHaveWire(EnigmaPlugBoardWire('A', 'B')))
    );
    // A (index 0) still swaps with R (index 17), and B stays a fixed point.
    assert_eq!(board.encode_index(0), 17);
    assert_eq!(board.encode_index(17), 0);
    assert_eq!(board.encode_index(1), 1);
}

// The same conflict seen through the machine.
#[test]
fn test_machine_plug_wire_conflict() {
    let mut enigma_machine = standard_machine();
    assert!(enigma_machine.add_plug_wire(EnigmaPlugBoardWire('A', 'R')).is_ok());
    let second = enigma_machine.add_plug_wire(EnigmaPlugBoardWire('A', 'B'));
    assert_eq!(
        second,
        Err(EnigmaPlugBoardError::AlreadyHaveWire(EnigmaPlugBoardWire('A', 'B')))
    );
}

// Stepping cascade: rotor 0 with notch 'Q' and window 'P' reaches its notch
// after one keypress without moving rotor 1; the next keypress steps rotor 1
// as well, because the notch is checked before the increment.
#[test]
fn test_stepping_cascade() {
    let mut rotor_0 = rotor_i();
    rotor_0.notch = 'Q';
    rotor_0.window = 'P';
    let mut enigma_machine =
        EnigmaMachine::new_with_all_setting(vec![rotor_0, rotor_ii(), rotor_iii()], REFLECTOR_B)
            .unwrap();

    assert_eq!(enigma_machine.rotors[0].window, 'P');
    assert_eq!(enigma_machine.rotors[1].window, 'A');

    let _ = enigma_machine.encode_charater('X');
    assert_eq!(enigma_machine.rotors[0].window, 'Q');
    assert_eq!(enigma_machine.rotors[1].window, 'A');

    let _ = enigma_machine.encode_charater('X');
    assert_eq!(enigma_machine.rotors[0].window, 'R');
    assert_eq!(enigma_machine.rotors[1].window, 'B');
    assert_eq!(enigma_machine.rotors[2].window, 'A');
}

// A backward table that is not the true inverse of the forward table must be
// rejected at construction with an explicit wiring error.
#[test]
fn test_wiring_rejection() {
    let bad = EnigmaRotorSetting {
        wiring: EnigmaRotorWiring {
            forward: ROTOR_I_FORWARD,
            // a valid permutation, but not the inverse of the forward table
            backward: ROTOR_II_BACKWARD,
        },
        window: 'A',
        notch: 'Q',
    };
    assert!(matches!(
        EnigmaRotor::new_with_setting(bad),
        Err(EnigmaRotorWireError::InvaildWiring)
    ));
    let built = EnigmaMachine::new_with_all_setting(vec![rotor_i(), bad], REFLECTOR_B);
    assert!(matches!(built, Err(EnigmaRotorWireError::InvaildWiring)));
}

// A wiring string of the wrong length is rejected with the length error.
#[test]
fn test_wiring_length_rejection() {
    let short = EnigmaRotorSetting {
        wiring: EnigmaRotorWiring { forward: "ABC", backward: "ABC" },
        window: 'A',
        notch: 'Q',
    };
    assert!(matches!(
        EnigmaRotor::new_with_setting(short),
        Err(EnigmaRotorWireError::InvaildLength)
    ));
}

// Re-wiring an existing rotor goes through the same validator.
#[test]
fn test_set_rotor_wiring_with_str() {
    let mut rotor = EnigmaRotor::new();
    assert_eq!(
        rotor.set_rotor_wiring_with_str(ROTOR_I_FORWARD, ROTOR_I_BACKWARD),
        Ok(())
    );
    assert_eq!(
        rotor.set_rotor_wiring_with_str(ROTOR_I_FORWARD, ROTOR_III_BACKWARD),
        Err(EnigmaRotorWireError::InvaildWiring)
    );
    assert_eq!(
        rotor.set_rotor_wiring_with_str(ROTOR_I_FORWARD, "XYZ"),
        Err(EnigmaRotorWireError::InvaildLength)
    );
}

// Rotor I at offset 0 maps index 0 to 'E' = 4 going forward; at offset 1 the
// rotation is removed first: 0 becomes 25, 'J' = 9, put back gives 10.
#[test]
fn test_rotor_forward_exact_values() {
    let mut rotor = EnigmaRotor::new();
    rotor.set_rotor_wiring_with_str(ROTOR_I_FORWARD, ROTOR_I_BACKWARD).unwrap();
    rotor.set_window('A');
    assert_eq!(rotor.encode_forward_index(0), 4);
    assert_eq!(rotor.encode_backward_index(4), 0);
    rotor.set_window('B');
    assert_eq!(rotor.encode_forward_index(0), 10);
    assert_eq!(rotor.encode_backward_index(10), 0);
}

// A fresh rotor carries identity wiring.
#[test]
fn test_new_rotor_is_identity() {
    let rotor = EnigmaRotor::new();
    for i in 0..26 {
        assert_eq!(rotor.encode_forward_index(i), i);
        assert_eq!(rotor.encode_backward_index(i), i);
    }
}

// The reflector stores its table verbatim: position 0 of reflector B holds
// 'Y' = 24.
#[test]
fn test_reflector_exact_values() {
    let reflector = EnigmaReflector::new_with_str(REFLECTOR_B);
    assert_eq!(reflector.encode_index(0), 24);
    assert_eq!(reflector.encode_index(24), 0);
    assert_eq!(reflector.encode_index(25), 19);
}

// Reflector construction from bytes matches construction from the string.
#[test]
fn test_reflector_from_vec() {
    let from_vec = EnigmaReflector::new_with_vec(REFLECTOR_B.as_bytes().to_vec());
    let from_str = EnigmaReflector::new_with_str(REFLECTOR_B);
    for i in 0..26 {
        assert_eq!(from_vec.encode_index(i), from_str.encode_index(i));
    }
}

// Replacing the reflector re-keys future encodings.
#[test]
fn test_set_reflector() {
    let mut reflector = EnigmaReflector::new_with_str(REFLECTOR_B);
    reflector.set_reflect_with_str("EJMZALYXVBWFCRQUONTSPIKHGD");
    assert_eq!(reflector.encode_index(0), 4);
}

// Window setting: extra symbols are ignored, a shorter string leaves the
// remaining rotors untouched, and the empty string changes nothing.
#[test]
fn test_set_window_lengths() {
    let mut enigma_machine = standard_machine();
    enigma_machine.set_window("XYZW");
    assert_eq!(enigma_machine.rotors[0].window, 'X');
    assert_eq!(enigma_machine.rotors[1].window, 'Y');
    assert_eq!(enigma_machine.rotors[2].window, 'Z');
    enigma_machine.set_window("B");
    assert_eq!(enigma_machine.rotors[0].window, 'B');
    assert_eq!(enigma_machine.rotors[1].window, 'Y');
    assert_eq!(enigma_machine.rotors[2].window, 'Z');
    enigma_machine.set_window("");
    assert_eq!(enigma_machine.rotors[0].window, 'B');
}

// The empty message encodes to the empty message.
#[test]
fn test_encode_empty_str() {
    let mut enigma_machine = standard_machine();
    enigma_machine.set_window("AAA");
    assert_eq!(enigma_machine.encode_str(""), "");
    // the rotors did not move
    assert_eq!(enigma_machine.rotors[0].window, 'A');
}

// A machine with a single rotor still round-trips.
#[test]
fn test_single_rotor_round_trip() {
    let mut enigma_machine =
        EnigmaMachine::new_with_all_setting(vec![rotor_i()], REFLECTOR_B).unwrap();
    enigma_machine.set_window("A");
    let cipher = enigma_machine.encode_str("HELLOWORLD");
    enigma_machine.set_window("A");
    let decode = enigma_machine.encode_str(cipher.as_str());
    assert_eq!(decode, "HELLOWORLD");
}

// Encoding a string equals encoding its symbols one by one.
#[test]
fn test_encode_str_matches_encode_charater() {
    let mut whole = standard_machine();
    whole.set_window("AAA");
    let cipher = whole.encode_str("ILOVERUST");

    let mut stepwise = standard_machine();
    stepwise.set_window("AAA");
    let mut collected = String::new();
    for c in "ILOVERUST".chars() {
        collected.push(stepwise.encode_charater(c));
    }
    assert_eq!(cipher, collected);
}
