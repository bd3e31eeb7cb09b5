use ising_wolff::machines::{to_sigma, to_int};

#[test]
fn sigma_decodes_bits() {
    // bit 0 set -> spin -1 at site 0; bit clear -> spin +1
    assert_eq!(to_sigma(4, 0b0101), vec![-1, 1, -1, 1]);
    assert_eq!(to_sigma(4, 0), vec![1, 1, 1, 1]);
    assert_eq!(to_sigma(4, 0b1111), vec![-1, -1, -1, -1]);
    assert_eq!(to_sigma(3, 0b110), vec![1, -1, -1]);
}

#[test]
fn sigma_past_word_width_is_up() {
    let s = to_sigma(40, u32::MAX);
    assert_eq!(s.len(), 40);
    for i in 0..32 {
        assert_eq!(s[i], -1);
    }
    for i in 32..40 {
        assert_eq!(s[i], 1);
    }
}

#[test]
fn int_encodes_up_spins() {
    // bit set exactly where the spin is +1
    assert_eq!(to_int(&vec![1, -1, 1, -1]), 0b0101);
    assert_eq!(to_int(&vec![-1, -1, -1, -1]), 0);
    assert_eq!(to_int(&vec![1, 1, 1, 1]), 0b1111);
}

#[test]
fn int_of_sigma_is_complement() {
    // to_sigma reads a set bit as spin -1, to_int writes spin +1 as a set
    // bit, so composing them complements the low bits
    for k in 0..16u32 {
        assert_eq!(to_int(&to_sigma(4, k)), !k & 0xF);
    }
}
