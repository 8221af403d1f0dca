use phie::basket::{Basket, Kid};
use phie::loc::Loc;

#[test]
fn makes_simple_basket() {
    let mut basket = Basket::start(0, 0);
    basket.put(Loc::Delta, Kid::Dtzd(42));
    if let Kid::Dtzd(d) = basket.kids.get(&Loc::Delta).unwrap() {
        assert_eq!(42, *d);
    }
}

#[test]
fn checks_if_empty() {
    let empty = Basket::empty();
    assert!(empty.is_empty());
    let not_empty = Basket::start(0, 0);
    assert!(!not_empty.is_empty());
}

#[test]
fn prints_itself() {
    let mut basket = Basket::start(5, 7);
    basket.put(Loc::Delta, Kid::Dtzd(42));
    basket.put(Loc::Rho, Kid::Wait(42, Loc::Phi));
    basket.put(Loc::Attr(1), Kid::Need(7, 12));
    assert_eq!(
        "[ν5, ξ:β7, Δ⇶0x002A, ρ⇉β42.𝜑, 𝛼1→(ν7;β12)]",
        basket.to_string()
    );
}

#[test]
fn parses_itself() {
    let txt = "[ν5, ξ:β18, Δ⇶0x1F21, ρ⇉β4.𝜑, 𝛼12→?, 𝛼1→?, 𝛼3→(ν5;β5), 𝜑→∅]";
    let basket = Basket::from_str(txt).unwrap();
    assert_eq!(txt, basket.to_string());
}

#[test]
fn fails_on_invalid_basket_format() {
    let result = Basket::from_str("invalid");
    assert!(result.is_err());
    let err = result.err().unwrap();
    assert!(err.contains("Can't parse the basket"));
    assert!(err.contains("invalid"));
}

#[test]
fn fails_on_invalid_data_hex() {
    let result = Basket::from_str("[ν5, ξ:β7, Δ⇶0xZZZZ]");
    assert!(result.is_err());
    let err = result.err().unwrap();
    assert!(err.contains("Can't parse data"));
}

#[test]
fn fails_on_invalid_wait_format() {
    let result = Basket::from_str("[ν5, ξ:β7, ρ⇉βinvalid]");
    assert!(result.is_err());
}

#[test]
fn fails_on_invalid_need_format() {
    let result = Basket::from_str("[ν5, ξ:β7, 𝛼1→(νinvalid)]");
    assert!(result.is_err());
}

#[test]
fn fails_on_unknown_kid_type() {
    let result = Basket::from_str("[ν5, ξ:β7, 𝛼1→☠]");
    assert!(result.is_err());
}

#[test]
fn fails_on_invalid_need_obj_number() {
    let result = Basket::from_str("[ν5, ξ:β7, 𝛼1→(νinvalid_obj;β5)]");
    assert!(result.is_err());
}

#[test]
fn fails_on_invalid_need_psi_number() {
    let result = Basket::from_str("[ν5, ξ:β7, 𝛼1→(ν5;βinvalid_psi)]");
    assert!(result.is_err());
}

#[test]
fn fails_on_invalid_location_in_kid() {
    let result = Basket::from_str("[ν5, ξ:β7, invalid_loc→?]");
    assert!(result.is_err());
}

#[test]
fn fails_on_invalid_ob_number() {
    let result = Basket::from_str("[νinvalid, ξ:β7]");
    assert!(result.is_err());
    let err = result.err().unwrap();
    assert!(err.contains("Can't parse the v part"));
}

#[test]
fn fails_on_invalid_psi_number() {
    let result = Basket::from_str("[ν5, ξ:βinvalid]");
    assert!(result.is_err());
    let err = result.err().unwrap();
    assert!(err.contains("Can't parse the psi part"));
}

#[test]
fn fails_on_missing_psi_part() {
    let result = Basket::from_str("[ν5]");
    assert!(result.is_err());
    let err = result.err().unwrap();
    assert!(err.contains("Missing psi part"));
}

#[test]
fn fails_on_invalid_wait_number() {
    let result = Basket::from_str("[ν5, ξ:β7, ρ⇉βnotnum.𝜑]");
    assert!(result.is_err());
    let err = result.err().unwrap();
    assert!(err.contains("Can't parse wait number"));
}

#[test]
fn fails_on_invalid_wait_loc() {
    let result = Basket::from_str("[ν5, ξ:β7, ρ⇉β5.invalid]");
    assert!(result.is_err());
    let err = result.err().unwrap();
    assert!(err.contains("Can't parse wait loc"));
}

#[test]
fn parses_text_of_two_slots() {
    let txt = "[ν5, ξ:β7, Δ⇶0x002A, ρ⇉β42.𝜑]";
    let basket = Basket::from_str(txt).unwrap();
    assert_eq!(txt, basket.to_string());
}

#[test]
fn parses_text_of_six_slots() {
    let txt = "[ν5, ξ:β18, Δ⇶0x1F21, ρ⇉β4.𝜑, 𝛼12→?, 𝛼1→?, 𝛼3→(ν5;β5), 𝜑→∅]";
    let basket = Basket::from_str(txt).unwrap();
    assert_eq!(txt, basket.to_string());
}

#[test]
fn prints_slots_in_the_order_of_their_texts() {
    let mut one = Basket::start(1, 0);
    one.put(Loc::Phi, Kid::Empt);
    one.put(Loc::Attr(1), Kid::Rqtd);
    one.put(Loc::Attr(12), Kid::Rqtd);
    let mut two = Basket::start(1, 0);
    two.put(Loc::Attr(12), Kid::Rqtd);
    two.put(Loc::Attr(1), Kid::Rqtd);
    two.put(Loc::Phi, Kid::Empt);
    assert_eq!(one.to_string(), two.to_string());
    assert_eq!("[ν1, ξ:β0, 𝛼12→?, 𝛼1→?, 𝜑→∅]", one.to_string());
}

#[test]
fn prints_negative_numbers_and_data() {
    let mut basket = Basket::empty();
    basket.put(Loc::Phi, Kid::Dtzd(-1));
    basket.put(Loc::Rho, Kid::Need(3, -1));
    let text = basket.to_string();
    assert_eq!("[ν0, ξ:β-1, ρ→(ν3;β-1), 𝜑⇶0xFFFF]", text);
    let back = Basket::from_str(&text).unwrap();
    assert_eq!(text, back.to_string());
    assert_eq!(Some(&Kid::Dtzd(-1)), back.kids.get(&Loc::Phi));
}

#[test]
fn keeps_the_last_of_a_slot_read_twice() {
    let basket = Basket::from_str("[ν1, ξ:β0, 𝜑→?, 𝜑→∅]").unwrap();
    assert_eq!(1, basket.kids.len());
    assert_eq!(Some(&Kid::Empt), basket.kids.get(&Loc::Phi));
}

#[test]
fn parses_text() {
    for txt in [
        "[ν5, ξ:β7, Δ⇶0x002A, ρ⇉β42.𝜑]",
        "[ν5, ξ:β18, Δ⇶0x1F21, ρ⇉β4.𝜑, 𝛼12→?, 𝛼1→?, 𝛼3→(ν5;β5), 𝜑→∅]",
    ] {
        let basket = Basket::from_str(txt).unwrap();
        assert_eq!(txt, basket.to_string());
    }
}

#[test]
fn passes_over_what_stands_around_the_brackets() {
    let basket = Basket::from_str("β3 [ ν5 ,\n ξ:β7 , 𝜑→? ] and so on").unwrap();
    assert_eq!("[ν5, ξ:β7, 𝜑→?]", basket.to_string());
    assert!(Basket::from_str("] [").is_err());
}
