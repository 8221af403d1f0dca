use phie::atom::Atom;
use phie::loc::Loc;
use phie::locator::Locator;
use phie::object::Object;

fn ph(txt: &str) -> Locator {
    Locator::from_str(txt).unwrap()
}

#[test]
fn makes_simple_object() {
    let mut obj = Object::open();
    obj.push(Loc::Attr(1), "ν4".parse().unwrap(), false);
    obj.push(Loc::Rho, "P.0.@".parse().unwrap(), false);
    assert_eq!(obj.attrs.len(), 2)
}

#[test]
fn pushes_one_attribute_after_the_other() {
    let mut obj = Object::open();
    obj.push(Loc::Phi, ph("ν13"), false)
        .push(Loc::Attr(0), ph("ρ.1"), false);
    assert_eq!("⟦𝛼0↦ρ.𝛼1, 𝜑↦ν13(𝜋)⟧", obj.to_string());
}

#[test]
fn extends_by_making_new_object() {
    let obj = Object::open()
        .with(Loc::Attr(1), ph("ν14"), false)
        .with(Loc::Phi, ph("^.@"), false)
        .with(Loc::Rho, ph("P.^.0.0.^.@"), false);
    assert_eq!(obj.attrs.len(), 3);
    assert!(obj.delta.is_none());
    assert!(obj.lambda.is_none());
}

#[test]
fn prints_and_parses_simple_object() {
    let mut obj = Object::open();
    obj.constant = true;
    obj.push(Loc::Attr(1), "ν4".parse().unwrap(), false);
    obj.push(Loc::Rho, "P.0.@".parse().unwrap(), false);
    let text = obj.to_string();
    assert_eq!("⟦! ρ↦𝜋.𝛼0.𝜑, 𝛼1↦ν4(𝜋)⟧", text);
    let obj2 = Object::from_str(&text).unwrap();
    assert_eq!(obj2.to_string(), text);
}

fn prints_and_parses(text: &str) {
    let obj1 = Object::from_str(text).unwrap();
    let text2 = obj1.to_string();
    let obj2 = Object::from_str(&text2).unwrap();
    let text3 = obj2.to_string();
    assert_eq!(text2, text3);
}

#[test]
fn prints_and_parses_some_atom_object() {
    prints_and_parses("ν7(𝜋) ↦ ⟦! λ ↦ int-sub, ρ ↦ 𝜋.𝜋.𝛼0, 𝛼0 ↦ ν8(𝜋) ⟧");
    let obj = Object::from_str("ν7(𝜋) ↦ ⟦! λ ↦ int-sub, ρ ↦ 𝜋.𝜋.𝛼0, 𝛼0 ↦ ν8(𝜋) ⟧").unwrap();
    assert_eq!("⟦! λ↦int-sub, ρ↦𝜋.𝜋.𝛼0, 𝛼0↦ν8(𝜋)⟧", obj.to_string());
    assert_eq!(Some(("int-sub".to_string(), Atom::IntSub)), obj.lambda);
}

#[test]
fn prints_and_parses_some_data_object() {
    prints_and_parses("ν7(𝜋) ↦ ⟦ Δ ↦ 0x0001 ⟧");
    let obj = Object::from_str("ν7(𝜋) ↦ ⟦ Δ ↦ 0x0001 ⟧").unwrap();
    assert_eq!(Some(1), obj.delta);
}

#[test]
fn prints_and_parses_some_object_of_objects() {
    prints_and_parses("ν11(𝜋) ↦ ⟦ λ ↦ int-add, ρ ↦ ν9(𝜋), 𝛼0 ↦ ν10(𝜋) ⟧");
}

#[test]
fn fails_on_unknown_lambda() {
    let text = "⟦ λ ↦ unknown-lambda ⟧";
    let result = Object::from_str(text);
    assert!(result.is_err());
    let err = result.err().unwrap();
    assert!(
        err.contains("Unknown lambda"),
        "Expected 'Unknown lambda' but got: {}",
        err
    );
}

#[test]
fn fails_on_invalid_format() {
    let text = "invalid object format";
    let result = Object::from_str(text);
    assert!(result.is_err());
    let err = result.err().unwrap();
    assert!(err.contains("Can't parse object format"));
}

#[test]
fn fails_on_invalid_hex() {
    let text = "⟦ Δ ↦ 0xZZZZ ⟧";
    let result = Object::from_str(text);
    assert!(result.is_err());
    let err = result.err().unwrap();
    assert!(err.contains("Can't parse hex"));
}

#[test]
fn fails_on_malformed_attribute() {
    let text = "⟦ malformed ⟧";
    let result = Object::from_str(text);
    assert!(result.is_err());
    let err = result.err().unwrap();
    assert!(err.contains("Can't split"));
}

#[test]
fn parses_object_with_xi() {
    let text = "⟦ 𝜑 ↦ ν2(ξ) ⟧";
    let obj = Object::from_str(text).unwrap();
    assert_eq!(obj.attrs.len(), 1);
    let (_, xi) = obj.attrs.get(&Loc::Phi).unwrap();
    assert!(*xi);
}

#[test]
fn parses_object_without_xi() {
    let text = "⟦ ρ ↦ 𝜋 ⟧";
    let obj = Object::from_str(text).unwrap();
    assert_eq!(obj.attrs.len(), 1);
    let (_, xi) = obj.attrs.get(&Loc::Rho).unwrap();
    assert!(!*xi);
}

#[test]
fn fails_on_empty_attribute_name() {
    let text = "⟦ ↦ ν0 ⟧";
    let result = Object::from_str(text);
    assert!(result.is_err());
    let err = result.err().unwrap();
    assert!(err.contains("Empty attribute name"));
}

#[test]
fn fails_on_invalid_loc_in_attribute() {
    let text = "⟦ invalid_loc ↦ ν0 ⟧";
    let result = Object::from_str(text);
    assert!(result.is_err());
    let err = result.err().unwrap();
    assert!(err.contains("Can't parse location"));
}

#[test]
fn fails_on_invalid_locator_in_attribute() {
    let err = Object::from_str("⟦ ρ ↦ 𝜋.x ⟧").err().unwrap();
    assert_eq!("Can't parse locator '𝜋.x': Unknown loc: 'x'", err);
}

#[test]
fn prints_and_parses_empty_objects() {
    assert!(Object::open().is_empty());
    assert_eq!("⟦⟧", Object::open().to_string());
    assert!(Object::from_str("⟦⟧").unwrap().is_empty());
    assert_eq!("⟦! ⟧", Object::open().as_constant().to_string());
    let back = Object::from_str("⟦! ⟧").unwrap();
    assert!(back.constant);
    assert_eq!(0, back.attrs.len());
}

#[test]
fn prints_data_and_atoms() {
    assert_eq!("⟦! Δ↦0x002A⟧", Object::dataic(42).to_string());
    assert_eq!("⟦! Δ↦0xFFFF⟧", Object::dataic(-1).to_string());
    assert_eq!(Some(-1), Object::from_str("⟦! Δ↦0xFFFF⟧").unwrap().delta);
    assert!(Object::dataic(42).constant);
    assert!(!Object::dataic(42).is_empty());
    let atom = Object::atomic("int-add".to_string(), Atom::IntAdd);
    assert_eq!("⟦λ↦int-add⟧", atom.to_string());
    assert!(!atom.constant);
    assert!(!atom.is_empty());
}

#[test]
fn prints_the_same_whatever_the_order_of_insertion() {
    let one = Object::open()
        .with(Loc::Attr(12), ph("ν1"), false)
        .with(Loc::Attr(1), ph("𝜋.𝛼0"), true)
        .with(Loc::Rho, ph("ν2"), true);
    let two = Object::open()
        .with(Loc::Rho, ph("ν2"), true)
        .with(Loc::Attr(1), ph("𝜋.𝛼0"), true)
        .with(Loc::Attr(12), ph("ν1"), false);
    assert_eq!(one.to_string(), two.to_string());
    assert_eq!("⟦ρ↦ν2(ξ), 𝛼12↦ν1(𝜋), 𝛼1↦𝜋.𝛼0(ξ)⟧", one.to_string());
    let back = Object::from_str(&one.to_string()).unwrap();
    assert_eq!(one.to_string(), back.to_string());
}

#[test]
fn copies_and_replaces() {
    let one = Object::open().with(Loc::Rho, ph("ν2"), false);
    let two = one.with(Loc::Rho, ph("ν3"), true);
    assert_eq!("⟦ρ↦ν2(𝜋)⟧", one.to_string());
    assert_eq!("⟦ρ↦ν3(ξ)⟧", two.to_string());
    assert_eq!(one.to_string(), one.copy().to_string());
    assert!(one.attrs.contains_key(&Loc::Rho));
    assert!(!one.attrs.contains_key(&Loc::Phi));
}

#[test]
fn prints_and_parses_some_object() {
    for text in [
        "ν7(𝜋) ↦ ⟦! λ ↦ int-sub, ρ ↦ 𝜋.𝜋.𝛼0, 𝛼0 ↦ ν8(𝜋) ⟧",
        "ν7(𝜋) ↦ ⟦ Δ ↦ 0x0001 ⟧",
        "ν11(𝜋) ↦ ⟦ λ ↦ int-add, ρ ↦ ν9(𝜋), 𝛼0 ↦ ν10(𝜋) ⟧",
    ] {
        let obj1 = Object::from_str(text).unwrap();
        let text2 = obj1.to_string();
        let obj2 = Object::from_str(&text2).unwrap();
        let text3 = obj2.to_string();
        assert_eq!(text2, text3);
    }
}
