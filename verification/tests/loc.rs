use phie::basket::Basket;
use phie::loc::Loc;
use phie::locator::Locator;
use phie::number::{push_dec, push_hex4, push_int, read_data, read_int, IntError};
use phie::text::{cells_of, chars_of, pieces, string_of, trimmed};

fn round(txt: &str) {
    let loc1 = Loc::from_str(txt).unwrap();
    let loc2 = Loc::from_str(&loc1.to_string()).unwrap();
    assert_eq!(loc1, loc2)
}

#[test]
fn parses_and_prints_root_alias() {
    round("Q");
    assert_eq!(Loc::Root, Loc::from_str("Q").unwrap());
    assert_eq!("Φ", Loc::from_str("Q").unwrap().to_string());
}

#[test]
fn parses_and_prints_sigma_alias() {
    round("&");
    assert_eq!("σ", Loc::from_str("&").unwrap().to_string());
}

#[test]
fn parses_and_prints_rho_alias() {
    round("^");
    assert_eq!("ρ", Loc::from_str("^").unwrap().to_string());
}

#[test]
fn parses_and_prints_phi_alias() {
    round("@");
    assert_eq!("𝜑", Loc::from_str("@").unwrap().to_string());
}

#[test]
fn parses_and_prints_delta_alias() {
    round("D");
    assert_eq!("Δ", Loc::from_str("D").unwrap().to_string());
}

#[test]
fn parses_and_prints_pi_alias() {
    round("P");
    assert_eq!("𝜋", Loc::from_str("P").unwrap().to_string());
}

#[test]
fn parses_and_prints_symbols() {
    for txt in ["Δ", "ν78", "𝜑", "𝜋", "𝛼0", "σ", "ρ", "Φ"] {
        round(txt);
        assert_eq!(txt, Loc::from_str(txt).unwrap().to_string());
    }
}

#[test]
fn parses_bare_digits_as_argument() {
    assert_eq!(Loc::Attr(7), Loc::from_str("7").unwrap());
    assert_eq!(Loc::Attr(7), Loc::from_str("𝛼007").unwrap());
    assert_eq!("𝛼7", Loc::from_str("007").unwrap().to_string());
    assert_eq!(Loc::Obj(78), Loc::from_str("ν78").unwrap());
}

#[test]
fn fails_on_unknown_loc() {
    let err = Loc::from_str("hello").err().unwrap();
    assert_eq!("Unknown loc: 'hello'", err);
    assert!(Loc::from_str("").is_err());
    assert!(Loc::from_str("𝛼-1").is_err());
}

#[test]
fn fails_on_argument_out_of_range() {
    let err = Loc::from_str("𝛼128").err().unwrap();
    assert_eq!(
        "Failed to parse attr number '128': number too large to fit in target type",
        err
    );
    assert_eq!(Loc::Attr(127), Loc::from_str("𝛼127").unwrap());
}

#[test]
fn fails_on_object_out_of_range() {
    let err = Loc::from_str("ν99999999999999999999999999").err().unwrap();
    assert!(err.contains("Failed to parse obj number"));
}

#[test]
fn parses_and_prints_locator() {
    let p = Locator::from_str("P.^.0.0.^.@").unwrap();
    assert_eq!(6, p.len());
    assert_eq!(Some(&Loc::Pi), p.loc(0));
    assert_eq!(Some(&Loc::Attr(0)), p.loc(2));
    assert_eq!(None, p.loc(6));
    assert_eq!("𝜋.ρ.𝛼0.𝛼0.ρ.𝜑", p.to_string());
    let q = Locator::from_str(&p.to_string()).unwrap();
    assert_eq!(p.to_vec(), q.to_vec());
}

#[test]
fn fails_on_bad_step_of_locator() {
    assert!(Locator::from_str("").is_err());
    assert!(Locator::from_str("P..@").is_err());
    assert_eq!("Unknown loc: 'x'", Locator::from_str("P.x.@").err().unwrap());
}

#[test]
fn makes_locator_of_steps() {
    assert!(Locator::from_vec(vec![]).is_none());
    let p = Locator::from_vec(vec![Loc::Obj(3), Loc::Phi]).unwrap();
    assert_eq!("ν3.𝜑", p.to_string());
    assert_eq!("ρ", Locator::from_loc(Loc::Rho).to_string());
}

#[test]
fn parses_through_the_trait() {
    let loc: Loc = "ν78".parse().unwrap();
    assert_eq!(Loc::Obj(78), loc);
    let path: Locator = "𝜋.𝜋.𝛼0".parse().unwrap();
    assert_eq!(vec![Loc::Pi, Loc::Pi, Loc::Attr(0)], path.to_vec());
    assert!("nothing".parse::<Loc>().is_err());
    let basket: Basket = "[ν5, ξ:β7]".parse().unwrap();
    assert_eq!((5, 7), (basket.ob, basket.psi));
    let object: phie::object::Object = "⟦ Δ ↦ 0x0001 ⟧".parse().unwrap();
    assert_eq!(Some(1), object.delta);
    let emu: phie::emu::Emu = "ν0(𝜋) ↦ ⟦ Δ ↦ 0x0001 ⟧".parse().unwrap();
    assert_eq!(1, emu.objects.len());
}

#[test]
fn says_why_a_number_is_none() {
    assert_eq!(
        "Can't parse the v part '': cannot parse integer from empty string",
        Basket::from_str("[ν, ξ:β7]").err().unwrap()
    );
    assert_eq!(
        "Can't parse the psi part '-99999999999999999999': number too small to fit in target type",
        Basket::from_str("[ν1, ξ:β-99999999999999999999]").err().unwrap()
    );
    assert_eq!(
        "Can't parse the psi part '+': invalid digit found in string",
        Basket::from_str("[ν1, ξ:β+]").err().unwrap()
    );
    assert_eq!(
        "Can't parse the v part '-1': invalid digit found in string",
        Basket::from_str("[ν-1, ξ:β7]").err().unwrap()
    );
    assert_eq!(3, Basket::from_str("[ν+3, ξ:β+7]").unwrap().ob);
    assert_eq!(
        "Can't parse data '10000': number too large to fit in target type",
        Basket::from_str("[ν1, ξ:β1, 𝜑⇶0x10000]").err().unwrap()
    );
}

#[test]
fn reads_and_writes_numbers() {
    let mut out: Vec<char> = Vec::new();
    push_dec(&mut out, 1203);
    out.push(' ');
    push_int(&mut out, -45);
    out.push(' ');
    push_hex4(&mut out, -2);
    out.push(' ');
    push_hex4(&mut out, 0x1F2A);
    assert_eq!("1203 -45 FFFE 1F2A", out.iter().collect::<String>());
    let chars = |s: &str| s.chars().collect::<Vec<char>>();
    assert_eq!(Ok(-45), read_int(&chars("-45"), false, true, -128, 127));
    assert_eq!(Err(IntError::NegOverflow), read_int(&chars("-129"), false, true, -128, 127));
    assert_eq!(Err(IntError::InvalidDigit), read_int(&chars("-45"), false, false, 0, 127));
    assert_eq!(Ok(255), read_int(&chars("fF"), true, false, 0, 255));
    assert_eq!(Err(IntError::InvalidDigit), read_int(&chars("fF"), false, false, 0, 255));
    assert_eq!(Ok(-2), read_data(&chars("FFFE")));
    assert_eq!(Ok(-2), read_data(&chars("-2")));
    assert_eq!(Ok(32767), read_data(&chars("7fff")));
    assert_eq!(Err(IntError::Empty), read_data(&chars("")));
}

#[test]
fn cuts_and_trims_text() {
    let text = chars_of(" a, b ,,c\u{3000}");
    let parts: Vec<String> = pieces(&text, ',').iter().map(string_of).collect();
    assert_eq!(vec![" a", " b ", "", "c\u{3000}"], parts);
    let cells: Vec<String> = cells_of(&text, ',').iter().map(string_of).collect();
    assert_eq!(vec!["a", "b", "", "c"], cells);
    assert_eq!("x y", string_of(&trimmed(&chars_of("\n\t x y \r"))));
    assert_eq!("", string_of(&trimmed(&chars_of("  "))));
}

#[test]
fn parses_and_prints() {
    for txt in ["Q", "&", "^", "@", "D", "Δ", "ν78", "𝜑", "𝜋", "𝛼0", "σ", "ρ"] {
        let loc1 = Loc::from_str(txt).unwrap();
        let loc2 = Loc::from_str(&loc1.to_string()).unwrap();
        assert_eq!(loc1, loc2)
    }
}
