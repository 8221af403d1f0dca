use phie::basket::Kid;
use phie::data::Data;
use phie::emu::{Emu, Opt};
use phie::error::{Error, Failure};
use phie::loc::Loc;
use phie::object::Object;

fn dataize(code: &str) -> Result<(Data, usize), Error> {
    let mut emu = Emu::from_str(code).unwrap();
    emu.opt(Opt::StopWhenTooManyCycles);
    emu.opt(Opt::StopWhenStuck);
    emu.dataize()
}

fn fibo(x: Data) -> Result<Data, Error> {
    let mut emu: Emu = Emu::from_str(&format!(
        "
        ν0(𝜋) ↦ ⟦ 𝜑 ↦ ν2(𝜋) ⟧
        ν1(𝜋) ↦ ⟦ Δ ↦ 0x{:04X} ⟧
        ν2(𝜋) ↦ ⟦ 𝜑 ↦ ν3(ξ), 𝛼0 ↦ ν1(𝜋) ⟧
        ν3(𝜋) ↦ ⟦ 𝜑 ↦ ν13(𝜋) ⟧
        ν5(𝜋) ↦ ⟦ Δ ↦ 0x0002 ⟧
        ν6(𝜋) ↦ ⟦ λ ↦ int-sub, ρ ↦ 𝜋.𝜋.𝛼0, 𝛼0 ↦ ν5(𝜋) ⟧
        ν7(𝜋) ↦ ⟦ Δ ↦ 0x0001 ⟧
        ν8(𝜋) ↦ ⟦ λ ↦ int-sub, ρ ↦ 𝜋.𝜋.𝛼0, 𝛼0 ↦ ν7(𝜋) ⟧
        ν9(𝜋) ↦ ⟦ 𝜑 ↦ ν3(ξ), 𝛼0 ↦ ν8(𝜋) ⟧
        ν10(𝜋) ↦ ⟦ 𝜑 ↦ ν3(ξ), 𝛼0 ↦ ν6(𝜋) ⟧
        ν11(𝜋) ↦ ⟦ λ ↦ int-add, ρ ↦ ν9(𝜋), 𝛼0 ↦ ν10(𝜋) ⟧
        ν12(𝜋) ↦ ⟦ λ ↦ int-less, ρ ↦ 𝜋.𝛼0, 𝛼0 ↦ ν5(𝜋) ⟧
        ν13(𝜋) ↦ ⟦ λ ↦ bool-if, ρ ↦ ν12(𝜋), 𝛼0 ↦ ν7(𝜋), 𝛼1 ↦ ν11(𝜋) ⟧
        ",
        x
    ))
    .map_err(Error::EmuFromStrFailed)?;
    emu.opt(Opt::LogSnapshots);
    emu.opt(Opt::StopWhenTooManyCycles);
    emu.opt(Opt::StopWhenStuck);
    Ok(emu.dataize()?.0)
}

#[test]
fn calculates_fibonacci() {
    assert_eq!(21, fibo(7).unwrap())
}

#[test]
fn calculates_small_fibonacci() {
    assert_eq!(1, fibo(0).unwrap());
    assert_eq!(1, fibo(1).unwrap());
    assert_eq!(2, fibo(2).unwrap());
    assert_eq!(5, fibo(4).unwrap());
}

#[test]
fn dataizes_constant() {
    let (d, cycles) = dataize("ν0(𝜋) ↦ ⟦ 𝜑 ↦ ν1(𝜋) ⟧\nν1(𝜋) ↦ ⟦ Δ ↦ 0x0054 ⟧").unwrap();
    assert_eq!(84, d);
    assert_eq!(4, cycles);
}

#[test]
fn dataizes_declarations_on_one_line() {
    let (d, _) = dataize("ν0(𝜋) ↦ ⟦ 𝜑 ↦ ν1(𝜋) ⟧ ν1(𝜋) ↦ ⟦ Δ ↦ 0x0054 ⟧").unwrap();
    assert_eq!(84, d);
}

#[test]
fn adds_two_numbers() {
    let (d, _) = dataize(
        "
        ν0(𝜋) ↦ ⟦ 𝜑 ↦ ν1(𝜋) ⟧
        ν1(𝜋) ↦ ⟦ λ ↦ int-add, ρ ↦ ν2(𝜋), 𝛼0 ↦ ν3(𝜋) ⟧
        ν2(𝜋) ↦ ⟦ Δ ↦ 0x0003 ⟧
        ν3(𝜋) ↦ ⟦ Δ ↦ 0x0002 ⟧
        ",
    )
    .unwrap();
    assert_eq!(5, d);
}

#[test]
fn subtracts_two_numbers() {
    let (d, _) = dataize(
        "
        ν0(𝜋) ↦ ⟦ 𝜑 ↦ ν1(𝜋) ⟧
        ν1(𝜋) ↦ ⟦ λ ↦ int-sub, ρ ↦ ν2(𝜋), 𝛼0 ↦ ν3(𝜋) ⟧
        ν2(𝜋) ↦ ⟦ Δ ↦ 0x000A ⟧
        ν3(𝜋) ↦ ⟦ Δ ↦ 0x0004 ⟧
        ",
    )
    .unwrap();
    assert_eq!(6, d);
}

fn binary(atom: &str, rho: Data, arg: Data) -> Result<(Data, usize), Error> {
    dataize(&format!(
        "
        ν0(𝜋) ↦ ⟦ 𝜑 ↦ ν1(𝜋) ⟧
        ν1(𝜋) ↦ ⟦ λ ↦ {}, ρ ↦ ν2(𝜋), 𝛼0 ↦ ν3(𝜋) ⟧
        ν2(𝜋) ↦ ⟦ Δ ↦ 0x{:04X} ⟧
        ν3(𝜋) ↦ ⟦ Δ ↦ 0x{:04X} ⟧
        ",
        atom, rho, arg
    ))
}

#[test]
fn applies_every_atom() {
    assert_eq!(42, binary("int-times", 6, 7).unwrap().0);
    assert_eq!(-3, binary("int-div", -7, 2).unwrap().0);
    assert_eq!(3, binary("int-div", 7, 2).unwrap().0);
    assert_eq!(1, binary("int-less", -7, 2).unwrap().0);
    assert_eq!(0, binary("int-less", 2, 2).unwrap().0);
    assert_eq!(-9, binary("int-sub", -7, 2).unwrap().0);
    assert_eq!(7, binary("int-neg", -7, 2).unwrap().0);
}

#[test]
fn wraps_around_in_sixteen_bits() {
    assert_eq!(-32768, binary("int-add", 32767, 1).unwrap().0);
    assert_eq!(32767, binary("int-sub", -32768, 1).unwrap().0);
    assert_eq!(-32768, binary("int-neg", -32768, 0).unwrap().0);
    assert_eq!(-32768, binary("int-div", -32768, -1).unwrap().0);
    assert_eq!(0, binary("int-times", 256, 256).unwrap().0);
}

#[test]
fn fails_on_division_by_zero() {
    let err = binary("int-div", 7, 0).err().unwrap();
    assert!(matches!(err, Error::EmuFailure(Failure::DivisionByZero(1), _)));
    assert!(err.to_string().contains("Division by zero in β1"));
}

fn branches(predicate: Data) -> Result<(Data, usize), Error> {
    dataize(&format!(
        "
        ν0(𝜋) ↦ ⟦ 𝜑 ↦ ν1(𝜋) ⟧
        ν1(𝜋) ↦ ⟦ λ ↦ bool-if, ρ ↦ ν2(𝜋), 𝛼0 ↦ ν3(𝜋), 𝛼1 ↦ ν4(𝜋) ⟧
        ν2(𝜋) ↦ ⟦ Δ ↦ 0x{:04X} ⟧
        ν3(𝜋) ↦ ⟦ Δ ↦ 0x0011 ⟧
        ν4(𝜋) ↦ ⟦ λ ↦ int-div, ρ ↦ ν3(𝜋), 𝛼0 ↦ ν5(𝜋) ⟧
        ν5(𝜋) ↦ ⟦ Δ ↦ 0x0000 ⟧
        ",
        predicate
    ))
}

#[test]
fn forces_only_the_chosen_branch() {
    assert_eq!(17, branches(1).unwrap().0);
    assert_eq!(17, branches(-5).unwrap().0);
    let err = branches(0).err().unwrap();
    assert!(matches!(err, Error::EmuFailure(Failure::DivisionByZero(_), _)));
}

#[test]
fn reports_when_stuck() {
    let mut emu = Emu::from_str("ν0(𝜋) ↦ ⟦ 𝜑 ↦ ν1(𝜋) ⟧\nν1(𝜋) ↦ ⟦ 𝛼0 ↦ ν0(𝜋) ⟧").unwrap();
    emu.opt(Opt::StopWhenStuck);
    let err = emu.dataize().err().unwrap();
    assert_eq!(Error::EmuFailure(Failure::Stuck, 3), err);
    assert_eq!("EmuFailure: We are stuck, no slot has changed, after cycle #3", err.to_string());
    assert_eq!(2, emu.baskets.len());
    assert_eq!(Some(&Kid::Wait(1, Loc::Phi)), emu.baskets[0].kids.get(&Loc::Phi));
}

#[test]
fn reports_too_many_cycles() {
    let code = "ν0(𝜋) ↦ ⟦ 𝜑 ↦ ν1(𝜋) ⟧\nν1(𝜋) ↦ ⟦ 𝛼0 ↦ ν0(𝜋) ⟧";
    let mut emu = Emu::from_str(code).unwrap();
    emu.opt(Opt::StopWhenTooManyCycles);
    let err = emu.dataize().err().unwrap();
    assert_eq!(Error::EmuFailure(Failure::TooManyCycles, 65536), err);
}

#[test]
fn fails_on_missing_object() {
    let err = dataize("ν0(𝜋) ↦ ⟦ 𝜑 ↦ ν7(𝜋) ⟧").err().unwrap();
    assert_eq!(Error::EmuFailure(Failure::BadReference(0, Loc::Phi), 1), err);
    assert_eq!(
        "EmuFailure: Can't resolve 𝜑 in β0, after cycle #1",
        err.to_string()
    );
}

#[test]
fn fails_on_missing_operand() {
    let err = dataize("ν0(𝜋) ↦ ⟦ 𝜑 ↦ ν1(𝜋) ⟧\nν1(𝜋) ↦ ⟦ λ ↦ int-neg ⟧").err().unwrap();
    assert_eq!(Error::EmuFailure(Failure::EmptySlot(1, Loc::Rho), 2), err);
    assert!(err.to_string().contains("Can't find ρ in β1"));
}

#[test]
fn keeps_snapshots_when_asked() {
    let mut emu = Emu::from_str("ν0(𝜋) ↦ ⟦ 𝜑 ↦ ν1(𝜋) ⟧\nν1(𝜋) ↦ ⟦ Δ ↦ 0x0054 ⟧").unwrap();
    assert_eq!((84, 4), emu.dataize().unwrap());
    assert_eq!(0, emu.snapshots.len());
    emu.opt(Opt::LogSnapshots);
    assert_eq!((84, 4), emu.dataize().unwrap());
    assert_eq!(4, emu.snapshots.len());
    assert_eq!("β0 [ν0, ξ:β0, 𝜑→(ν1;β0)]", emu.snapshots[0]);
    assert_eq!(
        "β0 [ν0, ξ:β0, 𝜑⇉β1.𝜑]\nβ1 [ν1, ξ:β0, 𝜑→?]",
        emu.snapshots[1]
    );
    assert_eq!(
        "β0 [ν0, ξ:β0, 𝜑⇉β1.𝜑]\nβ1 [ν1, ξ:β0, 𝜑⇶0x0054]",
        emu.snapshots[2]
    );
    assert_eq!(
        "β0 [ν0, ξ:β0, 𝜑⇶0x0054]\nβ1 [ν1, ξ:β0, 𝜑⇶0x0054]",
        emu.snapshots[3]
    );
    assert_eq!(emu.snapshots[3], emu.snapshot());
    assert_eq!(Some(84), emu.result());
}

#[test]
fn keeps_the_arena_in_place_while_it_grows() {
    let mut emu = Emu::from_str("ν0(𝜋) ↦ ⟦ 𝜑 ↦ ν1(𝜋) ⟧\nν1(𝜋) ↦ ⟦ 𝜑 ↦ ν2(ξ) ⟧\nν2(𝜋) ↦ ⟦ Δ ↦ 0x0001 ⟧").unwrap();
    emu.opt(Opt::LogSnapshots);
    emu.dataize().unwrap();
    for w in emu.snapshots.windows(2) {
        let before: Vec<&str> = w[0].lines().collect();
        let after: Vec<&str> = w[1].lines().collect();
        assert!(before.len() <= after.len());
        for (a, b) in before.iter().zip(after.iter()) {
            assert_eq!(a.split(", ").take(2).collect::<Vec<_>>(), b.split(", ").take(2).collect::<Vec<_>>());
        }
    }
    assert_eq!("β2 [ν2, ξ:β1, 𝜑⇶0x0001]", emu.snapshot().lines().last().unwrap());
}

#[test]
fn prints_and_parses_program() {
    let code = "ν0(𝜋) ↦ ⟦𝜑↦ν2(𝜋)⟧\nν2(𝜋) ↦ ⟦! Δ↦0x0054⟧";
    let emu = Emu::from_str(code).unwrap();
    assert_eq!(3, emu.objects.len());
    assert!(emu.objects[1].is_empty());
    assert_eq!(code, emu.to_string());
    assert_eq!(code, Emu::from_str(&emu.to_string()).unwrap().to_string());
    assert_eq!("", Emu::empty().to_string());
}

#[test]
fn fails_on_bad_program() {
    assert!(Emu::from_str("ν0(𝜋) ↦ ⟦𝜑↦ν2(𝜋)").err().unwrap().contains("Can't find the end of the object"));
    assert!(Emu::from_str("x0(𝜋) ↦ ⟦𝜑↦ν2(𝜋)⟧").err().unwrap().contains("Can't parse the declaration"));
    assert!(Emu::from_str("ν(𝜋) ↦ ⟦𝜑↦ν2(𝜋)⟧").err().unwrap().contains("Can't parse the object number"));
    assert!(Emu::from_str("ν0(𝜋) ↦ ⟦𝜑↦ν2(𝜋)⟧ ν0(𝜋) ↦ ⟦𝜑↦ν3(𝜋)⟧").err().unwrap().contains("Can't put the object"));
    assert!(Emu::from_str("ν70000(𝜋) ↦ ⟦𝜑↦ν2(𝜋)⟧").err().unwrap().contains("Can't put the object"));
    assert!(Emu::from_str("ν0(𝜋) ↦ ⟦λ↦nothing⟧").err().unwrap().contains("Unknown lambda"));
}

#[test]
fn puts_objects_into_the_table() {
    let mut emu = Emu::empty();
    assert!(emu.put(2, Object::dataic(7)));
    assert!(!emu.put(2, Object::dataic(8)));
    assert!(emu.put(0, Object::open()));
    assert!(emu.put(0, Object::dataic(9)));
    assert!(!emu.put(65536, Object::dataic(1)));
    assert_eq!(3, emu.objects.len());
    assert_eq!((9, 1), emu.dataize().unwrap());
}

#[test]
fn ticks_once_more_without_change() {
    let mut emu = Emu::from_str("ν0(𝜋) ↦ ⟦ 𝜑 ↦ ν1(𝜋) ⟧\nν1(𝜋) ↦ ⟦ Δ ↦ 0x0054 ⟧").unwrap();
    assert!(emu.dataize().is_ok());
    assert!(!emu.cycle().unwrap());
    assert_eq!(Some(84), emu.result());
}

#[test]
fn never_ends_a_ring_of_waiting_slots() {
    let mut emu = Emu::from_str("ν0(𝜋) ↦ ⟦ 𝜑 ↦ ν1(𝜋) ⟧\nν1(𝜋) ↦ ⟦ 𝜑 ↦ ν0(𝜋) ⟧").unwrap();
    emu.baskets.push(phie::basket::Basket::from_str("[ν0, ξ:β0, 𝜑⇉β1.𝜑]").unwrap());
    emu.baskets.push(phie::basket::Basket::from_str("[ν1, ξ:β0, 𝜑⇉β0.𝜑]").unwrap());
    let before = emu.snapshot();
    assert_eq!(Ok(false), emu.cycle());
    assert_eq!(before, emu.snapshot());
    assert_eq!(None, emu.result());
}

#[test]
fn takes_no_more_ticks_than_slots_allow() {
    let mut emu = Emu::from_str(
        "
        ν0(𝜋) ↦ ⟦ 𝜑 ↦ ν1(𝜋) ⟧
        ν1(𝜋) ↦ ⟦ λ ↦ int-add, ρ ↦ ν2(𝜋), 𝛼0 ↦ ν3(𝜋) ⟧
        ν2(𝜋) ↦ ⟦ Δ ↦ 0x0003 ⟧
        ν3(𝜋) ↦ ⟦ Δ ↦ 0x0002 ⟧
        ",
    )
    .unwrap();
    let (d, cycles) = emu.dataize().unwrap();
    assert_eq!(5, d);
    let slots: usize = emu.baskets.iter().map(|b| b.kids.len()).sum();
    assert_eq!(4, emu.baskets.len());
    assert_eq!(6, slots);
    assert!(cycles <= 4 * slots);
    assert_eq!(12, cycles);
}

#[test]
fn turns_a_message_into_an_error() {
    let err = Error::from("nothing".to_string());
    assert_eq!(Error::EmuFromStrFailed("nothing".to_string()), err);
    assert_eq!("EmuFromStrFailed: nothing", err.to_string());
    assert_eq!(
        "ObjectFromStrFailed: x",
        Error::ObjectFromStrFailed("x".to_string()).to_string()
    );
    assert_eq!(
        "BasketFromStrFailed: y",
        Error::BasketFromStrFailed("y".to_string()).to_string()
    );
    assert_eq!("Too many baskets", Failure::ArenaFull.to_string());
}

#[test]
fn prints_and_parses_fibonacci_program() {
    let code = "ν0(𝜋) ↦ ⟦𝜑↦ν2(𝜋)⟧
ν1(𝜋) ↦ ⟦Δ↦0x0007⟧
ν2(𝜋) ↦ ⟦𝛼0↦ν1(𝜋), 𝜑↦ν3(ξ)⟧
ν3(𝜋) ↦ ⟦𝜑↦ν13(𝜋)⟧
ν5(𝜋) ↦ ⟦Δ↦0x0002⟧
ν6(𝜋) ↦ ⟦λ↦int-sub, ρ↦𝜋.𝜋.𝛼0, 𝛼0↦ν5(𝜋)⟧
ν13(𝜋) ↦ ⟦λ↦bool-if, ρ↦ν12(𝜋), 𝛼0↦ν7(𝜋), 𝛼1↦ν11(𝜋)⟧";
    let emu = Emu::from_str(code).unwrap();
    assert_eq!(14, emu.objects.len());
    assert_eq!(code, emu.to_string());
}

#[test]
fn keeps_every_basket_wired() {
    let mut emu = Emu::from_str(
        "
        ν0(𝜋) ↦ ⟦ 𝜑 ↦ ν1(𝜋) ⟧
        ν1(𝜋) ↦ ⟦ λ ↦ bool-if, ρ ↦ ν2(𝜋), 𝛼0 ↦ ν3(ξ), 𝛼1 ↦ ν2(𝜋) ⟧
        ν2(𝜋) ↦ ⟦ Δ ↦ 0x0001 ⟧
        ν3(𝜋) ↦ ⟦ λ ↦ int-neg, ρ ↦ 𝜋.𝛼1 ⟧
        ",
    )
    .unwrap();
    emu.opt(Opt::StopWhenTooManyCycles);
    emu.opt(Opt::StopWhenStuck);
    assert_eq!(-1, emu.dataize().unwrap().0);
    for basket in emu.baskets.iter() {
        assert!(basket.ob < emu.objects.len());
        assert!(0 <= basket.psi && (basket.psi as usize) < emu.baskets.len());
        for loc in [Loc::Phi, Loc::Rho, Loc::Attr(0), Loc::Attr(1)] {
            if let Some(Kid::Wait(bk, slot)) = basket.kids.get(&loc) {
                assert!(emu.baskets[*bk as usize].kids.contains_key(slot));
            }
        }
    }
    assert_eq!("[ν3, ξ:β1, ρ⇶0x0001, 𝜑⇶0xFFFF]", emu.baskets[3].to_string());
}

#[test]
fn keeps_the_kind_of_what_was_not_understood() {
    assert!(matches!(Emu::parse("x"), Err(Error::EmuFromStrFailed(m)) if m.contains("'x'")));
    assert!(matches!(
        Object::parse("x"),
        Err(Error::ObjectFromStrFailed(m)) if m == "Can't parse object format in 'x'"
    ));
    assert!(matches!(
        phie::basket::Basket::parse("x"),
        Err(Error::BasketFromStrFailed(m)) if m == "Can't parse the basket: 'x'"
    ));
    assert_eq!(Some(1), Object::parse("⟦Δ↦0x0001⟧").ok().unwrap().delta);
    assert_eq!(7, phie::basket::Basket::parse("[ν7, ξ:β0]").ok().unwrap().ob);
    assert_eq!(1, Emu::parse("ν0(𝜋) ↦ ⟦Δ↦0x0001⟧").ok().unwrap().objects.len());
}
