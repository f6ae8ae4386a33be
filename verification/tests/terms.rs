use chemcat::{ArithmeticOverflow, Tally, Term};

fn elem(name: &str, n: i32) -> Term {
    Term::Elem { name: name.to_string(), n }
}

fn entries(tally: &Tally) -> Vec<(String, i32)> {
    (0..tally.len()).map(|i| (tally.symbol(i).clone(), tally.count(i))).collect()
}

#[test]
fn collapse_multiplies_nested_groups() {
    // Ca(OH)2 with multiplier 3.
    let term = Term::List {
        list: vec![
            elem("Ca", 1),
            Term::List { list: vec![elem("O", 1), elem("H", 1)], n: 2, charge: 0 },
        ],
        n: 1,
        charge: 0,
    };
    let mut tally = Tally::new();
    assert_eq!(term.collapse(&mut tally, 3), Ok(()));
    assert_eq!(
        entries(&tally),
        vec![("Ca".to_string(), 3), ("O".to_string(), 6), ("H".to_string(), 6)]
    );
}

#[test]
fn collapse_adds_to_counts_already_met() {
    // CH3COOH
    let term = Term::List {
        list: vec![
            elem("C", 1),
            elem("H", 3),
            elem("C", 1),
            elem("O", 1),
            elem("O", 1),
            elem("H", 1),
        ],
        n: 1,
        charge: 0,
    };
    let mut tally = Tally::new();
    assert_eq!(term.collapse(&mut tally, 1), Ok(()));
    assert_eq!(
        entries(&tally),
        vec![("C".to_string(), 2), ("H".to_string(), 4), ("O".to_string(), 2)]
    );
}

#[test]
fn collapse_counts_charge_under_its_own_name() {
    // SO4(2-), twice.
    let term = Term::List { list: vec![elem("S", 1), elem("O", 4)], n: 1, charge: -2 };
    let mut tally = Tally::new();
    assert_eq!(term.collapse(&mut tally, 2), Ok(()));
    assert_eq!(
        entries(&tally),
        vec![("S".to_string(), 2), ("O".to_string(), 8), (Term::CHARGE_NAME.to_string(), -4)]
    );
    assert_eq!(Term::CHARGE_NAME, "c");
}

#[test]
fn collapse_does_not_scale_the_charge_by_the_groups_own_coefficient() {
    let term = Term::List { list: vec![elem("X", 1)], n: 5, charge: 1 };
    let mut tally = Tally::new();
    assert_eq!(term.collapse(&mut tally, 2), Ok(()));
    assert_eq!(entries(&tally), vec![("X".to_string(), 10), ("c".to_string(), 2)]);
}

#[test]
fn an_electron_adds_nothing_by_itself() {
    let mut tally = Tally::new();
    assert_eq!(Term::Electron.collapse(&mut tally, 7), Ok(()));
    assert_eq!(tally.len(), 0);
    let wrapped = Term::List { list: vec![Term::Electron], n: 1, charge: -1 };
    assert_eq!(wrapped.collapse(&mut tally, 1), Ok(()));
    assert_eq!(entries(&tally), vec![("c".to_string(), -1)]);
}

#[test]
fn a_group_without_charge_adds_no_charge_entry() {
    let term = Term::List { list: vec![elem("H", 2)], n: 1, charge: 0 };
    let mut tally = Tally::new();
    assert_eq!(term.collapse(&mut tally, 1), Ok(()));
    assert_eq!(entries(&tally), vec![("H".to_string(), 2)]);
}

#[test]
fn collapse_fails_where_a_product_overflows() {
    let term = elem("H", i32::MAX);
    let mut tally = Tally::new();
    assert_eq!(term.collapse(&mut tally, 2), Err(ArithmeticOverflow));
    let nested = Term::List { list: vec![], n: 65536, charge: 0 };
    assert_eq!(nested.collapse(&mut tally, 65536), Err(ArithmeticOverflow));
}

#[test]
fn collapse_fails_where_a_count_overflows() {
    let term = Term::List { list: vec![elem("H", i32::MAX), elem("H", 1)], n: 1, charge: 0 };
    let mut tally = Tally::new();
    assert_eq!(term.collapse(&mut tally, 1), Err(ArithmeticOverflow));
}

#[test]
fn record_leaves_the_tally_as_it_is_on_overflow() {
    let mut tally = Tally::new();
    let h = "H".to_string();
    assert_eq!(tally.record(&h, i32::MAX), Ok(()));
    assert_eq!(tally.record(&h, 1), Err(ArithmeticOverflow));
    assert_eq!(entries(&tally), vec![("H".to_string(), i32::MAX)]);
    assert_eq!(tally.record(&h, -1), Ok(()));
    assert_eq!(tally.count(0), i32::MAX - 1);
    assert_eq!(tally.find(&h), 0);
    assert_eq!(tally.find(&"He".to_string()), 1);
}

#[test]
fn chars_of_copies_every_character() {
    assert_eq!(chemcat::text::chars_of(""), Vec::<char>::new());
    assert_eq!(chemcat::text::chars_of("H\u{2082}O \u{2192}"), vec!['H', '\u{2082}', 'O', ' ', '\u{2192}']);
}
