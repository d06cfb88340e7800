use settlement::entity::money::Money;
use settlement::entity::payment::Payment;
use settlement::entity::person::Person;
use settlement::ledger::Ledger;

fn person(name: &str) -> Person {
    Person::new(name.to_string())
}

fn payment(amount: u32, payer: &str, beneficiaries: Vec<&str>) -> Payment {
    Payment::new(
        Money::new(amount),
        person(payer),
        beneficiaries.into_iter().map(person).collect(),
    )
}

fn lines(ledger: &Ledger) -> Vec<(String, i128)> {
    (0..ledger.len())
        .map(|i| (ledger.person(i).as_inner().clone(), ledger.balance(i)))
        .collect()
}

fn line(name: &str, balance: i128) -> (String, i128) {
    (name.to_string(), balance)
}

fn sum(ledger: &Ledger) -> i128 {
    (0..ledger.len()).map(|i| ledger.balance(i)).sum()
}

#[test]
fn ledger_of_no_payments_is_empty() {
    let ledger = Ledger::from_payments(&vec![]);
    assert_eq!(ledger.len(), 0);
    assert_eq!(ledger.balance_of(&person("A")), 0);
    assert_eq!(Ledger::new().len(), 0);
}

#[test]
fn ledger_credits_payer_and_charges_beneficiary() {
    let ledger = Ledger::from_payments(&vec![payment(100, "A", vec!["B"])]);
    assert_eq!(lines(&ledger), vec![line("A", 100), line("B", -100)]);
}

#[test]
fn ledger_charges_payer_their_own_share() {
    let ledger = Ledger::from_payments(&vec![payment(100, "A", vec!["A", "B"])]);
    assert_eq!(lines(&ledger), vec![line("A", 50), line("B", -50)]);
}

#[test]
fn ledger_charges_remainder_to_last_beneficiary() {
    let ledger = Ledger::from_payments(&vec![payment(100, "A", vec!["B", "C", "D"])]);
    assert_eq!(
        lines(&ledger),
        vec![line("A", 100), line("B", -33), line("C", -33), line("D", -34)]
    );
    assert_eq!(sum(&ledger), 0);
}

#[test]
fn ledger_charges_whole_remainder_to_last_beneficiary() {
    let ledger = Ledger::from_payments(&vec![payment(11, "A", vec!["B", "C", "D", "E"])]);
    assert_eq!(
        lines(&ledger),
        vec![
            line("A", 11),
            line("B", -2),
            line("C", -2),
            line("D", -2),
            line("E", -5),
        ]
    );
}

#[test]
fn ledger_charges_payer_listed_last_the_remainder() {
    let ledger = Ledger::from_payments(&vec![payment(100, "A", vec!["B", "C", "A"])]);
    assert_eq!(lines(&ledger), vec![line("A", 66), line("B", -33), line("C", -33)]);
}

#[test]
fn ledger_charges_each_listing() {
    let ledger = Ledger::from_payments(&vec![payment(90, "A", vec!["B", "B", "C"])]);
    assert_eq!(lines(&ledger), vec![line("A", 90), line("B", -60), line("C", -30)]);
}

#[test]
fn ledger_charges_remainder_once_to_beneficiary_listed_twice() {
    let ledger = Ledger::from_payments(&vec![payment(100, "A", vec!["B", "C", "B"])]);
    assert_eq!(lines(&ledger), vec![line("A", 100), line("B", -67), line("C", -33)]);
}

#[test]
fn ledger_skips_payment_without_beneficiaries() {
    let ledger = Ledger::from_payments(&vec![
        payment(100, "A", vec![]),
        payment(200, "B", vec!["A", "B"]),
    ]);
    assert_eq!(lines(&ledger), vec![line("B", 100), line("A", -100)]);
}

#[test]
fn ledger_keeps_participants_of_a_payment_of_nothing() {
    let ledger = Ledger::from_payments(&vec![payment(0, "A", vec!["B"])]);
    assert_eq!(lines(&ledger), vec![line("A", 0), line("B", 0)]);
}

#[test]
fn ledger_charges_nothing_when_shares_round_to_nothing() {
    let ledger = Ledger::from_payments(&vec![payment(2, "A", vec!["B", "C", "D"])]);
    assert_eq!(
        lines(&ledger),
        vec![line("A", 2), line("B", 0), line("C", 0), line("D", -2)]
    );
}

#[test]
fn ledger_lists_participants_in_order_of_first_appearance() {
    let ledger = Ledger::from_payments(&vec![
        payment(30, "C", vec!["B", "A", "C"]),
        payment(30, "D", vec!["A", "D", "E"]),
    ]);
    let names: Vec<String> = (0..ledger.len())
        .map(|i| ledger.person(i).as_inner().clone())
        .collect();
    assert_eq!(names, vec!["C", "B", "A", "D", "E"]);
    assert_eq!(
        lines(&ledger),
        vec![
            line("C", 20),
            line("B", -10),
            line("A", -20),
            line("D", 20),
            line("E", -10),
        ]
    );
}

#[test]
fn ledger_balances_sum_to_zero() {
    let group = vec!["A", "B", "C", "D", "E", "F", "G", "H"];
    let ledger = Ledger::from_payments(&vec![
        payment(37009, "A", group.clone()),
        payment(35300, "B", group.clone()),
        payment(7249, "C", group.clone()),
        payment(1, "H", vec!["A", "B", "C"]),
        payment(u32::MAX, "D", vec!["E", "F", "G"]),
    ]);
    assert_eq!(ledger.len(), 8);
    assert_eq!(sum(&ledger), 0);
}

#[test]
fn ledger_balance_of_finds_each_participant() {
    let ledger = Ledger::from_payments(&vec![
        payment(1200, "A", vec!["A", "B"]),
        payment(1200, "B", vec!["A", "B", "C", "D"]),
        payment(1200, "C", vec!["A", "B", "C", "D"]),
        payment(1200, "D", vec!["B", "C", "D"]),
    ]);
    assert_eq!(ledger.balance_of(&person("A")), 0);
    assert_eq!(ledger.balance_of(&person("B")), -400);
    assert_eq!(ledger.balance_of(&person("C")), 200);
    assert_eq!(ledger.balance_of(&person("D")), 200);
    assert_eq!(ledger.balance_of(&person("E")), 0);
}

#[test]
fn ledger_holds_balances_beyond_money() {
    let ledger = Ledger::from_payments(&vec![
        payment(u32::MAX, "A", vec!["B"]),
        payment(u32::MAX, "A", vec!["B"]),
    ]);
    assert_eq!(ledger.balance_of(&person("A")), 2 * (u32::MAX as i128));
    assert_eq!(ledger.balance_of(&person("B")), -2 * (u32::MAX as i128));
    assert!(!ledger.fits_money());
}

#[test]
fn ledger_fits_money_up_to_the_largest_amount() {
    let ledger = Ledger::from_payments(&vec![
        payment(u32::MAX - 1, "A", vec!["B"]),
        payment(1, "A", vec!["B"]),
    ]);
    assert!(ledger.fits_money());
    let over = Ledger::from_payments(&vec![
        payment(u32::MAX, "A", vec!["B"]),
        payment(1, "A", vec!["B"]),
    ]);
    assert!(!over.fits_money());
}

#[test]
fn ledger_ignores_order_of_payments() {
    let first = payment(100, "A", vec!["B", "C", "D"]);
    let second = payment(70, "B", vec!["A", "C"]);
    let third = payment(5, "D", vec!["A", "A", "B"]);
    let one = Ledger::from_payments(&vec![first.clone(), second.clone(), third.clone()]);
    let other = Ledger::from_payments(&vec![third, first, second]);
    for name in ["A", "B", "C", "D", "E"] {
        assert_eq!(one.balance_of(&person(name)), other.balance_of(&person(name)));
    }
}
