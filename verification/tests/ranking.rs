use settlement::entity::money::Money;
use settlement::entity::payment::Payment;
use settlement::entity::person::Person;
use settlement::entity::repayment::Repayment;
use settlement::ledger::Ledger;
use settlement::ranking::{rank, Position};
use settlement::solver::calculate_repayments;

fn person(name: &str) -> Person {
    Person::new(name.to_string())
}

fn payment(amount: u32, payer: &str, beneficiaries: Vec<&str>) -> Payment {
    Payment::new(
        Money::new(amount),
        person(payer),
        beneficiaries.into_iter().map(person).collect(),
    )
}

fn position(name: &str, magnitude: u32) -> Position {
    Position::new(person(name), Money::new(magnitude))
}

fn repayment(amount: u32, from: &str, to: &str) -> Repayment {
    Repayment::new(Money::new(amount), person(from), person(to))
}

#[test]
fn position_new() {
    let p = position("John", 100);
    assert_eq!(p.person(), &person("John"));
    assert_eq!(p.magnitude(), &Money::new(100));
    assert_eq!(p.clone(), p);
    assert_ne!(p, position("John", 101));
    assert_ne!(p, position("Jane", 100));
}

#[test]
fn position_with_larger_amount_outranks() {
    assert!(position("B", 200).outranks(&position("A", 100)));
    assert!(!position("A", 100).outranks(&position("B", 200)));
}

#[test]
fn position_with_equal_amount_outranks_by_name() {
    assert!(position("A", 100).outranks(&position("B", 100)));
    assert!(!position("B", 100).outranks(&position("A", 100)));
    assert!(!position("A", 100).outranks(&position("A", 100)));
}

#[test]
fn rank_splits_creditors_from_debtors() {
    let ledger = Ledger::from_payments(&vec![
        payment(1200, "A", vec!["A", "B"]),
        payment(1200, "B", vec!["A", "B", "C", "D"]),
        payment(1200, "C", vec!["A", "B", "C", "D"]),
        payment(1200, "D", vec!["B", "C", "D"]),
    ]);
    let (creditors, debtors) = rank(&ledger);
    assert_eq!(creditors, vec![position("C", 200), position("D", 200)]);
    assert_eq!(debtors, vec![position("B", 400)]);
}

#[test]
fn rank_puts_larger_amounts_first() {
    let ledger = Ledger::from_payments(&vec![
        payment(10, "A", vec!["X"]),
        payment(30, "B", vec!["Y"]),
        payment(20, "C", vec!["Z"]),
        payment(30, "D", vec!["W"]),
    ]);
    let (creditors, debtors) = rank(&ledger);
    assert_eq!(
        creditors,
        vec![
            position("B", 30),
            position("D", 30),
            position("C", 20),
            position("A", 10),
        ]
    );
    assert_eq!(
        debtors,
        vec![
            position("W", 30),
            position("Y", 30),
            position("Z", 20),
            position("X", 10),
        ]
    );
}

#[test]
fn rank_leaves_out_who_stands_at_zero() {
    let ledger = Ledger::from_payments(&vec![
        payment(100, "A", vec!["B"]),
        payment(100, "B", vec!["A"]),
        payment(0, "C", vec!["D"]),
    ]);
    assert_eq!(ledger.len(), 4);
    let (creditors, debtors) = rank(&ledger);
    assert_eq!(creditors, Vec::<Position>::new());
    assert_eq!(debtors, Vec::<Position>::new());
}

#[test]
fn rank_of_empty_ledger() {
    let (creditors, debtors) = rank(&Ledger::new());
    assert!(creditors.is_empty());
    assert!(debtors.is_empty());
}

#[test]
fn calculate_repayments_without_creditors_or_debtors() {
    assert!(calculate_repayments(&vec![], &vec![]).is_empty());
    assert!(calculate_repayments(&vec![position("A", 5)], &vec![]).is_empty());
    assert!(calculate_repayments(&vec![], &vec![position("A", 5)]).is_empty());
}

#[test]
fn calculate_repayments_equal_heads_both_leave() {
    let repayments = calculate_repayments(
        &vec![position("A", 100), position("B", 100)],
        &vec![position("C", 100), position("D", 100)],
    );
    assert_eq!(
        repayments,
        vec![repayment(100, "C", "A"), repayment(100, "D", "B")]
    );
}

#[test]
fn calculate_repayments_creditor_stays_until_paid() {
    let repayments = calculate_repayments(
        &vec![position("A", 1500)],
        &vec![position("B", 500), position("C", 500), position("D", 500)],
    );
    assert_eq!(
        repayments,
        vec![
            repayment(500, "B", "A"),
            repayment(500, "C", "A"),
            repayment(500, "D", "A"),
        ]
    );
}

#[test]
fn calculate_repayments_debtor_stays_until_paid_up() {
    let repayments = calculate_repayments(
        &vec![position("C", 200), position("D", 200)],
        &vec![position("B", 400)],
    );
    assert_eq!(
        repayments,
        vec![repayment(200, "B", "C"), repayment(200, "B", "D")]
    );
}

#[test]
fn calculate_repayments_in_order_of_matching() {
    let repayments = calculate_repayments(
        &vec![position("A", 17115), position("B", 15406)],
        &vec![
            position("H", 9950),
            position("D", 9944),
            position("E", 9944),
            position("F", 9944),
            position("G", 9944),
            position("C", 2695),
        ],
    );
    assert_eq!(
        repayments,
        vec![
            repayment(9950, "H", "A"),
            repayment(7165, "D", "A"),
            repayment(2779, "D", "B"),
            repayment(9944, "E", "B"),
            repayment(2683, "F", "B"),
        ]
    );
}

#[test]
fn calculate_repayments_stops_at_nothing_to_transfer() {
    let repayments = calculate_repayments(
        &vec![position("A", 10), position("B", 0), position("C", 10)],
        &vec![position("D", 10), position("E", 10)],
    );
    assert_eq!(repayments, vec![repayment(10, "D", "A")]);
}

#[test]
fn calculate_repayments_makes_fewer_transfers_than_positions() {
    let creditors = vec![position("A", 7), position("B", 5), position("C", 3)];
    let debtors = vec![position("D", 6), position("E", 5), position("F", 4)];
    let repayments = calculate_repayments(&creditors, &debtors);
    assert_eq!(
        repayments,
        vec![
            repayment(6, "D", "A"),
            repayment(1, "E", "A"),
            repayment(4, "E", "B"),
            repayment(1, "F", "B"),
            repayment(3, "F", "C"),
        ]
    );
    assert!(repayments.len() <= creditors.len() + debtors.len() - 1);
}
