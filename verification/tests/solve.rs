use settlement::entity::money::Money;
use settlement::entity::payment::Payment;
use settlement::entity::person::Person;
use settlement::entity::repayment::Repayment;
use settlement::solver::{solve, try_solve};

fn payment(amount: u32, payer: &str, beneficiaries: Vec<&str>) -> Payment {
    Payment::new(
        Money::new(amount),
        Person::new(payer.to_string()),
        beneficiaries
            .into_iter()
            .map(|name| Person::new(name.to_string()))
            .collect(),
    )
}

fn repayment(amount: u32, from: &str, to: &str) -> Repayment {
    Repayment::new(
        Money::new(amount),
        Person::new(from.to_string()),
        Person::new(to.to_string()),
    )
}

#[test]
fn solve_single_payment() {
    let repayments = solve(vec![payment(100, "A", vec!["B"])]);
    assert_eq!(repayments, vec![repayment(100, "B", "A")]);
}

#[test]
fn solve_payer_among_beneficiaries() {
    let repayments = solve(vec![payment(100, "A", vec!["A", "B"])]);
    assert_eq!(repayments, vec![repayment(50, "B", "A")]);
}

#[test]
fn solve_split_four_ways() {
    let repayments = solve(vec![payment(2000, "A", vec!["A", "B", "C", "D"])]);
    assert_eq!(
        repayments,
        vec![
            repayment(500, "B", "A"),
            repayment(500, "C", "A"),
            repayment(500, "D", "A"),
        ]
    );
}

#[test]
fn solve_several_payments() {
    let repayments = solve(vec![
        payment(1200, "A", vec!["A", "B"]),
        payment(1200, "B", vec!["A", "B", "C", "D"]),
        payment(1200, "C", vec!["A", "B", "C", "D"]),
        payment(1200, "D", vec!["B", "C", "D"]),
    ]);
    assert_eq!(
        repayments,
        vec![repayment(200, "B", "C"), repayment(200, "B", "D")]
    );
}

#[test]
fn solve_group_of_eight() {
    let group = vec!["A", "B", "C", "D", "E", "F", "G", "H"];
    let repayments = solve(vec![
        payment(37009, "A", group.clone()),
        payment(35300, "B", group.clone()),
        payment(7249, "C", group.clone()),
    ]);
    assert_eq!(
        repayments,
        vec![
            repayment(2695, "C", "B"),
            repayment(9944, "D", "A"),
            repayment(7171, "E", "A"),
            repayment(2773, "E", "B"),
            repayment(9944, "F", "B"),
            repayment(9944, "G", "B"),
            repayment(9950, "H", "A"),
        ]
    );
}

#[test]
fn solve_many_payments() {
    let all = vec!["B", "D", "J", "N", "P", "R", "S", "X", "Y"];
    let repayments = solve(vec![
        payment(200, "D", all.clone()),
        payment(1500, "R", all.clone()),
        payment(2767, "J", all.clone()),
        payment(6100, "X", vec!["B", "D", "N", "P", "R", "X", "Y"]),
        payment(66857, "X", vec!["B", "D", "J", "N", "P", "S", "X", "Y"]),
        payment(690, "Y", all.clone()),
        payment(6160, "Y", all.clone()),
        payment(350, "N", all.clone()),
        payment(330, "N", all.clone()),
        payment(330, "N", all.clone()),
        payment(1400, "N", all.clone()),
    ]);
    assert_eq!(
        repayments,
        vec![
            repayment(10748, "B", "X"),
            repayment(10548, "D", "X"),
            repayment(7110, "J", "X"),
            repayment(8338, "N", "X"),
            repayment(10748, "P", "X"),
            repayment(891, "R", "X"),
            repayment(9877, "S", "X"),
            repayment(3949, "Y", "X"),
        ]
    );
}

#[test]
fn solve_with_payment_of_nothing() {
    let repayments = solve(vec![
        payment(0, "A", vec!["B"]),
        payment(100, "A", vec!["B"]),
    ]);
    assert_eq!(repayments, vec![repayment(100, "B", "A")]);
}

#[test]
fn solve_with_payment_for_nobody() {
    let repayments = solve(vec![
        payment(100, "A", vec![]),
        payment(200, "B", vec!["A", "B"]),
    ]);
    assert_eq!(repayments, vec![repayment(100, "A", "B")]);
}

#[test]
fn solve_payments_that_offset() {
    let repayments = solve(vec![
        payment(100, "A", vec!["B"]),
        payment(100, "B", vec!["A"]),
    ]);
    assert_eq!(repayments, Vec::<Repayment>::new());
}

#[test]
fn solve_equal_amounts_go_by_name() {
    let repayments = solve(vec![
        payment(100, "A", vec!["C", "D"]),
        payment(100, "B", vec!["C", "D"]),
    ]);
    assert_eq!(
        repayments,
        vec![repayment(100, "C", "A"), repayment(100, "D", "B")]
    );
}

#[test]
fn solve_remainder_goes_to_last_beneficiary() {
    let repayments = solve(vec![payment(100, "A", vec!["B", "C", "D"])]);
    assert_eq!(
        repayments,
        vec![
            repayment(33, "B", "A"),
            repayment(33, "C", "A"),
            repayment(34, "D", "A"),
        ]
    );
}

#[test]
fn solve_nothing() {
    assert_eq!(solve(vec![]), Vec::<Repayment>::new());
}

#[test]
fn try_solve_agrees_with_solve() {
    let payments = vec![
        payment(1200, "A", vec!["A", "B"]),
        payment(1200, "B", vec!["A", "B", "C", "D"]),
    ];
    assert_eq!(try_solve(payments.clone()), Some(solve(payments)));
}

#[test]
fn try_solve_refuses_a_balance_beyond_money() {
    let payments = vec![
        payment(u32::MAX, "A", vec!["B"]),
        payment(1, "A", vec!["B"]),
    ];
    assert_eq!(try_solve(payments), None);
}

#[test]
fn try_solve_accepts_the_largest_balance() {
    let payments = vec![
        payment(u32::MAX - 1, "A", vec!["B"]),
        payment(1, "A", vec!["B"]),
    ];
    assert_eq!(
        try_solve(payments),
        Some(vec![repayment(u32::MAX, "B", "A")])
    );
}

fn names(repayments: &[Repayment]) -> Vec<(String, String)> {
    repayments
        .iter()
        .map(|r| (r.from().as_inner().clone(), r.to().as_inner().clone()))
        .collect()
}

fn net_after(payments: &[Payment], repayments: &[Repayment], who: &str) -> i128 {
    let ledger = settlement::ledger::Ledger::from_payments(&payments.to_vec());
    let mut balance = ledger.balance_of(&Person::new(who.to_string()));
    for r in repayments {
        if r.from().as_inner() == who {
            balance += r.money().as_inner() as i128;
        }
        if r.to().as_inner() == who {
            balance -= r.money().as_inner() as i128;
        }
    }
    balance
}

fn sample(seed: u64, people: &[&str], count: usize) -> Vec<Payment> {
    let mut state = seed;
    let mut next = move |bound: u64| {
        state = state
            .wrapping_mul(6364136223846793005)
            .wrapping_add(1442695040888963407);
        (state >> 33) % bound
    };
    let mut payments = Vec::new();
    for _ in 0..count {
        let payer = people[next(people.len() as u64) as usize];
        let listed = next(6) as usize;
        let beneficiaries: Vec<&str> = (0..listed)
            .map(|_| people[next(people.len() as u64) as usize])
            .collect();
        let amount = match next(4) {
            0 => 0,
            1 => next(10) as u32,
            _ => next(100_000) as u32,
        };
        payments.push(payment(amount, payer, beneficiaries));
    }
    payments
}

#[test]
fn solve_settles_every_balance() {
    let people = ["A", "B", "C", "D", "E", "F", "G"];
    for seed in 0..200 {
        let payments = sample(seed, &people, 1 + (seed as usize % 12));
        let repayments = solve(payments.clone());
        for who in people {
            assert_eq!(net_after(&payments, &repayments, who), 0, "seed {}", seed);
        }
    }
}

#[test]
fn solve_transfers_something_between_two() {
    let people = ["A", "B", "C", "D", "E", "F", "G"];
    for seed in 0..200 {
        let repayments = solve(sample(seed, &people, 10));
        for r in &repayments {
            assert!(r.money().as_inner() > 0, "seed {}", seed);
            assert_ne!(r.from(), r.to(), "seed {}", seed);
        }
    }
}

#[test]
fn solve_orders_by_payer_then_payee() {
    let people = ["Bob", "Al", "Alice", "Cy", "bo", "Zed", "Ada", "Bo"];
    for seed in 0..200 {
        let repayments = solve(sample(seed, &people, 15));
        let pairs = names(&repayments);
        for pair in pairs.windows(2) {
            assert!(pair[0] < pair[1], "seed {}: {:?}", seed, pairs);
        }
    }
}

#[test]
fn solve_is_bounded_by_participants() {
    let people = ["A", "B", "C", "D", "E", "F", "G"];
    for seed in 0..200 {
        let repayments = solve(sample(seed, &people, 10));
        assert!(repayments.len() < people.len(), "seed {}", seed);
    }
}

#[test]
fn solve_ignores_order_of_payments() {
    let people = ["A", "B", "C", "D", "E"];
    for seed in 0..100 {
        let payments = sample(seed, &people, 8);
        let mut reversed = payments.clone();
        reversed.reverse();
        let mut rotated = payments.clone();
        rotated.rotate_left(3);
        let expected = solve(payments);
        assert_eq!(solve(reversed), expected, "seed {}", seed);
        assert_eq!(solve(rotated), expected, "seed {}", seed);
    }
}

#[test]
fn solve_twice_gives_the_same() {
    let payments = vec![
        payment(37009, "A", vec!["A", "B", "C", "D"]),
        payment(35300, "B", vec!["C", "D"]),
        payment(7249, "C", vec!["A", "B", "C", "D"]),
    ];
    assert_eq!(solve(payments.clone()), solve(payments));
}

#[test]
fn solve_same_balances_same_repayments() {
    let one = vec![payment(100, "A", vec!["B"]), payment(50, "C", vec!["D"])];
    let other = vec![
        payment(200, "A", vec!["A", "B"]),
        payment(30, "C", vec!["D"]),
        payment(20, "C", vec!["D"]),
    ];
    assert_eq!(solve(one), solve(other));
}

#[test]
fn solve_ignores_idle_payments() {
    let payments = vec![
        payment(1200, "A", vec!["A", "B"]),
        payment(700, "B", vec!["A", "C", "D"]),
    ];
    let expected = solve(payments.clone());
    for place in 0..=payments.len() {
        let mut with_nobody = payments.clone();
        with_nobody.insert(place, payment(500, "C", vec![]));
        assert_eq!(solve(with_nobody), expected);
        let mut with_nothing = payments.clone();
        with_nothing.insert(place, payment(0, "E", vec!["A", "F"]));
        assert_eq!(solve(with_nothing), expected);
    }
}

#[test]
fn solve_only_idle_payments() {
    let repayments = solve(vec![
        payment(100, "A", vec![]),
        payment(0, "B", vec!["A", "C"]),
    ]);
    assert_eq!(repayments, Vec::<Repayment>::new());
}

#[test]
fn solve_payment_to_oneself() {
    assert_eq!(
        solve(vec![payment(100, "A", vec!["A"])]),
        Vec::<Repayment>::new()
    );
}

#[test]
fn solve_two_units_three_ways() {
    let repayments = solve(vec![payment(2, "A", vec!["B", "C", "D"])]);
    assert_eq!(repayments, vec![repayment(2, "D", "A")]);
}

#[test]
fn solve_largest_debtor_pays_largest_creditor_first() {
    let repayments = solve(vec![
        payment(60, "A", vec!["C"]),
        payment(40, "B", vec!["D"]),
        payment(10, "B", vec!["C"]),
    ]);
    assert_eq!(
        repayments,
        vec![
            repayment(60, "C", "A"),
            repayment(10, "C", "B"),
            repayment(40, "D", "B"),
        ]
    );
}

#[test]
fn solve_head_stays_in_front_with_what_remains() {
    let repayments = solve(vec![
        payment(100, "A", vec!["X"]),
        payment(90, "B", vec!["Y"]),
        payment(5, "B", vec!["X"]),
    ]);
    assert_eq!(
        repayments,
        vec![
            repayment(100, "X", "A"),
            repayment(5, "X", "B"),
            repayment(90, "Y", "B"),
        ]
    );
}

#[test]
fn try_solve_of_nothing() {
    assert_eq!(try_solve(vec![]), Some(vec![]));
}

#[test]
fn try_solve_refuses_a_debt_beyond_money() {
    let payments = vec![
        payment(u32::MAX, "A", vec!["C"]),
        payment(u32::MAX, "B", vec!["C"]),
    ];
    assert_eq!(try_solve(payments), None);
}

#[test]
fn try_solve_accepts_offsetting_large_payments() {
    let payments = vec![
        payment(u32::MAX, "A", vec!["B"]),
        payment(u32::MAX, "A", vec!["B"]),
        payment(u32::MAX, "B", vec!["A"]),
    ];
    assert_eq!(
        try_solve(payments),
        Some(vec![repayment(u32::MAX, "B", "A")])
    );
}
