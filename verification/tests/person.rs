use settlement::entity::money::Money;
use settlement::entity::payment::Payment;
use settlement::entity::person::Person;
use settlement::entity::repayment::Repayment;

fn person(name: &str) -> Person {
    Person::new(name.to_string())
}

#[test]
fn person_equal_by_name() {
    assert_eq!(person("John"), person("John"));
    assert_ne!(person("John"), person("Jane"));
    assert_ne!(person("John"), person("Joh"));
    assert_eq!(person(""), person(""));
    assert_eq!(person("John").clone(), person("John"));
}

#[test]
fn person_precedes_by_first_difference() {
    assert!(person("A").precedes(&person("B")));
    assert!(!person("B").precedes(&person("A")));
    assert!(person("Jane").precedes(&person("John")));
    assert!(!person("John").precedes(&person("Jane")));
}

#[test]
fn person_precedes_its_extensions() {
    assert!(person("Jo").precedes(&person("John")));
    assert!(!person("John").precedes(&person("Jo")));
    assert!(person("").precedes(&person("A")));
    assert!(!person("A").precedes(&person("")));
}

#[test]
fn person_does_not_precede_itself() {
    assert!(!person("John").precedes(&person("John")));
    assert!(!person("").precedes(&person("")));
}

#[test]
fn person_precedes_by_code_point() {
    assert!(person("Z").precedes(&person("a")));
    assert!(person("a").precedes(&person("é")));
    assert!(person("é").precedes(&person("日本")));
    assert!(person("日本").precedes(&person("😀")));
    assert!(!person("😀").precedes(&person("日本")));
}

#[test]
fn person_precedes_as_strings_compare() {
    let names = [
        "", "A", "B", "Jane", "Jo", "John", "a", "é", "日本", "😀", "\u{ffff}", "\u{10000}",
    ];
    for a in names {
        for b in names {
            assert_eq!(person(a).precedes(&person(b)), a < b, "{:?} before {:?}", a, b);
        }
    }
}

#[test]
fn payment_equal_by_content() {
    let payment = |amount: u32, payer: &str, to: Vec<&str>| {
        Payment::new(
            Money::new(amount),
            person(payer),
            to.into_iter().map(person).collect(),
        )
    };
    assert_eq!(payment(100, "A", vec!["B", "C"]), payment(100, "A", vec!["B", "C"]));
    assert_eq!(payment(100, "A", vec![]), payment(100, "A", vec![]));
    assert_ne!(payment(100, "A", vec!["B", "C"]), payment(101, "A", vec!["B", "C"]));
    assert_ne!(payment(100, "A", vec!["B", "C"]), payment(100, "B", vec!["B", "C"]));
    assert_ne!(payment(100, "A", vec!["B", "C"]), payment(100, "A", vec!["C", "B"]));
    assert_ne!(payment(100, "A", vec!["B", "C"]), payment(100, "A", vec!["B"]));
    assert_ne!(payment(100, "A", vec!["B"]), payment(100, "A", vec!["B", "C"]));
    let first = payment(100, "A", vec!["B", "C"]);
    assert_eq!(first.clone(), first);
}

#[test]
fn repayment_equal_by_content() {
    let repayment = |amount: u32, from: &str, to: &str| {
        Repayment::new(Money::new(amount), person(from), person(to))
    };
    assert_eq!(repayment(100, "A", "B"), repayment(100, "A", "B"));
    assert_ne!(repayment(100, "A", "B"), repayment(99, "A", "B"));
    assert_ne!(repayment(100, "A", "B"), repayment(100, "B", "A"));
    assert_ne!(repayment(100, "A", "B"), repayment(100, "A", "C"));
    let first = repayment(100, "A", "B");
    assert_eq!(first.clone(), first);
}

#[test]
fn money_equal_by_amount() {
    assert_eq!(Money::new(0), Money::new(0));
    assert_ne!(Money::new(0), Money::new(1));
    assert_eq!(Money::new(u32::MAX).as_inner(), u32::MAX);
}
