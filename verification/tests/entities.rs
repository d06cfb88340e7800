use settlement::entity::money::Money;
use settlement::entity::payment::Payment;
use settlement::entity::person::Person;
use settlement::entity::repayment::Repayment;

#[test]
fn test_money_new() {
    let amount = 100;
    let money = Money::new(amount);
    assert_eq!(money.amount, amount);
}

#[test]
fn test_money_as_inner() {
    let amount = 100;
    let money = Money::new(amount);
    assert_eq!(money.as_inner(), amount);
}

#[test]
fn test_person_new() {
    let person = Person::new("John".to_string());
    assert_eq!(person.as_inner(), "John");
}

#[test]
fn test_payment_new() {
    let amount = 100;
    let money = Money::new(amount);
    let from = Person::new("John".to_string());
    let to = vec![
        Person::new("Jane".to_string()),
        Person::new("Doe".to_string()),
    ];
    let payment = Payment::new(money.clone(), from.clone(), to.clone());

    assert_eq!(payment.money(), &money);
    assert_eq!(payment.from(), &from);
    assert_eq!(payment.to(), &to);
}

#[test]
fn test_repayment_new() {
    let amount = 100;
    let money = Money::new(amount);
    let from = Person::new("John".to_string());
    let to = Person::new("Jane".to_string());
    let repayment = Repayment::new(money.clone(), from.clone(), to.clone());

    assert_eq!(repayment.money(), &money);
    assert_eq!(repayment.from(), &from);
    assert_eq!(repayment.to(), &to);
}
