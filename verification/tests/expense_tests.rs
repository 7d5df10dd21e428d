use heesab::expense::Expense;
use heesab::expense::PendingExpense;
use heesab::expense::PendingExpenseError;
use heesab::user::User;

#[test]
fn test_pending_expense_new_success() {
    let name: &str = "random";
    let amount: i64 = 1234;

    let maybe_pending_expense: Result<PendingExpense, PendingExpenseError> =
        PendingExpense::new(name, amount);

    assert!(maybe_pending_expense.is_ok());
    let pending_expense: PendingExpense = maybe_pending_expense.unwrap();
    assert_eq!(pending_expense.get_name().as_str(), name);
    assert_eq!(pending_expense.get_amount(), amount);
}

#[test]
fn test_pending_expense_new_failure_name_is_empty() {
    let name: &str = "";
    let amount: i64 = 1234;

    let maybe_pending_expense: Result<PendingExpense, PendingExpenseError> =
        PendingExpense::new(name, amount);

    assert!(maybe_pending_expense.is_err());
    assert_eq!(maybe_pending_expense.unwrap_err(), PendingExpenseError);
}

#[test]
fn test_pending_expense_new_failure_amount_is_negative() {
    let name: &str = "random";
    let amount: i64 = -1234;

    let maybe_pending_expense: Result<PendingExpense, PendingExpenseError> =
        PendingExpense::new(name, amount);

    assert!(maybe_pending_expense.is_err());
    assert_eq!(maybe_pending_expense.unwrap_err(), PendingExpenseError);
}

#[test]
fn test_pending_expense_add_participant() {
    let mut pending_expense: PendingExpense = PendingExpense::new("random", 1234).unwrap();
    let user_one: User = User::new("user_one").unwrap();
    let user_two: User = User::new("user_two").unwrap();

    pending_expense.add_participant(&user_one);
    assert_eq!(pending_expense.num_participants(), 1);

    pending_expense.add_participant(&user_two);
    assert_eq!(pending_expense.num_participants(), 2);
}

#[test]
fn test_pending_expense_finalize_success() {
    let mut pending_expense: PendingExpense = PendingExpense::new("random", 1234).unwrap();
    let user_one: User = User::new("user_one").unwrap();
    let user_two: User = User::new("user_two").unwrap();
    pending_expense.add_participant(&user_one);
    pending_expense.add_participant(&user_two);

    let maybe_expense: Result<Expense, PendingExpenseError> = pending_expense.finalize();
    assert!(maybe_expense.is_ok());
    let expense: Expense = maybe_expense.unwrap();

    assert_eq!(expense.get_name().as_str(), "random");
    assert_eq!(expense.get_amount(), 1234);
    assert_eq!(expense.num_participants(), 2);
    assert_eq!(expense.get_user_to_amount().len(), 0);
}

#[test]
fn test_pending_expense_finalize_failure_no_participants() {
    let pending_expense: PendingExpense = PendingExpense::new("random", 1234).unwrap();

    let maybe_expense: Result<Expense, PendingExpenseError> = pending_expense.finalize();
    assert!(maybe_expense.is_err());
    assert_eq!(maybe_expense.unwrap_err(), PendingExpenseError);
}

#[test]
fn test_calculate() {
    let mut pending_expense: PendingExpense = PendingExpense::new("random", 1250).unwrap();
    let user_one: User = User::new("user_one").unwrap();
    let user_two: User = User::new("user_two").unwrap();
    pending_expense.add_participant(&user_one);
    pending_expense.add_participant(&user_two);

    let mut expense: Expense = pending_expense.finalize().unwrap();
    expense.calculate();

    assert_eq!(expense.get_user_to_amount().len(), 2);
    assert_eq!(expense.get_user_to_amount().get(&user_one), Some(625));
    assert_eq!(expense.get_user_to_amount().get(&user_two), Some(625));
}

#[test]
fn test_calculate_last_slot_absorbs_drift() {
    // 10.00 over three participants: 3.33 + 3.33 + 3.34 = 10.00.
    let mut pending_expense: PendingExpense = PendingExpense::new("dinner", 1000).unwrap();
    let a: User = User::new("a").unwrap();
    let b: User = User::new("b").unwrap();
    let c: User = User::new("c").unwrap();
    pending_expense.add_participant(&a);
    pending_expense.add_participant(&b);
    pending_expense.add_participant(&c);

    let mut expense: Expense = pending_expense.finalize().unwrap();
    expense.calculate();

    assert_eq!(expense.get_user_to_amount().get(&a), Some(333));
    assert_eq!(expense.get_user_to_amount().get(&b), Some(333));
    assert_eq!(expense.get_user_to_amount().get(&c), Some(334));
}

#[test]
fn test_calculate_duplicate_slots_are_summed() {
    // 10.00 over [a, b, a]: slots 333, 333, 334; a owes 667 in one entry.
    let mut pending_expense: PendingExpense = PendingExpense::new("dinner", 1000).unwrap();
    let a: User = User::new("a").unwrap();
    let b: User = User::new("b").unwrap();
    pending_expense.add_participant(&a);
    pending_expense.add_participant(&b);
    pending_expense.add_participant(&a);

    let mut expense: Expense = pending_expense.finalize().unwrap();
    expense.calculate();

    assert_eq!(expense.get_user_to_amount().len(), 2);
    assert_eq!(expense.get_user_to_amount().get(&a), Some(667));
    assert_eq!(expense.get_user_to_amount().get(&b), Some(333));
}

#[test]
fn test_calculate_single_participant() {
    let mut pending_expense: PendingExpense = PendingExpense::new("solo", 999).unwrap();
    let a: User = User::new("a").unwrap();
    pending_expense.add_participant(&a);

    let mut expense: Expense = pending_expense.finalize().unwrap();
    expense.calculate();

    assert_eq!(expense.get_user_to_amount().get(&a), Some(999));
}

#[test]
fn test_calculate_one_cent_over_two() {
    // The rounded share of 1 cent over two slots is 1 cent; the first
    // slot takes it all and the last slot absorbs the empty remainder.
    let mut pending_expense: PendingExpense = PendingExpense::new("tiny", 1).unwrap();
    let a: User = User::new("a").unwrap();
    let b: User = User::new("b").unwrap();
    pending_expense.add_participant(&a);
    pending_expense.add_participant(&b);

    let mut expense: Expense = pending_expense.finalize().unwrap();
    expense.calculate();

    assert_eq!(expense.get_user_to_amount().get(&a), Some(1));
    assert_eq!(expense.get_user_to_amount().get(&b), Some(0));
}
