use heesab::expense::Expense;
use heesab::expense::PendingExpense;
use heesab::split::Split;
use heesab::split::SplitError;
use heesab::user::User;

#[test]
fn split_test_new_success() {
    let user_one: User = User::new("user_one").unwrap();
    let user_two: User = User::new("user_two").unwrap();

    let mut pending_expense_one: PendingExpense =
        PendingExpense::new("pending_expense_one", 550).unwrap();
    let mut pending_expense_two: PendingExpense =
        PendingExpense::new("pending_expense_two", 725).unwrap();

    pending_expense_one.add_participant(&user_one);
    pending_expense_one.add_participant(&user_two);
    let expense_one: Expense = pending_expense_one.finalize().unwrap();

    pending_expense_two.add_participant(&user_two);
    let expense_two: Expense = pending_expense_two.finalize().unwrap();

    let expenses: Vec<Expense> = vec![expense_one, expense_two];
    let tax: i64 = 220;
    let tip: i64 = 345;

    let maybe_split: Result<Split, SplitError> = Split::new(expenses, tax, tip);

    assert!(maybe_split.is_ok());
    let split: Split = maybe_split.unwrap();
    assert_eq!(split.num_expenses(), 2);
    assert_eq!(split.get_subtotal(), 1275);
    assert_eq!(split.get_tax(), 220);
    assert_eq!(split.get_tip(), 345);
    assert_eq!(split.get_total(), 1840);
    assert_eq!(split.get_user_subtotals().len(), 0);
    assert_eq!(split.get_user_taxes().len(), 0);
    assert_eq!(split.get_user_tips().len(), 0);
    assert_eq!(split.get_user_totals().len(), 0);
}

#[test]
fn test_new_failure_expenses_empty() {
    let tax: i64 = 220;
    let tip: i64 = 345;

    let maybe_split: Result<Split, SplitError> = Split::new(Vec::new(), tax, tip);
    assert!(maybe_split.is_err());
    assert_eq!(maybe_split.unwrap_err(), SplitError);
}

#[test]
fn test_new_failure_tip_is_negative() {
    let user_one: User = User::new("user_one").unwrap();
    let user_two: User = User::new("user_two").unwrap();

    let mut pending_expense_one: PendingExpense =
        PendingExpense::new("pending_expense_one", 550).unwrap();
    let mut pending_expense_two: PendingExpense =
        PendingExpense::new("pending_expense_two", 725).unwrap();

    pending_expense_one.add_participant(&user_one);
    pending_expense_one.add_participant(&user_two);
    let expense_one: Expense = pending_expense_one.finalize().unwrap();

    pending_expense_two.add_participant(&user_two);
    let expense_two: Expense = pending_expense_two.finalize().unwrap();

    let expenses: Vec<Expense> = vec![expense_one, expense_two];
    let tax: i64 = -220;
    let tip: i64 = 345;

    let maybe_split: Result<Split, SplitError> = Split::new(expenses, tax, tip);
    assert!(maybe_split.is_err());
    assert_eq!(maybe_split.unwrap_err(), SplitError);
}

#[test]
fn test_new_failure_tax_is_negative() {
    let user_one: User = User::new("user_one").unwrap();
    let user_two: User = User::new("user_two").unwrap();

    let mut pending_expense_one: PendingExpense =
        PendingExpense::new("pending_expense_one", 550).unwrap();
    let mut pending_expense_two: PendingExpense =
        PendingExpense::new("pending_expense_two", 725).unwrap();

    pending_expense_one.add_participant(&user_one);
    pending_expense_one.add_participant(&user_two);
    let expense_one: Expense = pending_expense_one.finalize().unwrap();

    pending_expense_two.add_participant(&user_two);
    let expense_two: Expense = pending_expense_two.finalize().unwrap();

    let expenses: Vec<Expense> = vec![expense_one, expense_two];
    let tax: i64 = 220;
    let tip: i64 = -345;

    let maybe_split: Result<Split, SplitError> = Split::new(expenses, tax, tip);
    assert!(maybe_split.is_err());
    assert_eq!(maybe_split.unwrap_err(), SplitError);
}

#[test]
fn test_process() {
    let user_one: User = User::new("user_one").unwrap();
    let user_two: User = User::new("user_two").unwrap();

    let mut pending_expense_one: PendingExpense =
        PendingExpense::new("pending_expense_one", 550).unwrap();
    let mut pending_expense_two: PendingExpense =
        PendingExpense::new("pending_expense_two", 725).unwrap();

    pending_expense_one.add_participant(&user_one);
    pending_expense_one.add_participant(&user_two);
    let mut expense_one: Expense = pending_expense_one.finalize().unwrap();
    expense_one.calculate();

    pending_expense_two.add_participant(&user_two);
    let mut expense_two: Expense = pending_expense_two.finalize().unwrap();
    expense_two.calculate();

    let expenses: Vec<Expense> = vec![expense_one, expense_two];
    let tax: i64 = 220;
    let tip: i64 = 345;

    let mut split: Split = Split::new(expenses, tax, tip).unwrap();
    let totals = split.process();

    assert_eq!(split.get_subtotal(), 1275);
    assert_eq!(split.get_total(), 1840);

    assert_eq!(split.get_user_subtotals().get(&user_one), Some(275));
    assert_eq!(split.get_user_subtotals().get(&user_two), Some(1000));

    assert_eq!(split.get_user_taxes().get(&user_one), Some(47));
    assert_eq!(split.get_user_taxes().get(&user_two), Some(173));

    assert_eq!(split.get_user_tips().get(&user_one), Some(74));
    assert_eq!(split.get_user_tips().get(&user_two), Some(271));

    assert_eq!(split.get_user_totals().get(&user_one), Some(396));
    assert_eq!(split.get_user_totals().get(&user_two), Some(1444));

    assert_eq!(totals.get(&user_one), Some(396));
    assert_eq!(totals.get(&user_two), Some(1444));

    // Tax and tip pools are conserved exactly.
    assert_eq!(47 + 173, 220);
    assert_eq!(74 + 271, 345);
}

#[test]
fn test_process_zero_weight_gets_zero_share() {
    // 0.01 over [a, b]: a owes 1 cent, b owes 0; b's weight is 0, so b
    // gets no tax share and a absorbs the whole pool.
    let a: User = User::new("a").unwrap();
    let b: User = User::new("b").unwrap();

    let mut pending: PendingExpense = PendingExpense::new("tiny", 1).unwrap();
    pending.add_participant(&a);
    pending.add_participant(&b);
    let mut expense: Expense = pending.finalize().unwrap();
    expense.calculate();

    let mut split: Split = Split::new(vec![expense], 100, 0).unwrap();
    let _ = split.process();

    assert_eq!(split.get_user_subtotals().get(&a), Some(1));
    assert_eq!(split.get_user_subtotals().get(&b), Some(0));
    assert_eq!(split.get_user_taxes().get(&a), Some(100));
    assert_eq!(split.get_user_taxes().get(&b), Some(0));
    assert_eq!(split.get_user_totals().get(&a), Some(101));
    assert_eq!(split.get_user_totals().get(&b), Some(0));
}

#[test]
fn test_process_zero_subtotal_gives_no_shares() {
    // With a zero subtotal there are no positive weights: every share
    // is zero, deterministically.
    let a: User = User::new("a").unwrap();

    let mut pending: PendingExpense = PendingExpense::new("free", 0).unwrap();
    pending.add_participant(&a);
    let mut expense: Expense = pending.finalize().unwrap();
    expense.calculate();

    let mut split: Split = Split::new(vec![expense], 100, 50).unwrap();
    let _ = split.process();

    assert_eq!(split.get_user_subtotals().get(&a), Some(0));
    assert_eq!(split.get_user_taxes().get(&a), Some(0));
    assert_eq!(split.get_user_tips().get(&a), Some(0));
    assert_eq!(split.get_user_totals().get(&a), Some(0));
}

#[test]
fn test_allocate_proportional_even_weights() {
    let a: User = User::new("a").unwrap();
    let b: User = User::new("b").unwrap();
    let c: User = User::new("c").unwrap();

    let mut weights: heesab::amounts::UserAmounts = heesab::amounts::UserAmounts::new();
    weights.upsert(&a, 500);
    weights.upsert(&b, 500);
    weights.upsert(&c, 500);

    let shares = Split::allocate_proportional(100, &weights, 1500);

    // 100 * 500 / 1500 = 33.33 rounds to 33; the last participant
    // absorbs the remainder, so the pool is conserved exactly.
    assert_eq!(shares.get(&a), Some(33));
    assert_eq!(shares.get(&b), Some(33));
    assert_eq!(shares.get(&c), Some(34));
}
