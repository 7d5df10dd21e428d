use heesab::amounts::UserAmounts;
use heesab::upserting::Upsertable;
use heesab::user::User;

#[test]
fn test_upsert() {
    let user_one: User = User::new("user_one").unwrap();
    let user_two: User = User::new("user_two").unwrap();

    let mut map_one: UserAmounts = UserAmounts::new();
    map_one.upsert(&user_one, 1230);
    map_one.upsert(&user_two, 4512);

    let mut map_two: UserAmounts = UserAmounts::new();
    map_two.upsert(&user_one, 5400);
    map_two.upsert(&user_two, 6300);

    map_two.upsert_all(&map_one);

    assert_eq!(map_two.get(&user_one), Some(6630));
    assert_eq!(map_two.get(&user_two), Some(10812));
}

#[test]
fn test_single_merge_sums_once() {
    // One merge of {p: 3.00} into {p: 2.00} yields 5.00, not 8.00.
    let p: User = User::new("p").unwrap();

    let mut target: UserAmounts = UserAmounts::new();
    target.upsert(&p, 200);

    let mut source: UserAmounts = UserAmounts::new();
    source.upsert(&p, 300);

    target.upsert_all(&source);

    assert_eq!(target.get(&p), Some(500));
}

#[test]
fn test_merge_inserts_missing_keys() {
    let a: User = User::new("a").unwrap();
    let b: User = User::new("b").unwrap();

    let mut target: UserAmounts = UserAmounts::new();
    target.upsert(&a, 100);

    let mut source: UserAmounts = UserAmounts::new();
    source.upsert(&b, 250);

    target.upsert_all(&source);

    assert_eq!(target.len(), 2);
    assert_eq!(target.get(&a), Some(100));
    assert_eq!(target.get(&b), Some(250));
}

#[test]
fn test_merge_order_does_not_change_sums() {
    let a: User = User::new("a").unwrap();
    let b: User = User::new("b").unwrap();
    let c: User = User::new("c").unwrap();

    let mut map_one: UserAmounts = UserAmounts::new();
    map_one.upsert(&a, 100);
    map_one.upsert(&c, 50);

    let mut map_two: UserAmounts = UserAmounts::new();
    map_two.upsert(&b, 200);
    map_two.upsert(&a, 7);

    let mut first_then_second: UserAmounts = UserAmounts::new();
    first_then_second.upsert_all(&map_one);
    first_then_second.upsert_all(&map_two);

    let mut second_then_first: UserAmounts = UserAmounts::new();
    second_then_first.upsert_all(&map_two);
    second_then_first.upsert_all(&map_one);

    assert_eq!(first_then_second.get(&a), Some(107));
    assert_eq!(first_then_second.get(&b), Some(200));
    assert_eq!(first_then_second.get(&c), Some(50));
    assert_eq!(second_then_first.get(&a), Some(107));
    assert_eq!(second_then_first.get(&b), Some(200));
    assert_eq!(second_then_first.get(&c), Some(50));
}
