use heesab::user::User;
use heesab::user::UserError;

#[test]
fn user_test_new_success() {
    let name: &str = "random name";
    let maybe_user: Result<User, UserError> = User::new(name);

    assert!(maybe_user.is_ok());
    let user: User = maybe_user.unwrap();
    assert_eq!(user.get_name().as_str(), name);
}

#[test]
fn test_new_failure() {
    let name: &str = "";
    let maybe_user: Result<User, UserError> = User::new(name);

    assert!(maybe_user.is_err());
    assert_eq!(maybe_user.unwrap_err(), UserError);
}

#[test]
fn test_same_identity_by_name() {
    let a: User = User::new("alex").unwrap();
    let b: User = User::new("alex").unwrap();
    let c: User = User::new("casey").unwrap();
    assert!(a.same_as(&b));
    assert!(!a.same_as(&c));
}
