use webhook_flows::Method;
use webhook_flows::MethodSet;

#[test]
fn parse_canonical_spellings() {
    assert_eq!(Method::from_bytes(b"GET".as_slice()), Ok(Method::Get));
    assert_eq!(Method::from_bytes(b"HEAD".as_slice()), Ok(Method::Head));
    assert_eq!(Method::from_bytes(b"POST".as_slice()), Ok(Method::Post));
    assert_eq!(Method::from_bytes(b"PUT".as_slice()), Ok(Method::Put));
    assert_eq!(Method::from_bytes(b"DELETE".as_slice()), Ok(Method::Delete));
    assert_eq!(Method::from_bytes(b"OPTIONS".as_slice()), Ok(Method::Options));
    assert_eq!(Method::from_bytes(b"TRACE".as_slice()), Ok(Method::Trace));
    assert_eq!(Method::from_bytes(b"PATCH".as_slice()), Ok(Method::Patch));
}

#[test]
fn parse_is_case_insensitive() {
    assert_eq!(Method::from_bytes(b"get".as_slice()), Ok(Method::Get));
    assert_eq!(Method::from_bytes(b"gEt".as_slice()), Ok(Method::Get));
    assert_eq!(Method::from_bytes(b"post".as_slice()), Ok(Method::Post));
    assert_eq!(Method::from_bytes(b"Patch".as_slice()), Ok(Method::Patch));
    assert_eq!(Method::from_bytes(b"options".as_slice()), Ok(Method::Options));
}

#[test]
fn parse_rejects_unknown_spellings() {
    assert!(Method::from_bytes(b"".as_slice()).is_err());
    assert!(Method::from_bytes(b"GETS".as_slice()).is_err());
    assert!(Method::from_bytes(b"FETCH".as_slice()).is_err());
    assert!(Method::from_bytes(b"G ET".as_slice()).is_err());
    assert!(Method::from_bytes(b"get ".as_slice()).is_err());
}

#[test]
fn method_set_membership() {
    let s = MethodSet::from_methods(vec![Method::Get, Method::Post, Method::Get]);
    assert!(s.contains(Method::Get));
    assert!(s.contains(Method::Post));
    assert!(!s.contains(Method::Put));
    assert!(!s.contains(Method::Delete));

    let single = MethodSet::single(Method::Trace);
    assert!(single.contains(Method::Trace));
    assert!(!single.contains(Method::Get));
}
