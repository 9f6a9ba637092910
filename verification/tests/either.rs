use shadow::common::either::{left, right, Either};

#[test]
fn either_from_result_and_back() {
    let ok: Result<u8, &str> = Ok(3);
    let e: Either<u8, &str> = Either::from(ok);
    assert_eq!(e, Either::Left(3));
    let err: Result<u8, &str> = Err("no");
    let e: Either<u8, &str> = Either::from(err);
    assert_eq!(e.right(), Some(&"no"));
    let back: Result<u8, &str> = Result::from(e);
    assert_eq!(back, Err("no"));
    let back: Result<u8, &str> = left::<u8, &str>(7).into();
    assert_eq!(back, Ok(7));
}

#[test]
fn either_sides_and_maps() {
    let mut e: Either<u8, u16> = right(5);
    assert!(e.is_right());
    assert_eq!(e.left(), None);
    if let Some(r) = e.right_mut() {
        *r = 6;
    }
    assert_eq!(e.map_right(|r: u16| r + 1), Either::Right(7));
}
