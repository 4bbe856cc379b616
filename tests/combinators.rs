use wrong_text_encoding::maptyping::{AddToRes, ForgetValue, SwapRes, WrapInRes};

#[test]
fn wrap_and_swap_results() {
    let ok: Result<u8, &str> = 5u8.in_ok();
    assert_eq!(ok, Ok(5));
    let err: Result<(), u8> = 7u8.in_err();
    assert_eq!(err, Err(7));
    assert_eq!(Ok::<u8, char>(1).swap_res(), Err(1));
    assert_eq!(Err::<u8, char>('x').swap_res(), Ok('x'));
    "gone".to_string().forget_val();
}

#[test]
fn options_become_results() {
    assert_eq!(None::<u8>.with_ok("fine"), Ok("fine"));
    assert_eq!(Some(3u8).with_ok("fine"), Err(3));
    assert_eq!(Some(4u8).with_err("missing"), Ok(4));
    assert_eq!(None::<u8>.with_err("missing"), Err("missing"));
}
