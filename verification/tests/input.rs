use melonds_rollback::Input;

#[test]
fn keys_lift_the_stylus() {
    let input = Input::keys(0x0f5);
    assert_eq!(input, Input { keys: 0x0f5, touch: None });
}

#[test]
fn touch_holds_no_key() {
    let input = Input::touch(255, 191);
    assert_eq!(input, Input { keys: 0, touch: Some((255, 191)) });
}

#[test]
fn default_input_holds_nothing() {
    assert_eq!(Input::default(), Input { keys: 0, touch: None });
    assert_eq!(Input::default(), Input::keys(0));
}
