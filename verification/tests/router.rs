use melonds_rollback::router::Router;

#[test]
fn serials_count_up_and_wrap() {
    let mut router: Router<char> = Router::new();
    assert_eq!(router.take_serial(), 0);
    assert_eq!(router.take_serial(), 1);
    assert_eq!(router.route(0), None);
    router.next = usize::MAX;
    assert_eq!(router.take_serial(), usize::MAX);
    assert_eq!(router.take_serial(), 0);
}

#[test]
fn tokens_carry_serial_and_seat() {
    assert_eq!(Router::<char>::token(0, 0), 0);
    assert_eq!(Router::<char>::token(0, 1), 1);
    assert_eq!(Router::<char>::token(5, 0), 10);
    assert_eq!(Router::<char>::token(5, 1), 11);
}

#[test]
fn only_the_current_link_routes() {
    let mut router = Router::new();
    router.install(3, 'a');
    assert_eq!(router.route(6), Some((&'a', 0)));
    assert_eq!(router.route(7), Some((&'a', 1)));
    assert_eq!(router.route(8), None);
    assert_eq!(router.route(5), None);
    router.install(4, 'b');
    assert_eq!(router.route(7), None);
    assert_eq!(router.route(9), Some((&'b', 1)));
}

#[test]
fn a_stale_link_ends_without_cutting_off_the_live_one() {
    let mut router = Router::new();
    let stale = router.take_serial();
    router.install(stale, 'a');
    let live = router.take_serial();
    router.install(live, 'b');
    router.retire(stale);
    assert_eq!(router.route(Router::<char>::token(live, 0)), Some((&'b', 0)));
    assert_eq!(router.route(Router::<char>::token(stale, 0)), None);
    router.retire(live);
    assert_eq!(router.route(Router::<char>::token(live, 0)), None);
    router.retire(live);
    assert_eq!(router.current, None);
}
