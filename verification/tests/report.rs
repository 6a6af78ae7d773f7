use kami_script_runtime_rs::report::is_reported;

#[test]
fn a_run_reports_every_twentieth_tick_and_the_last() {
    let due: Vec<u32> = (0..50).filter(|i| is_reported(*i, 50)).collect();
    assert_eq!(due, vec![0, 20, 40, 49]);
    assert!(is_reported(0, 1));
}
