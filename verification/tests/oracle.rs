use treecopy::oracle::MemoryOracle;

#[test]
fn scripted_oracle_replays_its_readings_in_order() {
    let mut oracle = MemoryOracle::scripted(vec![30, 10, 20]);
    assert_eq!(oracle.free_memory(), 30);
    assert_eq!(oracle.free_memory(), 10);
    assert_eq!(oracle.free_memory(), 20);
}

#[test]
fn scripted_oracle_holds_its_last_reading() {
    let mut oracle = MemoryOracle::scripted(vec![7, 9]);
    assert_eq!(oracle.free_memory(), 7);
    assert_eq!(oracle.free_memory(), 9);
    assert_eq!(oracle.free_memory(), 9);
    assert_eq!(oracle.free_memory(), 9);
}

#[test]
fn empty_script_reads_zero() {
    let mut oracle = MemoryOracle::scripted(Vec::new());
    assert_eq!(oracle.free_memory(), 0);
    assert_eq!(oracle.free_memory(), 0);
}

#[test]
fn system_oracle_answers_every_query() {
    let mut oracle = MemoryOracle::system();
    let first = oracle.free_memory();
    let second = oracle.free_memory();
    assert!(first <= u64::MAX && second <= u64::MAX);
    assert!(matches!(oracle, MemoryOracle::System));
}
