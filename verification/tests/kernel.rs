use procdrift::kernel::{query_step, record_offsets, QueryStep};

#[test]
fn a_successful_query_is_read() {
    assert_eq!(query_step(0, 0, 1000, 4096), QueryStep::Parse);
}

#[test]
fn a_small_buffer_grows_and_then_gives_up() {
    assert_eq!(
        query_step(0, 0xC000_0004, 100_000, 4096),
        QueryStep::Grow(100_000 + 65536)
    );
    assert_eq!(
        query_step(1, 0x8000_0005, 10, 400_000),
        QueryStep::Grow(800_000)
    );
    assert_eq!(
        query_step(4, 0xC000_0023, 10, 1000),
        QueryStep::GiveUp(
            65546,
            "kernel process query remained too large after five attempts (NTSTATUS 0xC0000023)"
                .to_owned()
        )
    );
}

#[test]
fn other_statuses_fail_with_the_status_in_hex() {
    assert_eq!(
        query_step(0, 0xC000_0022, 0, 1000),
        QueryStep::Fail("kernel process query failed (NTSTATUS 0xC0000022)".to_owned())
    );
}

#[test]
fn records_follow_their_next_offsets() {
    let mut bytes = vec![0u8; 64];
    bytes[0] = 16;
    bytes[16] = 24;
    bytes[40] = 0;
    assert_eq!(record_offsets(&bytes, 0, 8), vec![0, 16, 40]);
    assert_eq!(record_offsets(&bytes, 44, 8), vec![0, 16]);
    assert_eq!(record_offsets(&bytes, 4, 8), Vec::<usize>::new());
    bytes[40] = 200;
    assert_eq!(record_offsets(&bytes, 0, 8), vec![0, 16, 40]);
}
