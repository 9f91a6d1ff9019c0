use kernel_core::timer::{get_time_ms, get_time_us, set_next_trigger, TimeVal};

#[test]
fn next_trigger_is_one_tick_later() {
    assert_eq!(set_next_trigger(1000), 1000 + 125000);
}

#[test]
fn clock_conversions() {
    assert_eq!(get_time_ms(12_500_000), 1000);
    assert_eq!(get_time_us(125), 10);
    let tv = TimeVal::from_us(3_000_042);
    assert_eq!((tv.sec, tv.usec), (3, 42));
}
