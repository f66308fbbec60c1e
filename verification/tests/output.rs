use station_agg::pipeline::{backoff_delay_ms, run, should_trigger_merge};

fn output(data: &[u8]) -> String {
    String::from_utf8(run(data, 32)).unwrap()
}

#[test]
fn names_sort_byte_lexicographically() {
    let out = output(b"b;1.0\na;2.0\nB;3.0\nA;4.0");
    assert_eq!(out, "{A=4.0/4.0/4.0, B=3.0/3.0/3.0, a=2.0/2.0/2.0, b=1.0/1.0/1.0}\n");
}

#[test]
fn prefix_sorts_before_extension() {
    let out = output(b"abc;1.0\nab;2.0");
    assert_eq!(out, "{ab=2.0/2.0/2.0, abc=1.0/1.0/1.0}\n");
}

#[test]
fn entries_joined_with_comma_space() {
    let out = output(b"a;1.0\nb;2.0\nc;3.0");
    assert_eq!(out, "{a=1.0/1.0/1.0, b=2.0/2.0/2.0, c=3.0/3.0/3.0}\n");
}

#[test]
fn one_fractional_digit_always_printed() {
    assert_eq!(output(b"x;3.0"), "{x=3.0/3.0/3.0}\n");
    assert_eq!(output(b"x;0.7"), "{x=0.7/0.7/0.7}\n");
    assert_eq!(output(b"x;-0.7"), "{x=-0.7/-0.7/-0.7}\n");
    assert_eq!(output(b"x;12.3"), "{x=12.3/12.3/12.3}\n");
    assert_eq!(output(b"x;-120.3"), "{x=-120.3/-120.3/-120.3}\n");
}

#[test]
fn merge_trigger_fires_on_cadence_when_idle() {
    assert!(should_trigger_merge(128, 0, 1, true));
    assert!(should_trigger_merge(256, 10, 20, true));
    assert!(!should_trigger_merge(127, 0, 1, true));
    assert!(!should_trigger_merge(128, 5, 5, true));
    assert!(!should_trigger_merge(128, 0, 1, false));
}

#[test]
fn backoff_doubles_and_caps() {
    assert_eq!(backoff_delay_ms(0), 1);
    assert_eq!(backoff_delay_ms(1), 2);
    assert_eq!(backoff_delay_ms(3), 8);
    assert_eq!(backoff_delay_ms(10), 1024);
    assert_eq!(backoff_delay_ms(63), 1u64 << 63);
    assert_eq!(backoff_delay_ms(64), 1u64 << 63);
    assert_eq!(backoff_delay_ms(200), 1u64 << 63);
}
