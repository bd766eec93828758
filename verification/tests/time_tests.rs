use chrono::DateTime;
use meetingtime::time::{Instant, Span};

#[test]
fn instants_order_by_second_then_nanos() {
    let a = Instant { secs: 10, nanos: 5 };
    let b = Instant { secs: 10, nanos: 6 };
    let c = Instant { secs: 11, nanos: 0 };
    let leap = Instant { secs: 10, nanos: 1_500_000_000 };
    assert!(a.is_before(&b) && b.is_before(&c) && a.is_before(&c));
    assert!(!b.is_before(&a) && !a.is_before(&a));
    assert!(b.is_before(&leap) && leap.is_before(&c));
}

#[test]
fn shift_carries_nanoseconds() {
    let a = Instant { secs: 10, nanos: 900_000_000 };
    assert_eq!(a.shift(Span { nanos: 200_000_000 }), Instant { secs: 11, nanos: 100_000_000 });
    assert_eq!(a.shift(Span { nanos: -1_000_000_000 }), Instant { secs: 9, nanos: 900_000_000 });
    let neg = Instant { secs: -1, nanos: 0 };
    assert_eq!(neg.shift(Span { nanos: -1 }), Instant { secs: -2, nanos: 999_999_999 });
}

#[test]
fn since_measures_back() {
    let a = Instant { secs: 100, nanos: 0 };
    let b = Instant { secs: 160, nanos: 5 };
    assert_eq!(b.since(&a), Span { nanos: 60_000_000_005 });
    assert_eq!(a.since(&b), Span { nanos: -60_000_000_005 });
    let d = Span { nanos: 123_456_789_012 };
    assert_eq!(a.shift(d).since(&a), d);
}

#[test]
fn representable_instants() {
    assert!(Instant { secs: 0, nanos: 0 }.is_representable());
    assert!(Instant { secs: 59, nanos: 1_999_999_999 }.is_representable());
    assert!(!Instant { secs: 58, nanos: 1_000_000_000 }.is_representable());
    assert!(Instant { secs: -1, nanos: 1_000_000_000 }.is_representable());
    assert!(!Instant { secs: meetingtime::time::MAX_TIMESTAMP + 1, nanos: 0 }.is_representable());
    assert!(Instant { secs: meetingtime::time::MIN_TIMESTAMP, nanos: 0 }.is_representable());
    assert_eq!(Instant { secs: -2, nanos: 5 }.total(), -1_999_999_995);
}

#[test]
fn chrono_agrees_on_representable() {
    let min = meetingtime::time::MIN_TIMESTAMP;
    let max = meetingtime::time::MAX_TIMESTAMP;
    for (secs, nanos) in [
        (59i64, 1_500_000_000u32),
        (58, 1_500_000_000),
        (-1, 1_000_000_000),
        (0, 2_000_000_000),
        (min, 0),
        (min - 1, 0),
        (max, 999_999_999),
        (max, 1_999_999_999),
        (max + 1, 0),
    ] {
        let i = Instant { secs, nanos };
        assert_eq!(DateTime::from_timestamp(secs, nanos).is_some(), i.is_representable());
    }
}

#[test]
fn since_and_shift_agree_with_chrono() {
    let base = 1_483_228_800i64; // 2017-01-01T00:00:00Z
    let pairs = [
        ((base + 59, 1_500_000_000u32), (base + 100, 0u32)),
        ((base - 1, 1_500_000_000), (base, 0)),
        ((base + 7200, 5), (base + 3, 999_999_999)),
        ((base - 86_400, 0), (base, 1)),
    ];
    for ((ls, ln), (es, en)) in pairs {
        let later = Instant { secs: ls, nanos: ln };
        let earlier = Instant { secs: es, nanos: en };
        let l = DateTime::from_timestamp(ls, ln).unwrap();
        let e = DateTime::from_timestamp(es, en).unwrap();
        let d = l - e;
        let expected = d.num_seconds() as i128 * 1_000_000_000 + d.subsec_nanos() as i128;
        assert_eq!(later.since(&earlier), Span { nanos: expected });
    }
    for (secs, nanos, add) in [(base, 0u32, 300_000_000_000i128), (base, 999_999_999, 1), (base, 5, -86_400_000_000_010)] {
        let at = Instant { secs, nanos };
        let sum = DateTime::from_timestamp(secs, nanos).unwrap()
            + chrono::Duration::nanoseconds(add as i64);
        let got = at.shift(Span { nanos: add });
        assert_eq!((got.secs, got.nanos), (sum.timestamp(), sum.timestamp_subsec_nanos()));
    }
}
