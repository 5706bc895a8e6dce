use hyper_lib::display::{age_parts, clock_parts, Age};

#[test]
fn clock_parts_split() {
    let c = clock_parts(90_061);
    assert_eq!((c.days, c.hours, c.minutes, c.seconds), (1, 1, 1, 1));
    let c = clock_parts(0);
    assert_eq!((c.days, c.hours, c.minutes, c.seconds), (0, 0, 0, 0));
    let c = clock_parts(86_399);
    assert_eq!((c.days, c.hours, c.minutes, c.seconds), (0, 23, 59, 59));
}

#[test]
fn ages() {
    assert_eq!(age_parts(100, 101), Age::Future);
    assert_eq!(age_parts(100, 100), Age::Minutes(0));
    assert_eq!(age_parts(1_000_000, 1_000_000 - 59 * 60 - 59), Age::Minutes(59));
    assert_eq!(age_parts(1_000_000, 1_000_000 - 3 * 3600 - 7 * 60), Age::Hours(3, 7));
    assert_eq!(age_parts(1_000_000, 1_000_000 - 2 * 86400 - 5 * 3600 - 30), Age::Days(2, 5));
}
