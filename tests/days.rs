use euler::days::{count, Date, DayOfWeek};

#[test]
fn first_sundays_of_the_twentieth_century() {
    assert_eq!(count(), 171);
}

#[test]
fn weekdays_from_the_walk() {
    let d = Date::from_without_weekday(1, 1, 1901).unwrap();
    assert_eq!(d.day_of_week, DayOfWeek::Wednesday);
    let d = Date::from_without_weekday(29, 2, 1900).unwrap();
    assert_eq!(d.day_of_week, DayOfWeek::Thursday);
    let d = Date::from_without_weekday(31, 12, 1999).unwrap();
    assert_eq!(d.day_of_week, DayOfWeek::Saturday);
}

#[test]
fn dates_the_calendar_lacks() {
    assert!(Date::from_without_weekday(31, 4, 1950).is_none());
    assert!(Date::from_without_weekday(30, 2, 1904).is_none());
    assert!(Date::from_without_weekday(1, 13, 1950).is_none());
    assert!(Date::from_without_weekday(0, 5, 1950).is_none());
}

#[test]
fn next_date_rolls_over() {
    let d = Date::from(31, 12, 1999, DayOfWeek::Friday).next();
    assert_eq!((d.day, d.month, d.year, d.day_of_week), (1, 1, 2000, DayOfWeek::Saturday));
    let d = Date::from(28, 2, 1901, DayOfWeek::Sunday).next();
    assert_eq!((d.day, d.month, d.year, d.day_of_week), (1, 3, 1901, DayOfWeek::Monday));
}

#[test]
fn dates_compare_by_calendar_order() {
    let a = Date::from(5, 3, 1950, DayOfWeek::Monday);
    let b = Date::from(1, 4, 1950, DayOfWeek::Monday);
    assert!(a < b);
    assert!(b > a);
    let c = Date::from(5, 3, 1950, DayOfWeek::Friday);
    assert_eq!(a.partial_cmp(&c), Some(std::cmp::Ordering::Equal));
}

#[test]
fn date_walk() {
    let mut it = Date::from(30, 1, 1950, DayOfWeek::Monday).into_iter();
    let a = it.next().unwrap();
    let b = it.next().unwrap();
    let c = it.next().unwrap();
    assert_eq!((a.day, a.month), (30, 1));
    assert_eq!((b.day, b.month), (31, 1));
    assert_eq!((c.day, c.month, c.day_of_week), (1, 2, DayOfWeek::Wednesday));
}

#[test]
fn day_of_week_cycles() {
    assert_eq!(DayOfWeek::Sunday.next(), DayOfWeek::Monday);
    assert_eq!(DayOfWeek::first(), DayOfWeek::Monday);
    assert_eq!(DayOfWeek::from_index(3), Some(DayOfWeek::Thursday));
    assert_eq!(DayOfWeek::from_index(7), None);
    assert_eq!(DayOfWeek::Saturday.index(), 5);
}

