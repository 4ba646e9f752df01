use rbc::stats::Counters;

#[test]
fn counters_add_up_and_render_in_order() {
    let mut c = Counters::new();
    c.inc("nodes", None, 5);
    c.inc("cut", Some(2), 1);
    c.inc("nodes", None, 7);
    c.inc("cut", None, -3);
    c.inc("cut", Some(-1), 4);
    assert_eq!(c.get("nodes", None), 12);
    assert_eq!(c.get("cut", Some(2)), 1);
    assert_eq!(c.get("missing", None), 0);
    assert_eq!(
        c.render(),
        "       -3 cut\n        4 cut[-1]\n        1 cut[2]\n       12 nodes\n"
    );
}

#[test]
fn wide_values_are_not_cut() {
    let mut c = Counters::new();
    c.inc("big", None, 1234567890123);
    c.inc("a", Some(0), i64::MIN);
    assert_eq!(c.render(), "-9223372036854775808 a[0]\n1234567890123 big\n");
}

#[test]
fn no_counters_render_empty() {
    assert_eq!(Counters::new().render(), "");
}
