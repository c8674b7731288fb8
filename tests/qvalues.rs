use composite::qvalues::{MatchPrecedent, QualitySorter, QualityValue};

#[test]
fn qvalues_it_works() {
    let qsorter =
        QualitySorter::new("*/*;q=0,text/*,image/svg+xml;q=0.5;uselessdata;useless=data", true);
    println!("qsorter 1: {:#?}", qsorter);
    assert_eq!(qsorter.allows("image/jpeg"), false);
    assert_eq!(qsorter.allows("text/html"), true);
    assert_eq!(qsorter.allows("image/svg+xml"), true);

    assert_eq!(qsorter.negotiate(&["image/svg+xml", "text/plain"]), Some("text/plain"));
    assert_eq!(qsorter.negotiate(&["text/plain", "image/svg+xml"]), Some("text/plain"));
    assert_eq!(qsorter.negotiate(&["image/svg+xml", "image/jpeg"]), Some("image/svg+xml"));

    let qsorter = QualitySorter::new("text/*,image/svg+xml;q=0.5;uselessdata;useless=data", true);
    println!("qsorter 2: {:#?}", qsorter);
    assert_eq!(qsorter.allows("image/jpeg"), true);
    assert_eq!(qsorter.allows("text/html"), true);
    assert_eq!(qsorter.allows("image/svg+xml"), true);

    assert_eq!(qsorter.negotiate(&["image/svg+xml", "text/plain"]), Some("text/plain"));
    assert_eq!(qsorter.negotiate(&["text/plain", "image/svg+xml"]), Some("text/plain"));
    // What no entry names weighs the full 1000 when the wildcard is implicit,
    // more than the 500 of the svg entry.
    assert_eq!(qsorter.negotiate(&["image/svg+xml", "image/jpeg"]), Some("image/jpeg"));

    let qsorter = QualitySorter::new("text/*,image/svg+xml;q=0.5;uselessdata;useless=data", false);
    println!("qsorter 3: {:#?}", qsorter);
    assert_eq!(qsorter.allows("image/jpeg"), false);
    assert_eq!(qsorter.allows("text/html"), true);
    assert_eq!(qsorter.allows("image/svg+xml"), true);

    assert_eq!(qsorter.negotiate(&["image/svg+xml", "text/plain"]), Some("text/plain"));
    assert_eq!(qsorter.negotiate(&["text/plain", "image/svg+xml"]), Some("text/plain"));
    assert_eq!(qsorter.negotiate(&["image/svg+xml", "image/jpeg"]), Some("image/svg+xml"));

    let qsorter = QualitySorter::new(
        "text/*,image/svg+xml;q=0.5;uselessdata;useless=data,*/*;q=0.11111111111",
        false,
    );
    println!("qsorter 4: {:#?}", qsorter);
    assert_eq!(qsorter.allows("image/jpeg"), true);
    assert_eq!(qsorter.allows("text/html"), true);
    assert_eq!(qsorter.allows("image/svg+xml"), true);

    assert_eq!(qsorter.negotiate(&["image/svg+xml", "text/plain"]), Some("text/plain"));
    assert_eq!(qsorter.negotiate(&["text/plain", "image/svg+xml"]), Some("text/plain"));
    assert_eq!(qsorter.negotiate(&["image/svg+xml", "image/jpeg"]), Some("image/svg+xml"));
}

#[test]
fn negotiator_scenario() {
    let qsorter = QualitySorter::new("*/*;q=0,text/*,image/svg+xml;q=0.5", true);
    assert!(!qsorter.allows("image/jpeg"));
    assert!(qsorter.allows("text/html"));
    assert!(qsorter.allows("image/svg+xml"));
    assert_eq!(qsorter.negotiate(&["image/svg+xml", "text/plain"]), Some("text/plain"));
}

#[test]
fn negotiate_nothing_admitted() {
    let qsorter = QualitySorter::new("image/*, image/jpeg;q=0", false);
    assert_eq!(qsorter.negotiate(&["text/html", "application/json"]), None);
    assert_eq!(qsorter.negotiate(&[]), None);
    // The first entry that names a candidate decides.
    assert_eq!(qsorter.quality_of("image/jpeg"), (1000, MatchPrecedent::Wildcard));
    let qsorter = QualitySorter::new("image/jpeg;q=0, image/*", false);
    assert_eq!(qsorter.quality_of("image/jpeg"), (0, MatchPrecedent::Exact));
    assert_eq!(qsorter.negotiate(&["image/jpeg"]), None);
    assert_eq!(qsorter.negotiate(&["image/jpeg", "image/png"]), Some("image/png"));
}

#[test]
fn negotiate_first_among_equals() {
    let qsorter = QualitySorter::new("text/html, application/json", false);
    assert_eq!(qsorter.negotiate(&["application/json", "text/html"]), Some("application/json"));
}

#[test]
fn quality_values_parsed() {
    let qsorter = QualitySorter::new(
        "a;q=0.5, b;q=0.25, c;q=0.125, d;q=0.0625, e;q=0, f;q=1, g;q=0., h;q=2, i ; q = 0.7 ",
        false,
    );
    assert_eq!(qsorter.quality_of("a"), (500, MatchPrecedent::Exact));
    assert_eq!(qsorter.quality_of("b"), (250, MatchPrecedent::Exact));
    assert_eq!(qsorter.quality_of("c"), (125, MatchPrecedent::Exact));
    assert_eq!(qsorter.quality_of("d"), (62, MatchPrecedent::Exact));
    assert_eq!(qsorter.quality_of("e"), (0, MatchPrecedent::Exact));
    assert_eq!(qsorter.quality_of("f"), (1000, MatchPrecedent::Exact));
    assert_eq!(qsorter.quality_of("g"), (1000, MatchPrecedent::Exact));
    assert_eq!(qsorter.quality_of("h"), (1000, MatchPrecedent::Exact));
    assert_eq!(qsorter.quality_of("i"), (700, MatchPrecedent::Exact));
    assert_eq!(qsorter.quality_of("z"), (0, MatchPrecedent::Unmatched));
}

#[test]
fn wildcard_entries_set_the_default() {
    let qsorter = QualitySorter::new("*;q=0.3", false);
    assert_eq!(qsorter.quality_of("gzip"), (300, MatchPrecedent::Wildcard));
    let qsorter = QualitySorter::new("", true);
    assert_eq!(qsorter.quality_of("gzip"), (1000, MatchPrecedent::Wildcard));
    let qsorter = QualitySorter::new("", false);
    assert!(!qsorter.allows("gzip"));
}

#[test]
fn ordered_preferences_by_weight() {
    let qsorter = QualitySorter::new("en;q=0.8, fr;q=0, de, it;q=0.5, es;q=0.8, nl;q=0", false);
    let ordered = qsorter.ordered_preferences();
    assert_eq!(ordered.allowed, vec!["it".to_string(), "en".to_string(), "es".to_string(), "de".to_string()]);
    assert_eq!(ordered.disallowed, vec!["fr".to_string(), "nl".to_string()]);
    assert!(!ordered.any_allowed);
    let ordered = QualitySorter::new("*", false).ordered_preferences();
    assert!(ordered.any_allowed);
    assert!(ordered.allowed.is_empty());
}

#[test]
fn value_matching() {
    let v = QualityValue::new("text/*".to_string(), 300);
    assert_eq!(v.quality(), 300);
    assert_eq!(v.value(), "text/*");
    assert_eq!(v.value_matches("text/html"), MatchPrecedent::Wildcard);
    assert_eq!(v.value_matches("image/png"), MatchPrecedent::Unmatched);
    let v = QualityValue::new("text/html".to_string(), 1000);
    assert_eq!(v.value_matches("text/html"), MatchPrecedent::Exact);
    assert_eq!(v.value_matches("text/htm"), MatchPrecedent::Unmatched);
    assert!(MatchPrecedent::Exact.is_above(&MatchPrecedent::Wildcard));
    assert!(!MatchPrecedent::Unmatched.is_above(&MatchPrecedent::Wildcard));
}

#[test]
fn quality_values_compare_by_weight() {
    let a = QualityValue::new("text/html".to_string(), 500);
    let b = QualityValue::new("image/png".to_string(), 500);
    let c = QualityValue::new("text/html".to_string(), 900);
    assert!(a == b);
    assert!(a != c);
    assert!(a < c);
    assert_eq!(b.partial_cmp(&a), Some(std::cmp::Ordering::Equal));
    assert_eq!(c.partial_cmp(&a), Some(std::cmp::Ordering::Greater));
}
