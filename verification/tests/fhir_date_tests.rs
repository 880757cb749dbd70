use docugen::fhir_date::{deserialize_fhirdate, serialize_fhirdate, FHIRDate};

#[test]
fn test_year() {
    let raw = "2019";
    let expected = FHIRDate {
        year: 2019,
        month: None,
        day: None,
    };
    assert_eq!(expected, deserialize_fhirdate(raw).unwrap());
}

#[test]
fn test_year_month() {
    let raw = "2019-01";
    let expected = FHIRDate {
        year: 2019,
        month: Some(1),
        day: None,
    };
    assert_eq!(expected, deserialize_fhirdate(raw).unwrap());
}

#[test]
fn test_full_date() {
    let raw = "2019-01-23";
    let expected = FHIRDate {
        year: 2019,
        month: Some(1),
        day: Some(23),
    };
    assert_eq!(expected, deserialize_fhirdate(raw).unwrap());
}

#[test]
#[should_panic]
fn test_invalid_date() {
    let raw = "2019-";
    deserialize_fhirdate(raw).unwrap();
}

#[test]
fn test_serialize_year() {
    let s = serialize_fhirdate(&FHIRDate {
        year: 1,
        month: None,
        day: None,
    });

    assert_eq!("0001", &s);
}

#[test]
fn test_serialize_year_month() {
    let s = serialize_fhirdate(&FHIRDate {
        year: 1,
        month: Some(1),
        day: None,
    });

    assert_eq!("0001-01", &s);
}

#[test]
fn test_serialize_full_date() {
    let s = serialize_fhirdate(&FHIRDate {
        year: 1,
        month: Some(1),
        day: Some(1),
    });

    assert_eq!("0001-01-01", &s);
}

#[test]
fn test_date_surrounding_whitespace() {
    let expected = FHIRDate {
        year: 2019,
        month: Some(7),
        day: None,
    };
    assert_eq!(expected, deserialize_fhirdate(" 2019-07\t").unwrap());
}

#[test]
fn test_date_vertical_tab_and_form_feed_trimmed() {
    let expected = FHIRDate {
        year: 2019,
        month: None,
        day: None,
    };
    assert_eq!(expected, deserialize_fhirdate("\u{000B}2019\u{000C}").unwrap());
}

#[test]
fn test_date_unicode_whitespace_trimmed() {
    let expected = FHIRDate {
        year: 2019,
        month: Some(1),
        day: None,
    };
    assert_eq!(
        expected,
        deserialize_fhirdate("\u{00A0}\u{2003}2019-01\u{3000}\u{0085}").unwrap()
    );
}

#[test]
fn test_date_zero_width_space_rejected() {
    assert_eq!(
        Err("invalid date".to_string()),
        deserialize_fhirdate("\u{200B}2019")
    );
}

#[test]
fn test_date_plus_sign_accepted() {
    let expected = FHIRDate {
        year: 2019,
        month: None,
        day: None,
    };
    assert_eq!(expected, deserialize_fhirdate("+2019").unwrap());
}

#[test]
fn test_date_largest_year() {
    let expected = FHIRDate {
        year: 4294967295,
        month: None,
        day: None,
    };
    assert_eq!(expected, deserialize_fhirdate("4294967295").unwrap());
}

#[test]
fn test_date_year_overflow() {
    assert_eq!(
        Err("invalid date".to_string()),
        deserialize_fhirdate("4294967296")
    );
}

#[test]
fn test_date_too_many_parts() {
    assert_eq!(
        Err("invalid date".to_string()),
        deserialize_fhirdate("1-2-3-4")
    );
}

#[test]
fn test_date_not_a_number() {
    assert_eq!(
        Err("invalid date".to_string()),
        deserialize_fhirdate("20a9")
    );
}

#[test]
fn test_serialize_wide_parts_unpadded() {
    let s = serialize_fhirdate(&FHIRDate {
        year: 123456,
        month: Some(123),
        day: None,
    });

    assert_eq!("123456-123", &s);
}
