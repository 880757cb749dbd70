use docugen::bundle::{bundle_patients, Bundle, Entry};
use docugen::config::{LogLevel, LoggingConfig};
use docugen::document::TagPair;
use docugen::fhir_date::FHIRDate;
use docugen::parser::document_template;
use docugen::patient::{HumanName, Patient};

#[test]
fn test_string_to_template() {
    let raw = r#"
Dear {{ receiver_name }},

Please find attached \{{{ attachment_name }}\}!

Sincerely,

{{ sender_name }}
{{ sender_title }}
{{ hospital_name }}
"#;

    let template = document_template(raw).unwrap();
    let tag_pairs: &[TagPair] = &vec![
        TagPair {
            key: "receiver_name".to_string(),
            value: "Moon Moon".to_string(),
        },
        TagPair {
            key: "attachment_name".to_string(),
            value: "Word.exe".to_string(),
        },
        TagPair {
            key: "sender_name".to_string(),
            value: "Shiba Inu".to_string(),
        },
        TagPair {
            key: "sender_title".to_string(),
            value: "Professuer of Bepis Studies".to_string(),
        },
        TagPair {
            key: "hospital_name".to_string(),
            value: "Dogeland Hospital".to_string(),
        },
    ];

    let filled_document = template.saturate(tag_pairs).unwrap();
    let actual_filled_content = filled_document.document();

    let expected_filled_content = r#"
Dear Moon Moon,

Please find attached {Word.exe}!

Sincerely,

Shiba Inu
Professuer of Bepis Studies
Dogeland Hospital
"#;

    println!("expected = `{}`", expected_filled_content);
    println!("actual = `{}`", actual_filled_content);

    assert_eq!(expected_filled_content, actual_filled_content);
}

#[test]
fn test_letter_scenario() {
    let raw = "Dear {{ receiver_name }},\n\nPlease find attached \\{{{ attachment_name }}\\}!\n";
    let template = document_template(raw).unwrap();
    let filled = template
        .saturate(&[
            TagPair {
                key: "receiver_name".to_string(),
                value: "Moon Moon".to_string(),
            },
            TagPair {
                key: "attachment_name".to_string(),
                value: "Word.exe".to_string(),
            },
        ])
        .unwrap();

    assert_eq!(
        "Dear Moon Moon,\n\nPlease find attached {Word.exe}!\n",
        filled.document()
    );
}

#[test]
fn test_patient_tag_pairs() {
    let patient = Patient {
        names: vec![HumanName {
            family: "Inu".to_string(),
            given: "Shiba".to_string(),
        }],
        birth_date: FHIRDate {
            year: 1234,
            month: Some(12),
            day: Some(12),
        },
    };

    let pairs = patient.tag_pairs();

    assert_eq!(2, pairs.len());
    assert_eq!("name", &pairs[0].key);
    assert_eq!("Shiba Inu", &pairs[0].value);
    assert_eq!("birth_date", &pairs[1].key);
    assert_eq!("1234-12-12", &pairs[1].value);
}

#[test]
fn test_bundle_patients_flatten() {
    let patient = |year: u32| Patient {
        names: vec![HumanName {
            family: "B".to_string(),
            given: "A".to_string(),
        }],
        birth_date: FHIRDate {
            year,
            month: None,
            day: None,
        },
    };

    let bundles = vec![
        Bundle {
            id: "123".to_string(),
            entries: vec![
                Entry {
                    resource: patient(1),
                },
                Entry {
                    resource: patient(2),
                },
            ],
        },
        Bundle {
            id: "124".to_string(),
            entries: vec![Entry {
                resource: patient(3),
            }],
        },
    ];

    let patients = bundle_patients(bundles);

    assert_eq!(3, patients.len());
    assert_eq!(patient(1), patients[0]);
    assert_eq!(patient(2), patients[1]);
    assert_eq!(patient(3), patients[2]);
}

#[test]
fn test_logging_config_default() {
    assert_eq!(LogLevel::Info, LoggingConfig::default().log_level);
}
