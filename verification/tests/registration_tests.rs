use dao44_config::flash::{
    other_half, parse_env, register_half, upsert_env, BootloaderVolume, FlashConfig, FlashError,
    Half, LEFT_SERIAL_KEY, RIGHT_SERIAL_KEY,
};

fn volume(name: &str, serial: &str) -> BootloaderVolume {
    BootloaderVolume {
        mount: format!("/Volumes/{name}"),
        serial: serial.into(),
    }
}

fn entries(contents: &str) -> Vec<(String, String)> {
    parse_env(contents).unwrap()
}

#[test]
fn parse_env_skips_comments_and_blank_lines() {
    let parsed = entries("# comment\n\n   \n  KEY = value  \r\nOTHER='quoted'\nLAST=\"double\"\n");
    assert_eq!(
        parsed,
        vec![
            ("KEY".to_string(), "value".to_string()),
            ("OTHER".to_string(), "quoted".to_string()),
            ("LAST".to_string(), "double".to_string()),
        ]
    );
}

#[test]
fn parse_env_reports_the_first_invalid_line() {
    match parse_env("# ok\nA=1\nnot an entry\nB\n") {
        Err(FlashError::InvalidEnvLine(line)) => assert_eq!(line, 3),
        other => panic!("unexpected {other:?}"),
    }
}

#[test]
fn parse_env_keeps_unmatched_quotes() {
    assert_eq!(
        entries("A=\"x'\nB=\"\nC='y'\n"),
        vec![
            ("A".to_string(), "\"x'".to_string()),
            ("B".to_string(), "\"".to_string()),
            ("C".to_string(), "y".to_string()),
        ]
    );
}

#[test]
fn from_env_takes_the_last_assignment_and_ignores_empty_values() {
    let config = FlashConfig::from_env(
        "DAO_LEFT_BOOTLOADER_SERIAL=OLD\nDAO_LEFT_BOOTLOADER_SERIAL=NEW\nDAO_RIGHT_BOOTLOADER_SERIAL=\n",
    )
    .unwrap();
    assert_eq!(
        config,
        FlashConfig {
            left_serial: Some("NEW".into()),
            right_serial: None,
        }
    );
}

#[test]
fn from_env_reports_invalid_lines() {
    assert!(matches!(
        FlashConfig::from_env("DAO_LEFT_BOOTLOADER_SERIAL\n"),
        Err(FlashError::InvalidEnvLine(1))
    ));
}

#[test]
fn from_env_rejects_same_serial_error_variant() {
    assert!(matches!(
        FlashConfig::from_env("DAO_LEFT_BOOTLOADER_SERIAL=X\nDAO_RIGHT_BOOTLOADER_SERIAL=X\n"),
        Err(FlashError::SameSerialForBothHalves)
    ));
}

#[test]
fn upsert_appends_a_missing_key() {
    let updated = upsert_env("# hardware\nOTHER=1", LEFT_SERIAL_KEY, "ABC").unwrap();
    assert_eq!(updated, "# hardware\nOTHER=1\nDAO_LEFT_BOOTLOADER_SERIAL=ABC\n");
}

#[test]
fn upsert_replaces_the_assigned_line_in_place() {
    let updated = upsert_env(
        "A=1\n  DAO_RIGHT_BOOTLOADER_SERIAL = old\nB=2\n",
        RIGHT_SERIAL_KEY,
        "NEW",
    )
    .unwrap();
    assert_eq!(updated, "A=1\nDAO_RIGHT_BOOTLOADER_SERIAL=NEW\nB=2\n");
}

#[test]
fn upsert_into_empty_text_writes_one_line() {
    assert_eq!(upsert_env("", LEFT_SERIAL_KEY, "S").unwrap(), "DAO_LEFT_BOOTLOADER_SERIAL=S\n");
}

#[test]
fn upsert_drops_leading_empty_lines() {
    assert_eq!(upsert_env("\n\nA=1\n", LEFT_SERIAL_KEY, "S").unwrap(), "A=1\nDAO_LEFT_BOOTLOADER_SERIAL=S\n");
}

#[test]
fn upsert_rejects_invalid_values() {
    for value in ["", "a=b", "line\nbreak", "cr\rhere"] {
        assert!(matches!(
            upsert_env("", LEFT_SERIAL_KEY, value),
            Err(FlashError::InvalidEnvValue)
        ));
    }
}

#[test]
fn upsert_rejects_a_key_on_two_lines() {
    assert!(matches!(
        upsert_env("K=1\nK=2\n", "K", "3"),
        Err(FlashError::DuplicateEnvKey)
    ));
}

#[test]
fn written_serial_reads_back_and_keeps_the_other_half() {
    let contents = "# keep\nDAO_RIGHT_BOOTLOADER_SERIAL=RIGHT\nUNRELATED=value\n";
    let updated = upsert_env(contents, LEFT_SERIAL_KEY, "LEFT").unwrap();
    assert_eq!(
        FlashConfig::from_env(&updated).unwrap(),
        FlashConfig {
            left_serial: Some("LEFT".into()),
            right_serial: Some("RIGHT".into()),
        }
    );
    let values = entries(&updated);
    assert!(values.contains(&("UNRELATED".to_string(), "value".to_string())));
}

#[test]
fn config_lookups_by_half_and_serial() {
    let config = FlashConfig {
        left_serial: Some("L".into()),
        right_serial: Some("R".into()),
    };
    assert_eq!(config.serial_for_half(Half::Left), Some("L"));
    assert_eq!(config.serial_for_half(Half::Right), Some("R"));
    assert_eq!(config.half_for_serial("R"), Some(Half::Right));
    assert_eq!(config.half_for_serial("L"), Some(Half::Left));
    assert_eq!(config.half_for_serial("X"), None);
    assert_eq!(FlashConfig::default().serial_for_half(Half::Left), None);
    assert_eq!(other_half(Half::Left), Half::Right);
    assert_eq!(other_half(Half::Right), Half::Left);
    assert_eq!(Half::Left.label(), "left");
    assert_eq!(Half::Right.env_key(), "DAO_RIGHT_BOOTLOADER_SERIAL");
}

#[test]
fn registering_an_unknown_half_records_its_serial() {
    let registration = register_half(
        "DAO_LEFT_BOOTLOADER_SERIAL=LEFT123\n",
        Half::Right,
        vec![volume("NRF52BOOT", "LEFT123"), volume("NRF52BOOT 1", "RIGHT456")],
    )
    .unwrap();
    assert_eq!(registration.volume.serial, "RIGHT456");
    assert_eq!(
        registration.updated_env.as_deref(),
        Some("DAO_LEFT_BOOTLOADER_SERIAL=LEFT123\nDAO_RIGHT_BOOTLOADER_SERIAL=RIGHT456\n")
    );
    assert_eq!(
        registration.config,
        FlashConfig {
            left_serial: Some("LEFT123".into()),
            right_serial: Some("RIGHT456".into()),
        }
    );
}

#[test]
fn registering_a_known_half_leaves_the_file_alone() {
    let registration = register_half(
        "DAO_LEFT_BOOTLOADER_SERIAL=LEFT123\n",
        Half::Left,
        vec![volume("NRF52BOOT", "LEFT123")],
    )
    .unwrap();
    assert!(registration.updated_env.is_none());
    assert_eq!(registration.volume.mount, "/Volumes/NRF52BOOT");
}

#[test]
fn recorded_serials_lead_back_to_their_half() {
    let config = FlashConfig::from_env(
        "DAO_LEFT_BOOTLOADER_SERIAL=L1\nDAO_RIGHT_BOOTLOADER_SERIAL='R2'\n",
    )
    .unwrap();
    for half in [Half::Left, Half::Right] {
        let serial = config.serial_for_half(half).unwrap();
        assert!(!serial.is_empty());
        assert_eq!(config.half_for_serial(serial), Some(half));
    }
    let partial = FlashConfig::from_env("DAO_RIGHT_BOOTLOADER_SERIAL=\n").unwrap();
    assert_eq!(partial.serial_for_half(Half::Right), None);
}

#[test]
fn setting_a_key_to_its_value_again_changes_nothing() {
    let contents = "\n\n# local\nOTHER=1\nDAO_LEFT_BOOTLOADER_SERIAL = old\n";
    let once = upsert_env(contents, LEFT_SERIAL_KEY, "NEW9").unwrap();
    assert_eq!(once, "# local\nOTHER=1\nDAO_LEFT_BOOTLOADER_SERIAL=NEW9\n");
    let twice = upsert_env(&once, LEFT_SERIAL_KEY, "NEW9").unwrap();
    assert_eq!(twice, once);
    let appended = upsert_env("A=1", RIGHT_SERIAL_KEY, "R").unwrap();
    assert_eq!(upsert_env(&appended, RIGHT_SERIAL_KEY, "R").unwrap(), appended);
}
