use dao44_config::flash::{
    check_bootloader_identity,
    is_boot_volume_name, is_dao_bootloader_info, location_from_device_tree_path, parse_ioreg,
    parse_ioreg_header, plan_flashes, plist_string, quoted_property, select_half_volume,
    usb_devices, volume_for_disk, BootloaderVolume, FlashConfig, FlashError, Half, UsbDevice,
};

fn volume(name: &str, serial: &str) -> BootloaderVolume {
    BootloaderVolume {
        mount: format!("/Volumes/{name}"),
        serial: serial.into(),
    }
}

fn chars(s: &str) -> Vec<char> {
    s.chars().collect()
}

fn both() -> FlashConfig {
    FlashConfig {
        left_serial: Some("L".into()),
        right_serial: Some("R".into()),
    }
}

#[test]
fn ioreg_header_reads_product_and_location() {
    assert_eq!(
        parse_ioreg_header(&chars("  | +-o Dao Board@0x1  <class IOUSBHostDevice, id 1>")),
        None
    );
    assert_eq!(
        parse_ioreg_header(&chars("  | +-o Dao Board@+1aF  <class IOUSBHostDevice, id 1>")),
        Some(("Dao Board".to_string(), 0x1af))
    );
    assert_eq!(
        parse_ioreg_header(&chars("+-o Hub@01000000  <class AppleUSBHub, id 3>")),
        None
    );
    assert_eq!(
        parse_ioreg_header(&chars("+-o Big@100000000  <class IOUSBHostDevice>")),
        None
    );
}

#[test]
fn quoted_property_reads_the_value() {
    assert_eq!(
        quoted_property(&chars(r#"   "USB Serial Number" = "ABC""#), "USB Serial Number"),
        Some("ABC".to_string())
    );
    assert_eq!(
        quoted_property(&chars(r#"   "USB Serial Number" = 5"#), "USB Serial Number"),
        None
    );
}

#[test]
fn ioreg_skips_devices_without_serial_and_keeps_the_last_serial() {
    let input = "\"USB Serial Number\" = \"ORPHAN\"\r\n+-o A@1  <class IOUSBHostDevice>\r\n+-o B@2  <class IOUSBHostDevice>\r\n  \"USB Serial Number\" = \"FIRST\"\r\n  \"USB Serial Number\" = \"SECOND\"";
    assert_eq!(
        parse_ioreg(input),
        vec![UsbDevice {
            location: 2,
            product: "B".into(),
            serial: "SECOND".into(),
        }]
    );
}

#[test]
fn usb_devices_keys_by_location_and_keeps_the_later_device() {
    let input = "+-o A@10  <class IOUSBHostDevice>\n \"USB Serial Number\" = \"ONE\"\n+-o B@10  <class IOUSBHostDevice>\n \"USB Serial Number\" = \"TWO\"\n+-o C@11  <class IOUSBHostDevice>\n \"USB Serial Number\" = \"THREE\"\n";
    let table = usb_devices(input);
    assert_eq!(table.len(), 2);
    assert_eq!(table[&0x10].serial, "TWO");
    assert_eq!(table[&0x11].product, "C");
}

#[test]
fn device_tree_location_errors() {
    assert!(matches!(
        location_from_device_tree_path("IODeviceTree:/usb"),
        Err(FlashError::UnexpectedDeviceTreePath)
    ));
    assert!(matches!(
        location_from_device_tree_path("IODeviceTree:/usb@zz"),
        Err(FlashError::UnexpectedUsbLocation)
    ));
    assert!(matches!(
        location_from_device_tree_path("a@b@ffffffff"),
        Ok(0xffff_ffff)
    ));
    assert!(matches!(
        location_from_device_tree_path("a@100000000"),
        Err(FlashError::UnexpectedUsbLocation)
    ));
    assert!(matches!(
        location_from_device_tree_path("a@"),
        Err(FlashError::UnexpectedUsbLocation)
    ));
}

#[test]
fn plist_string_needs_key_and_string() {
    assert_eq!(plist_string("<key>Other</key><string>x</string>", "DeviceTreePath"), None);
    assert_eq!(
        plist_string("<key>A</key>\n\t<string>first</string><string>second</string>", "A"),
        Some("first".to_string())
    );
    assert_eq!(plist_string("<key>A</key><string>open", "A"), None);
}

#[test]
fn boot_volume_names_and_identity() {
    assert!(is_boot_volume_name("NRF52BOOT"));
    assert!(is_boot_volume_name("NRF52BOOT 1"));
    assert!(!is_boot_volume_name("NRF52BOO"));
    assert!(!is_boot_volume_name("Macintosh HD"));
    assert!(is_dao_bootloader_info(
        "UF2 Bootloader\nModel: Nordic nRF52840 DK\nBoard-ID: nRF52840-pca10056-v1\n"
    ));
    assert!(!is_dao_bootloader_info("Model: Nordic nRF52840 DK\n"));
}

#[test]
fn volume_for_disk_follows_the_usb_location() {
    let table = usb_devices(
        "+-o PCA10056@02100000  <class IOUSBHostDevice>\n \"USB Serial Number\" = \"RIGHT456\"\n+-o Other@03100000  <class IOUSBHostDevice>\n \"USB Serial Number\" = \"X\"\n",
    );
    let found = volume_for_disk(
        "/Volumes/NRF52BOOT".into(),
        "<key>DeviceTreePath</key><string>IODeviceTree:/usb@02100000</string>",
        &table,
    )
    .unwrap();
    assert_eq!(found, volume("NRF52BOOT", "RIGHT456"));
    assert!(matches!(
        volume_for_disk("/v".into(), "<dict/>", &table),
        Err(FlashError::NoDeviceTreePath)
    ));
    assert!(matches!(
        volume_for_disk("/v".into(), "<key>DeviceTreePath</key><string>usb@04100000</string>", &table),
        Err(FlashError::UnknownUsbLocation(0x04100000))
    ));
    match volume_for_disk("/v".into(), "<key>DeviceTreePath</key><string>usb@03100000</string>", &table) {
        Err(FlashError::UnexpectedProduct(product)) => assert_eq!(product, "Other"),
        other => panic!("unexpected {other:?}"),
    }
}

#[test]
fn selection_errors_name_the_half() {
    assert!(matches!(
        select_half_volume(&both(), Half::Left, vec![volume("NRF52BOOT", "R")]),
        Err(FlashError::RegisteredHalfMissing(Half::Left))
    ));
    assert!(matches!(
        select_half_volume(
            &both(),
            Half::Left,
            vec![volume("NRF52BOOT", "L"), volume("NRF52BOOT 1", "L")]
        ),
        Err(FlashError::DuplicateRegisteredHalf(Half::Left))
    ));
    let only_right = FlashConfig {
        left_serial: None,
        right_serial: Some("R".into()),
    };
    assert!(matches!(
        select_half_volume(&only_right, Half::Left, vec![volume("NRF52BOOT", "R")]),
        Err(FlashError::NoUnregisteredBootloader(Half::Left))
    ));
    assert!(matches!(
        select_half_volume(&FlashConfig::default(), Half::Right, vec![]),
        Err(FlashError::NoUnregisteredBootloader(Half::Right))
    ));
}

#[test]
fn plans_put_the_left_half_first() {
    let plans = plan_flashes(
        &both(),
        vec![volume("NRF52BOOT 1", "R"), volume("NRF52BOOT", "L")],
        Some("left.uf2".into()),
        Some("right.uf2".into()),
    )
    .unwrap();
    assert_eq!(plans.len(), 2);
    assert_eq!(plans[0].half, Half::Left);
    assert_eq!(plans[0].mount, "/Volumes/NRF52BOOT");
    assert_eq!(plans[0].firmware, "left.uf2");
    assert_eq!(plans[1].half, Half::Right);
    assert_eq!(plans[1].serial, "R");
}

#[test]
fn plans_reject_unknown_duplicate_and_unbuilt() {
    match plan_flashes(&both(), vec![volume("A", "L"), volume("B", "?")], Some("l".into()), None) {
        Err(FlashError::UnknownBootloader(v)) => assert_eq!(v.serial, "?"),
        other => panic!("unexpected {other:?}"),
    }
    assert!(matches!(
        plan_flashes(&both(), vec![volume("A", "R"), volume("B", "R")], None, Some("r".into())),
        Err(FlashError::DuplicateHalf(Half::Right))
    ));
    assert!(matches!(
        plan_flashes(&both(), vec![volume("A", "L"), volume("B", "R")], Some("l".into()), None),
        Err(FlashError::MissingFirmware(Half::Right))
    ));
    assert!(plan_flashes(&both(), vec![], None, None).unwrap().is_empty());
}

#[test]
fn a_plan_flashes_every_volume_once_with_its_halfs_firmware() {
    let volumes = vec![volume("NRF52BOOT 1", "R"), volume("NRF52BOOT", "L")];
    let plans = plan_flashes(&both(), volumes.clone(), Some("l.uf2".into()), Some("r.uf2".into()))
        .unwrap();
    assert_eq!(plans.len(), volumes.len());
    for plan in &plans {
        assert_eq!(both().half_for_serial(&plan.serial), Some(plan.half));
        let expected = match plan.half {
            Half::Left => "l.uf2",
            Half::Right => "r.uf2",
        };
        assert_eq!(plan.firmware, expected);
    }
    for v in &volumes {
        assert!(plans.iter().any(|p| p.mount == v.mount && p.serial == v.serial));
    }
    let single = plan_flashes(&both(), vec![volume("NRF52BOOT", "R")], None, Some("r.uf2".into()))
        .unwrap();
    assert_eq!(single.len(), 1);
    assert_eq!(single[0].half, Half::Right);
}

#[test]
fn bootloader_identity_is_checked() {
    let good = "UF2 Bootloader\nModel: Nordic nRF52840 DK\nBoard-ID: nRF52840-pca10056-v1\n";
    assert!(check_bootloader_identity(good).is_ok());
    assert!(matches!(
        check_bootloader_identity("Model: Nordic nRF52840 DK\n"),
        Err(FlashError::UnexpectedUf2Identity)
    ));
    assert!(matches!(check_bootloader_identity(""), Err(FlashError::UnexpectedUf2Identity)));
}
