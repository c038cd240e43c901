use dao44_config::flash::{
    location_from_device_tree_path, parse_ioreg, plist_string, select_half_volume, upsert_env,
    BootloaderVolume, FlashConfig, Half, UsbDevice, RIGHT_SERIAL_KEY,
};

fn volume(name: &str, serial: &str) -> BootloaderVolume {
    BootloaderVolume {
        mount: format!("/Volumes/{name}"),
        serial: serial.into(),
    }
}

#[test]
fn parses_multiple_ioreg_devices_by_location_and_serial() {
    let input = r#"
+-o PCA10056@01100000  <class IOUSBHostDevice, id 1>
      "USB Product Name" = "PCA10056"
      "USB Serial Number" = "LEFT123"
+-o PCA10056@02100000  <class IOUSBHostDevice, id 2>
      "USB Product Name" = "PCA10056"
      "USB Serial Number" = "RIGHT456"
"#;
    assert_eq!(
        parse_ioreg(input),
        vec![
            UsbDevice {
                location: 0x01100000,
                product: "PCA10056".into(),
                serial: "LEFT123".into(),
            },
            UsbDevice {
                location: 0x02100000,
                product: "PCA10056".into(),
                serial: "RIGHT456".into(),
            },
        ]
    );
}

#[test]
fn extracts_disk_location_from_plist() {
    let plist = "<key>DeviceTreePath</key><string>IODeviceTree:/usb@02100000</string>";
    let path = plist_string(plist, "DeviceTreePath").unwrap();
    assert_eq!(location_from_device_tree_path(&path).unwrap(), 0x02100000);
}

#[test]
fn parses_and_updates_local_registration() {
    let contents =
        "# local hardware\nDAO_LEFT_BOOTLOADER_SERIAL=LEFT123\nDAO_RIGHT_BOOTLOADER_SERIAL=\n";
    let updated = upsert_env(contents, RIGHT_SERIAL_KEY, "RIGHT456").unwrap();
    assert_eq!(
        FlashConfig::from_env(&updated).unwrap(),
        FlashConfig {
            left_serial: Some("LEFT123".into()),
            right_serial: Some("RIGHT456".into()),
        }
    );
}

#[test]
fn rejects_one_serial_registered_for_both_halves() {
    let result = FlashConfig::from_env(
        "DAO_LEFT_BOOTLOADER_SERIAL=SAME\nDAO_RIGHT_BOOTLOADER_SERIAL=SAME\n",
    );
    assert!(result.is_err());
}

#[test]
fn explicit_half_selects_its_registered_volume() {
    let config = FlashConfig {
        left_serial: Some("LEFT123".into()),
        right_serial: Some("RIGHT456".into()),
    };
    let selected = select_half_volume(
        &config,
        Half::Right,
        vec![
            volume("NRF52BOOT", "LEFT123"),
            volume("NRF52BOOT 1", "RIGHT456"),
        ],
    )
    .unwrap();

    assert_eq!(selected.serial, "RIGHT456");
}

#[test]
fn first_explicit_half_ignores_the_known_other_half() {
    let config = FlashConfig {
        left_serial: Some("LEFT123".into()),
        right_serial: None,
    };
    let selected = select_half_volume(
        &config,
        Half::Right,
        vec![
            volume("NRF52BOOT", "LEFT123"),
            volume("NRF52BOOT 1", "RIGHT456"),
        ],
    )
    .unwrap();

    assert_eq!(selected.serial, "RIGHT456");
}

#[test]
fn first_explicit_half_rejects_ambiguous_bootloaders() {
    let result = select_half_volume(
        &FlashConfig::default(),
        Half::Left,
        vec![
            volume("NRF52BOOT", "FIRST"),
            volume("NRF52BOOT 1", "SECOND"),
        ],
    );

    assert!(result.is_err());
}
