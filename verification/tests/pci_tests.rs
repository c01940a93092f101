use gpui::pci::parse_pci_id;

#[test]
fn test_parse_device_id() {
    assert!(parse_pci_id("0xABCD").is_ok());
    assert!(parse_pci_id("ABCD").is_ok());
    assert!(parse_pci_id("abcd").is_ok());
    assert!(parse_pci_id("1234").is_ok());
    assert!(parse_pci_id("123").is_err());
    assert_eq!(
        parse_pci_id(&format!("{:x}", 0x1234)).unwrap(),
        parse_pci_id(&format!("{:X}", 0x1234)).unwrap(),
    );

    assert_eq!(
        parse_pci_id(&format!("{:#x}", 0x1234)).unwrap(),
        parse_pci_id(&format!("{:#X}", 0x1234)).unwrap(),
    );
}
