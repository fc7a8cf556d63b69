use sqp_core::maps::{color_id, derive_ink_type_id, tara_options, volume_id, InkType};
use sqp_core::{SqpError, SUPPORTED_COLOR_NAMES};

#[test]
fn color_ids_match_ruby() {
    assert_eq!(color_id("Black").unwrap(), 1);
    assert_eq!(color_id("Light Black").unwrap(), 10);
    assert_eq!(color_id("Clear").unwrap(), 8);
    assert_eq!(color_id("Puce"), Err(SqpError::UnknownColor("Puce".into())));
}

#[test]
fn volume_and_tara() {
    assert_eq!(volume_id(5).unwrap(), 20);
    assert_eq!(volume_id(1).unwrap(), 8);
    assert_eq!(volume_id(3), Err(SqpError::UnknownVolume(3)));
    assert_eq!(tara_options(5).unwrap(), &[18, 19, 20, 21, 22]);
    assert_eq!(tara_options(1).unwrap(), &[7, 8, 9]);
}

#[test]
fn ink_type_id_rules() {
    assert_eq!(derive_ink_type_id(InkType::Kx2, "Cyan").unwrap(), 19);
    assert_eq!(derive_ink_type_id(InkType::Sqsg3, "Cyan").unwrap(), 21);
    assert_eq!(derive_ink_type_id(InkType::Kx2, "Clear").unwrap(), 8);
    assert!(matches!(
        derive_ink_type_id(InkType::Sqsg3, "Clear"),
        Err(SqpError::InvalidCombo(_))
    ));
}

#[test]
fn every_supported_color_has_an_id() {
    let ids: Vec<u8> = SUPPORTED_COLOR_NAMES.iter().map(|n| color_id(n).unwrap()).collect();
    assert_eq!(ids, vec![1, 2, 3, 4, 5, 6, 7, 8, 10]);
}

#[test]
fn map_errors_carry_their_input() {
    assert_eq!(color_id("black"), Err(SqpError::UnknownColor("black".into())));
    assert_eq!(color_id(""), Err(SqpError::UnknownColor(String::new())));
    assert_eq!(tara_options(0), Err(SqpError::UnknownVolume(0)));
    assert_eq!(
        derive_ink_type_id(InkType::Sqsg3, "Clear"),
        Err(SqpError::InvalidCombo("SQSG3 Clear is not a known SKU".into()))
    );
    assert_eq!(derive_ink_type_id(InkType::Kx2, "Puce").unwrap(), 19);
}
