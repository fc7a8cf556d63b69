//! Color, volume, tara and ink-type maps of the SQP product codes.

use vstd::prelude::*;
use crate::{SqpError, SqpErrorView, result_view};
use crate::text::str_equals;

verus! {

/// The two ink product families.
#[derive(Debug, Clone, Copy, PartialEq, Eq, Structural)]
pub enum InkType {
    Kx2,
    Sqsg3,
}

/// The nine supported color names, in canonical order.
pub const SUPPORTED_COLOR_NAMES: [&'static str; 9] = [
    "Black",
    "Cyan",
    "Magenta",
    "Yellow",
    "Light Cyan",
    "Light Magenta",
    "White",
    "Clear",
    "Light Black",
];

/// The numeric id of a color name, if it is a supported color.
pub open spec fn color_id_spec(name: Seq<char>) -> Option<u8> {
    if name == "Black"@ {
        Some(1)
    } else if name == "Cyan"@ {
        Some(2)
    } else if name == "Magenta"@ {
        Some(3)
    } else if name == "Yellow"@ {
        Some(4)
    } else if name == "Light Cyan"@ {
        Some(5)
    } else if name == "Light Magenta"@ {
        Some(6)
    } else if name == "White"@ {
        Some(7)
    } else if name == "Clear"@ {
        Some(8)
    } else if name == "Light Black"@ {
        Some(10)
    } else {
        None
    }
}

/// The numeric id of a volume in litres, if it has one.
pub open spec fn volume_id_spec(vol_l: u8) -> Option<u8> {
    if vol_l == 5 {
        Some(20)
    } else if vol_l == 1 {
        Some(8)
    } else {
        None
    }
}

/// The tara options of a volume in litres, if it has any.
pub open spec fn tara_options_spec(vol_l: u8) -> Option<Seq<u8>> {
    if vol_l == 5 {
        Some(seq![18u8, 19, 20, 21, 22])
    } else if vol_l == 1 {
        Some(seq![7u8, 8, 9])
    } else {
        None
    }
}

/// The ink-type id of an ink family and color: KX2 gives 8 for Clear and 19
/// otherwise; SQSG3 gives 21, and has no Clear.
pub open spec fn ink_type_id_spec(ink: InkType, color_name: Seq<char>) -> Option<u8> {
    let is_clear = color_name == "Clear"@;
    match ink {
        InkType::Kx2 => Some(if is_clear { 8u8 } else { 19u8 }),
        InkType::Sqsg3 => if is_clear { None } else { Some(21u8) },
    }
}

/// The message of the error for SQSG3 with Clear.
pub open spec fn sqsg3_clear_message() -> Seq<char> {
    "SQSG3 Clear is not a known SKU"@
}

/// Maps a color name to its numeric id.
pub fn color_id(name: &str) -> (r: Result<u8, SqpError>)
    ensures
        result_view(r) == match color_id_spec(name@) {
            Some(id) => Ok(id),
            None => Err(SqpErrorView::UnknownColor(name@)),
        },
{
    let id: u8 = if str_equals(name, "Black") {
        1
    } else if str_equals(name, "Cyan") {
        2
    } else if str_equals(name, "Magenta") {
        3
    } else if str_equals(name, "Yellow") {
        4
    } else if str_equals(name, "Light Cyan") {
        5
    } else if str_equals(name, "Light Magenta") {
        6
    } else if str_equals(name, "White") {
        7
    } else if str_equals(name, "Clear") {
        8
    } else if str_equals(name, "Light Black") {
        10
    } else {
        return Err(SqpError::UnknownColor(name.to_owned()));
    };
    Ok(id)
}

/// Maps a volume in litres to its numeric id.
pub fn volume_id(vol_l: u8) -> (r: Result<u8, SqpError>)
    ensures
        result_view(r) == match volume_id_spec(vol_l) {
            Some(id) => Ok(id),
            None => Err(SqpErrorView::UnknownVolume(vol_l)),
        },
{
    match vol_l {
        5 => Ok(20),
        1 => Ok(8),
        other => Err(SqpError::UnknownVolume(other)),
    }
}

/// The tara (empty-weight) options that are valid for a volume in litres.
pub fn tara_options(vol_l: u8) -> (r: Result<&'static [u8], SqpError>)
    ensures
        result_view(r) == match tara_options_spec(vol_l) {
            Some(t) => Ok(t),
            None => Err(SqpErrorView::UnknownVolume(vol_l)),
        },
{
    match vol_l {
        5 => {
            let t: &'static [u8] = &[18, 19, 20, 21, 22];
            assert(t@ =~= seq![18u8, 19, 20, 21, 22]);
            Ok(t)
        },
        1 => {
            let t: &'static [u8] = &[7, 8, 9];
            assert(t@ =~= seq![7u8, 8, 9]);
            Ok(t)
        },
        other => Err(SqpError::UnknownVolume(other)),
    }
}

/// Derives the ink-type id from the ink family and the color name.
pub fn derive_ink_type_id(ink: InkType, color_name: &str) -> (r: Result<u8, SqpError>)
    ensures
        result_view(r) == match ink_type_id_spec(ink, color_name@) {
            Some(id) => Ok(id),
            None => Err(SqpErrorView::InvalidCombo(sqsg3_clear_message())),
        },
{
    let is_clear = str_equals(color_name, "Clear");
    match ink {
        InkType::Kx2 => Ok(if is_clear { 8 } else { 19 }),
        InkType::Sqsg3 => {
            if is_clear {
                Err(SqpError::InvalidCombo("SQSG3 Clear is not a known SKU".to_owned()))
            } else {
                Ok(21)
            }
        },
    }
}

} // verus!
