//! The static set of European-Union member country codes.

use vstd::prelude::*;
use vstd::string::StringSliceAdditionalSpecFns;

verus! {

/// The two ASCII bytes form the code of one of the 27 EU member states.
pub open spec fn is_eu_code(b0: u8, b1: u8) -> bool {
    ||| (b0 == 65 && b1 == 84)  // AT
    ||| (b0 == 66 && b1 == 69)  // BE
    ||| (b0 == 66 && b1 == 71)  // BG
    ||| (b0 == 72 && b1 == 82)  // HR
    ||| (b0 == 67 && b1 == 89)  // CY
    ||| (b0 == 67 && b1 == 90)  // CZ
    ||| (b0 == 68 && b1 == 75)  // DK
    ||| (b0 == 69 && b1 == 69)  // EE
    ||| (b0 == 70 && b1 == 73)  // FI
    ||| (b0 == 70 && b1 == 82)  // FR
    ||| (b0 == 68 && b1 == 69)  // DE
    ||| (b0 == 71 && b1 == 82)  // GR
    ||| (b0 == 72 && b1 == 85)  // HU
    ||| (b0 == 73 && b1 == 69)  // IE
    ||| (b0 == 73 && b1 == 84)  // IT
    ||| (b0 == 76 && b1 == 86)  // LV
    ||| (b0 == 76 && b1 == 84)  // LT
    ||| (b0 == 76 && b1 == 85)  // LU
    ||| (b0 == 77 && b1 == 84)  // MT
    ||| (b0 == 78 && b1 == 76)  // NL
    ||| (b0 == 80 && b1 == 76)  // PL
    ||| (b0 == 80 && b1 == 84)  // PT
    ||| (b0 == 82 && b1 == 79)  // RO
    ||| (b0 == 83 && b1 == 75)  // SK
    ||| (b0 == 83 && b1 == 73)  // SI
    ||| (b0 == 69 && b1 == 83)  // ES
    ||| (b0 == 83 && b1 == 69)  // SE
}

/// Decides EU membership for a country code given as its two bytes.
pub fn eu_code_pair(b0: u8, b1: u8) -> (r: bool)
    ensures
        r == is_eu_code(b0, b1),
{
    match (b0, b1) {
        (65, 84) => true,  // AT
        (66, 69) => true,  // BE
        (66, 71) => true,  // BG
        (72, 82) => true,  // HR
        (67, 89) => true,  // CY
        (67, 90) => true,  // CZ
        (68, 75) => true,  // DK
        (69, 69) => true,  // EE
        (70, 73) => true,  // FI
        (70, 82) => true,  // FR
        (68, 69) => true,  // DE
        (71, 82) => true,  // GR
        (72, 85) => true,  // HU
        (73, 69) => true,  // IE
        (73, 84) => true,  // IT
        (76, 86) => true,  // LV
        (76, 84) => true,  // LT
        (76, 85) => true,  // LU
        (77, 84) => true,  // MT
        (78, 76) => true,  // NL
        (80, 76) => true,  // PL
        (80, 84) => true,  // PT
        (82, 79) => true,  // RO
        (83, 75) => true,  // SK
        (83, 73) => true,  // SI
        (69, 83) => true,  // ES
        (83, 69) => true,  // SE
        _ => false,
    }
}

/// EU membership of a textual country code, stated over its UTF-8 bytes:
/// exactly two bytes that form an EU member's code.
pub open spec fn is_eu_country_spec(code: &str) -> bool {
    &&& code.spec_bytes().len() == 2
    &&& is_eu_code(code.spec_bytes()[0], code.spec_bytes()[1])
}

/// Tests a textual country code for EU membership. True exactly for the
/// 27 two-letter EU member codes; every other string, the empty string
/// included, is not a member.
pub fn is_eu_country(code: &str) -> (r: bool)
    ensures
        r == is_eu_country_spec(code),
{
    let bytes = code.as_bytes();
    if bytes.len() == 2 {
        eu_code_pair(bytes[0], bytes[1])
    } else {
        false
    }
}

} // verus!
