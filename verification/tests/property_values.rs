use tilemap_decode::error::Error;
use tilemap_decode::property::{decode_property_value, Color, PropertyValue};

fn decode(tag: Option<&str>, value: &str) -> Result<PropertyValue, Error> {
    decode_property_value(&tag.map(|t| t.to_string()), value)
}

fn expect_invalid_value(r: Result<PropertyValue, Error>, text: &str) {
    match r {
        Err(Error::InvalidPropertyValue { description }) => assert_eq!(description, text),
        _ => panic!("expected an invalid-property-value error"),
    }
}

#[test]
fn bool_is_case_sensitive() {
    assert!(matches!(decode(Some("bool"), "true"), Ok(PropertyValue::BoolValue(true))));
    assert!(matches!(decode(Some("bool"), "false"), Ok(PropertyValue::BoolValue(false))));
    expect_invalid_value(decode(Some("bool"), "True"), "True");
    expect_invalid_value(decode(Some("bool"), "TRUE"), "TRUE");
    expect_invalid_value(decode(Some("bool"), "1"), "1");
}

#[test]
fn unknown_type_tag() {
    match decode(Some("vector3"), "1,2,3") {
        Err(Error::UnknownPropertyType { name }) => assert_eq!(name, "vector3"),
        _ => panic!("expected an unknown-property-type error"),
    }
}

#[test]
fn string_and_file_kept_verbatim() {
    match decode(Some("string"), "  hello, world ") {
        Ok(PropertyValue::StringValue(s)) => assert_eq!(s, "  hello, world "),
        _ => panic!("expected a string value"),
    }
    match decode(None, "implicit") {
        Ok(PropertyValue::StringValue(s)) => assert_eq!(s, "implicit"),
        _ => panic!("an absent tag means string"),
    }
    match decode(Some("file"), "../maps/a.tsx") {
        Ok(PropertyValue::FileValue(s)) => assert_eq!(s, "../maps/a.tsx"),
        _ => panic!("expected a file value"),
    }
}

#[test]
fn int_parsing() {
    assert!(matches!(decode(Some("int"), "42"), Ok(PropertyValue::IntValue(42))));
    assert!(matches!(decode(Some("int"), "-7"), Ok(PropertyValue::IntValue(-7))));
    assert!(matches!(decode(Some("int"), "+7"), Ok(PropertyValue::IntValue(7))));
    assert!(matches!(decode(Some("int"), "2147483647"), Ok(PropertyValue::IntValue(2147483647))));
    assert!(matches!(
        decode(Some("int"), "-2147483648"),
        Ok(PropertyValue::IntValue(-2147483648))
    ));
    expect_invalid_value(decode(Some("int"), "2147483648"), "2147483648");
    expect_invalid_value(decode(Some("int"), "-2147483649"), "-2147483649");
    expect_invalid_value(decode(Some("int"), "12a"), "12a");
    expect_invalid_value(decode(Some("int"), ""), "");
    expect_invalid_value(decode(Some("int"), "1.5"), "1.5");
}

#[test]
fn object_parsing() {
    assert!(matches!(decode(Some("object"), "0"), Ok(PropertyValue::ObjectValue(0))));
    assert!(matches!(decode(Some("object"), "17"), Ok(PropertyValue::ObjectValue(17))));
    assert!(matches!(
        decode(Some("object"), "4294967295"),
        Ok(PropertyValue::ObjectValue(4294967295))
    ));
    expect_invalid_value(decode(Some("object"), "-1"), "-1");
    expect_invalid_value(decode(Some("object"), "4294967296"), "4294967296");
}

#[test]
fn float_literals_accepted() {
    for good in ["1", "1.5", "-2.5", "+0.25", ".5", "5.", "1e3", "1.5e-3", "-2E+10", "0.0"] {
        match decode(Some("float"), good) {
            Ok(PropertyValue::FloatValue(s)) => {
                assert_eq!(s, good);
                // The kept literal parses as a 64-bit float.
                let _: f64 = s.parse().expect("a validated literal parses");
            },
            _ => panic!("a standard float literal must be accepted"),
        }
    }
}

#[test]
fn float_literals_rejected() {
    for bad in ["", ".", "-", "1e", "e5", "1.2.3", "1e2.5", "abc", "--1", "1 "] {
        expect_invalid_value(decode(Some("float"), bad), bad);
    }
}

#[test]
fn color_with_alpha() {
    match decode(Some("color"), "#80FF00fF") {
        Ok(PropertyValue::ColorValue(c)) => {
            assert_eq!(c, Color { alpha: 0x80, red: 0xFF, green: 0x00, blue: 0xFF });
        },
        _ => panic!("expected a color value"),
    }
}

#[test]
fn color_without_alpha_is_opaque() {
    match decode(Some("color"), "1a2b3c") {
        Ok(PropertyValue::ColorValue(c)) => {
            assert_eq!(c, Color { alpha: 255, red: 0x1a, green: 0x2b, blue: 0x3c });
        },
        _ => panic!("expected a color value"),
    }
}

#[test]
fn color_bad_inputs() {
    expect_invalid_value(decode(Some("color"), "#12345"), "#12345");
    expect_invalid_value(decode(Some("color"), "12345"), "12345");
    expect_invalid_value(decode(Some("color"), "#GG0000"), "#GG0000");
    expect_invalid_value(decode(Some("color"), ""), "");
    expect_invalid_value(decode(Some("color"), "#123456789"), "#123456789");
}
