use tds::xml::{decode_xml, encode_xml, XmlError};

fn body(units: &[u8]) -> Vec<u8> {
    let mut out = (units.len() as u64).to_le_bytes().to_vec();
    out.extend_from_slice(&(units.len() as u32).to_le_bytes());
    out.extend_from_slice(units);
    out.extend_from_slice(&[0, 0, 0, 0]);
    out
}

#[test]
fn xml_encode_layout() {
    let bytes = encode_xml("<a/>", 4);
    let mut expected = vec![0u8, 8, 0, 0, 0, 0, 0, 0, 0];
    expected.extend_from_slice(&[4, 0, 0, 0, 0x3C, 0, 0x61, 0]);
    expected.extend_from_slice(&[4, 0, 0, 0, 0x2F, 0, 0x3E, 0]);
    expected.extend_from_slice(&[0, 0, 0, 0]);
    assert_eq!(bytes, expected);
}

#[test]
fn xml_round_trip() {
    for chunk in [1u32, 3, 4, 100] {
        let text = "<root a=\"é\">😀</root>";
        let bytes = encode_xml(text, chunk);
        let value = decode_xml(&bytes).unwrap().unwrap();
        assert_eq!(value.text, text);
        assert!(value.schema.is_none());
    }
    let empty = decode_xml(&encode_xml("", 8)).unwrap().unwrap();
    assert_eq!(empty.text, "");
}

#[test]
fn xml_null_value() {
    let mut bytes = vec![0u8];
    bytes.extend_from_slice(&[0xFF; 8]);
    assert!(decode_xml(&bytes).unwrap().is_none());
    bytes.push(0);
    assert_eq!(decode_xml(&bytes).unwrap_err(), XmlError::Malformed);
}

#[test]
fn xml_with_schema_reference() {
    let mut bytes = vec![1u8, 2, b'd', 0, b'b', 0, 1, b'o', 0, 1, 0, b'c', 0];
    bytes.extend(body(&[0x78, 0]));
    let value = decode_xml(&bytes).unwrap().unwrap();
    assert_eq!(value.text, "x");
    let schema = value.schema.unwrap();
    assert_eq!(schema.db_name, "db");
    assert_eq!(schema.owner, "o");
    assert_eq!(schema.collection, "c");
}

#[test]
fn xml_malformed() {
    assert_eq!(decode_xml(&vec![]).unwrap_err(), XmlError::Malformed);
    assert_eq!(decode_xml(&vec![2]).unwrap_err(), XmlError::Malformed);
    assert_eq!(decode_xml(&vec![1, 5, 0]).unwrap_err(), XmlError::Malformed);
    let mut truncated = encode_xml("<a/>", 4);
    truncated.pop();
    assert_eq!(decode_xml(&truncated).unwrap_err(), XmlError::Malformed);
    let mut trailing = encode_xml("<a/>", 4);
    trailing.push(9);
    assert_eq!(decode_xml(&trailing).unwrap_err(), XmlError::Malformed);
}

#[test]
fn xml_bad_text() {
    let mut bytes = vec![0u8];
    bytes.extend(body(&[0x3D, 0xD8]));
    assert_eq!(decode_xml(&bytes).unwrap_err(), XmlError::Text);
    let mut named = vec![1u8, 1, 0x00, 0xDC, 0, 0, 0];
    named.extend(body(&[0x78, 0]));
    assert_eq!(decode_xml(&named).unwrap_err(), XmlError::Text);
}
