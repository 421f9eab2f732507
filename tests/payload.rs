use home_gateway::forms::{parse_rgbw_form, parse_shcnt_form, Rgbw};
use home_gateway::payload::{
    cbor_map_get, decode_rgbw, decode_shcnt, extract_cbor_map_from_coap_response, read_rgbw,
    read_shcnt, rgbw_payload,
    shcnt_payload, CborItem, CborValue, Content, Error, Param,
};

fn int_entries(entries: &[(&str, i128)]) -> Vec<(CborItem, CborItem)> {
    entries
        .iter()
        .map(|(k, v)| (CborItem::Text(k.to_string()), CborItem::Integer(*v)))
        .collect()
}

fn as_pairs(map: &[(CborItem, CborItem)]) -> Vec<(String, i128)> {
    map.iter()
        .map(|e| match e {
            (CborItem::Text(k), CborItem::Integer(v)) => (k.clone(), *v),
            other => panic!("unexpected entry {:?}", other),
        })
        .collect()
}

fn pairs(entries: &[(&str, i128)]) -> Vec<(String, i128)> {
    entries.iter().map(|(k, v)| (k.to_string(), *v)).collect()
}

#[test]
fn rgbw_form_encodes_to_setpoint_map() {
    let f = Rgbw { rgb: "#a1b2c3".to_string(), w: 10 };
    let p = rgbw_payload(&f);
    assert_eq!(
        as_pairs(&p),
        pairs(&[("r", 0xa1), ("g", 0xb2), ("b", 0xc3), ("w", 10), ("d", 3000)])
    );
}

#[test]
fn rgbw_setpoint_map_decodes_back() {
    let f = Rgbw { rgb: "#a1b2c3".to_string(), w: 10 };
    let back = decode_rgbw(&rgbw_payload(&f)).unwrap();
    assert_eq!(back.rgb, "a1b2c3");
    assert_eq!(back.w, 10);
    let f = Rgbw { rgb: "A1B2C3".to_string(), w: 255 };
    let back = decode_rgbw(&rgbw_payload(&f)).unwrap();
    assert_eq!(back.rgb, "a1b2c3");
    assert_eq!(back.w, 255);
}

#[test]
fn rgbw_reply_rendered_as_hex() {
    let reply = int_entries(&[("r", 10), ("g", 20), ("b", 30), ("w", 40)]);
    let v = decode_rgbw(&reply).unwrap();
    assert_eq!(v.rgb, "0a141e");
    assert_eq!(v.w, 40);
}

#[test]
fn rgbw_reply_extra_fields_ignored() {
    let mut reply = vec![(CborItem::Integer(1), CborItem::Integer(99))];
    reply.extend(int_entries(&[("x", 7), ("w", 0), ("b", 255), ("g", 0), ("r", 0), ("r", 1)]));
    let v = decode_rgbw(&reply).unwrap();
    assert_eq!(v.rgb, "0000ff");
    assert_eq!(v.w, 0);
}

#[test]
fn post_rgbw_red_payload() {
    let f = parse_rgbw_form("#ff0000", "0").unwrap();
    let p = rgbw_payload(&f);
    assert_eq!(
        as_pairs(&p),
        pairs(&[("r", 255), ("g", 0), ("b", 0), ("w", 0), ("d", 3000)])
    );
    assert_eq!(f.rgb, "#ff0000");
    assert_eq!(f.w, 0);
}

#[test]
fn post_shcnt_payload() {
    let f = parse_shcnt_form("50").unwrap();
    assert_eq!(as_pairs(&shcnt_payload(&f)), pairs(&[("val", 50)]));
}

#[test]
fn shcnt_reply_reads_r() {
    let reply = int_entries(&[("val", 3), ("r", 77)]);
    assert_eq!(decode_shcnt(&reply).unwrap().pos, 77);
    let reply = int_entries(&[("val", 3)]);
    assert!(matches!(decode_shcnt(&reply), Err(Error::MissingParameter(Param::Pos))));
}

#[test]
fn rgbw_reply_missing_channel() {
    let reply = int_entries(&[("r", 1), ("b", 3), ("w", 4)]);
    assert!(matches!(decode_rgbw(&reply), Err(Error::MissingParameter(Param::G))));
    let reply = int_entries(&[("r", 1), ("g", 2), ("b", 3)]);
    assert!(matches!(decode_rgbw(&reply), Err(Error::MissingParameter(Param::W))));
}

#[test]
fn rgbw_reply_out_of_range() {
    let reply = int_entries(&[("r", 256), ("g", 2), ("b", 3), ("w", 4)]);
    assert!(matches!(decode_rgbw(&reply), Err(Error::UnexpectedCborElement)));
    let reply = int_entries(&[("r", -1), ("g", 2), ("b", 3), ("w", 4)]);
    assert!(matches!(decode_rgbw(&reply), Err(Error::UnexpectedCborElement)));
    let mut reply = int_entries(&[("r", 1), ("g", 2), ("b", 3)]);
    reply.push((CborItem::Text("w".to_string()), CborItem::Text("x".to_string())));
    assert!(matches!(decode_rgbw(&reply), Err(Error::UnexpectedCborElement)));
}

#[test]
fn map_get_first_text_key() {
    let map = vec![
        (CborItem::Other, CborItem::Integer(1)),
        (CborItem::Text("a".to_string()), CborItem::Integer(2)),
        (CborItem::Text("a".to_string()), CborItem::Integer(3)),
    ];
    assert!(matches!(cbor_map_get(&map, "a"), Some(CborItem::Integer(2))));
    assert!(cbor_map_get(&map, "b").is_none());
    assert!(cbor_map_get(&Vec::new(), "a").is_none());
}

#[test]
fn extract_response_kinds() {
    let r = extract_cbor_map_from_coap_response(Err("timed out".to_string()));
    assert!(matches!(r, Err(Error::InvalidResponse(m)) if m == "timed out"));
    let r = extract_cbor_map_from_coap_response(Ok(None));
    assert!(matches!(r, Err(Error::MissingContentType)));
    let r = extract_cbor_map_from_coap_response(Ok(Some(Content::Other)));
    assert!(matches!(r, Err(Error::UnexpectedContentType)));
    let r = extract_cbor_map_from_coap_response(Ok(Some(Content::Cbor(CborValue::Item(
        CborItem::Integer(5),
    )))));
    assert!(matches!(r, Err(Error::UnexpectedCborElement)));
    let m = int_entries(&[("r", 1)]);
    let r = extract_cbor_map_from_coap_response(Ok(Some(Content::Cbor(CborValue::Entries(m)))));
    assert_eq!(as_pairs(&r.unwrap()), pairs(&[("r", 1)]));
}

#[test]
fn error_messages() {
    assert_eq!(Error::MissingContentType.message(), "Missing content type");
    assert_eq!(Error::UnexpectedContentType.message(), "Unexpected content type");
    assert_eq!(Error::UnexpectedCborElement.message(), "Unexpected CBOR element");
    assert_eq!(
        Error::InvalidResponse("timed out".to_string()).message(),
        "Invalid response: timed out"
    );
    assert_eq!(Error::MissingParameter(Param::G).message(), "Missing value for parameter g");
    assert_eq!(
        Error::MissingParameter(Param::Pos).message(),
        "Missing value for parameter \"pos\""
    );
    assert_eq!(Error::MissingParameter(Param::W).message(), "Missing value for parameter \"w\"");
}

#[test]
fn read_device_replies() {
    let reply = int_entries(&[("r", 10), ("g", 20), ("b", 30), ("w", 40)]);
    let v = read_rgbw(Ok(Some(Content::Cbor(CborValue::Entries(reply))))).unwrap();
    assert_eq!(v.rgb, "0a141e");
    assert_eq!(v.w, 40);
    assert!(matches!(read_rgbw(Ok(None)), Err(Error::MissingContentType)));
    let reply = int_entries(&[("r", 12)]);
    assert_eq!(read_shcnt(Ok(Some(Content::Cbor(CborValue::Entries(reply))))).unwrap().pos, 12);
    assert!(matches!(read_shcnt(Ok(Some(Content::Other))), Err(Error::UnexpectedContentType)));
}
