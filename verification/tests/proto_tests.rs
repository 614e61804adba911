use brusdk::proto::{frame, request_fragments, set_request, Reassembler, PROP_FEED, SUBSCRIBE_REQUEST, TOKEN};

#[test]
fn subscribe_request_fragments_like_the_capture() {
    let f = request_fragments(SUBSCRIBE_REQUEST);
    assert_eq!(f.iter().map(|x| x.len()).collect::<Vec<_>>(), vec![151, 151, 121]);
    assert_eq!(&f[0][..3], &[1, 0, 0]);
    assert_eq!(&f[2][..3], &[3, 2, 0]);
    assert_eq!(&f[0][3..19], &TOKEN);
    assert_eq!(&f[0][19..23], &394u32.to_le_bytes());
}

#[test]
fn set_request_matches_capture() {
    assert_eq!(set_request(PROP_FEED, "True"), r#"{"PropertySetRequests":[{"ID": "0007", "Value": "True"}]}"#);
    assert_eq!(set_request(PROP_FEED, "True").len(), 57);
}

#[test]
fn reassembles_split_messages() {
    let json = br#"{"PropertyGetResponses":[{"ID":"0016","Value":"90","Status":"Successful"}]}"#;
    let framed = frame(json);
    let mut r = Reassembler::new();
    assert!(r.push(&framed[..30]).is_empty());
    let msgs = r.push(&framed[30..]);
    assert_eq!(msgs.len(), 1);
    let payload = msgs[0].as_ref().unwrap();
    let v: serde_json::Value = serde_json::from_slice(payload).unwrap();
    assert_eq!(v["PropertyGetResponses"][0]["Value"], "90");
}
