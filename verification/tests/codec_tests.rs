use zotero_sync::codec::{fingerprint, get_new_prop, parse_properties, ParseError, Properties};

#[test]
fn fingerprint_of_empty_input() {
    assert_eq!(fingerprint(&[]), "d41d8cd98f00b204e9800998ecf8427e");
}

#[test]
fn fingerprint_of_hello_world() {
    assert_eq!(
        fingerprint(b"hello world"),
        "5eb63bbbe01eeed093cb22bb8f5acdc3"
    );
}

#[test]
fn fingerprint_is_deterministic() {
    assert_eq!(fingerprint(b"abc"), fingerprint(b"abc"));
    assert_ne!(fingerprint(b"abc"), fingerprint(b"abd"));
}

#[test]
fn encode_renders_the_fixed_schema() {
    let prop = Properties {
        mtime: 1234,
        hash: "deadbeef".to_string(),
    };
    assert_eq!(
        get_new_prop(prop),
        "<properties version=\"1\"><mtime>1234</mtime><hash>deadbeef</hash></properties>"
    );
}

#[test]
fn encode_renders_negative_and_zero_times() {
    let p0 = Properties {
        mtime: 0,
        hash: "00".to_string(),
    };
    assert_eq!(
        get_new_prop(p0),
        "<properties version=\"1\"><mtime>0</mtime><hash>00</hash></properties>"
    );
    let pn = Properties {
        mtime: -7,
        hash: "ff".to_string(),
    };
    assert_eq!(
        get_new_prop(pn),
        "<properties version=\"1\"><mtime>-7</mtime><hash>ff</hash></properties>"
    );
}

#[test]
fn decode_inverts_encode() {
    let prop = Properties {
        mtime: 1699999999999,
        hash: "5eb63bbbe01eeed093cb22bb8f5acdc3".to_string(),
    };
    let text = get_new_prop(prop);
    let back = parse_properties(&text).unwrap();
    assert_eq!(back.mtime, 1699999999999);
    assert_eq!(back.hash, "5eb63bbbe01eeed093cb22bb8f5acdc3");
}

#[test]
fn decode_inverts_encode_at_extremes() {
    for mtime in [i64::MIN, -1, 0, 1, i64::MAX] {
        let text = get_new_prop(Properties {
            mtime,
            hash: "abc123".to_string(),
        });
        let back = parse_properties(&text).unwrap();
        assert_eq!(back.mtime, mtime);
        assert_eq!(back.hash, "abc123");
    }
}

#[test]
fn decode_accepts_empty_hash() {
    let back =
        parse_properties("<properties version=\"1\"><mtime>12</mtime><hash></hash></properties>")
            .unwrap();
    assert_eq!(back.mtime, 12);
    assert_eq!(back.hash, "");
}

#[test]
fn decode_rejects_malformed_markup() {
    let bad = [
        "",
        "<properties version=\"1\"><mtime>12</mtime><hash>ab</hash>",
        "properties version=\"1\"><mtime>12</mtime><hash>ab</hash></properties>",
        "<properties version=\"2\"><mtime>12</mtime><hash>ab</hash></properties>",
        "<properties version=\"1\"><mtime></mtime><hash>ab</hash></properties>",
        "<properties version=\"1\"><mtime>+12</mtime><hash>ab</hash></properties>",
        "<properties version=\"1\"><mtime>012</mtime><hash>ab</hash></properties>",
        "<properties version=\"1\"><mtime>-0</mtime><hash>ab</hash></properties>",
        "<properties version=\"1\"><mtime>1e3</mtime><hash>ab</hash></properties>",
        "<properties version=\"1\"><mtime>9223372036854775808</mtime><hash>ab</hash></properties>",
        "<properties version=\"1\"><mtime>-9223372036854775809</mtime><hash>ab</hash></properties>",
        "<properties version=\"1\"><mtime>12</mtime><hash>AB</hash></properties>",
        "<properties version=\"1\"><mtime>12</mtime><hash>xyz</hash></properties>",
        "<properties version=\"1\"><mtime>12</mtime><hash>ab</hash></properties> ",
        " <properties version=\"1\"><mtime>12</mtime><hash>ab</hash></properties>",
    ];
    for text in bad {
        assert_eq!(parse_properties(text).unwrap_err(), ParseError::Malformed, "{text:?}");
    }
}

#[test]
fn decode_accepts_the_extreme_epochs() {
    let back = parse_properties(
        "<properties version=\"1\"><mtime>9223372036854775807</mtime><hash>ab</hash></properties>",
    )
    .unwrap();
    assert_eq!(back.mtime, i64::MAX);
    let back = parse_properties(
        "<properties version=\"1\"><mtime>-9223372036854775808</mtime><hash>ab</hash></properties>",
    )
    .unwrap();
    assert_eq!(back.mtime, i64::MIN);
}
