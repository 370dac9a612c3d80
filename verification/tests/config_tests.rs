use iot_auth::config::{
    base64_decode, parse_keys_from_json_base64, read_initial_keys, read_iot_uid, read_p,
    read_skey, split_json_array,
};

fn b64(x: &[u8]) -> String {
    const A: &[u8; 64] = b"ABCDEFGHIJKLMNOPQRSTUVWXYZabcdefghijklmnopqrstuvwxyz0123456789+/";
    let mut s = String::new();
    for c in x.chunks(3) {
        let b0 = c[0];
        let b1 = if c.len() > 1 { c[1] } else { 0 };
        let b2 = if c.len() > 2 { c[2] } else { 0 };
        s.push(A[(b0 >> 2) as usize] as char);
        s.push(A[(((b0 & 3) << 4) | (b1 >> 4)) as usize] as char);
        s.push(if c.len() > 1 { A[(((b1 & 15) << 2) | (b2 >> 6)) as usize] as char } else { '=' });
        s.push(if c.len() > 2 { A[(b2 & 63) as usize] as char } else { '=' });
    }
    s
}

#[test]
fn base64_known_values() {
    assert_eq!(base64_decode(b"QUJD"), Some(b"ABC".to_vec()));
    assert_eq!(base64_decode(b"QQ=="), Some(b"A".to_vec()));
    assert_eq!(base64_decode(b"QUI="), Some(b"AB".to_vec()));
    assert_eq!(base64_decode(b""), Some(vec![]));
    assert_eq!(base64_decode(b"aGVsbG8gd29ybGQ="), Some(b"hello world".to_vec()));
    assert_eq!(base64_decode(b"+/+/"), Some(vec![0xfb, 0xff, 0xbf]));
}

#[test]
fn base64_skips_whitespace_and_drops_partial_quartet() {
    assert_eq!(base64_decode(b" QU\nJD\t"), Some(b"ABC".to_vec()));
    assert_eq!(base64_decode(b"QUJDQQ"), Some(b"ABC".to_vec()));
}

#[test]
fn base64_rejects_foreign_characters() {
    assert_eq!(base64_decode(b"QU*D"), None);
    assert_eq!(base64_decode(b"QUJD\x0b"), None);
    assert_eq!(base64_decode("QUJ\u{e9}".as_bytes()), None);
}

#[test]
fn base64_roundtrip_on_examples() {
    for len in 0..70usize {
        let x: Vec<u8> = (0..len).map(|i| (i * 37 + 11) as u8).collect();
        assert_eq!(base64_decode(b64(&x).as_bytes()), Some(x));
    }
}

#[test]
fn split_arrays() {
    assert_eq!(split_json_array(""), Vec::<Vec<u8>>::new());
    assert_eq!(split_json_array("[]"), Vec::<Vec<u8>>::new());
    assert_eq!(
        split_json_array("[\"a\", 'b' ,c,, \" \" ]"),
        vec![b"a".to_vec(), b"b".to_vec(), b"c".to_vec(), b" ".to_vec()]
    );
    assert_eq!(split_json_array("x,y"), vec![b"x".to_vec(), b"y".to_vec()]);
    assert_eq!(split_json_array("["), Vec::<Vec<u8>>::new());
    assert_eq!(split_json_array("\"\""), Vec::<Vec<u8>>::new());
    assert_eq!(split_json_array("[\"a\"]"), vec![b"a".to_vec()]);
}

#[test]
fn split_trims_unicode_whitespace() {
    assert_eq!(
        split_json_array("[\u{a0}\"k1\"\u{3000}, \u{2003}k2\u{2028}]"),
        vec![b"k1".to_vec(), b"k2".to_vec()]
    );
    // matches str::trim on every field
    let s = "\u{85} a \u{200a},\t\"b\u{a0}\"\r\n";
    let want: Vec<Vec<u8>> = s
        .split(',')
        .map(|t| {
            let t = t.trim();
            let b = t.as_bytes();
            if b.len() >= 2 && ((b[0] == b'"' && b[b.len() - 1] == b'"') || (b[0] == b'\'' && b[b.len() - 1] == b'\'')) {
                b[1..b.len() - 1].to_vec()
            } else {
                b.to_vec()
            }
        })
        .filter(|t| !t.is_empty())
        .collect();
    assert_eq!(split_json_array(s), want);
}

#[test]
fn keys_from_json() {
    let k32: Vec<u8> = (0..32u8).collect();
    let k40: Vec<u8> = (0..40u8).collect();
    let s = format!("[\"{}\", \"not*base64\", \"{}\", \"{}\"]", b64(&k32), b64(b"short"), b64(&k40));
    let keys = parse_keys_from_json_base64(&s);
    assert_eq!(keys.len(), 3);
    assert_eq!(keys[0].to_vec(), k32);
    let mut short = [0u8; 32];
    short[..5].copy_from_slice(b"short");
    assert_eq!(keys[1], short);
    assert_eq!(keys[2].to_vec(), k40[..32].to_vec());
    assert_eq!(read_initial_keys(Some(&s)), keys);
    assert!(read_initial_keys(None).is_empty());
}

#[test]
fn secret_from_env() {
    let k: Vec<u8> = (100..132u8).collect();
    assert_eq!(read_skey(Some(&b64(&k))).to_vec(), k);
    assert_eq!(read_skey(None), [0u8; 32]);
    assert_eq!(read_skey(Some("@@@@")), [0u8; 32]);
    let mut want = [0u8; 32];
    want[..3].copy_from_slice(b"ABC");
    assert_eq!(read_skey(Some("QUJD")), want);
}

#[test]
fn decimal_settings() {
    assert_eq!(read_iot_uid(None), 1);
    assert_eq!(read_iot_uid(Some("0")), 1);
    assert_eq!(read_iot_uid(Some("42")), 42);
    assert_eq!(read_iot_uid(Some("a1b2")), 12);
    assert_eq!(read_iot_uid(Some("300")), 255);
    assert_eq!(read_iot_uid(Some("259")), 255);
    assert_eq!(read_p(None), 2);
    assert_eq!(read_p(Some("")), 2);
    assert_eq!(read_p(Some("7")), 7);
    assert_eq!(read_p(Some("99999")), 255);
}

#[test]
fn base64_whitespace_between_quartets() {
    assert_eq!(base64_decode(b" QUJD \n\tQQ== \r"), base64_decode(b"QUJDQQ=="));
    assert_eq!(base64_decode(b"QUJDQQ=="), Some(b"ABCA".to_vec()));
}
