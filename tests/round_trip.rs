use bencoding::{bencode_decode, BencodingValue};

fn encode(v: &BencodingValue, out: &mut Vec<u8>) {
    match v {
        BencodingValue::String(s) => encode_text(s, out),
        BencodingValue::Integer(n) => out.extend_from_slice(format!("i{}e", n).as_bytes()),
        BencodingValue::List(items) => {
            out.push(b'l');
            for item in items {
                encode(item, out);
            }
            out.push(b'e');
        }
        BencodingValue::Dictionary(entries) => {
            out.push(b'd');
            for (k, item) in entries {
                encode_text(k, out);
                encode(item, out);
            }
            out.push(b'e');
        }
    }
}

fn encode_text(s: &str, out: &mut Vec<u8>) {
    out.extend_from_slice(format!("{}:", s.len()).as_bytes());
    out.extend_from_slice(s.as_bytes());
}

#[test]
fn encoded_values_decode_to_themselves() {
    let values = vec![
        BencodingValue::Integer(0),
        BencodingValue::Integer(i64::MIN),
        BencodingValue::String(String::new()),
        BencodingValue::String(String::from("caf\u{e9} :le")),
        BencodingValue::List(vec![
            BencodingValue::List(Vec::new()),
            BencodingValue::Integer(-17),
            BencodingValue::Dictionary(vec![
                (String::from("z"), BencodingValue::String(String::from("last"))),
                (String::from("a"), BencodingValue::List(vec![BencodingValue::Integer(3)])),
            ]),
        ]),
    ];
    for v in values {
        let mut bytes = Vec::new();
        encode(&v, &mut bytes);
        let (decoded, rest) = bencode_decode(&bytes).unwrap();
        assert_eq!(decoded, v);
        assert!(rest.is_empty());
    }
}
