use webfuzzy::encoding::{percent_encode_path, percent_encode_query};

#[test]
fn query_preserves_sub_delims() {
    // sub-delims and other legal query bytes must go out literally
    assert_eq!(percent_encode_query("foo=!'"), "foo=!'");
    assert_eq!(
        percent_encode_query("a=1&b=$()*,;=+:@/?.~_-"),
        "a=1&b=$()*,;=+:@/?.~_-"
    );
}

#[test]
fn query_encodes_only_illegal_bytes() {
    assert_eq!(percent_encode_query("a b"), "a%20b"); // space
    assert_eq!(percent_encode_query("a#b"), "a%23b"); // fragment delim
    assert_eq!(percent_encode_query("a\tb"), "a%09b"); // control
    assert_eq!(percent_encode_query("a§b"), "a%C2%A7b"); // non-ASCII
    assert_eq!(percent_encode_query("100%"), "100%25"); // bare %
}

#[test]
fn query_preserves_valid_pct_encoded() {
    // existing %XX is kept verbatim (not double-encoded)
    assert_eq!(percent_encode_query("a=%41b"), "a=%41b");
    assert_eq!(percent_encode_query("a=%zz"), "a=%25zz");
}

#[test]
fn path_encoding_unchanged() {
    assert_eq!(percent_encode_path("/a/§b?c"), "/a/%C2%A7b%3Fc"); // ? delimits the query
    assert_eq!(percent_encode_path("/!'"), "/!'");
    assert_eq!(percent_encode_path("/100%"), "/100%25");
}

#[test]
fn encoding_twice_is_encoding_once() {
    for text in ["", "a b", "100%", "%4", "%zz%41", "§ #?\n\u{10ffff}", "/a/../b"] {
        let once = percent_encode_query(text);
        assert_eq!(percent_encode_query(&once), once);
        let once = percent_encode_path(text);
        assert_eq!(percent_encode_path(&once), once);
    }
}

#[test]
fn every_byte_is_encoded_or_safe() {
    let safe = "abcdefghijklmnopqrstuvwxyzABCDEFGHIJKLMNOPQRSTUVWXYZ0123456789-._~!$&'()*+,;=:@/";
    for b in 0u8..128 {
        let text = (b as char).to_string();
        let escaped = format!("%{:02X}", b);
        let in_query = percent_encode_query(&text);
        let in_path = percent_encode_path(&text);
        if safe.contains(b as char) {
            assert_eq!(in_query, text);
            assert_eq!(in_path, text);
        } else if b == b'?' {
            assert_eq!(in_query, text);
            assert_eq!(in_path, escaped);
        } else {
            assert_eq!(in_query, escaped);
            assert_eq!(in_path, escaped);
        }
    }
}

fn decoded(text: &str) -> Vec<u8> {
    let bytes = text.as_bytes();
    let mut out = Vec::new();
    let mut i = 0;
    while i < bytes.len() {
        let pair = if i + 2 < bytes.len() && bytes[i] == b'%' {
            u8::from_str_radix(&text[i + 1..i + 3], 16).ok()
        } else {
            None
        };
        match pair {
            Some(b) => {
                out.push(b);
                i += 3;
            }
            None => {
                out.push(bytes[i]);
                i += 1;
            }
        }
    }
    out
}

#[test]
fn what_encoding_adds_decoding_takes_away() {
    for text in ["a b%41", "100%", "x#y?z", "\t~"] {
        assert_eq!(decoded(&percent_encode_query(text)), decoded(text));
        assert_eq!(decoded(&percent_encode_path(text)), decoded(text));
    }
}
