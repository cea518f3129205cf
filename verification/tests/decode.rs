use cull::decode::{decode_python_source, SourceDecodeError};

#[test]
fn decodes_default_utf8() {
    let decoded = decode_python_source("x = 'é'\n".as_bytes()).unwrap();
    assert_eq!(decoded.text, "x = 'é'\n");
    assert_eq!(decoded.info.encoding, "utf-8");
}

#[test]
fn decodes_latin1_cookie() {
    let decoded = decode_python_source(b"# coding: latin-1\nname = '\xe9'\n").unwrap();
    assert_eq!(decoded.text, "# coding: latin-1\nname = 'é'\n");
    assert_eq!(decoded.info.encoding, "latin-1");
}

#[test]
fn strips_utf8_bom() {
    let decoded = decode_python_source(b"\xef\xbb\xbf# coding: utf-8\nx = 1\n").unwrap();
    assert_eq!(decoded.text, "# coding: utf-8\nx = 1\n");
    assert!(decoded.info.had_utf8_bom);
}

#[test]
fn rejects_invalid_ascii() {
    let error = decode_python_source(b"# coding: ascii\nx = '\xe9'\n").unwrap_err();
    assert!(matches!(error, SourceDecodeError::InvalidEncoding { .. }));
}

#[test]
fn unknown_cookie_is_unsupported() {
    let error = decode_python_source(b"# -*- coding: klingon -*-\nx = 1\n").unwrap_err();
    assert_eq!(error, SourceDecodeError::UnsupportedEncoding("klingon".to_owned()));
}

#[test]
fn bom_with_latin1_cookie_is_rejected() {
    let error = decode_python_source(b"\xef\xbb\xbf# coding: latin-1\nx = 1\n").unwrap_err();
    assert!(matches!(error, SourceDecodeError::BomWithNonUtf8Encoding(_)));
}

#[test]
fn invalid_utf8_is_reported() {
    let error = decode_python_source(b"x = '\xff'\n").unwrap_err();
    assert!(matches!(error, SourceDecodeError::InvalidEncoding { .. }));
}

#[test]
fn cookie_on_second_line_is_honored() {
    let decoded = decode_python_source(b"#!/usr/bin/env python\n# coding: latin-1\ns = '\xe9'\n").unwrap();
    assert_eq!(decoded.info.encoding, "latin-1");
    assert_eq!(decoded.text, "#!/usr/bin/env python\n# coding: latin-1\ns = 'é'\n");
}
