use jx_remake::pak::{jx_file_name_hash, jx_file_name_hash_bytes};

#[test]
fn hash_is_case_insensitive() {
    assert_eq!(jx_file_name_hash("\\A"), jx_file_name_hash("\\a"));
    assert_eq!(jx_file_name_hash("\\A"), 0x92340dcd);
    assert_eq!(
        jx_file_name_hash("\\SETTINGS\\SERVERLIST.INI"),
        jx_file_name_hash("\\settings\\serverlist.ini")
    );
}

#[test]
fn hash_folds_slash_direction() {
    assert_eq!(jx_file_name_hash("a/b"), jx_file_name_hash("a\\b"));
    assert_eq!(jx_file_name_hash("a/b"), 0x925ccf49);
    assert_eq!(
        jx_file_name_hash("spr/test.spr"),
        jx_file_name_hash("\\spr\\test.spr")
    );
}

#[test]
fn hash_pinned_values() {
    assert_eq!(jx_file_name_hash(""), 0xedcbaf9c);
    assert_eq!(jx_file_name_hash("\\settings\\serverlist.ini"), 0x769629ac);
    assert_eq!(jx_file_name_hash("spr/test.spr"), 0x73294248);
}

#[test]
fn hash_prepends_missing_leading_backslash() {
    assert_eq!(jx_file_name_hash("a"), jx_file_name_hash("\\a"));
    assert_eq!(jx_file_name_hash(""), jx_file_name_hash("\\"));
}

#[test]
fn hash_bytes_agrees_with_str() {
    assert_eq!(jx_file_name_hash_bytes(b"\\a"), jx_file_name_hash("\\a"));
    assert_eq!(
        jx_file_name_hash_bytes(b"spr/test.spr"),
        jx_file_name_hash("spr/test.spr")
    );
}

#[test]
fn hash_sign_extends_high_bytes() {
    // Bytes at or above 0x80 multiply as negative values; two calls on
    // the same non-ASCII bytes must still agree, and the value is
    // pinned so a platform or sign change would show.
    let path = [0x5c, 0x80, 0xff, 0x41];
    let h1 = jx_file_name_hash_bytes(&path);
    let h2 = jx_file_name_hash_bytes(&path);
    assert_eq!(h1, h2);
    assert_eq!(h1, 0x92bd4cd8);
}

#[test]
fn hash_is_deterministic_across_calls() {
    for p in ["\\a", "x/y/z.spr", "\\ui\\login.spr"] {
        assert_eq!(jx_file_name_hash(p), jx_file_name_hash(p));
    }
}
