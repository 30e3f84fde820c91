use ratioup::utils::{format_bytes, get_sha1, percent_encoding};

#[test]
fn test_bytes() {
    assert_eq!(format_bytes(0), "0 B");
    assert_eq!(format_bytes(500), "500 B");
    assert_eq!(format_bytes(1023), "1023 B");
}

#[test]
fn test_kilobytes() {
    assert_eq!(format_bytes(1024), "1.0 KB");
    assert_eq!(format_bytes(1536), "1.5 KB");
    assert_eq!(format_bytes(9999), "9.8 KB");
    assert_eq!(format_bytes(1023999), "1000.0 KB");
}

#[test]
fn test_megabytes() {
    assert_eq!(format_bytes(1_048_576), "1.0 MB");
    assert_eq!(format_bytes(1_572_864), "1.5 MB");
    assert_eq!(format_bytes(50_000_000), "47.7 MB");
    assert_eq!(format_bytes(1_073_741_823), "1024.0 MB");
}

#[test]
fn test_gigabytes() {
    assert_eq!(format_bytes(1_073_741_824), "1.0 GB");
    assert_eq!(format_bytes(2_147_483_648), "2.0 GB");
    assert_eq!(format_bytes(4_000_000_000), "3.7 GB");
    assert_eq!(format_bytes(4_294_967_295), "4.0 GB");
}

#[test]
fn test_beyond_gigabytes_with_u32() {
    assert_eq!(format_bytes(u32::MAX), "4.0 GB");
}

#[test]
fn test_percent_encoding_example() {
    let input = b"\x12\x34\x56\x78\x9a\xbc\xde\xf1\x23\x45\x67\x89\xab\xcd\xef\x12\x34\x56\x78\x9a";
    let expected = "%124Vx%9A%BC%DE%F1%23Eg%89%AB%CD%EF%124Vx%9A";

    let result = percent_encoding(input);
    assert_eq!(result, expected);

    let input_unreserved = b"abc.DEF-012_~";
    assert_eq!(percent_encoding(input_unreserved), "abc.DEF-012_~");

    let input_reserved = b"Hello World! #@$%^&";
    assert_eq!(percent_encoding(input_reserved), "Hello%20World%21%20%23%40%24%25%5E%26");

    let input_non_ascii = "éàç".as_bytes();
    assert_eq!(percent_encoding(input_non_ascii), "%C3%A9%C3%A0%C3%A7");

    let input_null = b"null\x00byte";
    assert_eq!(percent_encoding(input_null), "null%00byte");
}

#[test]
fn test_sha1() {
    let input = b"Hello World!";
    let mut m = sha1_smol::Sha1::new();
    m.update(input);
    let sha1 = get_sha1(input);
    let digest = m.digest();
    assert_eq!(digest.bytes(), sha1);

    println!("SHA: {digest}");
    assert_eq!(sha1, *b"\x2e\xf7\xbd\xe6\x08\xce\x54\x04\xe9\x7d\x5f\x04\x2f\x95\xf8\x9f\x1c\x23\x28\x71");
}

#[test]
fn format_bytes_rounds_half_to_even() {
    // 1.25 KB is exactly 1280 bytes
    assert_eq!(format_bytes(1280), "1.2 KB");
    // 1.35 KB is 1382.4 bytes: 1382 is below it and 1383 above
    assert_eq!(format_bytes(1382), "1.3 KB");
    assert_eq!(format_bytes(1383), "1.4 KB");
}

#[test]
fn percent_encoding_of_nothing() {
    assert_eq!(percent_encoding(b""), "");
}

#[test]
fn format_bytes_agrees_with_float_formatting() {
    fn float_text(bytes: u32) -> String {
        const KB: u32 = 1024;
        const MB: u32 = KB * 1024;
        const GB: u32 = MB * 1024;
        if bytes < KB {
            format!("{} B", bytes)
        } else if bytes < MB {
            format!("{:.1} KB", bytes as f64 / KB as f64)
        } else if bytes < GB {
            format!("{:.1} MB", bytes as f64 / MB as f64)
        } else {
            format!("{:.1} GB", bytes as f64 / GB as f64)
        }
    }
    for b in 0..1_100_000u32 {
        assert_eq!(format_bytes(b), float_text(b), "at {b}");
    }
    let mut b: u32 = 1_100_000;
    while b < u32::MAX - 1_000_003 {
        assert_eq!(format_bytes(b), float_text(b), "at {b}");
        b += 1_000_003;
    }
    for k in 0..4096u32 {
        let tie = k * 1024 * 1024 / 10 * 10;
        assert_eq!(format_bytes(tie), float_text(tie), "at {tie}");
    }
}
