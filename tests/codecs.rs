use yurki::arena::{ucs1_to_utf8_bump, ucs2_to_utf8_bump, ucs4_to_utf8_bump};
use yurki::from_utf8::{analyze_utf8_simd, utf8_to_ucs1_simd, utf8_to_ucs2_simd, utf8_to_ucs4_simd};
use yurki::to_utf8::{ucs1_to_utf8, ucs2_to_utf8, ucs4_to_utf8, Utf8View};

fn as_str(bytes: &[u8]) -> &str {
    std::str::from_utf8(bytes).unwrap()
}

#[test]
fn fast_string_ucs1_ascii() {
    assert_eq!(ucs1_to_utf8(b"Test").as_bytes(), b"Test");
}

#[test]
fn ucs1_extended() {
    let bytes = [0xA1u8, 0xB5u8];
    assert_eq!(ucs1_to_utf8(&bytes).as_bytes(), "¡µ".as_bytes());
}

#[test]
fn ucs1_control() {
    let bytes = [0x00u8, 0x1Fu8];
    assert_eq!(ucs1_to_utf8(&bytes).as_bytes(), &bytes);
}

#[test]
fn ucs2_cjk() {
    let s = "漢字";
    let utf16: Vec<u16> = s.encode_utf16().collect();
    assert_eq!(ucs2_to_utf8(&utf16), s.as_bytes());
}

#[test]
fn fast_string_ucs2_emoji() {
    let s = "🦀";
    let utf16: Vec<u16> = s.encode_utf16().collect();
    assert_eq!(ucs2_to_utf8(&utf16), s.as_bytes());
}

#[test]
fn simd_utf8_to_ucs_basic() {
    let ascii = "Hello";
    let mut ucs1_buf = [0u8; 10];
    let mut ucs2_buf = [0u16; 10];
    let mut ucs4_buf = [0u32; 10];

    let len1 = utf8_to_ucs1_simd(ascii.as_bytes(), &mut ucs1_buf);
    let len2 = utf8_to_ucs2_simd(ascii.as_bytes(), &mut ucs2_buf);
    let len4 = utf8_to_ucs4_simd(ascii.as_bytes(), &mut ucs4_buf);

    assert_eq!(len1, 5);
    assert_eq!(len2, 5);
    assert_eq!(len4, 5);
    assert_eq!(&ucs1_buf[..len1], ascii.as_bytes());
}

#[test]
fn utf8_to_ucs_roundtrip() {
    let test_cases = vec!["Hello", "café", "🦀", "Hello, 世界!"];
    for case in test_cases {
        let mut ucs2_buf = vec![0u16; case.chars().count() * 2];
        let ucs2_len = utf8_to_ucs2_simd(case.as_bytes(), &mut ucs2_buf);
        let back_to_utf8 = ucs2_to_utf8(&ucs2_buf[..ucs2_len]);
        assert_eq!(case.as_bytes(), &back_to_utf8);

        let mut ucs4_buf = vec![0u32; case.chars().count()];
        let ucs4_len = utf8_to_ucs4_simd(case.as_bytes(), &mut ucs4_buf);
        let back_to_utf8 = ucs4_to_utf8(&ucs4_buf[..ucs4_len]);
        assert_eq!(case.as_bytes(), &back_to_utf8);
    }
}

#[test]
fn utf8_analysis_accuracy() {
    let test_cases = vec![
        ("", 0, 0),
        ("A", 1, 65),
        ("Hello", 5, 111),
        ("café", 4, 233),
        ("🦀", 1, 0x1F980),
    ];
    for (input, expected_count, expected_max) in test_cases {
        let (count, max_cp) = analyze_utf8_simd(input.as_bytes());
        assert_eq!(count, expected_count, "Character count mismatch for '{}'", input);
        assert_eq!(max_cp, expected_max, "Max codepoint mismatch for '{}'", input);

        let scalar_count = input.chars().count();
        let scalar_max = input.chars().map(|c| c as u32).max().unwrap_or(0);
        assert_eq!(count, scalar_count);
        assert_eq!(max_cp, scalar_max);
    }
}

#[test]
fn simd_ucs1_empty() {
    let r = ucs1_to_utf8(b"");
    assert!(r.is_borrowed());
    assert_eq!(r.as_bytes(), b"");
    let bump = bumpalo::Bump::new();
    assert_eq!(ucs1_to_utf8_bump(b"", &bump), "".as_bytes());
}

#[test]
fn simd_ucs1_ascii() {
    let r = ucs1_to_utf8(b"Hello");
    assert!(r.is_borrowed());
    assert_eq!(r.as_bytes(), b"Hello");
    let bump = bumpalo::Bump::new();
    assert_eq!(ucs1_to_utf8_bump(b"Hello, World!", &bump), "Hello, World!".as_bytes());
}

#[test]
fn simd_ucs1_single_char() {
    let r = ucs1_to_utf8(b"A");
    assert!(r.is_borrowed());
    assert_eq!(r.as_bytes(), b"A");
    assert_eq!(as_str(ucs1_to_utf8(&[0xFF]).as_bytes()), "ÿ");

    let bump = bumpalo::Bump::new();
    assert_eq!(ucs1_to_utf8_bump(b"Z", &bump), "Z".as_bytes());
    assert_eq!(ucs1_to_utf8_bump(&[0xA9], &bump), "©".as_bytes());
}

#[test]
fn simd_ucs1_latin1() {
    let b = [0x48, 0xE9, 0x6C, 0x6C, 0xF6];
    assert_eq!(as_str(ucs1_to_utf8(&b).as_bytes()), "Héllö");
    let bump = bumpalo::Bump::new();
    assert_eq!(ucs1_to_utf8_bump(&b, &bump), "Héllö".as_bytes());
}

#[test]
fn simd_ucs1_mixed_content() {
    let mixed = b"Hello \xE9\xE8\xEA world \xFF!";
    let result = ucs1_to_utf8(mixed);
    assert!(matches!(result, Utf8View::Owned(_)));
    assert_eq!(as_str(result.as_bytes()), "Hello éèê world ÿ!");
}

#[test]
fn simd_ucs1_large_ascii() {
    let large_ascii = "A".repeat(1000);
    let bytes = large_ascii.as_bytes();
    let r = ucs1_to_utf8(bytes);
    assert!(r.is_borrowed());
    assert_eq!(r.as_bytes(), large_ascii.as_bytes());
}

#[test]
fn simd_ucs1_large_mixed() {
    let mut input = Vec::new();
    for i in 0..1000 {
        input.push(if i % 4 == 0 {
            0x80 + (i % 128) as u8
        } else {
            b'A' + (i % 26) as u8
        });
    }
    let result = ucs1_to_utf8(&input);
    assert!(matches!(result, Utf8View::Owned(_)));
    assert!(std::str::from_utf8(result.as_bytes()).is_ok());
}

#[test]
fn simd_ucs1_all_latin1_chars() {
    let all_latin1: Vec<u8> = (128..=255).collect();
    let result = ucs1_to_utf8(&all_latin1);
    assert!(matches!(result, Utf8View::Owned(_)));
    assert!(std::str::from_utf8(result.as_bytes()).is_ok());
    let bump = bumpalo::Bump::new();
    let bump_result = ucs1_to_utf8_bump(&all_latin1, &bump);
    assert_eq!(result.as_bytes(), bump_result);
}

#[test]
fn simd_ucs2_empty() {
    assert_eq!(ucs2_to_utf8(&[]), Vec::<u8>::new());
    let bump = bumpalo::Bump::new();
    assert_eq!(ucs2_to_utf8_bump(&[], &bump), "".as_bytes());
}

#[test]
fn simd_ucs2_ascii() {
    let ascii: Vec<u16> = "Hello".chars().map(|c| c as u16).collect();
    assert_eq!(ucs2_to_utf8(&ascii), "Hello".as_bytes());
    let bump = bumpalo::Bump::new();
    assert_eq!(ucs2_to_utf8_bump(&ascii, &bump), "Hello".as_bytes());
}

#[test]
fn simd_ucs2_basic() {
    let s = "漢字";
    let v: Vec<u16> = s.encode_utf16().collect();
    assert_eq!(ucs2_to_utf8(&v), s.as_bytes());
    let bump = bumpalo::Bump::new();
    assert_eq!(ucs2_to_utf8_bump(&v, &bump), s.as_bytes());
}

#[test]
fn simd_ucs2_emoji() {
    let s = "🦀";
    let v: Vec<u16> = s.encode_utf16().collect();
    assert_eq!(ucs2_to_utf8(&v), s.as_bytes());
    let bump = bumpalo::Bump::new();
    assert_eq!(ucs2_to_utf8_bump(&v, &bump), s.as_bytes());
}

#[test]
fn simd_ucs2_surrogate_pairs() {
    let emoji_family = "👨‍👩‍👧‍👦";
    let utf16: Vec<u16> = emoji_family.encode_utf16().collect();
    assert_eq!(ucs2_to_utf8(&utf16), emoji_family.as_bytes());
    let bump = bumpalo::Bump::new();
    assert_eq!(ucs2_to_utf8_bump(&utf16, &bump), emoji_family.as_bytes());
}

#[test]
fn simd_ucs2_mixed_bmp_supplementary() {
    let mixed = "A漢🦀Ω";
    let utf16: Vec<u16> = mixed.encode_utf16().collect();
    assert_eq!(ucs2_to_utf8(&utf16), mixed.as_bytes());
    let bump = bumpalo::Bump::new();
    assert_eq!(ucs2_to_utf8_bump(&utf16, &bump), mixed.as_bytes());
}

#[test]
fn simd_ucs2_large_ascii() {
    let large_ascii = "Z".repeat(1000);
    let utf16: Vec<u16> = large_ascii.encode_utf16().collect();
    assert_eq!(ucs2_to_utf8(&utf16), large_ascii.as_bytes());
}

#[test]
fn simd_ucs2_three_byte_utf8() {
    let korean = "안녕하세요";
    let utf16: Vec<u16> = korean.encode_utf16().collect();
    assert_eq!(ucs2_to_utf8(&utf16), korean.as_bytes());
    let bump = bumpalo::Bump::new();
    assert_eq!(ucs2_to_utf8_bump(&utf16, &bump), korean.as_bytes());
}

#[test]
fn simd_ucs4_empty() {
    assert_eq!(ucs4_to_utf8(&[]), Vec::<u8>::new());
    let bump = bumpalo::Bump::new();
    assert_eq!(ucs4_to_utf8_bump(&[], &bump), "".as_bytes());
}

#[test]
fn simd_ucs4_ascii() {
    let ascii: Vec<u32> = "Hello".chars().map(|c| c as u32).collect();
    assert_eq!(ucs4_to_utf8(&ascii), "Hello".as_bytes());
    let bump = bumpalo::Bump::new();
    assert_eq!(ucs4_to_utf8_bump(&ascii, &bump), "Hello".as_bytes());
}

#[test]
fn simd_ucs4_basic() {
    let cps = [0x41u32, 0x03A9u32];
    assert_eq!(ucs4_to_utf8(&cps), "AΩ".as_bytes());
    let bump = bumpalo::Bump::new();
    assert_eq!(ucs4_to_utf8_bump(&cps, &bump), "AΩ".as_bytes());
}

#[test]
fn simd_ucs4_supp() {
    let cps = [0x1F984u32];
    assert_eq!(ucs4_to_utf8(&cps), "🦄".as_bytes());
    let bump = bumpalo::Bump::new();
    assert_eq!(ucs4_to_utf8_bump(&cps, &bump), "🦄".as_bytes());
}

#[test]
fn simd_ucs4_full_range() {
    let codepoints = vec![0x00000041u32, 0x000000E9u32, 0x00004E2Du32, 0x0001F984u32];
    let expected = "Aé中🦄";
    assert_eq!(ucs4_to_utf8(&codepoints), expected.as_bytes());
    let bump = bumpalo::Bump::new();
    assert_eq!(ucs4_to_utf8_bump(&codepoints, &bump), expected.as_bytes());
}

#[test]
fn simd_ucs4_large_ascii() {
    let large_ascii: Vec<u32> = "X".repeat(1000).chars().map(|c| c as u32).collect();
    let expected = "X".repeat(1000);
    assert_eq!(ucs4_to_utf8(&large_ascii), expected.as_bytes());
}

#[test]
fn simd_ucs4_boundary_codepoints() {
    let boundary_points = vec![
        0x0000007Fu32,
        0x00000080u32,
        0x000007FFu32,
        0x00000800u32,
        0x0000FFFFu32,
        0x00010000u32,
        0x0010FFFFu32,
    ];
    let result = ucs4_to_utf8(&boundary_points);
    assert!(std::str::from_utf8(&result).is_ok());
    let bump = bumpalo::Bump::new();
    let bump_result = ucs4_to_utf8_bump(&boundary_points, &bump);
    assert_eq!(result, bump_result);
}

#[test]
fn simd_roundtrip_ucs1_utf8() {
    for i in 0..=255u8 {
        let input = [i];
        let utf8_result = ucs1_to_utf8(&input);
        let back_to_utf16: Vec<u16> = as_str(utf8_result.as_bytes()).chars().map(|c| c as u16).collect();
        let utf8_from_utf16 = ucs2_to_utf8(&back_to_utf16);
        assert_eq!(utf8_result.as_bytes(), &utf8_from_utf16);
    }
}

#[test]
fn simd_simd_vs_scalar_consistency() {
    let test_cases = vec![
        vec![0x41, 0x42, 0x43],
        vec![0x80, 0x81, 0x82],
        vec![0x41, 0x80, 0x42, 0x81],
        (0..255).collect::<Vec<u8>>(),
    ];
    for case in test_cases {
        let result1 = ucs1_to_utf8(&case);
        let bump = bumpalo::Bump::new();
        let result2 = ucs1_to_utf8_bump(&case, &bump);
        assert_eq!(result1.as_bytes(), result2);
    }
}

#[test]
fn simd_output_length_bounds() {
    let latin1_input: Vec<u8> = (128..=255).collect();
    let utf8_output = ucs1_to_utf8(&latin1_input);
    assert!(utf8_output.len() <= latin1_input.len() * 2);

    let bmp_input: Vec<u16> = vec![0x4E2D, 0x6587];
    let utf8_output = ucs2_to_utf8(&bmp_input);
    assert!(utf8_output.len() <= bmp_input.len() * 3);

    let unicode_input: Vec<u32> = vec![0x1F984, 0x1F680];
    let utf8_output = ucs4_to_utf8(&unicode_input);
    assert!(utf8_output.len() <= unicode_input.len() * 4);
}
