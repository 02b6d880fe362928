use yurki::arena::{
    is_management_point, memory_action, ucs2_to_utf8_bump, BumpAllocatorManager, MemoryAction,
    FREE_THRESHOLD, INITIAL_CAPACITY, RESET_THRESHOLD,
};
use yurki::engine::{map_sequential, map_texts, run_worker, Destination, WorkerResult};
use yurki::text::{decode_text, text_from_utf8, TextUnits};
use yurki::from_utf8::{analyze_utf8_simd, utf8_to_ucs1_simd, utf8_to_ucs2_simd, utf8_to_ucs4_simd};
use yurki::partition::make_range;
use yurki::to_utf8::{ucs1_to_utf8, ucs2_to_utf8};
use yurki::transforms::AsciiUppercase;

fn text_of(s: &str) -> TextUnits {
    let max = s.chars().map(|c| c as u32).max().unwrap_or(0);
    if max <= 0xFF {
        TextUnits::Ucs1(s.chars().map(|c| c as u8).collect())
    } else if max <= 0xFFFF {
        TextUnits::Ucs2(s.encode_utf16().collect())
    } else {
        TextUnits::Ucs4(s.chars().map(|c| c as u32).collect())
    }
}

#[test]
fn partition_distributes_remainder_first() {
    assert_eq!(make_range(10, 3, 0), (0, 4));
    assert_eq!(make_range(10, 3, 1), (4, 7));
    assert_eq!(make_range(10, 3, 2), (7, 10));
    assert_eq!(make_range(5, 5, 4), (4, 5));
    assert_eq!(make_range(7, 1, 0), (0, 7));
}

#[test]
fn partition_tiles_every_length() {
    for len in 1..=40usize {
        for jobs in 1..=len {
            let mut next = 0;
            for i in 0..jobs {
                let (start, end) = make_range(len, jobs, i);
                assert_eq!(start, next);
                assert!(start < end);
                next = end;
            }
            assert_eq!(next, len);
        }
    }
}

#[test]
fn ascii_view_aliases_input() {
    let short = b"plain ascii".to_vec();
    let r = ucs1_to_utf8(&short);
    assert!(r.is_borrowed());
    assert_eq!(r.as_bytes().as_ptr(), short.as_ptr());

    let long = "q".repeat(500).into_bytes();
    let r = ucs1_to_utf8(&long);
    assert!(r.is_borrowed());
    assert_eq!(r.as_bytes().as_ptr(), long.as_ptr());

    let mut mixed = long.clone();
    mixed[499] = 0xE9;
    let r = ucs1_to_utf8(&mixed);
    assert!(!r.is_borrowed());
    assert_eq!(r.len(), 501);
}

#[test]
fn output_length_with_surrogate_pairs() {
    let units: Vec<u16> = "🦀🦀🦀".encode_utf16().collect();
    let out = ucs2_to_utf8(&units);
    assert_eq!(out.len(), 12);
    assert!(out.len() <= 3 * units.len());
}

#[test]
fn lone_surrogates_are_lenient() {
    // isolated low surrogate skipped, trailing high surrogate dropped
    let units = vec![0x61u16, 0xDC00, 0x62, 0xD83E];
    assert_eq!(ucs2_to_utf8(&units), b"ab".to_vec());
}

#[test]
fn ucs2_pair_across_block_boundary() {
    let mut s = "a".repeat(55);
    s.push('🦀');
    s.push_str(&"b".repeat(10));
    let units: Vec<u16> = s.encode_utf16().collect();
    assert_eq!(ucs2_to_utf8(&units), s.as_bytes());
}

#[test]
fn decoders_stop_when_output_is_full() {
    let mut buf = [0u16; 2];
    assert_eq!(utf8_to_ucs2_simd("a🦀".as_bytes(), &mut buf), 1);
    assert_eq!(buf, [0x61, 0]);

    let mut buf4 = [7u32; 3];
    assert_eq!(utf8_to_ucs4_simd("héllo".as_bytes(), &mut buf4), 3);
    assert_eq!(buf4, [0x68, 0xE9, 0x6C]);

    let mut buf1 = [0u8; 10];
    assert_eq!(utf8_to_ucs1_simd("aé漢b".as_bytes(), &mut buf1), 3);
    assert_eq!(&buf1[..3], &[0x61, 0xE9, 0x62]);
}

#[test]
fn long_inputs_take_the_block_path() {
    let s = format!("{}é{}漢{}", "x".repeat(70), "y".repeat(20), "z".repeat(30));
    assert_eq!(analyze_utf8_simd(s.as_bytes()), (s.chars().count(), 0x6F22));

    let mut buf4 = vec![0u32; 200];
    let n = utf8_to_ucs4_simd(s.as_bytes(), &mut buf4);
    let expected: Vec<u32> = s.chars().map(|c| c as u32).collect();
    assert_eq!(&buf4[..n], &expected[..]);

    let mut buf2 = vec![0u16; 200];
    let n = utf8_to_ucs2_simd(s.as_bytes(), &mut buf2);
    let expected: Vec<u16> = s.encode_utf16().collect();
    assert_eq!(&buf2[..n], &expected[..]);

    let latin = format!("{}é{}", "x".repeat(70), "y".repeat(20));
    let mut buf1 = vec![0u8; 200];
    let n = utf8_to_ucs1_simd(latin.as_bytes(), &mut buf1);
    let expected: Vec<u8> = latin.chars().map(|c| c as u8).collect();
    assert_eq!(&buf1[..n], &expected[..]);
}

#[test]
fn memory_policy_thresholds() {
    assert_eq!(memory_action(0), MemoryAction::Keep);
    assert_eq!(memory_action(RESET_THRESHOLD), MemoryAction::Keep);
    assert_eq!(memory_action(RESET_THRESHOLD + 1), MemoryAction::Reset);
    assert_eq!(memory_action(FREE_THRESHOLD), MemoryAction::Reset);
    assert_eq!(memory_action(FREE_THRESHOLD + 1), MemoryAction::Release);
    assert_eq!(RESET_THRESHOLD, 16 * 1024 * 1024);
    assert_eq!(FREE_THRESHOLD, 32 * 1024 * 1024);
    assert_eq!(INITIAL_CAPACITY, 256 * 1024);
    assert!(is_management_point(0));
    assert!(!is_management_point(99));
    assert!(is_management_point(200));
}

#[test]
fn arena_reset_keeps_capacity_and_release_frees() {
    let mut mgr = BumpAllocatorManager::new("test".to_string());
    mgr.manage_memory();
    assert_eq!(mgr.last_action, MemoryAction::Keep);

    mgr.bump.alloc_slice_fill_copy(17 * 1024 * 1024, 0u8);
    let before = mgr.bump.allocated_bytes();
    assert!(before > RESET_THRESHOLD && before <= FREE_THRESHOLD);
    mgr.manage_memory();
    assert_eq!(mgr.last_action, MemoryAction::Reset);
    // the chunk that held the allocation is kept
    assert!(mgr.bump.allocated_bytes() >= 17 * 1024 * 1024);

    mgr.bump.alloc_slice_fill_copy(40 * 1024 * 1024, 0u8);
    assert!(mgr.bump.allocated_bytes() > FREE_THRESHOLD);
    mgr.manage_memory();
    assert_eq!(mgr.last_action, MemoryAction::Release);
    assert!(mgr.bump.allocated_bytes() < 1024 * 1024);
    assert_eq!(mgr.name, "test");
}

#[test]
fn arena_copy_holds_converted_bytes() {
    let bump = bumpalo::Bump::new();
    let units: Vec<u16> = "Ω漢".encode_utf16().collect();
    let view = ucs2_to_utf8_bump(&units, &bump);
    assert_eq!(view, "Ω漢".as_bytes());
}

#[test]
fn decode_text_of_each_width() {
    let bump = bumpalo::Bump::new();
    for s in ["abc", "déjà", "", "漢字", "a🦀b"] {
        let t = text_of(s);
        assert_eq!(decode_text(&t, &bump), s.as_bytes());
    }
    let t = TextUnits::Ucs1(b"zero copy".to_vec());
    if let TextUnits::Ucs1(u) = &t {
        assert_eq!(decode_text(&t, &bump).as_ptr(), u.as_ptr());
    }
}

#[test]
fn end_to_end_scenario() {
    let input = ["abc", "déjà", "", "漢字"];
    let texts: Vec<TextUnits> = input.iter().map(|s| text_of(s)).collect();
    let expected: Vec<Vec<u8>> = ["ABC", "déjà", "", "漢字"].iter().map(|s| s.as_bytes().to_vec()).collect();
    assert_eq!(map_texts(&texts, 1, &AsciiUppercase), expected);
    assert_eq!(map_texts(&texts, 4, &AsciiUppercase), expected);
}

#[test]
fn result_does_not_depend_on_jobs() {
    let words = ["alpha", "Beta", "gämma", "δέλτα", "🦀crab", "", "x"];
    let texts: Vec<TextUnits> = (0..250).map(|i| text_of(words[i % words.len()])).collect();
    let one = map_texts(&texts, 1, &AsciiUppercase);
    for jobs in [2usize, 3, 8, 250, 1000] {
        assert_eq!(map_texts(&texts, jobs, &AsciiUppercase), one);
    }
    assert_eq!(map_sequential(&texts, &AsciiUppercase), one);
    assert_eq!(one[0], b"ALPHA".to_vec());
    assert_eq!(one[2], "gämma".as_bytes().to_vec());
    assert!(map_texts(&Vec::new(), 3, &AsciiUppercase).is_empty());
}

#[test]
fn worker_results_are_indexed() {
    let texts: Vec<TextUnits> = ["a", "b", "c", "d"].iter().map(|s| text_of(s)).collect();
    let results = run_worker(&texts, 1, 3, &AsciiUppercase, "w".to_string());
    assert_eq!(results.len(), 2);
    let mut dest: Destination<Vec<u8>> = Destination::new(4);
    dest.set_transfer(0, b"A".to_vec());
    dest.set_transfer(3, b"D".to_vec());
    for r in results.into_iter().rev() {
        assert!(matches!(r, WorkerResult::Finalized(_, _)));
        dest.write_back(r);
    }
    assert!(dest.is_written(1) && dest.is_written(2));
    assert_eq!(dest.into_vec(), vec![b"A".to_vec(), b"B".to_vec(), b"C".to_vec(), b"D".to_vec()]);
}

#[test]
fn text_from_utf8_picks_narrowest_width() {
    assert!(matches!(text_from_utf8(b"abc"), TextUnits::Ucs1(ref u) if u == b"abc"));
    assert!(matches!(text_from_utf8("déjà".as_bytes()), TextUnits::Ucs1(ref u) if u == &[0x64, 0xE9, 0x6A, 0xE0]));
    assert!(matches!(text_from_utf8("Ωé".as_bytes()), TextUnits::Ucs2(ref u) if u == &[0x3A9, 0xE9]));
    assert!(matches!(text_from_utf8("a🦀".as_bytes()), TextUnits::Ucs4(ref u) if u == &[0x61, 0x1F980]));
    assert!(matches!(text_from_utf8(b""), TextUnits::Ucs1(ref u) if u.is_empty()));
    let long = format!("{}漢{}", "k".repeat(80), "m".repeat(80));
    let bump = bumpalo::Bump::new();
    let t = text_from_utf8(long.as_bytes());
    assert!(matches!(t, TextUnits::Ucs2(_)));
    assert_eq!(decode_text(&t, &bump), long.as_bytes());
}

#[test]
fn round_trip() {
    let bump = bumpalo::Bump::new();
    let text = text_from_utf8("Γειά σου Κόσμε".as_bytes());
    assert!(matches!(text, TextUnits::Ucs2(_)));
    assert_eq!(decode_text(&text, &bump), "Γειά σου Κόσμε".as_bytes());
}
