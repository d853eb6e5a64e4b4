use smolgpt::args::parse_vocab_size;
use smolgpt::calendar::days_to_ymd;
use smolgpt::calendar::format_iso;
use smolgpt::error::SmolError;
use smolgpt::layout::estimate_params;
use smolgpt::number::parse_i64;
use smolgpt::number::parse_usize;
use smolgpt::number::push_decimal;
use smolgpt::number::push_signed;
use smolgpt::paths::derive_id;
use smolgpt::paths::derive_variant_path;
use smolgpt::paths::file_name_text;
use smolgpt::paths::file_stem_text;
use smolgpt::paths::has_extension;
use smolgpt::paths::id_from_parts;
use smolgpt::paths::strip_variant_suffix;
use smolgpt::schedule::heads_schedule_to_csv;
use smolgpt::schedule::parse_heads_schedule_column;
use smolgpt::schedule::representative_heads;
use smolgpt::schedule::resolve_heads_schedule;
use smolgpt::schedule::validate_heads_schedule;
use smolgpt::text::less_text;
use smolgpt::thousands::push_thousands;

#[test]
fn test_derive_id_basic() {
    assert_eq!(derive_id("gpt-arithmetic-1digit-nonneg.bin"), "gpt-arithmetic-1digit-nonneg");
    assert_eq!(derive_id("gpt-arithmetic-1digit.bin"), "gpt-arithmetic-1digit");
}

#[test]
fn test_derive_id_replaces_non_alnum_runs() {
    assert_eq!(derive_id("foo  bar__baz.bin"), "foo-bar-baz");
    assert_eq!(derive_id("__foo__.bin"), "foo");
    assert_eq!(derive_id("GPT_Char.Bin"), "gpt-char");
}

#[test]
fn test_estimate_params_bigram() {
    let p = estimate_params("bigram", 100, 16, 32, 2);
    assert_eq!(p, Some(100 * 100));
}

#[test]
fn test_estimate_params_gpt_known() {
    let p = estimate_params("gpt", 14, 32, 32, 6).unwrap();
    assert!((p as i64 - 77582).abs() < 100, "got {p}, expected ~77582");
}

#[test]
fn test_estimate_params_unknown_type() {
    assert_eq!(estimate_params("mystery", 100, 16, 32, 2), None);
}

#[test]
fn test_format_iso_known_epoch() {
    assert_eq!(format_iso(0), "1970-01-01T00:00:00Z");
    assert_eq!(format_iso(1704067200), "2024-01-01T00:00:00Z");
    let s = format_iso(1720758000);
    assert!(s.starts_with("2024-07-12T04:20:00Z"), "got {s}");
}

#[test]
fn test_format_iso_negative() {
    assert_eq!(format_iso(-1), "1969-12-31T23:59:59Z");
}

#[test]
fn test_strip_variant_suffix() {
    assert_eq!(
        strip_variant_suffix("gpt-arithmetic-add-rft"),
        Some("gpt-arithmetic-add".to_string())
    );
    assert_eq!(
        strip_variant_suffix("gpt-arithmetic-add-1digit-dedup-grpo"),
        Some("gpt-arithmetic-add-1digit-dedup".to_string())
    );
    assert_eq!(strip_variant_suffix("gpt-arithmetic-add-1digit-grpo-smoke"), None);
    assert_eq!(strip_variant_suffix("gpt-arithmetic-add"), None);
    assert_eq!(strip_variant_suffix("foo-bar-baz"), None);
}

#[test]
fn test_derive_variant_path_basic() {
    assert_eq!(
        derive_variant_path("gpt-arithmetic-add-1digit.bin", "rft"),
        "gpt-arithmetic-add-1digit-rft.bin"
    );
    assert_eq!(derive_variant_path("foo.bin", "grpo"), "foo-grpo.bin");
    assert_eq!(derive_variant_path("models/gpt.bin", "rft"), "models/gpt-rft.bin");
    assert_eq!(derive_variant_path("models/gpt", "rft"), "models/gpt-rft.bin");
}

#[test]
fn test_parse_heads_schedule_column_uses_stored_schedule() {
    assert_eq!(parse_heads_schedule_column("1,1,4,4", 1, 4), vec![1, 1, 4, 4]);
    assert_eq!(parse_heads_schedule_column("4", 4, 1), vec![4]);
}

#[test]
fn test_parse_heads_schedule_column_falls_back_when_empty() {
    assert_eq!(parse_heads_schedule_column("", 4, 2), vec![4, 4]);
    assert_eq!(parse_heads_schedule_column("   ", 2, 3), vec![2, 2, 2]);
}

#[test]
fn test_parse_heads_schedule_column_falls_back_when_malformed() {
    assert_eq!(parse_heads_schedule_column("oops", 4, 2), vec![4, 4]);
    assert_eq!(parse_heads_schedule_column("1,oops,4", 4, 2), vec![4, 4]);
}

#[test]
fn dates_agree_with_a_day_by_day_calendar() {
    let (mut y, mut m, mut d) = (1900i64, 1u32, 1u32);
    let lengths = [31, 28, 31, 30, 31, 30, 31, 31, 30, 31, 30, 31];
    for day in -25567i64..=60000 {
        assert_eq!(days_to_ymd(day), (y, m, d), "day {day}");
        let leap = (y % 4 == 0 && y % 100 != 0) || y % 400 == 0;
        let len = if m == 2 && leap { 29 } else { lengths[m as usize - 1] };
        if d < len {
            d += 1;
        } else if m < 12 {
            m += 1;
            d = 1;
        } else {
            y += 1;
            m = 1;
            d = 1;
        }
    }
}

#[test]
fn times_of_day_are_shown() {
    assert_eq!(format_iso(86399), "1970-01-01T23:59:59Z");
    assert_eq!(format_iso(951782400), "2000-02-29T00:00:00Z");
}

#[test]
fn paths_agree_with_std() {
    let paths = [
        "a.bin", "dir/a.bin", "dir/a", "a.b.c", ".hidden", "dir/.hidden", "dir/", "/", "", "..",
        "a/..", "a/.", "x//y.z", "/abs/file.tar.gz", "dir/a.", "./m.bin",
    ];
    for p in paths {
        let std_path = std::path::Path::new(p);
        let name = std_path.file_name().and_then(|s| s.to_str()).unwrap_or("");
        let stem = std_path.file_stem().and_then(|s| s.to_str()).unwrap_or("");
        assert_eq!(file_name_text(p), name, "file name of {p:?}");
        assert_eq!(file_stem_text(p), stem, "stem of {p:?}");
        let ext = std_path.extension().and_then(|s| s.to_str()).unwrap_or("bin");
        let want = std_path.with_file_name(format!("{stem}-rft.{ext}"));
        assert_eq!(
            std::path::PathBuf::from(derive_variant_path(p, "rft")),
            want,
            "variant of {p:?}"
        );
    }
}

#[test]
fn extensions_are_recognised() {
    assert!(has_extension("plot.png", "png"));
    assert!(!has_extension("plot.PNG", "png"));
    assert!(!has_extension(".png", "png"));
    assert!(!has_extension("png", "png"));
}

#[test]
fn ids_of_other_scripts() {
    assert_eq!(derive_id("dir/ÜBER Straße.bin"), "über-straße");
    assert_eq!(derive_id("İ.bin"), "i\u{307}");
    assert_eq!(derive_id(".bin"), "bin");
    assert_eq!(derive_id("---.bin"), "");
    let parts = vec![None, Some("a".to_string()), None, None, Some("b".to_string()), None];
    assert_eq!(id_from_parts(&parts), "a-b");
}

#[test]
fn numbers_are_written_and_read() {
    for n in [0i64, 7, -7, 10, i64::MAX, i64::MIN] {
        let mut s = String::from("x");
        push_signed(&mut s, n);
        assert_eq!(s, format!("x{n}"));
        assert_eq!(parse_i64(&n.to_string()), Some(n));
    }
    let mut s = String::new();
    push_decimal(&mut s, u64::MAX);
    assert_eq!(s, u64::MAX.to_string());
    for t in ["", "-", "+", "+5", "-0", "12a", "9223372036854775808", "-9223372036854775809"] {
        assert_eq!(parse_i64(t), t.parse::<i64>().ok(), "{t:?}");
        assert_eq!(parse_usize(t), t.parse::<usize>().ok(), "{t:?}");
    }
}

#[test]
fn thousands_agree_with_floating_point() {
    let check = |p: i64| {
        let k = p as f64 / 1000.0;
        let want = if p >= 10_000 { format!("{k:.0}K") } else { format!("{k:.1}K") };
        let mut got = String::new();
        push_thousands(&mut got, p);
        assert_eq!(got, want, "{p}");
    };
    for p in -12_000..20_000 {
        check(p);
    }
    let mut p: i64 = 1;
    for _ in 0..62 {
        for d in -3..=3 {
            check(p + d);
            check(-(p + d));
        }
        p *= 2;
    }
    for d in 0..2000 {
        check(999_500 + d);
        check(9_007_199_254_740_992 + d * 499);
        check(i64::MAX - d);
    }
}

#[test]
fn vocabulary_sizes() {
    assert_eq!(parse_vocab_size("1024"), Ok(1024));
    assert_eq!(parse_vocab_size("256"), Ok(256));
    assert!(parse_vocab_size("255").is_err());
    let why = "abc".parse::<usize>().unwrap_err().to_string();
    let got = parse_vocab_size("abc").unwrap_err();
    assert!(got.contains(&why), "{got}");
    let why = "".parse::<usize>().unwrap_err().to_string();
    assert!(parse_vocab_size("").unwrap_err().contains(&why));
}

#[test]
fn schedules_read_back() {
    let s = vec![1, 2, 4, 8];
    let text = heads_schedule_to_csv(&s);
    assert_eq!(text, "1,2,4,8");
    assert_eq!(parse_heads_schedule_column(&text, 0, 0), s);
    assert_eq!(parse_heads_schedule_column(" 1 , 2 ", 0, 0), vec![1, 2]);
    assert_eq!(parse_heads_schedule_column("3,5", i64::MAX, i64::MIN), vec![3, 5]);
    assert_eq!(parse_heads_schedule_column("", i64::MAX, 1), vec![i64::MAX as usize]);
    assert_eq!(parse_heads_schedule_column("", 4, -1), Vec::<usize>::new());
    assert_eq!(representative_heads(&s), 1);
    assert_eq!(representative_heads(&vec![]), 0);
}

#[test]
fn schedules_are_resolved_and_checked() {
    assert_eq!(resolve_heads_schedule(&vec![4], 3).unwrap(), vec![4, 4, 4]);
    assert_eq!(resolve_heads_schedule(&vec![1, 2], 2).unwrap(), vec![1, 2]);
    assert!(matches!(
        resolve_heads_schedule(&vec![1, 2], 3),
        Err(SmolError::InvalidArgument(_))
    ));
    assert!(validate_heads_schedule(16, &vec![1, 2], 2).is_ok());
    assert!(validate_heads_schedule(16, &vec![1, 3], 2).is_err());
    assert!(validate_heads_schedule(16, &vec![0, 1], 2).is_err());
}

#[test]
fn errors_are_shown() {
    assert_eq!(SmolError::dataset_error("a").text(), "Dataset error: a");
    assert_eq!(SmolError::invalid_argument("b").text(), "Invalid argument error: b");
    assert_eq!(SmolError::custom_error("c").text(), "Got error: c");
    assert_eq!(SmolError::CandleError("d".to_string()).text(), "Candle error: d");
}

#[test]
fn texts_are_ordered_like_strings() {
    let words = ["", "a", "ab", "b", "B", "é", "zz", "😀", "a\u{10FFFF}"];
    for x in words {
        for y in words {
            assert_eq!(less_text(x, y), x < y, "{x:?} {y:?}");
        }
    }
}

#[test]
fn texts_of_moments_are_ordered() {
    let moments = [
        -62_167_219_200i64,
        -62_167_219_199,
        -1,
        0,
        59,
        60,
        3_599,
        3_600,
        86_399,
        86_400,
        951_782_400,
        951_868_800,
        253_402_300_799,
    ];
    for pair in moments.windows(2) {
        let (a, b) = (format_iso(pair[0]), format_iso(pair[1]));
        assert_eq!((a.len(), b.len()), (20, 20));
        assert!(a < b, "{a} {b}");
    }
    assert_eq!(format_iso(moments[0]), "0000-01-01T00:00:00Z");
    assert_eq!(format_iso(moments[12]), "9999-12-31T23:59:59Z");
}

#[test]
fn ids_of_ascii_names_are_plain() {
    for (path, id) in [
        ("a/B_c..D.bin", "b-c-d"),
        ("--x--", "x"),
        ("___.bin", ""),
        ("9.tar.gz", "9-tar"),
        ("", ""),
    ] {
        assert_eq!(derive_id(path), id);
        if !id.is_empty() {
            assert_eq!(derive_id(&format!("{id}.bin")), id);
        }
    }
}

#[test]
fn variant_paths_lead_back_to_the_base_id() {
    for base in ["gpt.bin", "dir/sub/My Model_2.bin", "/x.y.", "./a--", "b/./", "c-rft.bin", "ÄÖ ß.bin", "İx-é.bin"] {
        for suffix in ["rft", "grpo"] {
            let id = derive_id(&derive_variant_path(base, suffix));
            assert_eq!(strip_variant_suffix(&id), Some(derive_id(base)), "{base}");
        }
    }
    assert_eq!(strip_variant_suffix("-rft"), None);
    assert_eq!(strip_variant_suffix("rft"), None);
    assert_eq!(strip_variant_suffix("a-rft-grpo"), Some("a-rft".to_string()));
}
