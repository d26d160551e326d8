use llm_visuals::path;
use llm_visuals::text;

fn chars(s: &str) -> Vec<char> {
    text::chars_of(s)
}

fn string(c: Vec<char>) -> String {
    text::string_of(&c)
}

#[test]
fn trimming_and_splitting() {
    for s in ["", "  a b\u{a0}\t", "\u{3000}x\u{85}", "one  two\nthree ", ",,", "a,b,"] {
        assert_eq!(string(text::trim(&chars(s))), s.trim());
        let words: Vec<String> = text::words_of(&chars(s)).into_iter().map(string).collect();
        assert_eq!(words, s.split_whitespace().collect::<Vec<_>>());
        let parts: Vec<String> = text::split(&chars(s), ',').into_iter().map(string).collect();
        assert_eq!(parts, s.split(',').collect::<Vec<_>>());
        assert_eq!(text::is_blank(&chars(s)), s.trim().is_empty());
    }
}

#[test]
fn lines_end_with_or_without_a_return() {
    for s in ["", "\n", "a\r\nb\n\nc", "a\r", "\r\n\r\n", "a\n"] {
        let lines: Vec<String> = text::lines_of(&chars(s)).into_iter().map(string).collect();
        assert_eq!(lines, s.lines().collect::<Vec<_>>(), "{s:?}");
    }
}

#[test]
fn searching() {
    let s = chars("llama-server");
    assert!(text::contains(&s, "-ser"));
    assert!(!text::contains(&s, "srv"));
    assert!(text::contains(&s, ""));
    assert!(text::starts_with(&s, "llama"));
    assert!(text::ends_with(&s, "server"));
    assert_eq!(text::count_of(&chars("a/b/c"), '/'), 2);
    assert_eq!(text::utf8_size_of(&chars("aé€😀")), "aé€😀".len() as u128);
}

#[test]
fn whole_numbers() {
    let parse = |s: &str| text::parse_unsigned(&chars(s), 65535);
    assert_eq!(parse("+65535"), Some(65535));
    assert_eq!(parse("65536"), None);
    assert_eq!(parse("007"), Some(7));
    for s in ["", "+", "-1", " 1", "1a", "+-1"] {
        assert_eq!(parse(s), None);
        assert!(s.parse::<u16>().is_err());
    }
    for n in [0u64, 7, 10, 98304, u64::MAX] {
        assert_eq!(string(text::decimal_of(n)), n.to_string());
        assert_eq!(text::parse_unsigned(&text::decimal_of(n), u64::MAX), Some(n));
    }
}

#[test]
fn names_in_paths() {
    for s in ["/a/b.gguf", "b.tar.gz", ".hidden", "a/..", "/", "", "a//b/./", "..", "a.", "./x.y"] {
        let p = std::path::Path::new(s);
        let name = p.file_name().map(|n| n.to_str().unwrap().to_string());
        let stem = p.file_stem().map(|n| n.to_str().unwrap().to_string());
        let extension = p.extension().map(|n| n.to_str().unwrap().to_string());
        assert_eq!(path::file_name_of(&chars(s)).map(string), name, "{s}");
        assert_eq!(path::file_stem_of(&chars(s)).map(string), stem, "{s}");
        assert_eq!(path::extension_of(&chars(s)).map(string), extension, "{s}");
    }
}

#[test]
fn lower_case() {
    for s in ["", "vLLM", "/Models/QWEN3-8B.GGUF", "az09[]{}@`", "ÉTÉ", "ΑΣ", "İx"] {
        assert_eq!(text::lower_of(s), s.to_lowercase());
    }
    assert_eq!(text::lower_of("SGLang"), "sglang");
}
