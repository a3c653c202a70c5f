use p_memory::text;

#[test]
fn clean_markdown_matches_reference() {
    let cases = [
        ("# 标题\n\n正文 **粗体** 与 *斜体* 和 _下划线_", "标题\n\n正文 粗体 与 斜体 和 下划线"),
        ("见 [链接](http://a.b) 与 ![图片](http://c.d)", "见 链接 与 !图片"),
        ("```py\nprint(1)\n```\n后面 `行内` 文字", "后面 行内 文字"),
        ("- 项目一\n- 项目二\n1. 有序\n> 引用\n\n---", "项目一\n项目二\n有序\n引用"),
        ("| 列A | 列B |\n|---|---|\n| 1 | 2 |", "列A   列B  \n   \n  1   2"),
        ("<div>标签</div> 普通文本", "标签 普通文本"),
        ("混合 **粗** [链](u) `码` 尾", "混合 粗 链 码 尾"),
        ("  ## 缩进标题  ", "缩进标题"),
    ];
    for (input, expected) in cases {
        assert_eq!(text::clean_markdown(input), expected, "input={input:?}");
    }
}

#[test]
fn token_count_follows_character_density() {
    assert_eq!(text::count_tokens(""), 0);
    assert_eq!(text::count_tokens("abcd"), 1);
    assert_eq!(text::count_tokens("abcde"), 2);
    assert_eq!(text::count_tokens("中"), 1);
    assert_eq!(text::count_tokens("中国"), 1);
    assert_eq!(text::count_tokens("中国人"), 2);
    // Cutting and counting agree: what was cut stays within the budget.
    assert_eq!(text::truncate_to_tokens("abcd", 1), "abcd");
    assert_eq!(text::truncate_to_tokens("abcde", 1), "abcd");
    assert_eq!(text::truncate_to_tokens("中国人", 1), "中国");
    assert!(text::count_tokens(&text::truncate_to_tokens("中国人", 1)) <= 1);
}

/// Texts are compared without their case, width and typographic quotes.
#[test]
fn texts_are_compared_in_a_plain_form() {
    assert_eq!(text::normalize_text("  ＡＰＩ　ÀÉ “x” ‘y’ "), "api àé \"x\" 'y'");
    assert_eq!(text::normalize_text("İ").chars().count(), 2);
    assert_eq!(text::normalized_tag(" Rust \t  LANG "), "rust lang");
    assert!(text::is_cjk('茶') && !text::is_cjk('a') && !text::is_cjk('あ'));
}

/// Ideographs are found alone and in pairs, words whole.
#[test]
fn tokens_are_words_ideographs_and_pairs() {
    let tokens = text::tokenize("上海茶 Rust_2 ＡＰＩ, ①");
    for token in ["上", "海", "茶", "上海", "海茶", "rust_2", "api"] {
        assert!(tokens.contains(&token.to_string()), "{token} in {tokens:?}");
    }
    assert!(!tokens.iter().any(|token| token.contains(',')));
    let strict = text::query_terms("上海茶 茶", true);
    let loose = text::query_terms("上海茶 茶", false);
    for terms in [&strict, &loose] {
        for (i, term) in terms.iter().enumerate() {
            assert!(!terms[..i].contains(term), "{term} comes twice");
        }
    }
    assert!(strict.contains(&"上海".to_string()));
    assert!(text::query_terms("，。", false).is_empty());
}

/// Normalizing again changes no character, whatever it is; a tag is stored once and for all.
#[test]
fn normal_forms_stay() {
    for code in 0..=0x10ffffu32 {
        if let Some(ch) = char::from_u32(code) {
            let once = text::normalize_text(&format!("x{ch}"));
            assert_eq!(text::normalize_text(&once), once, "{code:x}");
        }
    }
    let caseless = [0x85..=0x85, 0xa0..=0xa0, 0x1680..=0x1680, 0x2000..=0x206f, 0x3000..=0x9fff, 0xf900..=0xfaff, 0x20000..=0x323afu32];
    for code in caseless.into_iter().flatten() {
        let ch = char::from_u32(code).unwrap();
        let plain = match ch {
            '\u{3000}' => ' ',
            '\u{2018}' | '\u{2019}' => '\'',
            '\u{201c}' | '\u{201d}' => '"',
            _ => ch,
        };
        assert_eq!(text::normalize_text(&format!("x{ch}x")), format!("x{plain}x"), "{code:x}");
    }
    for tag in [" RUST ", "rust", "Ｆｕｌｌ　Ｗｉｄｔｈ", " 茶 \u{2003} Tea\tTime ", "İstanbul", "“q”"] {
        let stored = text::normalized_tag(tag);
        assert_eq!(text::normalized_tag(&stored), stored);
        assert_eq!(stored.split(' ').collect::<Vec<_>>().join(" "), stored);
        assert!(stored.split(' ').all(|word| !word.is_empty() && !word.contains(char::is_whitespace)));
    }
    assert_eq!(text::normalized_tag(" RUST "), "rust");
}

/// A space separates, and every token has its shape.
#[test]
fn spaces_separate_tokens() {
    let parts = ["rust", "图书馆 a_1", "", " Tea\u{3000}茶 ", "x.y-z"];
    for a in parts {
        for b in parts {
            let mut both = text::tokenize(a);
            both.extend(text::tokenize(b));
            assert_eq!(text::tokenize(&format!("{a} {b}")), both);
            assert_eq!(text::tokenize(&text::normalize_text(&format!("{a} {b}"))), both);
            for token in both {
                let ideographs = token.chars().filter(|ch| text::is_cjk(*ch)).count();
                let length = token.chars().count();
                assert!(length > 0 && (ideographs == 0 || ideographs == length && length <= 2));
            }
        }
    }
    assert_eq!(text::tokenize("rust rust"), ["rust", "rust"]);
}
