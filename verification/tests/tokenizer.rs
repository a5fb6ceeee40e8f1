use cooee::asr::onnx::tokenizer::{
    bpe, byte_of, bytes_to_unicode, parse_merges, pre_tokenize, Tokenizer, TokenizerError,
};

#[test]
fn byte_table_matches_gpt2() {
    let table = bytes_to_unicode();
    assert_eq!(table[b' ' as usize], 'Ġ');
    assert_eq!(table[b'a' as usize], 'a');
    assert_eq!(table[b'\n' as usize], 'Ċ');
    assert_eq!(table[0xC3], 'Ã');
    assert_eq!(table[0xA9], '©');
}

#[test]
fn pre_tokenizer_follows_the_gpt2_pattern() {
    assert_eq!(pre_tokenize("Hello world"), vec!["Hello", " world"]);
    assert_eq!(pre_tokenize("Hello  world"), vec!["Hello", " ", " world"]);
    assert_eq!(
        pre_tokenize("it's 2026, isn't it?"),
        vec!["it", "'s", " 2026", ",", " isn", "'t", " it", "?"]
    );
    assert_eq!(pre_tokenize(" Klaus, Cooee."), vec![" Klaus", ",", " Cooee", "."]);
    assert_eq!(pre_tokenize("a\n\nb"), vec!["a", "\n", "\n", "b"]);
    assert_eq!(pre_tokenize("x  "), vec!["x", "  "]);
}

fn entries(list: &[(&str, u32)]) -> Vec<(String, u32)> {
    list.iter().map(|(k, v)| (k.to_string(), *v)).collect()
}

#[test]
fn decodes_bytes_and_skips_specials() {
    let vocab = entries(&[("Hello", 0), ("Ġcaf", 1), ("Ã©", 2), ("<|endoftext|>", 3)]);
    let tokenizer = Tokenizer::from_parts(vocab, None);
    assert_eq!(tokenizer.decode(&[0, 1, 2, 3], 3), "Hello café");
    assert!(!tokenizer.can_encode());
    assert_eq!(tokenizer.encode("x"), None);
}

#[test]
fn decodes_the_sample_transcript() {
    let vocab = entries(&[
        (".", 13),
        ("Ġthe", 262),
        ("ĠThe", 383),
        ("Ġover", 625),
        ("Ġquick", 2068),
        ("Ġdog", 3290),
        ("Ġbrown", 7586),
        ("Ġlazy", 16931),
        ("Ġjumps", 18045),
        ("Ġfox", 21831),
        ("<|endoftext|>", 50256),
    ]);
    let tokenizer = Tokenizer::from_parts(vocab, None);
    let ids = [50257, 50362, 383, 2068, 7586, 21831, 18045, 625, 262, 16931, 3290, 13, 50256];
    assert_eq!(
        tokenizer.decode(&ids, 50256).trim(),
        "The quick brown fox jumps over the lazy dog."
    );
}

/// A vocabulary of the 256 bytes and some tokens, and the rules that build those
/// tokens from the left.
fn tokenizer_of(tokens: &[(&str, u32)]) -> Tokenizer {
    let mut vocab: Vec<(String, u32)> = Vec::new();
    for (b, c) in bytes_to_unicode().iter().enumerate() {
        vocab.push((c.to_string(), 60_000 + b as u32));
    }
    let mut rules = String::from("#version: 0.2\n");
    for (token, id) in tokens {
        vocab.push((token.to_string(), *id));
        let chars: Vec<char> = token.chars().collect();
        for n in 1..chars.len() {
            let left: String = chars[..n].iter().collect();
            rules.push_str(&format!("{} {}\n", left, chars[n]));
        }
    }
    Tokenizer::from_parts(vocab, Some(parse_merges(&rules)))
}

#[test]
fn encodes_like_gpt2() {
    let tokenizer = tokenizer_of(&[
        (".", 13),
        ("Ġthe", 262),
        ("ĠThe", 383),
        ("Ġover", 625),
        ("Ġquick", 2068),
        ("Ġdog", 3290),
        ("Ġbrown", 7586),
        ("Ġlazy", 16931),
        ("Ġjumps", 18045),
        ("Ġfox", 21831),
        ("Hello", 15496),
        ("Ġ", 220),
        ("Ġworld", 995),
    ]);
    assert!(tokenizer.can_encode());
    let cases: [(&str, &[u32]); 2] = [
        (
            " The quick brown fox jumps over the lazy dog.",
            &[383, 2068, 7586, 21831, 18045, 625, 262, 16931, 3290, 13],
        ),
        ("Hello  world", &[15496, 220, 995]),
    ];
    for (text, ids) in cases {
        assert_eq!(tokenizer.encode(text).unwrap(), ids, "{text:?}");
        assert_eq!(tokenizer.decode(ids, 50256), text);
    }
}

#[test]
fn non_ascii_round_trips() {
    let tokenizer = tokenizer_of(&[("Ġna", 1), ("Ã©", 2)]);
    for text in [" naïve café", "日本語 テキスト", " emoji 🎉 here"] {
        let ids = tokenizer.encode(text).unwrap();
        assert_eq!(tokenizer.decode(&ids, 70_000), text);
    }
}

#[test]
fn the_byte_table_runs_backwards() {
    for (b, c) in bytes_to_unicode().iter().enumerate() {
        assert_eq!(byte_of(*c), Some(b as u8));
    }
    assert_eq!(byte_of('\u{4E00}'), None);
    assert_eq!(byte_of(' '), None);
}

#[test]
fn bytes_that_are_no_text_are_replaced() {
    let tokenizer = Tokenizer::from_parts(entries(&[("Ã", 0), ("a", 1), ("日", 2)]), None);
    assert_eq!(tokenizer.decode(&[0, 1], 9), "\u{FFFD}a");
    // A character outside the table stands for nothing; an unknown id neither.
    assert_eq!(tokenizer.decode(&[2, 1, 5], 9), "a");
}

#[test]
fn the_lowest_rank_merges_first() {
    let rules = parse_merges("#version\nb c\na b\nab c\n\nbroken\n");
    let word = |s: &str| s.chars().map(|c| vec![c]).collect::<Vec<Vec<char>>>();
    assert_eq!(bpe(word("abc"), &rules), vec![vec!['a'], vec!['b', 'c']]);
    assert_eq!(bpe(word("abab"), &rules), vec![vec!['a', 'b'], vec!['a', 'b']]);
    assert_eq!(bpe(word("zz"), &rules), vec![vec!['z'], vec!['z']]);
    assert_eq!(bpe(word(""), &rules), Vec::<Vec<char>>::new());
    assert_eq!(rules.rank(&['b'], &['c']), Some(0));
    assert_eq!(rules.rank(&['a', 'b'], &['c']), Some(2));
    assert_eq!(rules.rank(&['c'], &['c']), None);
}

#[test]
fn a_merged_symbol_without_an_id_falls_back_to_its_characters() {
    let tokenizer =
        Tokenizer::from_parts(entries(&[("a", 1), ("b", 2)]), Some(parse_merges("a b\n")));
    assert_eq!(tokenizer.encode("ab!"), Some(vec![1, 2]));
}

#[test]
fn a_tokenizer_is_read_from_its_files() {
    let t = Tokenizer::load(r#"{ "a": 0, "b": 1, "ab": 2 }"#, Some("#v\na b\n")).unwrap();
    assert_eq!(t.encode("abb"), Some(vec![2, 1]));
    assert_eq!(t.decode(&[2, 1], 3), "abb");
    let t = Tokenizer::load("{}", None).unwrap();
    assert!(!t.can_encode());
    for broken in ["[1]", "{ \"a\": -1 }", "{ \"a\": \"b\" }", "nope"] {
        assert_eq!(Tokenizer::load(broken, None).err(), Some(TokenizerError::Vocabulary));
    }
}

#[test]
fn a_number_that_is_alphabetic_is_a_number() {
    assert_eq!(pre_tokenize("a\u{2167}"), vec!["a", "\u{2167}"]);
    assert_eq!(pre_tokenize("\u{2167}\u{2168}b 4\u{2160}"), vec!["\u{2167}\u{2168}", "b", " 4\u{2160}"]);
}

#[test]
fn encodes_contractions_and_numbers_like_gpt2() {
    let tokenizer = tokenizer_of(&[
        (",", 11),
        (".", 13),
        ("?", 30),
        ("o", 78),
        ("\u{120}it", 340),
        ("\u{120}isn", 2125),
        ("it", 270),
        ("'s", 338),
        ("'t", 470),
        ("\u{120}20", 1160),
        ("26", 2075),
        ("\u{120}Co", 1766),
        ("ee", 1453),
        ("\u{120}Klaus", 40559),
    ]);
    let cases: [(&str, &[u32]); 2] = [
        (" Klaus, Cooee.", &[40559, 11, 1766, 78, 1453, 13]),
        ("it's 2026, isn't it?", &[270, 338, 1160, 2075, 11, 2125, 470, 340, 30]),
    ];
    for (text, ids) in cases {
        assert_eq!(tokenizer.encode(text).unwrap(), ids, "{text:?}");
        assert_eq!(tokenizer.decode(ids, 50256), text);
    }
}

#[test]
fn an_enclosed_letter_is_a_symbol() {
    assert_eq!(pre_tokenize("a\u{24B6}b"), vec!["a", "\u{24B6}", "b"]);
    assert_eq!(pre_tokenize(" \u{1F130}!"), vec![" \u{1F130}!"]);
}

#[test]
fn a_bad_vocabulary_is_explained() {
    assert_eq!(TokenizerError::Vocabulary.message(), "parse vocab.json");
}
