//! Tests of the analysis of texts.

use sudachi::analysis::mode::Mode;
use sudachi::analysis::morpheme::Morpheme;
use sudachi::analysis::tokenizer::{tokenize, MorphemeList};
use sudachi::dic::category_type;
use sudachi::dic::category_type::CategoryType;
use sudachi::dic::character_category::CharacterCategory;
use sudachi::dic::{DictionaryLoader, LoadedDictionary};
use sudachi::error::SudachiError;
use sudachi::frontend::tokenizer::{LoadError, Tokenizer};
use sudachi::plugin::oov::{CategoryInfo, MeCabOovPlugin, OovDefinition, OovSettings};

/// A word of a test dictionary.
struct Word {
    surface: &'static str,
    param: (i16, i16, i16),
    pos_id: u16,
    reading: &'static str,
    dictionary_form: i32,
    a_split: Vec<u32>,
    synonyms: Vec<u32>,
}

fn word(surface: &'static str, pos_id: u16) -> Word {
    Word {
        surface,
        param: (0, 0, 100),
        pos_id,
        reading: "",
        dictionary_form: -1,
        a_split: vec![],
        synonyms: vec![],
    }
}

fn push_u16(out: &mut Vec<u8>, v: u16) {
    out.extend_from_slice(&v.to_le_bytes());
}

fn push_u32(out: &mut Vec<u8>, v: u32) {
    out.extend_from_slice(&v.to_le_bytes());
}

fn push_text(out: &mut Vec<u8>, text: &str) {
    let units: Vec<u16> = text.encode_utf16().collect();
    assert!(units.len() < 128);
    out.push(units.len() as u8);
    for unit in units {
        push_u16(out, unit);
    }
}

fn push_numbers(out: &mut Vec<u8>, numbers: &[u32]) {
    out.push(numbers.len() as u8);
    for n in numbers {
        push_u32(out, *n);
    }
}

fn header(version: u64) -> Vec<u8> {
    let mut out = version.to_le_bytes().to_vec();
    out.extend_from_slice(&1_600_000_000u64.to_le_bytes());
    let mut description = b"a test dictionary".to_vec();
    description.resize(256, 0);
    out.extend_from_slice(&description);
    out
}

fn grammar(pos_list: &[[&str; 6]], left: i16, right: i16, costs: &[i16]) -> Vec<u8> {
    let mut out = vec![];
    push_u16(&mut out, pos_list.len() as u16);
    for pos in pos_list {
        for text in pos {
            push_text(&mut out, text);
        }
    }
    push_u16(&mut out, left as u16);
    push_u16(&mut out, right as u16);
    for cost in costs {
        push_u16(&mut out, *cost as u16);
    }
    out
}

/// A block of a double array without nodes: no unit is a child of the block.
fn free_block() -> Vec<u32> {
    (0..256).map(|label: u32| label ^ 0xff).collect()
}

/// A double array that holds the keys with their values; each node has a block of its own.
fn double_array(keys: &[(Vec<u8>, u32)]) -> Vec<u32> {
    let mut units: Vec<u32> = free_block();
    units[0] = 0;
    let mut blocks: u32 = 1;
    let mut open: Vec<(u32, Vec<u8>)> = vec![(0, vec![])];
    while let Some((at, prefix)) = open.pop() {
        let mut labels: Vec<u8> = keys
            .iter()
            .filter(|(k, _)| k.len() > prefix.len() && k.starts_with(&prefix))
            .map(|(k, _)| k[prefix.len()])
            .collect();
        labels.sort();
        labels.dedup();
        let own = keys.iter().find(|(k, _)| *k == prefix);
        let block = blocks * 256;
        blocks += 1;
        units.extend_from_slice(&free_block());
        let offset = at ^ block;
        units[at as usize] |= offset << 10;
        if let Some((_, value)) = own {
            units[at as usize] |= 0x100;
            units[block as usize] = value | 0x8000_0000;
        }
        for label in labels {
            let child = block ^ label as u32;
            units[child as usize] = label as u32;
            let mut next = prefix.clone();
            next.push(label);
            open.push((child, next));
        }
    }
    units
}

/// A dictionary: header, grammar and lexicon. Words with the same surface share a list.
fn dictionary(version: u64, grammar: &[u8], words: &[Word], synonyms: bool, filler: usize) -> Vec<u8> {
    let mut out = header(version);
    out.extend_from_slice(grammar);
    let mut table: Vec<u8> = vec![];
    let mut keys: Vec<(Vec<u8>, u32)> = vec![];
    for w in words.iter() {
        let key = w.surface.as_bytes().to_vec();
        if keys.iter().any(|(k, _)| *k == key) {
            continue;
        }
        let ids: Vec<u32> =
            (0..words.len()).filter(|j| words[*j].surface == w.surface).map(|j| j as u32).collect();
        keys.push((key, table.len() as u32));
        push_numbers(&mut table, &ids);
    }
    let units = double_array(&keys);
    push_u32(&mut out, units.len() as u32);
    for unit in units {
        push_u32(&mut out, unit);
    }
    push_u32(&mut out, table.len() as u32);
    out.extend_from_slice(&table);
    push_u32(&mut out, words.len() as u32);
    for w in words {
        push_u16(&mut out, w.param.0 as u16);
        push_u16(&mut out, w.param.1 as u16);
        push_u16(&mut out, w.param.2 as u16);
    }
    let start = out.len() + 4 * words.len();
    let mut places: Vec<u32> = vec![];
    let mut records: Vec<u8> = vec![];
    for w in words {
        places.push((start + records.len()) as u32);
        push_text(&mut records, w.surface);
        records.push(w.surface.len() as u8);
        push_u16(&mut records, w.pos_id);
        push_text(&mut records, "");
        push_u32(&mut records, w.dictionary_form as u32);
        push_text(&mut records, w.reading);
        push_numbers(&mut records, &w.a_split);
        push_numbers(&mut records, &[]);
        push_numbers(&mut records, &[]);
        if synonyms {
            push_numbers(&mut records, &w.synonyms);
        }
    }
    for place in places {
        push_u32(&mut out, place);
    }
    out.extend_from_slice(&records);
    let mut seed: u32 = 12345;
    for i in 0..filler {
        seed = seed.wrapping_mul(1_103_515_245).wrapping_add(12345);
        let kind = (seed >> 16) as usize;
        out.push(if i % 3 == 0 { (kind % 7) as u8 } else { b"abcdefghij"[kind % 10] });
    }
    out
}

const NOUN: [&str; 6] = ["名詞", "普通名詞", "一般", "*", "*", "*"];
const PLACE: [&str; 6] = ["名詞", "固有名詞", "地名", "一般", "*", "*"];
const VERB: [&str; 6] = ["動詞", "非自立可能", "*", "*", "五段-カ行", "終止形-一般"];
const MARK: [&str; 6] = ["補助記号", "一般", "*", "*", "*", "*"];

const CHAR_DEF: &str = "# categories of characters
DEFAULT 0 1 0
0x0030..0x0039 NUMERIC
0x0041..0x005A ALPHA
0x0061..0x007A ALPHA  # small letters
0x00C0..0x017F ALPHA
0x3041..0x309F HIRAGANA
0x30A1..0x30FF KATAKANA
0x30A1 NOOOVBOW
0x4E00..0x9FA5 KANJI
0x2600..0x27BF SYMBOL
0x23F8 SYMBOL
0x1F300..0x1FAFF SYMBOL
0x200D SYMBOL NOOOVBOW2
0xFE0F SYMBOL NOOOVBOW
0x1F3FB..0x1F3FF NOOOVBOW
";

fn system_words() -> Vec<Word> {
    vec![
        Word { synonyms: vec![1, 5], reading: "キョウト", ..word("京都", 1) },
        Word { a_split: vec![2, 3], reading: "トウキョウト", ..word("東京都", 1) },
        Word { reading: "トウキョウ", ..word("東京", 1) },
        word("都", 0),
        Word { synonyms: vec![1, 3], ..word("東京府", 1) },
        word("特a", 0),
        word("ab", 0),
        Word { reading: "イク", ..word("いく", 2) },
        Word { dictionary_form: 7, reading: "イッ", ..word("いっ", 2) },
    ]
}

const SYSTEM_VERSION: u64 = 0xce9f011a92394434;
const USER_VERSION: u64 = 0xca9811756ff64fb0;

fn system_grammar() -> Vec<u8> {
    grammar(&[NOUN, PLACE, VERB, MARK], 2, 2, &[0, 0, 0, 0])
}

fn system_bytes() -> Vec<u8> {
    dictionary(SYSTEM_VERSION, &system_grammar(), &system_words(), true, 0)
}

fn user_bytes() -> Vec<u8> {
    let words = vec![word("ぴらる", 0)];
    dictionary(USER_VERSION, &grammar(&[], 0, 0, &[]), &words, true, 0)
}

fn texts(pos: &[&str]) -> Vec<String> {
    pos.iter().map(|text| text.to_string()).collect()
}

fn category(name: u32) -> CategoryType {
    CategoryType::from_bits(name)
}

fn oov_settings() -> OovSettings {
    let kinds = [
        (category_type::DEFAULT, MARK),
        (category_type::SYMBOL, MARK),
        (category_type::NUMERIC, NOUN),
        (category_type::ALPHA, NOUN),
        (category_type::HIRAGANA, NOUN),
        (category_type::KATAKANA, NOUN),
        (category_type::KANJI, NOUN),
    ];
    OovSettings {
        categories: kinds
            .iter()
            .map(|(name, _)| CategoryInfo {
                category: category(*name),
                is_invoke: false,
                is_group: *name != category_type::KANJI,
                length: if *name == category_type::KANJI { 2 } else { 0 },
            })
            .collect(),
        definitions: kinds
            .iter()
            .map(|(name, pos)| OovDefinition {
                category: category(*name),
                left_id: 1,
                right_id: 1,
                cost: 10_000,
                pos: texts(pos),
            })
            .collect(),
    }
}

fn categories() -> CharacterCategory {
    CharacterCategory::from_bytes(CHAR_DEF.as_bytes()).unwrap()
}

/// A system dictionary with a user dictionary, and words made by categories where both have none.
struct Built {
    system: Vec<u8>,
    user: Vec<u8>,
}

impl Built {
    fn new() -> Built {
        Built { system: system_bytes(), user: user_bytes() }
    }

    fn load(&self) -> LoadedDictionary<'_> {
        let dict =
            LoadedDictionary::from_system_dictionary_and_chardef(&self.system, categories())
                .unwrap();
        let user = DictionaryLoader::read_user_dictionary(&self.user).unwrap();
        let mut dict = dict.merge_dictionary(user).unwrap();
        let oov = MeCabOovPlugin::set_up(oov_settings(), &dict.grammar).unwrap();
        dict.oov_providers.push(oov);
        dict
    }
}

fn surfaces(list: &MorphemeList) -> Vec<&str> {
    (0..list.len()).map(|i| list.get(i).surface()).collect()
}

#[test]
fn empty() {
    let built = Built::new();
    let ms = tokenize(&built.load(), "", Mode::C).unwrap();
    assert_eq!(0, ms.len());
    assert_eq!(0, ms.get_internal_cost());
}

#[test]
fn tokenize_small_katakana_only() {
    let built = Built::new();
    let ms = tokenize(&built.load(), "ァ", Mode::C).unwrap();
    assert_eq!(1, ms.len());
}

#[test]
fn get_word_id() {
    let built = Built::new();
    let dict = built.load();
    let ms = tokenize(&dict, "京都", Mode::C).unwrap();
    assert_eq!(1, ms.len());
    let pos = ms.get(0).part_of_speech();
    assert_eq!(&["名詞", "固有名詞", "地名", "一般", "*", "*"], pos.as_slice());

    let ms = tokenize(&dict, "ぴらる", Mode::C).unwrap();
    assert_eq!(1, ms.len());
    let pos = ms.get(0).part_of_speech();
    assert_eq!(&["名詞", "普通名詞", "一般", "*", "*", "*"], pos.as_slice());
}

#[test]
fn get_dictionary_id() {
    let built = Built::new();
    let dict = built.load();
    let ms = tokenize(&dict, "京都", Mode::C).unwrap();
    assert_eq!(1, ms.len());
    assert_eq!(0, ms.get(0).dictionary_id());

    let ms = tokenize(&dict, "ぴらる", Mode::C).unwrap();
    assert_eq!(1, ms.len());
    assert_eq!(1, ms.get(0).dictionary_id());

    let ms = tokenize(&dict, "京", Mode::C).unwrap();
    assert_eq!(1, ms.len());
    assert!(ms.get(0).dictionary_id() < 0);
}

#[test]
fn get_synonym_group_id() {
    let built = Built::new();
    let dict = built.load();
    let ms = tokenize(&dict, "京都", Mode::C).unwrap();
    assert_eq!(1, ms.len());
    assert_eq!([1, 5], ms.get(0).synonym_group_ids());

    let ms = tokenize(&dict, "ぴらる", Mode::C).unwrap();
    assert_eq!(1, ms.len());
    assert!(ms.get(0).synonym_group_ids().is_empty());

    let ms = tokenize(&dict, "東京府", Mode::C).unwrap();
    assert_eq!(1, ms.len());
    assert_eq!([1, 3], ms.get(0).synonym_group_ids());
}

#[test]
fn tokenize_kanji_alphabet_word() {
    let built = Built::new();
    let dict = built.load();
    assert_eq!(1, tokenize(&dict, "特a", Mode::C).unwrap().len());
    assert_eq!(1, tokenize(&dict, "ab", Mode::C).unwrap().len());
    assert_eq!(2, tokenize(&dict, "特ab", Mode::C).unwrap().len());
}

#[test]
fn tokenizer_morpheme_split() {
    let built = Built::new();
    let dict = built.load();
    let ms = tokenize(&dict, "東京都", Mode::C).unwrap();
    assert_eq!(1, ms.len());
    assert_eq!("東京都", ms.get(0).surface());

    let ms = tokenize(&dict, "東京都", Mode::A).unwrap();
    assert_eq!(2, ms.len());
    assert_eq!("東京", ms.get(0).surface());
    assert_eq!("都", ms.get(1).surface());
}

#[test]
fn split_middle() {
    let built = Built::new();
    let dict = built.load();
    let ms = tokenize(&dict, "京都東京都京都", Mode::C).unwrap();
    assert_eq!(ms.len(), 3);
    let m = ms.get(1);
    assert_eq!(m.surface(), "東京都");

    let (ms_a, split): (Vec<Morpheme>, bool) = ms.split(&dict, 1, Mode::A).expect("works");
    assert!(split);
    assert_eq!(ms_a.len(), 2);
    assert_eq!(ms_a[0].surface(), "東京");
    assert_eq!(ms_a[0].begin_c(), 2);
    assert_eq!(ms_a[0].end_c(), 4);
    assert_eq!(ms_a[0].begin(), 6);
    assert_eq!(ms_a[0].end(), 12);
    assert_eq!(ms_a[1].surface(), "都");
    assert_eq!(ms_a[1].begin_c(), 4);
    assert_eq!(ms_a[1].end_c(), 5);
    assert_eq!(ms_a[1].begin(), 12);
    assert_eq!(ms_a[1].end(), 15);
}

#[test]
fn istanbul_is_not_splitted() {
    let built = Built::new();
    let ms = tokenize(&built.load(), "İstanbul", Mode::C).unwrap();
    assert_eq!(ms.len(), 1);
}

#[test]
fn emoji_are_not_splitted() {
    let built = Built::new();
    let dict = built.load();
    assert_eq!(tokenize(&dict, "⏸", Mode::C).unwrap().len(), 1);
    assert_eq!(tokenize(&dict, "🦹‍♂️", Mode::C).unwrap().len(), 1);
    assert_eq!(tokenize(&dict, "🎅🏾", Mode::C).unwrap().len(), 1);
    assert_eq!(tokenize(&dict, "👳🏽‍♂", Mode::C).unwrap().len(), 1);
}

#[test]
fn zeros_are_accepted() {
    let built = Built::new();
    let dict = built.load();
    let ms = tokenize(&dict, "京都\0いく", Mode::C).unwrap();
    assert_eq!(ms.len(), 3);
    assert_eq!(ms.get(0).surface(), "京都");
    assert_eq!(ms.get(1).surface(), "\0");
    assert_eq!(ms.get(2).surface(), "いく");

    let ms = tokenize(&dict, "\0京都いく", Mode::C).unwrap();
    assert_eq!(ms.len(), 3);
    assert_eq!(ms.get(0).surface(), "\0");
    assert_eq!(ms.get(1).surface(), "京都");
    assert_eq!(ms.get(2).surface(), "いく");
}

#[test]
fn morpheme_extraction() {
    let built = Built::new();
    let entries = tokenize(&built.load(), "東京都", Mode::C).unwrap();
    assert_eq!(1, entries.len());
    let e = entries.get(0);
    assert_eq!("東京都", e.surface());
    assert_eq!(0, e.begin());
    assert_eq!(9, e.end());
    assert_eq!(0, e.begin_c());
    assert_eq!(3, e.end_c());
}

#[test]
fn words_make_up_the_text() {
    let built = Built::new();
    let dict = built.load();
    for text in ["京都東京都京都", "特abc123", "ぴらるァ京", "東京府いっいく、xyz"] {
        for mode in [Mode::A, Mode::B, Mode::C] {
            let ms = tokenize(&dict, text, mode).unwrap();
            assert_eq!(surfaces(&ms).concat(), text);
            assert_eq!(ms.get(0).begin_c(), 0);
            for i in 1..ms.len() {
                assert_eq!(ms.get(i).begin_c(), ms.get(i - 1).end_c());
                assert_eq!(ms.get(i).begin(), ms.get(i - 1).end());
            }
            assert_eq!(ms.get(ms.len() - 1).end(), text.len());
        }
    }
}

#[test]
fn forms_of_words() {
    let built = Built::new();
    let dict = built.load();
    let ms = tokenize(&dict, "いっ", Mode::C).unwrap();
    assert_eq!(ms.len(), 1);
    let m = ms.get(0);
    assert_eq!(m.dictionary_form(), "いく");
    assert_eq!(m.normalized_form(), "いっ");
    assert_eq!(m.reading_form(), "イッ");
    assert!(!m.is_oov());
    assert_eq!(m.word_id().word(), 8);

    let ms = tokenize(&dict, "xyz", Mode::C).unwrap();
    assert_eq!(ms.len(), 1);
    let m = ms.get(0);
    assert!(m.is_oov());
    assert_eq!(m.dictionary_form(), "xyz");
    assert_eq!(m.reading_form(), "xyz");
    assert_eq!(m.part_of_speech().as_slice(), &NOUN);
    assert_eq!(m.get_word_info().head_word_length(), 3);
}

#[test]
fn words_without_a_split_stay_whole() {
    let built = Built::new();
    let dict = built.load();
    let ms = tokenize(&dict, "京都", Mode::C).unwrap();
    let (units, split) = ms.split(&dict, 0, Mode::A).unwrap();
    assert!(!split);
    assert_eq!(units.len(), 1);
    assert_eq!(units[0].surface(), "京都");
}

#[test]
fn the_cheapest_way_wins() {
    let mut words = vec![word("ab", 0), word("abc", 0), word("c", 0), word("d", 0), word("cd", 0)];
    for w in words.iter_mut() {
        w.param = (1, 1, 10);
    }
    words[1].param = (1, 1, 5);
    words[4].param = (1, 1, 30);
    let costs = [0, 0, 0, 4];
    let bytes = dictionary(SYSTEM_VERSION, &grammar(&[NOUN], 2, 2, &costs), &words, true, 0);
    let letters = CharacterCategory::from_bytes(b"0x0061..0x007A HIRAGANA\n").unwrap();
    let dict = LoadedDictionary::from_system_dictionary_and_chardef(&bytes, letters).unwrap();
    let ms = tokenize(&dict, "abcd", Mode::C).unwrap();
    assert_eq!(surfaces(&ms), vec!["abc", "d"]);
    assert_eq!(ms.get_internal_cost(), 14);
    assert_eq!(surfaces(&tokenize(&dict, "cd", Mode::C).unwrap()), vec!["c", "d"]);
}

#[test]
fn of_equally_cheap_ways_the_first_is_kept() {
    let mut words = vec![word("ab", 0), word("c", 0), word("a", 0), word("bc", 0), word("c", 1)];
    for w in words.iter_mut() {
        w.param = (0, 0, 10);
    }
    let costs = [0, 0, 0, 0];
    let bytes = dictionary(SYSTEM_VERSION, &grammar(&[NOUN, PLACE], 2, 2, &costs), &words, true, 0);
    let letters = CharacterCategory::from_bytes(b"0x0061..0x007A HIRAGANA\n").unwrap();
    let dict = LoadedDictionary::from_system_dictionary_and_chardef(&bytes, letters).unwrap();
    assert_eq!(surfaces(&tokenize(&dict, "abc", Mode::C).unwrap()), vec!["a", "bc"]);
    let ms = tokenize(&dict, "c", Mode::C).unwrap();
    assert_eq!(ms.get(0).part_of_speech().as_slice(), &NOUN);
}

#[test]
fn equal_calls_give_equal_tokens() {
    let system = system_bytes();
    let tokenizer = Tokenizer::new(&system, CHAR_DEF.as_bytes()).unwrap();
    for text in ["", "東京都", "京都東京都ab", "いくいっ"] {
        for mode in ["A", "B", "C"] {
            let one = tokenizer.tokenize(text, mode).unwrap();
            let _other = tokenizer.tokenize("京都", mode).unwrap();
            let two = tokenizer.tokenize(text, mode).unwrap();
            assert_eq!(format!("{one:?}"), format!("{two:?}"));
            let mut at = 0;
            for token in one.iter() {
                assert_eq!(token.begin, at);
                assert_eq!(token.surface, text[token.begin..token.end]);
                at = token.end;
            }
            assert_eq!(at, text.len());
        }
        let longest = format!("{:?}", tokenizer.tokenize(text, "C").unwrap());
        assert_eq!(format!("{:?}", tokenizer.tokenize(text, "a").unwrap()), longest);
        assert_eq!(format!("{:?}", tokenizer.tokenize(text, "").unwrap()), longest);
    }
    let one = tokenizer.tokenize("京", "C").unwrap_err();
    let two = tokenizer.tokenize("京", "C").unwrap_err();
    assert_eq!(format!("{one:?}"), format!("{two:?}"));
}

#[test]
fn a_text_may_be_too_long() {
    let built = Built::new();
    let dict = built.load();
    let text = "a".repeat(49_150);
    match tokenize(&dict, &text, Mode::C) {
        Err(SudachiError::InputTooLong(49_150, 49_149)) => {}
        _ => panic!("an overlong text was accepted"),
    }
    let text = "a".repeat(49_149);
    assert_eq!(tokenize(&dict, &text, Mode::C).unwrap().len(), 1);
}

#[test]
fn a_place_without_words_is_an_error() {
    let system = system_bytes();
    let dict =
        LoadedDictionary::from_system_dictionary_and_chardef(&system, categories()).unwrap();
    assert!(matches!(tokenize(&dict, "京", Mode::C), Err(SudachiError::EosBosDisconnect)));
    assert!(matches!(tokenize(&dict, "京都京", Mode::C), Err(SudachiError::EosBosDisconnect)));
    assert_eq!(tokenize(&dict, "京都", Mode::C).unwrap().len(), 1);
}

#[test]
fn a_part_of_speech_that_the_grammar_lacks_is_an_error() {
    let words = vec![word("京都", 9)];
    let bytes = dictionary(SYSTEM_VERSION, &system_grammar(), &words, true, 0);
    let dict = LoadedDictionary::from_system_dictionary_and_chardef(&bytes, categories()).unwrap();
    assert!(matches!(
        tokenize(&dict, "京都", Mode::C),
        Err(SudachiError::InvalidDictionaryGrammar)
    ));
}

#[test]
fn modes_by_name_and_by_number() {
    assert_eq!(Mode::from_name("A"), Mode::A);
    assert_eq!(Mode::from_name("B"), Mode::B);
    assert_eq!(Mode::from_name("C"), Mode::C);
    assert_eq!(Mode::from_name("a"), Mode::C);
    assert_eq!(Mode::from_number(0), Mode::A);
    assert_eq!(Mode::from_number(1), Mode::B);
    assert_eq!(Mode::from_number(2), Mode::C);
    assert_eq!(Mode::from_number(200), Mode::C);
}

#[test]
fn tokens_of_a_tokenizer() {
    let system = system_bytes();
    let tokenizer = Tokenizer::new(&system, CHAR_DEF.as_bytes()).unwrap();
    let tokens = tokenizer.tokenize("東京都", "A").unwrap();
    assert_eq!(tokens.len(), 2);
    assert_eq!(tokens[0].surface, "東京");
    assert_eq!(tokens[0].reading_form, "トウキョウ");
    assert_eq!(tokens[0].dictionary_form, "東京");
    assert_eq!(tokens[0].normalized_form, "東京");
    assert_eq!(tokens[0].part_of_speech.as_slice(), &PLACE);
    assert!(!tokens[0].is_oov);
    assert_eq!((tokens[0].begin, tokens[0].end), (0, 6));
    assert_eq!((tokens[1].begin, tokens[1].end), (6, 9));
    assert_eq!(tokenizer.tokenize("東京都", "?").unwrap().len(), 1);
    assert!(tokenizer.tokenize("京", "C").is_err());
}

#[test]
fn a_tokenizer_needs_a_whole_dictionary() {
    let system = system_bytes();
    assert!(matches!(Tokenizer::new(&system[..200], b""), Err(LoadError::CutOff)));
    assert!(matches!(
        Tokenizer::new(&system, b"0x20 NOTHING"),
        Err(LoadError::Rejected(SudachiError::InvalidCharacterCategory(_)))
    ));
    assert!(matches!(
        Tokenizer::new(&user_bytes(), b""),
        Err(LoadError::Rejected(SudachiError::InvalidHeader(_)))
    ));
}

#[test]
fn costs_are_estimated() {
    let built = Built::new();
    let dict = built.load();
    let mut words = vec![word("京都東京", 0), word("都", 0), word("東京都", 0), word("都都都", 0)];
    words[0].param = (0, 0, i16::MIN);
    words[2].param = (1, 1, i16::MIN);
    words[3].param = (0, 0, i16::MIN);
    let bytes = dictionary(USER_VERSION, &grammar(&[], 0, 0, &[]), &words, true, 0);
    let mut user = DictionaryLoader::read_user_dictionary(&bytes).unwrap();
    user.lexicon.update_cost(&dict).unwrap();
    assert_eq!(user.lexicon.get_word_param(0), (0, 0, 100 - 40));
    assert_eq!(user.lexicon.get_word_param(1), (0, 0, 100));
    assert_eq!(user.lexicon.get_word_param(2), (1, 1, -20));
    assert_eq!(user.lexicon.get_word_param(3), (0, 0, 200 - 60));
}

#[test]
fn estimating_stops_where_a_surface_cannot_be_analysed() {
    let system = system_bytes();
    let dict =
        LoadedDictionary::from_system_dictionary_and_chardef(&system, categories()).unwrap();
    let mut words = vec![word("京都京都", 0), word("京", 0), word("東京東京", 0)];
    for w in words.iter_mut() {
        w.param = (0, 0, i16::MIN);
    }
    let bytes = dictionary(USER_VERSION, &grammar(&[], 0, 0, &[]), &words, true, 0);
    let mut user = DictionaryLoader::read_user_dictionary(&bytes).unwrap();
    assert!(matches!(user.lexicon.update_cost(&dict), Err(SudachiError::EosBosDisconnect)));
    assert_eq!(user.lexicon.get_word_param(0).2, 100 - 40);
    assert_eq!(user.lexicon.get_word_param(1).2, i16::MIN);
    assert_eq!(user.lexicon.get_word_param(2).2, i16::MIN);
}

#[test]
fn a_second_estimate_changes_nothing() {
    let mut known = vec![word("京", 0), word("都", 0)];
    known[0].param = (0, 0, -30_000);
    let system = dictionary(SYSTEM_VERSION, &system_grammar(), &known, true, 0);
    let dict =
        LoadedDictionary::from_system_dictionary_and_chardef(&system, categories()).unwrap();
    let mut words = vec![word("京京京", 0), word("都都", 0), word("京都", 0)];
    words[0].param = (1, 1, i16::MIN);
    words[1].param = (0, 0, i16::MIN);
    let bytes = dictionary(USER_VERSION, &grammar(&[], 0, 0, &[]), &words, true, 0);
    let mut user = DictionaryLoader::read_user_dictionary(&bytes).unwrap();
    for _ in 0..2 {
        user.lexicon.update_cost(&dict).unwrap();
        assert_eq!(user.lexicon.get_word_param(0), (1, 1, i16::MIN));
        assert_eq!(user.lexicon.get_word_param(1), (0, 0, 100 - 40));
        assert_eq!(user.lexicon.get_word_param(2), (0, 0, 100));
    }
}
