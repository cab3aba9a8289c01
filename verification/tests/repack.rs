//! Tests of compressed dictionaries.

use sudachi::analysis::mode::Mode;
use sudachi::analysis::tokenizer::tokenize;
use sudachi::dic::category_type;
use sudachi::dic::category_type::CategoryType;
use sudachi::dic::character_category::CharacterCategory;
use sudachi::dic::lexicon::xcdat_trie::XcdatTrie;
use sudachi::dic::lexicon::Lexicon;
use sudachi::dic::repack::assemble::{assemble, XdicParts};
use sudachi::dic::repack::layout::Layout;
use sudachi::dic::repack::ranks::{rank_table, RankError};
use sudachi::dic::lexicon::word_infos::ChunkedWordInfos;
use sudachi::dic::repack::records::{compress_records, train, training_samples, CompressedRecords};
use sudachi::dic::repack::surfaces::{collect_surfaces, SurfaceTable};
use sudachi::dic::repack::{repack, RepackError};
use sudachi::dic::subset::InfoSubset;
use sudachi::dic::xdic::Sections;
use sudachi::dic::{DictionaryLoader, LoadedDictionary};
use sudachi::error::{LexiconSetError, SudachiError};
use sudachi::frontend::registry::{Handles, Registry, TokenizeError};
use sudachi::frontend::tokenizer::{LoadError, Tokenizer};
use sudachi::plugin::oov::{CategoryInfo, OovDefinition, OovSettings};

/// A word of a test dictionary.
struct Word {
    surface: &'static str,
    param: (i16, i16, i16),
    pos_id: u16,
    reading: &'static str,
    dictionary_form: i32,
    a_split: Vec<u32>,
    synonyms: Vec<u32>,
}

fn word(surface: &'static str, pos_id: u16) -> Word {
    Word {
        surface,
        param: (0, 0, 100),
        pos_id,
        reading: "",
        dictionary_form: -1,
        a_split: vec![],
        synonyms: vec![],
    }
}

fn push_u16(out: &mut Vec<u8>, v: u16) {
    out.extend_from_slice(&v.to_le_bytes());
}

fn push_u32(out: &mut Vec<u8>, v: u32) {
    out.extend_from_slice(&v.to_le_bytes());
}

fn push_text(out: &mut Vec<u8>, text: &str) {
    let units: Vec<u16> = text.encode_utf16().collect();
    assert!(units.len() < 128);
    out.push(units.len() as u8);
    for unit in units {
        push_u16(out, unit);
    }
}

fn push_numbers(out: &mut Vec<u8>, numbers: &[u32]) {
    out.push(numbers.len() as u8);
    for n in numbers {
        push_u32(out, *n);
    }
}

fn header(version: u64) -> Vec<u8> {
    let mut out = version.to_le_bytes().to_vec();
    out.extend_from_slice(&1_600_000_000u64.to_le_bytes());
    let mut description = b"a test dictionary".to_vec();
    description.resize(256, 0);
    out.extend_from_slice(&description);
    out
}

fn grammar(pos_list: &[[&str; 6]], left: i16, right: i16, costs: &[i16]) -> Vec<u8> {
    let mut out = vec![];
    push_u16(&mut out, pos_list.len() as u16);
    for pos in pos_list {
        for text in pos {
            push_text(&mut out, text);
        }
    }
    push_u16(&mut out, left as u16);
    push_u16(&mut out, right as u16);
    for cost in costs {
        push_u16(&mut out, *cost as u16);
    }
    out
}

/// A block of a double array without nodes: no unit is a child of the block.
fn free_block() -> Vec<u32> {
    (0..256).map(|label: u32| label ^ 0xff).collect()
}

/// A double array that holds the keys with their values; each node has a block of its own.
fn double_array(keys: &[(Vec<u8>, u32)]) -> Vec<u32> {
    let mut units: Vec<u32> = free_block();
    units[0] = 0;
    let mut blocks: u32 = 1;
    let mut open: Vec<(u32, Vec<u8>)> = vec![(0, vec![])];
    while let Some((at, prefix)) = open.pop() {
        let mut labels: Vec<u8> = keys
            .iter()
            .filter(|(k, _)| k.len() > prefix.len() && k.starts_with(&prefix))
            .map(|(k, _)| k[prefix.len()])
            .collect();
        labels.sort();
        labels.dedup();
        let own = keys.iter().find(|(k, _)| *k == prefix);
        let block = blocks * 256;
        blocks += 1;
        units.extend_from_slice(&free_block());
        let offset = at ^ block;
        units[at as usize] |= offset << 10;
        if let Some((_, value)) = own {
            units[at as usize] |= 0x100;
            units[block as usize] = value | 0x8000_0000;
        }
        for label in labels {
            let child = block ^ label as u32;
            units[child as usize] = label as u32;
            let mut next = prefix.clone();
            next.push(label);
            open.push((child, next));
        }
    }
    units
}

/// A dictionary: header, grammar and lexicon. Words with the same surface share a list.
fn dictionary(version: u64, grammar: &[u8], words: &[Word], synonyms: bool, filler: usize) -> Vec<u8> {
    let mut out = header(version);
    out.extend_from_slice(grammar);
    let mut table: Vec<u8> = vec![];
    let mut keys: Vec<(Vec<u8>, u32)> = vec![];
    for w in words.iter() {
        let key = w.surface.as_bytes().to_vec();
        if keys.iter().any(|(k, _)| *k == key) {
            continue;
        }
        let ids: Vec<u32> =
            (0..words.len()).filter(|j| words[*j].surface == w.surface).map(|j| j as u32).collect();
        keys.push((key, table.len() as u32));
        push_numbers(&mut table, &ids);
    }
    let units = double_array(&keys);
    push_u32(&mut out, units.len() as u32);
    for unit in units {
        push_u32(&mut out, unit);
    }
    push_u32(&mut out, table.len() as u32);
    out.extend_from_slice(&table);
    push_u32(&mut out, words.len() as u32);
    for w in words {
        push_u16(&mut out, w.param.0 as u16);
        push_u16(&mut out, w.param.1 as u16);
        push_u16(&mut out, w.param.2 as u16);
    }
    let start = out.len() + 4 * words.len();
    let mut places: Vec<u32> = vec![];
    let mut records: Vec<u8> = vec![];
    for w in words {
        places.push((start + records.len()) as u32);
        push_text(&mut records, w.surface);
        records.push(w.surface.len() as u8);
        push_u16(&mut records, w.pos_id);
        push_text(&mut records, "");
        push_u32(&mut records, w.dictionary_form as u32);
        push_text(&mut records, w.reading);
        push_numbers(&mut records, &w.a_split);
        push_numbers(&mut records, &[]);
        push_numbers(&mut records, &[]);
        if synonyms {
            push_numbers(&mut records, &w.synonyms);
        }
    }
    for place in places {
        push_u32(&mut out, place);
    }
    out.extend_from_slice(&records);
    let mut seed: u32 = 12345;
    for i in 0..filler {
        seed = seed.wrapping_mul(1_103_515_245).wrapping_add(12345);
        let kind = (seed >> 16) as usize;
        out.push(if i % 3 == 0 { (kind % 7) as u8 } else { b"abcdefghij"[kind % 10] });
    }
    out
}

const NOUN: [&str; 6] = ["名詞", "普通名詞", "一般", "*", "*", "*"];
const PLACE: [&str; 6] = ["名詞", "固有名詞", "地名", "一般", "*", "*"];
const VERB: [&str; 6] = ["動詞", "非自立可能", "*", "*", "五段-カ行", "終止形-一般"];
const MARK: [&str; 6] = ["補助記号", "一般", "*", "*", "*", "*"];

const CHAR_DEF: &str = "# categories of characters
DEFAULT 0 1 0
0x0030..0x0039 NUMERIC
0x0041..0x005A ALPHA
0x0061..0x007A ALPHA  # small letters
0x00C0..0x017F ALPHA
0x3041..0x309F HIRAGANA
0x30A1..0x30FF KATAKANA
0x30A1 NOOOVBOW
0x4E00..0x9FA5 KANJI
0x2600..0x27BF SYMBOL
0x23F8 SYMBOL
0x1F300..0x1FAFF SYMBOL
0x200D SYMBOL NOOOVBOW2
0xFE0F SYMBOL NOOOVBOW
0x1F3FB..0x1F3FF NOOOVBOW
";

fn system_words() -> Vec<Word> {
    vec![
        Word { synonyms: vec![1, 5], reading: "キョウト", ..word("京都", 1) },
        Word { a_split: vec![2, 3], reading: "トウキョウト", ..word("東京都", 1) },
        Word { reading: "トウキョウ", ..word("東京", 1) },
        word("都", 0),
        Word { synonyms: vec![1, 3], ..word("東京府", 1) },
        word("特a", 0),
        word("ab", 0),
        Word { reading: "イク", ..word("いく", 2) },
        Word { dictionary_form: 7, reading: "イッ", ..word("いっ", 2) },
    ]
}

const SYSTEM_VERSION: u64 = 0xce9f011a92394434;
const USER_VERSION: u64 = 0xca9811756ff64fb0;

fn system_grammar() -> Vec<u8> {
    grammar(&[NOUN, PLACE, VERB, MARK], 2, 2, &[0, 0, 0, 0])
}

fn system_bytes() -> Vec<u8> {
    dictionary(SYSTEM_VERSION, &system_grammar(), &system_words(), true, 0)
}

fn user_bytes() -> Vec<u8> {
    let words = vec![word("ぴらる", 0)];
    dictionary(USER_VERSION, &grammar(&[], 0, 0, &[]), &words, true, 0)
}

fn texts(pos: &[&str]) -> Vec<String> {
    pos.iter().map(|text| text.to_string()).collect()
}

fn category(name: u32) -> CategoryType {
    CategoryType::from_bits(name)
}

fn oov_settings() -> OovSettings {
    let kinds = [
        (category_type::DEFAULT, MARK),
        (category_type::SYMBOL, MARK),
        (category_type::NUMERIC, NOUN),
        (category_type::ALPHA, NOUN),
        (category_type::HIRAGANA, NOUN),
        (category_type::KATAKANA, NOUN),
        (category_type::KANJI, NOUN),
    ];
    OovSettings {
        categories: kinds
            .iter()
            .map(|(name, _)| CategoryInfo {
                category: category(*name),
                is_invoke: false,
                is_group: *name != category_type::KANJI,
                length: if *name == category_type::KANJI { 2 } else { 0 },
            })
            .collect(),
        definitions: kinds
            .iter()
            .map(|(name, pos)| OovDefinition {
                category: category(*name),
                left_id: 1,
                right_id: 1,
                cost: 10_000,
                pos: texts(pos),
            })
            .collect(),
    }
}

fn categories() -> CharacterCategory {
    CharacterCategory::from_bytes(CHAR_DEF.as_bytes()).unwrap()
}

fn push_u64(out: &mut Vec<u8>, v: u64) {
    out.extend_from_slice(&v.to_le_bytes());
}

fn push_bytes(out: &mut Vec<u8>, bytes: &[u8]) {
    push_u64(out, bytes.len() as u64);
    out.extend_from_slice(bytes);
}

fn push_bits(out: &mut Vec<u8>, bits: &[bool]) {
    let mut words = vec![0u64; bits.len() / 64 + 1];
    for (i, bit) in bits.iter().enumerate() {
        if *bit {
            words[i / 64] |= 1 << (i % 64);
        }
    }
    push_u64(out, bits.len() as u64);
    push_u64(out, bits.iter().filter(|bit| **bit).count() as u64);
    push_u64(out, words.len() as u64);
    for w in words.iter() {
        push_u64(out, *w);
    }
    let mut hints: Vec<u64> = vec![];
    let mut rank: u64 = 0;
    for block in words.chunks(8) {
        hints.push(rank);
        let mut within: u64 = 0;
        let mut hint: u64 = 0;
        for (j, w) in block.iter().enumerate() {
            if j > 0 {
                hint |= within << ((7 - j) * 9);
            }
            within += w.count_ones() as u64;
        }
        hints.push(hint);
        rank += within;
    }
    push_u64(out, hints.len() as u64);
    for hint in hints {
        push_u64(out, hint);
    }
    push_u64(out, 0);
}

const CODES: usize = 64;

/// A packed trie of the keys, and the keys in the order of their ranks. With `tails`, what is
/// behind the last branch of a key is put into a tail.
fn packed_trie(keys: &[String], tails: bool) -> (Vec<u8>, Vec<String>) {
    let mut table = vec![0u8; 512];
    let mut alphabet: Vec<u8> = keys.iter().flat_map(|k| k.bytes()).collect();
    alphabet.sort();
    alphabet.dedup();
    assert!(alphabet.len() < CODES);
    for (i, b) in alphabet.iter().enumerate() {
        table[*b as usize] = i as u8 + 1;
    }
    let free = 0xffff_u64;
    let mut base: Vec<u64> = vec![0; CODES];
    let mut check: Vec<u64> = vec![free; CODES];
    let mut terms: Vec<bool> = vec![false; CODES];
    let mut leaves: Vec<bool> = vec![false; CODES];
    let mut links: Vec<u64> = vec![0; CODES];
    let mut names: Vec<Option<String>> = vec![None; CODES];
    let mut chars: Vec<u8> = vec![0xee];
    let mut ends: Vec<bool> = vec![false];
    let mut open: Vec<(usize, Vec<u8>)> = vec![(0, vec![])];
    while let Some((at, prefix)) = open.pop() {
        let below: Vec<&String> =
            keys.iter().filter(|k| k.as_bytes().starts_with(&prefix)).collect();
        let own = below.iter().find(|k| k.as_bytes() == prefix.as_slice());
        if let Some(key) = own {
            terms[at] = true;
            names[at] = Some(key.to_string());
        }
        if below.len() == 1 && own.is_some() {
            leaves[at] = true;
            continue;
        }
        if tails && below.len() == 1 && at != 0 {
            terms[at] = true;
            leaves[at] = true;
            names[at] = Some(below[0].to_string());
            links[at] = chars.len() as u64;
            let tail = &below[0].as_bytes()[prefix.len()..];
            chars.extend_from_slice(tail);
            ends.resize(chars.len(), false);
            ends[chars.len() - 1] = true;
            continue;
        }
        let block = base.len();
        base.resize(block + CODES, 0);
        check.resize(block + CODES, free);
        terms.resize(block + CODES, false);
        leaves.resize(block + CODES, false);
        links.resize(block + CODES, 0);
        names.resize(block + CODES, None);
        base[at] = block as u64;
        let mut labels: Vec<u8> = below
            .iter()
            .filter(|k| k.len() > prefix.len())
            .map(|k| k.as_bytes()[prefix.len()])
            .collect();
        labels.sort();
        labels.dedup();
        for label in labels {
            let child = block ^ table[label as usize] as usize;
            check[child] = at as u64;
            let mut next = prefix.clone();
            next.push(label);
            open.push((child, next));
        }
    }
    let n = base.len();
    let mut low: Vec<u8> = vec![];
    let mut nexts: Vec<bool> = vec![];
    let mut high: Vec<u8> = vec![];
    for i in 0..n {
        let first = if leaves[i] { links[i] & 0xff } else { base[i] ^ i as u64 };
        for value in [first, check[i] ^ i as u64] {
            low.push(value as u8);
            nexts.push(value > 0xff);
            if value > 0xff {
                assert!(value <= 0xffff);
                high.push((value >> 8) as u8);
            }
        }
    }
    let leaf_links: Vec<u64> = (0..n).filter(|i| leaves[*i]).map(|i| links[i] >> 8).collect();
    let mut out = vec![];
    push_u32(&mut out, 8);
    push_u64(&mut out, keys.len() as u64);
    push_u64(&mut out, 100);
    out.extend_from_slice(&table);
    push_bytes(&mut out, &alphabet);
    push_bits(&mut out, &terms);
    push_u32(&mut out, 1);
    push_u64(&mut out, 0);
    push_bytes(&mut out, &low);
    push_bytes(&mut out, &high);
    for _ in 2..8 {
        push_bytes(&mut out, &[]);
    }
    push_bits(&mut out, &nexts);
    for _ in 1..7 {
        push_bits(&mut out, &[]);
    }
    push_u64(&mut out, leaf_links.len() as u64);
    push_u64(&mut out, 5);
    push_u64(&mut out, 31);
    let mut chunks = vec![0u64; leaf_links.len() * 5 / 64 + 2];
    for (i, link) in leaf_links.iter().enumerate() {
        assert!(*link < 32);
        let bit = 5 * i;
        chunks[bit / 64] |= link << (bit % 64);
        if bit % 64 > 59 {
            chunks[bit / 64 + 1] |= link >> (64 - bit % 64);
        }
    }
    push_u64(&mut out, chunks.len() as u64);
    for chunk in chunks {
        push_u64(&mut out, chunk);
    }
    push_bits(&mut out, &leaves);
    push_bytes(&mut out, &chars);
    push_bits(&mut out, &if tails { ends } else { vec![] });
    (out, names.into_iter().flatten().collect())
}

/// A system dictionary whose records are worth compressing.
fn large_bytes() -> Vec<u8> {
    dictionary(SYSTEM_VERSION, &system_grammar(), &system_words(), true, 150_000)
}

/// The compressed form of a dictionary.
fn repacked(data: &[u8], chunk_size: usize, tails: bool) -> Vec<u8> {
    let loader = DictionaryLoader::read_any_dictionary(data).unwrap();
    let table = collect_surfaces(&loader.lexicon).unwrap();
    let keys: Vec<String> = table.lines().split('\n').map(|k| k.to_string()).collect();
    let (xcdat, names) = packed_trie(&keys, tails);
    let list: Vec<String> = names.iter().enumerate().map(|(i, k)| format!("{}\t{}", i, k)).collect();
    let ranks = rank_table(&list.join("\n"), &table).unwrap();
    repack(data, &xcdat, &ranks, 3, chunk_size).unwrap()
}

#[test]
fn surfaces_in_the_order_of_their_bytes() {
    let data = system_bytes();
    let loader = DictionaryLoader::read_any_dictionary(&data).unwrap();
    let table = collect_surfaces(&loader.lexicon).unwrap();
    assert_eq!(table.len(), 9);
    assert_eq!(table.lines(), "ab\nいく\nいっ\n京都\n東京\n東京府\n東京都\n特a\n都");
    for w in ["京都", "東京", "特a"] {
        let place = loader.lexicon.lookup_raw(w.as_bytes(), 0);
        assert!(place.is_some());
        assert_eq!(table.get(w), place);
    }
    assert_eq!(table.get("京"), None);
    assert_eq!(loader.lexicon.lookup_raw("京".as_bytes(), 0), None);
}

#[test]
fn surfaces_occur_once() {
    let words = vec![word("b", 0), word("a", 0), word("b", 1)];
    let data = dictionary(SYSTEM_VERSION, &system_grammar(), &words, true, 0);
    let loader = DictionaryLoader::read_any_dictionary(&data).unwrap();
    let table = collect_surfaces(&loader.lexicon).unwrap();
    assert_eq!(table.lines(), "a\nb");
    assert_eq!((table.get("b"), table.get("a")), (Some(0), Some(9)));
    let found = {
        let mut lexicon = DictionaryLoader::read_any_dictionary(&data).unwrap().lexicon;
        lexicon.set_dic_id(2);
        let mut iter = lexicon.lookup("bc".as_bytes(), 0);
        let mut found = vec![];
        while let Some(entry) = iter.next() {
            found.push((entry.word_id.dic(), entry.word_id.word(), entry.end));
        }
        found
    };
    assert_eq!(found, vec![(2, 0, 1), (2, 2, 1)]);
}

#[test]
fn records_that_are_cut_off_have_no_surfaces() {
    let data = system_bytes();
    let loader = DictionaryLoader::read_any_dictionary(&data[..data.len() - 40]).unwrap();
    assert!(collect_surfaces(&loader.lexicon).is_err());
}

fn table_of(entries: &[(&str, u32)]) -> SurfaceTable {
    let mut table = SurfaceTable::new();
    for (key, value) in entries {
        table.insert(key.to_string(), *value);
    }
    table
}

#[test]
fn ranks_lead_to_places() {
    let table = table_of(&[("b", 20), ("a", 10), ("c\td", 30)]);
    assert_eq!(rank_table("0\ta\r\n2\tb\n", &table).unwrap(), vec![10, 0, 20]);
    assert_eq!(rank_table("+1\tc\td\n1\ta", &table).unwrap(), vec![0, 10]);
    assert_eq!(rank_table("", &table).unwrap(), Vec::<u32>::new());
    match rank_table("0\ta\nzero b", &table) {
        Err(RankError::UnexpectedLine(line)) => assert_eq!(line, "zero b"),
        _ => panic!("a line without a tab was accepted"),
    }
    for text in ["x\ta", "\ta", "+\ta", "-1\ta", "99999999999\ta"] {
        assert!(matches!(rank_table(text, &table), Err(RankError::InvalidRank(_))));
    }
    match rank_table("0\tz", &table) {
        Err(RankError::UnknownSurface(surface)) => assert_eq!(surface, "z"),
        _ => panic!("an unknown surface was accepted"),
    }
    assert!(matches!(rank_table("0\ta\n\n", &table), Err(RankError::UnexpectedLine(_))));
}

#[test]
fn samples_are_spread_evenly() {
    let records: Vec<u8> = (0..50_000u32).map(|i| (i / 5) as u8).collect();
    let samples = training_samples(&records);
    assert_eq!(samples.len(), 10_000);
    assert_eq!(samples[0], &records[..256]);
    assert_eq!(samples[7], &records[35..35 + 256]);
    assert_eq!(samples[9_999], &records[49_995..]);
    let short = training_samples(&records[..100]);
    assert_eq!(short.len(), 10_000);
    assert_eq!(short[500], &records[..100]);
}

#[test]
fn chunks_keep_the_records() {
    let data = large_bytes();
    let records = &data[data.len() - 100_000..];
    let zdict = train(records).unwrap();
    assert!(zdict.len() <= 114_688);
    assert_ne!(zdict.as_slice(), records);
    let compressed = compress_records(3, &zdict, records, 30_000).unwrap();
    assert_eq!(compressed.chunk_offsets.len(), 4);
    assert_eq!(compressed.chunk_offsets[0], 0);
    let mut decoder = zstd::bulk::Decompressor::with_dictionary(&zdict).unwrap();
    let mut content: Vec<u8> = vec![];
    for offset in compressed.chunk_offsets.iter() {
        let at = *offset as usize;
        let size = u32::from_le_bytes(compressed.data[at..at + 4].try_into().unwrap()) as usize;
        assert!(size < 30_000);
        let frame = &compressed.data[at + 4..at + 4 + size];
        content.extend_from_slice(&decoder.decompress(frame, 60_000).unwrap());
    }
    assert_eq!(content, records);
    let none = compress_records(3, &zdict, &[], 30_000).unwrap();
    assert!(none.data.is_empty() && none.chunk_offsets.is_empty());
}

#[test]
fn errors_of_the_encoder_are_handed_on() {
    let nothing: Vec<&[u8]> = vec![&[]; 10_000];
    let expected = zstd::dict::from_samples(&nothing, 114_688).unwrap_err();
    assert_eq!(train(&[]).unwrap_err(), expected.to_string());
    // The magic number of a dictionary, and nothing of use behind it.
    let mut broken: Vec<u8> = vec![0x37, 0xA4, 0x30, 0xEC];
    broken.extend_from_slice(&[0xFF; 60]);
    let expected = zstd::bulk::Compressor::with_dictionary(3, &broken)
        .and_then(|mut encoder| encoder.compress(&[1, 2, 3]))
        .unwrap_err();
    let text = compress_records(3, &broken, &[1, 2, 3, 4], 3).err().unwrap();
    assert_eq!(text, expected.to_string());
    let none = compress_records(3, &broken, &[], 3).unwrap();
    assert!(none.data.is_empty() && none.chunk_offsets.is_empty());
}

#[test]
fn sections_are_read_back() {
    let mut records = CompressedRecords::new();
    records.push(&[1, 2, 3]);
    records.push(&[4]);
    assert_eq!(records.chunk_offsets, vec![0, 7]);
    assert_eq!(records.data, vec![3, 0, 0, 0, 1, 2, 3, 1, 0, 0, 0, 4]);
    let head = header(SYSTEM_VERSION);
    let parts = XdicParts {
        header: &head,
        grammar_zstd: &[5, 6],
        xcdat: &[7],
        rank_to_offset: &[8, 9],
        rest: &[10, 11],
        wi_index: &[12, 13, 14],
        zdict: &[15],
        records: &records,
    };
    let out = assemble(&parts);
    let sections = Sections::find(&out).unwrap();
    assert_eq!(sections.header, head.as_slice());
    assert_eq!(sections.grammar_zstd, &[5, 6]);
    assert_eq!(sections.xcdat, &[7]);
    assert_eq!(sections.rank_to_offset, vec![8, 9]);
    assert_eq!(sections.rest, &[10, 11]);
    assert_eq!(sections.word_count, 3);
    assert_eq!(sections.zdict, &[15]);
    assert_eq!(&sections.chunked[..4], &[12, 0, 0, 0]);
    assert!(Sections::find(&out[..280]).is_none());
}

#[test]
fn sizes_of_the_parts() {
    let data = large_bytes();
    let loader = DictionaryLoader::read_any_dictionary(&data).unwrap();
    let sizes = Layout::of(&loader, &data).unwrap().sizes();
    assert_eq!(sizes.header, 272);
    assert_eq!(sizes.grammar, system_grammar().len());
    assert_eq!(sizes.trie, loader.lexicon.trie_storage_size());
    assert_eq!(sizes.lists, 4 + 9 * 5 + 4 + 9 * 6);
    assert_eq!(sizes.wi_index, 36);
    assert_eq!(
        sizes.header + sizes.grammar + sizes.trie + sizes.lists + sizes.wi_index + sizes.wi_records,
        data.len()
    );
    let cut = &data[..loader.word_infos_offset + 10];
    let loader = DictionaryLoader::read_any_dictionary(cut).unwrap();
    assert!(Layout::of(&loader, cut).is_none());
}

#[test]
fn a_repacked_dictionary_tokenizes_as_before() {
    let data = large_bytes();
    let xdic = repacked(&data, 4096, false);
    let dict = LoadedDictionary::from_xdic(&xdic, categories(), oov_settings(), 4096).unwrap();
    let mut plain =
        LoadedDictionary::from_system_dictionary_and_chardef(&data, categories()).unwrap();
    plain.oov_providers.push(
        sudachi::plugin::oov::MeCabOovPlugin::set_up(oov_settings(), &plain.grammar).unwrap(),
    );
    for text in ["京都東京都京都", "特abいく", "東京府にいっ", "あ京xyz", ""] {
        for mode in [Mode::A, Mode::C] {
            let a = tokenize(&plain, text, mode).unwrap();
            let b = tokenize(&dict, text, mode).unwrap();
            assert_eq!(a.len(), b.len());
            for i in 0..a.len() {
                assert_eq!(a.get(i).surface(), b.get(i).surface());
                assert_eq!(a.get(i).word_id(), b.get(i).word_id());
                assert_eq!(a.get(i).reading_form(), b.get(i).reading_form());
                assert_eq!(a.get(i).dictionary_form(), b.get(i).dictionary_form());
                assert_eq!(a.get(i).part_of_speech(), b.get(i).part_of_speech());
                assert_eq!(a.get(i).synonym_group_ids(), b.get(i).synonym_group_ids());
            }
        }
    }
}

#[test]
fn dictionaries_with_a_packed_matrix() {
    let grammar = system_grammar();
    let mut packed = grammar[..grammar.len() - 12].to_vec();
    packed.extend_from_slice(&0x4D43_4250u32.to_le_bytes());
    packed.extend_from_slice(&[2, 0, 2, 0, 1, 0, 0, 0, 0, 0, 0, 0, 0, 0, 0]);
    let data = dictionary(SYSTEM_VERSION, &packed, &system_words(), true, 200_000);
    let loaded =
        LoadedDictionary::from_system_dictionary_and_chardef(&data, categories()).unwrap();
    assert_eq!(loaded.grammar.storage_size, packed.len());
    assert_eq!(tokenize(&loaded, "東京都京都", Mode::C).unwrap().len(), 2);
    let xdic = repacked(&data, 4096, false);
    let other =
        LoadedDictionary::from_xdic(&xdic, categories(), oov_settings(), 4096).unwrap();
    assert_eq!(tokenize(&other, "東京都京都", Mode::A).unwrap().len(), 3);
    assert_eq!(other.grammar.connect_cost(1, 1), Some(0));
}

#[test]
fn a_record_across_two_chunks_cannot_be_read() {
    let data = large_bytes();
    let xdic = repacked(&data, 64, false);
    let dict = LoadedDictionary::from_xdic(&xdic, categories(), oov_settings(), 64).unwrap();
    assert!(tokenize(&dict, "東京都", Mode::C).is_err());
    let ms = tokenize(&dict, "京都", Mode::C).unwrap();
    assert_eq!(ms.get(0).reading_form(), "キョウト");
}

#[test]
fn a_packed_trie_finds_prefixes() {
    let keys: Vec<String> = ["ab", "abcde", "b", "今", "今日", "今日は"]
        .iter()
        .map(|k| k.to_string())
        .collect();
    for tails in [false, true] {
        let (bytes, names) = packed_trie(&keys, tails);
        let places: Vec<u32> = names.iter().map(|k| 100 + k.len() as u32).collect();
        let trie = XcdatTrie::parse(&bytes, places).unwrap();
        let search = |text: &str, offset: usize| -> Vec<(u64, usize)> {
            let mut iter = trie.common_prefix_search(text.as_bytes(), offset);
            let mut found = vec![];
            while let Some(entry) = iter.next() {
                found.push((entry.value, entry.end));
            }
            let all = trie.checked_search(text.as_bytes(), offset).unwrap();
            let all: Vec<(u64, usize)> = all.iter().map(|e| (e.value, e.end)).collect();
            assert_eq!(all, found);
            found
        };
        assert_eq!(search("今日", 0), vec![(103, 3), (106, 6)]);
        assert_eq!(search("今日はx", 0), vec![(103, 3), (106, 6), (109, 9)]);
        assert_eq!(search("xabcdef", 1), vec![(102, 3), (105, 6)]);
        assert_eq!(search("abcd", 0), vec![(102, 2)]);
        assert_eq!(search("b", 0), vec![(101, 1)]);
        assert_eq!(search("c", 0), vec![]);
        assert_eq!(search("", 0), vec![]);
        let rank = names.iter().position(|k| k == "今日").unwrap();
        assert_eq!(trie.rank_to_offset(rank as u64), 106);
        assert!(XcdatTrie::checked_parse(&bytes[..bytes.len() - 1], vec![]).is_none());
    }
}

#[test]
fn tails_in_a_compressed_dictionary() {
    let data = large_bytes();
    let xdic = repacked(&data, 4096, true);
    let dict = LoadedDictionary::from_xdic(&xdic, categories(), oov_settings(), 4096).unwrap();
    let ms = tokenize(&dict, "東京府京都", Mode::C).unwrap();
    let surfaces: Vec<&str> = (0..ms.len()).map(|i| ms.get(i).surface()).collect();
    assert_eq!(surfaces, vec!["東京府", "京都"]);
}

#[test]
fn compressed_dictionaries_that_are_rejected() {
    let data = large_bytes();
    let xdic = repacked(&data, 4096, false);
    let load = |bytes: &[u8]| {
        match LoadedDictionary::checked_from_xdic(bytes, categories(), oov_settings(), 4096) {
            None => "cut off",
            Some(Ok(_)) => "loaded",
            Some(Err(SudachiError::InvalidDictionaryGrammar)) => "grammar",
            Some(Err(SudachiError::InvalidHeader(_))) => "header",
            Some(Err(_)) => "other",
        }
    };
    assert_eq!(load(&xdic), "loaded");
    assert_eq!(load(&xdic[..271]), "cut off");
    assert_eq!(load(&xdic[..1000]), "cut off");
    let mut other = xdic.clone();
    other[0] ^= 1;
    assert_eq!(load(&other), "header");
    let mut other = xdic.clone();
    other[276] ^= 0xff;
    assert_eq!(load(&other), "grammar");
    let mut settings = oov_settings();
    settings.definitions[0].pos[0] = "?".to_string();
    assert!(matches!(
        LoadedDictionary::from_xdic(&xdic, categories(), settings, 4096),
        Err(SudachiError::InvalidDictionaryGrammar)
    ));
}

#[test]
fn a_broken_chunk_is_an_error() {
    let data = large_bytes();
    let mut xdic = repacked(&data, 4096, false);
    let at = {
        let sections = Sections::find(&xdic).unwrap();
        let count_at = 36 + 4 + sections.zdict.len();
        let count =
            u32::from_le_bytes(sections.chunked[count_at..count_at + 4].try_into().unwrap());
        let skipped = count_at + 4 + 4 * count as usize + 4;
        xdic.len() - sections.chunked.len() + skipped
    };
    xdic[at] ^= 0xff;
    let sections = Sections::find(&xdic).unwrap();
    let lexicon = Lexicon::parse_xdic(
        sections.xcdat,
        &sections.rank_to_offset,
        sections.rest,
        sections.word_count,
        sections.chunked,
        4096,
        true,
    )
    .unwrap();
    match lexicon.get_word_info(0, InfoSubset::all()) {
        Err(SudachiError::InvalidDataFormat(0, text)) => {
            assert!(text.starts_with("zstd decompress chunk 0: "));
        }
        _ => panic!("a broken chunk was read"),
    }
    assert_eq!(lexicon.trie_storage_size(), 0);
    assert!(lexicon.checked_word_info(100, InfoSubset::all()).is_none());
}

#[test]
fn a_broken_dictionary_of_the_decoder_is_an_error() {
    let data = large_bytes();
    let mut xdic = repacked(&data, 4096, false);
    let at = xdic.len() - Sections::find(&xdic).unwrap().chunked.len() + 40;
    assert_eq!(xdic[at..at + 4], [0x37, 0xA4, 0x30, 0xEC]);
    for byte in xdic[at + 8..at + 108].iter_mut() {
        *byte = 0xff;
    }
    assert!(matches!(
        LoadedDictionary::from_xdic(&xdic, categories(), oov_settings(), 4096),
        Err(SudachiError::InvalidDictionaryGrammar)
    ));
    let sections = Sections::find(&xdic).unwrap();
    let infos = ChunkedWordInfos::new(sections.chunked, sections.word_count, 4096, true).unwrap();
    match infos.get_word_info(0, InfoSubset::all()) {
        Err(SudachiError::InvalidDataFormat(0, text)) => {
            assert!(text.starts_with("zstd dict: "));
        }
        _ => panic!("a chunk was read with a broken dictionary"),
    }
}

#[test]
fn records_are_the_same_whatever_was_asked_before() {
    let data = large_bytes();
    let flat = DictionaryLoader::read_any_dictionary(&data).unwrap().lexicon;
    let xdic = repacked(&data, 4096, false);
    let sections = Sections::find(&xdic).unwrap();
    let infos = ChunkedWordInfos::new(sections.chunked, sections.word_count, 4096, true).unwrap();
    for word_id in [0, 8, 1, 1, 8, 7, 0] {
        let one = infos.get_word_info(word_id, InfoSubset::all()).unwrap();
        let two = flat.get_word_info(word_id, InfoSubset::all()).unwrap();
        assert_eq!(format!("{one:?}"), format!("{two:?}"));
    }
    assert_eq!(infos.get_word_info(8, InfoSubset::all()).unwrap().dictionary_form(), "いく");
    for word_id in 0..9 {
        let one = infos.get_word_info(word_id, InfoSubset::empty()).unwrap();
        let two = flat.get_word_info(word_id, InfoSubset::empty()).unwrap();
        assert_eq!(format!("{one:?}"), format!("{two:?}"));
        assert_eq!(one.surface(), "");
    }
}

#[test]
fn registries_share_their_handles() {
    let data = large_bytes();
    let xdic = repacked(&data, 4096, false);
    let def = CHAR_DEF.as_bytes();
    let mut handles = Handles::new();
    let (mut one, mut two) = (Registry::new(), Registry::new());
    assert_eq!(one.load_dictionary(&mut handles, &xdic, def, oov_settings(), 4096).unwrap(), 1);
    assert!(two.load_dictionary(&mut handles, &xdic[..9], def, oov_settings(), 4096).is_err());
    assert_eq!(two.load_dictionary(&mut handles, &xdic, def, oov_settings(), 4096).unwrap(), 2);
    assert!(one.tokenize(1, "京都", 2).is_ok());
    assert!(matches!(one.tokenize(2, "京都", 2), Err(TokenizeError::InvalidHandle)));
    assert!(matches!(two.tokenize(1, "京都", 2), Err(TokenizeError::InvalidHandle)));
}

#[test]
fn freeing_a_handle_leaves_the_others() {
    let data = large_bytes();
    let xdic = repacked(&data, 4096, false);
    let def = CHAR_DEF.as_bytes();
    let mut registry = Registry::new();
    let mut handles = Handles::new();
    let one = registry.load_dictionary(&mut handles, &xdic, def, oov_settings(), 4096).unwrap();
    let two = registry.load_dictionary(&mut handles, &xdic, def, oov_settings(), 4096).unwrap();
    let before: Vec<_> =
        (0..4).map(|mode| registry.tokenize(two, "東京都いっ京都", mode).unwrap()).collect();
    registry.free_dictionary(one);
    for mode in 0..4 {
        let after = registry.tokenize(two, "東京都いっ京都", mode).unwrap();
        assert_eq!(after, before[mode as usize]);
        assert!(matches!(
            registry.tokenize(one, "東京都", mode),
            Err(TokenizeError::InvalidHandle)
        ));
    }
    assert_eq!(before[2], before[3]);
}

#[test]
fn dictionaries_that_cannot_be_repacked() {
    let data = large_bytes();
    let loader = DictionaryLoader::read_any_dictionary(&data).unwrap();
    let index = loader.word_infos_offset;
    assert!(matches!(repack(&data[..100], &[], &[], 3, 4096), Err(RepackError::CutOff)));
    assert!(matches!(repack(&data[..index + 3], &[], &[], 3, 4096), Err(RepackError::CutOff)));
    let mut other = data.clone();
    other[3] ^= 1;
    assert!(matches!(
        repack(&other, &[], &[], 3, 4096),
        Err(RepackError::Dictionary(SudachiError::InvalidHeader(_)))
    ));
    let mut other = data.clone();
    other[index + 8..index + 12].copy_from_slice(&7u32.to_le_bytes());
    assert!(matches!(
        repack(&other, &[], &[], 3, 4096),
        Err(RepackError::MisplacedRecord(2))
    ));
}

#[test]
fn tokenizers_of_compressed_dictionaries() {
    let data = large_bytes();
    let xdic = repacked(&data, 4096, false);
    let tokenizer =
        Tokenizer::from_xdic(&xdic, CHAR_DEF.as_bytes(), oov_settings(), 4096).unwrap();
    let tokens = tokenizer.tokenize("東京都z", "A").unwrap();
    assert_eq!(tokens.len(), 3);
    assert!(tokens[2].is_oov);
    assert_eq!((tokens[2].begin, tokens[2].end), (9, 10));
    assert!(matches!(
        Tokenizer::from_xdic(&xdic[..500], CHAR_DEF.as_bytes(), oov_settings(), 4096),
        Err(LoadError::CutOff)
    ));
}

#[test]
fn handles_of_dictionaries() {
    let data = large_bytes();
    let xdic = repacked(&data, 4096, false);
    let mut registry = Registry::new();
    let mut handles = Handles::new();
    let def = CHAR_DEF.as_bytes();
    assert!(matches!(registry.tokenize(1, "京都", 2), Err(TokenizeError::InvalidHandle)));
    assert!(registry.load_dictionary(&mut handles, &xdic[..9], def, oov_settings(), 4096).is_err());
    assert!(registry.load_dictionary(&mut handles, &xdic, b"0x1 ?", oov_settings(), 4096).is_err());
    let one = registry.load_dictionary(&mut handles, &xdic, def, oov_settings(), 4096).unwrap();
    let two = registry.load_dictionary(&mut handles, &xdic, def, oov_settings(), 4096).unwrap();
    assert_eq!((one, two), (1, 2));
    let rows = registry.tokenize(two, "東京都", 0).unwrap();
    let row = |a: &str, b: &str, c: &str| (a.to_string(), b.to_string(), c.to_string());
    assert_eq!(rows, vec![row("東京", "トウキョウ", "名詞"), row("都", "都", "名詞")]);
    assert_eq!(registry.tokenize(one, "いく", 2).unwrap(), vec![row("いく", "イク", "動詞")]);
    registry.free_dictionary(one);
    assert!(matches!(registry.tokenize(one, "京都", 2), Err(TokenizeError::InvalidHandle)));
    assert_eq!(registry.tokenize(two, "京都", 2).unwrap().len(), 1);
    let long = "a".repeat(50_000);
    assert!(matches!(
        registry.tokenize(two, &long, 2),
        Err(TokenizeError::Analysis(SudachiError::InputTooLong(50_000, _)))
    ));
    let three = registry.load_dictionary(&mut handles, &xdic, def, oov_settings(), 4096).unwrap();
    assert_eq!(three, 3);
}

#[test]
fn dictionaries_of_the_other_kind_are_rejected() {
    let system = system_bytes();
    let user = user_bytes();
    assert!(DictionaryLoader::read_system_dictionary(&system).is_ok());
    assert!(DictionaryLoader::read_user_dictionary(&user).is_ok());
    assert!(matches!(
        DictionaryLoader::read_system_dictionary(&user),
        Err(SudachiError::InvalidHeader(_))
    ));
    assert!(matches!(
        DictionaryLoader::read_user_dictionary(&system),
        Err(SudachiError::InvalidHeader(_))
    ));
    let loader = DictionaryLoader::read_any_dictionary(&system).unwrap();
    assert_eq!(loader.lexicon_offset, 272 + system_grammar().len());
    assert!(loader.to_loaded().is_some());
    let dict = LoadedDictionary::from_system_dictionary(&system, CHAR_DEF.as_bytes()).unwrap();
    assert_eq!(dict.grammar.pos_list.len(), 4);
    assert!(LoadedDictionary::from_system_dictionary_embedded(&system, b"0x1 ?").is_err());
}

#[test]
fn only_so_many_dictionaries_fit() {
    let system = system_bytes();
    let user = user_bytes();
    let mut dict =
        LoadedDictionary::from_system_dictionary_and_chardef(&system, categories()).unwrap();
    for i in 0..14 {
        let other = DictionaryLoader::read_user_dictionary(&user).unwrap();
        dict = dict.merge_dictionary(other).unwrap();
        assert_eq!(dict.lexicon_set.len(), i + 2);
    }
    let other = DictionaryLoader::read_user_dictionary(&user).unwrap();
    assert!(matches!(
        dict.merge_dictionary(other),
        Err(SudachiError::LexiconSetError(LexiconSetError::TooManyDictionaries(15)))
    ));
}
