//! Tests of the readers of the parts of a dictionary.

use sudachi::dic::category_type;
use sudachi::dic::category_type::CategoryType;
use sudachi::dic::character_category::CharacterCategory;
use sudachi::dic::compact::{decode_vbyte, decode_zigzag, extract_bits};
use sudachi::dic::connect::{bitpacked, flat};
use sudachi::dic::grammar::Grammar;
use sudachi::dic::header::{Header, HeaderVersion, SystemDictVersion, UserDictVersion};
use sudachi::dic::lexicon::trie::Trie;
use sudachi::dic::lexicon::word_id_table::WordIdTable;
use sudachi::dic::lexicon::word_infos::{chunk_outcome, WordInfo, WordInfoData, WordInfos};
use sudachi::dic::lexicon::word_params::WordParams;
use sudachi::dic::lexicon::Lexicon;
use sudachi::dic::read::u16str::{skip_u16_string, string_length_parser, utf16_string_parser};
use sudachi::dic::read::word_info::WordInfoParser;
use sudachi::dic::read::{
    skip_u32_array, skip_vbyte_u32_array, skip_vbyte_wid_array, skip_wid_array, u32_array_parser,
    u32_parser, u32_wid_array_parser, vbyte_u16, vbyte_u32, vbyte_u32_array, vbyte_wid_array,
    zigzag_vbyte_i32,
};
use sudachi::dic::subset::InfoSubset;
use sudachi::dic::word_id::WordId;
use sudachi::dic::zstandard::DecompressError;
use sudachi::error::{HeaderError, ReadError, SudachiError};
use sudachi::util::cow_array::CowArray;

#[test]
fn arrays_of_integers() {
    let bytes = [2, 1, 0, 0, 0, 5, 1, 0, 0, 9];
    assert_eq!(u32_array_parser(&bytes), Ok((&[9u8][..], vec![1, 261])));
    let (rest, ids) = u32_wid_array_parser(&bytes).unwrap();
    assert_eq!(rest, &[9]);
    assert_eq!(ids, vec![WordId::from_raw(1), WordId::from_raw(261)]);
    assert_eq!(u32_array_parser(&bytes[..9]).unwrap().1.len(), 2);
    assert_eq!(u32_array_parser(&bytes[..8]), Err(ReadError::Eof));
    assert_eq!(u32_array_parser(&[]), Err(ReadError::Eof));
    assert_eq!(u32_parser(&[0x78, 0x56, 0x34, 0x12, 7]), Ok((&[7u8][..], 0x1234_5678)));
    assert_eq!(u32_parser(&[1, 2, 3]), Err(ReadError::Eof));
}

#[test]
fn passing_over_an_array_leaves_what_reading_it_leaves() {
    let bytes = [2, 1, 0, 0, 0, 5, 1, 0, 0, 9];
    assert_eq!(skip_u32_array(&bytes), Ok((&[9u8][..], vec![])));
    assert_eq!(skip_wid_array(&bytes).unwrap().0, &[9]);
    assert!(skip_wid_array(&bytes).unwrap().1.is_empty());
    let bytes = [3, 0x81, 0x01, 5, 0xff, 0x7f, 8];
    assert_eq!(skip_vbyte_u32_array(&bytes), Ok((&[8u8][..], vec![])));
    assert_eq!(skip_vbyte_wid_array(&bytes).unwrap().0, &[8]);
    assert_eq!(vbyte_u32_array(&bytes), Ok((&[8u8][..], vec![129, 5, 16383])));
}

#[test]
fn variable_length_integers() {
    assert_eq!(decode_vbyte(&[0]), (0, 1));
    assert_eq!(decode_vbyte(&[0x7f, 1]), (127, 1));
    assert_eq!(decode_vbyte(&[0x80, 0x01]), (128, 2));
    assert_eq!(decode_vbyte(&[0xff, 0xff, 0xff, 0xff, 0x0f]), (u32::MAX, 5));
    assert_eq!(vbyte_u32(&[0xff, 0x01, 3]), Ok((&[3u8][..], 255)));
    assert_eq!(vbyte_u16(&[0x81, 0x80, 0x04, 3]), Ok((&[3u8][..], 1)));
    let (rest, ids) = vbyte_wid_array(&[1, 0x80, 0x02, 6]).unwrap();
    assert_eq!(rest, &[6]);
    assert_eq!(ids, vec![WordId::from_raw(256)]);
}

#[test]
fn zigzag_codes() {
    assert_eq!(decode_zigzag(0), 0);
    assert_eq!(decode_zigzag(1), -1);
    assert_eq!(decode_zigzag(2), 1);
    assert_eq!(decode_zigzag(u32::MAX), i32::MIN);
    assert_eq!(decode_zigzag(u32::MAX - 1), i32::MAX);
    assert_eq!(zigzag_vbyte_i32(&[0x83, 0x01]), Ok((&[][..], -66)));
}

#[test]
fn bit_fields() {
    let bytes = [0b1011_0010, 0b0000_0111];
    assert_eq!(extract_bits(&bytes, 0, 4), 0b0010);
    assert_eq!(extract_bits(&bytes, 4, 5), 0b1_1011);
    assert_eq!(extract_bits(&bytes, 7, 0), 0);
    assert_eq!(extract_bits(&[0xff; 5], 3, 32), u32::MAX);
}

#[test]
fn strings() {
    assert_eq!(string_length_parser(&[5, 1]), Ok((&[1u8][..], 5)));
    assert_eq!(string_length_parser(&[0x81, 0x02, 3]), Ok((&[3u8][..], 258)));
    assert_eq!(string_length_parser(&[0x81]), Err(ReadError::Eof));
    let bytes = [3, 0x42, 0x30, 0x3D, 0xD8, 0x00, 0xDE, 77];
    assert_eq!(utf16_string_parser(&bytes), Ok((&[77u8][..], "あ😀".to_string())));
    assert_eq!(skip_u16_string(&bytes), Ok((&[77u8][..], String::new())));
    assert_eq!(utf16_string_parser(&[0]), Ok((&[][..], String::new())));
    assert_eq!(utf16_string_parser(&[1, 0x3D, 0xD8]), Err(ReadError::Utf16String));
    assert_eq!(utf16_string_parser(&[2, 0x42, 0x30]), Err(ReadError::Utf16String));
    assert_eq!(utf16_string_parser(&[]), Err(ReadError::Eof));
}

fn header_bytes(version: u64) -> Vec<u8> {
    let mut bytes = version.to_le_bytes().to_vec();
    bytes.extend_from_slice(&42u64.to_le_bytes());
    bytes.extend_from_slice(b"test");
    bytes.resize(272, 0);
    bytes
}

#[test]
fn headers() {
    let header = Header::parse(&header_bytes(0xce9f011a92394434)).unwrap();
    assert_eq!(header.version, HeaderVersion::SystemDict(SystemDictVersion::Version2));
    assert_eq!(header.create_time, 42);
    assert_eq!(header.description, b"test");
    assert!(header.has_grammar());
    assert!(header.has_synonym_group_ids());
    let header = Header::parse(&header_bytes(0xa50f31188bd211e7)).unwrap();
    assert_eq!(header.version, HeaderVersion::UserDict(UserDictVersion::Version1));
    assert!(!header.has_grammar());
    assert!(!header.has_synonym_group_ids());
    assert!(matches!(
        Header::parse(&header_bytes(1)),
        Err(SudachiError::InvalidHeader(HeaderError::InvalidVersion))
    ));
    assert!(matches!(
        Header::parse(&[0; 20]),
        Err(SudachiError::InvalidHeader(HeaderError::CannotParse))
    ));
}

#[test]
fn flat_connection_costs() {
    let bytes: Vec<u8> = [0i16, 1, 2, 3, -4, 5].iter().flat_map(|c| c.to_le_bytes()).collect();
    let mut matrix = flat::ConnectionMatrix::from_offset_size(&bytes, 0, 3, 2).unwrap();
    assert_eq!(matrix.num_left(), 3);
    assert_eq!(matrix.num_right(), 2);
    assert_eq!(matrix.cost(2, 0), 2);
    assert_eq!(matrix.cost(1, 1), -4);
    matrix.update(1, 1, 99);
    assert_eq!(matrix.cost(1, 1), 99);
    assert_eq!(matrix.cost(0, 1), 3);
    assert_eq!(matrix.cost(2, 1), 5);
    match flat::ConnectionMatrix::from_offset_size(&bytes, 8, 3, 2) {
        Err(SudachiError::ErrWithContext { context, cause }) => {
            assert_eq!(context, "connection matrix");
            assert!(matches!(*cause, SudachiError::InvalidDictionaryGrammar));
        }
        _ => panic!("a matrix that is cut off was accepted"),
    }
}

#[test]
fn packed_connection_costs() {
    let mut bytes = vec![0xee];
    bytes.extend_from_slice(&300u16.to_le_bytes());
    bytes.extend_from_slice(&2u16.to_le_bytes());
    bytes.extend_from_slice(&2u32.to_le_bytes());
    bytes.extend_from_slice(&0u32.to_le_bytes());
    bytes.extend_from_slice(&(3u32 + 192).to_le_bytes());
    bytes.extend_from_slice(&(-5i16).to_le_bytes());
    bytes.push(3);
    let mut packed = vec![0u8; 192];
    for cell in 0..512usize {
        let value = cell % 7;
        for k in 0..3 {
            if value >> k & 1 == 1 {
                packed[(3 * cell + k) / 8] |= 1 << ((3 * cell + k) % 8);
            }
        }
    }
    bytes.extend_from_slice(&packed);
    bytes.extend_from_slice(&1234i16.to_le_bytes());
    bytes.push(0);
    bytes.push(0xee);
    let (mut matrix, size) = bitpacked::ConnectionMatrix::from_bitpacked(&bytes, 1).unwrap();
    assert_eq!(size, bytes.len() - 2);
    assert_eq!((matrix.num_left(), matrix.num_right()), (300, 2));
    assert_eq!(matrix.cost(0, 0), -5);
    assert_eq!(matrix.cost(6, 0), 1);
    assert_eq!(matrix.cost(255, 1), -5 + (511 % 7));
    assert_eq!(matrix.cost(256, 0), 1234);
    assert_eq!(matrix.cost(299, 1), 1234);
    matrix.update(0, 0, 7);
    assert_eq!(matrix.cost(0, 0), -5);
    match bitpacked::ConnectionMatrix::from_bitpacked(&bytes, bytes.len() - 2) {
        Err(SudachiError::ErrWithContext { context, .. }) => {
            assert_eq!(context, "bitpacked conn header");
        }
        _ => panic!("a header that is cut off was accepted"),
    }
}

#[test]
fn unpacked_costs_of_the_packed_kind() {
    let bytes: Vec<u8> = [7i16, -8, 9, 10].iter().flat_map(|c| c.to_le_bytes()).collect();
    let matrix = bitpacked::ConnectionMatrix::from_offset_size(&bytes, 0, 2, 2).unwrap();
    assert_eq!(matrix.cost(1, 0), -8);
    assert_eq!(matrix.cost(0, 1), 9);
    assert!(bitpacked::ConnectionMatrix::from_offset_size(&bytes, 0, 2, 3).is_err());
}

#[test]
fn arrays_are_copied_when_written_to() {
    let bytes = [1, 0, 0xff, 0xff, 3, 0];
    let mut array = CowArray::from_bytes(&bytes, 0, 3);
    assert_eq!(array.len(), 3);
    assert_eq!(array.get(1), Some(-1));
    assert_eq!(array.get(3), None);
    array.set(1, 20);
    assert_eq!((array.get(0), array.get(1), array.get(2)), (Some(1), Some(20), Some(3)));
    assert_eq!(bytes[2], 0xff);
    let owned: CowArray<'static> = array.into_owned();
    assert_eq!(owned.get(1), Some(20));
}

#[test]
fn grammars() {
    let mut bytes = vec![1, 0];
    for text in ["a", "b", "c", "d", "e", "f"] {
        bytes.push(1);
        bytes.extend_from_slice(&[text.as_bytes()[0], 0]);
    }
    bytes.extend_from_slice(&[2, 0, 1, 0, 5, 0, 6, 0]);
    let grammar = Grammar::parse(&bytes, 0).unwrap();
    assert_eq!(grammar.storage_size, bytes.len());
    assert_eq!(grammar.pos_list.len(), 1);
    assert_eq!(grammar.pos_list[0], vec!["a", "b", "c", "d", "e", "f"]);
    assert_eq!(grammar.conn_matrix().num_left(), 2);
    assert_eq!(grammar.connect_cost(1, 0), Some(6));
    assert_eq!(grammar.connect_cost(2, 0), None);
    assert_eq!(grammar.get_part_of_speech_id(&grammar.pos_list[0]), Some(0));
    assert_eq!(grammar.get_part_of_speech_id(&vec![]), None);
    assert!(matches!(
        Grammar::parse(&bytes[..5], 0),
        Err(SudachiError::InvalidDictionaryGrammar)
    ));
    assert!(Grammar::checked_parse(&bytes[..bytes.len() - 1], 0).is_none());
    let mut shifted = vec![9, 9];
    shifted.extend_from_slice(&bytes);
    shifted.push(9);
    let other = Grammar::parse(&shifted, 2).unwrap();
    assert_eq!(other.storage_size, grammar.storage_size);
    assert_eq!(other.connect_cost(0, 0), Some(5));
}

#[test]
fn grammars_with_a_packed_matrix() {
    let mut bytes = vec![9, 0, 0];
    bytes.extend_from_slice(&bitpacked::BITPACKED_MAGIC.to_le_bytes());
    bytes.extend_from_slice(&[3, 0, 2, 0, 1, 0, 0, 0, 0, 0, 0, 0]);
    // Three bits for each of -5, -4, -3, -2, -1 and 2.
    bytes.extend_from_slice(&(-5i16).to_le_bytes());
    bytes.push(3);
    let bits: u32 = [0u32, 1, 2, 3, 4, 7].iter().rev().fold(0, |all, cell| all << 3 | cell);
    bytes.extend_from_slice(&bits.to_le_bytes()[..3]);
    let whole = bytes.len();
    bytes.push(9);
    let grammar = Grammar::parse(&bytes, 1).unwrap();
    assert_eq!(grammar.storage_size, whole - 1);
    assert_eq!((grammar.conn_matrix().num_left(), grammar.conn_matrix().num_right()), (3, 2));
    let costs = |grammar: &Grammar| -> Vec<Option<i16>> {
        (0..2).flat_map(|row| (0..3).map(move |column| (column, row)))
            .map(|(column, row)| grammar.connect_cost(column, row))
            .collect()
    };
    let expected: Vec<Option<i16>> = [-5, -4, -3, -2, -1, 2].into_iter().map(Some).collect();
    assert_eq!(costs(&grammar), expected);
    assert_eq!(grammar.connect_cost(3, 0), None);
    let owned: Grammar<'static> = grammar.into_owned();
    assert_eq!(costs(&owned), expected);
    let alone = Grammar::parse(&bytes[1..whole], 0).unwrap();
    assert_eq!(alone.storage_size, whole - 1);
    assert_eq!(costs(&alone), expected);
    assert!(Grammar::checked_parse(&bytes[..whole - 1], 1).is_none());
    match Grammar::parse(&bytes[..10], 1) {
        Err(SudachiError::ErrWithContext { context, .. }) => {
            assert_eq!(context, "bitpacked conn header");
        }
        _ => panic!("a packed matrix without a header was accepted"),
    }
    // Fewer blocks than the cells need.
    bytes[7] = 0xff;
    bytes[8] = 0xff;
    assert!(Grammar::checked_parse(&bytes, 1).is_none());
}

#[test]
fn categories_of_characters() {
    let definition = "# letters\n0x0061..0x007A ALPHA # small\n0x0061 USER1\nDEFAULT 1 2 3\n";
    let categories = CharacterCategory::from_bytes(definition.as_bytes()).unwrap();
    let a = categories.get_category_types('a');
    assert_eq!(a.bits, category_type::ALPHA | category_type::USER1);
    assert_eq!(categories.get_category_types('z').bits, category_type::ALPHA);
    assert_eq!(categories.get_category_types('{').bits, category_type::DEFAULT);
    let name = "KANJINUMERIC".to_string();
    assert_eq!(
        CategoryType::from_name(&name),
        Some(CategoryType::from_bits(category_type::KANJINUMERIC))
    );
    assert_eq!(CategoryType::from_name(&"kanji".to_string()), None);
    let lines = ["0x61", "0x62..0x61 ALPHA", "0xzz ALPHA", "0x61 LETTER"];
    for line in lines {
        let text = format!("0x60 ALPHA\n{}\n", line);
        assert!(matches!(
            CharacterCategory::from_bytes(text.as_bytes()),
            Err(SudachiError::InvalidCharacterCategory(1))
        ));
    }
}

#[test]
fn identifiers_of_words() {
    let id = WordId::new(3, 0x123);
    assert_eq!(id, WordId::from_raw(0x3000_0123));
    assert_eq!((id.dic(), id.word()), (3, 0x123));
    assert!(!id.is_oov());
    let oov = WordId::oov(7);
    assert!(oov.is_oov());
    assert_eq!((oov.dic(), oov.word()), (15, 7));
}

#[test]
fn lists_of_words() {
    let bytes = [0xee, 2, 1, 0, 0, 0, 2, 0, 0, 0, 0, 1, 9, 0, 0, 0];
    let table = WordIdTable::new(&bytes, 15, 1);
    assert_eq!(table.storage_size(), 19);
    assert_eq!(table.entries(0), vec![1, 2]);
    assert_eq!(table.entries(9), Vec::<u32>::new());
    assert_eq!(table.checked_entries(10), Some(vec![9]));
    assert_eq!(table.checked_entries(15), None);
    assert_eq!(table.checked_entries(1), Some(vec![0x0200_0000]));
    assert_eq!(table.checked_entries(11), None);
}

#[test]
fn a_cost_is_set_alone() {
    let bytes: Vec<u8> = [1i16, 2, 3, 4, 5, 6].iter().flat_map(|c| c.to_le_bytes()).collect();
    let mut params = WordParams::new(&bytes, 2, 0);
    assert_eq!(params.size(), 2);
    assert_eq!(params.storage_size(), 16);
    assert_eq!(params.get_params(1), (4, 5, 6));
    params.set_cost(0, -7);
    assert_eq!(params.get_params(0), (1, 2, -7));
    assert_eq!(params.get_cost(1), 6);
}

fn record(surface: u8, form: i32) -> Vec<u8> {
    let mut bytes = vec![1, surface, 0, 1, 4, 0, 0];
    bytes.extend_from_slice(&form.to_le_bytes());
    bytes.extend_from_slice(&[1, b'r', 0]);
    bytes.extend_from_slice(&[1, 2, 0, 0, 0, 0, 0]);
    bytes.extend_from_slice(&[1, 50, 0, 0, 0]);
    bytes
}

#[test]
fn records_as_far_as_they_are_asked_for() {
    let bytes = record(b's', -1);
    let all = WordInfoParser::subset(InfoSubset::all()).parse(&bytes).unwrap();
    assert_eq!(all.surface, "s");
    assert_eq!(all.head_word_length, 1);
    assert_eq!(all.pos_id, 4);
    assert_eq!(all.reading_form, "r");
    assert_eq!(all.a_unit_split, vec![WordId::from_raw(2)]);
    assert_eq!(all.synonym_group_ids, vec![50]);
    let one = WordInfoParser::subset(InfoSubset::surface()).parse(&bytes[..3]).unwrap();
    assert_eq!(one.surface, "s");
    assert_eq!(one.pos_id, 0);
    let parser = WordInfoParser::subset(InfoSubset::surface());
    assert!(matches!(parser.parse(&bytes[..2]), Err(SudachiError::ParseError(_))));
    let none = WordInfoParser::subset(InfoSubset::empty()).parse(&[]).unwrap();
    assert_eq!(none.surface, "");
}

#[test]
fn records_find_their_dictionary_form() {
    let mut bytes = vec![];
    let second = record(b't', 0);
    bytes.extend_from_slice(&8u32.to_le_bytes());
    bytes.extend_from_slice(&(8 + second.len() as u32).to_le_bytes());
    bytes.extend_from_slice(&record(b's', -1));
    bytes.extend_from_slice(&second);
    let infos = WordInfos::new(&bytes, 0, 2, true);
    let info = infos.get_word_info(1, InfoSubset::all()).unwrap();
    assert_eq!(info.surface(), "t");
    assert_eq!(info.dictionary_form(), "s");
    assert_eq!(info.dictionary_form_word_id(), 0);
    assert_eq!(info.normalized_form(), "t");
    let info = infos.get_word_info(0, InfoSubset::all()).unwrap();
    assert_eq!(info.dictionary_form(), "s");
    assert!(info.b_unit_split().is_empty());
    assert!(info.word_structure().is_empty());
    let without = WordInfos::new(&bytes, 0, 2, false);
    let info = without.get_word_info(0, InfoSubset::all()).unwrap();
    assert!(info.synonym_group_ids().is_empty());
    assert!(infos.checked_word_info(100, InfoSubset::all()).is_none());
}

#[test]
fn records_keep_their_data() {
    let mut data = WordInfoData::default();
    data.surface = "x".to_string();
    data.pos_id = 9;
    let info = WordInfo::from(data);
    assert_eq!(info.pos_id(), 9);
    assert_eq!(info.borrow_data().surface, "x");
    assert_eq!(info.reading_form(), "x");
    let data: WordInfoData = info.into();
    assert_eq!((data.surface.as_str(), data.pos_id), ("x", 9));
}

#[test]
fn errors_of_chunks() {
    assert_eq!(chunk_outcome(3, Ok(vec![1, 2])).unwrap(), vec![1, 2]);
    match chunk_outcome(120, Err(DecompressError::Frame("why".to_string()))) {
        Err(SudachiError::InvalidDataFormat(0, text)) => {
            assert_eq!(text, "zstd decompress chunk 120: why");
        }
        _ => panic!("no error"),
    }
    match chunk_outcome(0, Err(DecompressError::Dictionary("why".to_string()))) {
        Err(SudachiError::InvalidDataFormat(0, text)) => assert_eq!(text, "zstd dict: why"),
        _ => panic!("no error"),
    }
}

#[test]
fn a_double_array_finds_prefixes() {
    let mut units = vec![0xffu32; 1024];
    units[0] = 256 << 10;
    units[256 + b'a' as usize] = ((256 + b'a' as u32) ^ 512) << 10 | 0x100 | b'a' as u32;
    units[512] = 0x8000_0000 | 11;
    units[512 + b'b' as usize] = ((512 + b'b' as u32) ^ 768) << 10 | 0x100 | b'b' as u32;
    units[768] = 0x8000_0000 | 22;
    let bytes: Vec<u8> = units.iter().flat_map(|u| u.to_le_bytes()).collect();
    let trie = Trie::new(&bytes, units.len());
    assert_eq!(trie.total_size(), 4096);
    let found = trie.checked_search(b"xabc", 1).unwrap();
    let found: Vec<(u32, usize)> = found.iter().map(|e| (e.value, e.end)).collect();
    assert_eq!(found, vec![(11, 2), (22, 3)]);
    let mut iter = trie.common_prefix_iterator(b"ac", 0);
    assert_eq!(iter.next().map(|e| (e.value, e.end)), Some((11, 1)));
    assert!(iter.next().is_none());
    assert!(trie.checked_search(b"b", 0).unwrap().is_empty());
    assert!(Trie::new(&[], 0).checked_search(b"a", 0).is_none());
}

#[test]
fn lexicons_that_are_cut_off() {
    let mut bytes = vec![1, 0, 0, 0, 0, 0, 0, 0];
    assert!(matches!(Lexicon::parse(&bytes[..3], 0, true), Err(SudachiError::ParseError(_))));
    assert!(matches!(Lexicon::parse(&bytes[..6], 0, true), Err(SudachiError::InvalidRange(4, 8))));
    assert!(matches!(Lexicon::parse(&bytes, 0, true), Err(SudachiError::ParseError(_))));
    bytes.extend_from_slice(&[0, 0, 0, 0]);
    assert!(matches!(Lexicon::parse(&bytes, 0, true), Err(SudachiError::ParseError(_))));
    bytes.extend_from_slice(&[1, 0, 0, 0]);
    assert!(Lexicon::checked_parse(&bytes, 0, true).is_none());
    bytes.extend_from_slice(&[1, 0, 2, 0, 3, 0]);
    let (lexicon, infos) = Lexicon::parse(&bytes, 0, true).unwrap();
    assert_eq!(infos, bytes.len());
    assert_eq!(lexicon.size(), 1);
    assert_eq!(lexicon.trie_storage_size(), 8);
    assert_eq!(lexicon.word_infos_layout(&bytes), (1, 4));
    assert_eq!(lexicon.get_word_param(0), (1, 2, 3));
    assert!(lexicon.checked_lookup(b"a", 0).is_none());
}
