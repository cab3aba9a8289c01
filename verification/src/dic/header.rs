//! Dictionary headers.

use vstd::prelude::*;
use vstd::slice::{slice_subrange, slice_to_vec};

use crate::bytes;
use crate::error;
use crate::error::{HeaderError, SudachiError, SudachiResult};

verus! {

/// Version number of the first format of system dictionaries
pub const SYSTEM_DICT_VERSION_1: u64 = 0x7366d3f18bd111e7;

/// Version number of the format of system dictionaries with synonym groups
pub const SYSTEM_DICT_VERSION_2: u64 = 0xce9f011a92394434;

/// Version number of the first format of user dictionaries
pub const USER_DICT_VERSION_1: u64 = 0xa50f31188bd211e7;

/// Version number of the format of user dictionaries with a grammar
pub const USER_DICT_VERSION_2: u64 = 0x9fdeb5a90168d868;

/// Version number of the format of user dictionaries with synonym groups
pub const USER_DICT_VERSION_3: u64 = 0xca9811756ff64fb0;

/// Number of bytes of the description.
pub const DESCRIPTION_SIZE: usize = 256;

/// Number of bytes of a header.
pub const STORAGE_SIZE: usize = 272;

/// Formats of system dictionaries.
#[derive(Debug, Clone, Copy, PartialEq, Eq, Structural)]
pub enum SystemDictVersion {
    Version1,
    Version2,
}

/// Formats of user dictionaries.
#[derive(Debug, Clone, Copy, PartialEq, Eq, Structural)]
pub enum UserDictVersion {
    Version1,
    Version2,
    Version3,
}

/// Kind and format of a dictionary.
#[derive(Debug, Clone, Copy, PartialEq, Eq, Structural)]
pub enum HeaderVersion {
    SystemDict(SystemDictVersion),
    UserDict(UserDictVersion),
}

/// The format with the given version number.
pub open spec fn version_of(number: u64) -> Option<HeaderVersion> {
    if number == SYSTEM_DICT_VERSION_1 {
        Some(HeaderVersion::SystemDict(SystemDictVersion::Version1))
    } else if number == SYSTEM_DICT_VERSION_2 {
        Some(HeaderVersion::SystemDict(SystemDictVersion::Version2))
    } else if number == USER_DICT_VERSION_1 {
        Some(HeaderVersion::UserDict(UserDictVersion::Version1))
    } else if number == USER_DICT_VERSION_2 {
        Some(HeaderVersion::UserDict(UserDictVersion::Version2))
    } else if number == USER_DICT_VERSION_3 {
        Some(HeaderVersion::UserDict(UserDictVersion::Version3))
    } else {
        None
    }
}

impl HeaderVersion {
    /// The format with the given version number.
    pub fn from_u64(number: u64) -> (version: Option<HeaderVersion>)
        ensures
            version == version_of(number),
    {
        if number == SYSTEM_DICT_VERSION_1 {
            Some(HeaderVersion::SystemDict(SystemDictVersion::Version1))
        } else if number == SYSTEM_DICT_VERSION_2 {
            Some(HeaderVersion::SystemDict(SystemDictVersion::Version2))
        } else if number == USER_DICT_VERSION_1 {
            Some(HeaderVersion::UserDict(UserDictVersion::Version1))
        } else if number == USER_DICT_VERSION_2 {
            Some(HeaderVersion::UserDict(UserDictVersion::Version2))
        } else if number == USER_DICT_VERSION_3 {
            Some(HeaderVersion::UserDict(UserDictVersion::Version3))
        } else {
            None
        }
    }
}

/// Whether dictionaries of a format hold a grammar.
pub open spec fn version_has_grammar(version: HeaderVersion) -> bool {
    version != HeaderVersion::UserDict(UserDictVersion::Version1)
}

/// Whether the word records of dictionaries of a format hold synonym groups.
pub open spec fn version_has_synonyms(version: HeaderVersion) -> bool {
    version == HeaderVersion::SystemDict(SystemDictVersion::Version2) || version
        == HeaderVersion::UserDict(UserDictVersion::Version3)
}

/// The bytes before the first zero.
pub open spec fn until_zero(s: Seq<u8>) -> Seq<u8>
    decreases s.len(),
{
    if s.len() == 0 || s[0] == 0 {
        Seq::empty()
    } else {
        seq![s[0]] + until_zero(s.drop_first())
    }
}

/// Header of a dictionary.
#[derive(Debug)]
pub struct Header {
    pub version: HeaderVersion,
    /// Time of creation, in seconds since the epoch
    pub create_time: u64,
    /// Description of the dictionary, in UTF-8
    pub description: Vec<u8>,
}

/// What a header holds.
pub struct HeaderModel {
    pub version: HeaderVersion,
    pub create_time: u64,
    pub description: Seq<u8>,
}

/// The header that `s` begins with: the version number, the time of creation and the
/// description.
pub open spec fn header_in(s: Seq<u8>) -> Result<HeaderModel, error::ErrorModel> {
    if s.len() < STORAGE_SIZE {
        Err(error::ErrorModel::InvalidHeader(HeaderError::CannotParse))
    } else {
        match version_of(bytes::u64_at(s, 0)) {
            None => Err(error::ErrorModel::InvalidHeader(HeaderError::InvalidVersion)),
            Some(version) => Ok(
                HeaderModel {
                    version,
                    create_time: bytes::u64_at(s, 8),
                    description: until_zero(s.subrange(16, STORAGE_SIZE as int)),
                },
            ),
        }
    }
}

impl Header {
    /// What the header holds.
    pub open spec fn model(self) -> HeaderModel {
        HeaderModel {
            version: self.version,
            create_time: self.create_time,
            description: self.description@,
        }
    }

    /// Reads the header that `data` begins with.
    pub fn parse(data: &[u8]) -> (res: SudachiResult<Header>)
        ensures
            match header_in(data@) {
                Ok(header) => res matches Ok(got) && got.model() == header,
                Err(e) => res matches Err(got) && got.model() == e,
            },
    {
        if data.len() < STORAGE_SIZE {
            return Err(SudachiError::InvalidHeader(HeaderError::CannotParse));
        }
        match HeaderVersion::from_u64(bytes::read_u64(data, 0)) {
            None => Err(SudachiError::InvalidHeader(HeaderError::InvalidVersion)),
            Some(version) => Ok(
                Header {
                    version,
                    create_time: bytes::read_u64(data, 8),
                    description: nul_terminated(
                        slice_subrange(data, 16, 16 + DESCRIPTION_SIZE),
                    ),
                },
            ),
        }
    }

    /// Whether the dictionary holds a grammar.
    pub fn has_grammar(&self) -> (has: bool)
        ensures
            has == version_has_grammar(self.version),
    {
        match self.version {
            HeaderVersion::UserDict(UserDictVersion::Version1) => false,
            _ => true,
        }
    }

    /// Whether the word records of the dictionary hold synonym groups.
    pub fn has_synonym_group_ids(&self) -> (has: bool)
        ensures
            has == version_has_synonyms(self.version),
    {
        match self.version {
            HeaderVersion::SystemDict(SystemDictVersion::Version2) => true,
            HeaderVersion::UserDict(UserDictVersion::Version3) => true,
            _ => false,
        }
    }
}

/// The bytes before the first zero.
fn nul_terminated(data: &[u8]) -> (text: Vec<u8>)
    ensures
        text@ == until_zero(data@),
{
    let mut n: usize = 0;
    assert(data@.take(0) + until_zero(data@.skip(0)) =~= until_zero(data@)) by {
        assert(data@.skip(0) =~= data@);
    }
    while n < data.len() && data[n] != 0
        invariant
            n <= data.len(),
            until_zero(data@) == data@.take(n as int) + until_zero(data@.skip(n as int)),
        decreases data.len() - n,
    {
        proof {
            let rest = data@.skip(n as int);
            assert(rest[0] == data@[n as int]);
            assert(rest.drop_first() =~= data@.skip(n + 1));
            assert(data@.take(n as int) + (seq![rest[0]] + until_zero(data@.skip(n + 1)))
                =~= data@.take(n + 1) + until_zero(data@.skip(n + 1)));
        }
        n = n + 1;
    }
    proof {
        let rest = data@.skip(n as int);
        if n < data@.len() {
            assert(rest[0] == data@[n as int]);
        }
        assert(data@.take(n as int) + Seq::<u8>::empty() =~= data@.subrange(0, n as int));
    }
    slice_to_vec(slice_subrange(data, 0, n))
}

/// Bytes without a zero before the first zero are the bytes before the first zero.
proof fn lemma_until_zero(text: Seq<u8>, rest: Seq<u8>)
    requires
        forall|i: int| 0 <= i < text.len() ==> #[trigger] text[i] != 0,
        rest.len() == 0 || rest[0] == 0,
    ensures
        until_zero(text + rest) == text,
    decreases text.len(),
{
    let s = text + rest;
    if text.len() == 0 {
        assert(s =~= rest);
        assert(until_zero(s) =~= text);
    } else {
        assert(s[0] == text[0]);
        assert(s.drop_first() =~= text.drop_first() + rest);
        assert forall|i: int| 0 <= i < text.drop_first().len() implies #[trigger] text.drop_first()[i]
            != 0 by {
            assert(text.drop_first()[i] == text[i + 1]);
        }
        lemma_until_zero(text.drop_first(), rest);
        assert(until_zero(s) =~= text);
    }
}

/// A header is read out of its bytes: the number of the format, the time of creation and a
/// description of up to 256 bytes, which ends before the first zero. Each number stands for one
/// format, and no other number is accepted. All formats but the first one of user dictionaries
/// hold a grammar, and the last ones of both kinds hold synonym groups.
pub proof fn law_header_is_read_out_of_its_bytes(s: Seq<u8>, text: Seq<u8>)
    requires
        s.len() >= 272,
        text.len() <= 256,
        forall|i: int| 0 <= i < text.len() ==> #[trigger] text[i] != 0,
        s.subrange(16, 16 + text.len() as int) == text,
        text.len() < 256 ==> s[16 + text.len() as int] == 0,
    ensures
        ({
            let number = bytes::u64_at(s, 0);
            match header_in(s) {
                Ok(header) => {
                    &&& header.create_time == bytes::u64_at(s, 8)
                    &&& header.description == text
                    &&& header.version == HeaderVersion::SystemDict(SystemDictVersion::Version1)
                        <==> number == 0x7366d3f18bd111e7
                    &&& header.version == HeaderVersion::SystemDict(SystemDictVersion::Version2)
                        <==> number == 0xce9f011a92394434
                    &&& header.version == HeaderVersion::UserDict(UserDictVersion::Version1)
                        <==> number == 0xa50f31188bd211e7
                    &&& header.version == HeaderVersion::UserDict(UserDictVersion::Version2)
                        <==> number == 0x9fdeb5a90168d868
                    &&& header.version == HeaderVersion::UserDict(UserDictVersion::Version3)
                        <==> number == 0xca9811756ff64fb0
                    &&& version_has_grammar(header.version) <==> number != 0xa50f31188bd211e7
                    &&& version_has_synonyms(header.version) <==> number == 0xce9f011a92394434
                        || number == 0xca9811756ff64fb0
                },
                Err(e) => {
                    &&& e == error::ErrorModel::InvalidHeader(HeaderError::InvalidVersion)
                    &&& number != 0x7366d3f18bd111e7
                    &&& number != 0xce9f011a92394434
                    &&& number != 0xa50f31188bd211e7
                    &&& number != 0x9fdeb5a90168d868
                    &&& number != 0xca9811756ff64fb0
                },
            }
        }),
{
    let field = s.subrange(16, 272);
    let rest = field.skip(text.len() as int);
    assert(field =~= text + rest) by {
        assert forall|i: int| 0 <= i < text.len() implies field[i] == text[i] by {
            assert(s.subrange(16, 16 + text.len() as int)[i] == s[16 + i]);
        }
    }
    lemma_until_zero(text, rest);
}

} // verus!
