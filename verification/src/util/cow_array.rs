//! Copy-on-write arrays of integers that are stored in dictionary bytes.

use vstd::prelude::*;
use vstd::slice::{slice_subrange, slice_to_vec};

use crate::bytes;

verus! {

/// An array of 16-bit integers, read from little-endian bytes until it is first written to.
pub struct CowArray<'a> {
    array: Storage<'a>,
}

enum Storage<'a> {
    Borrowed(&'a [u8]),
    Owned(Vec<i16>),
}

impl<'a> View for CowArray<'a> {
    type V = Seq<i16>;

    closed spec fn view(&self) -> Seq<i16> {
        match self.array {
            Storage::Owned(values) => values@,
            Storage::Borrowed(data) => bytes::i16s_at(data@, 0, (data@.len() / 2) as nat),
        }
    }
}

impl<'a> CowArray<'a> {
    /// The `size` integers that are stored in `data` from byte `offset` on.
    pub fn from_bytes(data: &'a [u8], offset: usize, size: usize) -> (array: CowArray<'a>)
        requires
            offset + 2 * size <= data.len(),
        ensures
            array@ == bytes::i16s_at(data@, offset as int, size as nat),
    {
        let array = CowArray {
            array: Storage::Borrowed(slice_subrange(data, offset, offset + 2 * size)),
        };
        assert(array@ =~= bytes::i16s_at(data@, offset as int, size as nat));
        array
    }

    /// The same integers, independent of the bytes that they were read from.
    pub fn into_owned<'b>(self) -> (array: CowArray<'b>)
        ensures
            array@ == self@,
    {
        match self.array {
            Storage::Owned(values) => CowArray { array: Storage::Owned(values) },
            Storage::Borrowed(data) => CowArray { array: Storage::Owned(copied(data)) },
        }
    }

    /// Number of integers.
    pub fn len(&self) -> (n: usize)
        ensures
            n == self@.len(),
    {
        match &self.array {
            Storage::Owned(values) => values.len(),
            Storage::Borrowed(data) => data.len() / 2,
        }
    }

    /// The integer at `index`, if there is one.
    pub fn get(&self, index: usize) -> (value: Option<i16>)
        ensures
            index < self@.len() ==> value == Some(self@[index as int]),
            index >= self@.len() ==> value is None,
    {
        match &self.array {
            Storage::Owned(values) => if index < values.len() {
                Some(values[index])
            } else {
                None
            },
            Storage::Borrowed(data) => if index < data.len() / 2 {
                Some(bytes::read_i16(data, 2 * index))
            } else {
                None
            },
        }
    }

    /// Replaces the integer at `index`.
    pub fn set(&mut self, index: usize, value: i16)
        requires
            index < old(self)@.len(),
        ensures
            final(self)@ == old(self)@.update(index as int, value),
    {
        let mut values: Vec<i16> = match &mut self.array {
            Storage::Owned(values) => {
                values[index] = value;
                return;
            },
            Storage::Borrowed(data) => copied(data),
        };
        values[index] = value;
        self.array = Storage::Owned(values);
    }
}

/// Bytes that are borrowed or owned.
pub struct CowBytes<'a> {
    bytes: ByteStorage<'a>,
}

enum ByteStorage<'a> {
    Borrowed(&'a [u8]),
    Owned(Vec<u8>),
}

impl<'a> View for CowBytes<'a> {
    type V = Seq<u8>;

    closed spec fn view(&self) -> Seq<u8> {
        match self.bytes {
            ByteStorage::Owned(data) => data@,
            ByteStorage::Borrowed(data) => data@,
        }
    }
}

impl<'a> CowBytes<'a> {
    /// Borrows bytes.
    pub fn borrowed(data: &'a [u8]) -> (bytes: CowBytes<'a>)
        ensures
            bytes@ == data@,
    {
        CowBytes { bytes: ByteStorage::Borrowed(data) }
    }

    /// The bytes.
    pub fn as_slice(&self) -> (data: &[u8])
        ensures
            data@ == self@,
    {
        match &self.bytes {
            ByteStorage::Owned(data) => data.as_slice(),
            ByteStorage::Borrowed(data) => data,
        }
    }

    /// The same bytes, owned.
    pub fn into_owned<'b>(self) -> (bytes: CowBytes<'b>)
        ensures
            bytes@ == self@,
    {
        match self.bytes {
            ByteStorage::Owned(data) => CowBytes { bytes: ByteStorage::Owned(data) },
            ByteStorage::Borrowed(data) => CowBytes {
                bytes: ByteStorage::Owned(slice_to_vec(data)),
            },
        }
    }
}

/// The integers that are stored in `data`.
fn copied(data: &[u8]) -> (values: Vec<i16>)
    ensures
        values@ == bytes::i16s_at(data@, 0, (data@.len() / 2) as nat),
{
    let mut values: Vec<i16> = Vec::new();
    let n: usize = data.len() / 2;
    let mut i: usize = 0;
    while i < n
        invariant
            i <= n == data.len() / 2,
            values@ =~= bytes::i16s_at(data@, 0, i as nat),
        decreases n - i,
    {
        values.push(bytes::read_i16(data, 2 * i));
        i += 1;
    }
    values
}

} // verus!
