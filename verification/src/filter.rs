//! Record filters: byte-range equality and exact data size.
//!
//! A set of filters is always conjunctive, and a byte-range filter whose
//! range does not fit inside the record's data excludes the record rather
//! than raising an error.

use vstd::prelude::*;

verus! {

/// One filter over a record's data blob.
pub enum Filter {
    /// The data bytes at `offset .. offset + expected.len()` equal `expected`;
    /// a range beyond the end of the data never matches.
    ByteRange { offset: usize, expected: Vec<u8> },
    /// The data blob is exactly `size` bytes long.
    DataSize { size: usize },
}

/// Byte-range equality over a data blob; false whenever the range overruns.
pub open spec fn memcmp_matches(data: Seq<u8>, offset: int, expected: Seq<u8>) -> bool {
    &&& offset + expected.len() <= data.len()
    &&& data.subrange(offset, offset + expected.len()) == expected
}

/// What one filter means on a record's data.
pub open spec fn spec_filter_matches(f: Filter, data: Seq<u8>) -> bool {
    match f {
        Filter::ByteRange { offset, expected } => memcmp_matches(
            data,
            offset as int,
            expected@,
        ),
        Filter::DataSize { size } => data.len() == size as nat,
    }
}

/// A filter list is conjunctive: the data must satisfy every filter.
pub open spec fn spec_all_match(fs: Seq<Filter>, data: Seq<u8>) -> bool {
    forall|i: int| 0 <= i < fs.len() ==> spec_filter_matches(#[trigger] fs[i], data)
}

/// A byte-range filter whose range runs past the end of the data always
/// excludes the record.
pub proof fn lemma_out_of_range_excludes(f: Filter, data: Seq<u8>)
    requires
        f matches Filter::ByteRange { offset, expected } && offset + expected@.len()
            > data.len(),
    ensures
        !spec_filter_matches(f, data),
{
}

/// Byte-range equality check against a data blob.
pub fn byte_range_matches(off: usize, expected: &Vec<u8>, data: &Vec<u8>) -> (r: bool)
    ensures
        r == memcmp_matches(data@, off as int, expected@),
{
    let elen = expected.len();
    let dlen = data.len();
    if elen > dlen || off > dlen - elen {
        return false;
    }
    let mut i: usize = 0;
    while i < elen
        invariant
            elen == expected@.len(),
            dlen == data@.len(),
            off + elen <= dlen,
            i <= elen,
            forall|j: int| 0 <= j < i ==> data@[off + j] == expected@[j],
        decreases elen - i,
    {
        if data[off + i] != expected[i] {
            proof {
                assert(data@.subrange(off as int, off + expected@.len())[i as int]
                    != expected@[i as int]);
            }
            return false;
        }
        i += 1;
    }
    proof {
        assert(data@.subrange(off as int, off + expected@.len()) =~= expected@);
    }
    true
}

/// Evaluate one filter on a data blob.
pub fn filter_matches(f: &Filter, data: &Vec<u8>) -> (r: bool)
    ensures
        r == spec_filter_matches(*f, data@),
{
    match f {
        Filter::ByteRange { offset, expected } => byte_range_matches(*offset, expected, data),
        Filter::DataSize { size } => data.len() == *size,
    }
}

/// Evaluate a conjunctive filter list on a data blob.
pub fn all_match(fs: &Vec<Filter>, data: &Vec<u8>) -> (r: bool)
    ensures
        r == spec_all_match(fs@, data@),
{
    let mut i: usize = 0;
    while i < fs.len()
        invariant
            i <= fs@.len(),
            forall|j: int| 0 <= j < i ==> spec_filter_matches(#[trigger] fs@[j], data@),
        decreases fs@.len() - i,
    {
        if !filter_matches(&fs[i], data) {
            return false;
        }
        i += 1;
    }
    true
}

} // verus!
