use vstd::prelude::*;

use crate::utility::data_header::{
    DataHeader,
    HeaderError,
    OccurrenceType,
    parse_v2,
    range_len,
    ranges_len,
    result_view,
    v2_list_start,
    v2_positional_start,
    v2_ranges,
};
use crate::utility::wire::{be_value, read_u64_be_at, read_u8_at};

verus! {

/// Reads a header of version 2: the counts in range form.
pub fn read_from(input: &[u8]) -> (header: Result<DataHeader, HeaderError>)
    requires
        input@.len() > 0,
        input@[0] == 2,
    ensures
        result_view(header) == parse_v2(input@),
{
    let ghost b = input@;
    let input_len = input.len();
    let version = input[0];
    let ranges_amount = match read_u8_at(input, 1) {
        Some(amount) => amount as usize,
        None => return Err(HeaderError::Truncated),
    };
    if 2 + 2 * ranges_amount > input.len() {
        return Err(HeaderError::Truncated);
    }
    // read ranges
    let mut ranges: Vec<(u8, u8)> = Vec::new();
    let mut i: usize = 0;
    while i < ranges_amount
        invariant
            i <= ranges_amount,
            ranges_amount == b[1],
            2 + 2 * ranges_amount <= b.len(),
            b == input@,
            ranges@ == v2_ranges(b).take(i as int),
        decreases ranges_amount - i,
    {
        let start = match read_u8_at(input, 2 * i + 2) {
            Some(byte) => byte,
            None => return Err(HeaderError::Truncated),
        };
        let end = match read_u8_at(input, 2 * i + 3) {
            Some(byte) => byte,
            None => return Err(HeaderError::Truncated),
        };
        ranges.push((start, end));
        i = i + 1;
        proof {
            assert(ranges@ =~= v2_ranges(b).take(i as int));
        }
    }
    assert(ranges@ =~= v2_ranges(b));
    // list amount: the summed range lengths (inclusive ranges)
    let mut list_amount: usize = 0;
    let mut i: usize = 0;
    while i < ranges.len()
        invariant
            i <= ranges@.len(),
            ranges@ == v2_ranges(b),
            ranges@.len() <= 255,
            ranges_amount == b[1],
            2 + 2 * ranges_amount <= b.len(),
            b == input@,
            list_amount == ranges_len(ranges@.take(i as int)),
            list_amount <= 256 * i,
            forall|k: int| 0 <= k < i ==> (#[trigger] ranges@[k]).0 <= ranges@[k].1,
        decreases ranges@.len() - i,
    {
        let (start, end) = ranges[i];
        if start > end {
            proof {
                assert(v2_ranges(b)[i as int].0 > v2_ranges(b)[i as int].1);
            }
            return Err(HeaderError::BadRange);
        }
        proof {
            assert(ranges@.take(i as int + 1).drop_last() =~= ranges@.take(i as int));
        }
        list_amount = list_amount + (end - start) as usize + 1;
        i = i + 1;
    }
    assert(ranges@.take(i as int) =~= ranges@);
    let list_start = 2 + 2 * ranges_amount;
    if list_start + 8 * list_amount + 1 > input.len() {
        return Err(HeaderError::Truncated);
    }
    // read list
    let mut list: Vec<u64> = Vec::new();
    let mut i: usize = 0;
    while i < list_amount
        invariant
            i <= list_amount,
            list_start == v2_list_start(b),
            list_amount == ranges_len(v2_ranges(b)),
            list_start + 8 * list_amount + 1 <= b.len(),
            b == input@,
            input_len == b.len(),
            forall|k: int|
                0 <= k < i ==> #[trigger] list@[k] == be_value(
                    b.subrange(list_start + 8 * k, list_start + 8 * k + 8),
                ),
            list@.len() == i,
        decreases list_amount - i,
    {
        let value = match read_u64_be_at(input, list_start + 8 * i) {
            Some(value) => value,
            None => return Err(HeaderError::Truncated),
        };
        list.push(value);
        i = i + 1;
    }
    // read positional data (a list of single place and count pairs)
    let positional_start = list_start + 8 * list_amount + 1;
    let positional_list_len = input[positional_start - 1] as usize;
    if positional_start + 9 * positional_list_len + 8 > input.len() {
        return Err(HeaderError::Truncated);
    }
    let mut positional_list: Vec<(u8, u64)> = Vec::new();
    let mut i: usize = 0;
    while i < positional_list_len
        invariant
            i <= positional_list_len,
            positional_start == v2_positional_start(b),
            positional_start + 9 * positional_list_len + 8 <= b.len(),
            b == input@,
            input_len == b.len(),
            forall|k: int|
                0 <= k < i ==> #[trigger] positional_list@[k] == (
                    b[positional_start + 9 * k],
                    be_value(b.subrange(positional_start + 9 * k + 1, positional_start + 9 * k + 9)),
                ),
            positional_list@.len() == i,
        decreases positional_list_len - i,
    {
        let offset = positional_start + 9 * i;
        let position = input[offset];
        let value = match read_u64_be_at(input, offset + 1) {
            Some(value) => value,
            None => return Err(HeaderError::Truncated),
        };
        positional_list.push((position, value));
        i = i + 1;
    }
    let data_amount = match read_u64_be_at(input, positional_start + 9 * positional_list_len) {
        Some(value) => value,
        None => return Err(HeaderError::Truncated),
    };
    let ghost rs = ranges@;
    let ghost l = list@;
    let ghost ps = positional_list@;
    let mut occ_type = OccurrenceType::RangeList { ranges, list, positional_list };
    occ_type.convert_to_full_list();
    let occurences = match occ_type {
        OccurrenceType::FullList { list } => list,
        OccurrenceType::RangeList { .. } => [0u64; 256],
    };
    let header = DataHeader { version, occurences, data_amount };
    proof {
        let lb = v2_list_start(b);
        let pb = v2_positional_start(b);
        let p = b[pb - 1];
        assert(l =~= Seq::new(
            ranges_len(rs),
            |k: int| be_value(b.subrange(lb + 8 * k, lb + 8 * k + 8)),
        ));
        assert(ps =~= Seq::new(
            p as nat,
            |k: int| (b[pb + 9 * k], be_value(b.subrange(pb + 9 * k + 1, pb + 9 * k + 9))),
        ));
    }
    Ok(header)
}

} // verus!
