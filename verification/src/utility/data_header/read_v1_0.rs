use vstd::prelude::*;

use crate::utility::Occurences;
use crate::utility::data_header::{DataHeader, HeaderError, parse_v1, result_view};
use crate::utility::wire::read_u64_be_at;

verus! {

/// Reads a header of version 1: the full table of counts.
pub fn read_from(input: &[u8]) -> (header: Result<DataHeader, HeaderError>)
    requires
        input@.len() > 0,
        input@[0] == 1,
    ensures
        result_view(header) == parse_v1(input@),
{
    let version = input[0];
    if input.len() < 2057 {
        return Err(HeaderError::Truncated);
    }
    let mut occurences: Occurences = [0u64; 256];
    let mut k: usize = 0;
    while k < 256
        invariant
            k <= 256,
            input@.len() >= 2057,
            forall|j: int|
                0 <= j < k ==> #[trigger] occurences@[j] == crate::utility::wire::be_value(
                    input@.subrange(1 + 8 * j, 9 + 8 * j),
                ),
        decreases 256 - k,
    {
        let value = match read_u64_be_at(input, 1 + 8 * k) {
            Some(value) => value,
            None => return Err(HeaderError::Truncated),
        };
        occurences[k] = value;
        k = k + 1;
    }
    let data_amount = match read_u64_be_at(input, 2049) {
        Some(value) => value,
        None => return Err(HeaderError::Truncated),
    };
    let header = DataHeader { version, occurences, data_amount };
    proof {
        let expected = parse_v1(input@);
        assert(header@.occurences =~= expected->Ok_0.occurences);
    }
    Ok(header)
}

} // verus!
