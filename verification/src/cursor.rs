//! Parts of a byte string.
use vstd::prelude::*;
use vstd::slice::slice_subrange;

verus! {

/// What is left of the bytes from `from` on, if they reach that far.
pub fn tail(data: &[u8], from: usize) -> (r: Option<&[u8]>)
    ensures
        match r {
            Some(s) => from <= data@.len() && s@ == data@.skip(from as int),
            None => from > data@.len(),
        },
{
    if from <= data.len() {
        let s = slice_subrange(data, from, data.len());
        assert(s@ =~= data@.skip(from as int));
        Some(s)
    } else {
        None
    }
}

/// The `n` bytes from `from` on, if they are all there.
pub fn part(data: &[u8], from: usize, n: usize) -> (r: Option<&[u8]>)
    ensures
        match r {
            Some(s) => from + n <= data@.len() <= usize::MAX && s@ == data@.subrange(
                from as int,
                from + n,
            ),
            None => from + n > data@.len(),
        },
{
    if from <= data.len() && n <= data.len() - from {
        Some(slice_subrange(data, from, from + n))
    } else {
        None
    }
}

/// Takes the first `n` bytes off; `None`, and the bytes as they were, if there are fewer.
pub fn consume_bytes<'a>(data: &mut &'a [u8], n: usize) -> (r: Option<&'a [u8]>)
    ensures
        match r {
            Some(prefix) => {
                &&& n <= old(data)@.len()
                &&& prefix@ == old(data)@.take(n as int)
                &&& final(data)@ == old(data)@.skip(n as int)
            },
            None => n > old(data)@.len() && final(data)@ == old(data)@,
        },
{
    if n > data.len() {
        return None;
    }
    let whole: &'a [u8] = *data;
    let (prefix, remainder) = whole.split_at(n);
    *data = remainder;
    assert(prefix@ =~= whole@.take(n as int));
    assert(remainder@ =~= whole@.skip(n as int));
    Some(prefix)
}

} // verus!
