use vstd::prelude::*;

verus! {

/// Carriage return.
pub const CR: u8 = 13;

/// Line feed.
pub const LF: u8 = 10;

/// Length of the line terminator `\r\n`.
pub const CRLF_LEN: usize = 2;

/// Whether the two octets at `i` and `i + 1` are `\r\n`.
pub open spec fn crlf_at(data: Seq<u8>, i: int) -> bool {
    0 <= i && i + 1 < data.len() && data[i] == CR && data[i + 1] == LF
}

/// Whether no line terminator starts before `i`.
pub open spec fn no_crlf_before(data: Seq<u8>, i: int) -> bool {
    forall|j: int| 0 <= j < i ==> !crlf_at(data, j)
}

/// Where the first line terminator of `data` starts, if it has one.
#[verifier::opaque]
pub open spec fn find_crlf(data: Seq<u8>) -> Option<int> {
    if exists|i: int| crlf_at(data, i) {
        Some(choose|i: int| crlf_at(data, i) && no_crlf_before(data, i))
    } else {
        None
    }
}

/// The first terminator is a terminator, and none starts before it.
pub proof fn lemma_find_crlf(data: Seq<u8>)
    ensures
        match find_crlf(data) {
            Some(i) => crlf_at(data, i) && no_crlf_before(data, i),
            None => no_crlf_before(data, data.len() as int),
        },
{
    reveal(find_crlf);
    if exists|i: int| crlf_at(data, i) {
        let w = choose|i: int| crlf_at(data, i);
        lemma_least_crlf(data, w);
    }
}

/// Below any terminator there is a first one.
proof fn lemma_least_crlf(data: Seq<u8>, w: int)
    requires
        crlf_at(data, w),
    ensures
        exists|i: int| crlf_at(data, i) && no_crlf_before(data, i),
    decreases w,
{
    if no_crlf_before(data, w) {
    } else {
        let j = choose|j: int| 0 <= j < w && crlf_at(data, j);
        lemma_least_crlf(data, j);
    }
}

/// A terminator with none before it is the first one.
pub proof fn lemma_find_crlf_is(data: Seq<u8>, i: int)
    requires
        crlf_at(data, i),
        no_crlf_before(data, i),
    ensures
        find_crlf(data) == Some(i),
{
    reveal(find_crlf);
    lemma_find_crlf(data);
    let f = find_crlf(data)->0;
    if f < i {
        assert(!crlf_at(data, f));
    }
    if i < f {
        assert(!crlf_at(data, i));
    }
}

/// Finds the first `\r\n` of `data`.
pub fn first_crlf(data: &[u8]) -> (r: Option<usize>)
    ensures
        match r {
            Some(i) => find_crlf(data@) == Some(i as int),
            None => find_crlf(data@) is None,
        },
{
    let n: usize = data.len();
    let mut i: usize = 0;
    while i < n && n - i >= 2
        invariant
            n == data@.len(),
            i <= n,
            no_crlf_before(data@, i as int),
        decreases n - i,
    {
        if data[i] == CR && data[i + 1] == LF {
            proof {
                lemma_find_crlf_is(data@, i as int);
            }
            return Some(i);
        }
        i += 1;
    }
    proof {
        lemma_find_crlf(data@);
    }
    None
}

} // verus!
