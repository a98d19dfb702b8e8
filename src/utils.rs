use vstd::prelude::*;
use vstd::slice::{slice_subrange, slice_to_vec};

verus! {

/// `pattern` occurs in `data` starting at offset `i`.
pub open spec fn occurs_at(data: Seq<u8>, pattern: Seq<u8>, i: int) -> bool {
    0 <= i && i + pattern.len() <= data.len() && data.subrange(i, i + pattern.len()) == pattern
}

/// `i` is the offset of the leftmost occurrence of `pattern` in `data`.
pub open spec fn is_first_match(data: Seq<u8>, pattern: Seq<u8>, i: int) -> bool {
    occurs_at(data, pattern, i) && forall|j: int| 0 <= j < i ==> !occurs_at(data, pattern, j)
}

/// The offset of the leftmost occurrence of `pattern` in `data`, if there is one.
pub open spec fn first_match(data: Seq<u8>, pattern: Seq<u8>) -> Option<int> {
    if exists|i: int| is_first_match(data, pattern, i) {
        Some(choose|i: int| is_first_match(data, pattern, i))
    } else {
        None
    }
}

/// The fragments of `data` between successive leftmost occurrences of a non-empty
/// `separator`; the remainder after the last one is the final fragment.
pub open spec fn split_spec(data: Seq<u8>, separator: Seq<u8>) -> Seq<Seq<u8>>
    decreases data.len(),
{
    if separator.len() == 0 {
        seq![data]
    } else {
        match first_match(data, separator) {
            Some(i) => if 0 <= i && i + separator.len() <= data.len() {
                seq![data.take(i)] + split_spec(data.skip(i + separator.len()), separator)
            } else {
                seq![data]
            },
            None => seq![data],
        }
    }
}

pub proof fn lemma_first_match_unique(data: Seq<u8>, pattern: Seq<u8>, i: int)
    requires
        is_first_match(data, pattern, i),
    ensures
        first_match(data, pattern) == Some(i),
{
    let k = choose|k: int| is_first_match(data, pattern, k);
    assert(is_first_match(data, pattern, k));
    if k < i {
        assert(!occurs_at(data, pattern, k));
    } else if i < k {
        assert(!occurs_at(data, pattern, i));
    }
}

fn matches_at(data: &[u8], pattern: &[u8], i: usize) -> (r: bool)
    requires
        i + pattern@.len() <= data@.len(),
    ensures
        r == occurs_at(data@, pattern@, i as int),
{
    let n: usize = data.len();
    let mut k: usize = 0;
    while k < pattern.len()
        invariant
            n == data@.len(),
            i + pattern@.len() <= data@.len(),
            k <= pattern@.len(),
            forall|m: int| 0 <= m < k ==> data@[i + m] == pattern@[m],
        decreases pattern@.len() - k,
    {
        if data[i + k] != pattern[k] {
            assert(data@.subrange(i as int, i + pattern@.len())[k as int] != pattern@[k as int]);
            return false;
        }
        k += 1;
    }
    assert(data@.subrange(i as int, i + pattern@.len()) =~= pattern@);
    true
}

/// Offset of the first occurrence of `pattern` in `data`.
pub fn scan(data: &[u8], pattern: &[u8]) -> (r: Option<usize>)
    ensures
        match r {
            Some(i) => is_first_match(data@, pattern@, i as int),
            None => forall|j: int| !occurs_at(data@, pattern@, j),
        },
        r matches Some(i) ==> first_match(data@, pattern@) == Some(i as int),
        r is None ==> first_match(data@, pattern@) is None,
{
    if pattern.len() > data.len() {
        return None;
    }
    let last: usize = data.len() - pattern.len();
    let mut i: usize = 0;
    loop
        invariant
            last == data@.len() - pattern@.len(),
            i <= last,
            forall|j: int| 0 <= j < i ==> !occurs_at(data@, pattern@, j),
        decreases last - i,
    {
        if matches_at(data, pattern, i) {
            proof {
                lemma_first_match_unique(data@, pattern@, i as int);
            }
            return Some(i);
        }
        if i == last {
            assert forall|j: int| !occurs_at(data@, pattern@, j) by {
                if 0 <= j <= i {
                }
            }
            return None;
        }
        i += 1;
    }
}

/// Splits `data` at every occurrence of `separator`, keeping the final remainder.
pub fn split(data: &[u8], separator: &[u8]) -> (r: Vec<Vec<u8>>)
    requires
        separator@.len() > 0,
    ensures
        r@.map_values(|v: Vec<u8>| v@) == split_spec(data@, separator@),
{
    let mut out: Vec<Vec<u8>> = Vec::new();
    let mut start: usize = 0;
    assert(data@.skip(0) =~= data@);
    loop
        invariant
            separator@.len() > 0,
            start <= data@.len(),
            out@.map_values(|v: Vec<u8>| v@) + split_spec(data@.skip(start as int), separator@)
                == split_spec(data@, separator@),
        decreases data@.len() - start,
    {
        let rest = slice_subrange(data, start, data.len());
        assert(rest@ =~= data@.skip(start as int));
        match scan(rest, separator) {
            Some(pos) => {
                let piece = slice_subrange(rest, 0, pos);
                let ghost old_out = out@;
                out.push(slice_to_vec(piece));
                proof {
                    assert(piece@ =~= rest@.take(pos as int));
                    assert(rest@.skip(pos + separator@.len()) =~= data@.skip(
                        start + pos + separator@.len(),
                    ));
                    assert(out@.map_values(|v: Vec<u8>| v@) =~= old_out.map_values(
                        |v: Vec<u8>| v@,
                    ).push(piece@));
                    assert(split_spec(rest@, separator@) == seq![rest@.take(pos as int)]
                        + split_spec(rest@.skip(pos + separator@.len()), separator@));
                    assert(out@.map_values(|v: Vec<u8>| v@) + split_spec(
                        data@.skip(start + pos + separator@.len()),
                        separator@,
                    ) =~= old_out.map_values(|v: Vec<u8>| v@) + split_spec(rest@, separator@));
                }
                start = start + pos + separator.len();
            },
            None => {
                let ghost old_out = out@;
                out.push(slice_to_vec(rest));
                proof {
                    assert(out@.map_values(|v: Vec<u8>| v@) =~= old_out.map_values(
                        |v: Vec<u8>| v@,
                    ).push(rest@));
                    assert(split_spec(rest@, separator@) == seq![rest@]);
                    assert(old_out.map_values(|v: Vec<u8>| v@) + seq![rest@] =~= out@.map_values(
                        |v: Vec<u8>| v@,
                    ));
                }
                return out;
            },
        }
    }
}

} // verus!
