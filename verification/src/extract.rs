//! Finding tagged fragments in a large byte buffer by one forward scan.

use crate::text::decode_utf8_bytes;
use vstd::prelude::*;
use vstd::string::*;
use vstd::utf8::*;

verus! {

/// Opening tag of a catalog fragment.
pub const ASTRO_OBJECT_START: &'static str = "<AstroObjectEntry>";

/// Closing tag of a catalog fragment.
pub const ASTRO_OBJECT_END: &'static str = "</AstroObjectEntry>";

/// Opening tag of a ship-log translation table.
pub const TR_SHIPLOG_START: &'static str = "<table_shipLog>";

/// Closing tag of a ship-log translation table.
pub const TR_SHIPLOG_END: &'static str = "</table_shipLog>";

/// Opening tag of a user-interface translation table.
pub const TR_UI_START: &'static str = "<table_ui>";

/// Closing tag of a user-interface translation table.
pub const TR_UI_END: &'static str = "</table_ui>";

/// Why no fragment was handed out.
#[derive(Debug)]
pub enum FindError {
    /// The marker does not occur again before the buffer ends.
    NotFound,
    /// The bytes between the markers are not UTF-8.
    Utf8Error(std::str::Utf8Error),
}

/// `pattern` occurs in `data` at index `i`.
pub open spec fn matches_at(data: Seq<u8>, i: int, pattern: Seq<u8>) -> bool {
    &&& 0 <= i
    &&& i + pattern.len() <= data.len()
    &&& data.subrange(i, i + pattern.len()) == pattern
}

/// `i` is the first index at or after `offset` where `pattern` occurs in `data`.
pub open spec fn is_first_match(data: Seq<u8>, offset: int, pattern: Seq<u8>, i: int) -> bool {
    &&& offset <= i
    &&& matches_at(data, i, pattern)
    &&& forall|j: int| offset <= j < i ==> !matches_at(data, j, pattern)
}

/// `pattern` occurs nowhere in `data` at or after `offset`.
pub open spec fn no_match(data: Seq<u8>, offset: int, pattern: Seq<u8>) -> bool {
    forall|j: int| offset <= j ==> !matches_at(data, j, pattern)
}

/// The first index at or after `offset` where `pattern` occurs in `data`, if there is one.
pub open spec fn first_match(data: Seq<u8>, offset: int, pattern: Seq<u8>) -> Option<int> {
    if exists|i: int| is_first_match(data, offset, pattern, i) {
        Some(choose|i: int| is_first_match(data, offset, pattern, i))
    } else {
        None
    }
}

/// The next fragment of `data` at or after `offset`: the first occurrence of
/// `start_marker`, up to the end of the first occurrence of `end_marker` at or
/// after it. The pair holds the index of the fragment's first byte and the
/// index one past its last byte.
pub open spec fn next_fragment(
    data: Seq<u8>,
    offset: int,
    start_marker: Seq<u8>,
    end_marker: Seq<u8>,
) -> Option<(int, int)> {
    match first_match(data, offset, start_marker) {
        Some(start) => match first_match(data, start, end_marker) {
            Some(end) => Some((start, end + end_marker.len())),
            None => None,
        },
        None => None,
    }
}

/// A first occurrence is the only one.
pub proof fn lemma_first_match_found(data: Seq<u8>, offset: int, pattern: Seq<u8>, i: int)
    requires
        is_first_match(data, offset, pattern, i),
    ensures
        first_match(data, offset, pattern) == Some(i),
{
    let c = choose|c: int| is_first_match(data, offset, pattern, c);
    if c < i {
        assert(!matches_at(data, c, pattern));
    } else if i < c {
        assert(!matches_at(data, i, pattern));
    }
}

/// Where the pattern does not occur, there is no first occurrence.
pub proof fn lemma_first_match_none(data: Seq<u8>, offset: int, pattern: Seq<u8>)
    requires
        no_match(data, offset, pattern),
    ensures
        first_match(data, offset, pattern) is None,
{
    if exists|i: int| is_first_match(data, offset, pattern, i) {
        let c = choose|c: int| is_first_match(data, offset, pattern, c);
        assert(matches_at(data, c, pattern));
    }
}

/// A fragment lies at or after the offset it was looked for from, is not
/// empty, and ends inside the buffer.
pub proof fn lemma_fragment_bounds(
    data: Seq<u8>,
    offset: int,
    start_marker: Seq<u8>,
    end_marker: Seq<u8>,
)
    requires
        end_marker.len() > 0,
    ensures
        next_fragment(data, offset, start_marker, end_marker) matches Some((start, next))
            ==> offset <= start < next <= data.len(),
{
    if let Some(start) = first_match(data, offset, start_marker) {
        assert(is_first_match(data, offset, start_marker, start));
        if let Some(end) = first_match(data, start, end_marker) {
            assert(is_first_match(data, start, end_marker, end));
        }
    }
}

/// Every fragment of `data` from `offset` on, each looked for from where the
/// one before it ended.
pub open spec fn fragments(
    data: Seq<u8>,
    offset: int,
    start_marker: Seq<u8>,
    end_marker: Seq<u8>,
) -> Seq<(int, int)>
    decreases data.len() - offset,
    when end_marker.len() > 0
{
    match next_fragment(data, offset, start_marker, end_marker) {
        Some((start, next)) => {
            proof {
                lemma_fragment_bounds(data, offset, start_marker, end_marker);
            }
            seq![(start, next)] + fragments(data, next, start_marker, end_marker)
        },
        None => Seq::empty(),
    }
}

/// Total length of the fragments.
pub open spec fn spans(found: Seq<(int, int)>) -> int
    decreases found.len(),
{
    if found.len() == 0 {
        0
    } else {
        (found[0].1 - found[0].0) + spans(found.drop_first())
    }
}

/// Total length of what lies before each fragment, from `offset` or from the
/// end of the fragment before it.
pub open spec fn gaps(offset: int, found: Seq<(int, int)>) -> int
    decreases found.len(),
{
    if found.len() == 0 {
        0
    } else {
        (found[0].0 - offset) + gaps(found[0].1, found.drop_first())
    }
}

/// Where the scan stands after the fragments: at the end of the last one.
pub open spec fn scan_end(offset: int, found: Seq<(int, int)>) -> int {
    if found.len() == 0 {
        offset
    } else {
        found.last().1
    }
}

/// Repeated extraction covers the buffer: the fragments and the gaps before
/// them add up to the length scanned, and where the scan ends no further
/// fragment is found.
pub proof fn lemma_fragments_cover(
    data: Seq<u8>,
    offset: int,
    start_marker: Seq<u8>,
    end_marker: Seq<u8>,
)
    requires
        end_marker.len() > 0,
    ensures
        ({
            let found = fragments(data, offset, start_marker, end_marker);
            &&& spans(found) + gaps(offset, found) == scan_end(offset, found) - offset
            &&& offset <= scan_end(offset, found)
            &&& found.len() > 0 ==> scan_end(offset, found) <= data.len()
            &&& next_fragment(data, scan_end(offset, found), start_marker, end_marker) is None
        }),
    decreases data.len() - offset,
{
    lemma_fragment_bounds(data, offset, start_marker, end_marker);
    match next_fragment(data, offset, start_marker, end_marker) {
        Some((start, next)) => {
            lemma_fragments_cover(data, next, start_marker, end_marker);
            let rest = fragments(data, next, start_marker, end_marker);
            let found = fragments(data, offset, start_marker, end_marker);
            assert(found.drop_first() =~= rest);
            if rest.len() > 0 {
                assert(found.last() == rest.last());
            }
        },
        None => {},
    }
}

/// Repeated extraction never hands out a fragment twice: each fragment lies
/// at or after the offset, and wholly before every later one.
pub proof fn lemma_fragments_apart(
    data: Seq<u8>,
    offset: int,
    start_marker: Seq<u8>,
    end_marker: Seq<u8>,
    i: int,
    j: int,
)
    requires
        end_marker.len() > 0,
        0 <= i < j < fragments(data, offset, start_marker, end_marker).len(),
    ensures
        ({
            let found = fragments(data, offset, start_marker, end_marker);
            offset <= found[i].0 < found[i].1 <= found[j].0 < found[j].1 <= data.len()
        }),
    decreases data.len() - offset,
{
    lemma_fragment_bounds(data, offset, start_marker, end_marker);
    match next_fragment(data, offset, start_marker, end_marker) {
        Some((start, next)) => {
            let rest = fragments(data, next, start_marker, end_marker);
            let found = fragments(data, offset, start_marker, end_marker);
            assert(found.drop_first() =~= rest);
            assert(found[j] == rest[j - 1]);
            if i == 0 {
                lemma_fragment_within(data, next, start_marker, end_marker, j - 1);
            } else {
                assert(found[i] == rest[i - 1]);
                lemma_fragments_apart(data, next, start_marker, end_marker, i - 1, j - 1);
            }
        },
        None => {},
    }
}

/// Each fragment of a repeated extraction lies at or after the offset and inside the buffer.
pub proof fn lemma_fragment_within(
    data: Seq<u8>,
    offset: int,
    start_marker: Seq<u8>,
    end_marker: Seq<u8>,
    i: int,
)
    requires
        end_marker.len() > 0,
        0 <= i < fragments(data, offset, start_marker, end_marker).len(),
    ensures
        ({
            let found = fragments(data, offset, start_marker, end_marker);
            offset <= found[i].0 < found[i].1 <= data.len()
        }),
    decreases data.len() - offset,
{
    lemma_fragment_bounds(data, offset, start_marker, end_marker);
    match next_fragment(data, offset, start_marker, end_marker) {
        Some((start, next)) => {
            let rest = fragments(data, next, start_marker, end_marker);
            let found = fragments(data, offset, start_marker, end_marker);
            assert(found.drop_first() =~= rest);
            if i > 0 {
                assert(found[i] == rest[i - 1]);
                lemma_fragment_within(data, next, start_marker, end_marker, i - 1);
            }
        },
        None => {},
    }
}

/// Searches `data` from `offset` on for `search`; gives the indices of the
/// first and of the last byte of its first occurrence.
pub fn find_indices_of(data: &[u8], offset: usize, search: &[u8]) -> (found: Result<
    (usize, usize),
    FindError,
>)
    requires
        search@.len() > 0,
    ensures
        match found {
            Ok((first, last)) => is_first_match(data@, offset as int, search@, first as int)
                && last == first + search@.len() - 1,
            Err(e) => e is NotFound && no_match(data@, offset as int, search@),
        },
{
    let search_len = search.len();
    let total_len = data.len();
    let mut i = offset;
    while i < total_len && search_len <= total_len - i
        invariant
            offset <= i,
            search_len == search@.len(),
            total_len == data@.len(),
            search_len > 0,
            forall|j: int| offset <= j < i ==> !matches_at(data@, j, search@),
        decreases total_len - i,
    {
        let mut k: usize = 0;
        while k < search_len && data[i + k] == search[k]
            invariant
                i + search_len <= total_len,
                search_len == search@.len(),
                total_len == data@.len(),
                k <= search_len,
                forall|t: int| 0 <= t < k ==> data@[i + t] == search@[t],
            decreases search_len - k,
        {
            k = k + 1;
        }
        if k == search_len {
            proof {
                assert(data@.subrange(i as int, i + search_len) =~= search@);
            }
            return Ok((i, i + search_len - 1));
        }
        proof {
            assert(data@.subrange(i as int, i + search_len)[k as int] == data@[i + k]);
        }
        i = i + 1;
    }
    Err(FindError::NotFound)
}

/// Index of the first byte of the first occurrence of `search` at or after `offset`.
pub fn find_start_of(data: &[u8], offset: usize, search: &[u8]) -> (found: Result<
    usize,
    FindError,
>)
    requires
        search@.len() > 0,
    ensures
        match found {
            Ok(first) => first_match(data@, offset as int, search@) == Some(first as int)
                && offset <= first && first + search@.len() <= data@.len(),
            Err(e) => e is NotFound && first_match(data@, offset as int, search@) is None,
        },
{
    match find_indices_of(data, offset, search) {
        Ok((first, _)) => {
            proof {
                lemma_first_match_found(data@, offset as int, search@, first as int);
            }
            Ok(first)
        },
        Err(e) => {
            proof {
                lemma_first_match_none(data@, offset as int, search@);
            }
            Err(e)
        },
    }
}

/// Index of the last byte of the first occurrence of `search` at or after `offset`.
pub fn find_end_of(data: &[u8], offset: usize, search: &[u8]) -> (found: Result<usize, FindError>)
    requires
        search@.len() > 0,
    ensures
        match found {
            Ok(last) => first_match(data@, offset as int, search@) == Some(
                last + 1 - search@.len(),
            ) && offset + search@.len() <= last + 1 <= data@.len(),
            Err(e) => e is NotFound && first_match(data@, offset as int, search@) is None,
        },
{
    match find_indices_of(data, offset, search) {
        Ok((first, last)) => {
            proof {
                lemma_first_match_found(data@, offset as int, search@, first as int);
            }
            Ok(last)
        },
        Err(e) => {
            proof {
                lemma_first_match_none(data@, offset as int, search@);
            }
            Err(e)
        },
    }
}

/// What one extraction from `data` at `offset` owes its caller.
pub open spec fn is_extraction(
    data: Seq<u8>,
    offset: int,
    start_marker: Seq<u8>,
    end_marker: Seq<u8>,
    extracted: Result<(&str, usize), FindError>,
) -> bool {
    match extracted {
        Ok((text, next)) => {
            &&& next_fragment(data, offset, start_marker, end_marker) matches Some((start, end))
            &&& end == next
            &&& offset <= start < next <= data.len()
            &&& valid_utf8(data.subrange(start, end))
            &&& text.spec_bytes() == data.subrange(start, end)
            &&& text@ == decode_utf8(data.subrange(start, end))
        },
        Err(FindError::NotFound) => next_fragment(data, offset, start_marker, end_marker) is None,
        Err(FindError::Utf8Error(_)) => {
            &&& next_fragment(data, offset, start_marker, end_marker) matches Some((start, end))
            &&& !valid_utf8(data.subrange(start, end))
        },
    }
}

/// Carves the next fragment out of `data`: from the first byte of the first
/// `start_marker` at or after `offset` through the last byte of the first
/// `end_marker` at or after it, decoded as text, with the offset one past it.
pub fn extract_utf8<'m>(
    data: &'m [u8],
    offset: usize,
    start_marker: &[u8],
    end_marker: &[u8],
) -> (extracted: Result<(&'m str, usize), FindError>)
    requires
        start_marker@.len() > 0,
        end_marker@.len() > 0,
    ensures
        is_extraction(data@, offset as int, start_marker@, end_marker@, extracted),
{
    let total_len = data.len();
    let start = match find_start_of(data, offset, start_marker) {
        Ok(start) => start,
        Err(e) => {
            return Err(e);
        },
    };
    let end = match find_end_of(data, start, end_marker) {
        Ok(end) => end,
        Err(e) => {
            return Err(e);
        },
    };
    assert(end < total_len);
    let object = &data[start..end + 1];
    match decode_utf8_bytes(object) {
        Ok(text) => {
            proof {
                encode_utf8_decode_utf8(text@);
            }
            Ok((text, end + 1))
        },
        Err(e) => Err(FindError::Utf8Error(e)),
    }
}

/// Text that is not empty has an encoding that is not empty.
pub proof fn lemma_encoding_nonempty(chars: Seq<char>)
    requires
        chars.len() > 0,
    ensures
        encode_utf8(chars).len() > 0,
{
    assert(encode_scalar(chars[0] as u32).len() > 0);
}

/// The next catalog fragment of `data` at or after `offset`.
pub fn extract_astro_object<'m>(data: &'m [u8], offset: usize) -> (extracted: Result<
    (&'m str, usize),
    FindError,
>)
    ensures
        is_extraction(
            data@,
            offset as int,
            ASTRO_OBJECT_START.spec_bytes(),
            ASTRO_OBJECT_END.spec_bytes(),
            extracted,
        ),
{
    proof {
        reveal_strlit("<AstroObjectEntry>");
        reveal_strlit("</AstroObjectEntry>");
        lemma_encoding_nonempty(ASTRO_OBJECT_START@);
        lemma_encoding_nonempty(ASTRO_OBJECT_END@);
    }
    extract_utf8(data, offset, ASTRO_OBJECT_START.as_bytes(), ASTRO_OBJECT_END.as_bytes())
}

/// The next ship-log translation table of `data` at or after `offset`.
pub fn extract_shiplog_tr_object<'m>(data: &'m [u8], offset: usize) -> (extracted: Result<
    (&'m str, usize),
    FindError,
>)
    ensures
        is_extraction(
            data@,
            offset as int,
            TR_SHIPLOG_START.spec_bytes(),
            TR_SHIPLOG_END.spec_bytes(),
            extracted,
        ),
{
    proof {
        reveal_strlit("<table_shipLog>");
        reveal_strlit("</table_shipLog>");
        lemma_encoding_nonempty(TR_SHIPLOG_START@);
        lemma_encoding_nonempty(TR_SHIPLOG_END@);
    }
    extract_utf8(data, offset, TR_SHIPLOG_START.as_bytes(), TR_SHIPLOG_END.as_bytes())
}

/// The next user-interface translation table of `data` at or after `offset`.
pub fn extract_ui_tr_object<'m>(data: &'m [u8], offset: usize) -> (extracted: Result<
    (&'m str, usize),
    FindError,
>)
    ensures
        is_extraction(
            data@,
            offset as int,
            TR_UI_START.spec_bytes(),
            TR_UI_END.spec_bytes(),
            extracted,
        ),
{
    proof {
        reveal_strlit("<table_ui>");
        reveal_strlit("</table_ui>");
        lemma_encoding_nonempty(TR_UI_START@);
        lemma_encoding_nonempty(TR_UI_END@);
    }
    extract_utf8(data, offset, TR_UI_START.as_bytes(), TR_UI_END.as_bytes())
}

} // verus!
