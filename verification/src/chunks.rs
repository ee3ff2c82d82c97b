use vstd::prelude::*;
use vstd::string::StringExecFns;

verus! {

/// `needle` occurs in `hay` starting at position `p`.
pub open spec fn occurs_at(hay: Seq<u8>, needle: Seq<u8>, p: int) -> bool {
    &&& 0 <= p
    &&& p + needle.len() <= hay.len()
    &&& hay.subrange(p, p + needle.len()) == needle
}

/// The first position at or after `from` where `needle` occurs in `hay`.
pub open spec fn first_occurrence(hay: Seq<u8>, needle: Seq<u8>, from: int) -> Option<int>
    decreases hay.len() - from,
{
    if from < 0 || from >= hay.len() || from + needle.len() > hay.len() {
        None
    } else if occurs_at(hay, needle, from) {
        Some(from)
    } else {
        first_occurrence(hay, needle, from + 1)
    }
}

/// What a search for `needle` from `start` finds: nothing when `start` lies
/// past the data or the needle is empty, else the first occurrence.
pub open spec fn find_spec(hay: Seq<u8>, needle: Seq<u8>, start: int) -> Option<int> {
    if start >= hay.len() || needle.len() == 0 {
        None
    } else {
        first_occurrence(hay, needle, start)
    }
}

/// `first_occurrence` is the least occurrence at or after `from`.
pub proof fn lemma_first_occurrence(hay: Seq<u8>, needle: Seq<u8>, from: int)
    requires
        0 <= from,
        needle.len() > 0,
    ensures
        match first_occurrence(hay, needle, from) {
            Some(p) => {
                &&& from <= p
                &&& occurs_at(hay, needle, p)
                &&& forall|q: int| from <= q < p ==> !#[trigger] occurs_at(hay, needle, q)
            },
            None => forall|q: int| from <= q ==> !#[trigger] occurs_at(hay, needle, q),
        },
    decreases hay.len() - from,
{
    if from >= hay.len() || from + needle.len() > hay.len() {
    } else if occurs_at(hay, needle, from) {
    } else {
        lemma_first_occurrence(hay, needle, from + 1);
    }
}

/// `find_spec` is the least occurrence at or after `start`, and a found
/// position leaves room for the whole needle.
pub proof fn lemma_find_spec(hay: Seq<u8>, needle: Seq<u8>, start: int)
    requires
        0 <= start,
    ensures
        match find_spec(hay, needle, start) {
            Some(p) => {
                &&& start <= p
                &&& needle.len() > 0
                &&& p + needle.len() <= hay.len()
                &&& occurs_at(hay, needle, p)
                &&& forall|q: int| start <= q < p ==> !#[trigger] occurs_at(hay, needle, q)
            },
            None => start >= hay.len() || needle.len() == 0 || forall|q: int|
                start <= q ==> !#[trigger] occurs_at(hay, needle, q),
        },
{
    if start < hay.len() && needle.len() > 0 {
        lemma_first_occurrence(hay, needle, start);
    }
}

/// Whether `needle` occurs in `hay` at `p`, compared byte by byte.
fn matches_at(hay: &[u8], needle: &[u8], p: usize) -> (r: bool)
    requires
        p + needle@.len() <= hay@.len(),
    ensures
        r == occurs_at(hay@, needle@, p as int),
{
    let hay_len = hay.len();
    let mut i: usize = 0;
    while i < needle.len()
        invariant
            0 <= i <= needle@.len(),
            hay_len == hay@.len(),
            p + needle@.len() <= hay@.len(),
            forall|k: int| 0 <= k < i ==> hay@[p + k] == needle@[k],
        decreases needle@.len() - i,
    {
        if hay[p + i] != needle[i] {
            assert(hay@.subrange(p as int, p + needle@.len())[i as int] != needle@[i as int]);
            return false;
        }
        i += 1;
    }
    assert(hay@.subrange(p as int, p + needle@.len()) =~= needle@);
    true
}

/// Finds the first occurrence of `needle` in `haystack` at or after `start`.
/// Nothing is found when `start` lies at or past the end of the data, or when
/// the needle is empty.
pub fn find_chunks(haystack: &[u8], needle: &[u8], start: usize) -> (r: Option<usize>)
    ensures
        r == (match find_spec(haystack@, needle@, start as int) {
            Some(p) => Some(p as usize),
            None => None::<usize>,
        }),
        match r {
            Some(p) => {
                &&& start < haystack@.len()
                &&& needle@.len() > 0
                &&& start <= p
                &&& occurs_at(haystack@, needle@, p as int)
                &&& forall|q: int| start <= q < p ==> !#[trigger] occurs_at(haystack@, needle@, q)
            },
            None => start >= haystack@.len() || needle@.len() == 0 || forall|q: int|
                start <= q ==> !#[trigger] occurs_at(haystack@, needle@, q),
        },
{
    proof {
        lemma_find_spec(haystack@, needle@, start as int);
    }
    if start >= haystack.len() || needle.len() == 0 {
        return None;
    }
    if needle.len() > haystack.len() - start {
        return None;
    }
    let last = haystack.len() - needle.len();
    let mut p = start;
    while p <= last
        invariant
            start <= p <= last + 1,
            last < haystack@.len() <= usize::MAX,
            last == haystack@.len() - needle@.len(),
            start < haystack@.len(),
            needle@.len() > 0,
            first_occurrence(haystack@, needle@, start as int) == first_occurrence(
                haystack@,
                needle@,
                p as int,
            ),
        decreases last + 1 - p,
    {
        if matches_at(haystack, needle, p) {
            assert(first_occurrence(haystack@, needle@, p as int) == Some(p as int));
            proof {
                lemma_find_spec(haystack@, needle@, start as int);
            }
            return Some(p);
        }
        p += 1;
    }
    None
}

/// Where a chunk whose header starts at `s` ends: at the first stop sign or
/// the next header after the header, whichever comes first, or at the end of
/// the data when neither follows.
pub open spec fn chunk_end(input: Seq<u8>, header: Seq<u8>, stop_sign: Seq<u8>, s: int) -> int {
    let after = s + header.len();
    match (find_spec(input, stop_sign, after), find_spec(input, header, after)) {
        (Some(stop), Some(next)) => if stop <= next {
            stop
        } else {
            next
        },
        (Some(stop), None) => stop,
        (None, Some(next)) => next,
        (None, None) => input.len() as int,
    }
}

/// The chunks found from `pos` on: each starts at the next header and ends
/// where `chunk_end` says; the search goes on from that end.
pub open spec fn chunks_from(input: Seq<u8>, header: Seq<u8>, stop_sign: Seq<u8>, pos: int) -> Seq<
    (usize, usize),
>
    decreases input.len() - pos,
{
    if pos < 0 {
        Seq::empty()
    } else {
        match find_spec(input, header, pos) {
            None => Seq::empty(),
            Some(s) => {
                let e = chunk_end(input, header, stop_sign, s);
                proof {
                    lemma_chunk_end_bounds(input, header, stop_sign, pos);
                }
                seq![(s as usize, e as usize)] + chunks_from(input, header, stop_sign, e)
            },
        }
    }
}

/// A chunk found from `pos` starts at a header at or after `pos` and ends
/// past the header, within the data.
pub proof fn lemma_chunk_end_bounds(input: Seq<u8>, header: Seq<u8>, stop_sign: Seq<u8>, pos: int)
    requires
        0 <= pos,
    ensures
        find_spec(input, header, pos) matches Some(s) ==> {
            &&& pos <= s
            &&& occurs_at(input, header, s)
            &&& header.len() > 0
            &&& s + header.len() <= chunk_end(input, header, stop_sign, s) <= input.len()
        },
{
    lemma_find_spec(input, header, pos);
    if let Some(s) = find_spec(input, header, pos) {
        lemma_find_spec(input, stop_sign, s + header.len());
        lemma_find_spec(input, header, s + header.len());
    }
}

/// Splits `input` into chunks: each starts at an occurrence of `header` and
/// runs up to the first `stop_sign` or the next `header` after it, whichever
/// comes first, or to the end of the data when neither follows.
pub fn locate_chunks(input: &[u8], header: &[u8], stop_sign: &[u8]) -> (chunks: Vec<(usize, usize)>)
    ensures
        chunks@ == chunks_from(input@, header@, stop_sign@, 0),
{
    let mut chunks: Vec<(usize, usize)> = Vec::new();
    let mut current_pos: usize = 0;
    let input_len = input.len();
    loop
        invariant_except_break
            current_pos <= input@.len(),
            input_len == input@.len(),
            chunks@ + chunks_from(input@, header@, stop_sign@, current_pos as int) == chunks_from(
                input@,
                header@,
                stop_sign@,
                0,
            ),
        ensures
            chunks@ == chunks_from(input@, header@, stop_sign@, 0),
        decreases input@.len() - current_pos,
    {
        proof {
            lemma_chunk_end_bounds(input@, header@, stop_sign@, current_pos as int);
        }
        let start = match find_chunks(input, header, current_pos) {
            Some(start) => start,
            None => {
                assert(chunks@ + Seq::<(usize, usize)>::empty() =~= chunks@);
                break ;
            },
        };
        let ghost rest = chunks_from(input@, header@, stop_sign@, current_pos as int);
        let ghost e = chunk_end(input@, header@, stop_sign@, start as int);
        assert(rest == seq![(start, e as usize)] + chunks_from(input@, header@, stop_sign@, e));
        let after = start + header.len();
        proof {
            lemma_find_spec(input@, stop_sign@, after as int);
            lemma_find_spec(input@, header@, after as int);
        }
        let stop_pos = find_chunks(input, stop_sign, after);
        let next_header = find_chunks(input, header, after);
        let end = match (stop_pos, next_header) {
            (Some(stop), Some(next)) => if stop <= next {
                stop
            } else {
                next
            },
            (Some(stop), None) => stop,
            (None, Some(next)) => next,
            (None, None) => input_len,
        };
        assert(end == e);
        let ghost old_chunks = chunks@;
        chunks.push((start, end));
        assert(chunks@ + chunks_from(input@, header@, stop_sign@, end as int) =~= old_chunks + rest);
        if stop_pos.is_none() && next_header.is_none() {
            assert(chunks_from(input@, header@, stop_sign@, end as int) =~= Seq::<
                (usize, usize),
            >::empty());
            assert(chunks@ + Seq::<(usize, usize)>::empty() =~= chunks@);
            break ;
        }
        current_pos = end;
    }
    chunks
}

/// The first chunk found from `pos` and the chunks after it.
proof fn lemma_chunks_from_unfold(input: Seq<u8>, header: Seq<u8>, stop_sign: Seq<u8>, pos: int)
    requires
        0 <= pos,
        input.len() <= usize::MAX,
    ensures
        find_spec(input, header, pos) is None ==> chunks_from(input, header, stop_sign, pos).len()
            == 0,
        find_spec(input, header, pos) matches Some(s) ==> {
            let e = chunk_end(input, header, stop_sign, s);
            let c = chunks_from(input, header, stop_sign, pos);
            let rest = chunks_from(input, header, stop_sign, e);
            &&& pos <= s
            &&& header.len() > 0
            &&& occurs_at(input, header, s)
            &&& s + header.len() <= e <= input.len()
            &&& c.len() == rest.len() + 1
            &&& c[0] == (s as usize, e as usize)
            &&& forall|i: int| 0 < i < c.len() ==> #[trigger] c[i] == rest[i - 1]
            &&& forall|q: int|
                s + header.len() <= q < e ==> !#[trigger] occurs_at(input, header, q) && (
                stop_sign.len() > 0 ==> !occurs_at(input, stop_sign, q))
        },
{
    lemma_chunk_end_bounds(input, header, stop_sign, pos);
    lemma_find_spec(input, header, pos);
    if let Some(s) = find_spec(input, header, pos) {
        let e = chunk_end(input, header, stop_sign, s);
        let after = s + header.len();
        lemma_find_spec(input, stop_sign, after);
        lemma_find_spec(input, header, after);
        let c = chunks_from(input, header, stop_sign, pos);
        let rest = chunks_from(input, header, stop_sign, e);
        assert(c == seq![(s as usize, e as usize)] + rest);
    }
}

/// The chunks found from `pos` on start at a header at or after `pos`, end
/// past that header within the data, and come in order without overlapping.
pub proof fn lemma_chunks_from_in_order(
    input: Seq<u8>,
    header: Seq<u8>,
    stop_sign: Seq<u8>,
    pos: int,
)
    requires
        0 <= pos,
        input.len() <= usize::MAX,
    ensures
        ({
            let c = chunks_from(input, header, stop_sign, pos);
            &&& forall|i: int|
                0 <= i < c.len() ==> {
                    &&& pos <= #[trigger] c[i].0
                    &&& occurs_at(input, header, c[i].0 as int)
                    &&& c[i].0 + header.len() <= c[i].1 <= input.len()
                }
            &&& forall|i: int, j: int| 0 <= i < j < c.len() ==> #[trigger] c[i].1 <= #[trigger] c[j].0
        }),
    decreases input.len() - pos,
{
    lemma_chunks_from_unfold(input, header, stop_sign, pos);
    if let Some(s) = find_spec(input, header, pos) {
        let e = chunk_end(input, header, stop_sign, s);
        lemma_chunks_from_in_order(input, header, stop_sign, e);
        let c = chunks_from(input, header, stop_sign, pos);
        let rest = chunks_from(input, header, stop_sign, e);
        assert forall|i: int| 0 <= i < c.len() implies {
            &&& pos <= #[trigger] c[i].0
            &&& occurs_at(input, header, c[i].0 as int)
            &&& c[i].0 + header.len() <= c[i].1 <= input.len()
        } by {
            if i > 0 {
                assert(c[i] == rest[i - 1]);
            }
        }
        assert forall|i: int, j: int| 0 <= i < j < c.len() implies #[trigger] c[i].1
            <= #[trigger] c[j].0 by {
            if i > 0 {
                assert(c[i] == rest[i - 1]);
            }
            assert(c[j] == rest[j - 1]);
        }
    }
}

/// No header, and no stop sign when there is one, starts in the body of a
/// chunk found from `pos` on (past its header, before its end).
pub proof fn lemma_chunks_from_body_clear(
    input: Seq<u8>,
    header: Seq<u8>,
    stop_sign: Seq<u8>,
    pos: int,
)
    requires
        0 <= pos,
        input.len() <= usize::MAX,
    ensures
        ({
            let c = chunks_from(input, header, stop_sign, pos);
            forall|i: int, q: int|
                0 <= i < c.len() && #[trigger] c[i].0 + header.len() <= q < c[i].1 ==> {
                    &&& !#[trigger] occurs_at(input, header, q)
                    &&& stop_sign.len() > 0 ==> !occurs_at(input, stop_sign, q)
                }
        }),
    decreases input.len() - pos,
{
    lemma_chunks_from_unfold(input, header, stop_sign, pos);
    if let Some(s) = find_spec(input, header, pos) {
        let e = chunk_end(input, header, stop_sign, s);
        lemma_chunks_from_body_clear(input, header, stop_sign, e);
        let c = chunks_from(input, header, stop_sign, pos);
        let rest = chunks_from(input, header, stop_sign, e);
        assert forall|i: int, q: int|
            0 <= i < c.len() && #[trigger] c[i].0 + header.len() <= q < c[i].1 implies {
            &&& !#[trigger] occurs_at(input, header, q)
            &&& stop_sign.len() > 0 ==> !occurs_at(input, stop_sign, q)
        } by {
            if i > 0 {
                assert(c[i] == rest[i - 1]);
            } else {
                assert(c[0] == (s as usize, e as usize));
                assert(!occurs_at(input, header, q));
            }
        }
    }
}

/// Every occurrence of a non-empty header at or after `pos` lies within the
/// header of a chunk found from `pos` on: none is passed over.
pub proof fn lemma_chunks_from_complete(
    input: Seq<u8>,
    header: Seq<u8>,
    stop_sign: Seq<u8>,
    pos: int,
)
    requires
        0 <= pos,
        input.len() <= usize::MAX,
        header.len() > 0,
    ensures
        ({
            let c = chunks_from(input, header, stop_sign, pos);
            forall|q: int|
                pos <= q && #[trigger] occurs_at(input, header, q) ==> exists|i: int|
                    0 <= i < c.len() && #[trigger] c[i].0 <= q < c[i].0 + header.len()
        }),
    decreases input.len() - pos,
{
    lemma_chunks_from_unfold(input, header, stop_sign, pos);
    lemma_find_spec(input, header, pos);
    if let Some(s) = find_spec(input, header, pos) {
        let e = chunk_end(input, header, stop_sign, s);
        lemma_chunks_from_complete(input, header, stop_sign, e);
        let c = chunks_from(input, header, stop_sign, pos);
        let rest = chunks_from(input, header, stop_sign, e);
        assert forall|q: int| pos <= q && #[trigger] occurs_at(input, header, q) implies exists|i: int|
            0 <= i < c.len() && #[trigger] c[i].0 <= q < c[i].0 + header.len() by {
            if q < s + header.len() {
                assert(c[0].0 <= q < c[0].0 + header.len());
            } else {
                assert(e <= q);
                let j = choose|j: int|
                    0 <= j < rest.len() && #[trigger] rest[j].0 <= q < rest[j].0 + header.len();
                assert(c[j + 1] == rest[j]);
            }
        }
    }
}

/// The chunks that `locate_chunks` finds are well formed: each starts at a
/// header and ends past it within the data; they come in order without
/// overlapping; no header, and no stop sign, starts in a chunk's body; and
/// every header in the data lies within the header of one of them.
pub proof fn lemma_located_chunks_well_formed(input: Seq<u8>, header: Seq<u8>, stop_sign: Seq<u8>)
    requires
        input.len() <= usize::MAX,
    ensures
        ({
            let c = chunks_from(input, header, stop_sign, 0);
            &&& forall|i: int|
                0 <= i < c.len() ==> {
                    &&& occurs_at(input, header, #[trigger] c[i].0 as int)
                    &&& c[i].0 + header.len() <= c[i].1 <= input.len()
                }
            &&& forall|i: int, j: int| 0 <= i < j < c.len() ==> #[trigger] c[i].1 <= #[trigger] c[j].0
            &&& forall|i: int, q: int|
                0 <= i < c.len() && #[trigger] c[i].0 + header.len() <= q < c[i].1 ==> {
                    &&& !#[trigger] occurs_at(input, header, q)
                    &&& stop_sign.len() > 0 ==> !occurs_at(input, stop_sign, q)
                }
            &&& header.len() > 0 ==> forall|q: int|
                #[trigger] occurs_at(input, header, q) ==> exists|i: int|
                    0 <= i < c.len() && #[trigger] c[i].0 <= q < c[i].0 + header.len()
        }),
{
    lemma_chunks_from_in_order(input, header, stop_sign, 0);
    lemma_chunks_from_body_clear(input, header, stop_sign, 0);
    if header.len() > 0 {
        lemma_chunks_from_complete(input, header, stop_sign, 0);
        let c = chunks_from(input, header, stop_sign, 0);
        assert forall|q: int| #[trigger] occurs_at(input, header, q) implies exists|i: int|
            0 <= i < c.len() && #[trigger] c[i].0 <= q < c[i].0 + header.len() by {
            assert(0 <= q);
        }
    }
}

/// Each chunk found from `pos` on ends at a boundary: at a stop sign, at a
/// header, or at the end of the data.
proof fn lemma_chunks_from_end_at_boundary(
    input: Seq<u8>,
    header: Seq<u8>,
    stop_sign: Seq<u8>,
    pos: int,
)
    requires
        0 <= pos,
        input.len() <= usize::MAX,
    ensures
        ({
            let c = chunks_from(input, header, stop_sign, pos);
            forall|i: int|
                0 <= i < c.len() ==> {
                    ||| #[trigger] c[i].1 == input.len()
                    ||| occurs_at(input, stop_sign, c[i].1 as int)
                    ||| occurs_at(input, header, c[i].1 as int)
                }
        }),
    decreases input.len() - pos,
{
    lemma_chunks_from_unfold(input, header, stop_sign, pos);
    if let Some(s) = find_spec(input, header, pos) {
        let e = chunk_end(input, header, stop_sign, s);
        let after = s + header.len();
        lemma_find_spec(input, stop_sign, after);
        lemma_find_spec(input, header, after);
        lemma_chunks_from_end_at_boundary(input, header, stop_sign, e);
        let c = chunks_from(input, header, stop_sign, pos);
        let rest = chunks_from(input, header, stop_sign, e);
        assert forall|i: int| 0 <= i < c.len() implies {
            ||| #[trigger] c[i].1 == input.len()
            ||| occurs_at(input, stop_sign, c[i].1 as int)
            ||| occurs_at(input, header, c[i].1 as int)
        } by {
            if i > 0 {
                assert(c[i] == rest[i - 1]);
            } else {
                assert(c[0].1 as int == e);
            }
        }
    }
}

/// Each chunk that `locate_chunks` finds ends exactly where the next stop
/// sign or header begins, or at the end of the data: its end is the end of
/// the data or a place where the stop sign or the header occurs, and (by
/// `lemma_located_chunks_well_formed`) none of them starts in between.
pub proof fn lemma_located_chunks_end_at_boundary(input: Seq<u8>, header: Seq<u8>, stop_sign: Seq<u8>)
    requires
        input.len() <= usize::MAX,
    ensures
        ({
            let c = chunks_from(input, header, stop_sign, 0);
            forall|i: int|
                0 <= i < c.len() ==> {
                    ||| #[trigger] c[i].1 == input.len()
                    ||| occurs_at(input, stop_sign, c[i].1 as int)
                    ||| occurs_at(input, header, c[i].1 as int)
                }
        }),
{
    lemma_chunks_from_end_at_boundary(input, header, stop_sign, 0);
}

/// The signature that opens each DDS texture: "DDS ".
pub open spec fn dds_header() -> Seq<u8> {
    seq![0x44u8, 0x44u8, 0x53u8, 0x20u8]
}

/// The signature that closes the texture area of an AFB container: "POF0".
pub open spec fn pof0_stop_sign() -> Seq<u8> {
    seq![0x50u8, 0x4Fu8, 0x46u8, 0x30u8]
}

/// Splits an AFB container into its DDS textures: each starts at "DDS " and
/// runs up to the next "POF0" or "DDS ", or to the end of the data.
pub fn locate_dds_chunks(input: &[u8]) -> (chunks: Vec<(usize, usize)>)
    ensures
        chunks@ == chunks_from(input@, dds_header(), pof0_stop_sign(), 0),
{
    let header: [u8; 4] = [0x44, 0x44, 0x53, 0x20];
    let stop_sign: [u8; 4] = [0x50, 0x4F, 0x46, 0x30];
    assert(header@ =~= dds_header());
    assert(stop_sign@ =~= pof0_stop_sign());
    locate_chunks(input, header.as_slice(), stop_sign.as_slice())
}


/// Why chunks could not be replaced.
#[derive(Debug, Clone, Copy, PartialEq, Eq, Structural)]
pub enum ChunkError {
    /// Fewer replacements were given than there are chunks.
    TooFewReplacements { replacements: usize, chunks: usize },
}

/// Appends `src[from..to]` to `out`.
fn append_range(out: &mut Vec<u8>, src: &[u8], from: usize, to: usize)
    requires
        from <= to <= src@.len(),
    ensures
        final(out)@ == old(out)@ + src@.subrange(from as int, to as int),
{
    let ghost start = out@;
    let mut k = from;
    while k < to
        invariant
            from <= k <= to <= src@.len(),
            out@ == start + src@.subrange(from as int, k as int),
        decreases to - k,
    {
        out.push(src[k]);
        k += 1;
        assert(out@ =~= start + src@.subrange(from as int, k as int));
    }
}

/// The replacements seen as byte sequences.
pub open spec fn replacement_views(replacements: Seq<Option<&[u8]>>) -> Seq<Option<Seq<u8>>> {
    replacements.map_values(|r: Option<&[u8]>| match r {
        Some(d) => Some(d@),
        None => None,
    })
}

/// Where the chunk before chunk `i` ends (0 for the first chunk).
pub open spec fn prev_end(chunks: Seq<(usize, usize)>, i: int) -> int {
    if i <= 0 {
        0
    } else {
        chunks[i - 1].1 as int
    }
}

/// The chunks can be walked in order over data of length `len`: each starts
/// at or after the end of the one before and within the data, a chunk that
/// is kept (`keep[i]`) does not end before it starts, and the last chunk
/// ends within the data.
pub open spec fn spans_in_order(len: int, chunks: Seq<(usize, usize)>, keep: Seq<bool>) -> bool {
    &&& forall|i: int| 0 <= i < chunks.len() ==> prev_end(chunks, i) <= #[trigger] chunks[i].0 <= len
    &&& forall|i: int|
        0 <= i < chunks.len() && #[trigger] keep[i] ==> chunks[i].0 <= chunks[i].1
    &&& chunks.len() > 0 ==> chunks[chunks.len() - 1].1 <= len
}

/// Which chunks a list of replacements keeps (those it gives no bytes for).
pub open spec fn kept(reps: Seq<Option<Seq<u8>>>) -> Seq<bool> {
    reps.map_values(|r: Option<Seq<u8>>| r is None)
}

/// What a chunk becomes: its replacement, or its own bytes when it has none.
pub open spec fn chunk_piece(input: Seq<u8>, chunk: (usize, usize), rep: Option<Seq<u8>>) -> Seq<u8> {
    match rep {
        Some(d) => d,
        None => input.subrange(chunk.0 as int, chunk.1 as int),
    }
}

/// Whether the chunks can be walked in order over data of length `len` with
/// these replacements (see `spans_in_order`): the test to make before
/// `replace_chunks`, which cannot replace chunks that are out of order.
pub fn spans_walkable(len: usize, chunks: &[(usize, usize)], replacements: &[Option<&[u8]>]) -> (r:
    bool)
    requires
        replacements@.len() >= chunks@.len(),
    ensures
        r == spans_in_order(len as int, chunks@, kept(replacement_views(replacements@))),
{
    let ghost keep = kept(replacement_views(replacements@));
    let mut i: usize = 0;
    while i < chunks.len()
        invariant
            0 <= i <= chunks@.len(),
            replacements@.len() >= chunks@.len(),
            keep == kept(replacement_views(replacements@)),
            forall|k: int| 0 <= k < i ==> prev_end(chunks@, k) <= #[trigger] chunks@[k].0 <= len,
            forall|k: int| 0 <= k < i && #[trigger] keep[k] ==> chunks@[k].0 <= chunks@[k].1,
        decreases chunks@.len() - i,
    {
        let (s, e) = chunks[i];
        let prev = if i == 0 {
            0
        } else {
            chunks[i - 1].1
        };
        if prev > s || s > len {
            assert(!(prev_end(chunks@, i as int) <= chunks@[i as int].0 <= len));
            return false;
        }
        if replacements[i].is_none() && s > e {
            assert(keep[i as int]);
            return false;
        }
        i += 1;
    }
    if chunks.len() > 0 && chunks[chunks.len() - 1].1 > len {
        return false;
    }
    true
}

/// The data from `cursor` on, with chunks `i..` replaced.
pub open spec fn splice_from(
    input: Seq<u8>,
    chunks: Seq<(usize, usize)>,
    reps: Seq<Option<Seq<u8>>>,
    i: int,
    cursor: int,
) -> Seq<u8>
    decreases chunks.len() - i,
{
    if i < 0 || i >= chunks.len() {
        input.subrange(cursor, input.len() as int)
    } else {
        input.subrange(cursor, chunks[i].0 as int) + chunk_piece(input, chunks[i], reps[i])
            + splice_from(input, chunks, reps, i + 1, chunks[i].1 as int)
    }
}

/// The data with every chunk replaced by its replacement; the bytes between
/// chunks, and the chunks without a replacement, stay as they are.
pub open spec fn spliced(input: Seq<u8>, chunks: Seq<(usize, usize)>, reps: Seq<Option<Seq<u8>>>) -> Seq<u8> {
    splice_from(input, chunks, reps, 0, 0)
}

/// Rebuilds `input` with chunk `i` replaced by `replacements[i]`, or left as
/// it is where that is `None`. Fails when there are fewer replacements than
/// chunks.
pub fn replace_chunks(input: &[u8], chunks: &[(usize, usize)], replacements: &[Option<&[u8]>]) -> (r:
    Result<Vec<u8>, ChunkError>)
    requires
        replacements@.len() >= chunks@.len() ==> spans_in_order(
            input@.len() as int,
            chunks@,
            kept(replacement_views(replacements@)),
        ),
    ensures
        replacements@.len() < chunks@.len() ==> r == Err::<Vec<u8>, ChunkError>(
            ChunkError::TooFewReplacements {
                replacements: replacements@.len() as usize,
                chunks: chunks@.len() as usize,
            },
        ),
        replacements@.len() >= chunks@.len() ==> (r matches Ok(out) && out@ == spliced(
            input@,
            chunks@,
            replacement_views(replacements@),
        )),
{
    if replacements.len() < chunks.len() {
        return Err(
            ChunkError::TooFewReplacements {
                replacements: replacements.len(),
                chunks: chunks.len(),
            },
        );
    }
    let ghost reps = replacement_views(replacements@);
    let ghost keep = kept(reps);
    let mut out: Vec<u8> = Vec::new();
    let mut cursor: usize = 0;
    let mut i: usize = 0;
    while i < chunks.len()
        invariant
            0 <= i <= chunks@.len(),
            chunks@.len() <= replacements@.len(),
            reps == replacement_views(replacements@),
            keep == kept(reps),
            spans_in_order(input@.len() as int, chunks@, keep),
            cursor == prev_end(chunks@, i as int),
            out@ + splice_from(input@, chunks@, reps, i as int, cursor as int) == spliced(
                input@,
                chunks@,
                reps,
            ),
        decreases chunks@.len() - i,
    {
        let (s, e) = chunks[i];
        assert(prev_end(chunks@, i as int) <= chunks@[i as int].0 <= input@.len());
        let ghost before = out@;
        append_range(&mut out, input, cursor, s);
        match replacements[i] {
            Some(data) => {
                append_range(&mut out, data, 0, data.len());
                assert(data@.subrange(0, data@.len() as int) =~= data@);
            },
            None => {
                assert(keep[i as int]);
                if i + 1 < chunks.len() {
                    assert(prev_end(chunks@, i + 1) <= chunks@[i + 1].0);
                }
                append_range(&mut out, input, s, e);
            },
        }
        assert(out@ + splice_from(input@, chunks@, reps, i + 1, e as int) =~= before
            + splice_from(input@, chunks@, reps, i as int, cursor as int));
        cursor = e;
        i += 1;
    }
    if chunks.len() > 0 {
        assert(cursor == chunks@[chunks@.len() - 1].1);
    }
    let ghost before = out@;
    append_range(&mut out, input, cursor, input.len());
    assert(out@ =~= before + splice_from(input@, chunks@, reps, i as int, cursor as int));
    Ok(out)
}


/// Chunks found by `locate_chunks` can always be walked in order by
/// `replace_chunks`, whichever of them are kept.
pub proof fn lemma_located_chunks_in_order(
    input: Seq<u8>,
    header: Seq<u8>,
    stop_sign: Seq<u8>,
    keep: Seq<bool>,
)
    requires
        input.len() <= usize::MAX,
    ensures
        spans_in_order(input.len() as int, chunks_from(input, header, stop_sign, 0), keep),
{
    let c = chunks_from(input, header, stop_sign, 0);
    lemma_chunks_from_in_order(input, header, stop_sign, 0);
    assert forall|i: int| 0 <= i < c.len() implies prev_end(c, i) <= #[trigger] c[i].0
        <= input.len() by {
        if i > 0 {
            assert(c[i - 1].1 <= c[i].0);
        }
    }
    assert forall|i: int| 0 <= i < c.len() && #[trigger] keep[i] implies c[i].0 <= c[i].1 by {
        assert(c[i].0 + header.len() <= c[i].1);
    }
    if c.len() > 0 {
        let k: int = c.len() - 1;
        assert(0 <= k < c.len());
        assert(0 <= c[k].0);
        assert(c[k].0 + header.len() <= c[k].1 <= input.len());
    }
}

/// Replacing every chunk from `i` on by its own bytes leaves the data from
/// `cursor` on as it is.
proof fn lemma_splice_from_identity(
    input: Seq<u8>,
    chunks: Seq<(usize, usize)>,
    reps: Seq<Option<Seq<u8>>>,
    i: int,
    cursor: int,
)
    requires
        0 <= i <= chunks.len(),
        reps.len() >= chunks.len(),
        0 <= cursor,
        i < chunks.len() ==> cursor <= chunks[i].0,
        i == chunks.len() ==> cursor <= input.len(),
        spans_in_order(input.len() as int, chunks, kept(reps)),
        forall|k: int| 0 <= k < chunks.len() ==> #[trigger] chunks[k].0 <= chunks[k].1,
        forall|k: int|
            0 <= k < chunks.len() ==> #[trigger] chunk_piece(input, chunks[k], reps[k])
                == input.subrange(chunks[k].0 as int, chunks[k].1 as int),
    ensures
        splice_from(input, chunks, reps, i, cursor) == input.subrange(cursor, input.len() as int),
    decreases chunks.len() - i,
{
    if i < chunks.len() {
        let s = chunks[i].0 as int;
        let e = chunks[i].1 as int;
        if i + 1 < chunks.len() {
            assert(prev_end(chunks, i + 1) <= chunks[i + 1].0);
        }
        lemma_splice_from_identity(input, chunks, reps, i + 1, e);
        assert(chunk_piece(input, chunks[i], reps[i]) == input.subrange(s, e));
        assert(input.subrange(cursor, s) + input.subrange(s, e) + input.subrange(e, input.len() as int)
            =~= input.subrange(cursor, input.len() as int));
    }
}

/// Replacing chunks that are in order, each by nothing or by its own bytes,
/// gives back the data unchanged; so does replacing no chunks at all.
pub proof fn lemma_replace_identity(
    input: Seq<u8>,
    chunks: Seq<(usize, usize)>,
    reps: Seq<Option<Seq<u8>>>,
)
    requires
        reps.len() >= chunks.len(),
        spans_in_order(input.len() as int, chunks, kept(reps)),
        forall|k: int| 0 <= k < chunks.len() ==> #[trigger] chunks[k].0 <= chunks[k].1,
        forall|k: int|
            0 <= k < chunks.len() ==> (#[trigger] reps[k] is None || reps[k] == Some(
                input.subrange(chunks[k].0 as int, chunks[k].1 as int),
            )),
    ensures
        spliced(input, chunks, reps) == input,
{
    assert forall|k: int| 0 <= k < chunks.len() implies #[trigger] chunk_piece(
        input,
        chunks[k],
        reps[k],
    ) == input.subrange(chunks[k].0 as int, chunks[k].1 as int) by {
        assert(reps[k] is None || reps[k] == Some(
            input.subrange(chunks[k].0 as int, chunks[k].1 as int),
        ));
    }
    if chunks.len() > 0 {
        assert(prev_end(chunks, 0) <= chunks[0].0);
    }
    lemma_splice_from_identity(input, chunks, reps, 0, 0);
    assert(input.subrange(0, input.len() as int) =~= input);
}


/// The decimal digit `d` as a character.
pub open spec fn digit_char(d: int) -> char {
    if d == 0 {
        '0'
    } else if d == 1 {
        '1'
    } else if d == 2 {
        '2'
    } else if d == 3 {
        '3'
    } else if d == 4 {
        '4'
    } else if d == 5 {
        '5'
    } else if d == 6 {
        '6'
    } else if d == 7 {
        '7'
    } else if d == 8 {
        '8'
    } else {
        '9'
    }
}

/// The decimal digits of `n`, most significant first, without leading zeros.
pub open spec fn decimal(n: nat) -> Seq<char>
    decreases n,
{
    if n < 10 {
        seq![digit_char(n as int)]
    } else {
        decimal(n / 10) + seq![digit_char((n % 10) as int)]
    }
}

/// The decimal digits of `n`, padded with leading zeros to at least `width`
/// characters.
pub open spec fn zero_padded(n: nat, width: nat) -> Seq<char> {
    let d = decimal(n);
    if d.len() >= width {
        d
    } else {
        Seq::new((width - d.len()) as nat, |k: int| '0') + d
    }
}

/// The file name of the chunk at `index` (counted from 0): the base name, an
/// underscore, the chunk's number counted from 1 in at least four digits,
/// and the extension.
pub open spec fn chunk_file_name(base: Seq<char>, index: nat, extension: Seq<char>) -> Seq<char> {
    base + seq!['_'] + zero_padded(index + 1, 4) + extension
}

/// The number a decimal digit character stands for.
pub open spec fn digit_value(c: char) -> nat {
    if c == '1' {
        1
    } else if c == '2' {
        2
    } else if c == '3' {
        3
    } else if c == '4' {
        4
    } else if c == '5' {
        5
    } else if c == '6' {
        6
    } else if c == '7' {
        7
    } else if c == '8' {
        8
    } else if c == '9' {
        9
    } else {
        0
    }
}

/// The number a string of decimal digits stands for.
pub open spec fn digits_value(s: Seq<char>) -> nat
    decreases s.len(),
{
    if s.len() == 0 {
        0
    } else {
        digits_value(s.drop_last()) * 10 + digit_value(s.last())
    }
}

/// Reading a digit character back gives the digit.
proof fn lemma_digit_roundtrip(d: int)
    requires
        0 <= d < 10,
    ensures
        digit_value(digit_char(d)) == d,
{
}

/// The decimal digits of `n` stand for `n`.
proof fn lemma_decimal_value(n: nat)
    ensures
        digits_value(decimal(n)) == n,
    decreases n,
{
    if n >= 10 {
        lemma_decimal_value(n / 10);
        lemma_digit_roundtrip((n % 10) as int);
        let d = decimal(n);
        assert(d.drop_last() =~= decimal(n / 10));
        assert(d.last() == digit_char((n % 10) as int));
        assert(digits_value(d) == digits_value(d.drop_last()) * 10 + digit_value(d.last()));
        assert(n == (n / 10) * 10 + n % 10);
    } else {
        lemma_digit_roundtrip(n as int);
        let d = decimal(n);
        assert(d.drop_last() =~= Seq::<char>::empty());
        assert(digits_value(Seq::<char>::empty()) == 0);
        assert(digits_value(d) == digits_value(d.drop_last()) * 10 + digit_value(d.last()));
    }
}

/// Leading zeros do not change the number that digits stand for.
proof fn lemma_leading_zeros_value(z: nat, s: Seq<char>)
    ensures
        digits_value(Seq::new(z, |k: int| '0') + s) == digits_value(s),
    decreases s.len() + z,
{
    let zs = Seq::new(z, |k: int| '0');
    if s.len() == 0 {
        assert(zs + s =~= zs);
        if z > 0 {
            let shorter = Seq::new((z - 1) as nat, |k: int| '0');
            assert(zs.drop_last() =~= shorter + Seq::<char>::empty());
            lemma_leading_zeros_value((z - 1) as nat, Seq::<char>::empty());
        }
    } else {
        assert((zs + s).drop_last() =~= zs + s.drop_last());
        lemma_leading_zeros_value(z, s.drop_last());
    }
}

/// The padded digits of `n` stand for `n`.
proof fn lemma_zero_padded_value(n: nat, width: nat)
    ensures
        digits_value(zero_padded(n, width)) == n,
{
    lemma_decimal_value(n);
    let d = decimal(n);
    if d.len() < width {
        lemma_leading_zeros_value((width - d.len()) as nat, d);
    }
}

/// Chunks at different indices get different file names, so extracting
/// never writes one chunk over another.
pub proof fn lemma_chunk_names_distinct(base: Seq<char>, extension: Seq<char>, i: nat, j: nat)
    requires
        i != j,
    ensures
        chunk_file_name(base, i, extension) != chunk_file_name(base, j, extension),
{
    let pi = zero_padded(i + 1, 4);
    let pj = zero_padded(j + 1, 4);
    lemma_zero_padded_value(i + 1, 4);
    lemma_zero_padded_value(j + 1, 4);
    let a = chunk_file_name(base, i, extension);
    let b = chunk_file_name(base, j, extension);
    if a == b {
        assert(a.len() == base.len() + 1 + pi.len() + extension.len());
        assert(b.len() == base.len() + 1 + pj.len() + extension.len());
        assert(pi.len() == pj.len());
        let start: int = base.len() as int + 1;
        assert(a.subrange(start, start + pi.len()) =~= pi);
        assert(b.subrange(start, start + pj.len()) =~= pj);
    }
}

/// How many digits `n` has, for the numbers below 1000.
proof fn lemma_decimal_len(n: nat)
    ensures
        n < 10 ==> decimal(n).len() == 1,
        10 <= n < 100 ==> decimal(n).len() == 2,
        100 <= n < 1000 ==> decimal(n).len() == 3,
        1000 <= n ==> decimal(n).len() >= 4,
    decreases n,
{
    if n >= 10 {
        lemma_decimal_len(n / 10);
    }
}

/// The digit `d` as a one-character string.
fn digit_str(d: usize) -> (s: &'static str)
    requires
        d < 10,
    ensures
        s@ == seq![digit_char(d as int)],
{
    proof {
        reveal_strlit("0");
        reveal_strlit("1");
        reveal_strlit("2");
        reveal_strlit("3");
        reveal_strlit("4");
        reveal_strlit("5");
        reveal_strlit("6");
        reveal_strlit("7");
        reveal_strlit("8");
        reveal_strlit("9");
    }
    if d == 0 {
        "0"
    } else if d == 1 {
        "1"
    } else if d == 2 {
        "2"
    } else if d == 3 {
        "3"
    } else if d == 4 {
        "4"
    } else if d == 5 {
        "5"
    } else if d == 6 {
        "6"
    } else if d == 7 {
        "7"
    } else if d == 8 {
        "8"
    } else {
        "9"
    }
}

/// Appends the decimal digits of `n` to `out`.
fn append_decimal(out: &mut String, n: usize)
    ensures
        final(out)@ == old(out)@ + decimal(n as nat),
    decreases n,
{
    if n >= 10 {
        append_decimal(out, n / 10);
    }
    out.append(digit_str(n % 10));
    proof {
        if n >= 10 {
            assert(decimal(n as nat) == decimal((n / 10) as nat) + seq![digit_char((n % 10) as int)]);
        }
    }
}

/// The file name of the chunk at `index`: `{base}_{index + 1:04}{extension}`.
pub fn chunk_name(base_name: &str, index: usize, extension: &str) -> (name: String)
    requires
        index < usize::MAX,
    ensures
        name@ == chunk_file_name(base_name@, index as nat, extension@),
{
    let number = index + 1;
    let mut name = String::from_str(base_name);
    proof {
        reveal_strlit("_");
        reveal_strlit("000");
        reveal_strlit("00");
        reveal_strlit("0");
        lemma_decimal_len(number as nat);
    }
    name.append("_");
    let ghost d = decimal(number as nat);
    if number < 10 {
        name.append("000");
        assert(Seq::new((4 - d.len()) as nat, |k: int| '0') =~= "000"@);
    } else if number < 100 {
        name.append("00");
        assert(Seq::new((4 - d.len()) as nat, |k: int| '0') =~= "00"@);
    } else if number < 1000 {
        name.append("0");
        assert(Seq::new((4 - d.len()) as nat, |k: int| '0') =~= "0"@);
    }
    append_decimal(&mut name, number);
    name.append(extension);
    assert(name@ =~= chunk_file_name(base_name@, index as nat, extension@));
    name
}

/// A file to write: its name and its bytes.
pub struct ChunkFile {
    pub name: String,
    pub bytes: Vec<u8>,
}

/// Each chunk as a file: chunk `i` is named `{base}_{i + 1:04}{extension}`
/// and holds `input[start..end]`.
pub fn extract_chunks(input: &[u8], base_name: &str, extension: &str, chunks: &[(usize, usize)]) -> (files:
    Vec<ChunkFile>)
    requires
        forall|i: int| 0 <= i < chunks@.len() ==> #[trigger] chunks@[i].0 <= chunks@[i].1 <= input@.len(),
    ensures
        files@.len() == chunks@.len(),
        forall|i: int|
            0 <= i < chunks@.len() ==> {
                &&& (#[trigger] files@[i]).name@ == chunk_file_name(base_name@, i as nat, extension@)
                &&& files@[i].bytes@ == input@.subrange(chunks@[i].0 as int, chunks@[i].1 as int)
            },
{
    let mut files: Vec<ChunkFile> = Vec::new();
    let mut i: usize = 0;
    while i < chunks.len()
        invariant
            0 <= i <= chunks@.len(),
            files@.len() == i,
            forall|k: int| 0 <= k < chunks@.len() ==> #[trigger] chunks@[k].0 <= chunks@[k].1 <= input@.len(),
            forall|k: int|
                0 <= k < i ==> {
                    &&& (#[trigger] files@[k]).name@ == chunk_file_name(base_name@, k as nat, extension@)
                    &&& files@[k].bytes@ == input@.subrange(chunks@[k].0 as int, chunks@[k].1 as int)
                },
        decreases chunks@.len() - i,
    {
        let (start, end) = chunks[i];
        assert(chunks@[i as int].0 <= chunks@[i as int].1 <= input@.len());
        let mut bytes: Vec<u8> = Vec::new();
        append_range(&mut bytes, input, start, end);
        let name = chunk_name(base_name, i, extension);
        files.push(ChunkFile { name, bytes });
        i += 1;
    }
    files
}

} // verus!
