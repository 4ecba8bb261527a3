//! The block that the compressor writes, as a function of its input: the
//! greedy hash-table search of LZ4, step by step over the table's entries.
use vstd::prelude::*;
use crate::format::{encode_last, encode_sequence};
use crate::hashtable::HashTable;
use crate::{END_OFFSET, LZ4_MIN_LENGTH, MAX_DISTANCE, MFLIMIT};

verus! {

/// How many bytes before `cur` in `input` agree with the bytes before `cand`
/// in `source`, going back no further than `ls` and the start of `source`.
pub open spec fn backtrack_len(input: Seq<u8>, cur: int, ls: int, source: Seq<u8>, cand: int) -> nat
    decreases cur - ls,
{
    if cand > 0 && cur > ls && input[cur - 1] == source[cand - 1] {
        1 + backtrack_len(input, cur - 1, ls, source, cand - 1)
    } else {
        0
    }
}

/// How many bytes from `i` in `input` agree with the bytes from `j` in
/// `source`, counting at most `limit`.
pub open spec fn match_len(input: Seq<u8>, i: int, source: Seq<u8>, j: int, limit: int) -> nat
    decreases limit,
{
    if limit > 0 && input[i] == source[j] {
        1 + match_len(input, i + 1, source, j + 1, limit - 1)
    } else {
        0
    }
}

/// How many bytes a match from `cur` in an input of `input_len` bytes
/// against `cand` in a source of `source_len` bytes may count: up to
/// `end_offset` bytes before the end of the input and the end of the source.
pub open spec fn count_limit(input_len: int, cur: int, end_offset: int, source_len: int, cand: int) -> int {
    let max_input = if input_len >= cur + end_offset { input_len - (cur + end_offset) } else { 0 };
    let max_cand = source_len - cand;
    if max_input < max_cand { max_input } else { max_cand }
}

/// `backtrack_len` never goes back past `ls` or the start of `source`.
pub proof fn lemma_backtrack_bound(input: Seq<u8>, cur: int, ls: int, source: Seq<u8>, cand: int)
    ensures
        cur >= ls ==> backtrack_len(input, cur, ls, source, cand) <= cur - ls,
        cand >= 0 ==> backtrack_len(input, cur, ls, source, cand) <= cand,
    decreases cur - ls,
{
    if cand > 0 && cur > ls && input[cur - 1] == source[cand - 1] {
        lemma_backtrack_bound(input, cur - 1, ls, source, cand - 1);
    }
}

/// `match_len` counts no more than `limit`.
pub proof fn lemma_match_len_bound(input: Seq<u8>, i: int, source: Seq<u8>, j: int, limit: int)
    ensures
        match_len(input, i, source, j, limit) <= if limit > 0 { limit } else { 0 },
    decreases limit,
{
    if limit > 0 && input[i] == source[j] {
        lemma_match_len_bound(input, i + 1, source, j + 1, limit - 1);
    }
}

/// One probe after another from `cur`, after `k` misses: the entry at the
/// forward hash `fh` is read and replaced by the position `cur`, and the
/// entry (or, with `dual`, the entry of the dictionary's table `pe`) is
/// taken as a candidate when it lies in reach and its four bytes agree with
/// those at `cur`. The result is the match found (candidate, whether it lies
/// in `dict`, offset), the entries, the position and the forward hash at the
/// end of the search; none is found once the next probe would leave fewer
/// than `MFLIMIT - 1` bytes after it.
pub open spec fn probe<T: HashTable>(
    input: Seq<u8>,
    dict: Seq<u8>,
    iso: int,
    use_dict: bool,
    dual: bool,
    pe: Seq<usize>,
    e: Seq<usize>,
    cur: int,
    fh: int,
    k: nat,
) -> (Option<(usize, bool, u16)>, Seq<usize>, int, int)
    decreases input.len() - cur,
{
    let next = cur + (8 + k) / 8;
    if next > input.len() - MFLIMIT + 1 {
        (None, e, cur, fh)
    } else {
        let cand_abs = e[fh] as int;
        let e2 = e.update(fh, T::stored((cur + iso) as usize));
        let fh2 = T::spec_hash(input, next) as int;
        let cur_abs = iso + cur;
        let dso = iso - dict.len();
        let dict_abs = if dual { pe[fh] as int } else { cand_abs };
        if cand_abs < cur_abs && cand_abs >= iso && cur_abs - cand_abs <= MAX_DISTANCE {
            let cand = cand_abs - iso;
            if input.subrange(cand, cand + 4) == input.subrange(cur, cur + 4) {
                (Some((cand as usize, false, (cur_abs - cand_abs) as u16)), e2, cur, fh2)
            } else {
                probe::<T>(input, dict, iso, use_dict, dual, pe, e2, next, fh2, k + 1)
            }
        } else if use_dict && dict_abs < iso && dict_abs >= dso && cur_abs - dict_abs <= MAX_DISTANCE && dict_abs - dso + 4
            <= dict.len() {
            let cand = dict_abs - dso;
            if dict.subrange(cand, cand + 4) == input.subrange(cur, cur + 4) {
                (Some((cand as usize, true, (cur_abs - dict_abs) as u16)), e2, cur, fh2)
            } else {
                probe::<T>(input, dict, iso, use_dict, dual, pe, e2, next, fh2, k + 1)
            }
        } else {
            probe::<T>(input, dict, iso, use_dict, dual, pe, e2, next, fh2, k + 1)
        }
    }
}

/// The search ends where it started or further on, and a match found lies
/// at least `MFLIMIT` bytes before the end.
pub proof fn lemma_probe_bounds<T: HashTable>(
    input: Seq<u8>,
    dict: Seq<u8>,
    iso: int,
    use_dict: bool,
    dual: bool,
    pe: Seq<usize>,
    e: Seq<usize>,
    cur: int,
    fh: int,
    k: nat,
)
    ensures
        cur <= probe::<T>(input, dict, iso, use_dict, dual, pe, e, cur, fh, k).2,
        probe::<T>(input, dict, iso, use_dict, dual, pe, e, cur, fh, k).0 is Some ==> probe::<T>(input, dict, iso, use_dict, dual,
            pe, e, cur, fh, k).2 + MFLIMIT <= input.len(),
        !use_dict ==> (probe::<T>(input, dict, iso, use_dict, dual, pe, e, cur, fh, k).0 matches Some((c, from_dict, o))
            ==> !from_dict),
    decreases input.len() - cur,
{
    let next = cur + (8 + k) / 8;
    if next <= input.len() - MFLIMIT + 1 {
        let e2 = e.update(fh, T::stored((cur + iso) as usize));
        let fh2 = T::spec_hash(input, next) as int;
        lemma_probe_bounds::<T>(input, dict, iso, use_dict, dual, pe, e2, next, fh2, k + 1);
    }
}

/// The sequence for a match found at `cur` against `cand` in `source`: it is
/// extended backwards over equal bytes (no further than `ls`) and forwards
/// as far as the bytes agree (stopping `END_OFFSET` bytes before the end),
/// and the position two bytes before its end is recorded in the entries.
/// The result is the bytes of the sequence, the entries, and the end of the
/// match.
pub open spec fn match_step<T: HashTable>(
    input: Seq<u8>,
    source: Seq<u8>,
    iso: int,
    e: Seq<usize>,
    ls: int,
    cur: int,
    cand: int,
    offset: int,
) -> (Seq<u8>, Seq<usize>, int) {
    let j = backtrack_len(input, cur, ls, source, cand);
    let bc = cur - j;
    let bcand = cand - j;
    let dup = match_len(input, bc + 4, source, bcand + 4, count_limit(input.len() as int, bc + 4, END_OFFSET as int,
        source.len() as int, bcand + 4));
    let nc = bc + 4 + dup;
    (
        encode_sequence(input.subrange(ls, bc), offset as nat, dup),
        e.update(T::spec_hash(input, nc - 2) as int, T::stored((nc - 2 + iso) as usize)),
        nc,
    )
}

/// A match step from a position with four bytes after it ends after `ls`
/// and no later than the end of the input.
pub proof fn lemma_match_step_bounds<T: HashTable>(
    input: Seq<u8>,
    source: Seq<u8>,
    iso: int,
    e: Seq<usize>,
    ls: int,
    cur: int,
    cand: int,
    offset: int,
)
    requires
        0 <= ls <= cur,
        cur + 4 <= input.len(),
        0 <= cand,
    ensures
        ls < match_step::<T>(input, source, iso, e, ls, cur, cand, offset).2 <= input.len(),
        match_step::<T>(input, source, iso, e, ls, cur, cand, offset).2 >= cur + 4 - backtrack_len(input, cur, ls, source, cand),
{
    let j = backtrack_len(input, cur, ls, source, cand);
    lemma_backtrack_bound(input, cur, ls, source, cand);
    let bc = cur - j;
    let bcand = cand - j;
    let lim = count_limit(input.len() as int, bc + 4, END_OFFSET as int, source.len() as int, bcand + 4);
    lemma_match_len_bound(input, bc + 4, source, bcand + 4, lim);
}

/// The rest of the block from a search at `cur`, with the literals pending
/// since `ls`: the bytes still to be written and the entries at the end.
pub open spec fn search_from<T: HashTable>(
    input: Seq<u8>,
    dict: Seq<u8>,
    iso: int,
    use_dict: bool,
    dual: bool,
    pe: Seq<usize>,
    e: Seq<usize>,
    ls: int,
    cur: int,
    fh: int,
) -> (Seq<u8>, Seq<usize>)
    decreases input.len() - ls, 1int,
    when 0 <= ls <= cur <= input.len()
{
    let r = probe::<T>(input, dict, iso, use_dict, dual, pe, e, cur, fh, 0);
    match r.0 {
        None => (encode_last(input.skip(ls)), r.1),
        Some((cand, from_dict, offset)) => match_from::<T>(input, dict, iso, use_dict, dual, pe, r.1, ls, r.2, r.3, cand as int,
            from_dict, offset as int),
    }
}

/// The rest of the block from a match found at `cur` against `cand`, with
/// the literals pending since `ls`: the bytes of its sequence, then what
/// follows the match.
pub open spec fn match_from<T: HashTable>(
    input: Seq<u8>,
    dict: Seq<u8>,
    iso: int,
    use_dict: bool,
    dual: bool,
    pe: Seq<usize>,
    e: Seq<usize>,
    ls: int,
    cur: int,
    fh: int,
    cand: int,
    from_dict: bool,
    offset: int,
) -> (Seq<u8>, Seq<usize>)
    decreases input.len() - ls, 0int,
    when 0 <= ls <= cur && cur + 4 <= input.len() && 0 <= cand
{
    let source = if from_dict { dict } else { input };
    let st = match_step::<T>(input, source, iso, e, ls, cur, cand, offset);
    proof {
        lemma_match_step_bounds::<T>(input, source, iso, e, ls, cur, cand, offset);
    }
    let rest = after_match::<T>(input, dict, iso, use_dict, dual, pe, st.1, st.2, fh);
    (st.0 + rest.0, rest.1)
}

/// The rest of the block after a match that ends at `nc`. Without a
/// dictionary, the position `nc` is tried at once against the entry of its
/// hash (which it then replaces when they match); otherwise, or when that
/// fails, the search goes on from `nc`.
pub open spec fn after_match<T: HashTable>(
    input: Seq<u8>,
    dict: Seq<u8>,
    iso: int,
    use_dict: bool,
    dual: bool,
    pe: Seq<usize>,
    e: Seq<usize>,
    nc: int,
    fh: int,
) -> (Seq<u8>, Seq<usize>)
    decreases input.len() - nc, 2int,
    when 0 <= nc <= input.len()
{
    if !use_dict && nc + MFLIMIT <= input.len() {
        let h = T::spec_hash(input, nc) as int;
        let rematch = e[h] as int;
        let cur_abs = iso + nc;
        if rematch < cur_abs && cur_abs - rematch <= MAX_DISTANCE && rematch >= iso && input.subrange(nc, nc + 4)
            == input.subrange(rematch - iso, rematch - iso + 4) {
            match_from::<T>(input, dict, iso, use_dict, dual, pe, e.update(h, T::stored((nc + iso) as usize)), nc, nc, fh,
                rematch - iso, false, cur_abs - rematch)
        } else {
            search_from::<T>(input, dict, iso, use_dict, dual, pe, e, nc, nc, h)
        }
    } else if nc + MFLIMIT <= input.len() {
        search_from::<T>(input, dict, iso, use_dict, dual, pe, e, nc, nc, T::spec_hash(input, nc) as int)
    } else {
        search_from::<T>(input, dict, iso, use_dict, dual, pe, e, nc, nc, fh)
    }
}

/// One search step of the block: what the probe from `cur` finds decides it.
pub proof fn lemma_search_from<T: HashTable>(
    input: Seq<u8>,
    dict: Seq<u8>,
    iso: int,
    use_dict: bool,
    dual: bool,
    pe: Seq<usize>,
    e: Seq<usize>,
    ls: int,
    cur: int,
    fh: int,
)
    requires
        0 <= ls <= cur <= input.len(),
    ensures
        probe::<T>(input, dict, iso, use_dict, dual, pe, e, cur, fh, 0).0 is None ==> search_from::<T>(input, dict, iso,
            use_dict, dual, pe, e, ls, cur, fh) == (encode_last(input.skip(ls)), probe::<T>(input, dict, iso, use_dict, dual, pe,
            e, cur, fh, 0).1),
        probe::<T>(input, dict, iso, use_dict, dual, pe, e, cur, fh, 0).0 matches Some((cand, from_dict, offset)) ==> {
            let r = probe::<T>(input, dict, iso, use_dict, dual, pe, e, cur, fh, 0);
            search_from::<T>(input, dict, iso, use_dict, dual, pe, e, ls, cur, fh) == match_from::<T>(input, dict, iso, use_dict,
                dual, pe, r.1, ls, r.2, r.3, cand as int, from_dict, offset as int)
        },
{
    lemma_probe_bounds::<T>(input, dict, iso, use_dict, dual, pe, e, cur, fh, 0);
}

/// One match step of the block: its sequence, then what follows it.
pub proof fn lemma_match_from<T: HashTable>(
    input: Seq<u8>,
    dict: Seq<u8>,
    iso: int,
    use_dict: bool,
    dual: bool,
    pe: Seq<usize>,
    e: Seq<usize>,
    ls: int,
    cur: int,
    fh: int,
    cand: int,
    from_dict: bool,
    offset: int,
)
    requires
        0 <= ls <= cur,
        cur + 4 <= input.len(),
        0 <= cand,
    ensures
        ({
            let st = match_step::<T>(input, if from_dict { dict } else { input }, iso, e, ls, cur, cand, offset);
            let rest = after_match::<T>(input, dict, iso, use_dict, dual, pe, st.1, st.2, fh);
            &&& match_from::<T>(input, dict, iso, use_dict, dual, pe, e, ls, cur, fh, cand, from_dict, offset) == (st.0 + rest.0,
                rest.1)
            &&& ls < st.2 <= input.len()
        }),
{
    lemma_match_step_bounds::<T>(input, if from_dict { dict } else { input }, iso, e, ls, cur, cand, offset);
}

/// What follows a match, by the cases of [`after_match`].
pub proof fn lemma_after_match<T: HashTable>(
    input: Seq<u8>,
    dict: Seq<u8>,
    iso: int,
    use_dict: bool,
    dual: bool,
    pe: Seq<usize>,
    e: Seq<usize>,
    nc: int,
    fh: int,
)
    requires
        0 <= nc <= input.len(),
    ensures
        after_match::<T>(input, dict, iso, use_dict, dual, pe, e, nc, fh) == if !use_dict && nc + MFLIMIT <= input.len() {
            let h = T::spec_hash(input, nc) as int;
            let rematch = e[h] as int;
            let cur_abs = iso + nc;
            if rematch < cur_abs && cur_abs - rematch <= MAX_DISTANCE && rematch >= iso && input.subrange(nc, nc + 4)
                == input.subrange(rematch - iso, rematch - iso + 4) {
                match_from::<T>(input, dict, iso, use_dict, dual, pe, e.update(h, T::stored((nc + iso) as usize)), nc, nc, fh,
                    rematch - iso, false, cur_abs - rematch)
            } else {
                search_from::<T>(input, dict, iso, use_dict, dual, pe, e, nc, nc, h)
            }
        } else if nc + MFLIMIT <= input.len() {
            search_from::<T>(input, dict, iso, use_dict, dual, pe, e, nc, nc, T::spec_hash(input, nc) as int)
        } else {
            search_from::<T>(input, dict, iso, use_dict, dual, pe, e, nc, nc, fh)
        },
{
}

/// The block that the greedy search writes for `input[input_pos..]`, with
/// `dict` in front of the input, the input starting at the stream position
/// `iso`, and the table holding `e` (and, with `dual`, the dictionary's
/// positions in a second table `pe`): the bytes of the block and the
/// entries after it. A remainder too short to search is written as
/// literals alone. A search from the start of a stream (or with `dual`)
/// first records position 0 and starts at position 1.
#[verifier::opaque]
pub open spec fn greedy_block<T: HashTable>(
    input: Seq<u8>,
    input_pos: int,
    dict: Seq<u8>,
    iso: int,
    use_dict: bool,
    dual: bool,
    pe: Seq<usize>,
    e: Seq<usize>,
) -> (Seq<u8>, Seq<usize>) {
    if input.len() - input_pos < LZ4_MIN_LENGTH {
        (encode_last(input.skip(input_pos)), e)
    } else if dual || (input_pos == 0 && iso == 0) {
        search_from::<T>(input, dict, iso, use_dict, dual, pe, e.update(T::spec_hash(input, 0) as int, T::stored(iso as usize)),
            0, 1, T::spec_hash(input, 1) as int)
    } else {
        search_from::<T>(input, dict, iso, use_dict, dual, pe, e, input_pos, input_pos, T::spec_hash(input, input_pos) as int)
    }
}

/// Two tables, for inputs at the stream offsets `iso1` and `iso2`, hold the
/// same positions relative to their offsets, except where both entries are
/// stale (below their offset).
pub open spec fn stale_equiv(e1: Seq<usize>, iso1: int, e2: Seq<usize>, iso2: int) -> bool {
    &&& e1.len() == e2.len()
    &&& forall|i: int| 0 <= i < e1.len() ==> (e1[i] - iso1 == e2[i] - iso2 || (e1[i] < iso1 && e2[i] < iso2))
}

/// The table keeps every position of an input of `len` bytes at the stream
/// offset `iso` as it is.
pub open spec fn stores_positions<T: HashTable>(iso: int, len: int) -> bool {
    forall|p: int| 0 <= p <= len ==> #[trigger] T::stored((p + iso) as usize) == p + iso
}

/// Without a dictionary, probing two tables that agree up to stale entries
/// finds the same match at the same position and leaves tables that agree.
proof fn lemma_probe_stale<T: HashTable>(
    input: Seq<u8>,
    iso1: int,
    iso2: int,
    e1: Seq<usize>,
    e2: Seq<usize>,
    cur: int,
    fh: int,
    k: nat,
)
    requires
        0 < T::table_size() <= 0x1_0000_0000,
        e1.len() == T::table_size(),
        stale_equiv(e1, iso1, e2, iso2),
        0 <= fh < e1.len(),
        0 <= cur,
        stores_positions::<T>(iso1, input.len() as int),
        stores_positions::<T>(iso2, input.len() as int),
    ensures
        ({
            let p1 = probe::<T>(input, Seq::empty(), iso1, false, false, Seq::empty(), e1, cur, fh, k);
            let p2 = probe::<T>(input, Seq::empty(), iso2, false, false, Seq::empty(), e2, cur, fh, k);
            &&& p1.0 == p2.0
            &&& p1.2 == p2.2
            &&& p1.3 == p2.3
            &&& 0 <= p1.3 < T::table_size()
            &&& p1.1.len() == T::table_size()
            &&& stale_equiv(p1.1, iso1, p2.1, iso2)
        }),
    decreases input.len() - cur,
{
    let next = cur + (8 + k) / 8;
    if next <= input.len() - MFLIMIT + 1 {
        let e1u = e1.update(fh, T::stored((cur + iso1) as usize));
        let e2u = e2.update(fh, T::stored((cur + iso2) as usize));
        assert(T::stored((cur + iso1) as usize) == cur + iso1);
        assert(T::stored((cur + iso2) as usize) == cur + iso2);
        assert(stale_equiv(e1u, iso1, e2u, iso2)) by {
            assert forall|i: int| 0 <= i < e1u.len() implies (e1u[i] - iso1 == e2u[i] - iso2 || (e1u[i] < iso1 && e2u[i]
                < iso2)) by {
                if i != fh {
                    assert(e1u[i] == e1[i] && e2u[i] == e2[i]);
                }
            }
        }
        T::lemma_hash_bound(input, next);
        let fh2 = T::spec_hash(input, next) as int;
        lemma_probe_stale::<T>(input, iso1, iso2, e1u, e2u, next, fh2, k + 1);
    }
}

/// Without a dictionary, the rest of the block from a search is the same
/// for two tables that agree up to stale entries, and so are the tables
/// after it up to stale entries.
proof fn lemma_search_stale<T: HashTable>(
    input: Seq<u8>,
    iso1: int,
    iso2: int,
    e1: Seq<usize>,
    e2: Seq<usize>,
    ls: int,
    cur: int,
    fh: int,
)
    requires
        0 < T::table_size() <= 0x1_0000_0000,
        e1.len() == T::table_size(),
        stale_equiv(e1, iso1, e2, iso2),
        0 <= fh < e1.len(),
        0 <= ls <= cur <= input.len(),
        stores_positions::<T>(iso1, input.len() as int),
        stores_positions::<T>(iso2, input.len() as int),
    ensures
        ({
            let r1 = search_from::<T>(input, Seq::empty(), iso1, false, false, Seq::empty(), e1, ls, cur, fh);
            let r2 = search_from::<T>(input, Seq::empty(), iso2, false, false, Seq::empty(), e2, ls, cur, fh);
            &&& r1.0 == r2.0
            &&& r1.1.len() == T::table_size()
            &&& stale_equiv(r1.1, iso1, r2.1, iso2)
        }),
    decreases input.len() - ls, 1int,
{
    let e = Seq::<u8>::empty();
    let z = Seq::<usize>::empty();
    lemma_probe_stale::<T>(input, iso1, iso2, e1, e2, cur, fh, 0);
    lemma_search_from::<T>(input, e, iso1, false, false, z, e1, ls, cur, fh);
    lemma_search_from::<T>(input, e, iso2, false, false, z, e2, ls, cur, fh);
    lemma_probe_bounds::<T>(input, e, iso1, false, false, z, e1, cur, fh, 0);
    let p1 = probe::<T>(input, e, iso1, false, false, z, e1, cur, fh, 0);
    let p2 = probe::<T>(input, e, iso2, false, false, z, e2, cur, fh, 0);
    if let Some((cand, from_dict, offset)) = p1.0 {
        lemma_match_stale::<T>(input, iso1, iso2, p1.1, p2.1, ls, p1.2, p1.3, cand as int, offset as int);
    }
}

/// The same for the rest of the block from a match.
proof fn lemma_match_stale<T: HashTable>(
    input: Seq<u8>,
    iso1: int,
    iso2: int,
    e1: Seq<usize>,
    e2: Seq<usize>,
    ls: int,
    cur: int,
    fh: int,
    cand: int,
    offset: int,
)
    requires
        0 < T::table_size() <= 0x1_0000_0000,
        e1.len() == T::table_size(),
        stale_equiv(e1, iso1, e2, iso2),
        0 <= fh < e1.len(),
        0 <= ls <= cur,
        cur + 4 <= input.len(),
        0 <= cand,
        stores_positions::<T>(iso1, input.len() as int),
        stores_positions::<T>(iso2, input.len() as int),
    ensures
        ({
            let r1 = match_from::<T>(input, Seq::empty(), iso1, false, false, Seq::empty(), e1, ls, cur, fh, cand, false, offset);
            let r2 = match_from::<T>(input, Seq::empty(), iso2, false, false, Seq::empty(), e2, ls, cur, fh, cand, false, offset);
            &&& r1.0 == r2.0
            &&& r1.1.len() == T::table_size()
            &&& stale_equiv(r1.1, iso1, r2.1, iso2)
        }),
    decreases input.len() - ls, 0int,
{
    let e = Seq::<u8>::empty();
    let z = Seq::<usize>::empty();
    lemma_match_from::<T>(input, e, iso1, false, false, z, e1, ls, cur, fh, cand, false, offset);
    lemma_match_from::<T>(input, e, iso2, false, false, z, e2, ls, cur, fh, cand, false, offset);
    let st1 = match_step::<T>(input, input, iso1, e1, ls, cur, cand, offset);
    let st2 = match_step::<T>(input, input, iso2, e2, ls, cur, cand, offset);
    let nc = st1.2;
    lemma_match_step_bounds::<T>(input, input, iso1, e1, ls, cur, cand, offset);
    lemma_backtrack_bound(input, cur, ls, input, cand);
    assert(4 <= nc <= input.len());
    assert(0 <= nc - 2 <= input.len());
    let h = T::spec_hash(input, nc - 2) as int;
    T::lemma_hash_bound(input, nc - 2);
    assert(T::stored((nc - 2 + iso1) as usize) == nc - 2 + iso1);
    assert(T::stored((nc - 2 + iso2) as usize) == nc - 2 + iso2);
    assert(stale_equiv(st1.1, iso1, st2.1, iso2)) by {
        assert forall|i: int| 0 <= i < st1.1.len() implies (st1.1[i] - iso1 == st2.1[i] - iso2 || (st1.1[i] < iso1 && st2.1[i]
            < iso2)) by {
            if i != h {
                assert(st1.1[i] == e1[i] && st2.1[i] == e2[i]);
            }
        }
    }
    lemma_after_stale::<T>(input, iso1, iso2, st1.1, st2.1, nc, fh);
}

/// The same for the rest of the block after a match that ends at `nc`.
proof fn lemma_after_stale<T: HashTable>(
    input: Seq<u8>,
    iso1: int,
    iso2: int,
    e1: Seq<usize>,
    e2: Seq<usize>,
    nc: int,
    fh: int,
)
    requires
        0 < T::table_size() <= 0x1_0000_0000,
        e1.len() == T::table_size(),
        stale_equiv(e1, iso1, e2, iso2),
        0 <= fh < e1.len(),
        0 <= nc <= input.len(),
        stores_positions::<T>(iso1, input.len() as int),
        stores_positions::<T>(iso2, input.len() as int),
    ensures
        ({
            let r1 = after_match::<T>(input, Seq::empty(), iso1, false, false, Seq::empty(), e1, nc, fh);
            let r2 = after_match::<T>(input, Seq::empty(), iso2, false, false, Seq::empty(), e2, nc, fh);
            &&& r1.0 == r2.0
            &&& r1.1.len() == T::table_size()
            &&& stale_equiv(r1.1, iso1, r2.1, iso2)
        }),
    decreases input.len() - nc, 2int,
{
    let e = Seq::<u8>::empty();
    let z = Seq::<usize>::empty();
    lemma_after_match::<T>(input, e, iso1, false, false, z, e1, nc, fh);
    lemma_after_match::<T>(input, e, iso2, false, false, z, e2, nc, fh);
    if nc + MFLIMIT <= input.len() {
        T::lemma_hash_bound(input, nc);
        let h = T::spec_hash(input, nc) as int;
        let r1 = e1[h] as int;
        let r2 = e2[h] as int;
        let ok1 = r1 < iso1 + nc && iso1 + nc - r1 <= MAX_DISTANCE && r1 >= iso1 && input.subrange(nc, nc + 4) == input.subrange(
            r1 - iso1, r1 - iso1 + 4);
        let ok2 = r2 < iso2 + nc && iso2 + nc - r2 <= MAX_DISTANCE && r2 >= iso2 && input.subrange(nc, nc + 4) == input.subrange(
            r2 - iso2, r2 - iso2 + 4);
        assert(ok1 == ok2);
        if ok1 {
            let e1u = e1.update(h, T::stored((nc + iso1) as usize));
            let e2u = e2.update(h, T::stored((nc + iso2) as usize));
            assert(T::stored((nc + iso1) as usize) == nc + iso1);
            assert(T::stored((nc + iso2) as usize) == nc + iso2);
            assert(stale_equiv(e1u, iso1, e2u, iso2)) by {
                assert forall|i: int| 0 <= i < e1u.len() implies (e1u[i] - iso1 == e2u[i] - iso2 || (e1u[i] < iso1 && e2u[i]
                    < iso2)) by {
                    if i != h {
                        assert(e1u[i] == e1[i] && e2u[i] == e2[i]);
                    }
                }
            }
            lemma_match_stale::<T>(input, iso1, iso2, e1u, e2u, nc, nc, fh, r1 - iso1, iso1 + nc - r1);
        } else {
            lemma_search_stale::<T>(input, iso1, iso2, e1, e2, nc, nc, h);
        }
    } else {
        lemma_search_stale::<T>(input, iso1, iso2, e1, e2, nc, nc, fh);
    }
}

/// Stale entries are ignored: without a dictionary, from a stream offset
/// past the start, the greedy search writes the same block of `input` for
/// two tables that hold the same positions relative to their offsets, apart
/// from entries that are stale in both (below their offsets).
pub proof fn lemma_greedy_stale<T: HashTable>(input: Seq<u8>, iso1: int, e1: Seq<usize>, iso2: int, e2: Seq<usize>)
    requires
        0 < iso1,
        0 < iso2,
        0 < T::table_size() <= 0x1_0000_0000,
        e1.len() == T::table_size(),
        stale_equiv(e1, iso1, e2, iso2),
        stores_positions::<T>(iso1, input.len() as int),
        stores_positions::<T>(iso2, input.len() as int),
    ensures
        greedy_block::<T>(input, 0, Seq::empty(), iso1, false, false, Seq::empty(), e1).0 == greedy_block::<T>(input, 0,
            Seq::empty(), iso2, false, false, Seq::empty(), e2).0,
{
    reveal(greedy_block);
    if input.len() >= LZ4_MIN_LENGTH {
        T::lemma_hash_bound(input, 0);
        lemma_search_stale::<T>(input, iso1, iso2, e1, e2, 0, 0, T::spec_hash(input, 0) as int);
    }
}

/// Every entry is at most `b`.
pub open spec fn entries_at_most(e: Seq<usize>, b: int) -> bool {
    forall|i: int| 0 <= i < e.len() ==> e[i] <= b
}

/// A probe records only positions of the input: entries at most
/// `iso + input.len()` stay so.
proof fn lemma_probe_at_most<T: HashTable>(
    input: Seq<u8>,
    iso: int,
    e: Seq<usize>,
    cur: int,
    fh: int,
    k: nat,
    b: int,
)
    requires
        0 < T::table_size() <= 0x1_0000_0000,
        e.len() == T::table_size(),
        entries_at_most(e, b),
        iso + input.len() <= b,
        0 <= fh < e.len(),
        0 <= cur,
        stores_positions::<T>(iso, input.len() as int),
    ensures
        ({
            let p = probe::<T>(input, Seq::empty(), iso, false, false, Seq::empty(), e, cur, fh, k);
            &&& 0 <= p.3 < T::table_size()
            &&& p.1.len() == T::table_size()
            &&& entries_at_most(p.1, b)
        }),
    decreases input.len() - cur,
{
    let next = cur + (8 + k) / 8;
    if next <= input.len() - MFLIMIT + 1 {
        let eu = e.update(fh, T::stored((cur + iso) as usize));
        assert(T::stored((cur + iso) as usize) == cur + iso);
        assert(entries_at_most(eu, b)) by {
            assert forall|i: int| 0 <= i < eu.len() implies eu[i] <= b by {
                if i != fh {
                    assert(eu[i] == e[i]);
                }
            }
        }
        T::lemma_hash_bound(input, next);
        lemma_probe_at_most::<T>(input, iso, eu, next, T::spec_hash(input, next) as int, k + 1, b);
    }
}

/// The rest of the block from a search records only positions of the input.
proof fn lemma_search_at_most<T: HashTable>(input: Seq<u8>, iso: int, e: Seq<usize>, ls: int, cur: int, fh: int, b: int)
    requires
        0 < T::table_size() <= 0x1_0000_0000,
        e.len() == T::table_size(),
        entries_at_most(e, b),
        iso + input.len() <= b,
        0 <= fh < e.len(),
        0 <= ls <= cur <= input.len(),
        stores_positions::<T>(iso, input.len() as int),
    ensures
        ({
            let r = search_from::<T>(input, Seq::empty(), iso, false, false, Seq::empty(), e, ls, cur, fh);
            &&& r.1.len() == T::table_size()
            &&& entries_at_most(r.1, b)
        }),
    decreases input.len() - ls, 1int,
{
    let d = Seq::<u8>::empty();
    let z = Seq::<usize>::empty();
    lemma_probe_at_most::<T>(input, iso, e, cur, fh, 0, b);
    lemma_search_from::<T>(input, d, iso, false, false, z, e, ls, cur, fh);
    lemma_probe_bounds::<T>(input, d, iso, false, false, z, e, cur, fh, 0);
    let p = probe::<T>(input, d, iso, false, false, z, e, cur, fh, 0);
    if let Some((cand, from_dict, offset)) = p.0 {
        lemma_match_at_most::<T>(input, iso, p.1, ls, p.2, p.3, cand as int, offset as int, b);
    }
}

/// The rest of the block from a match records only positions of the input.
proof fn lemma_match_at_most<T: HashTable>(
    input: Seq<u8>,
    iso: int,
    e: Seq<usize>,
    ls: int,
    cur: int,
    fh: int,
    cand: int,
    offset: int,
    b: int,
)
    requires
        0 < T::table_size() <= 0x1_0000_0000,
        e.len() == T::table_size(),
        entries_at_most(e, b),
        iso + input.len() <= b,
        0 <= fh < e.len(),
        0 <= ls <= cur,
        cur + 4 <= input.len(),
        0 <= cand,
        stores_positions::<T>(iso, input.len() as int),
    ensures
        ({
            let r = match_from::<T>(input, Seq::empty(), iso, false, false, Seq::empty(), e, ls, cur, fh, cand, false, offset);
            &&& r.1.len() == T::table_size()
            &&& entries_at_most(r.1, b)
        }),
    decreases input.len() - ls, 0int,
{
    let d = Seq::<u8>::empty();
    let z = Seq::<usize>::empty();
    lemma_match_from::<T>(input, d, iso, false, false, z, e, ls, cur, fh, cand, false, offset);
    let st = match_step::<T>(input, input, iso, e, ls, cur, cand, offset);
    let nc = st.2;
    lemma_match_step_bounds::<T>(input, input, iso, e, ls, cur, cand, offset);
    lemma_backtrack_bound(input, cur, ls, input, cand);
    assert(0 <= nc - 2 <= input.len());
    let h = T::spec_hash(input, nc - 2) as int;
    T::lemma_hash_bound(input, nc - 2);
    assert(T::stored((nc - 2 + iso) as usize) == nc - 2 + iso);
    assert(entries_at_most(st.1, b)) by {
        assert forall|i: int| 0 <= i < st.1.len() implies st.1[i] <= b by {
            if i != h {
                assert(st.1[i] == e[i]);
            }
        }
    }
    lemma_after_at_most::<T>(input, iso, st.1, nc, fh, b);
}

/// The rest of the block after a match records only positions of the input.
proof fn lemma_after_at_most<T: HashTable>(input: Seq<u8>, iso: int, e: Seq<usize>, nc: int, fh: int, b: int)
    requires
        0 < T::table_size() <= 0x1_0000_0000,
        e.len() == T::table_size(),
        entries_at_most(e, b),
        iso + input.len() <= b,
        0 <= fh < e.len(),
        0 <= nc <= input.len(),
        stores_positions::<T>(iso, input.len() as int),
    ensures
        ({
            let r = after_match::<T>(input, Seq::empty(), iso, false, false, Seq::empty(), e, nc, fh);
            &&& r.1.len() == T::table_size()
            &&& entries_at_most(r.1, b)
        }),
    decreases input.len() - nc, 2int,
{
    let d = Seq::<u8>::empty();
    let z = Seq::<usize>::empty();
    lemma_after_match::<T>(input, d, iso, false, false, z, e, nc, fh);
    if nc + MFLIMIT <= input.len() {
        T::lemma_hash_bound(input, nc);
        let h = T::spec_hash(input, nc) as int;
        let r = e[h] as int;
        if r < iso + nc && iso + nc - r <= MAX_DISTANCE && r >= iso && input.subrange(nc, nc + 4) == input.subrange(r - iso, r
            - iso + 4) {
            let eu = e.update(h, T::stored((nc + iso) as usize));
            assert(T::stored((nc + iso) as usize) == nc + iso);
            assert(entries_at_most(eu, b)) by {
                assert forall|i: int| 0 <= i < eu.len() implies eu[i] <= b by {
                    if i != h {
                        assert(eu[i] == e[i]);
                    }
                }
            }
            lemma_match_at_most::<T>(input, iso, eu, nc, nc, fh, r - iso, iso + nc - r, b);
        } else {
            lemma_search_at_most::<T>(input, iso, e, nc, nc, h, b);
        }
    } else {
        lemma_search_at_most::<T>(input, iso, e, nc, nc, fh, b);
    }
}

/// Without a dictionary, the greedy search records only positions of the
/// input: entries at most `iso + input.len()` stay so.
pub proof fn lemma_greedy_at_most<T: HashTable>(input: Seq<u8>, iso: int, e: Seq<usize>, b: int)
    requires
        0 <= iso,
        0 < T::table_size() <= 0x1_0000_0000,
        e.len() == T::table_size(),
        entries_at_most(e, b),
        iso + input.len() <= b,
        stores_positions::<T>(iso, input.len() as int),
    ensures
        entries_at_most(greedy_block::<T>(input, 0, Seq::empty(), iso, false, false, Seq::empty(), e).1, b),
        greedy_block::<T>(input, 0, Seq::empty(), iso, false, false, Seq::empty(), e).1.len() == T::table_size(),
{
    reveal(greedy_block);
    if input.len() >= LZ4_MIN_LENGTH {
        T::lemma_hash_bound(input, 0);
        T::lemma_hash_bound(input, 1);
        if iso == 0 {
            let h0 = T::spec_hash(input, 0) as int;
            let eu = e.update(h0, T::stored(iso as usize));
            assert(T::stored((0 + iso) as usize) == 0 + iso);
            assert(entries_at_most(eu, b)) by {
                assert forall|i: int| 0 <= i < eu.len() implies eu[i] <= b by {
                    if i != h0 {
                        assert(eu[i] == e[i]);
                    }
                }
            }
            lemma_search_at_most::<T>(input, iso, eu, 0, 1, T::spec_hash(input, 1) as int, b);
        } else {
            lemma_search_at_most::<T>(input, iso, e, 0, 0, T::spec_hash(input, 0) as int, b);
        }
    }
}

} // verus!
