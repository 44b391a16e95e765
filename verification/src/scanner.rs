//! The scan engine: byte-granular sliding-window search over a
//! snapshot of region reads.
//!
//! A scan walks the snapshot region by region, skips a region whose
//! read failed, and inside each successfully read region slides a
//! 4-byte window across every offset from `0` to `length - 4`
//! inclusive — windows overlap, nothing is aligned. The exact scan
//! keeps the windows whose little-endian word equals the target; the
//! fuzzy scan's windows are handed out whole as candidates, since the
//! float comparison against a tolerance is the caller's, not the
//! verified core's. Results come in region-enumeration order and, per
//! region, in ascending offset order.

use vstd::prelude::*;
use vstd::seq_lib::*;

use crate::codec::le_word_at;
use crate::codec::word_from_le;
use crate::memory::RegionRead;
use crate::parse::dec_str;
use crate::parse::u32_to_decimal;

verus! {

/// One location where a scan predicate succeeded: the absolute address
/// of the window start, and the matched value rendered as text.
#[derive(Clone, Debug)]
pub struct ScanResult {
    pub address: usize,
    pub value: String,
}

/// One 4-byte window of a snapshot: its absolute address and the raw
/// little-endian word found there. The fuzzy scan reinterprets the
/// word's bits as a 32-bit float and compares against its tolerance.
#[derive(Clone, Copy, Debug, PartialEq, Eq, Structural)]
pub struct Candidate {
    pub address: usize,
    pub bits: u32,
}

/// How many 4-byte windows a buffer of `len` bytes holds: one per
/// offset from `0` to `len - 4` inclusive.
pub open spec fn window_count(len: int) -> int {
    if len >= 4 {
        len - 3
    } else {
        0
    }
}

/// The offsets of the first `n` windows of `data` whose word equals
/// `target`, in ascending order.
pub open spec fn match_offsets_upto(data: Seq<u8>, target: u32, n: int) -> Seq<int>
    decreases n,
{
    if n <= 0 {
        Seq::empty()
    } else {
        match_offsets_upto(data, target, n - 1) + (if le_word_at(data, n - 1) == target {
            seq![n - 1]
        } else {
            Seq::<int>::empty()
        })
    }
}

/// The offsets of all windows of `data` whose word equals `target`,
/// in ascending order.
pub open spec fn match_offsets(data: Seq<u8>, target: u32) -> Seq<int> {
    match_offsets_upto(data, target, window_count(data.len() as int))
}

/// The absolute match addresses one region read contributes: none for
/// a failed read, else its matching offsets shifted by the region
/// start.
pub open spec fn read_matches(rd: RegionRead, target: u32) -> Seq<int> {
    match rd.data {
        Some(d) => match_offsets(d@, target).map_values(|off: int| rd.region.start + off),
        None => Seq::empty(),
    }
}

/// All match addresses of a snapshot, region by region in enumeration
/// order.
pub open spec fn snapshot_matches(snap: Seq<RegionRead>, target: u32) -> Seq<int> {
    snap.flat_map(|rd: RegionRead| read_matches(rd, target))
}

/// The addresses of a result list.
pub open spec fn result_addresses(rs: Seq<ScanResult>) -> Seq<int> {
    rs.map_values(|m: ScanResult| m.address as int)
}

/// The first `n` windows of `data` as (offset, word) pairs, in
/// ascending offset order.
pub open spec fn window_words_upto(data: Seq<u8>, n: int) -> Seq<(int, u32)>
    decreases n,
{
    if n <= 0 {
        Seq::empty()
    } else {
        window_words_upto(data, n - 1) + seq![(n - 1, le_word_at(data, n - 1))]
    }
}

/// All windows of `data` as (offset, word) pairs.
pub open spec fn window_words(data: Seq<u8>) -> Seq<(int, u32)> {
    window_words_upto(data, window_count(data.len() as int))
}

/// The (address, word) candidates one region read contributes.
pub open spec fn read_candidates(rd: RegionRead) -> Seq<(int, u32)> {
    match rd.data {
        Some(d) => window_words(d@).map_values(|w: (int, u32)| (rd.region.start + w.0, w.1)),
        None => Seq::empty(),
    }
}

/// All (address, word) candidates of a snapshot, region by region.
pub open spec fn snapshot_candidates(snap: Seq<RegionRead>) -> Seq<(int, u32)> {
    snap.flat_map(|rd: RegionRead| read_candidates(rd))
}

/// The (address, word) pairs of a candidate list.
pub open spec fn candidate_views(cs: Seq<Candidate>) -> Seq<(int, u32)> {
    cs.map_values(|c: Candidate| (c.address as int, c.bits))
}

/// Scans a snapshot for the exact 32-bit word `target`: every 4-byte
/// window of every successfully read region is interpreted as a
/// little-endian word and kept when it equals `target` bit-exactly. A
/// region whose read failed is excluded without aborting the scan.
/// Results are ordered by (region enumeration order, ascending
/// offset), and each carries the decimal text of the matched value.
pub fn scan_exact(snapshot: &Vec<RegionRead>, target: u32) -> (r: Vec<ScanResult>)
    requires
        forall|i: int| 0 <= i < snapshot@.len() ==> (#[trigger] snapshot@[i]).wf(),
    ensures
        result_addresses(r@) == snapshot_matches(snapshot@, target),
        forall|i: int| 0 <= i < r@.len() ==> (#[trigger] r@[i]).value@ == dec_str(target as int),
{
    let ghost f = |rd: RegionRead| read_matches(rd, target);
    let value_str = u32_to_decimal(target);
    let mut results: Vec<ScanResult> = Vec::new();
    let mut ri: usize = 0;
    while ri < snapshot.len()
        invariant
            0 <= ri <= snapshot@.len(),
            forall|i: int| 0 <= i < snapshot@.len() ==> (#[trigger] snapshot@[i]).wf(),
            f == (|rd: RegionRead| read_matches(rd, target)),
            result_addresses(results@) == snapshot@.take(ri as int).flat_map(f),
            forall|i: int|
                0 <= i < results@.len() ==> (#[trigger] results@[i]).value@ == dec_str(
                    target as int,
                ),
            value_str@ == dec_str(target as int),
        decreases snapshot@.len() - ri,
    {
        let rd: &RegionRead = &snapshot[ri];
        let region = rd.region;
        match &rd.data {
            None => {
                proof {
                    snapshot@.lemma_flat_map_take_append(f, ri as int);
                    assert(read_matches(snapshot@[ri as int], target) =~= Seq::<int>::empty());
                    assert(result_addresses(results@) =~= snapshot@.take(
                        ri as int + 1,
                    ).flat_map(f));
                }
            },
            Some(data) => {
                let len = data.len();
                if len >= 4 {
                    let wc = len - 3;
                    let mut off: usize = 0;
                    while off < wc
                        invariant
                            0 <= off <= wc,
                            wc == len - 3,
                            len == data@.len(),
                            len >= 4,
                            region == snapshot@[ri as int].region,
                            snapshot@[ri as int].data matches Some(d) && d@ == data@,
                            0 <= ri < snapshot@.len(),
                            forall|i: int|
                                0 <= i < snapshot@.len() ==> (#[trigger] snapshot@[i]).wf(),
                            result_addresses(results@) == snapshot@.take(ri as int).flat_map(f)
                                + match_offsets_upto(data@, target, off as int).map_values(
                                |o: int| region.start + o,
                            ),
                            forall|i: int|
                                0 <= i < results@.len() ==> (#[trigger] results@[i]).value@
                                    == dec_str(target as int),
                            value_str@ == dec_str(target as int),
                            f == (|rd: RegionRead| read_matches(rd, target)),
                        decreases wc - off,
                    {
                        let w = word_from_le(data[off], data[off + 1], data[off + 2], data[off + 3]);
                        proof {
                            assert(w == le_word_at(data@, off as int));
                            assert(snapshot@[ri as int].wf());
                            assert(data@.len() <= region.size);
                        }
                        if w == target {
                            let addr = region.start + off;
                            let ghost prev = results@;
                            results.push(ScanResult { address: addr, value: value_str.clone() });
                            proof {
                                let ghost g = |o: int| region.start + o;
                                let ghost moff = match_offsets_upto(data@, target, off as int);
                                assert(match_offsets_upto(data@, target, off as int + 1)
                                    =~= moff.push(off as int));
                                assert(results@[prev.len() as int].address == addr);
                                assert(result_addresses(results@) =~= result_addresses(prev).push(
                                    addr as int,
                                ));
                                assert(moff.push(off as int).map_values(g) =~= moff.map_values(
                                    g,
                                ).push(g(off as int)));
                                assert(result_addresses(prev) == snapshot@.take(
                                    ri as int,
                                ).flat_map(f) + moff.map_values(g));
                                assert(result_addresses(results@) =~= snapshot@.take(
                                    ri as int,
                                ).flat_map(f) + match_offsets_upto(
                                    data@,
                                    target,
                                    off as int + 1,
                                ).map_values(g));
                                assert(result_addresses(results@) =~= snapshot@.take(
                                    ri as int,
                                ).flat_map(f) + match_offsets_upto(
                                    data@,
                                    target,
                                    off as int + 1,
                                ).map_values(|o: int| region.start + o));
                            }
                        } else {
                            proof {
                                assert(match_offsets_upto(data@, target, off as int + 1)
                                    =~= match_offsets_upto(data@, target, off as int));
                                assert(result_addresses(results@) =~= snapshot@.take(
                                    ri as int,
                                ).flat_map(f) + match_offsets_upto(
                                    data@,
                                    target,
                                    off as int + 1,
                                ).map_values(|o: int| region.start + o));
                            }
                        }
                        off += 1;
                    }
                    proof {
                        assert(match_offsets_upto(data@, target, wc as int) == match_offsets(
                            data@,
                            target,
                        ));
                        snapshot@.lemma_flat_map_take_append(f, ri as int);
                        assert(read_matches(snapshot@[ri as int], target) == match_offsets(
                            data@,
                            target,
                        ).map_values(|off: int| region.start + off));
                        assert(result_addresses(results@) =~= snapshot@.take(
                            ri as int + 1,
                        ).flat_map(f));
                    }
                } else {
                    proof {
                        assert(window_count(data@.len() as int) == 0);
                        assert(match_offsets(data@, target) =~= Seq::<int>::empty());
                        assert(read_matches(snapshot@[ri as int], target) =~= Seq::<int>::empty());
                        snapshot@.lemma_flat_map_take_append(f, ri as int);
                        assert(result_addresses(results@) =~= snapshot@.take(
                            ri as int + 1,
                        ).flat_map(f));
                    }
                }
            },
        }
        ri += 1;
    }
    proof {
        assert(snapshot@.take(snapshot@.len() as int) =~= snapshot@);
    }
    results
}

/// Enumerates every 4-byte window of every successfully read region of
/// a snapshot as an (address, raw word) candidate, ordered by (region
/// enumeration order, ascending offset). The fuzzy scan filters these
/// by reinterpreting each word's bits as a 32-bit float and keeping
/// the candidates within its tolerance of the target; that float step
/// stays with the caller.
pub fn scan_candidates(snapshot: &Vec<RegionRead>) -> (r: Vec<Candidate>)
    requires
        forall|i: int| 0 <= i < snapshot@.len() ==> (#[trigger] snapshot@[i]).wf(),
    ensures
        candidate_views(r@) == snapshot_candidates(snapshot@),
{
    let ghost f = |rd: RegionRead| read_candidates(rd);
    let mut results: Vec<Candidate> = Vec::new();
    let mut ri: usize = 0;
    while ri < snapshot.len()
        invariant
            0 <= ri <= snapshot@.len(),
            forall|i: int| 0 <= i < snapshot@.len() ==> (#[trigger] snapshot@[i]).wf(),
            f == (|rd: RegionRead| read_candidates(rd)),
            candidate_views(results@) == snapshot@.take(ri as int).flat_map(f),
        decreases snapshot@.len() - ri,
    {
        let rd: &RegionRead = &snapshot[ri];
        let region = rd.region;
        match &rd.data {
            None => {
                proof {
                    snapshot@.lemma_flat_map_take_append(f, ri as int);
                    assert(read_candidates(snapshot@[ri as int]) =~= Seq::<(int, u32)>::empty());
                    assert(candidate_views(results@) =~= snapshot@.take(
                        ri as int + 1,
                    ).flat_map(f));
                }
            },
            Some(data) => {
                let len = data.len();
                if len >= 4 {
                    let wc = len - 3;
                    let mut off: usize = 0;
                    while off < wc
                        invariant
                            0 <= off <= wc,
                            wc == len - 3,
                            len == data@.len(),
                            len >= 4,
                            region == snapshot@[ri as int].region,
                            snapshot@[ri as int].data matches Some(d) && d@ == data@,
                            0 <= ri < snapshot@.len(),
                            forall|i: int|
                                0 <= i < snapshot@.len() ==> (#[trigger] snapshot@[i]).wf(),
                            candidate_views(results@) == snapshot@.take(ri as int).flat_map(f)
                                + window_words_upto(data@, off as int).map_values(
                                |w: (int, u32)| (region.start + w.0, w.1),
                            ),
                            f == (|rd: RegionRead| read_candidates(rd)),
                        decreases wc - off,
                    {
                        let w = word_from_le(data[off], data[off + 1], data[off + 2], data[off + 3]);
                        proof {
                            assert(w == le_word_at(data@, off as int));
                            assert(snapshot@[ri as int].wf());
                            assert(data@.len() <= region.size);
                        }
                        let addr = region.start + off;
                        let ghost prev = results@;
                        results.push(Candidate { address: addr, bits: w });
                        proof {
                            let ghost g = |p: (int, u32)| (region.start + p.0, p.1);
                            let ghost words = window_words_upto(data@, off as int);
                            assert(window_words_upto(data@, off as int + 1) =~= words.push(
                                (off as int, le_word_at(data@, off as int)),
                            ));
                            assert(results@[prev.len() as int].address == addr);
                            assert(candidate_views(results@) =~= candidate_views(prev).push(
                                (addr as int, w),
                            ));
                            assert(words.push((off as int, le_word_at(data@, off as int))).map_values(g)
                                =~= words.map_values(g).push(g((off as int, le_word_at(data@, off as int)))));
                            assert(candidate_views(prev) == snapshot@.take(ri as int).flat_map(f)
                                + words.map_values(g));
                            assert(candidate_views(results@) =~= snapshot@.take(
                                ri as int,
                            ).flat_map(f) + window_words_upto(data@, off as int + 1).map_values(g));
                            assert(candidate_views(results@) =~= snapshot@.take(
                                ri as int,
                            ).flat_map(f) + window_words_upto(data@, off as int + 1).map_values(
                                |w: (int, u32)| (region.start + w.0, w.1),
                            ));
                        }
                        off += 1;
                    }
                    proof {
                        assert(window_words_upto(data@, wc as int) == window_words(data@));
                        snapshot@.lemma_flat_map_take_append(f, ri as int);
                        assert(read_candidates(snapshot@[ri as int]) == window_words(
                            data@,
                        ).map_values(|w: (int, u32)| (region.start + w.0, w.1)));
                        assert(candidate_views(results@) =~= snapshot@.take(
                            ri as int + 1,
                        ).flat_map(f));
                    }
                } else {
                    proof {
                        assert(window_count(data@.len() as int) == 0);
                        assert(window_words(data@) =~= Seq::<(int, u32)>::empty());
                        assert(read_candidates(snapshot@[ri as int]) =~= Seq::<(int, u32)>::empty());
                        snapshot@.lemma_flat_map_take_append(f, ri as int);
                        assert(candidate_views(results@) =~= snapshot@.take(
                            ri as int + 1,
                        ).flat_map(f));
                    }
                }
            },
        }
        ri += 1;
    }
    proof {
        assert(snapshot@.take(snapshot@.len() as int) =~= snapshot@);
    }
    results
}

/// Every reported offset lies below `n`, its window holds the target,
/// and the offsets ascend strictly.
pub proof fn lemma_match_offsets_upto_sound(data: Seq<u8>, target: u32, n: int)
    ensures
        forall|k: int|
            0 <= k < match_offsets_upto(data, target, n).len() ==> 0 <= #[trigger] match_offsets_upto(
                data,
                target,
                n,
            )[k] < n && le_word_at(data, match_offsets_upto(data, target, n)[k]) == target,
        forall|k1: int, k2: int|
            0 <= k1 < k2 < match_offsets_upto(data, target, n).len() ==> #[trigger] match_offsets_upto(
                data,
                target,
                n,
            )[k1] < #[trigger] match_offsets_upto(data, target, n)[k2],
    decreases n,
{
    if n > 0 {
        lemma_match_offsets_upto_sound(data, target, n - 1);
        let prefix = match_offsets_upto(data, target, n - 1);
        let whole = match_offsets_upto(data, target, n);
        assert forall|k: int| 0 <= k < whole.len() implies 0 <= #[trigger] whole[k] < n
            && le_word_at(data, whole[k]) == target by {
            if k < prefix.len() {
                assert(whole[k] == prefix[k]);
            } else {
                assert(whole[k] == n - 1);
            }
        }
    }
}

/// Completeness of the window search: any window below `n` whose word
/// is the target is reported.
pub proof fn lemma_match_offsets_upto_complete(data: Seq<u8>, target: u32, k: int, n: int)
    requires
        0 <= k < n,
        le_word_at(data, k) == target,
    ensures
        match_offsets_upto(data, target, n).contains(k),
    decreases n,
{
    let whole = match_offsets_upto(data, target, n);
    if k == n - 1 {
        assert(whole[whole.len() - 1] == k);
    } else {
        lemma_match_offsets_upto_complete(data, target, k, n - 1);
        let prefix = match_offsets_upto(data, target, n - 1);
        let i = choose|i: int| 0 <= i < prefix.len() && prefix[i] == k;
        assert(whole[i] == k);
    }
}

/// The `k`th window pair is exactly (`k`, word at `k`).
pub proof fn lemma_window_words_upto_index(data: Seq<u8>, n: int)
    ensures
        n >= 0 ==> window_words_upto(data, n).len() == n,
        forall|k: int|
            0 <= k < n ==> #[trigger] window_words_upto(data, n)[k] == (k, le_word_at(data, k)),
    decreases n,
{
    if n > 0 {
        lemma_window_words_upto_index(data, n - 1);
        let prefix = window_words_upto(data, n - 1);
        let whole = window_words_upto(data, n);
        assert forall|k: int| 0 <= k < n implies #[trigger] whole[k] == (k, le_word_at(data, k)) by {
            if k < n - 1 {
                assert(whole[k] == prefix[k]);
            }
        }
    }
}

/// An element of one piece is an element of the flattened whole.
proof fn lemma_flat_map_piece_contains<A, B>(s: Seq<A>, f: spec_fn(A) -> Seq<B>, r: int, x: B)
    requires
        0 <= r < s.len(),
        f(s[r]).contains(x),
    ensures
        s.flat_map(f).contains(x),
    decreases s.len(),
{
    reveal(Seq::flat_map);
    assert(s.map_values(f).len() == s.len());
    assert(s.flat_map(f) == s.map_values(f).flatten());
    assert(s.map_values(f).first() == f(s[0]));
    assert(s.map_values(f).flatten() == f(s[0]) + s.map_values(f).drop_first().flatten());
    if r == 0 {
        let piece = f(s[0]);
        let i = choose|i: int| 0 <= i < piece.len() && #[trigger] piece[i] == x;
        assert(s.flat_map(f)[i] == x);
    } else {
        lemma_flat_map_piece_contains(s.drop_first(), f, r - 1, x);
        assert(s.drop_first().map_values(f) =~= s.map_values(f).drop_first());
        let rest = s.drop_first().flat_map(f);
        let i = choose|i: int| 0 <= i < rest.len() && rest[i] == x;
        assert(s.flat_map(f)[f(s[0]).len() + i] == x);
    }
}

/// Concatenating snapshots concatenates their flattened pieces.
proof fn lemma_flat_map_concat<A, B>(a: Seq<A>, b: Seq<A>, f: spec_fn(A) -> Seq<B>)
    ensures
        (a + b).flat_map(f) == a.flat_map(f) + b.flat_map(f),
{
    reveal(Seq::flat_map);
    assert((a + b).map_values(f) =~= a.map_values(f) + b.map_values(f));
    lemma_flatten_concat(a.map_values(f), b.map_values(f));
}

/// Planted-word law: a successfully read region whose bytes hold the
/// little-endian encoding of `target` at offset `k` always yields the
/// match address `region.start + k` — windows are byte-granular, so
/// this holds at unaligned and overlapping offsets alike.
pub proof fn lemma_planted_word_found(snap: Seq<RegionRead>, target: u32, r: int, k: int)
    requires
        0 <= r < snap.len(),
        snap[r].data is Some,
        0 <= k,
        k + 4 <= snap[r].data->0@.len(),
        snap[r].data->0@.subrange(k, k + 4) == crate::codec::le_bytes_of(target),
    ensures
        snapshot_matches(snap, target).contains(snap[r].region.start + k),
{
    let data = snap[r].data->0@;
    crate::codec::lemma_word_matches_bytes(data, k, target);
    let wc = window_count(data.len() as int);
    lemma_match_offsets_upto_complete(data, target, k, wc);
    let offs = match_offsets(data, target);
    let i = choose|i: int| 0 <= i < offs.len() && offs[i] == k;
    let piece = read_matches(snap[r], target);
    assert(piece[i] == snap[r].region.start + k);
    assert(piece.contains(snap[r].region.start + k));
    lemma_flat_map_piece_contains(snap, |rd: RegionRead| read_matches(rd, target), r, snap[r].region.start + k);
}

/// Candidate law: every window of every successfully read region is
/// handed to the fuzzy filter, as the pair of its absolute address and
/// its raw word.
pub proof fn lemma_candidate_present(snap: Seq<RegionRead>, r: int, k: int)
    requires
        0 <= r < snap.len(),
        snap[r].data is Some,
        0 <= k,
        k + 4 <= snap[r].data->0@.len(),
    ensures
        snapshot_candidates(snap).contains(
            (snap[r].region.start + k, le_word_at(snap[r].data->0@, k)),
        ),
{
    let data = snap[r].data->0@;
    let wc = window_count(data.len() as int);
    lemma_window_words_upto_index(data, wc);
    let piece = read_candidates(snap[r]);
    assert(window_words(data)[k] == (k, le_word_at(data, k)));
    assert(piece[k] == (snap[r].region.start + k, le_word_at(data, k)));
    assert(piece.contains((snap[r].region.start + k, le_word_at(data, k))));
    lemma_flat_map_piece_contains(
        snap,
        |rd: RegionRead| read_candidates(rd),
        r,
        (snap[r].region.start + k, le_word_at(data, k)),
    );
}

/// Any element of the flattened whole lies in some piece.
proof fn lemma_flat_map_contains_piece<A, B>(s: Seq<A>, f: spec_fn(A) -> Seq<B>, x: B) -> (r: int)
    requires
        s.flat_map(f).contains(x),
    ensures
        0 <= r < s.len() && f(s[r]).contains(x),
    decreases s.len(),
{
    reveal(Seq::flat_map);
    if s.len() == 0 {
        assert(s.map_values(f) =~= Seq::<Seq<B>>::empty());
        assert(s.flat_map(f) =~= Seq::<B>::empty());
        0
    } else {
        assert(s.map_values(f).first() == f(s[0]));
        assert(s.flat_map(f) == f(s[0]) + s.map_values(f).drop_first().flatten());
        let i = choose|i: int| 0 <= i < s.flat_map(f).len() && #[trigger] s.flat_map(f)[i] == x;
        if i < f(s[0]).len() {
            assert(f(s[0])[i] == x);
            0
        } else {
            assert(s.drop_first().map_values(f) =~= s.map_values(f).drop_first());
            let rest = s.drop_first().flat_map(f);
            assert(rest[i - f(s[0]).len()] == x);
            assert(rest.contains(x));
            let r = lemma_flat_map_contains_piece(s.drop_first(), f, x);
            assert(s.drop_first()[r] == s[r + 1]);
            r + 1
        }
    }
}

/// Coherence of the two scan paths: an address is an exact match for
/// `target` exactly when the candidate windows contain that address
/// paired with `target` itself. A fuzzy filter that keeps precisely
/// the bit-equal words therefore reproduces the exact scan.
pub proof fn lemma_exact_match_iff_candidate(snap: Seq<RegionRead>, target: u32, addr: int)
    ensures
        snapshot_matches(snap, target).contains(addr) <==> snapshot_candidates(snap).contains(
            (addr, target),
        ),
{
    let fm = |rd: RegionRead| read_matches(rd, target);
    let fc = |rd: RegionRead| read_candidates(rd);
    if snapshot_matches(snap, target).contains(addr) {
        let r = lemma_flat_map_contains_piece(snap, fm, addr);
        let d = snap[r].data->0@;
        let offs = match_offsets(d, target);
        let piece = read_matches(snap[r], target);
        let i = choose|i: int| 0 <= i < piece.len() && #[trigger] piece[i] == addr;
        assert(piece[i] == snap[r].region.start + offs[i]);
        let wc = window_count(d.len() as int);
        lemma_match_offsets_upto_sound(d, target, wc);
        assert(0 <= offs[i] < wc && le_word_at(d, offs[i]) == target);
        lemma_candidate_present(snap, r, offs[i]);
    }
    if snapshot_candidates(snap).contains((addr, target)) {
        let r = lemma_flat_map_contains_piece(snap, fc, (addr, target));
        let d = snap[r].data->0@;
        let piece = read_candidates(snap[r]);
        let words = window_words(d);
        let i = choose|i: int| 0 <= i < piece.len() && #[trigger] piece[i] == (addr, target);
        assert(piece[i] == (snap[r].region.start + words[i].0, words[i].1));
        let wc = window_count(d.len() as int);
        lemma_window_words_upto_index(d, wc);
        assert(words[i] == (i, le_word_at(d, i)));
        assert(le_word_at(d, i) == target && snap[r].region.start + i == addr);
        lemma_match_offsets_upto_complete(d, target, i, wc);
        let offs = match_offsets(d, target);
        let k = choose|k: int| 0 <= k < offs.len() && #[trigger] offs[k] == i;
        assert(read_matches(snap[r], target)[k] == addr);
        assert(read_matches(snap[r], target).contains(addr));
        lemma_flat_map_piece_contains(snap, fm, r, addr);
    }
}

/// Exclusion law: a region whose read failed contributes nothing, and
/// leaves the matches of every other region — before and after it —
/// untouched. One unreadable region never aborts the scan of the rest.
pub proof fn lemma_failed_region_excluded(
    pre: Seq<RegionRead>,
    failed: RegionRead,
    post: Seq<RegionRead>,
    target: u32,
)
    requires
        failed.data is None,
    ensures
        snapshot_matches(pre + seq![failed] + post, target) == snapshot_matches(
            pre + post,
            target,
        ),
{
    let f = |rd: RegionRead| read_matches(rd, target);
    lemma_flat_map_concat(pre + seq![failed], post, f);
    lemma_flat_map_concat(pre, seq![failed], f);
    lemma_flat_map_concat(pre, post, f);
    seq![failed].lemma_flat_map_singleton(f);
    assert(f(failed) =~= Seq::<int>::empty());
    assert(snapshot_matches(pre + seq![failed] + post, target) =~= snapshot_matches(
        pre + post,
        target,
    ));
}

/// Ordering law for the fuzzy path: the candidate list is exactly the
/// concatenation of the per-region window lists in region-enumeration
/// order, and within one region the candidate addresses ascend
/// strictly. Any order-preserving filter over the candidates — the
/// tolerance comparison is one — therefore yields results sorted by
/// (region enumeration order, ascending offset).
pub proof fn lemma_candidate_ordering(snap: Seq<RegionRead>)
    ensures
        snapshot_candidates(snap) == Seq::new(
            snap.len(),
            |r: int| read_candidates(snap[r]),
        ).flatten(),
        forall|r: int, k1: int, k2: int|
            0 <= r < snap.len() && 0 <= k1 < k2 < read_candidates(snap[r]).len()
                ==> (#[trigger] read_candidates(snap[r])[k1]).0 < (#[trigger] read_candidates(
                snap[r],
            )[k2]).0,
{
    reveal(Seq::flat_map);
    let f = |rd: RegionRead| read_candidates(rd);
    assert(snap.map_values(f) =~= Seq::new(snap.len(), |r: int| read_candidates(snap[r])));
    assert forall|r: int, k1: int, k2: int|
        0 <= r < snap.len() && 0 <= k1 < k2 < read_candidates(snap[r]).len()
            implies (#[trigger] read_candidates(snap[r])[k1]).0 < (#[trigger] read_candidates(
        snap[r],
    )[k2]).0 by {
        match snap[r].data {
            Some(d) => {
                let wc = window_count(d@.len() as int);
                lemma_window_words_upto_index(d@, wc);
                let words = window_words(d@);
                assert(read_candidates(snap[r])[k1] == (snap[r].region.start + words[k1].0, words[k1].1));
                assert(read_candidates(snap[r])[k2] == (snap[r].region.start + words[k2].0, words[k2].1));
                assert(words[k1] == (k1, le_word_at(d@, k1)));
                assert(words[k2] == (k2, le_word_at(d@, k2)));
            },
            None => {},
        }
    }
}

/// Ordering law: the match list is exactly the concatenation of the
/// per-region match lists in region-enumeration order, and within one
/// region the match addresses ascend strictly.
pub proof fn lemma_scan_ordering(snap: Seq<RegionRead>, target: u32)
    ensures
        snapshot_matches(snap, target) == Seq::new(
            snap.len(),
            |r: int| read_matches(snap[r], target),
        ).flatten(),
        forall|r: int, k1: int, k2: int|
            0 <= r < snap.len() && 0 <= k1 < k2 < read_matches(snap[r], target).len()
                ==> #[trigger] read_matches(snap[r], target)[k1] < #[trigger] read_matches(
                snap[r],
                target,
            )[k2],
{
    reveal(Seq::flat_map);
    let f = |rd: RegionRead| read_matches(rd, target);
    assert(snap.map_values(f) =~= Seq::new(snap.len(), |r: int| read_matches(snap[r], target)));
    assert forall|r: int, k1: int, k2: int|
        0 <= r < snap.len() && 0 <= k1 < k2 < read_matches(snap[r], target).len()
            implies #[trigger] read_matches(snap[r], target)[k1] < #[trigger] read_matches(
        snap[r],
        target,
    )[k2] by {
        match snap[r].data {
            Some(d) => {
                lemma_match_offsets_upto_sound(d@, target, window_count(d@.len() as int));
                let offs = match_offsets(d@, target);
                assert(read_matches(snap[r], target)[k1] == snap[r].region.start + offs[k1]);
                assert(read_matches(snap[r], target)[k2] == snap[r].region.start + offs[k2]);
            },
            None => {},
        }
    }
}

} // verus!
