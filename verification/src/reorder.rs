//! Reordering / jitter engine: one per client session on the server.
//!
//! The network may reorder datagrams; this engine restores strictly
//! increasing sequence order with no gaps.  Arriving payloads are
//! buffered by sequence number; whenever the next expected sequence is
//! buffered, a maximal consecutive run is released for delivery and the
//! expectation advances.  There is no timeout-based flush: a missing
//! sequence blocks delivery of later sequences until it arrives.

use vstd::prelude::*;

verus! {

/// The sequence of payloads the drain loop releases from `buf` starting
/// at expectation `next`, with the buffer and expectation it leaves
/// behind: payloads for `next`, `next + 1`, … are removed and released
/// until a sequence is missing.
pub open spec fn drain_model(buf: Map<u64, Seq<u8>>, next: u64) -> (Map<u64, Seq<u8>>, u64, Seq<
    Seq<u8>,
>)
    decreases buf.dom().len(),
    when buf.dom().finite()
{
    if buf.dom().contains(next) {
        let rest = drain_model(buf.remove(next), next.wrapping_add(1));
        (rest.0, rest.1, seq![buf[next]] + rest.2)
    } else {
        (buf, next, Seq::empty())
    }
}

/// One data arrival as the model sees it: buffer the payload, fix the
/// expectation on first arrival, then drain.
pub open spec fn accept_model(
    buf: Map<u64, Seq<u8>>,
    next: Option<u64>,
    seq: u64,
    payload: Seq<u8>,
) -> (Map<u64, Seq<u8>>, u64, Seq<Seq<u8>>) {
    let buf1 = buf.insert(seq, payload);
    let start = if next is Some {
        next.unwrap()
    } else {
        seq
    };
    drain_model(buf1, start)
}

/// The key-payload map a sequence of buffered entries denotes.
pub open spec fn map_of(s: Seq<(u64, Vec<u8>)>) -> Map<u64, Seq<u8>>
    decreases s.len(),
{
    if s.len() == 0 {
        Map::empty()
    } else {
        map_of(s.drop_last()).insert(s.last().0, s.last().1@)
    }
}

/// Whether no sequence number appears twice among the entries.
pub open spec fn unique_keys(s: Seq<(u64, Vec<u8>)>) -> bool {
    forall|i: int, j: int| 0 <= i < j < s.len() ==> s[i].0 != s[j].0
}

/// What `map_of` holds: a finite map, one key per entry, each key bound
/// to its entry's payload.
proof fn lemma_map_of_char(s: Seq<(u64, Vec<u8>)>)
    requires
        unique_keys(s),
    ensures
        map_of(s).dom().finite(),
        map_of(s).dom().len() == s.len(),
        forall|k: u64|
            map_of(s).dom().contains(k) <==> exists|i: int| 0 <= i < s.len() && s[i].0 == k,
        forall|i: int|
            0 <= i < s.len() ==> map_of(s).dom().contains(#[trigger] s[i].0) && map_of(s)[s[i].0]
                == s[i].1@,
    decreases s.len(),
{
    if s.len() > 0 {
        let d = s.drop_last();
        assert(unique_keys(d)) by {
            assert(forall|i: int| 0 <= i < d.len() ==> d[i] == s[i]);
        }
        lemma_map_of_char(d);
        assert(!map_of(d).dom().contains(s.last().0)) by {
            if map_of(d).dom().contains(s.last().0) {
                let i = choose|i: int| 0 <= i < d.len() && d[i].0 == s.last().0;
                assert(s[i] == d[i]);
                assert(s[i].0 != s[s.len() - 1].0);
            }
        }
        assert forall|i: int| 0 <= i < s.len() implies map_of(s).dom().contains(
            #[trigger] s[i].0,
        ) && map_of(s)[s[i].0] == s[i].1@ by {
            if i < s.len() - 1 {
                assert(d[i] == s[i]);
                assert(s[i].0 != s.last().0);
            }
        }
        assert forall|k: u64|
            map_of(s).dom().contains(k) implies exists|i: int|
            0 <= i < s.len() && s[i].0 == k by {
            if k == s.last().0 {
                assert(s[s.len() - 1].0 == k);
            } else {
                let i = choose|i: int| 0 <= i < d.len() && d[i].0 == k;
                assert(s[i] == d[i]);
            }
        }
    }
}

/// Run the engine model over a whole sequence of arrivals, collecting
/// the released payloads in order.
pub open spec fn run_model(
    buf: Map<u64, Seq<u8>>,
    next: Option<u64>,
    inputs: Seq<(u64, Seq<u8>)>,
) -> (Map<u64, Seq<u8>>, Option<u64>, Seq<Seq<u8>>)
    decreases inputs.len(),
{
    if inputs.len() == 0 {
        (buf, next, Seq::empty())
    } else {
        let t = accept_model(buf, next, inputs[0].0, inputs[0].1);
        let rest = run_model(t.0, Some(t.1), inputs.drop_first());
        (rest.0, rest.1, t.2 + rest.2)
    }
}

/// The payload an input sequence carries for a given sequence number.
pub open spec fn payload_at(inputs: Seq<(u64, Seq<u8>)>, k: int) -> Seq<u8> {
    inputs[choose|i: int| 0 <= i < inputs.len() && inputs[i].0 == k].1
}

/// The first sequence number at or after `from` (and at most `end`)
/// that `seen` does not contain.
spec fn frontier(seen: Set<u64>, from: int, end: int) -> int
    decreases end - from,
    when from <= end
{
    if from >= end {
        end
    } else if !seen.contains(from as u64) {
        from
    } else {
        frontier(seen, from + 1, end)
    }
}

/// What `frontier` finds: everything before it is seen, and it is
/// either unseen or the end of the range.
proof fn lemma_frontier_props(seen: Set<u64>, from: int, end: int)
    requires
        from <= end,
    ensures
        from <= frontier(seen, from, end) <= end,
        forall|k: int| from <= k < frontier(seen, from, end) ==> seen.contains(#[trigger] (k as u64)),
        frontier(seen, from, end) < end ==> !seen.contains(frontier(seen, from, end) as u64),
    decreases end - from,
{
    if from < end && seen.contains(from as u64) {
        lemma_frontier_props(seen, from + 1, end);
    }
}

/// What one drain pass does to a buffer whose domain is the seen
/// sequence numbers at or after `next`: it releases exactly the
/// payloads of the consecutive run from `next` up to the frontier `e`,
/// and leaves the entries at or after `e`.
#[verifier::spinoff_prover]
proof fn lemma_drain_run(
    buf: Map<u64, Seq<u8>>,
    next: u64,
    e: int,
    s: u64,
    n: int,
    seen: Set<u64>,
    pay: spec_fn(u64) -> Seq<u8>,
)
    requires
        0 <= n,
        s + n <= u64::MAX,
        s <= next <= e <= s + n,
        buf.dom().finite(),
        forall|k: u64| seen.contains(k) ==> s <= k < s + n,
        forall|k: u64| #[trigger] buf.dom().contains(k) <==> (seen.contains(k) && next <= k),
        forall|k: u64| #[trigger] buf.dom().contains(k) ==> buf[k] == pay(k),
        forall|k: int| next <= k < e ==> seen.contains(#[trigger] (k as u64)),
        e < s + n ==> !seen.contains(e as u64),
    ensures
        ({
            let r = drain_model(buf, next);
            &&& r.0.dom().finite()
            &&& (forall|k: u64| #[trigger] r.0.dom().contains(k) <==> (seen.contains(k) && e
                <= k))
            &&& (forall|k: u64| #[trigger] r.0.dom().contains(k) ==> r.0[k] == pay(k))
            &&& r.1 == e as u64
            &&& r.2 =~= Seq::new((e - next) as nat, |j: int| pay((next + j) as u64))
        }),
    decreases e - next,
{
    let r = drain_model(buf, next);
    if e == next {
        assert(!buf.dom().contains(next)) by {
            if e < s + n {
                assert(!seen.contains(e as u64));
            } else {
                if seen.contains(next) {
                    assert(s <= next < s + n);
                }
            }
        }
        assert(r == (buf, next, Seq::<Seq<u8>>::empty()));
        assert(r.2 =~= Seq::new((e - next) as nat, |j: int| pay((next + j) as u64)));
    } else {
        assert(seen.contains(next)) by {
            assert(seen.contains(((next as int) as u64)));
        }
        assert(buf.dom().contains(next));
        let buf2 = buf.remove(next);
        let next2 = next.wrapping_add(1);
        assert(next2 == next + 1);
        assert forall|k: u64| buf2.dom().contains(k) implies (seen.contains(k) && next2
            <= k) by {
            assert(buf.dom().contains(k));
            assert(k != next);
        }
        assert forall|k: u64| seen.contains(k) && next2 <= k implies buf2.dom().contains(k) by {
            assert(next <= k);
            assert(buf.dom().contains(k));
            assert(k != next);
        }
        assert(forall|k: u64|
            #[trigger] buf2.dom().contains(k) <==> (seen.contains(k) && next2 <= k));
        lemma_drain_run(buf2, next2, e, s, n, seen, pay);
        let rest = drain_model(buf2, next2);
        assert(r == (rest.0, rest.1, seq![buf[next]] + rest.2));
        assert(buf[next] == pay(next));
        assert(r.2 =~= Seq::new((e - next) as nat, |j: int| pay((next + j) as u64))) by {
            let whole = Seq::new((e - next) as nat, |j: int| pay((next + j) as u64));
            assert(r.2.len() == 1 + rest.2.len());
            assert(rest.2.len() == e - next2);
            assert forall|j: int| 0 <= j < whole.len() implies r.2[j] == whole[j] by {
                if j == 0 {
                    assert(r.2[0] == pay(next));
                    assert(whole[0] == pay((next + 0) as u64));
                } else {
                    assert(r.2[j] == rest.2[j - 1]);
                    assert(rest.2[j - 1] == pay((next2 + (j - 1)) as u64));
                }
            }
        }
    }
}

/// The main induction behind the total-order law: running the model
/// from a state whose buffer holds the seen-but-not-yet-released
/// payloads delivers, once every sequence number of the range has
/// arrived, all remaining payloads in increasing sequence order.
#[verifier::spinoff_prover]
proof fn lemma_run_general(
    buf: Map<u64, Seq<u8>>,
    next: u64,
    inputs: Seq<(u64, Seq<u8>)>,
    s: u64,
    n: int,
    seen: Set<u64>,
    pay: spec_fn(u64) -> Seq<u8>,
)
    requires
        0 <= n,
        s + n <= u64::MAX,
        s <= next <= s + n,
        buf.dom().finite(),
        forall|k: u64| seen.contains(k) ==> s <= k < s + n,
        forall|k: int| s <= k < next ==> seen.contains(#[trigger] (k as u64)),
        next < s + n ==> !seen.contains(next),
        forall|k: u64| #[trigger] buf.dom().contains(k) <==> (seen.contains(k) && next <= k),
        forall|k: u64| #[trigger] buf.dom().contains(k) ==> buf[k] == pay(k),
        forall|i: int| 0 <= i < inputs.len() ==> s <= #[trigger] inputs[i].0 < s + n,
        forall|i: int| 0 <= i < inputs.len() ==> !seen.contains(#[trigger] inputs[i].0),
        forall|i: int, j: int| 0 <= i < j < inputs.len() ==> inputs[i].0 != inputs[j].0,
        forall|i: int| 0 <= i < inputs.len() ==> (#[trigger] inputs[i]).1 == pay(inputs[i].0),
        forall|k: int|
            s <= k < s + n ==> (seen.contains(#[trigger] (k as u64)) || exists|i: int|
                0 <= i < inputs.len() && inputs[i].0 == k),
    ensures
        ({
            let r = run_model(buf, Some(next), inputs);
            &&& r.1 == Some((s + n) as u64)
            &&& r.0.dom() =~= Set::<u64>::empty()
            &&& r.2 =~= Seq::new((s + n - next) as nat, |j: int| pay((next + j) as u64))
        }),
    decreases inputs.len(),
{
    let r = run_model(buf, Some(next), inputs);
    if inputs.len() == 0 {
        assert(next == s + n) by {
            if next < s + n {
                assert(seen.contains(next) || exists|i: int|
                    0 <= i < inputs.len() && #[trigger] inputs[i].0 == next as int);
            }
        }
        assert(r == (buf, Some(next), Seq::<Seq<u8>>::empty()));
        assert forall|k: u64| !buf.dom().contains(k) by {
            if buf.dom().contains(k) {
                assert(seen.contains(k) && next <= k);
            }
        }
        assert(buf.dom() =~= Set::<u64>::empty());
        assert(r.2 =~= Seq::new((s + n - next) as nat, |j: int| pay((next + j) as u64)));
    } else {
        let q = inputs[0].0;
        let p = inputs[0].1;
        let t = accept_model(buf, Some(next), q, p);
        let buf1 = buf.insert(q, p);
        assert(t == drain_model(buf1, next));
        assert(next <= q) by {
            if q < next {
                assert(seen.contains(((q as int) as u64)));
                assert(seen.contains(q));
            }
        }
        let seen1 = seen.insert(q);
        assert forall|k: u64| buf1.dom().contains(k) <==> (seen1.contains(k) && next <= k) by {
            if buf1.dom().contains(k) {
                if k == q {
                } else {
                    assert(buf.dom().contains(k));
                }
            }
            if seen1.contains(k) && next <= k {
                if k != q {
                    assert(buf.dom().contains(k));
                }
            }
        }
        let e = frontier(seen1, next as int, s + n);
        lemma_frontier_props(seen1, next as int, s + n);
        lemma_drain_run(buf1, next, e, s, n, seen1, pay);
        let rest_inputs = inputs.drop_first();
        assert forall|k: int|
            s <= k < s + n implies (seen1.contains(#[trigger] (k as u64)) || exists|i: int|
            0 <= i < rest_inputs.len() && rest_inputs[i].0 == k) by {
            if !seen1.contains(k as u64) {
                assert(seen.contains(k as u64) || exists|i: int|
                    0 <= i < inputs.len() && inputs[i].0 == k);
                let i = choose|i: int| 0 <= i < inputs.len() && inputs[i].0 == k;
                assert(i != 0);
                assert(rest_inputs[i - 1] == inputs[i]);
                assert(rest_inputs[i - 1].0 == k);
            }
        }
        assert forall|i: int| 0 <= i < rest_inputs.len() implies !seen1.contains(
            #[trigger] rest_inputs[i].0,
        ) by {
            assert(rest_inputs[i] == inputs[i + 1]);
            assert(inputs[i + 1].0 != q);
        }
        assert forall|i: int| 0 <= i < rest_inputs.len() implies s <= #[trigger] rest_inputs[i].0
            < s + n && rest_inputs[i].1 == pay(rest_inputs[i].0) by {
            assert(rest_inputs[i] == inputs[i + 1]);
        }
        assert forall|i: int, j: int|
            0 <= i < j < rest_inputs.len() implies rest_inputs[i].0 != rest_inputs[j].0 by {
            assert(rest_inputs[i] == inputs[i + 1]);
            assert(rest_inputs[j] == inputs[j + 1]);
        }
        assert(e < s + n ==> !seen1.contains(e as u64));
        assert(forall|k: int| s <= k < e ==> seen1.contains(#[trigger] (k as u64))) by {
            assert(forall|k: int| s <= k < next ==> seen.contains(#[trigger] (k as u64)));
            assert(forall|k: int| next <= k < e ==> seen1.contains(#[trigger] (k as u64)));
        }
        lemma_run_general(t.0, e as u64, rest_inputs, s, n, seen1, pay);
        let rest = run_model(t.0, Some(e as u64), rest_inputs);
        assert(r == (rest.0, rest.1, t.2 + rest.2));
        assert(r.2 =~= Seq::new((s + n - next) as nat, |j: int| pay((next + j) as u64))) by {
            let whole = Seq::new((s + n - next) as nat, |j: int| pay((next + j) as u64));
            assert(t.2.len() == e - next);
            assert(rest.2.len() == s + n - e);
            assert forall|j: int| 0 <= j < whole.len() implies r.2[j] == whole[j] by {
                if j < e - next {
                    assert(r.2[j] == t.2[j]);
                    assert(t.2[j] == pay((next + j) as u64));
                } else {
                    assert(r.2[j] == rest.2[j - (e - next)]);
                    assert(rest.2[j - (e - next)] == pay((e + (j - (e - next))) as u64));
                }
            }
        }
    }
}

/// The payload of the input that carries a given sequence number is
/// unambiguous when the sequence numbers are distinct.
proof fn lemma_payload_at(inputs: Seq<(u64, Seq<u8>)>, i: int)
    requires
        0 <= i < inputs.len(),
        forall|a: int, b: int| 0 <= a < b < inputs.len() ==> inputs[a].0 != inputs[b].0,
    ensures
        payload_at(inputs, inputs[i].0 as int) == inputs[i].1,
{
    assert(inputs[i].0 == inputs[i].0 as int);
    let j = choose|j: int| 0 <= j < inputs.len() && inputs[j].0 == inputs[i].0 as int;
    if j != i {
        assert(inputs[j].0 == inputs[i].0);
        assert(false);
    }
}

/// Total order of the reordering engine: feed an empty engine any
/// permutation of payloads carrying the contiguous sequence numbers
/// `s`, `s + 1`, …, with the arrival that carries `s` first, and the
/// released payloads are exactly those payloads, in sequence order,
/// with nothing left buffered.  (An arrival order whose first sequence
/// is not the smallest fixes the expectation above the smallest, which
/// then stays buffered forever: the engine refuses to reorder across a
/// gap below its expectation.)
pub proof fn lemma_reorder_total_order(inputs: Seq<(u64, Seq<u8>)>, s: u64)
    requires
        inputs.len() >= 1,
        s + inputs.len() <= u64::MAX,
        forall|i: int| 0 <= i < inputs.len() ==> s <= #[trigger] inputs[i].0 < s + inputs.len(),
        forall|i: int, j: int| 0 <= i < j < inputs.len() ==> inputs[i].0 != inputs[j].0,
        inputs[0].0 == s,
    ensures
        ({
            let r = run_model(Map::empty(), None, inputs);
            &&& r.1 == Some((s + inputs.len()) as u64)
            &&& r.0.dom() =~= Set::<u64>::empty()
            &&& r.2 =~= Seq::new(inputs.len(), |j: int| payload_at(inputs, s + j))
        }),
{
    let n = inputs.len() as int;
    let pay = |k: u64| payload_at(inputs, k as int);
    let r = run_model(Map::<u64, Seq<u8>>::empty(), None, inputs);
    let p0 = inputs[0].1;
    let t = accept_model(Map::<u64, Seq<u8>>::empty(), None, s, p0);
    let buf1 = Map::<u64, Seq<u8>>::empty().insert(s, p0);
    assert(t == drain_model(buf1, s));
    let seen1 = Set::<u64>::empty().insert(s);
    assert forall|k: u64| buf1.dom().contains(k) <==> (seen1.contains(k) && s <= k) by {}
    let e = frontier(seen1, s as int, s + n);
    lemma_frontier_props(seen1, s as int, s + n);
    assert(buf1[s] == pay(s)) by {
        lemma_payload_at(inputs, 0);
    }
    assert forall|k: u64| buf1.dom().contains(k) implies buf1[k] == pay(k) by {
        assert(k == s);
    }
    lemma_drain_run(buf1, s, e, s, n, seen1, pay);
    let rest_inputs = inputs.drop_first();
    assert forall|i: int| 0 <= i < rest_inputs.len() implies s <= #[trigger] rest_inputs[i].0 < s
        + n && rest_inputs[i].1 == pay(rest_inputs[i].0) && !seen1.contains(rest_inputs[i].0) by {
        assert(rest_inputs[i] == inputs[i + 1]);
        assert(inputs[i + 1].0 != inputs[0].0);
        lemma_payload_at(inputs, i + 1);
    }
    assert forall|i: int, j: int|
        0 <= i < j < rest_inputs.len() implies rest_inputs[i].0 != rest_inputs[j].0 by {
        assert(rest_inputs[i] == inputs[i + 1]);
        assert(rest_inputs[j] == inputs[j + 1]);
    }
    assert forall|k: int|
        s <= k < s + n implies (seen1.contains(#[trigger] (k as u64)) || exists|i: int|
        0 <= i < rest_inputs.len() && rest_inputs[i].0 == k) by {
        if !seen1.contains(k as u64) {
            assert(k != s);
            lemma_contiguous_cover(inputs, s, k);
            let i = choose|i: int| 0 <= i < inputs.len() && #[trigger] inputs[i].0 == k;
            assert(i != 0);
            assert(rest_inputs[i - 1] == inputs[i]);
            assert(rest_inputs[i - 1].0 == k);
        }
    }
    lemma_run_general(t.0, e as u64, rest_inputs, s, n, seen1, pay);
    let rest = run_model(t.0, Some(e as u64), rest_inputs);
    assert(r == (rest.0, rest.1, t.2 + rest.2));
    assert(r.2 =~= Seq::new(inputs.len(), |j: int| payload_at(inputs, s + j))) by {
        let whole = Seq::new(inputs.len(), |j: int| payload_at(inputs, s + j));
        assert(t.2.len() == e - s);
        assert(rest.2.len() == s + n - e);
        assert forall|j: int| 0 <= j < whole.len() implies r.2[j] == whole[j] by {
            if j < e - s {
                assert(r.2[j] == t.2[j]);
                assert(t.2[j] == pay((s + j) as u64));
                assert((s + j) as u64 == s + j);
            } else {
                assert(r.2[j] == rest.2[j - (e - s)]);
                assert(rest.2[j - (e - s)] == pay((e + (j - (e - s))) as u64));
                assert((e + (j - (e - s))) as u64 == s + j);
            }
            assert(whole[j] == payload_at(inputs, s + j));
        }
    }
}

/// Distinct sequence numbers confined to a range of the inputs' own
/// size cover the whole range.
proof fn lemma_contiguous_cover(inputs: Seq<(u64, Seq<u8>)>, s: u64, m: int)
    requires
        s + inputs.len() <= u64::MAX,
        forall|i: int| 0 <= i < inputs.len() ==> s <= #[trigger] inputs[i].0 < s + inputs.len(),
        forall|i: int, j: int| 0 <= i < j < inputs.len() ==> inputs[i].0 != inputs[j].0,
        s <= m < s + inputs.len(),
    ensures
        exists|i: int| 0 <= i < inputs.len() && #[trigger] inputs[i].0 == m,
{
    let n = inputs.len();
    let keys = Seq::new(n, |i: int| inputs[i].0);
    let key_set = keys.to_set();
    let range = Set::new(|k: u64| s <= k < s + n);
    assert(keys.no_duplicates()) by {
        assert forall|i: int, j: int|
            0 <= i < keys.len() && 0 <= j < keys.len() && i != j implies keys[i] != keys[j] by {
            if i < j {
                assert(inputs[i].0 != inputs[j].0);
            } else {
                assert(inputs[j].0 != inputs[i].0);
            }
        }
    }
    keys.unique_seq_to_set();
    assert(key_set.len() == n);
    assert(key_set.subset_of(range)) by {
        assert forall|k: u64| key_set.contains(k) implies range.contains(k) by {
            let i = choose|i: int| 0 <= i < keys.len() && keys[i] == k;
            assert(inputs[i].0 == k);
        }
    }
    assert(range.finite() && range.len() == n) by {
        lemma_u64_range_len(s, n as int);
    }
    if !key_set.contains(m as u64) {
        assert(key_set.insert(m as u64).subset_of(range));
        assert(key_set.insert(m as u64).len() == n + 1) by {
            broadcast use vstd::set::axiom_set_insert_len;

        }
        vstd::set_lib::lemma_len_subset(key_set.insert(m as u64), range);
        assert(false);
    }
    let i = choose|i: int| 0 <= i < keys.len() && keys[i] == m as u64;
    assert(inputs[i].0 == m);
}

/// A half-open range of 64-bit values is finite, with its width as its
/// size.
proof fn lemma_u64_range_len(s: u64, n: int)
    requires
        0 <= n,
        s + n <= u64::MAX + 1,
    ensures
        Set::new(|k: u64| s <= k < s + n).finite(),
        Set::new(|k: u64| s <= k < s + n).len() == n,
    decreases n,
{
    let range = Set::new(|k: u64| s <= k < s + n);
    if n == 0 {
        assert(range =~= Set::<u64>::empty());
    } else {
        lemma_u64_range_len(s, n - 1);
        let prev = Set::new(|k: u64| s <= k < s + (n - 1));
        let last = (s + (n - 1)) as u64;
        assert(range =~= prev.insert(last));
        assert(!prev.contains(last));
        broadcast use vstd::set::axiom_set_insert_len;

    }
}

/// Per-client reordering state: the jitter buffer and the next expected
/// sequence number.
#[derive(Debug)]
pub struct ReorderEngine {
    /// Buffered payloads awaiting delivery, keyed by sequence number.
    pub entries: Vec<(u64, Vec<u8>)>,
    /// The sequence to deliver next; unset until the first data packet.
    pub next_seq: Option<u64>,
}

impl ReorderEngine {
    /// The invariant: one buffered payload per sequence number, and the
    /// buffer only fills once the expectation is set.
    pub open spec fn wf(self) -> bool {
        &&& unique_keys(self.entries@)
        &&& (self.next_seq is None ==> self.entries@.len() == 0)
    }

    /// The buffered payloads as a map from sequence number to payload.
    pub open spec fn buf(self) -> Map<u64, Seq<u8>> {
        map_of(self.entries@)
    }

    /// An empty engine with the expectation unset.
    pub fn new() -> (r: Self)
        ensures
            r.wf(),
            r.entries@.len() == 0,
            r.buf() =~= Map::empty(),
            r.next_seq is None,
    {
        ReorderEngine { entries: Vec::new(), next_seq: None }
    }

    /// Remove and return the payload buffered for `seq`, if any.
    fn take_entry(&mut self, seq: u64) -> (r: Option<Vec<u8>>)
        requires
            unique_keys(old(self).entries@),
        ensures
            unique_keys(final(self).entries@),
            final(self).next_seq == old(self).next_seq,
            r is Some <==> old(self).buf().dom().contains(seq),
            r is Some ==> r.unwrap()@ == old(self).buf()[seq] && final(self).buf()
                =~= old(self).buf().remove(seq) && final(self).entries@.len() + 1 == old(
                self,
            ).entries@.len(),
            r is None ==> *final(self) == *old(self),
    {
        proof {
            lemma_map_of_char(self.entries@);
        }
        let n = self.entries.len();
        let mut i: usize = 0;
        let mut found = false;
        let mut at: usize = 0;
        while i < n && !found
            invariant
                n == self.entries@.len(),
                0 <= i <= n,
                !found ==> forall|k: int| 0 <= k < i ==> self.entries@[k].0 != seq,
                found ==> i < n && self.entries@[i as int].0 == seq && at == i,
            decreases n - i + (if found { 0int } else { 1int }),
        {
            if self.entries[i].0 == seq {
                found = true;
                at = i;
            } else {
                i = i + 1;
            }
        }
        if !found {
            proof {
                if self.buf().dom().contains(seq) {
                    let k = choose|k: int|
                        0 <= k < self.entries@.len() && self.entries@[k].0 == seq;
                    assert(false);
                }
            }
            return None;
        }
        let ghost before = self.entries@;
        let (_k, payload) = self.entries.remove(at);
        proof {
            let after = self.entries@;
            assert forall|i2: int, j2: int| 0 <= i2 < j2 < after.len() implies after[i2].0
                != after[j2].0 by {
                let oi = if i2 < at as int { i2 } else { i2 + 1 };
                let oj = if j2 < at as int { j2 } else { j2 + 1 };
                assert(after[i2] == before[oi] && after[j2] == before[oj]);
            }
            lemma_map_of_char(after);
            assert forall|q: u64| #[trigger]
                map_of(after).dom().contains(q) implies map_of(before).dom().contains(q) && q
                != seq by {
                let k = choose|k: int| 0 <= k < after.len() && after[k].0 == q;
                let oi = if k < at as int { k } else { k + 1 };
                assert(before[oi] == after[k]);
                if oi != at as int {
                    assert(before[oi].0 != before[at as int].0);
                }
            }
            assert forall|q: u64|
                map_of(before).dom().contains(q) && q != seq implies map_of(after).dom().contains(
                    q,
                ) && map_of(after)[q] == map_of(before)[q] by {
                let k = choose|k: int| 0 <= k < before.len() && before[k].0 == q;
                let k2 = if k < at as int { k } else { k - 1 };
                assert(after[k2] == before[k]);
                assert(map_of(after)[after[k2].0] == after[k2].1@);
                assert(map_of(before)[before[k].0] == before[k].1@);
            }
            assert(map_of(after) =~= map_of(before).remove(seq));
            assert(payload@ == before[at as int].1@);
            assert(map_of(before)[seq] == before[at as int].1@);
        }
        Some(payload)
    }

    /// Buffer a payload under its sequence number, replacing any payload
    /// already buffered for it.
    fn put_entry(&mut self, seq: u64, payload: Vec<u8>)
        requires
            unique_keys(old(self).entries@),
        ensures
            unique_keys(final(self).entries@),
            final(self).next_seq == old(self).next_seq,
            final(self).buf() =~= old(self).buf().insert(seq, payload@),
            final(self).entries@.len() >= 1,
    {
        proof {
            lemma_map_of_char(self.entries@);
        }
        let replaced = match self.take_entry(seq) {
            Some(_) => true,
            None => false,
        };
        let ghost mid = self.entries@;
        self.entries.push((seq, payload));
        proof {
            let after = self.entries@;
            assert(after.drop_last() =~= mid);
            assert(after.last() == (seq, payload));
            assert(map_of(after) == map_of(mid).insert(seq, payload@));
            assert forall|i2: int, j2: int| 0 <= i2 < j2 < after.len() implies after[i2].0
                != after[j2].0 by {
                lemma_map_of_char(mid);
                if j2 == after.len() - 1 {
                    assert(after[i2] == mid[i2]);
                    assert(mid[i2].0 == after[i2].0);
                    if after[i2].0 == seq {
                        assert(map_of(mid).dom().contains(seq));
                    }
                } else {
                    assert(after[i2] == mid[i2] && after[j2] == mid[j2]);
                }
            }
            if replaced {
                assert(map_of(mid) =~= map_of(old(self).entries@).remove(seq));
                assert(map_of(after) =~= map_of(old(self).entries@).insert(seq, payload@));
            } else {
                assert(map_of(after) =~= map_of(old(self).entries@).insert(seq, payload@));
            }
        }
    }

    /// One data arrival: buffer the payload, set the
    /// expectation on first arrival, then release the maximal consecutive
    /// run starting at the expectation, advancing it past the run.  The
    /// released payloads are in strictly increasing, gap-free sequence
    /// order; anything out of order stays buffered.
    pub fn accept(&mut self, seq: u64, payload: Vec<u8>) -> (out: Vec<Vec<u8>>)
        requires
            old(self).wf(),
        ensures
            final(self).wf(),
            ({
                let t = accept_model(old(self).buf(), old(self).next_seq, seq, payload@);
                &&& final(self).buf() == t.0
                &&& final(self).next_seq == Some(t.1)
                &&& out.deep_view() == t.2
            }),
    {
        proof {
            lemma_map_of_char(self.entries@);
        }
        let start = match self.next_seq {
            Some(n) => n,
            None => seq,
        };
        self.put_entry(seq, payload);
        let ghost buf1 = self.buf();
        let ghost target = drain_model(buf1, start);
        proof {
            lemma_map_of_char(self.entries@);
        }
        let mut next = start;
        let mut out: Vec<Vec<u8>> = Vec::new();
        let mut going = true;
        while going
            invariant
                unique_keys(self.entries@),
                self.buf().dom().finite(),
                going ==> {
                    let d = drain_model(self.buf(), next);
                    &&& target.0 == d.0
                    &&& target.1 == d.1
                    &&& target.2 == out.deep_view() + d.2
                },
                !going ==> target.0 == self.buf() && target.1 == next && target.2
                    == out.deep_view(),
                self.next_seq == old(self).next_seq,
            decreases self.entries@.len() + (if going { 1int } else { 0int }),
        {
            proof {
                lemma_map_of_char(self.entries@);
            }
            let ghost pre = self.buf();
            match self.take_entry(next) {
                Some(p) => {
                    proof {
                        let d = drain_model(pre, next);
                        assert(pre.dom().contains(next));
                        assert(d == {
                            let rest = drain_model(pre.remove(next), next.wrapping_add(1));
                            (rest.0, rest.1, seq![pre[next]] + rest.2)
                        });
                        assert(self.buf() =~= pre.remove(next));
                    }
                    out.push(p);
                    proof {
                        let d2 = drain_model(self.buf(), next.wrapping_add(1));
                        assert(target.2 == out.deep_view() + d2.2) by {
                            let prev_out = out.deep_view().drop_last();
                            assert(out.deep_view().last() == p@);
                            assert(prev_out.push(p@) =~= out.deep_view());
                            assert(target.2 == prev_out + (seq![pre[next]] + d2.2));
                            assert(p@ == pre[next]);
                            assert(prev_out + (seq![pre[next]] + d2.2) =~= (prev_out.push(
                                pre[next],
                            )) + d2.2);
                        }
                    }
                    next = next.wrapping_add(1);
                },
                None => {
                    proof {
                        let d = drain_model(pre, next);
                        assert(!pre.dom().contains(next));
                        assert(d == (pre, next, Seq::<Seq<u8>>::empty()));
                        assert(target.2 =~= out.deep_view() + Seq::<Seq<u8>>::empty());
                        assert(out.deep_view() + Seq::<Seq<u8>>::empty() =~= out.deep_view());
                    }
                    going = false;
                },
            }
        }
        self.next_seq = Some(next);
        out
    }
}

} // verus!
