use vstd::prelude::*;
use crate::result::{views, PortStatus, ResultView, ScanResult};

verus! {

/// Whether the results come in ascending order of port numbers.
pub open spec fn sorted_by_port(results: Seq<ResultView>) -> bool {
    forall|i: int, j: int| 0 <= i <= j < results.len() ==> results[i].port <= results[j].port
}

/// The results for one port, in the order in which they stand.
pub open spec fn with_port(results: Seq<ResultView>, port: u16) -> Seq<ResultView> {
    results.filter(|r: ResultView| r.port == port)
}

/// Whether `sorted` is `given` sorted by port number with ties left in
/// place: it ascends by port and holds, for every port, the very results
/// that `given` holds for it, in their order in `given`.
pub open spec fn is_stable_sort(sorted: Seq<ResultView>, given: Seq<ResultView>) -> bool {
    &&& sorted_by_port(sorted)
    &&& forall|port: u16| with_port(sorted, port) == with_port(given, port)
}

/// `results` sorted by port number, ties left in place: the one sequence
/// that is a stable sort of `results`. By [`lemma_stable_sorted`] there is
/// one, by [`lemma_stable_sort_unique`] there is no other.
pub open spec fn stable_sorted(results: Seq<ResultView>) -> Seq<ResultView> {
    choose|sorted: Seq<ResultView>| is_stable_sort(sorted, results)
}

/// The results with an open port, in the order in which they stand.
pub open spec fn open_only(results: Seq<ResultView>) -> Seq<ResultView> {
    results.filter(|r: ResultView| r.status == PortStatus::Open)
}

/// The results for the port of the last result end with that result, and
/// without it hold what the results before it hold for that port; for any
/// other port the last result changes nothing.
pub proof fn lemma_with_port_last(results: Seq<ResultView>, port: u16)
    requires
        results.len() > 0,
    ensures
        results.last().port == port ==> with_port(results, port) == with_port(
            results.drop_last(),
            port,
        ).push(results.last()),
        results.last().port != port ==> with_port(results, port) == with_port(
            results.drop_last(),
            port,
        ),
{
    reveal(Seq::filter);
}

/// A result that stands among those for `port` stands among all results and
/// has that port.
proof fn lemma_with_port_member(results: Seq<ResultView>, port: u16, k: int)
    requires
        0 <= k < with_port(results, port).len(),
    ensures
        with_port(results, port)[k].port == port,
        exists|i: int| 0 <= i < results.len() && results[i] == with_port(results, port)[k],
{
    let pred = |r: ResultView| r.port == port;
    results.lemma_filter_pred(pred, k);
    assert(results.filter(pred).contains(results.filter(pred)[k]));
    results.lemma_filter_contains_rev(pred, results.filter(pred)[k]);
}

/// Two sequences that both ascend by port and hold the same results for
/// every port, in the same order, are one and the same.
pub proof fn lemma_sorted_unique(a: Seq<ResultView>, b: Seq<ResultView>)
    requires
        sorted_by_port(a),
        sorted_by_port(b),
        forall|port: u16| with_port(a, port) == with_port(b, port),
    ensures
        a == b,
    decreases a.len() + b.len(),
{
    if a.len() == 0 && b.len() == 0 {
        assert(a =~= b);
    } else if a.len() == 0 || b.len() == 0 {
        let (full, none) = if a.len() == 0 {
            (b, a)
        } else {
            (a, b)
        };
        let q = full.last().port;
        lemma_with_port_last(full, q);
        assert(with_port(full, q).len() > 0);
        none.lemma_filter_len(|r: ResultView| r.port == q);
        assert(with_port(none, q).len() == 0);
        assert(with_port(a, q) == with_port(b, q));
    } else {
        let x = a.last();
        let y = b.last();
        lemma_with_port_last(a, x.port);
        lemma_with_port_last(b, y.port);
        assert(with_port(a, x.port) == with_port(b, x.port));
        assert(with_port(a, y.port) == with_port(b, y.port));
        if x.port < y.port {
            let k = with_port(a, y.port).len() - 1;
            lemma_with_port_member(a, y.port, k);
        } else if y.port < x.port {
            let k = with_port(b, x.port).len() - 1;
            lemma_with_port_member(b, x.port, k);
        } else {
            let wa = with_port(a.drop_last(), x.port);
            let wb = with_port(b.drop_last(), x.port);
            assert(wa.push(x) == wb.push(y));
            assert(wa.push(x).last() == x);
            assert(wb.push(y).last() == y);
            assert(wa =~= wa.push(x).drop_last());
            assert(wb =~= wb.push(y).drop_last());
            assert forall|port: u16| with_port(a.drop_last(), port) == with_port(
                b.drop_last(),
                port,
            ) by {
                lemma_with_port_last(a, port);
                lemma_with_port_last(b, port);
                assert(with_port(a, port) == with_port(b, port));
            }
            lemma_sorted_unique(a.drop_last(), b.drop_last());
            assert(a =~= a.drop_last().push(x));
            assert(b =~= b.drop_last().push(y));
        }
    }
}

/// Sorting by port with ties left in place has one outcome only.
pub proof fn lemma_stable_sort_unique(
    first: Seq<ResultView>,
    second: Seq<ResultView>,
    given: Seq<ResultView>,
)
    requires
        is_stable_sort(first, given),
        is_stable_sort(second, given),
    ensures
        first == second,
{
    assert forall|port: u16| with_port(first, port) == with_port(second, port) by {
        assert(with_port(first, port) == with_port(given, port));
        assert(with_port(second, port) == with_port(given, port));
    }
    lemma_sorted_unique(first, second);
}

/// A sequence that is a stable sort of `given` is `stable_sorted(given)`.
pub proof fn lemma_stable_sorted_is(sorted: Seq<ResultView>, given: Seq<ResultView>)
    requires
        is_stable_sort(sorted, given),
    ensures
        stable_sorted(given) == sorted,
{
    lemma_stable_sort_unique(stable_sorted(given), sorted, given);
}

/// `results`, which ascend by port, with `result` put in behind the last
/// result whose port is not larger than its own.
spec fn inserted(results: Seq<ResultView>, result: ResultView) -> Seq<ResultView>
    decreases results.len(),
{
    if results.len() == 0 || results.last().port <= result.port {
        results.push(result)
    } else {
        inserted(results.drop_last(), result).push(results.last())
    }
}

/// `results` sorted by putting in one result after the other.
spec fn insertion_sorted(results: Seq<ResultView>) -> Seq<ResultView>
    decreases results.len(),
{
    if results.len() == 0 {
        results
    } else {
        inserted(insertion_sorted(results.drop_last()), results.last())
    }
}

/// Putting a result in keeps the ascending order, adds the result behind
/// those of its own port and leaves those of any other port as they are.
proof fn lemma_inserted(results: Seq<ResultView>, result: ResultView, port: u16)
    requires
        sorted_by_port(results),
    ensures
        sorted_by_port(inserted(results, result)),
        inserted(results, result).len() == results.len() + 1,
        forall|i: int|
            0 <= i < inserted(results, result).len() ==> (#[trigger] inserted(results, result)[i])
                == result || results.contains(inserted(results, result)[i]),
        with_port(inserted(results, result), port) == if result.port == port {
            with_port(results, port).push(result)
        } else {
            with_port(results, port)
        },
    decreases results.len(),
{
    let longer = inserted(results, result);
    if results.len() == 0 || results.last().port <= result.port {
        assert(longer.drop_last() =~= results);
        lemma_with_port_last(longer, port);
        assert forall|i: int| 0 <= i < longer.len() implies (#[trigger] longer[i]) == result
            || results.contains(longer[i]) by {
            if i < results.len() {
                assert(longer[i] == results[i]);
            }
        }
    } else {
        let before = results.drop_last();
        let last = results.last();
        let shorter = inserted(before, result);
        lemma_inserted(before, result, port);
        assert(longer.drop_last() =~= shorter);
        lemma_with_port_last(longer, port);
        lemma_with_port_last(results, port);
        assert forall|i: int| 0 <= i < longer.len() implies (#[trigger] longer[i]) == result
            || results.contains(longer[i]) by {
            if i < shorter.len() {
                assert(longer[i] == shorter[i]);
                if shorter[i] != result {
                    let k = choose|k: int| 0 <= k < before.len() && before[k] == shorter[i];
                    assert(results[k] == longer[i]);
                }
            } else {
                assert(longer[i] == results[results.len() - 1]);
            }
        }
        assert forall|i: int, j: int| 0 <= i <= j < longer.len() implies longer[i].port
            <= longer[j].port by {
            if j < shorter.len() {
                assert(longer[i] == shorter[i] && longer[j] == shorter[j]);
            } else if i < shorter.len() {
                assert(longer[i] == shorter[i]);
                if shorter[i] != result {
                    let k = choose|k: int| 0 <= k < before.len() && before[k] == shorter[i];
                    assert(results[k].port <= results[results.len() - 1].port);
                }
            }
        }
    }
}

/// Every sequence of results has a stable sort by port.
proof fn lemma_insertion_sorted(results: Seq<ResultView>)
    ensures
        is_stable_sort(insertion_sorted(results), results),
    decreases results.len(),
{
    if results.len() == 0 {
    } else {
        let before = results.drop_last();
        lemma_insertion_sorted(before);
        assert forall|port: u16|
            with_port(insertion_sorted(results), port) == with_port(results, port) by {
            lemma_inserted(insertion_sorted(before), results.last(), port);
            lemma_with_port_last(results, port);
            assert(with_port(insertion_sorted(before), port) == with_port(before, port));
        }
        lemma_inserted(insertion_sorted(before), results.last(), 0);
    }
}

/// Sorting by port with ties left in place always has an outcome:
/// `stable_sorted(results)` is a stable sort of `results`, for all results.
pub proof fn lemma_stable_sorted(results: Seq<ResultView>)
    ensures
        is_stable_sort(stable_sorted(results), results),
{
    lemma_insertion_sorted(results);
}

/// Sorting is idempotent: results that already ascend by port are left as
/// they are.
pub proof fn lemma_sort_idempotent(results: Seq<ResultView>)
    requires
        sorted_by_port(results),
    ensures
        stable_sorted(results) == results,
{
    lemma_stable_sorted_is(results, results);
}

/// The results as they are handed on at the end of a scan: sorted by port
/// where `sort` is set, then without closed ports where `no_closed` is set.
pub open spec fn final_results(merged: Seq<ResultView>, sort: bool, no_closed: bool) -> Seq<
    ResultView,
> {
    let ordered = if sort {
        stable_sorted(merged)
    } else {
        merged
    };
    if no_closed {
        open_only(ordered)
    } else {
        ordered
    }
}

/// Suppression: where closed ports are suppressed, the final results hold
/// no closed port, whatever was merged and whether or not it was sorted.
pub proof fn lemma_final_results_open(merged: Seq<ResultView>, sort: bool)
    ensures
        forall|i: int|
            0 <= i < final_results(merged, sort, true).len() ==> (#[trigger] final_results(
                merged,
                sort,
                true,
            )[i]).status == PortStatus::Open,
{
    let ordered = if sort {
        stable_sorted(merged)
    } else {
        merged
    };
    let is_open = |r: ResultView| r.status == PortStatus::Open;
    assert forall|i: int| 0 <= i < ordered.filter(is_open).len() implies (
    #[trigger] ordered.filter(is_open)[i]).status == PortStatus::Open by {
        ordered.lemma_filter_pred(is_open, i);
    }
}

/// Appends the results of one worker to the results collected so far: none
/// is lost, none is added twice, and those of one worker stay together.
pub fn merge(all: &mut Vec<ScanResult>, results: Vec<ScanResult>)
    ensures
        final(all)@ == old(all)@ + results@,
{
    let mut results = results;
    all.append(&mut results);
}

/// Calls `sort_by_key` of std's slices with the port as the key. std
/// documents that it sorts in ascending order of the key and keeps the
/// initial order of elements with equal keys: the results ascend by port
/// afterwards, and those of each port are the same, in the same order.
#[verifier::external_body]
fn sort_by_key_port(results: &mut Vec<ScanResult>)
    ensures
        is_stable_sort(views(final(results)@), views(old(results)@)),
{
    results.sort_by_key(|result| result.port);
}

/// Sorts the results by ascending port number; results for the same port
/// keep their order.
pub fn sort_by_port(results: &mut Vec<ScanResult>)
    ensures
        views(final(results)@) == stable_sorted(views(old(results)@)),
        is_stable_sort(views(final(results)@), views(old(results)@)),
{
    sort_by_key_port(results);
    proof {
        lemma_stable_sorted_is(views(results@), views(old(results)@));
    }
}

/// Drops the results with a closed port and keeps the others in their order.
pub fn suppress_closed(results: Vec<ScanResult>) -> (kept: Vec<ScanResult>)
    ensures
        views(kept@) == open_only(views(results@)),
{
    let mut kept: Vec<ScanResult> = Vec::new();
    let ghost all = results@;
    proof {
        reveal(Seq::filter);
        assert(views(all.take(0)) =~= Seq::<ResultView>::empty());
        assert(views(kept@) =~= open_only(views(all.take(0))));
    }
    for result in it: results.into_iter()
        invariant
            it.seq() == all,
            views(kept@) == open_only(views(all.take(it.index() as int))),
    {
        proof {
            let k = it.index() as int;
            assert(views(all.take(k + 1)).drop_last() =~= views(all.take(k)));
            assert(views(all.take(k + 1)).last() == result@);
            reveal(Seq::filter);
        }
        if result.port_status.is_open() {
            let ghost before = kept@;
            kept.push(result);
            assert(views(kept@) =~= views(before).push(result@));
        }
    }
    assert(all.take(all.len() as int) =~= all);
    kept
}

/// Closes a scan: sorts the merged results by port where `sort` is set, then
/// drops closed ports where `no_closed` is set.
pub fn finish(results: Vec<ScanResult>, sort: bool, no_closed: bool) -> (finished: Vec<ScanResult>)
    ensures
        views(finished@) == final_results(views(results@), sort, no_closed),
{
    let mut results = results;
    if sort {
        sort_by_port(&mut results);
    }
    if no_closed {
        suppress_closed(results)
    } else {
        results
    }
}

} // verus!
