use vstd::prelude::*;
use crate::order::{lemma_with_port_last, open_only, with_port};
use crate::result::{views, PortStatus, ResultView, ScanResult};

verus! {

/// One result for each probed port, in ascending order of ports: the port
/// `start + i` with the status `observed[i]` that its probe came to.
pub open spec fn probed(host: Seq<char>, start: int, observed: Seq<PortStatus>) -> Seq<
    ResultView,
> {
    Seq::new(
        observed.len(),
        |i: int| ResultView { host: host, port: (start + i) as u16, status: observed[i] },
    )
}

/// The results that a worker returns for the ports from `start` on whose
/// probes came to `observed`: one for each port, in ascending order of
/// ports, without the closed ones where `no_closed` is set.
pub open spec fn range_results(
    host: Seq<char>,
    start: int,
    observed: Seq<PortStatus>,
    no_closed: bool,
) -> Seq<ResultView> {
    if no_closed {
        open_only(probed(host, start, observed))
    } else {
        probed(host, start, observed)
    }
}

/// Whether `status` is what `probe` may come to for `port` of `host`.
pub open spec fn may_observe<P: Fn(&str, u16, u64) -> PortStatus>(
    probe: P,
    host: Seq<char>,
    port: u16,
    timeout: u64,
    status: PortStatus,
) -> bool {
    exists|h: &str| h@ == host && call_ensures(probe, (h, port, timeout), status)
}

/// Whether `observed` holds, for each port from `start` on, a status that
/// `probe` may come to for that port.
pub open spec fn observed_by<P: Fn(&str, u16, u64) -> PortStatus>(
    observed: Seq<PortStatus>,
    probe: P,
    host: Seq<char>,
    start: int,
    timeout: u64,
) -> bool {
    forall|i: int|
        0 <= i < observed.len() ==> may_observe(
            probe,
            host,
            (start + i) as u16,
            timeout,
            #[trigger] observed[i],
        )
}

/// Whether `results` are the results of scanning the ports `start..=end` of
/// `host` with `probe`: each port was probed, and the results are those of
/// the range for what the probes came to.
pub open spec fn is_scan_of<P: Fn(&str, u16, u64) -> PortStatus>(
    results: Seq<ResultView>,
    probe: P,
    host: Seq<char>,
    start: u16,
    end: u16,
    timeout: u64,
    no_closed: bool,
) -> bool {
    exists|observed: Seq<PortStatus>|
        {
            &&& observed.len() == range_len(start, end)
            &&& observed_by(observed, probe, host, start as int, timeout)
            &&& results == range_results(host, start as int, observed, no_closed)
        }
}

/// What one more probe adds to the results of a range.
pub proof fn lemma_range_results_push(
    host: Seq<char>,
    start: int,
    observed: Seq<PortStatus>,
    status: PortStatus,
    no_closed: bool,
)
    ensures
        range_results(host, start, observed.push(status), no_closed) == if status
            == PortStatus::Open || !no_closed {
            range_results(host, start, observed, no_closed).push(
                ResultView { host: host, port: (start + observed.len()) as u16, status: status },
            )
        } else {
            range_results(host, start, observed, no_closed)
        },
{
    let longer = probed(host, start, observed.push(status));
    assert(longer.drop_last() =~= probed(host, start, observed));
    assert(longer =~= probed(host, start, observed).push(longer.last()));
    reveal(Seq::filter);
}

/// The results of a range are those of its first ports followed by those of
/// the ports after them.
pub proof fn lemma_range_results_add(
    host: Seq<char>,
    start: int,
    first: Seq<PortStatus>,
    second: Seq<PortStatus>,
    no_closed: bool,
)
    ensures
        range_results(host, start, first + second, no_closed) == range_results(
            host,
            start,
            first,
            no_closed,
        ) + range_results(host, start + first.len(), second, no_closed),
{
    let a = probed(host, start, first);
    let b = probed(host, start + first.len(), second);
    assert(probed(host, start, first + second) =~= a + b);
    Seq::filter_distributes_over_add(a, b, |r: ResultView| r.status == PortStatus::Open);
}

/// The result for `port` among the results of a range, as a sequence: that
/// one result where the port lies in the range and its result is kept, else
/// nothing.
pub open spec fn result_for(
    host: Seq<char>,
    start: int,
    observed: Seq<PortStatus>,
    no_closed: bool,
    port: u16,
) -> Seq<ResultView> {
    if start <= port < start + observed.len() && (observed[port - start] == PortStatus::Open
        || !no_closed) {
        seq![ResultView { host: host, port: port, status: observed[port - start] }]
    } else {
        Seq::empty()
    }
}

/// The results of a range hold at most one result for a port: each port is
/// probed once.
pub proof fn lemma_with_port_range(
    host: Seq<char>,
    start: int,
    observed: Seq<PortStatus>,
    no_closed: bool,
    port: u16,
)
    requires
        0 <= start,
        start + observed.len() <= 65536,
    ensures
        with_port(range_results(host, start, observed, no_closed), port) == result_for(
            host,
            start,
            observed,
            no_closed,
            port,
        ),
    decreases observed.len(),
{
    let results = range_results(host, start, observed, no_closed);
    if observed.len() == 0 {
        reveal(Seq::filter);
        assert(results =~= Seq::<ResultView>::empty());
    } else {
        let before = observed.drop_last();
        let status = observed.last();
        assert(observed =~= before.push(status));
        lemma_with_port_range(host, start, before, no_closed, port);
        lemma_range_results_push(host, start, before, status, no_closed);
        if status == PortStatus::Open || !no_closed {
            let shorter = range_results(host, start, before, no_closed);
            assert(results.drop_last() =~= shorter);
            lemma_with_port_last(results, port);
            if results.last().port == port {
                assert(Seq::<ResultView>::empty().push(results.last()) =~= seq![results.last()]);
            }
        }
    }
}

/// How many of the observed statuses are open.
pub open spec fn open_count(observed: Seq<PortStatus>) -> nat {
    observed.filter(|status: PortStatus| status == PortStatus::Open).len()
}

/// Suppression: where closed ports are suppressed, the results of a range
/// hold no closed port, and there are as many of them as there are ports
/// that the probe found open.
pub proof fn lemma_suppression(host: Seq<char>, start: int, observed: Seq<PortStatus>)
    ensures
        forall|i: int|
            0 <= i < range_results(host, start, observed, true).len() ==> (
            #[trigger] range_results(host, start, observed, true)[i]).status == PortStatus::Open,
        range_results(host, start, observed, true).len() == open_count(observed),
    decreases observed.len(),
{
    reveal(Seq::filter);
    if observed.len() > 0 {
        let before = observed.drop_last();
        lemma_suppression(host, start, before);
        lemma_range_results_push(host, start, before, observed.last(), true);
        assert(observed =~= before.push(observed.last()));
    }
}

/// How many ports the inclusive range `start..=end` holds.
pub open spec fn range_len(start: u16, end: u16) -> nat {
    if start <= end {
        (end - start + 1) as nat
    } else {
        0
    }
}

/// Scan a range of ports for a specified host.
///
/// Probes every port from `start` to `end` in ascending order, once each,
/// and returns one result for each port, in that order; where `no_closed` is
/// set, closed ports are left out. Where `interactive` is set, each result
/// that is kept is handed to `display` before the next port is probed.
pub fn scan_range<P, D>(
    host: &str,
    start: u16,
    end: u16,
    timeout: u64,
    interactive: bool,
    no_closed: bool,
    probe: &P,
    display: &D,
) -> (results: Vec<ScanResult>) where P: Fn(&str, u16, u64) -> PortStatus, D: Fn(&ScanResult)
    requires
        forall|port: u16| start <= port <= end ==> call_requires(*probe, (host, port, timeout)),
        forall|result: ScanResult| call_requires(*display, (&result,)),
    ensures
        is_scan_of(views(results@), *probe, host@, start, end, timeout, no_closed),
{
    let mut results: Vec<ScanResult> = Vec::new();
    let ghost mut observed: Seq<PortStatus> = Seq::empty();
    let mut port: u32 = start as u32;
    proof {
        reveal(Seq::filter);
        assert(views(results@) =~= range_results(host@, start as int, observed, no_closed));
    }
    while port <= end as u32
        invariant
            start <= port <= end + 1 || (port == start && start > end),
            forall|port: u16| start <= port <= end ==> call_requires(*probe, (host, port, timeout)),
            forall|result: ScanResult| call_requires(*display, (&result,)),
            observed.len() == port - start,
            forall|i: int|
                0 <= i < observed.len() ==> call_ensures(
                    *probe,
                    (host, (start + i) as u16, timeout),
                    #[trigger] observed[i],
                ),
            views(results@) == range_results(host@, start as int, observed, no_closed),
        decreases end + 1 - port,
    {
        let status = probe(host, port as u16, timeout);
        proof {
            lemma_range_results_push(host@, start as int, observed, status, no_closed);
            observed = observed.push(status);
        }
        if status.is_open() || !no_closed {
            let result = ScanResult::new(host, port as u16, status);
            if interactive {
                display(&result);
            }
            let ghost before = results@;
            results.push(result);
            assert(views(results@) =~= views(before).push(result@));
        }
        port = port + 1;
    }
    assert(observed_by(observed, *probe, host@, start as int, timeout));
    results
}

} // verus!
