use vstd::prelude::*;
use vstd::pervasive::unreached;
use crate::config::Config;
use crate::order::{
    final_results, is_stable_sort, lemma_sort_idempotent, lemma_stable_sorted_is, sorted_by_port,
    with_port,
};
use crate::partition::{
    covered, effective_workers, lemma_partition_complete, lemma_share_bounds, partition,
    partition_plan, ScanRange,
};
use crate::result::{views, PortStatus, ResultView, ScanResult};
use crate::result_set::{is_merge_order, ResultSet};
use crate::scan::{
    is_scan_of, lemma_range_results_add, lemma_with_port_range, may_observe, observed_by, probed,
    range_len, range_results, result_for, scan_range,
};

verus! {

/// What one worker is given: its own copy of the host and the inclusive
/// range of ports, `start..=end`, that it scans.
#[derive(Debug)]
pub struct WorkerTask {
    pub host: String,
    pub start: u16,
    pub end: u16,
}

/// The mathematical value of a [`WorkerTask`].
pub struct TaskView {
    pub host: Seq<char>,
    pub start: u16,
    pub end: u16,
}

impl TaskView {
    /// Whether `port` lies in the range of the task.
    pub open spec fn holds(self, port: int) -> bool {
        self.start <= port <= self.end
    }
}

impl View for WorkerTask {
    type V = TaskView;

    open spec fn view(&self) -> TaskView {
        TaskView { host: self.host@, start: self.start, end: self.end }
    }
}

/// The shares of the workers, as offsets from the start port: with more
/// than one thread the partition plan, else the whole range as one share.
pub open spec fn worker_ranges(config: Config) -> Seq<ScanRange> {
    if config.threads > 1 {
        partition_plan(config.total_ports(), config.threads as int)
    } else {
        seq![ScanRange { start: 0, end: (config.total_ports() - 1) as u32 }]
    }
}

/// The task of the worker that gets the share `range`: the share moved up
/// by the start port.
pub open spec fn task_of(config: Config, range: ScanRange) -> TaskView {
    TaskView {
        host: config.host@,
        start: (config.start_port + range.start) as u16,
        end: (config.start_port + range.end) as u16,
    }
}

/// The tasks of a scan, one for each worker, in ascending order of ports.
pub open spec fn tasks_of(config: Config) -> Seq<TaskView> {
    Seq::new(worker_ranges(config).len(), |i: int| task_of(config, worker_ranges(config)[i]))
}

/// The values of a sequence of tasks, one for one.
pub open spec fn task_views(tasks: Seq<WorkerTask>) -> Seq<TaskView> {
    tasks.map_values(|t: WorkerTask| t@)
}

/// Whether some task holds `port`.
pub open spec fn assigned(tasks: Seq<TaskView>, port: int) -> bool {
    exists|i: int| 0 <= i < tasks.len() && (#[trigger] tasks[i]).holds(port)
}

/// With one thread the whole range is the one share of the partition plan.
proof fn lemma_single_share(total_ports: int)
    requires
        1 <= total_ports,
    ensures
        partition_plan(total_ports, 1) == seq![
            ScanRange { start: 0, end: (total_ports - 1) as u32 },
        ],
{
    assert(partition_plan(total_ports, 1) =~= seq![
        ScanRange { start: 0, end: (total_ports - 1) as u32 },
    ]);
}

/// Task `i` is share `i` of the partition plan moved up by the start port,
/// and lies in the range of the configuration.
proof fn lemma_task_bounds(config: Config, i: int)
    requires
        config.is_valid(),
        0 <= i < tasks_of(config).len(),
    ensures
        worker_ranges(config) == partition_plan(config.total_ports(), config.threads as int),
        tasks_of(config).len() == worker_ranges(config).len(),
        tasks_of(config)[i].host == config.host@,
        tasks_of(config)[i].start == config.start_port + worker_ranges(config)[i].start,
        tasks_of(config)[i].end == config.start_port + worker_ranges(config)[i].end,
        worker_ranges(config)[i].is_valid(),
        worker_ranges(config)[i].end < config.total_ports(),
{
    let total = config.total_ports();
    lemma_single_share(total);
    lemma_share_bounds(total, config.threads as int, i);
}

/// The tasks of a valid configuration cover its range of ports exactly:
/// there is at least one and never more than threads or ports, the first
/// starts at the start port, each next one right after the one before it,
/// and the last ends at the end port.
pub proof fn lemma_tasks_cover(config: Config)
    requires
        config.is_valid(),
    ensures
        ({
            let tasks = tasks_of(config);
            &&& 1 <= tasks.len() <= config.threads
            &&& tasks.len() <= config.total_ports()
            &&& tasks.len() == effective_workers(config.total_ports(), config.threads as int)
            &&& tasks[0].start == config.start_port
            &&& tasks[tasks.len() - 1].end == config.end_port
            &&& forall|i: int|
                0 <= i < tasks.len() ==> config.start_port <= (#[trigger] tasks[i]).start
                    <= tasks[i].end <= config.end_port && tasks[i].host == config.host@
            &&& forall|i: int|
                0 <= i < tasks.len() - 1 ==> (#[trigger] tasks[i]).end + 1 == tasks[i + 1].start
        }),
{
    let total = config.total_ports();
    let threads = config.threads as int;
    let tasks = tasks_of(config);
    lemma_single_share(total);
    lemma_task_bounds(config, 0);
    lemma_task_bounds(config, tasks.len() - 1);
    lemma_share_bounds(total, threads, 0);
    lemma_share_bounds(total, threads, tasks.len() - 1);
    assert forall|i: int| 0 <= i < tasks.len() implies config.start_port <= (
    #[trigger] tasks[i]).start <= tasks[i].end <= config.end_port && tasks[i].host
        == config.host@ by {
        lemma_task_bounds(config, i);
    }
    assert forall|i: int| 0 <= i < tasks.len() - 1 implies (#[trigger] tasks[i]).end + 1
        == tasks[i + 1].start by {
        lemma_task_bounds(config, i);
        lemma_task_bounds(config, i + 1);
        lemma_share_bounds(total, threads, i);
        lemma_share_bounds(total, threads, i + 1);
    }
}

/// Each port of the range is assigned to exactly one task.
pub proof fn lemma_tasks_disjoint(config: Config)
    requires
        config.is_valid(),
    ensures
        ({
            let tasks = tasks_of(config);
            &&& forall|i: int, j: int, port: int|
                #![trigger tasks[i].holds(port), tasks[j].holds(port)]
                0 <= i < tasks.len() && 0 <= j < tasks.len() && tasks[i].holds(port)
                    && tasks[j].holds(port) ==> i == j
            &&& forall|port: int|
                config.start_port <= port <= config.end_port ==> #[trigger] assigned(tasks, port)
        }),
{
    let total = config.total_ports();
    let tasks = tasks_of(config);
    let ranges = partition_plan(total, config.threads as int);
    lemma_single_share(total);
    lemma_partition_complete(total as u32, config.threads);
    assert forall|i: int, j: int, port: int|
        #![trigger tasks[i].holds(port), tasks[j].holds(port)]
        0 <= i < tasks.len() && 0 <= j < tasks.len() && tasks[i].holds(port) && tasks[j].holds(
            port,
        ) implies i == j by {
        lemma_task_bounds(config, i);
        lemma_task_bounds(config, j);
        let p = port - config.start_port;
        assert(ranges[i].contains(p));
        assert(ranges[j].contains(p));
    }
    assert forall|port: int|
        config.start_port <= port <= config.end_port implies #[trigger] assigned(tasks, port) by {
        let p = port - config.start_port;
        assert(covered(ranges).contains(p));
        let i = choose|i: int| 0 <= i < ranges.len() && (#[trigger] ranges[i]).contains(p);
        lemma_task_bounds(config, i);
        assert(tasks[i].holds(port));
    }
}

/// Plans a scan: one task for each worker. With more than one thread the
/// range is partitioned among the threads, never among more of them than
/// there are ports; else one worker gets the whole range.
pub fn dispatch(config: &Config) -> (tasks: Vec<WorkerTask>)
    requires
        config.is_valid(),
    ensures
        task_views(tasks@) == tasks_of(*config),
{
    let total: u32 = config.end_port as u32 - config.start_port as u32 + 1;
    let ranges: Vec<ScanRange> = if config.threads > 1 {
        match partition(total, config.threads) {
            Ok(plan) => plan,
            Err(_) => unreached(),
        }
    } else {
        let mut whole: Vec<ScanRange> = Vec::new();
        whole.push(ScanRange { start: 0, end: total - 1 });
        whole
    };
    proof {
        lemma_single_share(total as int);
    }
    assert(ranges@ =~= worker_ranges(*config));
    let mut tasks: Vec<WorkerTask> = Vec::new();
    let mut i: usize = 0;
    while i < ranges.len()
        invariant
            config.is_valid(),
            ranges@ == worker_ranges(*config),
            i <= ranges.len(),
            tasks@.len() == i,
            forall|k: int| 0 <= k < i ==> (#[trigger] tasks@[k])@ == tasks_of(*config)[k],
        decreases ranges.len() - i,
    {
        proof {
            lemma_task_bounds(*config, i as int);
        }
        let range = ranges[i];
        let start: u16 = (config.start_port as u32 + range.start) as u16;
        let end: u16 = (config.start_port as u32 + range.end) as u16;
        tasks.push(WorkerTask { host: config.host.clone(), start, end });
        i = i + 1;
    }
    assert(task_views(tasks@) =~= tasks_of(*config));
    tasks
}

/// The results of a range ascend by port, and hold no closed port where
/// closed ports are suppressed: sorting them, or suppressing closed ports
/// once more, changes nothing.
pub proof fn lemma_range_results_final(
    host: Seq<char>,
    start: u16,
    observed: Seq<PortStatus>,
    no_closed: bool,
    sort: bool,
)
    requires
        start + observed.len() <= 65536,
    ensures
        sorted_by_port(range_results(host, start as int, observed, no_closed)),
        final_results(range_results(host, start as int, observed, no_closed), sort, no_closed)
            == range_results(host, start as int, observed, no_closed),
{
    let all = probed(host, start as int, observed);
    let kept = range_results(host, start as int, observed, no_closed);
    let is_open = |r: ResultView| r.status == PortStatus::Open;
    assert(sorted_by_port(all));
    lemma_filter_keeps_order(all, is_open);
    lemma_filter_twice(all, is_open);
    lemma_sort_idempotent(kept);
}

/// Filtering leaves results that ascend by port in ascending order.
proof fn lemma_filter_keeps_order(results: Seq<ResultView>, pred: spec_fn(ResultView) -> bool)
    requires
        sorted_by_port(results),
    ensures
        sorted_by_port(results.filter(pred)),
        forall|k: int|
            0 <= k < results.filter(pred).len() ==> results.len() > 0 && (
            #[trigger] results.filter(pred)[k]).port <= results.last().port,
    decreases results.len(),
{
    reveal(Seq::filter);
    if results.len() > 0 {
        lemma_filter_keeps_order(results.drop_last(), pred);
        let shorter = results.drop_last().filter(pred);
        assert forall|k: int| 0 <= k < shorter.len() implies (#[trigger] shorter[k]).port
            <= results.last().port by {
            assert(results.drop_last().last() == results[results.len() - 2]);
        }
    }
}

/// Filtering twice by the same test is filtering once.
proof fn lemma_filter_twice(results: Seq<ResultView>, pred: spec_fn(ResultView) -> bool)
    ensures
        results.filter(pred).filter(pred) == results.filter(pred),
    decreases results.len(),
{
    reveal(Seq::filter);
    if results.len() > 0 {
        lemma_filter_twice(results.drop_last(), pred);
        if pred(results.last()) {
            let shorter = results.drop_last().filter(pred);
            assert(shorter.push(results.last()).drop_last() =~= shorter);
        }
    }
}

/// How many ports the workers before worker `k` scan; all of them where
/// there is no worker `k`.
pub open spec fn scanned_before(config: Config, k: int) -> int {
    if k < tasks_of(config).len() {
        tasks_of(config)[k].start - config.start_port
    } else {
        config.total_ports()
    }
}

/// What was observed of two runs of ports, one after the other, was
/// observed of the two together.
proof fn lemma_observed_add<P: Fn(&str, u16, u64) -> PortStatus>(
    first: Seq<PortStatus>,
    second: Seq<PortStatus>,
    probe: P,
    host: Seq<char>,
    start: int,
    timeout: u64,
)
    requires
        observed_by(first, probe, host, start, timeout),
        observed_by(second, probe, host, start + first.len(), timeout),
    ensures
        observed_by(first + second, probe, host, start, timeout),
{
    let both = first + second;
    assert forall|i: int| 0 <= i < both.len() implies may_observe(
        probe,
        host,
        (start + i) as u16,
        timeout,
        #[trigger] both[i],
    ) by {
        if i >= first.len() {
            assert(both[i] == second[i - first.len()]);
        } else {
            assert(both[i] == first[i]);
        }
    }
}

/// Worker `k` starts where the workers before it stopped, with the host of
/// the configuration, and the next one, if there is one, starts right after
/// it; the last one stops at the end port.
proof fn lemma_next_task(config: Config, k: int)
    requires
        config.is_valid(),
        0 <= k < tasks_of(config).len(),
    ensures
        tasks_of(config)[k].host == config.host@,
        tasks_of(config)[k].start == config.start_port + scanned_before(config, k),
        scanned_before(config, k + 1) == scanned_before(config, k) + range_len(
            tasks_of(config)[k].start,
            tasks_of(config)[k].end,
        ),
        scanned_before(config, 0) == 0,
{
    lemma_tasks_cover(config);
    let tasks = tasks_of(config);
    assert(tasks[k].start <= tasks[k].end);
    if k + 1 < tasks.len() {
        assert(tasks[k].end + 1 == tasks[k + 1].start);
    }
}

/// Runs a whole scan, one worker after the other: plans the tasks, scans
/// each task's range with `probe`, merges the workers' results, sorts them
/// by port where the configuration asks for it and drops closed ports where
/// it asks for that. In interactive mode each result is handed to `display`
/// as soon as its port is probed, else all of them at the end.
///
/// The results are those of one pass over the whole range, whatever the
/// number of threads: one for each port in ascending order, with the status
/// that the probe came to, without the closed ones where they are suppressed.
pub fn scan<P, D>(config: &Config, probe: &P, display: &D) -> (results: Vec<ScanResult>) where
    P: Fn(&str, u16, u64) -> PortStatus,
    D: Fn(&ScanResult),

    requires
        config.is_valid(),
        forall|host: &str, port: u16|
            host@ == config.host@ && config.start_port <= port <= config.end_port
                ==> call_requires(*probe, (host, port, config.timeout)),
        forall|result: ScanResult| call_requires(*display, (&result,)),
    ensures
        is_scan_of(
            views(results@),
            *probe,
            config.host@,
            config.start_port,
            config.end_port,
            config.timeout,
            config.no_closed,
        ),
{
    let tasks = dispatch(config);
    let mut set = ResultSet::new(tasks.len());
    let ghost mut observed: Seq<PortStatus> = Seq::empty();
    proof {
        lemma_next_task(*config, 0);
        reveal(Seq::filter);
        assert(set.results() =~= range_results(
            config.host@,
            config.start_port as int,
            observed,
            config.no_closed,
        ));
    }
    let mut k: usize = 0;
    while k < tasks.len()
        invariant
            config.is_valid(),
            forall|host: &str, port: u16|
                host@ == config.host@ && config.start_port <= port <= config.end_port
                    ==> call_requires(*probe, (host, port, config.timeout)),
            forall|result: ScanResult| call_requires(*display, (&result,)),
            task_views(tasks@) == tasks_of(*config),
            k <= tasks.len(),
            set.wf(),
            set.workers() == tasks.len(),
            set.order() == Seq::new(k as nat, |w: int| w),
            observed.len() == scanned_before(*config, k as int),
            observed_by(observed, *probe, config.host@, config.start_port as int, config.timeout),
            set.results() == range_results(
                config.host@,
                config.start_port as int,
                observed,
                config.no_closed,
            ),
        decreases tasks.len() - k,
    {
        let task = &tasks[k];
        assert(task@ == task_views(tasks@)[k as int]);
        proof {
            lemma_tasks_cover(*config);
        }
        let found = scan_range(
            task.host.as_str(),
            task.start,
            task.end,
            config.timeout,
            config.interactive,
            config.no_closed,
            probe,
            display,
        );
        proof {
            lemma_next_task(*config, k as int);
            let seen = choose|seen: Seq<PortStatus>|
                {
                    &&& seen.len() == range_len(task.start, task.end)
                    &&& observed_by(
                        seen,
                        *probe,
                        config.host@,
                        task.start as int,
                        config.timeout,
                    )
                    &&& views(found@) == range_results(
                        config.host@,
                        task.start as int,
                        seen,
                        config.no_closed,
                    )
                };
            lemma_range_results_add(
                config.host@,
                config.start_port as int,
                observed,
                seen,
                config.no_closed,
            );
            lemma_observed_add(
                observed,
                seen,
                *probe,
                config.host@,
                config.start_port as int,
                config.timeout,
            );
            observed = observed + seen;
        }
        match set.append(k, found) {
            Ok(_) => {},
            Err(_) => unreached(),
        }
        assert(set.order() =~= Seq::new((k + 1) as nat, |w: int| w));
        k = k + 1;
    }
    assert forall|w: int| 0 <= w < set.workers() implies #[trigger] set.order().contains(w) by {
        assert(set.order()[w] == w);
    }
    let results = match set.finish(config.sort, config.no_closed) {
        Ok(finished) => finished,
        Err(_) => unreached(),
    };
    proof {
        lemma_range_results_final(
            config.host@,
            config.start_port,
            observed,
            config.no_closed,
            config.sort,
        );
    }
    let _ = report(&results, config.interactive, display);
    results
}

/// Hands the final results to `display`, one after the other, unless the
/// scan was interactive: then each result was displayed when it was found,
/// and nothing is left to report. Returns how many results it handed on.
pub fn report<D>(results: &Vec<ScanResult>, interactive: bool, display: &D) -> (shown: usize) where
    D: Fn(&ScanResult),

    requires
        forall|result: ScanResult| call_requires(*display, (&result,)),
    ensures
        shown == if interactive {
            0
        } else {
            results@.len()
        },
{
    let mut shown: usize = 0;
    if !interactive {
        while shown < results.len()
            invariant
                shown <= results@.len(),
                forall|result: ScanResult| call_requires(*display, (&result,)),
            decreases results.len() - shown,
        {
            display(&results[shown]);
            shown = shown + 1;
        }
    }
    shown
}

/// What the worker with `task` returns where the probes of the whole range
/// came to `observed`, the status of the start port first.
pub open spec fn task_results(config: Config, task: TaskView, observed: Seq<PortStatus>) -> Seq<
    ResultView,
> {
    range_results(
        config.host@,
        task.start as int,
        observed.subrange(task.start - config.start_port, task.end - config.start_port + 1),
        config.no_closed,
    )
}

/// The merged results where the workers hand in their results in `order`.
pub open spec fn merged(config: Config, observed: Seq<PortStatus>, order: Seq<int>) -> Seq<
    ResultView,
>
    decreases order.len(),
{
    if order.len() == 0 {
        Seq::empty()
    } else {
        merged(config, observed, order.drop_last()) + task_results(
            config,
            tasks_of(config)[order.last()],
            observed,
        )
    }
}

/// Scanning a part of a range gives, for a port of that part, the result
/// that scanning the whole range gives for it, and none for any other port.
proof fn lemma_part_with_port(
    host: Seq<char>,
    start: int,
    observed: Seq<PortStatus>,
    no_closed: bool,
    first: int,
    last: int,
    port: u16,
)
    requires
        0 <= start <= first <= last < start + observed.len() <= 65536,
    ensures
        with_port(
            range_results(
                host,
                first,
                observed.subrange(first - start, last - start + 1),
                no_closed,
            ),
            port,
        ) == if first <= port <= last {
            result_for(host, start, observed, no_closed, port)
        } else {
            Seq::empty()
        },
{
    let seen = observed.subrange(first - start, last - start + 1);
    lemma_with_port_range(host, first, seen, no_closed, port);
    if first <= port <= last {
        assert(seen[port - first] == observed[port - start]);
    }
}

/// A worker returns the result for a port of its own range, and none for
/// any other port.
proof fn lemma_task_with_port(config: Config, observed: Seq<PortStatus>, k: int, port: u16)
    requires
        config.is_valid(),
        observed.len() == config.total_ports(),
        0 <= k < tasks_of(config).len(),
    ensures
        with_port(task_results(config, tasks_of(config)[k], observed), port) == if tasks_of(
            config,
        )[k].holds(port as int) {
            result_for(
                config.host@,
                config.start_port as int,
                observed,
                config.no_closed,
                port,
            )
        } else {
            Seq::empty()
        },
{
    lemma_tasks_cover(config);
    let task = tasks_of(config)[k];
    assert(config.start_port <= task.start <= task.end <= config.end_port);
    lemma_part_with_port(
        config.host@,
        config.start_port as int,
        observed,
        config.no_closed,
        task.start as int,
        task.end as int,
        port,
    );
}

/// Among the merged results, those for a port are the one result of the
/// worker that holds the port, once that worker has handed in its results.
proof fn lemma_merged_with_port(
    config: Config,
    observed: Seq<PortStatus>,
    order: Seq<int>,
    port: u16,
)
    requires
        config.is_valid(),
        observed.len() == config.total_ports(),
        forall|i: int| 0 <= i < order.len() ==> 0 <= #[trigger] order[i] < tasks_of(config).len(),
        forall|i: int, j: int| 0 <= i < j < order.len() ==> order[i] != order[j],
    ensures
        with_port(merged(config, observed, order), port) == if exists|i: int|
            0 <= i < order.len() && tasks_of(config)[#[trigger] order[i]].holds(port as int) {
            result_for(
                config.host@,
                config.start_port as int,
                observed,
                config.no_closed,
                port,
            )
        } else {
            Seq::empty()
        },
    decreases order.len(),
{
    let tasks = tasks_of(config);
    let all = merged(config, observed, order);
    if order.len() == 0 {
        reveal(Seq::filter);
        assert(all =~= Seq::<ResultView>::empty());
    } else {
        let before = order.drop_last();
        let last = order.last();
        let head = merged(config, observed, before);
        let tail = task_results(config, tasks[last], observed);
        lemma_merged_with_port(config, observed, before, port);
        lemma_task_with_port(config, observed, last, port);
        Seq::filter_distributes_over_add(head, tail, |r: ResultView| r.port == port);
        lemma_tasks_disjoint(config);
        if tasks[last].holds(port as int) {
            assert(tasks[order[order.len() - 1]].holds(port as int));
            if exists|i: int| 0 <= i < before.len() && tasks[#[trigger] before[i]].holds(port as int) {
                let i = choose|i: int|
                    0 <= i < before.len() && tasks[#[trigger] before[i]].holds(port as int);
                assert(order[i] == before[i]);
                assert(tasks[order[i]].holds(port as int) && tasks[last].holds(port as int));
                assert(false);
            }
            assert(with_port(all, port) =~= with_port(tail, port));
        } else {
            if exists|i: int| 0 <= i < order.len() && tasks[#[trigger] order[i]].holds(port as int) {
                let i = choose|i: int|
                    0 <= i < order.len() && tasks[#[trigger] order[i]].holds(port as int);
                assert(i < before.len());
                assert(before[i] == order[i]);
            } else {
                assert forall|i: int| 0 <= i < before.len() implies !tasks[#[trigger] before[i]].holds(
                    port as int,
                ) by {
                    assert(before[i] == order[i]);
                }
            }
            assert(with_port(all, port) =~= with_port(head, port));
        }
    }
}

/// The number of threads and the order in which the workers finish do not
/// matter: once sorted by port, the merged results of the workers are the
/// results of one pass over the whole range. So a scan with one thread and
/// a scan with any other number of threads come to the same final results,
/// where the probes come to the same statuses.
pub proof fn lemma_threads_do_not_matter(
    config: Config,
    observed: Seq<PortStatus>,
    order: Seq<int>,
)
    requires
        config.is_valid(),
        observed.len() == config.total_ports(),
        is_merge_order(order, tasks_of(config).len()),
    ensures
        is_stable_sort(
            range_results(config.host@, config.start_port as int, observed, config.no_closed),
            merged(config, observed, order),
        ),
        final_results(merged(config, observed, order), true, config.no_closed) == range_results(
            config.host@,
            config.start_port as int,
            observed,
            config.no_closed,
        ),
{
    let tasks = tasks_of(config);
    let all = merged(config, observed, order);
    let single = range_results(
        config.host@,
        config.start_port as int,
        observed,
        config.no_closed,
    );
    lemma_range_results_final(
        config.host@,
        config.start_port,
        observed,
        config.no_closed,
        false,
    );
    assert forall|port: u16| with_port(single, port) == with_port(all, port) by {
        lemma_with_port_range(
            config.host@,
            config.start_port as int,
            observed,
            config.no_closed,
            port,
        );
        lemma_merged_with_port(config, observed, order, port);
        lemma_tasks_disjoint(config);
        lemma_tasks_cover(config);
        if config.start_port <= port <= config.end_port {
            assert(assigned(tasks, port as int));
            let k = choose|k: int| 0 <= k < tasks.len() && (#[trigger] tasks[k]).holds(port as int);
            assert(order.contains(k));
            let i = choose|i: int| 0 <= i < order.len() && order[i] == k;
            assert(tasks[order[i]].holds(port as int));
        } else {
            assert forall|i: int| 0 <= i < order.len() implies !tasks[#[trigger] order[i]].holds(
                port as int,
            ) by {}
        }
    }
    lemma_stable_sorted_is(single, all);
}

/// One thread or many: two valid configurations that differ in nothing but
/// the number of threads come to the same sorted final results, in whatever
/// order the workers of either hand in theirs, where the probes come to the
/// same statuses.
pub proof fn lemma_thread_count_is_irrelevant(
    one: Config,
    other: Config,
    observed: Seq<PortStatus>,
    order_one: Seq<int>,
    order_other: Seq<int>,
)
    requires
        one.is_valid(),
        other.is_valid(),
        one.host@ == other.host@,
        one.start_port == other.start_port,
        one.end_port == other.end_port,
        one.no_closed == other.no_closed,
        observed.len() == one.total_ports(),
        is_merge_order(order_one, tasks_of(one).len()),
        is_merge_order(order_other, tasks_of(other).len()),
    ensures
        final_results(merged(one, observed, order_one), true, one.no_closed) == final_results(
            merged(other, observed, order_other),
            true,
            other.no_closed,
        ),
{
    lemma_threads_do_not_matter(one, observed, order_one);
    lemma_threads_do_not_matter(other, observed, order_other);
}

} // verus!
