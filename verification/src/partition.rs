use vstd::prelude::*;

verus! {

/// An inclusive range of consecutive offsets or ports, `start..=end`.
#[derive(Clone, Copy, Debug, PartialEq, Eq, Structural)]
pub struct ScanRange {
    pub start: u32,
    pub end: u32,
}

impl ScanRange {
    /// A range is valid when it holds at least one number.
    pub open spec fn is_valid(&self) -> bool {
        self.start <= self.end
    }

    /// How many numbers the range holds.
    pub open spec fn size(&self) -> int {
        self.end - self.start + 1
    }

    /// Whether `p` lies in the range.
    pub open spec fn contains(&self, p: int) -> bool {
        self.start <= p <= self.end
    }

    /// How many numbers the range holds; none where `end` is below `start`.
    pub fn len(&self) -> (n: u64)
        ensures
            n == if self.is_valid() {
                self.size()
            } else {
                0
            },
    {
        if self.start <= self.end {
            (self.end - self.start) as u64 + 1
        } else {
            0
        }
    }
}

/// Why a range could not be partitioned.
#[derive(Clone, Copy, Debug, PartialEq, Eq, Structural)]
pub enum PartitionError {
    /// The number of ports or the number of workers is smaller than 1.
    InvalidArgument,
}

/// The number of workers that get a share: never more than there are ports.
pub open spec fn effective_workers(total_ports: int, requested_workers: int) -> int {
    if requested_workers <= total_ports {
        requested_workers
    } else {
        total_ports
    }
}

/// The size of every share but the last: the ports divided evenly among the
/// effective workers, rounded down.
pub open spec fn base_size(total_ports: int, requested_workers: int) -> int {
    total_ports / effective_workers(total_ports, requested_workers)
}

/// The ports that an even division leaves over; the last share takes them.
pub open spec fn remainder(total_ports: int, requested_workers: int) -> int {
    total_ports % effective_workers(total_ports, requested_workers)
}

/// First offset of share `i`.
pub open spec fn share_start(total_ports: int, requested_workers: int, i: int) -> int {
    i * base_size(total_ports, requested_workers)
}

/// Last offset of share `i`: the last share ends with the last offset, every
/// other share just before the next one starts.
pub open spec fn share_end(total_ports: int, requested_workers: int, i: int) -> int {
    if i == effective_workers(total_ports, requested_workers) - 1 {
        total_ports - 1
    } else {
        (i + 1) * base_size(total_ports, requested_workers) - 1
    }
}

/// Share `i` of the plan, as a range of offsets from the first port.
pub open spec fn share(total_ports: int, requested_workers: int, i: int) -> ScanRange {
    ScanRange {
        start: share_start(total_ports, requested_workers, i) as u32,
        end: share_end(total_ports, requested_workers, i) as u32,
    }
}

/// The partition plan: one share for each effective worker, in ascending
/// order of offsets.
pub open spec fn partition_plan(total_ports: int, requested_workers: int) -> Seq<ScanRange> {
    Seq::new(
        effective_workers(total_ports, requested_workers) as nat,
        |i: int| share(total_ports, requested_workers, i),
    )
}

/// The offsets that lie in some range of `plan`.
pub open spec fn covered(plan: Seq<ScanRange>) -> Set<int> {
    Set::new(|p: int| exists|i: int| 0 <= i < plan.len() && (#[trigger] plan[i]).contains(p))
}

/// Where the shares begin and end: each holds `base_size` offsets, the last
/// one the remainder as well, and all of them lie below `total_ports`.
pub proof fn lemma_share_bounds(total_ports: int, requested_workers: int, i: int)
    requires
        1 <= total_ports,
        1 <= requested_workers,
        0 <= i < effective_workers(total_ports, requested_workers),
    ensures
        1 <= base_size(total_ports, requested_workers),
        0 <= remainder(total_ports, requested_workers) < effective_workers(
            total_ports,
            requested_workers,
        ),
        0 <= share_start(total_ports, requested_workers, i) <= share_end(
            total_ports,
            requested_workers,
            i,
        ) < total_ports,
        share_end(total_ports, requested_workers, i) - share_start(
            total_ports,
            requested_workers,
            i,
        ) + 1 == if i == effective_workers(total_ports, requested_workers) - 1 {
            base_size(total_ports, requested_workers) + remainder(total_ports, requested_workers)
        } else {
            base_size(total_ports, requested_workers)
        },
        i + 1 < effective_workers(total_ports, requested_workers) ==> share_start(
            total_ports,
            requested_workers,
            i + 1,
        ) == share_end(total_ports, requested_workers, i) + 1,
{
    let w = effective_workers(total_ports, requested_workers);
    let b = total_ports / w;
    let r = total_ports % w;
    assert(total_ports == w * b + r && 0 <= r < w && 1 <= b) by (nonlinear_arith)
        requires
            1 <= w <= total_ports,
            b == total_ports / w,
            r == total_ports % w,
    ;
    assert(0 <= i * b && (i + 1) * b == i * b + b && (i + 1) * b <= w * b) by (nonlinear_arith)
        requires
            0 <= i < w,
            1 <= b,
    ;
    assert((w - 1) * b + b == w * b) by (nonlinear_arith);
}

/// Completeness: for every number of ports and of workers that is at least
/// 1, the shares of the plan are valid ranges that follow one another without
/// a gap, from offset 0 to the last offset; so no two of them overlap, and
/// together they cover the offsets `0..total_ports` and nothing else.
pub proof fn lemma_partition_complete(total_ports: u32, requested_workers: u32)
    requires
        total_ports >= 1,
        requested_workers >= 1,
    ensures
        ({
            let plan = partition_plan(total_ports as int, requested_workers as int);
            &&& plan.len() >= 1
            &&& plan[0].start == 0
            &&& plan[plan.len() - 1].end == total_ports - 1
            &&& forall|i: int| 0 <= i < plan.len() ==> (#[trigger] plan[i]).is_valid()
            &&& forall|i: int|
                0 <= i < plan.len() - 1 ==> (#[trigger] plan[i]).end + 1 == plan[i + 1].start
            &&& forall|i: int, j: int, p: int|
                #![trigger plan[i].contains(p), plan[j].contains(p)]
                0 <= i < plan.len() && 0 <= j < plan.len() && i != j && plan[i].contains(p)
                    ==> !plan[j].contains(p)
            &&& covered(plan) == Set::new(|p: int| 0 <= p < total_ports)
        }),
{
    let t = total_ports as int;
    let r = requested_workers as int;
    let plan = partition_plan(t, r);
    let w = effective_workers(t, r);
    let b = base_size(t, r);
    lemma_share_bounds(t, r, 0);
    lemma_share_bounds(t, r, w - 1);
    assert forall|i: int| 0 <= i < plan.len() implies (#[trigger] plan[i]).is_valid() && 0
        <= plan[i].start == share_start(t, r, i) && plan[i].end == share_end(t, r, i) < t by {
        lemma_share_bounds(t, r, i);
    }
    assert forall|i: int| 0 <= i < plan.len() - 1 implies (#[trigger] plan[i]).end + 1 == plan[i
        + 1].start by {
        lemma_share_bounds(t, r, i);
        lemma_share_bounds(t, r, i + 1);
    }
    assert forall|i: int, j: int| 0 <= i < j < plan.len() implies (#[trigger] plan[i]).end
        < (#[trigger] plan[j]).start by {
        lemma_share_bounds(t, r, i);
        lemma_share_bounds(t, r, j);
        assert((i + 1) * b <= j * b) by (nonlinear_arith)
            requires
                i + 1 <= j,
                1 <= b,
        ;
    }
    assert forall|i: int, j: int, p: int|
        #![trigger plan[i].contains(p), plan[j].contains(p)]
        0 <= i < plan.len() && 0 <= j < plan.len() && i != j && plan[i].contains(p) implies !plan[j].contains(
            p,
        ) by {
        if i < j {
            assert(plan[i].end < plan[j].start);
        } else {
            assert(plan[j].end < plan[i].start);
        }
    }
    assert forall|p: int| 0 <= p < t implies covered(plan).contains(p) by {
        let i = if p / b < w - 1 {
            p / b
        } else {
            w - 1
        };
        lemma_share_bounds(t, r, i);
        assert(p / b * b <= p < (p / b + 1) * b && 0 <= p / b) by (nonlinear_arith)
            requires
                0 <= p,
                1 <= b,
        ;
        if p / b >= w - 1 {
            assert((w - 1) * b <= p / b * b) by (nonlinear_arith)
                requires
                    w - 1 <= p / b,
                    1 <= b,
            ;
        }
        assert(plan[i].contains(p));
    }
    assert(covered(plan) =~= Set::new(|p: int| 0 <= p < t));
}

/// Balance: every share but the last has the same size, and the last one is
/// larger by the remainder of the division. So wherever that remainder is at
/// most 1, the sizes of any two shares differ by at most 1.
pub proof fn lemma_partition_balance(total_ports: u32, requested_workers: u32, i: int, j: int)
    requires
        total_ports >= 1,
        requested_workers >= 1,
        remainder(total_ports as int, requested_workers as int) <= 1,
        0 <= i < partition_plan(total_ports as int, requested_workers as int).len(),
        0 <= j < partition_plan(total_ports as int, requested_workers as int).len(),
    ensures
        ({
            let plan = partition_plan(total_ports as int, requested_workers as int);
            -1 <= plan[i].size() - plan[j].size() <= 1
        }),
{
    lemma_share_bounds(total_ports as int, requested_workers as int, i);
    lemma_share_bounds(total_ports as int, requested_workers as int, j);
}

/// Sizes: every share but the last holds `base_size` offsets, the last one
/// `base_size + remainder`, and the sizes add up to `total_ports`.
pub proof fn lemma_partition_sizes(total_ports: u32, requested_workers: u32, i: int)
    requires
        total_ports >= 1,
        requested_workers >= 1,
        0 <= i < partition_plan(total_ports as int, requested_workers as int).len(),
    ensures
        ({
            let plan = partition_plan(total_ports as int, requested_workers as int);
            let base = base_size(total_ports as int, requested_workers as int);
            let rest = remainder(total_ports as int, requested_workers as int);
            &&& plan[i].size() == if i == plan.len() - 1 {
                base + rest
            } else {
                base
            }
            &&& (plan.len() - 1) * base + (base + rest) == total_ports
        }),
{
    let t = total_ports as int;
    let r = requested_workers as int;
    lemma_share_bounds(t, r, i);
    let w = effective_workers(t, r);
    let b = base_size(t, r);
    assert((w - 1) * b + (b + t % w) == t) by (nonlinear_arith)
        requires
            1 <= w,
            b == t / w,
    ;
}

/// Count: the plan has one share for each effective worker, which is never
/// more than the workers asked for, nor more than there are ports.
pub proof fn lemma_partition_count(total_ports: u32, requested_workers: u32)
    requires
        total_ports >= 1,
        requested_workers >= 1,
    ensures
        ({
            let plan = partition_plan(total_ports as int, requested_workers as int);
            &&& plan.len() == effective_workers(total_ports as int, requested_workers as int)
            &&& 1 <= plan.len() <= requested_workers
            &&& plan.len() <= total_ports
        }),
{
}

/// Divides `total_ports` offsets, `0..total_ports`, among the workers.
///
/// No more workers get a share than there are ports. Every share but the last
/// holds `total_ports / workers` offsets; the last one takes the remainder of
/// that division too. The shares come in ascending order, each starting right
/// after the one before it. A number of ports or of workers below 1 is
/// rejected.
pub fn partition(total_ports: u32, requested_workers: u32) -> (result: Result<
    Vec<ScanRange>,
    PartitionError,
>)
    ensures
        match result {
            Ok(plan) => {
                &&& total_ports >= 1
                &&& requested_workers >= 1
                &&& plan@ == partition_plan(total_ports as int, requested_workers as int)
            },
            Err(error) => {
                &&& error == PartitionError::InvalidArgument
                &&& (total_ports < 1 || requested_workers < 1)
            },
        },
{
    if total_ports < 1 || requested_workers < 1 {
        return Err(PartitionError::InvalidArgument);
    }
    let workers: u32 = if requested_workers <= total_ports {
        requested_workers
    } else {
        total_ports
    };
    let base: u32 = total_ports / workers;
    let mut plan: Vec<ScanRange> = Vec::new();
    let mut i: u32 = 0;
    while i < workers
        invariant
            1 <= total_ports,
            1 <= requested_workers,
            workers == effective_workers(total_ports as int, requested_workers as int),
            base == base_size(total_ports as int, requested_workers as int),
            i <= workers,
            plan@.len() == i,
            forall|k: int|
                0 <= k < i ==> plan@[k] == share(total_ports as int, requested_workers as int, k),
        decreases workers - i,
    {
        proof {
            lemma_share_bounds(total_ports as int, requested_workers as int, i as int);
        }
        assert(i * base == share_start(total_ports as int, requested_workers as int, i as int));
        let start: u32 = i * base;
        let end: u32 = if i == workers - 1 {
            total_ports - 1
        } else {
            assert((i + 1) * base == i * base + base) by (nonlinear_arith);
            start + base - 1
        };
        plan.push(ScanRange { start, end });
        i = i + 1;
    }
    assert(plan@ =~= partition_plan(total_ports as int, requested_workers as int));
    Ok(plan)
}

} // verus!
