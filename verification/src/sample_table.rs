//! The samples of a thread.

use crate::timestamp::{CpuDelta, Timestamp};
use vstd::prelude::*;

verus! {

/// A sample.
#[derive(Debug, Clone, Copy, PartialEq, Eq, Structural)]
pub struct SampleRow {
    pub timestamp: Timestamp,
    pub stack: Option<usize>,
    /// The CPU time since the sample before.
    pub cpu_delta: CpuDelta,
    pub weight: i32,
}

/// The last sample says that no CPU time was used.
pub open spec fn ends_idle(samples: Seq<SampleRow>) -> bool {
    samples.len() > 0 && samples.last().cpu_delta.micros == 0
}

/// The stack of the last sample.
pub open spec fn last_stack(samples: Seq<SampleRow>) -> Option<usize> {
    if samples.len() > 0 {
        samples.last().stack
    } else {
        None
    }
}

/// `weight` can be accumulated into the last sample, if it is to be.
pub open spec fn idle_weight_fits(samples: Seq<SampleRow>, weight: i32) -> bool {
    ends_idle(samples) ==> i32::MIN <= samples.last().weight + weight <= i32::MAX
}

/// With one more sample of no CPU time, which has the stack of the last one. It is combined with
/// the last one if that has no CPU time either.
pub open spec fn with_idle_sample(
    samples: Seq<SampleRow>,
    timestamp: Timestamp,
    weight: i32,
) -> Seq<SampleRow> {
    if ends_idle(samples) {
        samples.drop_last().push(
            SampleRow {
                timestamp,
                weight: (samples.last().weight + weight) as i32,
                ..samples.last()
            },
        )
    } else {
        samples.push(
            SampleRow {
                timestamp,
                stack: last_stack(samples),
                cpu_delta: CpuDelta { micros: 0 },
                weight,
            },
        )
    }
}

/// The sum of all weights.
pub open spec fn total_weight(samples: Seq<SampleRow>) -> int
    decreases samples.len(),
{
    if samples.len() == 0 {
        0
    } else {
        total_weight(samples.drop_last()) + samples.last().weight
    }
}

/// Consecutive samples of no CPU time are one sample with an accumulated weight: adding two of
/// them, one after the other, leaves what adding one of them with both weights would leave, and
/// their weights are all counted.
pub proof fn idle_samples_are_combined(
    samples: Seq<SampleRow>,
    first: Timestamp,
    first_weight: i32,
    second: Timestamp,
    second_weight: i32,
)
    requires
        idle_weight_fits(samples, first_weight),
        i32::MIN <= first_weight + second_weight <= i32::MAX,
        idle_weight_fits(with_idle_sample(samples, first, first_weight), second_weight),
    ensures
        ends_idle(with_idle_sample(samples, first, first_weight)),
        last_stack(with_idle_sample(samples, first, first_weight)) == last_stack(samples),
        with_idle_sample(
            with_idle_sample(samples, first, first_weight),
            second,
            second_weight,
        ) == with_idle_sample(samples, second, (first_weight + second_weight) as i32),
        total_weight(with_idle_sample(samples, first, first_weight)) == total_weight(samples)
            + first_weight,
{
    let once = with_idle_sample(samples, first, first_weight);
    assert(once.drop_last() =~= if ends_idle(samples) {
        samples.drop_last()
    } else {
        samples
    });
    assert(with_idle_sample(once, second, second_weight) =~= with_idle_sample(
        samples,
        second,
        (first_weight + second_weight) as i32,
    ));
}

/// The samples of a thread.
#[derive(Debug)]
pub struct SampleTable {
    samples: Vec<SampleRow>,
}

impl View for SampleTable {
    type V = Seq<SampleRow>;

    closed spec fn view(&self) -> Seq<SampleRow> {
        self.samples@
    }
}

impl SampleTable {
    pub fn new() -> (table: Self)
        ensures
            table@ == Seq::<SampleRow>::empty(),
    {
        SampleTable { samples: Vec::new() }
    }

    pub fn rows(&self) -> (rows: &Vec<SampleRow>)
        ensures
            rows@ == self@,
    {
        &self.samples
    }

    /// Add a sample.
    pub fn add_sample(
        &mut self,
        timestamp: Timestamp,
        stack: Option<usize>,
        cpu_delta: CpuDelta,
        weight: i32,
    )
        ensures
            final(self)@ == old(self)@.push(SampleRow { timestamp, stack, cpu_delta, weight }),
    {
        self.samples.push(SampleRow { timestamp, stack, cpu_delta, weight });
    }

    /// Add a sample of no CPU time, with the stack of the last one.
    pub fn add_sample_same_stack_zero_cpu(&mut self, timestamp: Timestamp, weight: i32)
        requires
            idle_weight_fits(old(self)@, weight),
        ensures
            final(self)@ == with_idle_sample(old(self)@, timestamp, weight),
    {
        match self.samples.pop() {
            Some(last) => {
                assert(old(self)@ =~= self@.push(last));
                if last.cpu_delta.micros == 0 {
                    let weight: i32 = last.weight + weight;
                    self.samples.push(SampleRow { timestamp, weight, ..last });
                } else {
                    self.samples.push(last);
                    self.add_sample(timestamp, last.stack, CpuDelta::zero(), weight);
                }
            },
            None => self.add_sample(timestamp, None, CpuDelta::zero(), weight),
        }
    }
}

/// What adding a sample of no CPU time does, by the CPU time of the last sample.
///
/// Behind a sample with CPU time it is one more sample: all others stay as they are, and it has
/// the given time and weight, the stack of the last one and no CPU time. Behind a sample without
/// CPU time there is no further sample: the last one takes on the given time, its weight grows by
/// the given one, and all else stays as it is.
pub proof fn idle_sample_never_touches_cpu_time(
    samples: Seq<SampleRow>,
    timestamp: Timestamp,
    weight: i32,
)
    requires
        samples.len() > 0 && samples.last().cpu_delta.micros == 0 ==> i32::MIN
            <= samples.last().weight + weight <= i32::MAX,
    ensures
        idle_weight_fits(samples, weight),
        ({
            let after = with_idle_sample(samples, timestamp, weight);
            let n = samples.len() as int;
            &&& after.len() > 0
            &&& after.last().timestamp == timestamp
            &&& after.last().cpu_delta.micros == 0
            &&& n > 0 && samples[n - 1].cpu_delta.micros != 0 ==> {
                &&& after.len() == n + 1
                &&& forall|i: int| 0 <= i < n ==> after[i] == #[trigger] samples[i]
                &&& after[n].stack == samples[n - 1].stack
                &&& after[n].weight == weight
            }
            &&& n > 0 && samples[n - 1].cpu_delta.micros == 0 ==> {
                &&& after.len() == n
                &&& forall|i: int| 0 <= i < n - 1 ==> after[i] == #[trigger] samples[i]
                &&& after[n - 1].stack == samples[n - 1].stack
                &&& after[n - 1].weight == samples[n - 1].weight + weight
            }
            &&& n == 0 ==> {
                &&& after.len() == 1
                &&& after[0].stack is None
                &&& after[0].weight == weight
            }
        }),
{
}

/// No CPU time is lost or made up by samples of no CPU time.
pub proof fn idle_samples_keep_the_cpu_time(
    samples: Seq<SampleRow>,
    timestamp: Timestamp,
    weight: i32,
)
    ensures
        total_cpu_time(with_idle_sample(samples, timestamp, weight)) == total_cpu_time(samples),
{
    let after = with_idle_sample(samples, timestamp, weight);
    if samples.len() > 0 && samples.last().cpu_delta.micros == 0 {
        assert(after.drop_last() =~= samples.drop_last());
    } else {
        assert(after.drop_last() =~= samples);
    }
}

/// The sum of all CPU time, in microseconds.
pub open spec fn total_cpu_time(samples: Seq<SampleRow>) -> int
    decreases samples.len(),
{
    if samples.len() == 0 {
        0
    } else {
        total_cpu_time(samples.drop_last()) + samples.last().cpu_delta.micros
    }
}

} // verus!
