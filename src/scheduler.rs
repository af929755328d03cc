use vstd::prelude::*;
use crate::descriptor::{CachedImage, DescriptorModel};

verus! {

/// Why a variant could not be produced.
#[derive(Clone, Debug, PartialEq, Eq)]
pub enum CreateImageError {
    /// The source is missing or is not a decodable image.
    SourceUnreadable(String),
    /// The encoder rejected the image.
    EncodeFailure(String),
    /// Creating a directory, writing the file or probing metadata failed.
    IoFailure(String),
    /// The worker stopped before it produced a result.
    WorkerFailure(String),
    /// The admission limiter can no longer admit work.
    AdmissionFailure(String),
}

/// What a caller of `create_image` does next.
#[derive(Clone, Copy, Debug, PartialEq, Eq, Structural)]
pub enum CreateStep {
    /// The file is already on disk: nothing is created.
    AlreadyDone,
    /// Another caller is producing the variant: wait for its outcome.
    Join,
    /// This caller is the sole producer.
    Produce,
}

/// The step a caller takes, given the descriptors in flight and whether the
/// target file exists.
pub open spec fn step_of(in_flight: Set<DescriptorModel>, k: DescriptorModel, exists: bool) -> CreateStep {
    if exists {
        CreateStep::AlreadyDone
    } else if in_flight.contains(k) {
        CreateStep::Join
    } else {
        CreateStep::Produce
    }
}

/// The descriptors in flight after that step.
pub open spec fn after_step(in_flight: Set<DescriptorModel>, k: DescriptorModel, exists: bool) -> Set<DescriptorModel> {
    if exists {
        in_flight
    } else {
        in_flight.insert(k)
    }
}

/// How many of `n` successive callers for `k`, none of which finds the file,
/// become producers while no computation completes.
pub open spec fn producers(in_flight: Set<DescriptorModel>, k: DescriptorModel, n: nat) -> nat
    decreases n,
{
    if n == 0 {
        0
    } else {
        (if step_of(in_flight, k, false) == CreateStep::Produce {
            1nat
        } else {
            0nat
        }) + producers(after_step(in_flight, k, false), k, (n - 1) as nat)
    }
}

/// The outcome a producer or a waiter reports for a finished computation.
pub open spec fn outcome_of(done: Result<(), CreateImageError>) -> Result<bool, CreateImageError> {
    match done {
        Ok(()) => Ok(true),
        Err(e) => Err(e),
    }
}

/// The descriptors whose transform is running. Each is held once.
pub struct InFlight {
    keys: Vec<CachedImage>,
    members: Ghost<Set<DescriptorModel>>,
}

impl View for InFlight {
    type V = Set<DescriptorModel>;

    closed spec fn view(&self) -> Set<DescriptorModel> {
        self.members@
    }
}

impl InFlight {
    pub closed spec fn wf(&self) -> bool {
        &&& forall|i: int| 0 <= i < self.keys@.len() ==> #[trigger] self.members@.contains(self.keys@[i]@)
        &&& forall|k: DescriptorModel| #[trigger]
            self.members@.contains(k) ==> exists|i: int| 0 <= i < self.keys@.len() && self.keys@[i]@ == k
    }

    pub fn new() -> (r: InFlight)
        ensures
            r.wf(),
            r@ == Set::<DescriptorModel>::empty(),
    {
        InFlight { keys: Vec::new(), members: Ghost(Set::empty()) }
    }

    fn find(&self, key: &CachedImage) -> (r: Option<usize>)
        ensures
            r matches Some(i) ==> i < self.keys@.len() && self.keys@[i as int]@ == key@,
            r is None ==> forall|i: int| 0 <= i < self.keys@.len() ==> self.keys@[i]@ != key@,
    {
        let mut i: usize = 0;
        while i < self.keys.len()
            invariant
                i <= self.keys@.len(),
                forall|j: int| 0 <= j < i ==> self.keys@[j]@ != key@,
            decreases self.keys.len() - i,
        {
            if self.keys[i].same_as(key) {
                return Some(i);
            }
            i = i + 1;
        }
        None
    }

    pub fn is_in_flight(&self, key: &CachedImage) -> (r: bool)
        requires
            self.wf(),
        ensures
            r == self@.contains(key@),
    {
        let r = self.find(key);
        proof {
            if r is None && self@.contains(key@) {
                let i = choose|i: int| 0 <= i < self.keys@.len() && self.keys@[i]@ == key@;
            }
        }
        r.is_some()
    }

    /// Decides, in one step, what a caller of `create_image` does for `key`:
    /// nothing when the file exists, join a computation already in flight, or
    /// register as its sole producer.
    pub fn begin(&mut self, key: &CachedImage, file_exists: bool) -> (r: CreateStep)
        requires
            old(self).wf(),
        ensures
            final(self).wf(),
            r == step_of(old(self)@, key@, file_exists),
            final(self)@ == after_step(old(self)@, key@, file_exists),
    {
        if file_exists {
            return CreateStep::AlreadyDone;
        }
        if self.is_in_flight(key) {
            return CreateStep::Join;
        }
        let ghost m = self.members@.insert(key@);
        self.keys.push(key.duplicate());
        self.members = Ghost(m);
        proof {
            let n = self.keys@.len() - 1;
            assert forall|k: DescriptorModel| #[trigger] m.contains(k) implies exists|i: int|
                0 <= i < self.keys@.len() && self.keys@[i]@ == k by {
                if k == key@ {
                    assert(self.keys@[n]@ == k);
                } else {
                    let j = choose|j: int| 0 <= j < old(self).keys@.len() && old(self).keys@[j]@ == k;
                    assert(self.keys@[j]@ == k);
                }
            }
        }
        CreateStep::Produce
    }

    /// The producer for `key` has finished, with success or not: the entry is
    /// removed and the outcome every caller reports is returned.
    pub fn finish(&mut self, key: &CachedImage, done: Result<(), CreateImageError>) -> (r: Result<bool, CreateImageError>)
        requires
            old(self).wf(),
        ensures
            final(self).wf(),
            final(self)@ == old(self)@.remove(key@),
            r == outcome_of(done),
    {
        let ghost m = self.members@.remove(key@);
        let mut i: usize = 0;
        while i < self.keys.len()
            invariant
                i <= self.keys@.len(),
                m == old(self)@.remove(key@),
                self.members == old(self).members,
                forall|j: int| 0 <= j < i ==> self.keys@[j]@ != key@,
                forall|j: int| 0 <= j < self.keys@.len() ==> #[trigger] m.contains(self.keys@[j]@) || self.keys@[j]@ == key@,
                forall|k: DescriptorModel| #[trigger]
                    m.contains(k) ==> exists|j: int| 0 <= j < self.keys@.len() && self.keys@[j]@ == k,
            decreases self.keys.len() - i,
        {
            if self.keys[i].same_as(key) {
                let ghost before = self.keys@;
                self.keys.remove(i);
                proof {
                    assert forall|j: int| 0 <= j < self.keys@.len() implies #[trigger] m.contains(self.keys@[j]@) || self.keys@[j]@ == key@ by {
                        if j < i {
                            assert(self.keys@[j] == before[j]);
                        } else {
                            assert(self.keys@[j] == before[j + 1]);
                        }
                    }
                    assert forall|k: DescriptorModel| #[trigger] m.contains(k) implies exists|j: int|
                        0 <= j < self.keys@.len() && self.keys@[j]@ == k by {
                        let j = choose|j: int| 0 <= j < before.len() && before[j]@ == k;
                        if j < i {
                            assert(self.keys@[j]@ == k);
                        } else {
                            assert(k != key@);
                            assert(before[i as int]@ == key@);
                            assert(j != i);
                            assert(self.keys@[j - 1]@ == k);
                        }
                    }
                }
            } else {
                i = i + 1;
            }
        }
        self.members = Ghost(m);
        match done {
            Ok(()) => Ok(true),
            Err(e) => Err(e),
        }
    }
}

/// Reports the outcome of a computation that a caller joined.
pub fn joined_outcome(done: Result<(), CreateImageError>) -> (r: Result<bool, CreateImageError>)
    ensures
        r == outcome_of(done),
{
    match done {
        Ok(()) => Ok(true),
        Err(e) => Err(e),
    }
}

/// Counting admission control of fixed capacity for transform work.
pub struct Admission {
    capacity: usize,
    running: usize,
}

impl Admission {
    pub closed spec fn capacity_spec(&self) -> nat {
        self.capacity as nat
    }

    pub closed spec fn running_spec(&self) -> nat {
        self.running as nat
    }

    pub open spec fn wf(&self) -> bool {
        self.running_spec() <= self.capacity_spec()
    }

    pub fn new(capacity: usize) -> (r: Admission)
        ensures
            r.wf(),
            r.capacity_spec() == capacity,
            r.running_spec() == 0,
    {
        Admission { capacity, running: 0 }
    }

    pub fn running(&self) -> (r: usize)
        ensures
            r == self.running_spec(),
    {
        self.running
    }

    pub fn capacity(&self) -> (r: usize)
        ensures
            r == self.capacity_spec(),
    {
        self.capacity
    }

    /// Admits one unit of work if a unit is free.
    pub fn try_admit(&mut self) -> (r: bool)
        requires
            old(self).wf(),
        ensures
            final(self).wf(),
            r == (old(self).running_spec() < old(self).capacity_spec()),
            final(self).capacity_spec() == old(self).capacity_spec(),
            final(self).running_spec() == old(self).running_spec() + if r {
                1nat
            } else {
                0nat
            },
    {
        if self.running < self.capacity {
            self.running = self.running + 1;
            true
        } else {
            false
        }
    }

    /// Gives back a unit when its work completes, whatever the outcome.
    pub fn release(&mut self)
        requires
            old(self).wf(),
            old(self).running_spec() > 0,
        ensures
            final(self).wf(),
            final(self).capacity_spec() == old(self).capacity_spec(),
            final(self).running_spec() == old(self).running_spec() - 1,
    {
        self.running = self.running - 1;
    }
}

/// However many callers ask for the same descriptor before its computation
/// completes, exactly one of them becomes the producer.
pub proof fn lemma_single_producer(in_flight: Set<DescriptorModel>, k: DescriptorModel, n: nat)
    requires
        !in_flight.contains(k),
        n >= 1,
    ensures
        producers(in_flight, k, n) == 1,
    decreases n,
{
    lemma_no_more_producers(in_flight.insert(k), k, (n - 1) as nat);
}

/// Whatever is in flight when a burst of callers for one descriptor begins,
/// at most one of them becomes a producer while no computation completes.
pub proof fn lemma_at_most_one_producer(in_flight: Set<DescriptorModel>, k: DescriptorModel, n: nat)
    ensures
        producers(in_flight, k, n) <= 1,
{
    if in_flight.contains(k) {
        lemma_no_more_producers(in_flight, k, n);
    } else if n >= 1 {
        lemma_single_producer(in_flight, k, n);
    }
}

proof fn lemma_no_more_producers(in_flight: Set<DescriptorModel>, k: DescriptorModel, n: nat)
    requires
        in_flight.contains(k),
    ensures
        producers(in_flight, k, n) == 0,
    decreases n,
{
    if n > 0 {
        assert(in_flight.insert(k) =~= in_flight);
        lemma_no_more_producers(in_flight, k, (n - 1) as nat);
    }
}

/// A computation that succeeds reports a creation; a second request made after
/// it completes finds the file and creates nothing, and the descriptors in
/// flight are as before.
pub proof fn lemma_idempotent(in_flight: Set<DescriptorModel>, k: DescriptorModel)
    requires
        !in_flight.contains(k),
    ensures
        step_of(in_flight, k, false) == CreateStep::Produce,
        outcome_of(Ok(())) == Ok::<bool, CreateImageError>(true),
        after_step(in_flight, k, false).remove(k) == in_flight,
        step_of(in_flight, k, true) == CreateStep::AlreadyDone,
{
    assert(in_flight.insert(k).remove(k) =~= in_flight);
}

/// Admission never lets more units run than its capacity.
pub proof fn lemma_bounded_parallelism(a: Admission)
    requires
        a.wf(),
    ensures
        a.running_spec() <= a.capacity_spec(),
{
}

} // verus!
