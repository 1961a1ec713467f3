//! The coordinator: one matrix that several participants fill together.
//!
//! The matrix is cut into sections once; each participant claims the section
//! with its own index, computes on it on its own, and releases it. The matrix
//! may be read when every section has been released. Every method is one
//! indivisible step of this protocol, and `Coordination` is the protocol as a
//! state machine, of which the laws below are proved.

use crate::matrix::{section_of, with_section, Matrix, MatrixSection};
use vstd::prelude::*;

verus! {

/// The state of the protocol.
pub struct Coordination {
    /// The buffer of the matrix.
    pub matrix: Seq<i32>,
    /// How many numbers a section holds.
    pub section_size: nat,
    /// How many sections, and participants, there are.
    pub n_sections: nat,
    /// Some participant has taken it on itself to cut the matrix.
    pub initializing: bool,
    /// The sections have been cut and can be claimed.
    pub initialized: bool,
    /// For each section, whether it can still be claimed.
    pub available: Seq<bool>,
    /// For each section, its numbers while it lies with the coordinator.
    pub slots: Seq<Option<Seq<i32>>>,
    /// How many sections have been released.
    pub completed: nat,
}

impl Coordination {
    /// The state before anything has happened.
    pub open spec fn fresh(matrix: Seq<i32>, section_size: nat, n_sections: nat) -> Coordination {
        Coordination {
            matrix,
            section_size,
            n_sections,
            initializing: false,
            initialized: false,
            available: Seq::new(n_sections, |k: int| true),
            slots: Seq::empty(),
            completed: 0,
        }
    }

    /// Section `idx` lies with the coordinator and has not been claimed.
    pub open spec fn claimable(self, idx: int) -> bool {
        self.initialized && 0 <= idx < self.n_sections && self.available[idx]
    }

    /// Section `idx` has been claimed and not released: its slot is empty.
    pub open spec fn claimed(self, idx: int) -> bool {
        self.initialized && 0 <= idx < self.n_sections && !self.available[idx]
            && self.slots[idx] is None
    }

    /// Section `idx` has been claimed and released.
    pub open spec fn released(self, idx: int) -> bool {
        self.initialized && 0 <= idx < self.n_sections && !self.available[idx]
            && self.slots[idx] is Some
    }

    /// Every section has been released: the matrix may be read.
    pub open spec fn complete(self) -> bool {
        self.completed == self.n_sections
    }

    /// How many of the first `k` sections have been released.
    pub open spec fn released_among(self, k: int) -> nat
        decreases k,
    {
        if k <= 0 {
            0
        } else if self.released(k - 1) {
            self.released_among(k - 1) + 1
        } else {
            self.released_among(k - 1)
        }
    }

    /// Slot `k` is in order: a section that can be claimed lies in its slot,
    /// and a section that lies in its slot holds its part of the matrix.
    pub open spec fn slot_in_order(self, k: int) -> bool {
        &&& self.available[k] ==> self.slots[k] is Some
        &&& self.slots[k] is Some ==> self.slots[k].unwrap() == section_of(
            self.matrix,
            self.section_size as int,
            k,
        )
    }

    /// What holds of every state that the protocol reaches.
    pub open spec fn inv(self) -> bool {
        &&& self.available.len() == self.n_sections
        &&& self.initialized ==> self.matrix.len() == self.section_size * self.n_sections
        &&& self.initialized ==> self.initializing
        &&& !self.initialized ==> self.slots.len() == 0 && self.completed == 0 && forall|k: int|
            0 <= k < self.n_sections ==> #[trigger] self.available[k]
        &&& self.initialized ==> self.slots.len() == self.n_sections
        &&& self.initialized ==> forall|k: int|
            0 <= k < self.n_sections ==> #[trigger] self.slot_in_order(k)
        &&& self.completed == self.released_among(self.n_sections as int)
    }

    /// A participant tries to take the cutting on itself: it has it if and
    /// only if nobody had it before.
    pub open spec fn begin_initialize(self) -> (Coordination, bool) {
        (Coordination { initializing: true, ..self }, !self.initializing)
    }

    /// The participant that has the cutting cuts the matrix and makes the
    /// sections known.
    pub open spec fn publish(self) -> Coordination {
        Coordination {
            initialized: true,
            slots: Seq::new(
                self.n_sections,
                |k: int| Some(section_of(self.matrix, self.section_size as int, k)),
            ),
            ..self
        }
    }

    /// One call of `initialize`: the participant that comes first cuts and
    /// publishes, every other changes nothing.
    pub open spec fn initialize(self) -> Coordination {
        if self.begin_initialize().1 {
            self.begin_initialize().0.publish()
        } else {
            self
        }
    }

    /// `k` calls of `initialize`, one after the other.
    pub open spec fn initialize_times(self, k: nat) -> Coordination
        decreases k,
    {
        if k == 0 {
            self
        } else {
            self.initialize_times((k - 1) as nat).initialize()
        }
    }

    /// How many of `k` calls of `initialize`, one after the other, cut the
    /// matrix.
    pub open spec fn cuts_in(self, k: nat) -> nat
        decreases k,
    {
        if k == 0 {
            0
        } else if self.initialize_times((k - 1) as nat).begin_initialize().1 {
            self.cuts_in((k - 1) as nat) + 1
        } else {
            self.cuts_in((k - 1) as nat)
        }
    }

    /// Section `idx` leaves the coordinator: it cannot be claimed again and
    /// its slot is empty.
    pub open spec fn claim(self, idx: int) -> Coordination {
        Coordination {
            available: self.available.update(idx, false),
            slots: self.slots.update(idx, None),
            ..self
        }
    }

    /// Section `idx` comes back with the numbers `part`: they are counted,
    /// put into the slot and into the matrix. The section stays unavailable.
    pub open spec fn release(self, idx: int, part: Seq<i32>) -> Coordination {
        Coordination {
            completed: self.completed + 1,
            slots: self.slots.update(idx, Some(part)),
            matrix: with_section(self.matrix, self.section_size as int, idx, part),
            ..self
        }
    }

    /// One participant's whole part: it claims section `idx` and releases it
    /// with the numbers `part`.
    pub open spec fn compute(self, idx: int, part: Seq<i32>) -> Coordination {
        self.claim(idx).release(idx, part)
    }

    /// The parts of several participants, one after the other: participant
    /// `i` has section `order[i]` and releases it with `parts[i]`.
    pub open spec fn compute_each(self, order: Seq<int>, parts: Seq<Seq<i32>>) -> Coordination
        decreases order.len(),
    {
        if order.len() == 0 {
            self
        } else {
            self.compute_each(order.drop_last(), parts.drop_last()).compute(
                order.last(),
                parts.last(),
            )
        }
    }
}

/// One matrix that `N_SECTIONS` participants fill together, each its own
/// section.
#[derive(Debug)]
pub struct SharedMatrix<
    const SIDE: usize,
    const SIZE: usize,
    const SECTION_SIZE: usize,
    const N_SECTIONS: usize,
> {
    matrix: Matrix<SIDE, SIZE, SECTION_SIZE, N_SECTIONS>,
    sections: Option<Vec<Option<MatrixSection<SECTION_SIZE, SIDE, SIZE, N_SECTIONS>>>>,
    initializing: bool,
    initialized: bool,
    section_available: [bool; N_SECTIONS],
    computation_completed: usize,
}

/// The numbers of the section in a slot, if one lies there.
pub open spec fn slot_view<
    const SIDE: usize,
    const SIZE: usize,
    const SECTION_SIZE: usize,
    const N_SECTIONS: usize,
>(slot: Option<MatrixSection<SECTION_SIZE, SIDE, SIZE, N_SECTIONS>>) -> Option<Seq<i32>> {
    match slot {
        Some(section) => Some(section@),
        None => None,
    }
}

impl<
    const SIDE: usize,
    const SIZE: usize,
    const SECTION_SIZE: usize,
    const N_SECTIONS: usize,
> SharedMatrix<SIDE, SIZE, SECTION_SIZE, N_SECTIONS> {
    /// The state of the protocol that the coordinator is in.
    pub closed spec fn view(&self) -> Coordination {
        Coordination {
            matrix: self.matrix@,
            section_size: SECTION_SIZE as nat,
            n_sections: N_SECTIONS as nat,
            initializing: self.initializing,
            initialized: self.initialized,
            available: self.section_available@,
            slots: match self.sections {
                Some(slots) => Seq::new(slots@.len(), |k: int| slot_view(slots@[k])),
                None => Seq::empty(),
            },
            completed: self.computation_completed as nat,
        }
    }

    /// The section that lies in slot `idx`.
    pub closed spec fn section_at(&self, idx: int) -> MatrixSection<
        SECTION_SIZE,
        SIDE,
        SIZE,
        N_SECTIONS,
    > {
        self.sections.unwrap()@[idx].unwrap()
    }

    /// The coordinator is in a state that the protocol reaches, and each
    /// section in a slot is the valid section of that slot's number.
    pub closed spec fn wf(&self) -> bool {
        &&& self@.inv()
        &&& self.initialized == (self.sections is Some)
        &&& self.initialized ==> Matrix::<SIDE, SIZE, SECTION_SIZE, N_SECTIONS>::partition_valid()
        &&& self.initialized ==> forall|k: int|
            0 <= k < N_SECTIONS && (#[trigger] self.sections.unwrap()@[k]) is Some ==> {
                &&& self.sections.unwrap()@[k].unwrap().wf()
                &&& self.sections.unwrap()@[k].unwrap().number() == k
            }
    }

    /// What a valid coordinator promises: its state keeps the protocol's
    /// promises, and a section in a slot is valid, has the slot's number
    /// and holds its part of the matrix.
    pub proof fn lemma_wf(&self)
        requires
            self.wf(),
        ensures
            self@.inv(),
            self@.section_size == SECTION_SIZE,
            self@.n_sections == N_SECTIONS,
            self@.matrix.len() == SIZE,
            self@.initialized ==> Matrix::<SIDE, SIZE, SECTION_SIZE, N_SECTIONS>::partition_valid(),
            forall|k: int|
                0 <= k < N_SECTIONS && self@.initialized && self@.slots[k] is Some ==> {
                    &&& (#[trigger] self.section_at(k)).wf()
                    &&& self.section_at(k).number() == k
                    &&& self.section_at(k)@ == self@.slots[k].unwrap()
                    &&& self.section_at(k)@ == section_of(self@.matrix, SECTION_SIZE as int, k)
                },
    {
        self.matrix.lemma_len();
        assert forall|k: int|
            0 <= k < N_SECTIONS && self@.initialized && self@.slots[k] is Some implies {
            &&& (#[trigger] self.section_at(k)).wf()
            &&& self.section_at(k).number() == k
            &&& self.section_at(k)@ == self@.slots[k].unwrap()
            &&& self.section_at(k)@ == section_of(self@.matrix, SECTION_SIZE as int, k)
        } by {
            assert(self@.slot_in_order(k));
            assert(self.sections.unwrap()@[k] is Some);
        }
    }

    /// The coordinator of `init_value`: nothing has happened yet.
    pub fn new(init_value: Matrix<SIDE, SIZE, SECTION_SIZE, N_SECTIONS>) -> (shared: Self)
        ensures
            shared.wf(),
            shared@ == Coordination::fresh(init_value@, SECTION_SIZE as nat, N_SECTIONS as nat),
    {
        let shared = SharedMatrix {
            matrix: init_value,
            sections: None,
            initializing: false,
            initialized: false,
            section_available: [true; N_SECTIONS],
            computation_completed: 0,
        };
        proof {
            lemma_fresh_inv(init_value@, SECTION_SIZE as nat, N_SECTIONS as nat);
            assert(shared@.available =~= Seq::new(N_SECTIONS as nat, |k: int| true));
            assert(shared@.slots =~= Seq::empty());
        }
        shared
    }

    /// Whether the sections have been cut and made known.
    pub fn is_initialized(&self) -> (yes: bool)
        ensures
            yes == self@.initialized,
    {
        self.initialized
    }

    /// Whether section `section_idx` can be claimed.
    pub fn is_claimable(&self, section_idx: usize) -> (yes: bool)
        ensures
            yes == self@.claimable(section_idx as int),
    {
        self.initialized && section_idx < N_SECTIONS && self.section_available[section_idx]
    }

    /// Whether section `section_idx` has been claimed and not yet released.
    pub fn is_claimed(&self, section_idx: usize) -> (yes: bool)
        requires
            self.wf(),
        ensures
            yes == self@.claimed(section_idx as int),
    {
        if self.initialized && section_idx < N_SECTIONS && !self.section_available[section_idx] {
            match &self.sections {
                Some(slots) => slots[section_idx].is_none(),
                None => false,
            }
        } else {
            false
        }
    }

    /// How many sections have been released.
    pub fn completed(&self) -> (count: usize)
        ensures
            count == self@.completed,
    {
        self.computation_completed
    }

    /// Whether every section has been released, so that the matrix may be
    /// read.
    pub fn is_complete(&self) -> (yes: bool)
        ensures
            yes == self@.complete(),
    {
        self.computation_completed == N_SECTIONS
    }

    /// Tries to take the cutting of the matrix on the caller: it has it if
    /// and only if nobody had it before.
    pub fn begin_initialize(&mut self) -> (won: bool)
        requires
            old(self).wf(),
        ensures
            final(self).wf(),
            (final(self)@, won) == old(self)@.begin_initialize(),
    {
        let won = !self.initializing;
        self.initializing = true;
        proof {
            lemma_released_among_same(old(self)@, self@, N_SECTIONS as int);
        }
        won
    }

    /// Cuts the matrix into its sections and makes them known. For the
    /// caller that `begin_initialize` chose.
    pub fn publish_sections(&mut self)
        requires
            old(self).wf(),
            old(self)@.initializing,
            !old(self)@.initialized,
            Matrix::<SIDE, SIZE, SECTION_SIZE, N_SECTIONS>::partition_valid(),
        ensures
            final(self).wf(),
            final(self)@ == old(self)@.publish(),
    {
        let sections = self.matrix.sections_mut();
        self.sections = Some(sections);
        self.initialized = true;
        proof {
            let c = old(self)@;
            let d = self@;
            self.matrix.lemma_len();
            assert(d.slots =~= c.publish().slots);
            assert forall|k: int| 0 <= k < N_SECTIONS implies #[trigger] d.slot_in_order(k) by {
                assert(sections@[k] is Some);
            }
            assert forall|i: int| 0 <= i < N_SECTIONS implies !c.released(i) && !d.released(i) by {
                assert(c.available[i]);
            }
            lemma_released_among_same(c, d, N_SECTIONS as int);
        }
    }

    /// Initializes the coordinator. The caller that comes first cuts the
    /// matrix and makes the sections known; for every other caller nothing
    /// changes.
    pub fn initialize(&mut self)
        requires
            old(self).wf(),
            Matrix::<SIDE, SIZE, SECTION_SIZE, N_SECTIONS>::partition_valid(),
        ensures
            final(self).wf(),
            final(self)@ == old(self)@.initialize(),
    {
        if self.begin_initialize() {
            self.publish_sections();
        }
    }

    /// Claims section `section_idx`: takes it out of its slot, for the
    /// caller alone.
    pub fn get_section(&mut self, section_idx: usize) -> (section: MatrixSection<
        SECTION_SIZE,
        SIDE,
        SIZE,
        N_SECTIONS,
    >)
        requires
            old(self).wf(),
            old(self)@.claimable(section_idx as int),
        ensures
            final(self).wf(),
            final(self)@ == old(self)@.claim(section_idx as int),
            section == old(self).section_at(section_idx as int),
            section.wf(),
            section.number() == section_idx,
            section@ == section_of(old(self)@.matrix, SECTION_SIZE as int, section_idx as int),
    {
        proof {
            old(self).lemma_wf();
            lemma_claim_inv(old(self)@, section_idx as int);
        }
        assert(old(self)@.slot_in_order(section_idx as int));
        assert(old(self).sections.unwrap()@[section_idx as int] is Some);
        self.section_available[section_idx] = false;
        let mut slots = self.sections.take().unwrap();
        let ghost before = slots@;
        let section = slots[section_idx].take().unwrap();
        assert(slots@ == before.update(section_idx as int, None));
        self.sections = Some(slots);
        proof {
            assert(self@.slots =~= old(self)@.claim(section_idx as int).slots);
        }
        section
    }

    /// Releases section `section_idx`: counts it as completed, puts its
    /// numbers into the matrix and the section back into its slot. The
    /// section does not become claimable again.
    pub fn notify_completed(
        &mut self,
        section: MatrixSection<SECTION_SIZE, SIDE, SIZE, N_SECTIONS>,
        section_idx: usize,
    )
        requires
            old(self).wf(),
            old(self)@.claimed(section_idx as int),
            section.wf(),
            section.number() == section_idx,
        ensures
            final(self).wf(),
            final(self)@ == old(self)@.release(section_idx as int, section@),
            final(self).section_at(section_idx as int) == section,
    {
        proof {
            old(self).lemma_wf();
            section.lemma_len();
            lemma_release_inv(old(self)@, section_idx as int, section@);
        }
        self.computation_completed = self.computation_completed + 1;
        self.matrix.write_back(&section);
        let mut slots = self.sections.take().unwrap();
        let ghost before = slots@;
        slots[section_idx] = Some(section);
        assert(slots@ == before.update(section_idx as int, Some(section)));
        self.sections = Some(slots);
        proof {
            assert(self@.slots =~= old(self)@.release(section_idx as int, section@).slots);
        }
    }

    /// Claims section `section_idx`, lets `compute_fn` work on it, and
    /// releases what `compute_fn` hands back.
    pub fn compute(
        &mut self,
        compute_fn: impl FnOnce(
            MatrixSection<SECTION_SIZE, SIDE, SIZE, N_SECTIONS>,
        ) -> MatrixSection<SECTION_SIZE, SIDE, SIZE, N_SECTIONS>,
        section_idx: usize,
    )
        requires
            old(self).wf(),
            old(self)@.claimable(section_idx as int),
            call_requires(compute_fn, (old(self).section_at(section_idx as int),)),
            forall|done: MatrixSection<SECTION_SIZE, SIDE, SIZE, N_SECTIONS>|
                call_ensures(compute_fn, (old(self).section_at(section_idx as int),), done)
                    ==> done.wf() && done.number() == section_idx,
        ensures
            final(self).wf(),
            call_ensures(
                compute_fn,
                (old(self).section_at(section_idx as int),),
                final(self).section_at(section_idx as int),
            ),
            final(self)@ == old(self)@.compute(
                section_idx as int,
                final(self).section_at(section_idx as int)@,
            ),
    {
        proof {
            lemma_claim_inv(old(self)@, section_idx as int);
        }
        let section = self.get_section(section_idx);
        let done = compute_fn(section);
        self.notify_completed(done, section_idx);
    }

    /// The matrix, once every section has been released.
    pub fn matrix(&self) -> (m: &Matrix<SIDE, SIZE, SECTION_SIZE, N_SECTIONS>)
        requires
            self@.complete(),
        ensures
            m@ == self@.matrix,
    {
        &self.matrix
    }
}

proof fn lemma_released_among_bound(c: Coordination, k: int)
    requires
        0 <= k,
    ensures
        c.released_among(k) <= k,
        (exists|i: int| 0 <= i < k && !c.released(i)) ==> c.released_among(k) < k,
        c.released_among(k) == k ==> forall|i: int| 0 <= i < k ==> c.released(i),
        (forall|i: int| 0 <= i < k ==> c.released(i)) ==> c.released_among(k) == k,
        (forall|i: int| 0 <= i < k ==> !c.released(i)) ==> c.released_among(k) == 0,
    decreases k,
{
    if k > 0 {
        lemma_released_among_bound(c, k - 1);
    }
}

proof fn lemma_released_among_same(c: Coordination, d: Coordination, k: int)
    requires
        0 <= k,
        forall|i: int| 0 <= i < k ==> c.released(i) == d.released(i),
    ensures
        c.released_among(k) == d.released_among(k),
    decreases k,
{
    if k > 0 {
        lemma_released_among_same(c, d, k - 1);
    }
}

proof fn lemma_released_among_one_more(c: Coordination, d: Coordination, idx: int, k: int)
    requires
        0 <= idx < k,
        !c.released(idx),
        d.released(idx),
        forall|i: int| 0 <= i < k && i != idx ==> c.released(i) == d.released(i),
    ensures
        d.released_among(k) == c.released_among(k) + 1,
    decreases k,
{
    if idx == k - 1 {
        lemma_released_among_same(c, d, k - 1);
    } else {
        lemma_released_among_one_more(c, d, idx, k - 1);
    }
}

proof fn lemma_section_of_with_section(
    data: Seq<i32>,
    section_size: nat,
    n_sections: nat,
    idx: int,
    part: Seq<i32>,
    k: int,
)
    requires
        data.len() == section_size * n_sections,
        part.len() == section_size,
        0 <= idx < n_sections,
        0 <= k < n_sections,
    ensures
        with_section(data, section_size as int, idx, part).len() == data.len(),
        section_of(
            with_section(data, section_size as int, idx, part),
            section_size as int,
            k,
        ) == if k == idx {
            part
        } else {
            section_of(data, section_size as int, k)
        },
{
    let ss = section_size as int;
    let n = n_sections as int;
    let joined = with_section(data, ss, idx, part);
    assert(0 <= k * ss && (k + 1) * ss <= ss * n && (k + 1) * ss == k * ss + ss)
        by (nonlinear_arith)
        requires
            0 <= k < n,
            0 <= ss,
    ;
    assert((idx + 1) * ss == idx * ss + ss) by (nonlinear_arith);
    if k == idx {
        assert(section_of(joined, ss, k) =~= part);
    } else {
        assert(k < idx ==> (k + 1) * ss <= idx * ss) by (nonlinear_arith)
            requires
                0 <= ss,
        ;
        assert(k > idx ==> (idx + 1) * ss <= k * ss) by (nonlinear_arith)
            requires
                0 <= ss,
        ;
        assert(section_of(joined, ss, k) =~= section_of(data, ss, k));
    }
}

/// The first state keeps the protocol's promises.
pub proof fn lemma_fresh_inv(matrix: Seq<i32>, section_size: nat, n_sections: nat)
    ensures
        Coordination::fresh(matrix, section_size, n_sections).inv(),
{
    let c = Coordination::fresh(matrix, section_size, n_sections);
    lemma_released_among_bound(c, n_sections as int);
}

/// Calling `initialize` keeps the protocol's promises, and after it the
/// sections are known: each is its part of the matrix, and can be claimed if
/// it could before.
pub proof fn lemma_initialize_inv(c: Coordination)
    requires
        c.inv(),
        c.initializing ==> c.initialized,
        c.matrix.len() == c.section_size * c.n_sections,
    ensures
        c.initialize().inv(),
        c.initialize().initialized,
        c.initialized ==> c.initialize() == c,
{
    let d = c.initialize();
    if !c.initializing {
        assert forall|k: int| 0 <= k < c.n_sections implies #[trigger] d.slot_in_order(k) by {
            assert(c.available[k]);
        }
        lemma_released_among_bound(c, c.n_sections as int);
        lemma_released_among_bound(d, c.n_sections as int);
        assert(forall|i: int| 0 <= i < c.n_sections ==> !c.released(i) && !d.released(i));
        lemma_released_among_same(c, d, c.n_sections as int);
    }
}

/// Claiming a section that can be claimed keeps the protocol's promises and
/// leaves that section claimed.
pub proof fn lemma_claim_inv(c: Coordination, idx: int)
    requires
        c.inv(),
        c.claimable(idx),
    ensures
        c.claim(idx).inv(),
        c.claim(idx).claimed(idx),
        c.claim(idx).completed == c.completed,
        c.claim(idx).matrix == c.matrix,
{
    let d = c.claim(idx);
    assert forall|i: int| 0 <= i < c.n_sections implies c.released(i) == d.released(i) by {
        if i == idx {
            assert(c.available[i]);
        }
    }
    assert forall|k: int| 0 <= k < c.n_sections implies #[trigger] d.slot_in_order(k) by {
        assert(c.slot_in_order(k));
    }
    lemma_released_among_same(c, d, c.n_sections as int);
}

/// Releasing a claimed section keeps the protocol's promises, counts it, and
/// puts its numbers into its part of the matrix and nowhere else.
pub proof fn lemma_release_inv(c: Coordination, idx: int, part: Seq<i32>)
    requires
        c.inv(),
        c.claimed(idx),
        part.len() == c.section_size,
    ensures
        c.release(idx, part).inv(),
        c.release(idx, part).released(idx),
        c.release(idx, part).completed == c.completed + 1,
        c.release(idx, part).completed <= c.n_sections,
        c.completed < c.n_sections,
{
    let d = c.release(idx, part);
    let n = c.n_sections as int;
    lemma_released_among_one_more(c, d, idx, n);
    lemma_released_among_bound(d, n);
    assert forall|k: int| 0 <= k < n implies #[trigger] d.slot_in_order(k) by {
        assert(c.slot_in_order(k));
        lemma_section_of_with_section(c.matrix, c.section_size, c.n_sections, idx, part, k);
    }
    lemma_section_of_with_section(c.matrix, c.section_size, c.n_sections, idx, part, idx);
}

/// Two flags, two steps. Taking the cutting on oneself keeps the protocol's
/// promises and makes nothing claimable; as long as the sections are not
/// known, nothing can be claimed. Publishing keeps the promises too, and
/// from then on every section can be claimed.
pub proof fn lemma_claims_wait_for_publish(c: Coordination, idx: int)
    requires
        c.inv(),
        !c.initialized,
        c.matrix.len() == c.section_size * c.n_sections,
    ensures
        !c.claimable(idx),
        c.begin_initialize().0.inv(),
        !c.begin_initialize().0.claimable(idx),
        c.begin_initialize().0.publish().inv(),
        0 <= idx < c.n_sections ==> c.begin_initialize().0.publish().claimable(idx),
{
    let begun = c.begin_initialize().0;
    let published = begun.publish();
    let n = c.n_sections as int;
    lemma_released_among_same(c, begun, n);
    assert forall|k: int| 0 <= k < n implies #[trigger] published.slot_in_order(k) by {
        assert(c.available[k]);
    }
    assert forall|i: int| 0 <= i < n implies !c.released(i) && !published.released(i) by {
        assert(c.available[i]);
    }
    lemma_released_among_same(c, published, n);
    if 0 <= idx < n {
        assert(c.available[idx]);
    }
}

/// However many participants call `initialize`, one after the other, on a
/// coordinator that nobody has begun to initialize, the matrix is cut
/// exactly once: by the first. Every call leaves the coordinator
/// initialized, in the state that the first call made, with every section
/// its part of the matrix.
pub proof fn lemma_matrix_is_cut_once(c: Coordination, k: nat)
    requires
        c.inv(),
        !c.initializing,
        c.matrix.len() == c.section_size * c.n_sections,
        k >= 1,
    ensures
        c.cuts_in(k) == 1,
        c.initialize_times(k) == c.initialize(),
        c.initialize_times(k).initialized,
        c.initialize_times(k).inv(),
        forall|i: int|
            0 <= i < c.n_sections ==> #[trigger] c.initialize_times(k).slots[i] == Some(
                section_of(c.matrix, c.section_size as int, i),
            ),
    decreases k,
{
    lemma_initialize_inv(c);
    if k == 1 {
        assert(c.initialize_times(0) == c);
        assert(c.cuts_in(0) == 0);
    } else {
        lemma_matrix_is_cut_once(c, (k - 1) as nat);
    }
}

/// A section that has been claimed cannot be claimed again, whatever
/// happens next: no step of the protocol makes it available.
pub proof fn lemma_claimed_section_stays_unavailable(
    c: Coordination,
    idx: int,
    other: int,
    part: Seq<i32>,
)
    requires
        c.inv(),
        c.claimable(idx),
        0 <= other < c.n_sections,
    ensures
        !c.claim(idx).claimable(idx),
        !c.claim(idx).initialize().claimable(idx),
        !c.claim(idx).begin_initialize().0.claimable(idx),
        !c.claim(idx).release(other, part).claimable(idx),
        other != idx ==> !c.claim(idx).claim(other).claimable(idx),
{
}

/// No step of the protocol makes an unavailable section available.
pub proof fn lemma_unavailable_is_stable(c: Coordination, idx: int, other: int, part: Seq<i32>)
    requires
        c.inv(),
        !c.claimable(idx),
        c.initialized,
        0 <= other < c.n_sections,
    ensures
        !c.initialize().claimable(idx),
        !c.begin_initialize().0.claimable(idx),
        !c.release(other, part).claimable(idx),
        !c.claim(other).claimable(idx),
{
}

/// What has been begun stays begun: no step of the protocol takes back
/// that somebody is initializing, nor that the sections are known.
pub proof fn lemma_flags_never_fall(c: Coordination, idx: int, part: Seq<i32>)
    ensures
        c.initializing ==> c.begin_initialize().0.initializing && c.publish().initializing
            && c.initialize().initializing && c.claim(idx).initializing && c.release(
            idx,
            part,
        ).initializing,
        c.initialized ==> c.begin_initialize().0.initialized && c.publish().initialized
            && c.initialize().initialized && c.claim(idx).initialized && c.release(
            idx,
            part,
        ).initialized,
        c.initializing ==> !c.begin_initialize().1,
{
}

/// Whether `k` is among the first `m` entries of `order`.
spec fn among_first(order: Seq<int>, m: int, k: int) -> bool {
    exists|i: int| 0 <= i < m && order[i] == k
}

proof fn lemma_compute_each_prefix(c: Coordination, order: Seq<int>, parts: Seq<Seq<i32>>, m: int)
    requires
        c.inv(),
        c.initialized,
        forall|k: int| 0 <= k < c.n_sections ==> c.claimable(k),
        0 <= m <= order.len(),
        order.len() == parts.len(),
        forall|i: int| 0 <= i < order.len() ==> 0 <= #[trigger] order[i] < c.n_sections,
        forall|i: int, j: int| 0 <= i < j < order.len() ==> order[i] != order[j],
        forall|i: int| 0 <= i < parts.len() ==> (#[trigger] parts[i]).len() == c.section_size,
    ensures
        c.compute_each(order.take(m), parts.take(m)).inv(),
        c.compute_each(order.take(m), parts.take(m)).initialized,
        c.compute_each(order.take(m), parts.take(m)).n_sections == c.n_sections,
        c.compute_each(order.take(m), parts.take(m)).section_size == c.section_size,
        c.compute_each(order.take(m), parts.take(m)).completed == m,
        forall|i: int|
            0 <= i < m ==> {
                &&& c.compute_each(order.take(m), parts.take(m)).released(#[trigger] order[i])
                &&& c.compute_each(order.take(m), parts.take(m)).slots[order[i]] == Some(parts[i])
            },
        forall|k: int|
            0 <= k < c.n_sections && !#[trigger] among_first(order, m, k) ==> c.compute_each(
                order.take(m),
                parts.take(m),
            ).claimable(k),
    decreases m,
{
    if m == 0 {
        assert(order.take(0).len() == 0);
        assert(c.compute_each(order.take(0), parts.take(0)) == c);
        assert forall|i: int| 0 <= i < c.n_sections implies !c.released(i) by {
            assert(c.claimable(i));
        }
        lemma_released_among_bound(c, c.n_sections as int);
    } else {
        lemma_compute_each_prefix(c, order, parts, m - 1);
        let before = c.compute_each(order.take(m - 1), parts.take(m - 1));
        let idx = order[m - 1];
        let part = parts[m - 1];
        assert(order.take(m).drop_last() =~= order.take(m - 1));
        assert(parts.take(m).drop_last() =~= parts.take(m - 1));
        assert(order.take(m).last() == idx);
        assert(parts.take(m).last() == part);
        let after = c.compute_each(order.take(m), parts.take(m));
        assert(after == before.compute(idx, part));
        assert(!among_first(order, m - 1, idx));
        assert(before.claimable(idx));
        lemma_claim_inv(before, idx);
        lemma_release_inv(before.claim(idx), idx, part);
        assert forall|i: int| 0 <= i < m implies {
            &&& after.released(#[trigger] order[i])
            &&& after.slots[order[i]] == Some(parts[i])
        } by {
            if i < m - 1 {
                assert(before.released(order[i]));
            }
        }
        assert forall|k: int|
            0 <= k < c.n_sections && !#[trigger] among_first(order, m, k) implies after.claimable(
            k,
        ) by {
            assert(order[m - 1] != k);
            if among_first(order, m - 1, k) {
                let i = choose|i: int| 0 <= i < m - 1 && order[i] == k;
                assert(0 <= i < m && order[i] == k);
            }
            assert(before.claimable(k));
        }
    }
}

/// When every participant has claimed its own section and released it,
/// once each and whatever the order, the count of released sections is the
/// number of sections: the matrix may be read. Its part for each section
/// then holds what that section's participant released.
pub proof fn lemma_all_participants_complete(
    c: Coordination,
    order: Seq<int>,
    parts: Seq<Seq<i32>>,
)
    requires
        c.inv(),
        c.initialized,
        forall|k: int| 0 <= k < c.n_sections ==> c.claimable(k),
        order.len() == c.n_sections,
        parts.len() == c.n_sections,
        forall|i: int| 0 <= i < order.len() ==> 0 <= #[trigger] order[i] < c.n_sections,
        forall|i: int, j: int| 0 <= i < j < order.len() ==> order[i] != order[j],
        forall|i: int| 0 <= i < parts.len() ==> (#[trigger] parts[i]).len() == c.section_size,
    ensures
        c.compute_each(order, parts).inv(),
        c.compute_each(order, parts).completed == c.n_sections,
        c.compute_each(order, parts).complete(),
        forall|i: int|
            0 <= i < order.len() ==> section_of(
                c.compute_each(order, parts).matrix,
                c.section_size as int,
                #[trigger] order[i],
            ) == parts[i],
{
    let n = c.n_sections as int;
    lemma_compute_each_prefix(c, order, parts, n);
    assert(order.take(n) =~= order);
    assert(parts.take(n) =~= parts);
    let done = c.compute_each(order, parts);
    assert forall|i: int| 0 <= i < order.len() implies section_of(
        done.matrix,
        c.section_size as int,
        #[trigger] order[i],
    ) == parts[i] by {
        assert(done.released(order[i]));
        assert(done.slot_in_order(order[i]));
    }
}

/// The count of released sections never exceeds the number of sections.
/// It reaches it exactly when every section has been released; the matrix
/// may then be read, and each of its parts holds what was released for it.
pub proof fn lemma_complete_iff_all_released(c: Coordination)
    requires
        c.inv(),
    ensures
        c.completed <= c.n_sections,
        c.complete() <==> forall|i: int| 0 <= i < c.n_sections ==> c.released(i),
        c.complete() && c.n_sections > 0 ==> forall|i: int|
            0 <= i < c.n_sections ==> #[trigger] c.slots[i] == Some(
                section_of(c.matrix, c.section_size as int, i),
            ),
{
    lemma_released_among_bound(c, c.n_sections as int);
    if c.complete() && c.n_sections > 0 {
        assert(c.released(0));
        assert forall|i: int| 0 <= i < c.n_sections implies #[trigger] c.slots[i] == Some(
            section_of(c.matrix, c.section_size as int, i),
        ) by {
            assert(c.released(i));
            assert(c.slot_in_order(i));
        }
    }
}

} // verus!
