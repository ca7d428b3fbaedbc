//! The scheduler: ordered phases of systems driven over an owned world.

use vstd::prelude::*;
use vstd::seq_lib::lemma_multiset_commutative;
use crate::component::{Component, KindId};
use crate::entity::EntityId;
use crate::world::World;

verus! {

/// An execution phase.  Each phase owns an ordered system list; registration
/// order is execution order.
#[derive(Clone, Copy, PartialEq, Eq, Structural, Debug)]
pub enum Schedule {
    /// Runs exactly once, before any update cycle.
    Startup,
    /// Runs every update cycle, before the Update phase.
    PreUpdate,
    /// Runs every update cycle.
    Update,
    /// Runs every update cycle, after the Update phase.
    PostUpdate,
}

/// A processing step run by the scheduler: it receives exclusive access to
/// the world for its whole call and runs to completion synchronously.  The
/// application implements it; the scheduler promises nothing about what a
/// system does to the world, only when and how often it is invoked.
pub trait System<V> {
    /// Performs this system's reads and writes against the world.
    fn run(&self, world: &mut World<V>);
}

/// The application: owns the world and one ordered system list per phase,
/// and drives the phase sequence `Startup, (PreUpdate Update PostUpdate)^n`
/// over the world.
pub struct App<V, S> {
    startup: Vec<S>,
    pre_update: Vec<S>,
    update: Vec<S>,
    post_update: Vec<S>,
    world: World<V>,
}

impl<V: Component, S: System<V>> App<V, S> {
    /// The Startup phase's systems, in registration order.
    pub closed spec fn startup_systems(&self) -> Seq<S> {
        self.startup@
    }

    /// The PreUpdate phase's systems, in registration order.
    pub closed spec fn pre_update_systems(&self) -> Seq<S> {
        self.pre_update@
    }

    /// The Update phase's systems, in registration order.
    pub closed spec fn update_systems(&self) -> Seq<S> {
        self.update@
    }

    /// The PostUpdate phase's systems, in registration order.
    pub closed spec fn post_update_systems(&self) -> Seq<S> {
        self.post_update@
    }

    /// The owned world.
    pub closed spec fn spec_world(&self) -> World<V> {
        self.world
    }

    /// One update cycle: the PreUpdate, Update and PostUpdate lists in phase
    /// order, each list fully drained in registration order.
    pub open spec fn cycle(&self) -> Seq<S> {
        self.pre_update_systems() + self.update_systems() + self.post_update_systems()
    }

    /// The exact sequence of system invocations `run(n)` performs: the
    /// Startup list once, then `n` update cycles.
    pub open spec fn plan(&self, n: nat) -> Seq<S>
        decreases n,
    {
        if n == 0 {
            self.startup_systems()
        } else {
            self.plan((n - 1) as nat) + self.cycle()
        }
    }

    /// Creates an application with an empty world and no systems.
    pub fn new() -> (r: Self)
        ensures
            r.startup_systems() == Seq::<S>::empty(),
            r.pre_update_systems() == Seq::<S>::empty(),
            r.update_systems() == Seq::<S>::empty(),
            r.post_update_systems() == Seq::<S>::empty(),
            r.spec_world().wf(),
            r.spec_world().entity_count() == 0,
            r.spec_world().n_archetypes() == 0,
            forall|e: EntityId, k: KindId| r.spec_world().component_of(e, k) == None::<V>,
    {
        App {
            startup: Vec::new(),
            pre_update: Vec::new(),
            update: Vec::new(),
            post_update: Vec::new(),
            world: World::new(),
        }
    }

    /// Appends `system` to the given phase's ordered list, leaving every
    /// other phase and the world untouched; chainable.
    pub fn add_system(self, schedule: Schedule, system: S) -> (r: Self)
        ensures
            r.spec_world() == self.spec_world(),
            match schedule {
                Schedule::Startup => r.startup_systems() == self.startup_systems().push(system)
                    && r.pre_update_systems() == self.pre_update_systems()
                    && r.update_systems() == self.update_systems()
                    && r.post_update_systems() == self.post_update_systems(),
                Schedule::PreUpdate => r.pre_update_systems()
                        == self.pre_update_systems().push(system)
                    && r.startup_systems() == self.startup_systems()
                    && r.update_systems() == self.update_systems()
                    && r.post_update_systems() == self.post_update_systems(),
                Schedule::Update => r.update_systems() == self.update_systems().push(system)
                    && r.startup_systems() == self.startup_systems()
                    && r.pre_update_systems() == self.pre_update_systems()
                    && r.post_update_systems() == self.post_update_systems(),
                Schedule::PostUpdate => r.post_update_systems()
                        == self.post_update_systems().push(system)
                    && r.startup_systems() == self.startup_systems()
                    && r.pre_update_systems() == self.pre_update_systems()
                    && r.update_systems() == self.update_systems(),
            },
    {
        let mut app = self;
        match schedule {
            Schedule::Startup => app.startup.push(system),
            Schedule::PreUpdate => app.pre_update.push(system),
            Schedule::Update => app.update.push(system),
            Schedule::PostUpdate => app.post_update.push(system),
        }
        app
    }

    /// A read view of the owned world.
    pub fn world(&self) -> (r: &World<V>)
        ensures
            *r == self.spec_world(),
    {
        &self.world
    }

    /// A write view of the owned world, for wiring state before a run; the
    /// system lists are untouched.
    pub fn world_mut(&mut self) -> (r: &mut World<V>)
        ensures
            *r == old(self).spec_world(),
            final(self).spec_world() == *final(r),
            final(self).startup_systems() == old(self).startup_systems(),
            final(self).pre_update_systems() == old(self).pre_update_systems(),
            final(self).update_systems() == old(self).update_systems(),
            final(self).post_update_systems() == old(self).post_update_systems(),
    {
        &mut self.world
    }

    /// Runs the application: every Startup system exactly once, in
    /// registration order, then `n_loop` update cycles, each draining the
    /// PreUpdate, Update and PostUpdate lists in order, every system given
    /// exclusive access to the owned world.  Returns the trace of system
    /// invocations, which is exactly `plan(n_loop)`; the system lists are
    /// unchanged.
    #[verifier::loop_isolation(false)]
    pub fn run(&mut self, n_loop: u32) -> (trace: Ghost<Seq<S>>)
        ensures
            final(self).startup_systems() == old(self).startup_systems(),
            final(self).pre_update_systems() == old(self).pre_update_systems(),
            final(self).update_systems() == old(self).update_systems(),
            final(self).post_update_systems() == old(self).post_update_systems(),
            trace@ == old(self).plan(n_loop as nat),
    {
        let ghost mut t: Seq<S> = Seq::empty();
        let n = self.startup.len();
        let mut i: usize = 0;
        while i < n
            invariant
                i <= n,
                self.startup@ == old(self).startup@,
                self.pre_update@ == old(self).pre_update@,
                self.update@ == old(self).update@,
                self.post_update@ == old(self).post_update@,
                t == old(self).startup_systems().take(i as int),
            decreases n - i,
        {
            proof {
                assert(old(self).startup_systems().take(i + 1)
                    =~= old(self).startup_systems().take(i as int).push(self.startup@[i as int]));
                t = t.push(self.startup@[i as int]);
            }
            self.startup[i].run(&mut self.world);
            i += 1;
        }
        proof {
            assert(old(self).startup_systems().take(n as int) =~= old(self).startup_systems());
            assert(t == old(self).plan(0));
        }
        let mut it: u32 = 0;
        while it < n_loop
            invariant
                it <= n_loop,
                self.startup@ == old(self).startup@,
                self.pre_update@ == old(self).pre_update@,
                self.update@ == old(self).update@,
                self.post_update@ == old(self).post_update@,
                t == old(self).plan(it as nat),
            decreases n_loop - it,
        {
            let ghost base = t;
            let m1 = self.pre_update.len();
            let mut i1: usize = 0;
            while i1 < m1
                invariant
                    i1 <= m1,
                    self.startup@ == old(self).startup@,
                    self.pre_update@ == old(self).pre_update@,
                    self.update@ == old(self).update@,
                    self.post_update@ == old(self).post_update@,
                    t == base + old(self).pre_update_systems().take(i1 as int),
                decreases m1 - i1,
            {
                proof {
                    assert(old(self).pre_update_systems().take(i1 + 1)
                        =~= old(self).pre_update_systems().take(i1 as int).push(
                            self.pre_update@[i1 as int]));
                    assert((base + old(self).pre_update_systems().take(i1 as int)).push(
                        self.pre_update@[i1 as int])
                        =~= base + old(self).pre_update_systems().take(i1 + 1));
                    t = t.push(self.pre_update@[i1 as int]);
                }
                self.pre_update[i1].run(&mut self.world);
                i1 += 1;
            }
            proof {
                assert(old(self).pre_update_systems().take(m1 as int)
                    =~= old(self).pre_update_systems());
            }
            let ghost base2 = t;
            let m2 = self.update.len();
            let mut i2: usize = 0;
            while i2 < m2
                invariant
                    i2 <= m2,
                    self.startup@ == old(self).startup@,
                    self.pre_update@ == old(self).pre_update@,
                    self.update@ == old(self).update@,
                    self.post_update@ == old(self).post_update@,
                    t == base2 + old(self).update_systems().take(i2 as int),
                decreases m2 - i2,
            {
                proof {
                    assert(old(self).update_systems().take(i2 + 1)
                        =~= old(self).update_systems().take(i2 as int).push(
                            self.update@[i2 as int]));
                    assert((base2 + old(self).update_systems().take(i2 as int)).push(
                        self.update@[i2 as int])
                        =~= base2 + old(self).update_systems().take(i2 + 1));
                    t = t.push(self.update@[i2 as int]);
                }
                self.update[i2].run(&mut self.world);
                i2 += 1;
            }
            proof {
                assert(old(self).update_systems().take(m2 as int) =~= old(self).update_systems());
            }
            let ghost base3 = t;
            let m3 = self.post_update.len();
            let mut i3: usize = 0;
            while i3 < m3
                invariant
                    i3 <= m3,
                    self.startup@ == old(self).startup@,
                    self.pre_update@ == old(self).pre_update@,
                    self.update@ == old(self).update@,
                    self.post_update@ == old(self).post_update@,
                    t == base3 + old(self).post_update_systems().take(i3 as int),
                decreases m3 - i3,
            {
                proof {
                    assert(old(self).post_update_systems().take(i3 + 1)
                        =~= old(self).post_update_systems().take(i3 as int).push(
                            self.post_update@[i3 as int]));
                    assert((base3 + old(self).post_update_systems().take(i3 as int)).push(
                        self.post_update@[i3 as int])
                        =~= base3 + old(self).post_update_systems().take(i3 + 1));
                    t = t.push(self.post_update@[i3 as int]);
                }
                self.post_update[i3].run(&mut self.world);
                i3 += 1;
            }
            proof {
                assert(old(self).post_update_systems().take(m3 as int)
                    =~= old(self).post_update_systems());
                assert(t =~= old(self).plan(it as nat) + old(self).cycle());
                assert(t == old(self).plan((it + 1) as nat));
            }
            it += 1;
        }
        Ghost(t)
    }
}

/// Bounded iteration, first half: a run of zero update cycles invokes
/// exactly the Startup list; no PreUpdate, Update or PostUpdate system runs.
pub proof fn lemma_run_zero_is_startup_only<V: Component, S: System<V>>(app: App<V, S>)
    ensures
        app.plan(0) == app.startup_systems(),
{
}

/// Bounded iteration, second half: over a run of `n` update cycles a system
/// is invoked exactly as often as it occurs in the Startup list plus `n`
/// times as often as it occurs in one update cycle; a system registered once
/// in the Update phase thus runs exactly `n` times.
pub proof fn lemma_plan_occurrence_count<V: Component, S: System<V>>(app: App<V, S>, n: nat, s: S)
    ensures
        app.plan(n).to_multiset().count(s)
            == app.startup_systems().to_multiset().count(s)
                + n * app.cycle().to_multiset().count(s),
    decreases n,
{
    if n == 0 {
    } else {
        let m = (n - 1) as nat;
        lemma_plan_occurrence_count(app, m, s);
        lemma_multiset_commutative(app.plan(m), app.cycle());
        let c = app.cycle().to_multiset().count(s) as int;
        let ni = n as int;
        assert((ni - 1) * c + c == ni * c) by (nonlinear_arith);
        assert(m as int == ni - 1);
    }
}

} // verus!
