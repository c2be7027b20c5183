//! The order in which benchmark runs are made.
//!
//! Every round runs every benchmark on every target once, in an order that
//! is shuffled afresh for each round.

use vstd::prelude::*;
use rand::seq::SliceRandom;
use crate::logger::LoggerKind;
use crate::target::OutputTarget;

verus! {

#[verifier::external_type_specification]
#[verifier::external_body]
pub struct ExThreadRng(rand::rngs::ThreadRng);

/// One benchmark run: a benchmark on a target.
pub type Run = (LoggerKind, OutputTarget);

/// Every benchmark paired with every target: the benchmarks in their order,
/// and for each of them the targets in their order.
pub open spec fn pair_grid(benchmarks: Seq<LoggerKind>, targets: Seq<OutputTarget>) -> Seq<Run> {
    Seq::new(
        benchmarks.len() * targets.len(),
        |k: int| (benchmarks[k / targets.len() as int], targets[k % targets.len() as int]),
    )
}

/// The position `k` of the grid is row `k / |targets|`, column `k % |targets|`.
pub proof fn lemma_grid_position(nb: int, nt: int, k: int)
    requires
        0 <= k < nb * nt,
        nt > 0,
    ensures
        0 <= k / nt < nb,
        0 <= k % nt < nt,
        k == (k / nt) * nt + k % nt,
{
    vstd::arithmetic::div_mod::lemma_fundamental_div_mod(k, nt);
    vstd::arithmetic::div_mod::lemma_mod_pos_bound(k, nt);
    let q = k / nt;
    let r = k % nt;
    assert(k == q * nt + r) by (nonlinear_arith)
        requires
            k == nt * q + r,
    ;
    assert(0 <= q) by (nonlinear_arith)
        requires
            k == q * nt + r,
            0 <= k,
            0 <= r < nt,
    ;
    assert(q < nb) by (nonlinear_arith)
        requires
            k == q * nt + r,
            k < nb * nt,
            0 <= r,
            nt > 0,
    ;
}

/// Row `i`, column `j` of the grid sits at position `i * |targets| + j`.
pub proof fn lemma_grid_cell(benchmarks: Seq<LoggerKind>, targets: Seq<OutputTarget>, i: int, j: int)
    requires
        0 <= i < benchmarks.len(),
        0 <= j < targets.len(),
    ensures
        0 <= i * targets.len() + j < benchmarks.len() * targets.len(),
        pair_grid(benchmarks, targets)[i * targets.len() + j] == (benchmarks[i], targets[j]),
{
    let nb = benchmarks.len() as int;
    let nt = targets.len() as int;
    let k = i * nt + j;
    assert(0 <= k < nb * nt) by (nonlinear_arith)
        requires
            k == i * nt + j,
            0 <= i < nb,
            0 <= j < nt,
    ;
    vstd::arithmetic::div_mod::lemma_fundamental_div_mod_converse(k, nt, i, j);
}

/// The runs of one round, before it is shuffled: every benchmark on every target.
pub fn benchmark_pairs(benchmarks: &[LoggerKind], targets: &[OutputTarget]) -> (runs: Vec<Run>)
    requires
        benchmarks@.len() * targets@.len() <= usize::MAX,
    ensures
        runs@ == pair_grid(benchmarks@, targets@),
        runs@.len() == benchmarks@.len() * targets@.len(),
        forall|i: int, j: int|
            0 <= i < benchmarks@.len() && 0 <= j < targets@.len() ==> runs@[i * targets@.len() + j]
                == (benchmarks[i], targets[j]),
{
    let nb = benchmarks.len();
    let nt = targets.len();
    let mut runs: Vec<Run> = Vec::new();
    if nt > 0 {
        let total = nb * nt;
        let mut k: usize = 0;
        while k < total
            invariant
                nb == benchmarks@.len(),
                nt == targets@.len(),
                nt > 0,
                total == nb * nt,
                k <= total,
                runs@ == pair_grid(benchmarks@, targets@).take(k as int),
            decreases total - k,
        {
            proof {
                lemma_grid_position(nb as int, nt as int, k as int);
            }
            runs.push((benchmarks[k / nt], targets[k % nt]));
            k = k + 1;
            assert(runs@ =~= pair_grid(benchmarks@, targets@).take(k as int));
        }
        assert(pair_grid(benchmarks@, targets@).take(total as int) =~= pair_grid(
            benchmarks@,
            targets@,
        ));
    } else {
        assert(nb * nt == 0) by (nonlinear_arith)
            requires
                nt == 0,
        ;
        assert(runs@ =~= pair_grid(benchmarks@, targets@));
    }
    proof {
        assert forall|i: int, j: int|
            0 <= i < benchmarks@.len() && 0 <= j < targets@.len() implies runs@[i
                * targets@.len() + j] == (benchmarks[i], targets[j]) by {
            lemma_grid_cell(benchmarks@, targets@, i, j);
        }
    }
    runs
}

/// `SliceRandom::shuffle` of rand, on a `Vec`: it swaps the items in place into
/// an order drawn from `rng`, so that the same items come back, each as many
/// times as before. Which order comes back is left open.
#[verifier::external_body]
fn shuffle_in_place<T>(items: &mut Vec<T>, rng: &mut rand::rngs::ThreadRng)
    ensures
        final(items)@.to_multiset() == old(items)@.to_multiset(),
{
    items.shuffle(rng);
}

/// Puts the runs of a round in a fresh random order.
pub fn shuffle_round(runs: &mut Vec<Run>, rng: &mut rand::rngs::ThreadRng)
    ensures
        final(runs)@.to_multiset() == old(runs)@.to_multiset(),
        final(runs)@.len() == old(runs)@.len(),
{
    shuffle_in_place(runs, rng);
    proof {
        vstd::seq_lib::to_multiset_len(old(runs)@);
        vstd::seq_lib::to_multiset_len(runs@);
    }
}

/// Where neither the benchmarks nor the targets repeat, the grid holds no run twice.
pub proof fn lemma_grid_has_no_duplicates(benchmarks: Seq<LoggerKind>, targets: Seq<OutputTarget>)
    requires
        benchmarks.no_duplicates(),
        targets.no_duplicates(),
    ensures
        pair_grid(benchmarks, targets).no_duplicates(),
{
    let g = pair_grid(benchmarks, targets);
    let nb = benchmarks.len() as int;
    let nt = targets.len() as int;
    assert forall|a: int, b: int| 0 <= a < g.len() && 0 <= b < g.len() && a != b implies g[a]
        != g[b] by {
        lemma_grid_position(nb, nt, a);
        lemma_grid_position(nb, nt, b);
        if g[a] == g[b] {
            assert(benchmarks[a / nt] == benchmarks[b / nt]);
            assert(targets[a % nt] == targets[b % nt]);
            assert(a / nt == b / nt);
            assert(a % nt == b % nt);
            assert(false);
        }
    }
}

/// A round runs every benchmark on every target exactly once, and runs nothing
/// else: whatever order the shuffle picked, a round whose runs are those of
/// the grid, each as many times, holds each pair of a benchmark and a target
/// once, where neither list repeats an entry.
pub proof fn lemma_round_runs_each_pair_once(
    benchmarks: Seq<LoggerKind>,
    targets: Seq<OutputTarget>,
    round: Seq<Run>,
)
    requires
        benchmarks.no_duplicates(),
        targets.no_duplicates(),
        round.to_multiset() == pair_grid(benchmarks, targets).to_multiset(),
    ensures
        round.len() == benchmarks.len() * targets.len(),
        forall|i: int, j: int|
            0 <= i < benchmarks.len() && 0 <= j < targets.len() ==> round.to_multiset().count(
                (benchmarks[i], targets[j]),
            ) == 1,
        forall|r: Run| #[trigger]
            round.to_multiset().count(r) > 0 ==> benchmarks.contains(r.0) && targets.contains(
                r.1,
            ),
{
    let g = pair_grid(benchmarks, targets);
    vstd::seq_lib::to_multiset_len(round);
    vstd::seq_lib::to_multiset_len(g);
    lemma_grid_has_no_duplicates(benchmarks, targets);
    g.lemma_multiset_has_no_duplicates();
    assert forall|i: int, j: int|
        0 <= i < benchmarks.len() && 0 <= j < targets.len() implies round.to_multiset().count(
        (benchmarks[i], targets[j]),
    ) == 1 by {
        lemma_grid_cell(benchmarks, targets, i, j);
        let k = i * targets.len() + j;
        assert(g.contains(g[k]));
        vstd::seq_lib::to_multiset_contains(g, g[k]);
    }
    assert forall|r: Run| #[trigger]
        round.to_multiset().count(r) > 0 implies benchmarks.contains(r.0) && targets.contains(
        r.1,
    ) by {
        vstd::seq_lib::to_multiset_contains(g, r);
        let k = choose|k: int| 0 <= k < g.len() && g[k] == r;
        lemma_grid_position(benchmarks.len() as int, targets.len() as int, k);
        assert(benchmarks[k / targets.len() as int] == r.0);
        assert(targets[k % targets.len() as int] == r.1);
    }
}


/// Tags each run of a round's order with the round's number (counted from 0).
pub open spec fn tag_round(order: Seq<Run>, round: int) -> Seq<(Run, int)> {
    order.map_values(|r: Run| (r, round))
}

/// The runs of several rounds, one round after the other, each tagged with its round.
pub open spec fn tagged_runs(orders: Seq<Seq<Run>>) -> Seq<(Run, int)>
    decreases orders.len(),
{
    if orders.len() == 0 {
        seq![]
    } else {
        tagged_runs(orders.drop_last()) + tag_round(orders.last(), orders.len() - 1)
    }
}

/// What the schedule hands out next.
#[derive(Debug, Clone, Copy)]
pub enum Step {
    /// A new round begins; its number, counted from 1.
    RoundStart(usize),
    /// Make this run next.
    Run(Run),
    /// Every round is done.
    Finished,
}

/// The runs of a whole benchmark session: a number of rounds, each running
/// every benchmark on every target once, in an order shuffled afresh for the
/// round (each round's order is a shuffle of the one before).
pub struct Schedule {
    order: Vec<Run>,
    pos: usize,
    started: usize,
    rounds: usize,
    grid: Ghost<Seq<Run>>,
    orders: Ghost<Seq<Seq<Run>>>,
}

impl Schedule {
    /// The runs of one round, in the order in which the grid lists them.
    pub closed spec fn grid(&self) -> Seq<Run> {
        self.grid@
    }

    /// How many rounds the session has.
    pub closed spec fn total_rounds(&self) -> nat {
        self.rounds as nat
    }

    /// The orders of the rounds begun so far, the current one last.
    pub closed spec fn orders(&self) -> Seq<Seq<Run>> {
        self.orders@
    }

    /// How many runs of the current round have been handed out.
    pub closed spec fn position(&self) -> nat {
        self.pos as nat
    }

    /// Whether the current round (if any) has handed out all its runs.
    pub open spec fn round_done(&self) -> bool {
        self.orders().len() == 0 || self.position() == self.orders().last().len()
    }

    /// Whether every round is done.
    pub open spec fn finished(&self) -> bool {
        self.round_done() && self.orders().len() == self.total_rounds()
    }

    /// The runs handed out so far, each tagged with its round (counted from 0):
    /// the rounds before the current one in full, then the part of the current
    /// round handed out so far.
    pub open spec fn handed_out(&self) -> Seq<(Run, int)> {
        if self.orders().len() == 0 {
            seq![]
        } else {
            tagged_runs(self.orders().drop_last()) + tag_round(
                self.orders().last().take(self.position() as int),
                self.orders().len() - 1,
            )
        }
    }

    pub closed spec fn wf(&self) -> bool {
        &&& self.order@.to_multiset() == self.grid@.to_multiset()
        &&& self.orders@.len() == self.started
        &&& self.started <= self.rounds
        &&& forall|i: int|
            0 <= i < self.orders@.len() ==> (#[trigger] self.orders@[i]).to_multiset()
                == self.grid@.to_multiset()
        &&& self.started > 0 ==> self.orders@.last() == self.order@
        &&& self.pos <= self.order@.len()
        &&& self.started == 0 ==> self.pos == 0
    }

    /// A session of `rounds` rounds over every benchmark on every target; no round begun yet.
    pub fn new(benchmarks: &[LoggerKind], targets: &[OutputTarget], rounds: usize) -> (s: Schedule)
        requires
            benchmarks@.len() * targets@.len() <= usize::MAX,
        ensures
            s.wf(),
            s.grid() == pair_grid(benchmarks@, targets@),
            s.total_rounds() == rounds,
            s.orders() == Seq::<Seq<Run>>::empty(),
            s.position() == 0,
            s.handed_out() == Seq::<(Run, int)>::empty(),
    {
        let order = benchmark_pairs(benchmarks, targets);
        Schedule {
            order,
            pos: 0,
            started: 0,
            rounds,
            grid: Ghost(pair_grid(benchmarks@, targets@)),
            orders: Ghost(Seq::empty()),
        }
    }

    /// The next step of the session. When the current round has handed out all
    /// its runs, the next round begins with a fresh shuffle, until all rounds
    /// are done; otherwise the next run of the current round comes out.
    pub fn next_step(&mut self, rng: &mut rand::rngs::ThreadRng) -> (step: Step)
        requires
            old(self).wf(),
        ensures
            final(self).wf(),
            final(self).grid() == old(self).grid(),
            final(self).total_rounds() == old(self).total_rounds(),
            match step {
                Step::Run(r) => {
                    &&& !old(self).round_done()
                    &&& r == old(self).orders().last()[old(self).position() as int]
                    &&& final(self).orders() == old(self).orders()
                    &&& final(self).position() == old(self).position() + 1
                    &&& final(self).handed_out() == old(self).handed_out().push(
                        (r, old(self).orders().len() - 1),
                    )
                },
                Step::RoundStart(n) => {
                    &&& old(self).round_done()
                    &&& old(self).orders().len() < old(self).total_rounds()
                    &&& n == old(self).orders().len() + 1
                    &&& final(self).orders().len() == n
                    &&& final(self).orders().drop_last() == old(self).orders()
                    &&& final(self).orders().last().to_multiset() == old(self).grid().to_multiset()
                    &&& final(self).position() == 0
                    &&& final(self).handed_out() == old(self).handed_out()
                },
                Step::Finished => {
                    &&& old(self).finished()
                    &&& final(self).orders() == old(self).orders()
                    &&& final(self).position() == old(self).position()
                },
            },
    {
        if self.started == 0 || self.pos == self.order.len() {
            if self.started == self.rounds {
                return Step::Finished;
            }
            let ghost old_orders = self.orders@;
            let ghost old_handed = self.handed_out();
            shuffle_round(&mut self.order, rng);
            self.started = self.started + 1;
            self.pos = 0;
            self.orders = Ghost(self.orders@.push(self.order@));
            proof {
                assert(self.orders@.drop_last() =~= old_orders);
                assert(self.orders@.last().take(0) =~= Seq::<Run>::empty());
                assert(tag_round(Seq::<Run>::empty(), old_orders.len() as int) =~= Seq::<
                    (Run, int),
                >::empty());
                if old_orders.len() > 0 {
                    assert(old_orders.last().take(old_orders.last().len() as int)
                        =~= old_orders.last());
                }
                assert(self.handed_out() =~= old_handed);
            }
            return Step::RoundStart(self.started);
        }
        let ghost old_handed = self.handed_out();
        let r = self.order[self.pos];
        proof {
            let last = self.orders@.last();
            assert(last.take(self.pos + 1) =~= last.take(self.pos as int).push(r));
            assert(tag_round(last.take(self.pos + 1), self.orders@.len() - 1) =~= tag_round(
                last.take(self.pos as int),
                self.orders@.len() - 1,
            ).push((r, self.orders@.len() - 1)));
        }
        self.pos = self.pos + 1;
        proof {
            assert(self.handed_out() =~= old_handed.push((r, self.orders@.len() - 1)));
        }
        Step::Run(r)
    }

    /// A finished session handed out its rounds in full, one after the other:
    /// `total_rounds` consecutive blocks, each holding the runs of the grid,
    /// each as many times as the grid does.
    pub proof fn lemma_finished_in_blocks(&self)
        requires
            self.wf(),
            self.finished(),
        ensures
            self.orders().len() == self.total_rounds(),
            forall|i: int|
                0 <= i < self.orders().len() ==> (#[trigger] self.orders()[i]).to_multiset()
                    == self.grid().to_multiset(),
            self.handed_out() == tagged_runs(self.orders()),
    {
        if self.orders().len() > 0 {
            assert(self.orders().last().take(self.position() as int) =~= self.orders().last());
        }
    }
}

} // verus!
