//! The table of results: one slot per run name, in the order in which the
//! names were first seen.
//!
//! The measured numbers themselves are kept by the caller, one entry per slot;
//! this table decides which slot a report goes to, the order in which the
//! names are listed, and how the runs are grouped by target.

use vstd::prelude::*;
use crate::logger::LoggerKind;
use crate::report::{lemma_run_name_splits, parse_report, report_of, Report};
use crate::schedule::{
    lemma_grid_cell, lemma_grid_has_no_duplicates, lemma_grid_position, pair_grid, tag_round,
    tagged_runs, Run, Schedule,
};
use crate::target::OutputTarget;
use crate::text::{
    chars_equal, copy_range, lemma_text_lt_total, lemma_text_lt_transitive,
    split_run_name, split_run_name_at_last_underscore, text_less, text_lt,
};

verus! {

/// The names of the runs that have reported, each once, in the order of first report.
pub struct ResultIndex {
    names: Vec<Vec<char>>,
}

impl View for ResultIndex {
    type V = Seq<Seq<char>>;

    closed spec fn view(&self) -> Seq<Seq<char>> {
        self.names.deep_view()
    }
}

/// Whether `order` lists slots `0..n` of `names` each once, by increasing name.
pub open spec fn is_name_order(names: Seq<Seq<char>>, order: Seq<usize>) -> bool {
    &&& order.len() == names.len()
    &&& forall|a: int| 0 <= a < order.len() ==> #[trigger] order[a] < names.len()
    &&& forall|s: usize| s < names.len() ==> #[trigger] order.contains(s)
    &&& forall|a: int, b: int|
        0 <= a < b < order.len() ==> text_lt(names[order[a] as int], names[order[b] as int])
}

/// A run listed under a target: the benchmark's part of its name, and its slot.
pub struct GroupMember {
    pub logger: Vec<char>,
    pub slot: usize,
}

/// The runs whose names end in one target.
pub struct TargetGroup {
    pub target: Vec<char>,
    pub members: Vec<GroupMember>,
}

pub open spec fn member_views(ms: Seq<GroupMember>) -> Seq<(Seq<char>, int)> {
    ms.map_values(|m: GroupMember| (m.logger@, m.slot as int))
}

/// The targets named by the first `k` names, each once, in order of first appearance.
pub open spec fn targets_seen(names: Seq<Seq<char>>, k: int) -> Seq<Seq<char>>
    decreases k,
{
    if k <= 0 {
        seq![]
    } else {
        let d = targets_seen(names, k - 1);
        match split_run_name(names[k - 1]) {
            Some((_, t)) => if d.contains(t) {
                d
            } else {
                d.push(t)
            },
            None => d,
        }
    }
}

/// The runs among the first `k` names whose target is `target`, in slot order,
/// each with the benchmark's part of its name.
pub open spec fn members_of(names: Seq<Seq<char>>, target: Seq<char>, k: int) -> Seq<
    (Seq<char>, int),
>
    decreases k,
{
    if k <= 0 {
        seq![]
    } else {
        let m = members_of(names, target, k - 1);
        match split_run_name(names[k - 1]) {
            Some((l, t)) => if t == target {
                m.push((l, k - 1))
            } else {
                m
            },
            None => m,
        }
    }
}

/// Whether a run name splits into the benchmark part `logger` and the target `target`.
pub open spec fn splits_as(name: Seq<char>, logger: Seq<char>, target: Seq<char>) -> bool {
    split_run_name(name) == Some((logger, target))
}

/// Every target the grouping lists is the target of some run: each listed
/// target has at least one run listed under it.
pub proof fn lemma_every_target_has_a_run(names: Seq<Seq<char>>, k: int)
    requires
        0 <= k <= names.len(),
    ensures
        forall|g: int|
            0 <= g < targets_seen(names, k).len() ==> members_of(
                names,
                #[trigger] targets_seen(names, k)[g],
                k,
            ).len() > 0,
    decreases k,
{
    if k > 0 {
        lemma_every_target_has_a_run(names, k - 1);
        let d = targets_seen(names, k - 1);
        let e = targets_seen(names, k);
        assert forall|g: int| 0 <= g < e.len() implies members_of(names, #[trigger] e[g], k).len()
            > 0 by {
            if g < d.len() {
                assert(e[g] == d[g]);
                assert(members_of(names, d[g], k).len() >= members_of(names, d[g], k - 1).len());
            } else {
                let (l, t) = split_run_name(names[k - 1])->0;
                assert(e[g] == t);
                assert(members_of(names, t, k) == members_of(names, t, k - 1).push((l, k - 1)));
            }
        }
    }
}

/// How the per-target summaries group the runs: every run whose name splits
/// into a benchmark and a target is listed under its target, under the
/// benchmark's part of its name, and nowhere else; no target has two groups;
/// and a group lists only runs of its own target, each once, in slot order.
pub proof fn lemma_groups_partition_runs(names: Seq<Seq<char>>, k: int)
    requires
        0 <= k <= names.len(),
    ensures
        targets_seen(names, k).no_duplicates(),
        forall|s: int|
            0 <= s < k && #[trigger] split_run_name(names[s]) is Some ==> {
                let (l, t) = split_run_name(names[s])->0;
                &&& targets_seen(names, k).contains(t)
                &&& members_of(names, t, k).contains((l, s))
            },
        forall|t: Seq<char>, i: int|
            0 <= i < members_of(names, t, k).len() ==> {
                let m = #[trigger] members_of(names, t, k)[i];
                &&& 0 <= m.1 < k
                &&& split_run_name(names[m.1]) == Some((m.0, t))
            },
        forall|t: Seq<char>, i: int, j: int|
            0 <= i < j < members_of(names, t, k).len() ==> #[trigger] members_of(names, t, k)[i].1
                < #[trigger] members_of(names, t, k)[j].1,
    decreases k,
{
    if k > 0 {
        lemma_groups_partition_runs(names, k - 1);
        let d = targets_seen(names, k - 1);
        assert forall|t: Seq<char>, i: int|
            0 <= i < members_of(names, t, k).len() implies {
            let m = #[trigger] members_of(names, t, k)[i];
            &&& 0 <= m.1 < k
                &&& split_run_name(names[m.1]) == Some((m.0, t))
        } by {
            let prev = members_of(names, t, k - 1);
            if i < prev.len() {
                assert(members_of(names, t, k)[i] == prev[i]);
            }
        }
        assert forall|t: Seq<char>, i: int, j: int|
            0 <= i < j < members_of(names, t, k).len() implies #[trigger] members_of(
            names,
            t,
            k,
        )[i].1 < #[trigger] members_of(names, t, k)[j].1 by {
            let prev = members_of(names, t, k - 1);
            assert(members_of(names, t, k)[i] == prev[i]);
            if j < prev.len() {
                assert(members_of(names, t, k)[j] == prev[j]);
            } else {
                assert(prev[i].1 < k - 1);
            }
        }
        assert forall|s: int|
            0 <= s < k && #[trigger] split_run_name(names[s]) is Some implies {
            let (l, t) = split_run_name(names[s])->0;
            &&& targets_seen(names, k).contains(t)
            &&& members_of(names, t, k).contains((l, s))
        } by {
            let (l, t) = split_run_name(names[s])->0;
            let prev = members_of(names, t, k - 1);
            if s < k - 1 {
                let i = choose|i: int| 0 <= i < prev.len() && prev[i] == (l, s);
                assert(members_of(names, t, k)[i] == prev[i]);
                if !d.contains(t) {
                } else {
                    let j = choose|j: int| 0 <= j < d.len() && d[j] == t;
                    assert(targets_seen(names, k)[j] == d[j]);
                }
            } else {
                assert(members_of(names, t, k)[prev.len() as int] == (l, s));
                if d.contains(t) {
                    let j = choose|j: int| 0 <= j < d.len() && d[j] == t;
                    assert(targets_seen(names, k)[j] == d[j]);
                } else {
                    assert(targets_seen(names, k)[d.len() as int] == t);
                }
            }
        }
    }
}

/// A run filed under the name its report carries is listed in its target's
/// summary, under its benchmark's name.
pub proof fn lemma_reported_run_in_summary(
    names: Seq<Seq<char>>,
    slot: int,
    logger: LoggerKind,
    target: OutputTarget,
)
    requires
        0 <= slot < names.len(),
        names[slot] == logger.name() + seq!['_'] + target.name(),
    ensures
        targets_seen(names, names.len() as int).contains(target.name()),
        members_of(names, target.name(), names.len() as int).contains((logger.name(), slot)),
{
    lemma_run_name_splits(logger, target);
    lemma_groups_partition_runs(names, names.len() as int);
    assert(split_run_name(names[slot]) is Some);
}

impl ResultIndex {
    /// Well formed: no name is held twice.
    pub closed spec fn wf(&self) -> bool {
        self@.no_duplicates()
    }

    pub fn new() -> (r: ResultIndex)
        ensures
            r@ == Seq::<Seq<char>>::empty(),
            r.wf(),
    {
        let r = ResultIndex { names: Vec::new() };
        assert(r@ =~= Seq::<Seq<char>>::empty());
        r
    }

    pub fn len(&self) -> (n: usize)
        ensures
            n == self@.len(),
    {
        self.names.len()
    }

    /// The name held in `slot`.
    pub fn name(&self, slot: usize) -> (r: &[char])
        requires
            slot < self@.len(),
        ensures
            r@ == self@[slot as int],
    {
        let r = self.names[slot].as_slice();
        assert(r@ =~= self@[slot as int]);
        r
    }

    /// The slot that holds `name`, if any.
    pub fn find(&self, name: &[char]) -> (r: Option<usize>)
        ensures
            match r {
                Some(slot) => slot < self@.len() && self@[slot as int] == name@,
                None => !self@.contains(name@),
            },
    {
        let mut i: usize = 0;
        while i < self.names.len()
            invariant
                i <= self@.len(),
                self@.len() == self.names@.len(),
                forall|k: int| 0 <= k < i ==> self@[k] != name@,
            decreases self.names.len() - i,
        {
            if chars_equal(self.names[i].as_slice(), name) {
                assert(self@[i as int] =~= self.names@[i as int]@);
                return Some(i);
            }
            assert(self@[i as int] =~= self.names@[i as int]@);
            i = i + 1;
        }
        None
    }

    /// The slot for the results of the run called `name`: the one that holds it
    /// already, or else a new slot at the end.
    pub fn slot_for(&mut self, name: &[char]) -> (slot: usize)
        requires
            old(self).wf(),
        ensures
            final(self).wf(),
            slot < final(self)@.len(),
            final(self)@[slot as int] == name@,
            old(self)@.contains(name@) ==> final(self)@ == old(self)@,
            !old(self)@.contains(name@) ==> final(self)@ == old(self)@.push(name@) && slot
                == old(self)@.len(),
    {
        match self.find(name) {
            Some(slot) => slot,
            None => {
                let ghost before = self@;
                let mut owned: Vec<char> = Vec::new();
                let mut i: usize = 0;
                while i < name.len()
                    invariant
                        i <= name@.len(),
                        owned@ == name@.take(i as int),
                    decreases name.len() - i,
                {
                    owned.push(name[i]);
                    i = i + 1;
                    assert(owned@ =~= name@.take(i as int));
                }
                assert(name@.take(name@.len() as int) =~= name@);
                let slot = self.names.len();
                self.names.push(owned);
                assert(self@ =~= before.push(name@)) by {
                    assert(self.names@[slot as int].deep_view() =~= name@);
                }
                assert(self@.no_duplicates()) by {
                    assert forall|a: int, b: int|
                        0 <= a < self@.len() && 0 <= b < self@.len() && a != b implies self@[a]
                        != self@[b] by {
                        if a < before.len() && b < before.len() {
                        } else if a == before.len() {
                            assert(self@[b] == before[b]);
                            assert(before.contains(before[b]));
                        } else {
                            assert(self@[a] == before[a]);
                            assert(before.contains(before[a]));
                        }
                    }
                }
                slot
            },
        }
    }

    /// Reads a child's whole output and files its report: the slot for the
    /// report's run name (a new one where the name is new) and the report.
    /// Where the output holds no readable report the table stays as it was.
    pub fn record_report(&mut self, output: &[char]) -> (r: Option<(usize, Report)>)
        requires
            old(self).wf(),
        ensures
            final(self).wf(),
            match r {
                None => report_of(output@) is None && final(self)@ == old(self)@,
                Some((slot, rep)) => {
                    &&& report_of(output@) == Some((rep.name@, rep.elapsed@, rep.ops@, rep.memory@))
                    &&& slot < final(self)@.len()
                    &&& final(self)@[slot as int] == rep.name@
                    &&& old(self)@.contains(rep.name@) ==> final(self)@ == old(self)@
                    &&& !old(self)@.contains(rep.name@) ==> final(self)@ == old(self)@.push(
                        rep.name@,
                    ) && slot == old(self)@.len()
                },
            },
    {
        match parse_report(output) {
            None => None,
            Some(rep) => {
                let slot = self.slot_for(rep.name.as_slice());
                Some((slot, rep))
            },
        }
    }

    /// Each name has one slot: two slots of a well-formed table hold different names.
    pub proof fn lemma_one_slot_per_name(&self, a: int, b: int)
        requires
            self.wf(),
            0 <= a < self@.len(),
            0 <= b < self@.len(),
            self@[a] == self@[b],
        ensures
            a == b,
    {
    }

    /// The runs grouped by target, for the per-target summaries: one group per
    /// target, in order of the target's first appearance, each listing the runs
    /// of that target in slot order. Runs whose name holds no `_` are left out.
    pub fn group_by_target(&self) -> (groups: Vec<TargetGroup>)
        ensures
            groups@.len() == targets_seen(self@, self@.len() as int).len(),
            forall|g: int|
                0 <= g < groups@.len() ==> {
                    &&& (#[trigger] groups@[g]).target@ == targets_seen(self@, self@.len() as int)[g]
                    &&& member_views(groups@[g].members@) == members_of(
                        self@,
                        groups@[g].target@,
                        self@.len() as int,
                    )
                },
            forall|g: int| 0 <= g < groups@.len() ==> (#[trigger] groups@[g]).members@.len() > 0,
            forall|g: int, m: int|
                0 <= g < groups@.len() && 0 <= m < groups@[g].members@.len() ==> {
                    let x = #[trigger] groups@[g].members@[m];
                    &&& x.slot < self@.len()
                    &&& split_run_name(self@[x.slot as int]) == Some(
                        (x.logger@, groups@[g].target@),
                    )
                },
            forall|g1: int, g2: int|
                0 <= g1 < groups@.len() && 0 <= g2 < groups@.len() && g1 != g2 ==> (
                #[trigger] groups@[g1]).target@ != (#[trigger] groups@[g2]).target@,
            forall|s: int, l: Seq<char>, t: Seq<char>|
                0 <= s < self@.len() && #[trigger] splits_as(self@[s], l, t) ==> exists|g: int, m: int|
                    0 <= g < groups@.len() && 0 <= m < groups@[g].members@.len() && (
                    #[trigger] groups@[g].members@[m]).slot == s && groups@[g].members@[m].logger@
                        == l && groups@[g].target@ == t,
    {
        let groups = self.group_by_target_in_order();
        proof {
            let names = self@;
            let n = names.len() as int;
            let ts = targets_seen(names, n);
            lemma_groups_partition_runs(names, n);
            lemma_every_target_has_a_run(names, n);
            assert forall|g: int| 0 <= g < groups@.len() implies (#[trigger] groups@[g]).members@.len() > 0 by {
                assert(member_views(groups@[g].members@).len() == groups@[g].members@.len());
                assert(members_of(names, ts[g], n).len() > 0);
            }
            assert forall|g: int, m: int|
                0 <= g < groups@.len() && 0 <= m < groups@[g].members@.len() implies {
                let x = #[trigger] groups@[g].members@[m];
                &&& x.slot < self@.len()
                &&& split_run_name(self@[x.slot as int]) == Some((x.logger@, groups@[g].target@))
            } by {
                let x = groups@[g].members@[m];
                let t = groups@[g].target@;
                assert(member_views(groups@[g].members@)[m] == (x.logger@, x.slot as int));
                assert(members_of(names, t, n)[m] == (x.logger@, x.slot as int));
            }
            assert forall|g1: int, g2: int|
                0 <= g1 < groups@.len() && 0 <= g2 < groups@.len() && g1 != g2 implies (
                #[trigger] groups@[g1]).target@ != (#[trigger] groups@[g2]).target@ by {
                assert(ts[g1] != ts[g2]);
            }
            assert forall|s: int, l: Seq<char>, t: Seq<char>|
                0 <= s < self@.len() && #[trigger] splits_as(self@[s], l, t) implies exists|
                g: int,
                m: int,
            |
                0 <= g < groups@.len() && 0 <= m < groups@[g].members@.len() && (
                #[trigger] groups@[g].members@[m]).slot == s && groups@[g].members@[m].logger@
                    == l && groups@[g].target@ == t by {
                assert(ts.contains(t));
                let g = choose|g: int| 0 <= g < ts.len() && ts[g] == t;
                let ms = members_of(names, t, n);
                assert(ms.contains((l, s)));
                let m = choose|m: int| 0 <= m < ms.len() && ms[m] == (l, s);
                assert(member_views(groups@[g].members@)[m] == (
                    groups@[g].members@[m].logger@,
                    groups@[g].members@[m].slot as int,
                ));
                assert(groups@[g].members@[m].slot == s);
            }
        }
        groups
    }

    fn group_by_target_in_order(&self) -> (groups: Vec<TargetGroup>)
        ensures
            groups@.len() == targets_seen(self@, self@.len() as int).len(),
            forall|g: int|
                0 <= g < groups@.len() ==> {
                    &&& (#[trigger] groups@[g]).target@ == targets_seen(self@, self@.len() as int)[g]
                    &&& member_views(groups@[g].members@) == members_of(
                        self@,
                        groups@[g].target@,
                        self@.len() as int,
                    )
                },
    {
        let n = self.names.len();
        let ghost names = self@;
        let mut targets: Vec<Vec<char>> = Vec::new();
        let mut s: usize = 0;
        while s < n
            invariant
                n == names.len(),
                names == self@,
                s <= n,
                targets.deep_view() == targets_seen(names, s as int),
            decreases n - s,
        {
            match split_run_name_at_last_underscore(self.name(s)) {
                Some((_logger, target)) => {
                    if !Self::holds_text(&targets, target.as_slice()) {
                        let ghost before = targets.deep_view();
                        let ghost tv = target@;
                        targets.push(target);
                        assert(targets.deep_view() =~= before.push(tv)) by {
                            assert(targets@[targets@.len() - 1].deep_view() =~= tv);
                        }
                    }
                },
                None => {},
            }
            s = s + 1;
        }
        let mut groups: Vec<TargetGroup> = Vec::new();
        let mut g: usize = 0;
        while g < targets.len()
            invariant
                n == names.len(),
                names == self@,
                targets.deep_view() == targets_seen(names, n as int),
                g <= targets@.len(),
                groups@.len() == g,
                forall|h: int|
                    0 <= h < g ==> {
                        &&& (#[trigger] groups@[h]).target@ == targets_seen(names, n as int)[h]
                        &&& member_views(groups@[h].members@) == members_of(
                            names,
                            groups@[h].target@,
                            n as int,
                        )
                    },
            decreases targets.len() - g,
        {
            let target = copy_range(targets[g].as_slice(), 0, targets[g].len());
            assert(target@ =~= targets_seen(names, n as int)[g as int]) by {
                assert(targets@[g as int]@ =~= targets.deep_view()[g as int]);
            }
            let mut members: Vec<GroupMember> = Vec::new();
            let mut s: usize = 0;
            while s < n
                invariant
                    n == names.len(),
                    names == self@,
                    s <= n,
                    member_views(members@) == members_of(names, target@, s as int),
                decreases n - s,
            {
                let ghost before = member_views(members@);
                match split_run_name_at_last_underscore(self.name(s)) {
                    Some((logger, t)) => {
                        if chars_equal(t.as_slice(), target.as_slice()) {
                            members.push(GroupMember { logger, slot: s });
                            assert(member_views(members@) =~= before.push(
                                (names[s as int].take(crate::text::last_index_of(names[s as int], '_')), s as int),
                            ));
                        }
                    },
                    None => {},
                }
                s = s + 1;
            }
            groups.push(TargetGroup { target, members });
            g = g + 1;
        }
        groups
    }

    /// Whether `list` holds `t`.
    fn holds_text(list: &Vec<Vec<char>>, t: &[char]) -> (r: bool)
        ensures
            r == list.deep_view().contains(t@),
    {
        let mut i: usize = 0;
        while i < list.len()
            invariant
                i <= list@.len(),
                forall|k: int| 0 <= k < i ==> list.deep_view()[k] != t@,
            decreases list.len() - i,
        {
            assert(list.deep_view()[i as int] =~= list@[i as int]@);
            if chars_equal(list[i].as_slice(), t) {
                assert(list.deep_view()[i as int] == t@);
                return true;
            }
            i = i + 1;
        }
        false
    }

    /// The slots in order of their names, as the summary table lists them.
    pub fn slots_by_name(&self) -> (order: Vec<usize>)
        requires
            self.wf(),
        ensures
            is_name_order(self@, order@),
    {
        let n = self.names.len();
        let ghost names = self@;
        let mut order: Vec<usize> = Vec::new();
        let mut s: usize = 0;
        while s < n
            invariant
                n == names.len(),
                names == self@,
                names.no_duplicates(),
                s <= n,
                order@.len() == s,
                forall|a: int| 0 <= a < order@.len() ==> #[trigger] order@[a] < s,
                forall|t: usize| t < s ==> #[trigger] order@.contains(t),
                forall|a: int, b: int|
                    0 <= a < b < order@.len() ==> text_lt(
                        names[order@[a] as int],
                        names[order@[b] as int],
                    ),
            decreases n - s,
        {
            let mut p: usize = 0;
            while p < order.len() && text_less(self.name(order[p]), self.name(s))
                invariant
                    n == names.len(),
                    names == self@,
                    s < n,
                    p <= order@.len(),
                    forall|a: int| 0 <= a < order@.len() ==> #[trigger] order@[a] < s,
                    forall|q: int|
                        0 <= q < p ==> text_lt(names[#[trigger] order@[q] as int], names[s as int]),
                decreases order.len() - p,
            {
                p = p + 1;
            }
            let ghost old_order = order@;
            proof {
                if p < old_order.len() {
                    let x = old_order[p as int];
                    assert(names[x as int] != names[s as int]);
                    lemma_text_lt_total(names[x as int], names[s as int]);
                }
            }
            order.insert(p, s);
            proof {
                assert(order@ == old_order.insert(p as int, s));
                assert forall|a: int| 0 <= a < order@.len() implies #[trigger] order@[a] < s + 1 by {
                    if a < p {
                        assert(order@[a] == old_order[a]);
                    } else if a > p {
                        assert(order@[a] == old_order[a - 1]);
                    }
                }
                assert forall|t: usize| t < s + 1 implies #[trigger] order@.contains(t) by {
                    if t == s {
                        assert(order@[p as int] == s);
                    } else {
                        assert(old_order.contains(t));
                        let k = choose|k: int| 0 <= k < old_order.len() && old_order[k] == t;
                        if k < p {
                            assert(order@[k] == t);
                        } else {
                            assert(order@[k + 1] == t);
                        }
                    }
                }
                assert forall|a: int, b: int| 0 <= a < b < order@.len() implies text_lt(
                    names[order@[a] as int],
                    names[order@[b] as int],
                ) by {
                    if b < p {
                        assert(order@[a] == old_order[a]);
                        assert(order@[b] == old_order[b]);
                    } else if b == p {
                        assert(order@[a] == old_order[a]);
                    } else if a > p {
                        assert(order@[a] == old_order[a - 1]);
                        assert(order@[b] == old_order[b - 1]);
                    } else if a == p {
                        assert(order@[b] == old_order[b - 1]);
                        let x = old_order[p as int];
                        if b - 1 > p {
                            lemma_text_lt_transitive(names[s as int], names[x as int], names[order@[b] as int]);
                        }
                    } else {
                        assert(order@[a] == old_order[a]);
                        assert(order@[b] == old_order[b - 1]);
                    }
                }
            }
            s = s + 1;
        }
        order
    }
}


/// The name under which a run's report is filed: `<benchmark>_<target>`.
pub open spec fn run_name(r: Run) -> Seq<char> {
    r.0.name() + seq!['_'] + r.1.name()
}

/// Different runs are filed under different names.
pub proof fn lemma_run_name_identifies(r: Run, q: Run)
    requires
        run_name(r) == run_name(q),
    ensures
        r == q,
{
    lemma_run_name_splits(r.0, r.1);
    lemma_run_name_splits(q.0, q.1);
    r.0.lemma_name_identifies(q.0);
    r.1.lemma_name_identifies(q.1);
}

/// The rounds of the reports filed under `name`, in the order of filing, where
/// the runs in `filed` report in turn (each tagged with its round).
pub open spec fn values_filed(filed: Seq<(Run, int)>, name: Seq<char>) -> Seq<int>
    decreases filed.len(),
{
    if filed.len() == 0 {
        seq![]
    } else {
        values_filed(filed.drop_last(), name) + if run_name(filed.last().0) == name {
            seq![filed.last().1]
        } else {
            seq![]
        }
    }
}

/// The names of the table after the runs in `filed` have reported in turn:
/// each name once, in order of first report, as `slot_for` keeps them.
pub open spec fn names_filed(filed: Seq<(Run, int)>) -> Seq<Seq<char>>
    decreases filed.len(),
{
    if filed.len() == 0 {
        seq![]
    } else {
        let d = names_filed(filed.drop_last());
        let n = run_name(filed.last().0);
        if d.contains(n) {
            d
        } else {
            d.push(n)
        }
    }
}

proof fn lemma_values_filed_append(a: Seq<(Run, int)>, b: Seq<(Run, int)>, name: Seq<char>)
    ensures
        values_filed(a + b, name) == values_filed(a, name) + values_filed(b, name),
    decreases b.len(),
{
    if b.len() == 0 {
        assert(a + b =~= a);
        assert(values_filed(a, name) + values_filed(b, name) =~= values_filed(a, name));
    } else {
        assert((a + b).drop_last() =~= a + b.drop_last());
        assert((a + b).last() == b.last());
        lemma_values_filed_append(a, b.drop_last(), name);
        assert(values_filed(a + b, name) =~= values_filed(a, name) + values_filed(b, name));
    }
}

proof fn lemma_names_filed_contains(filed: Seq<(Run, int)>, name: Seq<char>)
    ensures
        names_filed(filed).contains(name) <==> values_filed(filed, name).len() > 0,
    decreases filed.len(),
{
    if filed.len() > 0 {
        lemma_names_filed_contains(filed.drop_last(), name);
        let d = names_filed(filed.drop_last());
        let n = run_name(filed.last().0);
        let v = values_filed(filed.drop_last(), name);
        assert(values_filed(filed, name).len() == v.len() + if n == name {
            1int
        } else {
            0int
        });
        if !d.contains(n) {
            let e = d.push(n);
            assert(e[d.len() as int] == n);
            if d.contains(name) {
                let k = choose|k: int| 0 <= k < d.len() && d[k] == name;
                assert(e[k] == name);
            }
            if e.contains(name) && name != n {
                let k = choose|k: int| 0 <= k < e.len() && e[k] == name;
                assert(d[k] == name);
            }
        }
    }
}

proof fn lemma_values_filed_source(filed: Seq<(Run, int)>, name: Seq<char>)
    requires
        values_filed(filed, name).len() > 0,
    ensures
        exists|m: int| 0 <= m < filed.len() && run_name(#[trigger] filed[m].0) == name,
    decreases filed.len(),
{
    if run_name(filed.last().0) == name {
        assert(run_name(filed[filed.len() - 1].0) == name);
    } else {
        lemma_values_filed_source(filed.drop_last(), name);
        let m = choose|m: int| 0 <= m < filed.len() - 1 && run_name(#[trigger] filed.drop_last()[m].0) == name;
        assert(filed[m] == filed.drop_last()[m]);
    }
}

/// Within one round, the reports filed under a run's name are as many as the
/// times the round holds the run, all of that round.
proof fn lemma_values_in_round(order: Seq<Run>, round: int, p: Run)
    ensures
        values_filed(tag_round(order, round), run_name(p)) == Seq::new(
            order.to_multiset().count(p),
            |k: int| round,
        ),
    decreases order.len(),
{
    broadcast use vstd::multiset::group_multiset_axioms;

    if order.len() == 0 {
        vstd::seq_lib::to_multiset_contains(order, p);
        assert(Seq::new(0, |k: int| round) =~= Seq::<int>::empty());
    } else {
        let o2 = order.drop_last();
        let x = order.last();
        lemma_values_in_round(o2, round, p);
        assert(order =~= o2.push(x));
        vstd::seq_lib::to_multiset_build(o2, x);
        let t = tag_round(order, round);
        assert(t.drop_last() =~= tag_round(o2, round));
        assert(t.last() == (x, round));
        if x == p {
            assert(run_name(x) == run_name(p));
        } else if run_name(x) == run_name(p) {
            lemma_run_name_identifies(x, p);
        }
        assert(values_filed(t, run_name(p)) =~= Seq::new(
            order.to_multiset().count(p),
            |k: int| round,
        ));
    }
}

/// Where each round holds a run once, the reports filed under its name come one
/// from each round, in the order of the rounds.
proof fn lemma_values_in_rounds(orders: Seq<Seq<Run>>, p: Run)
    requires
        forall|i: int| 0 <= i < orders.len() ==> (#[trigger] orders[i]).to_multiset().count(p) == 1,
    ensures
        values_filed(tagged_runs(orders), run_name(p)) == Seq::new(orders.len(), |k: int| k),
    decreases orders.len(),
{
    if orders.len() == 0 {
        assert(Seq::new(0, |k: int| k) =~= Seq::<int>::empty());
    } else {
        let last = orders.len() - 1;
        lemma_values_in_rounds(orders.drop_last(), p);
        assert(orders.last().to_multiset().count(p) == 1);
        lemma_values_in_round(orders.last(), last, p);
        lemma_values_filed_append(
            tagged_runs(orders.drop_last()),
            tag_round(orders.last(), last),
            run_name(p),
        );
        assert(Seq::new(1, |k: int| last) =~= seq![last]);
        assert(values_filed(tagged_runs(orders), run_name(p)) =~= Seq::new(
            orders.len(),
            |k: int| k,
        ));
    }
}

/// Each run handed out over several rounds is a run of one of those rounds.
proof fn lemma_tagged_runs_source(orders: Seq<Seq<Run>>, m: int)
    requires
        0 <= m < tagged_runs(orders).len(),
    ensures
        exists|i: int| 0 <= i < orders.len() && (#[trigger] orders[i]).contains(tagged_runs(orders)[m].0),
    decreases orders.len(),
{
    let a = tagged_runs(orders.drop_last());
    let last = orders.len() - 1;
    let b = tag_round(orders.last(), last);
    if m < a.len() {
        assert(tagged_runs(orders)[m] == a[m]);
        lemma_tagged_runs_source(orders.drop_last(), m);
        let i = choose|i: int| 0 <= i < orders.drop_last().len() && (#[trigger] orders.drop_last()[i]).contains(a[m].0);
        assert(orders[i] == orders.drop_last()[i]);
    } else {
        assert(tagged_runs(orders)[m] == b[m - a.len()]);
        assert(orders[last].contains(orders.last()[m - a.len()]));
    }
}

/// What a whole session files, whatever order the shuffles picked. Where
/// neither the benchmarks nor the targets repeat and every round runs the runs
/// of the grid, each as many times, then, when each run's report is filed
/// under its run's name in turn: the name of each benchmark on each target gets
/// exactly one report from each round, in the order of the rounds (as many as
/// there are rounds); with at least one round, each of these names is in the
/// table; and the table holds no other name.
pub proof fn lemma_session_fills_every_entry(
    benchmarks: Seq<LoggerKind>,
    targets: Seq<OutputTarget>,
    orders: Seq<Seq<Run>>,
)
    requires
        benchmarks.no_duplicates(),
        targets.no_duplicates(),
        forall|i: int|
            0 <= i < orders.len() ==> (#[trigger] orders[i]).to_multiset() == pair_grid(
                benchmarks,
                targets,
            ).to_multiset(),
    ensures
        forall|i: int, j: int|
            0 <= i < benchmarks.len() && 0 <= j < targets.len() ==> values_filed(
                tagged_runs(orders),
                run_name((benchmarks[i], targets[j])),
            ) == Seq::new(orders.len(), |k: int| k),
        orders.len() > 0 ==> forall|i: int, j: int|
            0 <= i < benchmarks.len() && 0 <= j < targets.len() ==> names_filed(
                tagged_runs(orders),
            ).contains(run_name((benchmarks[i], targets[j]))),
        forall|name: Seq<char>| #[trigger]
            names_filed(tagged_runs(orders)).contains(name) ==> exists|i: int, j: int|
                0 <= i < benchmarks.len() && 0 <= j < targets.len() && name == run_name(
                    (benchmarks[i], targets[j]),
                ),
{
    let g = pair_grid(benchmarks, targets);
    let filed = tagged_runs(orders);
    lemma_grid_has_no_duplicates(benchmarks, targets);
    g.lemma_multiset_has_no_duplicates();
    assert forall|i: int, j: int|
        0 <= i < benchmarks.len() && 0 <= j < targets.len() implies values_filed(
        filed,
        run_name((benchmarks[i], targets[j])),
    ) == Seq::new(orders.len(), |k: int| k) by {
        let p = (benchmarks[i], targets[j]);
        lemma_grid_cell(benchmarks, targets, i, j);
        assert(g.contains(g[i * targets.len() + j]));
        vstd::seq_lib::to_multiset_contains(g, p);
        assert forall|r: int| 0 <= r < orders.len() implies (#[trigger] orders[r]).to_multiset().count(p) == 1 by {
        }
        lemma_values_in_rounds(orders, p);
    }
    if orders.len() > 0 {
        assert forall|i: int, j: int|
            0 <= i < benchmarks.len() && 0 <= j < targets.len() implies names_filed(filed).contains(
            run_name((benchmarks[i], targets[j])),
        ) by {
            lemma_names_filed_contains(filed, run_name((benchmarks[i], targets[j])));
        }
    }
    assert forall|name: Seq<char>| #[trigger]
        names_filed(filed).contains(name) implies exists|i: int, j: int|
        0 <= i < benchmarks.len() && 0 <= j < targets.len() && name == run_name(
            (benchmarks[i], targets[j]),
        ) by {
        lemma_names_filed_contains(filed, name);
        lemma_values_filed_source(filed, name);
        let m = choose|m: int| 0 <= m < filed.len() && run_name(#[trigger] filed[m].0) == name;
        lemma_tagged_runs_source(orders, m);
        let r = filed[m].0;
        let i = choose|i: int| 0 <= i < orders.len() && (#[trigger] orders[i]).contains(r);
        vstd::seq_lib::to_multiset_contains(orders[i], r);
        vstd::seq_lib::to_multiset_contains(g, r);
        let k = choose|k: int| 0 <= k < g.len() && g[k] == r;
        lemma_grid_position(benchmarks.len() as int, targets.len() as int, k);
        assert(r == (benchmarks[k / targets.len() as int], targets[k % targets.len() as int]));
    }
}

/// The shuffles do not change what a session files: two sessions of as many
/// rounds over the same benchmarks and targets, whatever orders their rounds
/// took, file the same reports under each name, round by round, and end with
/// tables that hold the same names.
pub proof fn lemma_session_independent_of_order(
    benchmarks: Seq<LoggerKind>,
    targets: Seq<OutputTarget>,
    first: Seq<Seq<Run>>,
    second: Seq<Seq<Run>>,
)
    requires
        benchmarks.no_duplicates(),
        targets.no_duplicates(),
        first.len() == second.len(),
        forall|i: int|
            0 <= i < first.len() ==> (#[trigger] first[i]).to_multiset() == pair_grid(
                benchmarks,
                targets,
            ).to_multiset(),
        forall|i: int|
            0 <= i < second.len() ==> (#[trigger] second[i]).to_multiset() == pair_grid(
                benchmarks,
                targets,
            ).to_multiset(),
    ensures
        forall|name: Seq<char>|
            #[trigger] values_filed(tagged_runs(first), name) == values_filed(
                tagged_runs(second),
                name,
            ),
        forall|name: Seq<char>|
            #[trigger] names_filed(tagged_runs(first)).contains(name) <==> names_filed(
                tagged_runs(second),
            ).contains(name),
{
    lemma_session_fills_every_entry(benchmarks, targets, first);
    lemma_session_fills_every_entry(benchmarks, targets, second);
    assert forall|name: Seq<char>|
        #[trigger] values_filed(tagged_runs(first), name) == values_filed(
            tagged_runs(second),
            name,
        ) by {
        lemma_names_filed_contains(tagged_runs(first), name);
        lemma_names_filed_contains(tagged_runs(second), name);
        let a = values_filed(tagged_runs(first), name);
        let b = values_filed(tagged_runs(second), name);
        if a.len() > 0 {
            let (i, j) = choose|i: int, j: int|
                0 <= i < benchmarks.len() && 0 <= j < targets.len() && name == run_name(
                    (benchmarks[i], targets[j]),
                );
        } else if b.len() > 0 {
            let (i, j) = choose|i: int, j: int|
                0 <= i < benchmarks.len() && 0 <= j < targets.len() && name == run_name(
                    (benchmarks[i], targets[j]),
                );
        } else {
            assert(a =~= b);
        }
    }
    assert forall|name: Seq<char>|
        #[trigger] names_filed(tagged_runs(first)).contains(name) <==> names_filed(
            tagged_runs(second),
        ).contains(name) by {
        lemma_names_filed_contains(tagged_runs(first), name);
        lemma_names_filed_contains(tagged_runs(second), name);
    }
}


/// A finished session over distinct benchmarks and distinct targets, whose runs
/// each filed their report under their run's name in the order handed out, fills
/// every entry: each benchmark on each target gets one report from each round, in
/// the order of the rounds; with at least one round each such name is in the
/// table, and no other name is.
pub proof fn lemma_finished_session_files_every_entry(
    schedule: &Schedule,
    benchmarks: Seq<LoggerKind>,
    targets: Seq<OutputTarget>,
)
    requires
        schedule.wf(),
        schedule.finished(),
        schedule.grid() == pair_grid(benchmarks, targets),
        benchmarks.no_duplicates(),
        targets.no_duplicates(),
    ensures
        forall|i: int, j: int|
            0 <= i < benchmarks.len() && 0 <= j < targets.len() ==> values_filed(
                schedule.handed_out(),
                run_name((benchmarks[i], targets[j])),
            ) == Seq::new(schedule.total_rounds(), |k: int| k),
        schedule.total_rounds() > 0 ==> forall|i: int, j: int|
            0 <= i < benchmarks.len() && 0 <= j < targets.len() ==> names_filed(
                schedule.handed_out(),
            ).contains(run_name((benchmarks[i], targets[j]))),
        forall|name: Seq<char>| #[trigger]
            names_filed(schedule.handed_out()).contains(name) ==> exists|i: int, j: int|
                0 <= i < benchmarks.len() && 0 <= j < targets.len() && name == run_name(
                    (benchmarks[i], targets[j]),
                ),
{
    schedule.lemma_finished_in_blocks();
    lemma_session_fills_every_entry(benchmarks, targets, schedule.orders());
}

} // verus!
