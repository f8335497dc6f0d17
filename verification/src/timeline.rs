//! Times of actions: each action is logged with the time that passed since
//! the action before it in the same log, and is replayed at the sum of these
//! times up to and including its own.

//!
//! The two logs of a match are replayed as one: at each step the next
//! action of the log whose next action is the earlier one is done, and that
//! of the log of opened cells if both are equally early.

use crate::minesweeper_logic::Field;
use crate::parser::{
    flag_applied, open_applied, ActionType, FlagAction, Metadata, OpenAction,
};
use vstd::prelude::*;

verus! {

/// The sum of the first `k` of `deltas`.
pub open spec fn prefix_sum(deltas: Seq<i64>, k: int) -> int
    decreases k,
{
    if k <= 0 {
        0
    } else {
        prefix_sum(deltas, k - 1) + deltas[k - 1]
    }
}

/// Whether the sum of the first `k` of `deltas` is a 64 bit number, for
/// every `k` up to the length of `deltas`.
pub open spec fn sums_fit(deltas: Seq<i64>) -> bool {
    forall|k: int|
        0 <= k <= deltas.len() ==> i64::MIN <= #[trigger] prefix_sum(deltas, k) <= i64::MAX
}

/// The time of each action: that of action `i` is the sum of the deltas up
/// to and including its own.
pub open spec fn absolute_times(deltas: Seq<i64>) -> Seq<i64> {
    Seq::new(deltas.len(), |i: int| prefix_sum(deltas, i + 1) as i64)
}

/// Where no delta is negative, a longer sum is not smaller than a shorter
/// one.
pub proof fn lemma_prefix_sum_monotonic(deltas: Seq<i64>, i: int, j: int)
    requires
        forall|k: int| 0 <= k < deltas.len() ==> deltas[k] >= 0,
        0 <= i <= j <= deltas.len(),
    ensures
        prefix_sum(deltas, i) <= prefix_sum(deltas, j),
    decreases j - i,
{
    if i < j {
        lemma_prefix_sum_monotonic(deltas, i, j - 1);
    }
}

/// Where no delta is negative and all sums fit, the times of the actions
/// never decrease, and the time of each action is the sum of the deltas up
/// to and including its own.
pub proof fn lemma_absolute_times_monotonic(deltas: Seq<i64>)
    requires
        forall|k: int| 0 <= k < deltas.len() ==> deltas[k] >= 0,
        sums_fit(deltas),
    ensures
        forall|i: int|
            0 <= i < deltas.len() ==> (#[trigger] absolute_times(deltas)[i]) == prefix_sum(
                deltas,
                i + 1,
            ),
        forall|i: int, j: int|
            0 <= i <= j < deltas.len() ==> absolute_times(deltas)[i] <= absolute_times(deltas)[j],
{
    assert forall|i: int| 0 <= i < deltas.len() implies (#[trigger] absolute_times(deltas)[i])
        == prefix_sum(deltas, i + 1) by {
        assert(i64::MIN <= prefix_sum(deltas, i + 1) <= i64::MAX);
    }
    assert forall|i: int, j: int| 0 <= i <= j < deltas.len() implies absolute_times(deltas)[i]
        <= absolute_times(deltas)[j] by {
        lemma_prefix_sum_monotonic(deltas, i + 1, j + 1);
    }
}

/// Returns the time of each action, or nothing if one of the sums is no
/// 64 bit number.
pub fn cumulative_times(deltas: &[i64]) -> (times: Option<Vec<i64>>)
    ensures
        match times {
            Some(t) => sums_fit(deltas@) && t@ == absolute_times(deltas@),
            None => !sums_fit(deltas@),
        },
{
    let mut times: Vec<i64> = Vec::new();
    let mut running: i64 = 0;
    let mut i: usize = 0;
    while i < deltas.len()
        invariant
            0 <= i <= deltas.len(),
            running == prefix_sum(deltas@, i as int),
            times@.len() == i,
            forall|k: int|
                0 <= k <= i ==> i64::MIN <= #[trigger] prefix_sum(deltas@, k) <= i64::MAX,
            forall|k: int| 0 <= k < i ==> (#[trigger] times@[k]) == prefix_sum(deltas@, k + 1),
        decreases deltas.len() - i,
    {
        match running.checked_add(deltas[i]) {
            Some(sum) => {
                running = sum;
            },
            None => {
                assert(!(i64::MIN <= prefix_sum(deltas@, i + 1) <= i64::MAX));
                return None;
            },
        }
        times.push(running);
        i += 1;
    }
    proof {
        assert(times@ =~= absolute_times(deltas@));
    }
    Some(times)
}

/// One step of the replay: the action number `index` of one of the logs.
#[derive(Clone, Copy, Debug, PartialEq, Eq, Structural)]
pub struct Step {
    /// The log.
    pub kind: ActionType,
    /// The position of the action in its log.
    pub index: usize,
}

/// The steps that replay the actions from number `i` of the log of opened
/// cells and from number `j` of the log of flag actions on.
pub open spec fn merge_from(opens: Seq<OpenAction>, flags: Seq<FlagAction>, i: int, j: int) -> Seq<
    Step,
>
    decreases opens.len() - i + flags.len() - j,
{
    if !(0 <= i <= opens.len() && 0 <= j <= flags.len()) || (i == opens.len() && j
        == flags.len()) {
        Seq::empty()
    } else if j == flags.len() || (i < opens.len() && opens[i].total_time
        <= flags[j].total_time) {
        seq![Step { kind: ActionType::Open, index: i as usize }] + merge_from(
            opens,
            flags,
            i + 1,
            j,
        )
    } else {
        seq![Step { kind: ActionType::Flag, index: j as usize }] + merge_from(
            opens,
            flags,
            i,
            j + 1,
        )
    }
}

/// The steps that replay the two logs as one.
pub open spec fn merged(opens: Seq<OpenAction>, flags: Seq<FlagAction>) -> Seq<Step> {
    merge_from(opens, flags, 0, 0)
}

/// Whether each step names an action that its log has.
pub open spec fn steps_valid(steps: Seq<Step>, opens: int, flags: int) -> bool {
    forall|k: int|
        0 <= k < steps.len() ==> match (#[trigger] steps[k]).kind {
            ActionType::Open => steps[k].index < opens,
            ActionType::Flag => steps[k].index < flags,
        }
}

/// The time at which a step is done.
pub open spec fn step_time(opens: Seq<OpenAction>, flags: Seq<FlagAction>, step: Step) -> int {
    match step.kind {
        ActionType::Open => opens[step.index as int].total_time as int,
        ActionType::Flag => flags[step.index as int].total_time as int,
    }
}

/// Whether the times of the log never decrease.
pub open spec fn opens_sorted(opens: Seq<OpenAction>) -> bool {
    forall|a: int, b: int| 0 <= a <= b < opens.len() ==> opens[a].total_time <= opens[b].total_time
}

/// Whether the times of the log never decrease.
pub open spec fn flags_sorted(flags: Seq<FlagAction>) -> bool {
    forall|a: int, b: int| 0 <= a <= b < flags.len() ==> flags[a].total_time <= flags[b].total_time
}

/// Whether each step names an action of its log that is not before
/// number `i` of the opened cells and number `j` of the flag actions.
pub open spec fn steps_from(steps: Seq<Step>, opens: int, flags: int, i: int, j: int) -> bool {
    forall|k: int|
        0 <= k < steps.len() ==> match (#[trigger] steps[k]).kind {
            ActionType::Open => i <= steps[k].index < opens,
            ActionType::Flag => j <= steps[k].index < flags,
        }
}

/// The replay does every action once: there are as many steps as actions,
/// and each step names an action that its log has.
pub proof fn lemma_merge_complete(opens: Seq<OpenAction>, flags: Seq<FlagAction>, i: int, j: int)
    requires
        0 <= i <= opens.len() <= usize::MAX,
        0 <= j <= flags.len() <= usize::MAX,
    ensures
        merge_from(opens, flags, i, j).len() == opens.len() - i + flags.len() - j,
        steps_from(merge_from(opens, flags, i, j), opens.len() as int, flags.len() as int, i, j),
        steps_valid(merge_from(opens, flags, i, j), opens.len() as int, flags.len() as int),
    decreases opens.len() - i + flags.len() - j,
{
    let all = merge_from(opens, flags, i, j);
    if i == opens.len() && j == flags.len() {
    } else if j == flags.len() || (i < opens.len() && opens[i].total_time
        <= flags[j].total_time) {
        lemma_merge_complete(opens, flags, i + 1, j);
        let rest = merge_from(opens, flags, i + 1, j);
        assert forall|k: int| 0 <= k < all.len() implies match (#[trigger] all[k]).kind {
            ActionType::Open => i <= all[k].index < opens.len(),
            ActionType::Flag => j <= all[k].index < flags.len(),
        } by {
            if k > 0 {
                assert(all[k] == rest[k - 1]);
            }
        }
    } else {
        lemma_merge_complete(opens, flags, i, j + 1);
        let rest = merge_from(opens, flags, i, j + 1);
        assert forall|k: int| 0 <= k < all.len() implies match (#[trigger] all[k]).kind {
            ActionType::Open => i <= all[k].index < opens.len(),
            ActionType::Flag => j <= all[k].index < flags.len(),
        } by {
            if k > 0 {
                assert(all[k] == rest[k - 1]);
            }
        }
    }
}

/// Where the times of neither log ever decrease, the replay is in the order
/// of time: no step is earlier than a step before it.
pub proof fn lemma_merge_sorted(opens: Seq<OpenAction>, flags: Seq<FlagAction>, i: int, j: int)
    requires
        0 <= i <= opens.len() <= usize::MAX,
        0 <= j <= flags.len() <= usize::MAX,
        opens_sorted(opens),
        flags_sorted(flags),
    ensures
        forall|a: int, b: int|
            0 <= a <= b < merge_from(opens, flags, i, j).len() ==> step_time(
                opens,
                flags,
                merge_from(opens, flags, i, j)[a],
            ) <= step_time(opens, flags, merge_from(opens, flags, i, j)[b]),
    decreases opens.len() - i + flags.len() - j,
{
    let all = merge_from(opens, flags, i, j);
    if i == opens.len() && j == flags.len() {
    } else {
        let first_open = j == flags.len() || (i < opens.len() && opens[i].total_time
            <= flags[j].total_time);
        let (ni, nj) = if first_open {
            (i + 1, j)
        } else {
            (i, j + 1)
        };
        lemma_merge_sorted(opens, flags, ni, nj);
        lemma_merge_complete(opens, flags, ni, nj);
        let rest = merge_from(opens, flags, ni, nj);
        assert forall|a: int, b: int| 0 <= a <= b < all.len() implies step_time(
            opens,
            flags,
            all[a],
        ) <= step_time(opens, flags, all[b]) by {
            if a > 0 {
                assert(all[a] == rest[a - 1]);
                assert(all[b] == rest[b - 1]);
            } else if b > 0 {
                let later = rest[b - 1];
                assert(all[b] == later);
                match later.kind {
                    ActionType::Open => {
                        assert(ni <= later.index < opens.len());
                    },
                    ActionType::Flag => {
                        assert(nj <= later.index < flags.len());
                    },
                }
            }
        }
    }
}

/// The actions of the log of opened cells that the steps name, in the
/// order of the steps.
pub open spec fn open_steps(steps: Seq<Step>) -> Seq<int>
    decreases steps.len(),
{
    if steps.len() == 0 {
        Seq::empty()
    } else if steps[0].kind == ActionType::Open {
        seq![steps[0].index as int] + open_steps(steps.drop_first())
    } else {
        open_steps(steps.drop_first())
    }
}

/// The actions of the log of flag actions that the steps name, in the order
/// of the steps.
pub open spec fn flag_steps(steps: Seq<Step>) -> Seq<int>
    decreases steps.len(),
{
    if steps.len() == 0 {
        Seq::empty()
    } else if steps[0].kind == ActionType::Flag {
        seq![steps[0].index as int] + flag_steps(steps.drop_first())
    } else {
        flag_steps(steps.drop_first())
    }
}

/// The replay does the actions of each log once and in the order of the
/// log: the steps that name opened cells name them one after the other,
/// and so for the flag actions.
pub proof fn lemma_merge_keeps_order(
    opens: Seq<OpenAction>,
    flags: Seq<FlagAction>,
    i: int,
    j: int,
)
    requires
        0 <= i <= opens.len() <= usize::MAX,
        0 <= j <= flags.len() <= usize::MAX,
    ensures
        open_steps(merge_from(opens, flags, i, j)) == Seq::new(
            (opens.len() - i) as nat,
            |k: int| i + k,
        ),
        flag_steps(merge_from(opens, flags, i, j)) == Seq::new(
            (flags.len() - j) as nat,
            |k: int| j + k,
        ),
    decreases opens.len() - i + flags.len() - j,
{
    let all = merge_from(opens, flags, i, j);
    if i == opens.len() && j == flags.len() {
        assert(open_steps(all) =~= Seq::new(0, |k: int| i + k));
        assert(flag_steps(all) =~= Seq::new(0, |k: int| j + k));
    } else if j == flags.len() || (i < opens.len() && opens[i].total_time
        <= flags[j].total_time) {
        lemma_merge_keeps_order(opens, flags, i + 1, j);
        let rest = merge_from(opens, flags, i + 1, j);
        assert(all.drop_first() =~= rest);
        assert(open_steps(all) =~= Seq::new((opens.len() - i) as nat, |k: int| i + k));
    } else {
        lemma_merge_keeps_order(opens, flags, i, j + 1);
        let rest = merge_from(opens, flags, i, j + 1);
        assert(all.drop_first() =~= rest);
        assert(flag_steps(all) =~= Seq::new((flags.len() - j) as nat, |k: int| j + k));
    }
}

/// Puts the two logs in the order in which they are replayed.
pub fn merge(opens: &[OpenAction], flags: &[FlagAction]) -> (steps: Vec<Step>)
    ensures
        steps@ == merged(opens@, flags@),
        steps@.len() == opens@.len() + flags@.len(),
        steps_valid(steps@, opens@.len() as int, flags@.len() as int),
{
    let mut steps: Vec<Step> = Vec::new();
    let mut i: usize = 0;
    let mut j: usize = 0;
    while i < opens.len() || j < flags.len()
        invariant
            0 <= i <= opens.len(),
            0 <= j <= flags.len(),
            merged(opens@, flags@) == steps@ + merge_from(opens@, flags@, i as int, j as int),
        decreases opens.len() - i + flags.len() - j,
    {
        let ghost before = steps@;
        let ghost rest = merge_from(opens@, flags@, i as int, j as int);
        if j == flags.len() || (i < opens.len() && opens[i].total_time <= flags[j].total_time) {
            steps.push(Step { kind: ActionType::Open, index: i });
            i += 1;
        } else {
            steps.push(Step { kind: ActionType::Flag, index: j });
            j += 1;
        }
        assert(steps@ + merge_from(opens@, flags@, i as int, j as int) =~= before + rest);
    }
    proof {
        lemma_merge_complete(opens@, flags@, 0, 0);
        assert(steps@ =~= merged(opens@, flags@));
    }
    steps
}

/// The cells after the step was done.
pub open spec fn step_applied(
    cells: Seq<Field>,
    meta: Metadata,
    opens: Seq<OpenAction>,
    flags: Seq<FlagAction>,
    step: Step,
) -> Seq<Field> {
    match step.kind {
        ActionType::Open => open_applied(cells, meta, opens[step.index as int]),
        ActionType::Flag => flag_applied(cells, meta, flags[step.index as int]),
    }
}

/// The cells after the steps were done, one after the other.
pub open spec fn replayed(
    cells: Seq<Field>,
    meta: Metadata,
    opens: Seq<OpenAction>,
    flags: Seq<FlagAction>,
    steps: Seq<Step>,
) -> Seq<Field>
    decreases steps.len(),
{
    if steps.len() == 0 {
        cells
    } else {
        step_applied(
            replayed(cells, meta, opens, flags, steps.drop_last()),
            meta,
            opens,
            flags,
            steps.last(),
        )
    }
}

} // verus!
