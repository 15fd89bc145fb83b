use vstd::prelude::*;

use crate::clock::elapsed_ms;
use crate::config::Configs;
use crate::event::{ActionType, KeyModifier};
use crate::matcher::scrolling::{
    advance_set, advanced, first_complete, follows, new_entries, new_entry, starts_with,
    triggers_fit, typed_spells, entry_spelled, lemma_first_complete, toggle_key_elapsed,
    MatchEntry, MatcherModel,
};
use crate::matcher::Match;

verus! {

/// Each character of `t`, as an input of its own.
pub open spec fn one_char_inputs(t: Seq<char>) -> Seq<Seq<char>> {
    Seq::new(t.len(), |i: int| seq![t[i]])
}

/// Typing `inputs` one after the other, from `model`, reports a match at one of them.
pub open spec fn reports_some<'a>(
    model: MatcherModel<'a>,
    matches: Seq<Match>,
    backspace_limit: i32,
    inputs: Seq<Seq<char>>,
) -> bool
    decreases inputs.len(),
{
    if inputs.len() == 0 {
        false
    } else {
        model.reported(matches, inputs[0]) is Some || reports_some(
            model.after_char(matches, backspace_limit, inputs[0]),
            matches,
            backspace_limit,
            inputs.drop_first(),
        )
    }
}

/// A match is reported only when what was just typed spells its trigger: on a well-formed state,
/// the match reported for the input `c` has a non-empty trigger that begins with the input typed
/// `trigger.len() - 1` inputs before `c`, and each input since begins with the next character of
/// the trigger.
pub proof fn lemma_reported_match_was_typed<'a>(
    model: MatcherModel<'a>,
    matches: Seq<Match>,
    backspace_limit: i32,
    c: Seq<char>,
)
    requires
        model.wf(),
        triggers_fit(matches),
    ensures
        model.reported(matches, c) matches Some(m) ==> typed_spells(
            model.after_char(matches, backspace_limit, c).typed,
            m.trigger@,
        ),
{
    if model.enabled {
        let comb = model.combined(matches, c);
        model.lemma_combined_spelled(matches, c);
        lemma_first_complete(comb, 0);
        if first_complete(comb, 0) is Some {
            let j: int = choose|j: int|
                0 <= j < comb.len() && (#[trigger] comb[j]).start == comb[j].count && first_complete(
                    comb,
                    0,
                ) == Some(comb[j]._match);
            let e = comb[j];
            let h = model.typed.push(c);
            assert(entry_spelled(e, h, model.typed.len() as int));
            let t = e._match.trigger@;
            assert(model.after_char(matches, backspace_limit, c).typed == h);
            let first: int = h.len() - t.len();
            assert forall|k: int| 1 <= k < t.len() implies #[trigger] h[first + k].len() > 0 && h[first
                + k][0] == t[k] by {
                assert(h[(model.typed.len() - e.start + 1) + k].len() > 0);
            }
        }
    }
}

/// An entry of `set` that `c` takes a step further is still followed, a step further, after `c`.
proof fn lemma_advance_set_keeps<'a>(set: Seq<MatchEntry<'a>>, c: Seq<char>, k: int)
    requires
        0 <= k < set.len(),
        follows(set[k], c),
    ensures
        advance_set(set, c).contains(advanced(set[k])),
    decreases set.len(),
{
    let rest = set.drop_last();
    let ra = advance_set(rest, c);
    if k == set.len() - 1 {
        let r = ra.push(advanced(set.last()));
        assert(r[ra.len() as int] == advanced(set[k]));
    } else {
        assert(rest[k] == set[k]);
        lemma_advance_set_keeps(rest, c, k);
        let i: int = choose|i: int| 0 <= i < ra.len() && ra[i] == advanced(set[k]);
        if follows(set.last(), c) {
            let r = ra.push(advanced(set.last()));
            assert(r[i] == ra[i]);
        }
    }
}

/// A match whose trigger begins with `c` gets an entry of its own.
proof fn lemma_new_entries_has<'a>(matches: Seq<Match>, c: Seq<char>, idx: int)
    requires
        0 <= idx < matches.len(),
        starts_with(matches[idx].trigger@, c),
    ensures
        new_entries::<'a>(matches, c).contains(new_entry(&matches[idx])),
    decreases matches.len(),
{
    let rest = matches.drop_last();
    let rn = new_entries::<'a>(rest, c);
    if idx == matches.len() - 1 {
        let r = rn.push(new_entry(&matches.last()));
        assert(r[rn.len() as int] == new_entry(&matches[idx]));
    } else {
        assert(rest[idx] == matches[idx]);
        lemma_new_entries_has(rest, c, idx);
        let i: int = choose|i: int| 0 <= i < rn.len() && rn[i] == new_entry(&matches[idx]);
        if starts_with(matches.last().trigger@, c) {
            let r = rn.push(new_entry(&matches.last()));
            assert(r[i] == rn[i]);
        }
    }
}

/// On an enabled matcher with the entry `e` in its newest set, `j` characters of `t` typed,
/// typing the rest of `t` one character at a time reports a match.
proof fn lemma_following_trigger_reports<'a>(
    model: MatcherModel<'a>,
    matches: Seq<Match>,
    backspace_limit: i32,
    e: MatchEntry<'a>,
    t: Seq<char>,
    j: int,
)
    requires
        model.enabled,
        0 <= backspace_limit,
        model.sets.len() > 0,
        model.sets.last().contains(e),
        e._match.trigger@ == t,
        e.start == j,
        e.count as int == t.len(),
        1 <= j < t.len(),
        t.len() <= usize::MAX,
    ensures
        reports_some(model, matches, backspace_limit, one_char_inputs(t).subrange(j, t.len() as int)),
    decreases t.len() - j,
{
    let inputs = one_char_inputs(t).subrange(j, t.len() as int);
    let c = inputs[0];
    assert(c == seq![t[j]]);
    assert(follows(e, c));
    let last = model.sets.last();
    let k: int = choose|k: int| 0 <= k < last.len() && last[k] == e;
    lemma_advance_set_keeps(last, c, k);
    let adv = advance_set(last, c);
    let comb = model.combined(matches, c);
    let a = advanced(e);
    let i: int = choose|i: int| 0 <= i < adv.len() && adv[i] == a;
    assert(comb[i] == a);
    if model.reported(matches, c) is None {
        lemma_first_complete(comb, 0);
        assert(a.start != a.count);
        assert(j + 1 < t.len());
        let next = model.after_char(matches, backspace_limit, c);
        lemma_after_char_last(model, matches, backspace_limit, c);
        assert(next.sets.last().contains(a));
        assert(inputs.drop_first() =~= one_char_inputs(t).subrange(j + 1, t.len() as int));
        lemma_following_trigger_reports(next, matches, backspace_limit, a, t, j + 1);
    }
}

/// Typing the trigger of a match one character at a time, on an enabled matcher whose
/// backspace limit is not negative, reports a match at one of those characters.
pub proof fn lemma_typed_trigger_is_reported<'a>(
    model: MatcherModel<'a>,
    matches: Seq<Match>,
    backspace_limit: i32,
    idx: int,
)
    requires
        model.enabled,
        0 <= backspace_limit,
        0 <= idx < matches.len(),
        matches[idx].trigger@.len() >= 1,
        matches[idx].trigger@.len() <= usize::MAX,
    ensures
        reports_some(model, matches, backspace_limit, one_char_inputs(matches[idx].trigger@)),
{
    let t = matches[idx].trigger@;
    let inputs = one_char_inputs(t);
    let c = inputs[0];
    assert(c == seq![t[0]]);
    assert(t.subrange(0, 1) =~= c);
    lemma_new_entries_has(matches, c, idx);
    let fresh = new_entries::<'a>(matches, c);
    let e = new_entry(&matches[idx]);
    let i: int = choose|i: int| 0 <= i < fresh.len() && fresh[i] == e;
    let comb = model.combined(matches, c);
    if model.sets.len() == 0 {
        assert(comb[i] == e);
    } else {
        let adv = advance_set(model.sets.last(), c);
        assert(comb[adv.len() + i] == e);
    }
    assert(comb.contains(e));
    if model.reported(matches, c) is None {
        lemma_first_complete(comb, 0);
        assert(e.start != e.count);
        assert(1 < t.len());
        let next = model.after_char(matches, backspace_limit, c);
        lemma_after_char_last(model, matches, backspace_limit, c);
        assert(inputs.drop_first() =~= one_char_inputs(t).subrange(1, t.len() as int));
        lemma_following_trigger_reports(next, matches, backspace_limit, e, t, 1);
    }
}

/// Backspace takes back an input: on an enabled matcher that keeps fewer sets than
/// `backspace_limit + 1`, typing `c` and then backspace leaves the state as it was.
pub proof fn lemma_backspace_takes_back_input<'a>(
    model: MatcherModel<'a>,
    matches: Seq<Match>,
    backspace_limit: i32,
    c: Seq<char>,
)
    requires
        model.enabled,
        model.sets.len() + 1 <= backspace_limit + 1,
    ensures
        model.after_char(matches, backspace_limit, c).backspaced() == model,
{
    let comb = model.combined(matches, c);
    let set = if first_complete(comb, 0) is Some {
        Seq::empty()
    } else {
        comb
    };
    let pushed = model.sets.push(set);
    if pushed.len() <= i32::MAX {
        assert((pushed.len() as i32) == pushed.len());
    }
    assert(!((pushed.len() as i32) > backspace_limit + 1));
    let b = model.after_char(matches, backspace_limit, c).backspaced();
    assert(b.sets =~= model.sets);
    assert(b.typed =~= model.typed);
}

/// The sets never grow past `backspace_limit + 1`: where a state keeps at most that many,
/// so does the state after any input. (Where the state keeps exactly `backspace_limit + 1`
/// sets and that is `i32::MAX` or more, the count after an input, taken as an `i32`, wraps
/// round, and the oldest set is not dropped.)
pub proof fn lemma_sets_within_limit<'a>(
    model: MatcherModel<'a>,
    matches: Seq<Match>,
    backspace_limit: i32,
    c: Seq<char>,
)
    requires
        model.sets.len() <= backspace_limit + 1,
        model.sets.len() < i32::MAX || model.sets.len() < backspace_limit + 1,
    ensures
        model.after_char(matches, backspace_limit, c).sets.len() <= backspace_limit + 1,
{
    if model.enabled {
        let comb = model.combined(matches, c);
        let set = if first_complete(comb, 0) is Some {
            Seq::empty()
        } else {
            comb
        };
        let pushed = model.sets.push(set);
        if pushed.len() <= i32::MAX {
            assert((pushed.len() as i32) == pushed.len());
        }
    }
}

/// While disabled, typing changes nothing and reports nothing.
pub proof fn lemma_disabled_ignores_input<'a>(
    model: MatcherModel<'a>,
    matches: Seq<Match>,
    backspace_limit: i32,
    c: Seq<char>,
)
    requires
        !model.enabled,
    ensures
        model.after_char(matches, backspace_limit, c) == model,
        model.reported(matches, c) is None,
{
}

/// Toggling twice restores the state, and reports the original flag the second time.
pub proof fn lemma_toggle_twice_restores<'a>(model: MatcherModel<'a>)
    ensures
        model.after_action(ActionType::Toggle).after_action(ActionType::Toggle) == model,
        model.after_action(ActionType::Toggle).action_update(ActionType::Toggle) == Some(
            model.enabled,
        ),
{
}

// ---------------------------------------------------------------------------------------------
// What later inputs report
// ---------------------------------------------------------------------------------------------

/// The newest set, or no entry where there is no set.
pub open spec fn last_set<'a>(model: MatcherModel<'a>) -> Seq<MatchEntry<'a>> {
    if model.sets.len() == 0 {
        Seq::empty()
    } else {
        model.sets.last()
    }
}

/// What typing each of `inputs` in turn reports, from `model`.
pub open spec fn reports<'a>(
    model: MatcherModel<'a>,
    matches: Seq<Match>,
    backspace_limit: i32,
    inputs: Seq<Seq<char>>,
) -> Seq<Option<&'a Match>>
    decreases inputs.len(),
{
    if inputs.len() == 0 {
        Seq::empty()
    } else {
        seq![model.reported(matches, inputs[0])] + reports(
            model.after_char(matches, backspace_limit, inputs[0]),
            matches,
            backspace_limit,
            inputs.drop_first(),
        )
    }
}

/// The matcher after typing `inputs` one after the other, from a new matcher.
pub open spec fn typed_run<'a>(matches: Seq<Match>, backspace_limit: i32, inputs: Seq<Seq<char>>) -> MatcherModel<'a>
    decreases inputs.len(),
{
    if inputs.len() == 0 {
        MatcherModel { sets: Seq::empty(), enabled: true, typed: Seq::empty() }
    } else {
        typed_run(matches, backspace_limit, inputs.drop_last()).after_char(
            matches,
            backspace_limit,
            inputs.last(),
        )
    }
}

/// The state after `k` presses of backspace.
pub open spec fn backspaced_times<'a>(model: MatcherModel<'a>, k: nat) -> MatcherModel<'a>
    decreases k,
{
    if k == 0 {
        model
    } else {
        backspaced_times(model, (k - 1) as nat).backspaced()
    }
}

/// The combined entries depend on the newest set alone.
proof fn lemma_combined_from_last_set<'a>(model: MatcherModel<'a>, matches: Seq<Match>, c: Seq<char>)
    ensures
        model.combined(matches, c) == advance_set(last_set(model), c) + new_entries::<'a>(
            matches,
            c,
        ),
{
    if model.sets.len() == 0 {
        assert(advance_set(Seq::<MatchEntry<'a>>::empty(), c) == Seq::<MatchEntry<'a>>::empty());
        assert(Seq::<MatchEntry<'a>>::empty() + new_entries::<'a>(matches, c) =~= new_entries::<
            'a,
        >(matches, c));
    }
}

/// On an enabled matcher with a backspace limit that is not negative, the set that an input
/// makes is the newest one after it.
proof fn lemma_after_char_last<'a>(
    model: MatcherModel<'a>,
    matches: Seq<Match>,
    backspace_limit: i32,
    c: Seq<char>,
)
    requires
        model.enabled,
        0 <= backspace_limit,
    ensures
        ({
            let comb = model.combined(matches, c);
            let after = model.after_char(matches, backspace_limit, c);
            &&& after.sets.len() > 0
            &&& after.enabled
            &&& after.sets.last() == (if first_complete(comb, 0) is Some {
                Seq::empty()
            } else {
                comb
            })
        }),
{
    let comb = model.combined(matches, c);
    let set = if first_complete(comb, 0) is Some {
        Seq::empty()
    } else {
        comb
    };
    let pushed = model.sets.push(set);
    assert(pushed.last() == set);
    if pushed.len() == 1 {
        assert((pushed.len() as i32) == 1);
    } else {
        assert(pushed.drop_first().last() == set);
    }
}

/// Two states that agree on the enabled flag and on the newest set report the same for any
/// later inputs.
proof fn lemma_same_future<'a>(
    a: MatcherModel<'a>,
    b: MatcherModel<'a>,
    matches: Seq<Match>,
    backspace_limit: i32,
    inputs: Seq<Seq<char>>,
)
    requires
        a.enabled == b.enabled,
        last_set(a) == last_set(b),
        0 <= backspace_limit,
    ensures
        reports(a, matches, backspace_limit, inputs) == reports(b, matches, backspace_limit, inputs),
    decreases inputs.len(),
{
    if inputs.len() > 0 {
        let c = inputs[0];
        lemma_combined_from_last_set(a, matches, c);
        lemma_combined_from_last_set(b, matches, c);
        let a2 = a.after_char(matches, backspace_limit, c);
        let b2 = b.after_char(matches, backspace_limit, c);
        if a.enabled {
            lemma_after_char_last(a, matches, backspace_limit, c);
            lemma_after_char_last(b, matches, backspace_limit, c);
        }
        lemma_same_future(a2, b2, matches, backspace_limit, inputs.drop_first());
    }
}

/// Backspace, where it is not the toggle key, is `backspaced` and reports nothing.
pub proof fn lemma_backspace_modifier<'a>(model: MatcherModel<'a>, config: Configs, elapsed_ms: Option<u128>)
    requires
        config.toggle_key != KeyModifier::BACKSPACE,
    ensures
        model.after_modifier(config, KeyModifier::BACKSPACE, elapsed_ms) == model.backspaced(),
        model.modifier_update(config, KeyModifier::BACKSPACE, elapsed_ms) is None,
{
}

/// Backspace right after an input takes it back for all that follows: on an enabled matcher
/// with a backspace limit of at least 1, typing `c` and then backspace leaves a state from which
/// any later inputs report what they would have reported had `c` not been typed.
pub proof fn lemma_backspace_forgets_input<'a>(
    model: MatcherModel<'a>,
    matches: Seq<Match>,
    backspace_limit: i32,
    c: Seq<char>,
    later: Seq<Seq<char>>,
)
    requires
        model.enabled,
        1 <= backspace_limit,
    ensures
        reports(model.after_char(matches, backspace_limit, c).backspaced(), matches, backspace_limit, later)
            == reports(model, matches, backspace_limit, later),
{
    let comb = model.combined(matches, c);
    let set = if first_complete(comb, 0) is Some {
        Seq::empty()
    } else {
        comb
    };
    let pushed = model.sets.push(set);
    if pushed.len() <= 2 {
        assert((pushed.len() as i32) == pushed.len());
    }
    let b = model.after_char(matches, backspace_limit, c).backspaced();
    if (pushed.len() as i32) > backspace_limit + 1 {
        assert(b.sets =~= model.sets.drop_first());
        assert(model.sets.len() >= 2);
        assert(b.sets.last() == model.sets.last());
    } else {
        assert(b.sets =~= model.sets);
    }
    lemma_same_future(b, model, matches, backspace_limit, later);
}

/// The sets after `inputs` from a new matcher: one per input among the last
/// `backspace_limit + 1`, each the newest set of the run up to its input.
proof fn lemma_typed_run_sets<'a>(matches: Seq<Match>, backspace_limit: i32, inputs: Seq<Seq<char>>)
    requires
        0 <= backspace_limit,
        inputs.len() < i32::MAX || backspace_limit < i32::MAX - 1,
    ensures
        ({
            let m = typed_run::<'a>(matches, backspace_limit, inputs);
            let n = inputs.len() as int;
            let len = if n <= backspace_limit + 1 {
                n
            } else {
                backspace_limit + 1
            };
            &&& m.enabled
            &&& m.sets.len() == len
            &&& forall|t: int|
                0 <= t < len ==> #[trigger] m.sets[t] == last_set(
                    typed_run::<'a>(matches, backspace_limit, inputs.take(n - len + t + 1)),
                )
        }),
    decreases inputs.len(),
{
    let n = inputs.len() as int;
    if n > 0 {
        let prev_inputs = inputs.drop_last();
        lemma_typed_run_sets(matches, backspace_limit, prev_inputs);
        let prev = typed_run::<'a>(matches, backspace_limit, prev_inputs);
        let c = inputs.last();
        lemma_after_char_last(prev, matches, backspace_limit, c);
        let m = typed_run::<'a>(matches, backspace_limit, inputs);
        assert(inputs.take(n) =~= inputs);
        let comb = prev.combined(matches, c);
        let set = if first_complete(comb, 0) is Some {
            Seq::empty()
        } else {
            comb
        };
        let pushed = prev.sets.push(set);
        assert((pushed.len() as i32) == pushed.len());
        let len_p = prev.sets.len() as int;
        let len = m.sets.len() as int;
        assert forall|t: int| 0 <= t < len implies #[trigger] m.sets[t] == last_set(
            typed_run::<'a>(matches, backspace_limit, inputs.take(n - len + t + 1)),
        ) by {
            if len_p + 1 > backspace_limit + 1 {
                assert(m.sets == pushed.drop_first());
                assert(len == len_p);
                assert(m.sets[t] == pushed[t + 1]);
                if t + 1 < len_p {
                    let x: int = n - len + t + 1;
                    assert(0 <= x <= prev_inputs.len());
                    assert(prev_inputs.take(x) =~= inputs.take(x));
                    assert((n - 1) - len_p + (t + 1) + 1 == x);
                } else {
                    assert(m.sets[t] == set);
                    assert(last_set(m) == set);
                }
            } else {
                assert(m.sets == pushed);
                assert(m.sets[t] == pushed[t]);
                if t < len_p {
                    assert(prev_inputs.take((n - 1) - len_p + t + 1) =~= inputs.take(n - len + t
                        + 1));
                } else {
                    assert(m.sets[t] == set);
                }
            }
        }
    }
}

/// Backspace `k` times leaves the first sets, all but `k`, and the enabled flag.
proof fn lemma_backspaced_times<'a>(model: MatcherModel<'a>, k: nat)
    ensures
        backspaced_times(model, k).enabled == model.enabled,
        backspaced_times(model, k).sets == model.sets.take(
            if k <= model.sets.len() {
                model.sets.len() - k
            } else {
                0
            },
        ),
    decreases k,
{
    if k > 0 {
        lemma_backspaced_times(model, (k - 1) as nat);
        let prev = backspaced_times(model, (k - 1) as nat);
        if k <= model.sets.len() {
            assert(prev.sets.drop_last() =~= model.sets.take(model.sets.len() - k));
        } else {
            assert(prev.sets =~= model.sets.take(0));
        }
    } else {
        assert(model.sets.take(model.sets.len() as int) =~= model.sets);
    }
}

/// Backspace rewinds the inputs: after `inputs` typed on a new matcher with a backspace limit
/// that is not negative, `k` presses of backspace leave a state from which any later inputs
/// report what they would report after only the first `inputs.len() - k` inputs, where
/// `k <= backspace_limit` (none where `k` is at least `inputs.len()`), and what they would
/// report on a new matcher where `k > backspace_limit`. (With one of the two largest limits and
/// `i32::MAX` inputs or more, the set count taken as an `i32` wraps round and the oldest sets stop
/// being dropped, so backspace can reach further back.)
pub proof fn lemma_backspaces_rewind_inputs<'a>(
    matches: Seq<Match>,
    backspace_limit: i32,
    inputs: Seq<Seq<char>>,
    k: nat,
    later: Seq<Seq<char>>,
)
    requires
        0 <= backspace_limit,
        inputs.len() < i32::MAX || backspace_limit < i32::MAX - 1,
    ensures
        reports(
            backspaced_times(typed_run::<'a>(matches, backspace_limit, inputs), k),
            matches,
            backspace_limit,
            later,
        ) == reports(
            typed_run::<'a>(
                matches,
                backspace_limit,
                inputs.take(
                    if k <= backspace_limit && k < inputs.len() {
                        inputs.len() - k
                    } else {
                        0
                    },
                ),
            ),
            matches,
            backspace_limit,
            later,
        ),
{
    let n = inputs.len() as int;
    let m = typed_run::<'a>(matches, backspace_limit, inputs);
    lemma_typed_run_sets(matches, backspace_limit, inputs);
    lemma_backspaced_times(m, k);
    let b = backspaced_times(m, k);
    let kept = if k <= backspace_limit && k < n {
        n - k
    } else {
        0
    };
    let r = typed_run::<'a>(matches, backspace_limit, inputs.take(kept));
    let len = m.sets.len() as int;
    if k < len {
        assert(b.sets.last() == m.sets[len - k - 1]);
        assert(n - len + (len - k - 1) + 1 == n - k);
    } else {
        assert(b.sets.len() == 0);
        assert(inputs.take(0) =~= Seq::<Seq<char>>::empty());
        if kept > 0 {
            assert(false);
        }
    }
    assert(r.enabled) by {
        if kept > 0 {
            lemma_typed_run_sets(matches, backspace_limit, inputs.take(kept));
        }
    }
    lemma_same_future(b, r, matches, backspace_limit, later);
}

// ---------------------------------------------------------------------------------------------
// Which match is reported
// ---------------------------------------------------------------------------------------------

/// The first match, in list order, whose trigger is `t`.
pub open spec fn first_with_trigger<'a>(matches: Seq<Match>, t: Seq<char>) -> Option<&'a Match>
    decreases matches.len(),
{
    if matches.len() == 0 {
        None
    } else {
        match first_with_trigger(matches.drop_last(), t) {
            Some(m) => Some(m),
            None => if matches.last().trigger@ == t {
                Some(&matches.last())
            } else {
                None
            },
        }
    }
}

/// The match whose trigger is the longest of the triggers that equal the characters of `s`
/// from some index `j` in `from..end` up to `end`, the first in list order among those with that
/// trigger; `None` where no trigger equals such characters.
pub open spec fn longest_typed_trigger<'a>(matches: Seq<Match>, s: Seq<char>, from: int, end: int) -> Option<&'a Match>
    decreases end - from,
{
    if from >= end {
        None
    } else {
        match first_with_trigger(matches, s.subrange(from, end)) {
            Some(m) => Some(m),
            None => longest_typed_trigger(matches, s, from + 1, end),
        }
    }
}

/// `first_with_trigger` finds a match exactly where some match has the trigger, and the match it
/// finds has it, with none before it in the list.
pub proof fn lemma_first_with_trigger(matches: Seq<Match>, t: Seq<char>)
    ensures
        first_with_trigger(matches, t) is Some <==> exists|q: int|
            0 <= q < matches.len() && (#[trigger] matches[q]).trigger@ == t,
        first_with_trigger(matches, t) matches Some(m) ==> exists|q: int|
            0 <= q < matches.len() && *m == #[trigger] matches[q] && m.trigger@ == t && forall|r: int|
                0 <= r < q ==> (#[trigger] matches[r]).trigger@ != t,
    decreases matches.len(),
{
    if matches.len() > 0 {
        let rest = matches.drop_last();
        lemma_first_with_trigger(rest, t);
        let last = matches.len() - 1;
        assert(matches.last() == matches[last]);
        assert forall|q: int| 0 <= q < rest.len() implies #[trigger] rest[q] == matches[q] by {}
        if first_with_trigger(rest, t) is None {
            if exists|q: int| 0 <= q < matches.len() && (#[trigger] matches[q]).trigger@ == t {
                let q = choose|q: int| 0 <= q < matches.len() && (#[trigger] matches[q]).trigger@ == t;
                if q < last {
                    assert(rest[q].trigger@ == t);
                }
            }
            if matches.last().trigger@ == t {
                assert forall|r: int| 0 <= r < last implies (#[trigger] matches[r]).trigger@ != t by {
                    assert(rest[r] == matches[r]);
                }
            }
        } else {
            let m = first_with_trigger(rest, t)->0;
            let q = choose|q: int|
                0 <= q < rest.len() && *m == #[trigger] rest[q] && m.trigger@ == t && forall|r: int|
                    0 <= r < q ==> (#[trigger] rest[r]).trigger@ != t;
            assert(rest[q] == matches[q]);
            assert forall|r: int| 0 <= r < q implies (#[trigger] matches[r]).trigger@ != t by {
                assert(rest[r] == matches[r]);
            }
        }
    }
}

/// `longest_typed_trigger` finds a match exactly where some trigger equals the characters of
/// `s` from some index in `from..end` up to `end`; the match it finds has the trigger that starts
/// earliest, and so is longest.
pub proof fn lemma_longest_typed_trigger(matches: Seq<Match>, s: Seq<char>, from: int, end: int)
    requires
        0 <= from,
        end <= s.len(),
    ensures
        longest_typed_trigger(matches, s, from, end) is Some <==> exists|j: int, q: int|
            from <= j < end && 0 <= q < matches.len() && (#[trigger] matches[q]).trigger@
                == #[trigger] s.subrange(j, end),
        longest_typed_trigger(matches, s, from, end) matches Some(m) ==> exists|j: int|
            from <= j < end && m.trigger@ == s.subrange(j, end) && first_with_trigger(
                matches,
                s.subrange(j, end),
            ) == Some(m) && forall|j2: int, q: int|
                from <= j2 < j && 0 <= q < matches.len() ==> (#[trigger] matches[q]).trigger@
                    != #[trigger] s.subrange(j2, end),
    decreases end - from,
{
    if from < end {
        lemma_first_with_trigger(matches, s.subrange(from, end));
        lemma_longest_typed_trigger(matches, s, from + 1, end);
        if first_with_trigger(matches, s.subrange(from, end)) is None {
            if exists|j: int, q: int|
                from <= j < end && 0 <= q < matches.len() && (#[trigger] matches[q]).trigger@
                    == #[trigger] s.subrange(j, end) {
                let (j, q) = choose|j: int, q: int|
                    from <= j < end && 0 <= q < matches.len() && (#[trigger] matches[q]).trigger@
                        == #[trigger] s.subrange(j, end);
                if j == from {
                    assert(false);
                }
            }
        } else {
            let m = first_with_trigger(matches, s.subrange(from, end))->0;
            let q = choose|q: int|
                0 <= q < matches.len() && *m == #[trigger] matches[q] && m.trigger@ == s.subrange(
                    from,
                    end,
                ) && forall|r: int| 0 <= r < q ==> (#[trigger] matches[r]).trigger@ != s.subrange(
                    from,
                    end,
                );
            assert(matches[q].trigger@ == s.subrange(from, end));
        }
    }
}

/// The number of inputs, among the first `i` of `inputs` typed on a new matcher, up to and
/// including the last one that reported a match; 0 where none did.
pub open spec fn inputs_through_last_report(
    matches: Seq<Match>,
    backspace_limit: i32,
    inputs: Seq<Seq<char>>,
    i: int,
) -> int
    decreases i,
{
    if i <= 0 {
        0
    } else if typed_run(matches, backspace_limit, inputs.take(i - 1)).reported(matches, inputs[i - 1]) is Some {
        i
    } else {
        inputs_through_last_report(matches, backspace_limit, inputs, i - 1)
    }
}

/// The entries, in list order of the matches, for each trigger that begins with `s[j..i]`,
/// each with `i - j` characters typed.
spec fn entries_from<'a>(matches: Seq<Match>, s: Seq<char>, j: int, i: int) -> Seq<MatchEntry<'a>>
    decreases matches.len(),
{
    if matches.len() == 0 {
        Seq::empty()
    } else {
        let rest = entries_from(matches.drop_last(), s, j, i);
        if starts_with(matches.last().trigger@, s.subrange(j, i)) {
            rest.push(
                MatchEntry {
                    start: (i - j) as usize,
                    count: matches.last().trigger@.len() as usize,
                    _match: &matches.last(),
                },
            )
        } else {
            rest
        }
    }
}

/// The entries opened at each index from `lo` to `i` (exclusive) that `s[..i]` still follows,
/// the oldest first.
spec fn expected_set<'a>(matches: Seq<Match>, s: Seq<char>, lo: int, i: int) -> Seq<MatchEntry<'a>>
    decreases i - lo,
{
    if lo >= i {
        Seq::empty()
    } else {
        entries_from(matches, s, lo, i) + expected_set(matches, s, lo + 1, i)
    }
}

proof fn lemma_advance_set_concat<'a>(a: Seq<MatchEntry<'a>>, b: Seq<MatchEntry<'a>>, c: Seq<char>)
    ensures
        advance_set(a + b, c) == advance_set(a, c) + advance_set(b, c),
    decreases b.len(),
{
    if b.len() == 0 {
        assert(a + b =~= a);
        assert(advance_set(a, c) + advance_set(b, c) =~= advance_set(a, c));
    } else {
        assert((a + b).drop_last() =~= a + b.drop_last());
        assert((a + b).last() == b.last());
        lemma_advance_set_concat(a, b.drop_last(), c);
        if follows(b.last(), c) {
            assert(advance_set(a, c) + advance_set(b.drop_last(), c).push(advanced(b.last()))
                =~= (advance_set(a, c) + advance_set(b.drop_last(), c)).push(advanced(b.last())));
        }
    }
}

proof fn lemma_entries_from_advance<'a>(matches: Seq<Match>, s: Seq<char>, j: int, i: int)
    requires
        0 <= j < i < s.len(),
        triggers_fit(matches),
    ensures
        advance_set(entries_from::<'a>(matches, s, j, i), seq![s[i]]) == entries_from::<'a>(
            matches,
            s,
            j,
            i + 1,
        ),
    decreases matches.len(),
{
    if matches.len() > 0 {
        let rest = matches.drop_last();
        assert(triggers_fit(rest)) by {
            assert forall|k: int| 0 <= k < rest.len() implies rest[k].trigger@.len()
                <= usize::MAX by {
                assert(rest[k] == matches[k]);
            }
        }
        lemma_entries_from_advance(rest, s, j, i);
        let m = matches.last();
        assert(m == matches[matches.len() - 1]);
        let t = m.trigger@;
        let c = seq![s[i]];
        let p = s.subrange(j, i);
        let p2 = s.subrange(j, i + 1);
        let prev = entries_from::<'a>(rest, s, j, i);
        if starts_with(t, p) {
            let e = MatchEntry {
                start: (i - j) as usize,
                count: t.len() as usize,
                _match: &m,
            };
            assert(e.start == i - j);
            assert(prev.push(e).drop_last() =~= prev);
            assert(prev.push(e).last() == e);
            if follows(e, c) {
                assert(p2 =~= p.push(s[i]));
                assert(t.subrange(0, i + 1 - j) =~= t.subrange(0, i - j).push(t[i - j]));
                assert(starts_with(t, p2));
            } else {
                if starts_with(t, p2) {
                    assert(t.subrange(0, i + 1 - j)[i - j] == p2[i - j]);
                }
            }
        } else {
            if starts_with(t, p2) {
                assert(t.subrange(0, i - j) =~= t.subrange(0, i + 1 - j).subrange(0, i - j));
                assert(p =~= p2.subrange(0, i - j));
            }
        }
    }
}

proof fn lemma_entries_from_new<'a>(matches: Seq<Match>, s: Seq<char>, i: int)
    requires
        0 <= i < s.len(),
    ensures
        new_entries::<'a>(matches, seq![s[i]]) == entries_from::<'a>(matches, s, i, i + 1),
    decreases matches.len(),
{
    if matches.len() > 0 {
        lemma_entries_from_new(matches.drop_last(), s, i);
        assert(s.subrange(i, i + 1) =~= seq![s[i]]);
    }
}

proof fn lemma_expected_step<'a>(matches: Seq<Match>, s: Seq<char>, lo: int, i: int)
    requires
        0 <= lo <= i < s.len(),
        triggers_fit(matches),
    ensures
        advance_set(expected_set::<'a>(matches, s, lo, i), seq![s[i]]) + entries_from::<'a>(
            matches,
            s,
            i,
            i + 1,
        ) == expected_set::<'a>(matches, s, lo, i + 1),
    decreases i - lo,
{
    let c = seq![s[i]];
    let e = entries_from::<'a>(matches, s, i, i + 1);
    if lo == i {
        assert(advance_set(Seq::<MatchEntry<'a>>::empty(), c) == Seq::<MatchEntry<'a>>::empty());
        assert(expected_set::<'a>(matches, s, i + 1, i + 1) == Seq::<MatchEntry<'a>>::empty());
        assert(Seq::<MatchEntry<'a>>::empty() + e =~= e + Seq::<MatchEntry<'a>>::empty());
    } else {
        let head = entries_from::<'a>(matches, s, lo, i);
        let tail = expected_set::<'a>(matches, s, lo + 1, i);
        lemma_advance_set_concat(head, tail, c);
        lemma_entries_from_advance(matches, s, lo, i);
        lemma_expected_step(matches, s, lo + 1, i);
        assert(advance_set(head, c) + advance_set(tail, c) + e =~= advance_set(head, c) + (
        advance_set(tail, c) + e));
    }
}

proof fn lemma_first_complete_shift<'a>(a: Seq<MatchEntry<'a>>, b: Seq<MatchEntry<'a>>, k: int)
    requires
        0 <= k,
    ensures
        first_complete(a + b, a.len() + k) == first_complete(b, k),
    decreases b.len() - k,
{
    if k < b.len() {
        assert((a + b)[a.len() + k] == b[k]);
        lemma_first_complete_shift(a, b, k + 1);
    }
}

proof fn lemma_first_complete_concat<'a>(a: Seq<MatchEntry<'a>>, b: Seq<MatchEntry<'a>>, i: int)
    requires
        0 <= i <= a.len(),
    ensures
        first_complete(a + b, i) == (if first_complete(a, i) is Some {
            first_complete(a, i)
        } else {
            first_complete(b, 0)
        }),
    decreases a.len() - i,
{
    if i == a.len() {
        lemma_first_complete_shift(a, b, 0);
    } else {
        assert((a + b)[i] == a[i]);
        lemma_first_complete_concat(a, b, i + 1);
    }
}

proof fn lemma_entries_from_first_complete<'a>(matches: Seq<Match>, s: Seq<char>, j: int, e: int)
    requires
        0 <= j < e <= s.len(),
        triggers_fit(matches),
    ensures
        first_complete(entries_from::<'a>(matches, s, j, e), 0) == first_with_trigger::<'a>(
            matches,
            s.subrange(j, e),
        ),
    decreases matches.len(),
{
    if matches.len() > 0 {
        let rest = matches.drop_last();
        assert(triggers_fit(rest)) by {
            assert forall|k: int| 0 <= k < rest.len() implies rest[k].trigger@.len()
                <= usize::MAX by {
                assert(rest[k] == matches[k]);
            }
        }
        lemma_entries_from_first_complete(rest, s, j, e);
        let m = matches.last();
        assert(m == matches[matches.len() - 1]);
        let t = m.trigger@;
        let w = s.subrange(j, e);
        let prev = entries_from::<'a>(rest, s, j, e);
        if starts_with(t, w) {
            let x = MatchEntry {
                start: (e - j) as usize,
                count: t.len() as usize,
                _match: &m,
            };
            assert(prev.push(x) =~= prev + seq![x]);
            lemma_first_complete_concat(prev, seq![x], 0);
            assert(first_complete(seq![x], 1) is None);
            if t == w {
                assert(x.start == x.count);
            } else {
                assert(t.len() != e - j) by {
                    if t.len() == e - j {
                        assert(t.subrange(0, e - j) =~= t);
                    }
                }
            }
        } else {
            assert(t != w) by {
                if t == w {
                    assert(t.subrange(0, w.len() as int) =~= t);
                }
            }
        }
    }
}

proof fn lemma_expected_first_complete<'a>(matches: Seq<Match>, s: Seq<char>, lo: int, e: int)
    requires
        0 <= lo <= e <= s.len(),
        triggers_fit(matches),
    ensures
        first_complete(expected_set::<'a>(matches, s, lo, e), 0) == longest_typed_trigger::<'a>(
            matches,
            s,
            lo,
            e,
        ),
    decreases e - lo,
{
    if lo < e {
        let head = entries_from::<'a>(matches, s, lo, e);
        let tail = expected_set::<'a>(matches, s, lo + 1, e);
        lemma_first_complete_concat(head, tail, 0);
        lemma_entries_from_first_complete(matches, s, lo, e);
        lemma_expected_first_complete(matches, s, lo + 1, e);
    }
}

/// Typing `s` one character at a time on a new matcher: the newest set after `i` characters
/// holds the entries opened since the last report that the characters still follow.
proof fn lemma_run_follows_text<'a>(matches: Seq<Match>, backspace_limit: i32, s: Seq<char>, i: int)
    requires
        0 <= backspace_limit,
        triggers_fit(matches),
        0 <= i <= s.len(),
    ensures
        ({
            let inputs = one_char_inputs(s);
            let lo = inputs_through_last_report(matches, backspace_limit, inputs, i);
            let m = typed_run::<'a>(matches, backspace_limit, inputs.take(i));
            &&& 0 <= lo <= i
            &&& m.enabled
            &&& last_set(m) == expected_set::<'a>(matches, s, lo, i)
        }),
    decreases i,
{
    let inputs = one_char_inputs(s);
    if i == 0 {
        assert(inputs.take(0) =~= Seq::<Seq<char>>::empty());
    } else {
        lemma_run_follows_text(matches, backspace_limit, s, i - 1);
        let lo = inputs_through_last_report(matches, backspace_limit, inputs, i - 1);
        let prev = typed_run::<'a>(matches, backspace_limit, inputs.take(i - 1));
        let c = inputs[i - 1];
        assert(c == seq![s[i - 1]]);
        assert(inputs.take(i).drop_last() =~= inputs.take(i - 1));
        assert(inputs.take(i).last() == c);
        lemma_combined_from_last_set(prev, matches, c);
        lemma_entries_from_new(matches, s, i - 1);
        lemma_expected_step(matches, s, lo, i - 1);
        lemma_after_char_last(prev, matches, backspace_limit, c);
        assert(typed_run::<'a>(matches, backspace_limit, inputs.take(i - 1)) == prev);
    }
}

/// Which match is reported: typing `s` one character at a time on a new matcher with a backspace
/// limit that is not negative, the character `s[n]` reports the match with the longest trigger
/// that equals the characters typed from some point after the last report up to `s[n]`, the
/// first in list order among those with that trigger; and nothing where there is no such
/// trigger.
pub proof fn lemma_report_is_longest_typed_trigger<'a>(
    matches: Seq<Match>,
    backspace_limit: i32,
    s: Seq<char>,
    n: int,
)
    requires
        0 <= backspace_limit,
        triggers_fit(matches),
        0 <= n < s.len(),
    ensures
        ({
            let inputs = one_char_inputs(s);
            typed_run::<'a>(matches, backspace_limit, inputs.take(n)).reported(matches, inputs[n])
                == longest_typed_trigger::<'a>(
                matches,
                s,
                inputs_through_last_report(matches, backspace_limit, inputs, n),
                n + 1,
            )
        }),
{
    let inputs = one_char_inputs(s);
    lemma_run_follows_text(matches, backspace_limit, s, n);
    let lo = inputs_through_last_report(matches, backspace_limit, inputs, n);
    let m = typed_run::<'a>(matches, backspace_limit, inputs.take(n));
    let c = inputs[n];
    assert(c == seq![s[n]]);
    lemma_combined_from_last_set(m, matches, c);
    lemma_entries_from_new(matches, s, n);
    lemma_expected_step(matches, s, lo, n);
    lemma_expected_first_complete(matches, s, lo, n + 1);
}

// ---------------------------------------------------------------------------------------------
// Modifiers, actions and the clock
// ---------------------------------------------------------------------------------------------

/// The time between two clock readings is counted in whole milliseconds: where both readings
/// exist and the later is not earlier, it is the number `x` of whole milliseconds in the
/// difference, `x * 1_000_000 <= later - earlier < (x + 1) * 1_000_000` nanoseconds; else there
/// is none.
pub proof fn lemma_elapsed_ms_whole_milliseconds(earlier: Option<u128>, later: Option<u128>)
    ensures
        (earlier is Some && later is Some && earlier->0 <= later->0) ==> ({
            let d = later->0 - earlier->0;
            &&& elapsed_ms(earlier, later) is Some
            &&& elapsed_ms(earlier, later)->0 * 1_000_000 <= d
            &&& d < (elapsed_ms(earlier, later)->0 + 1) * 1_000_000
        }),
        !(earlier is Some && later is Some && earlier->0 <= later->0) ==> elapsed_ms(
            earlier,
            later,
        ) is None,
{
    if earlier is Some && later is Some && earlier->0 <= later->0 {
        let d: int = later->0 - earlier->0;
        let x: int = d / 1_000_000;
        assert(x * 1_000_000 <= d && d < (x + 1) * 1_000_000) by (nonlinear_arith)
            requires
                x == d / 1_000_000,
                d >= 0,
        ;
    }
}

/// A press of the toggle key (other than backspace) at the clock reading `now`, after its last
/// press at the reading `last`, flips the enabled flag and reports the new one exactly where both
/// readings exist, `last <= now`, and `now - last` is under `toggle_interval` milliseconds; where
/// that disables the matcher, every set is dropped. Otherwise it changes nothing and reports
/// nothing. So presses `toggle_interval` milliseconds or more apart never toggle.
pub proof fn lemma_toggle_key_press<'a>(
    model: MatcherModel<'a>,
    config: Configs,
    last: Option<u128>,
    now: Option<u128>,
)
    requires
        config.toggle_key != KeyModifier::BACKSPACE,
    ensures
        ({
            let e = toggle_key_elapsed(config, config.toggle_key, last, now);
            let quick = last is Some && now is Some && last->0 <= now->0 && now->0 - last->0
                < config.toggle_interval * 1_000_000;
            let after = model.after_modifier(config, config.toggle_key, e);
            &&& model.modifier_update(config, config.toggle_key, e) == (if quick {
                Some(!model.enabled)
            } else {
                None
            })
            &&& quick ==> after.enabled == !model.enabled && after.typed == model.typed && (if model.enabled {
                after.sets.len() == 0
            } else {
                after.sets == model.sets
            })
            &&& !quick ==> after == model
        }),
{
    lemma_elapsed_ms_whole_milliseconds(last, now);
    let e = toggle_key_elapsed(config, config.toggle_key, last, now);
    if last is Some && now is Some && last->0 <= now->0 {
        let d: int = now->0 - last->0;
        let x: int = e->0 as int;
        let i: int = config.toggle_interval as int;
        assert(x < i <==> d < i * 1_000_000) by (nonlinear_arith)
            requires
                x * 1_000_000 <= d,
                d < (x + 1) * 1_000_000,
                x >= 0,
                i >= 0,
        ;
    }
}

/// A modifier that is neither the toggle key nor backspace changes nothing and reports nothing,
/// whatever the time since the toggle key was last pressed.
pub proof fn lemma_other_modifier_changes_nothing<'a>(
    model: MatcherModel<'a>,
    config: Configs,
    m: KeyModifier,
    elapsed: Option<u128>,
)
    requires
        m != config.toggle_key,
        m != KeyModifier::BACKSPACE,
    ensures
        model.after_modifier(config, m, elapsed) == model,
        model.modifier_update(config, m, elapsed) is None,
{
}

/// Backspace that is not the toggle key leaves the enabled flag, reports nothing, and takes back
/// the newest set and its input where there is one; with no set it changes nothing.
pub proof fn lemma_backspace_modifier_effect<'a>(model: MatcherModel<'a>, config: Configs, elapsed: Option<u128>)
    requires
        model.wf(),
        config.toggle_key != KeyModifier::BACKSPACE,
    ensures
        ({
            let after = model.after_modifier(config, KeyModifier::BACKSPACE, elapsed);
            &&& model.modifier_update(config, KeyModifier::BACKSPACE, elapsed) is None
            &&& after.enabled == model.enabled
            &&& model.sets.len() == 0 ==> after == model
            &&& model.sets.len() > 0 ==> after.sets.len() + 1 == model.sets.len()
                && after.typed.len() + 1 == model.typed.len()
                && after.sets == model.sets.subrange(0, model.sets.len() - 1)
                && after.typed == model.typed.subrange(0, model.typed.len() - 1)
        }),
{
    if model.sets.len() > 0 {
        let after = model.after_modifier(config, KeyModifier::BACKSPACE, elapsed);
        assert(after.sets =~= model.sets.subrange(0, model.sets.len() - 1));
        assert(after.typed =~= model.typed.subrange(0, model.typed.len() - 1));
    }
}

/// Toggle flips the enabled flag and reports the new one; enable and disable set it and report
/// it (also where it already had that value); none of them touches the sets or what was typed.
/// Any other action changes nothing and reports nothing.
pub proof fn lemma_action_effects<'a>(model: MatcherModel<'a>, a: ActionType)
    ensures
        ({
            let after = model.after_action(a);
            &&& after.sets == model.sets
            &&& after.typed == model.typed
            &&& a == ActionType::Toggle ==> after.enabled == !model.enabled
                && model.action_update(a) == Some(!model.enabled)
            &&& a == ActionType::Enable ==> after.enabled && model.action_update(a) == Some(true)
            &&& a == ActionType::Disable ==> !after.enabled && model.action_update(a) == Some(
                false,
            )
            &&& (a != ActionType::Toggle && a != ActionType::Enable && a != ActionType::Disable)
                ==> after == model && model.action_update(a) is None
        }),
{
}

} // verus!
