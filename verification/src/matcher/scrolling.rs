use vstd::prelude::*;
use vstd::string::*;
use std::collections::VecDeque;

use crate::clock::{elapsed_ms, elapsed_ms_between, now_nanos};
use crate::config::Configs;
use crate::event::{ActionType, KeyModifier};
use crate::matcher::Match;

verus! {

/// A trigger being followed: its first `start` characters have been typed; it has `count`
/// characters in all.
pub struct MatchEntry<'a> {
    pub start: usize,
    pub count: usize,
    pub _match: &'a Match,
}

// ---------------------------------------------------------------------------------------------
// The model
// ---------------------------------------------------------------------------------------------

/// `prefix` is a prefix of `s`.
pub open spec fn starts_with(s: Seq<char>, prefix: Seq<char>) -> bool {
    prefix.len() <= s.len() && s.subrange(0, prefix.len() as int) == prefix
}

/// The entry's trigger goes on with the first character of the input `c`.
pub open spec fn follows(e: MatchEntry, c: Seq<char>) -> bool {
    &&& e.start < e._match.trigger@.len()
    &&& c.len() > 0
    &&& c[0] == e._match.trigger@[e.start as int]
}

/// The entry with one more character of its trigger typed.
pub open spec fn advanced<'a>(e: MatchEntry<'a>) -> MatchEntry<'a> {
    MatchEntry { start: (e.start + 1) as usize, count: e.count, _match: e._match }
}

/// The entries of `set` that the input `c` takes a step further, each a step further, in order.
pub open spec fn advance_set<'a>(set: Seq<MatchEntry<'a>>, c: Seq<char>) -> Seq<MatchEntry<'a>>
    decreases set.len(),
{
    if set.len() == 0 {
        Seq::empty()
    } else {
        let rest = advance_set(set.drop_last(), c);
        if follows(set.last(), c) {
            rest.push(advanced(set.last()))
        } else {
            rest
        }
    }
}

/// A match whose trigger begins with the input just typed.
pub open spec fn new_entry<'a>(m: &'a Match) -> MatchEntry<'a> {
    MatchEntry { start: 1, count: m.trigger@.len() as usize, _match: m }
}

/// An entry for each match, in order, whose trigger begins with the input `c`.
pub open spec fn new_entries<'a>(matches: Seq<Match>, c: Seq<char>) -> Seq<MatchEntry<'a>>
    decreases matches.len(),
{
    if matches.len() == 0 {
        Seq::empty()
    } else {
        let rest = new_entries(matches.drop_last(), c);
        if starts_with(matches.last().trigger@, c) {
            rest.push(new_entry(&matches.last()))
        } else {
            rest
        }
    }
}

/// The match of the first entry from index `i` on whose trigger has been typed in full.
pub open spec fn first_complete<'a>(set: Seq<MatchEntry<'a>>, i: int) -> Option<&'a Match>
    decreases set.len() - i,
{
    if i < 0 || i >= set.len() {
        None
    } else if set[i].start == set[i].count {
        Some(set[i]._match)
    } else {
        first_complete(set, i + 1)
    }
}

/// Every match's trigger has a character count that fits in a `usize`.
pub open spec fn triggers_fit(matches: Seq<Match>) -> bool {
    forall|i: int| 0 <= i < matches.len() ==> matches[i].trigger@.len() <= usize::MAX
}

/// The entry `e`, held in the set made by the input `typed[p]`, follows what was typed: its
/// trigger begins with the input that opened it, and each later input begins with the next
/// character of the trigger.
pub open spec fn entry_spelled(e: MatchEntry, typed: Seq<Seq<char>>, p: int) -> bool {
    let t = e._match.trigger@;
    let first: int = p - e.start + 1;
    &&& e.count as int == t.len()
    &&& 1 <= e.start
    &&& e.start <= t.len() || e.start == 1
    &&& 0 <= first
    &&& p < typed.len()
    &&& starts_with(t, typed[first])
    &&& forall|k: int|
        1 <= k < e.start ==> #[trigger] typed[first + k].len() > 0 && typed[first + k][0] == t[k]
}

/// The last inputs in `typed` spell `t`: `t` begins with the input `t.len()` places from the
/// end, and each later input begins with the next character of `t`. With inputs of one character
/// each, the last `t.len()` inputs make `t`.
pub open spec fn typed_spells(typed: Seq<Seq<char>>, t: Seq<char>) -> bool {
    let first: int = typed.len() - t.len();
    &&& t.len() >= 1
    &&& first >= 0
    &&& starts_with(t, typed[first])
    &&& forall|k: int|
        1 <= k < t.len() ==> #[trigger] typed[first + k].len() > 0 && typed[first + k][0] == t[k]
}

/// The state of a `ScrollingMatcher`: one set of entries per input still kept (the oldest first),
/// whether it is enabled, and the inputs typed so far.
pub struct MatcherModel<'a> {
    pub sets: Seq<Seq<MatchEntry<'a>>>,
    pub enabled: bool,
    pub typed: Seq<Seq<char>>,
}

impl<'a> MatcherModel<'a> {
    /// Every entry of every set follows what was typed.
    pub open spec fn wf(self) -> bool {
        &&& self.sets.len() <= self.typed.len()
        &&& forall|i: int, j: int|
            0 <= i < self.sets.len() && 0 <= j < self.sets[i].len() ==> entry_spelled(
                #[trigger] self.sets[i][j],
                self.typed,
                self.typed.len() - self.sets.len() + i,
            )
    }

    /// The entries that the input `c` leaves: those of the newest set that it takes a step
    /// further, then one for each match whose trigger begins with `c`.
    pub open spec fn combined(self, matches: Seq<Match>, c: Seq<char>) -> Seq<MatchEntry<'a>> {
        let fresh = new_entries(matches, c);
        if self.sets.len() == 0 {
            fresh
        } else {
            advance_set(self.sets.last(), c) + fresh
        }
    }

    /// The match reported when `c` is typed, if any.
    pub open spec fn reported(self, matches: Seq<Match>, c: Seq<char>) -> Option<&'a Match> {
        if self.enabled {
            first_complete(self.combined(matches, c), 0)
        } else {
            None
        }
    }

    /// The state after `c` is typed. When disabled, nothing changes. Else the combined entries
    /// become the newest set (an empty one where a match is reported), and where the sets are
    /// then more than `backspace_limit + 1` (the count taken as an `i32`), the oldest is dropped.
    pub open spec fn after_char(self, matches: Seq<Match>, backspace_limit: i32, c: Seq<char>) -> MatcherModel<'a> {
        if !self.enabled {
            self
        } else {
            let comb = self.combined(matches, c);
            let set = if first_complete(comb, 0) is Some {
                Seq::empty()
            } else {
                comb
            };
            let pushed = self.sets.push(set);
            MatcherModel {
                sets: if (pushed.len() as i32) > backspace_limit + 1 {
                    pushed.drop_first()
                } else {
                    pushed
                },
                enabled: true,
                typed: self.typed.push(c),
            }
        }
    }

    /// The state with the enabled flag flipped.
    pub open spec fn toggled(self) -> MatcherModel<'a> {
        MatcherModel { sets: self.sets, enabled: !self.enabled, typed: self.typed }
    }

    /// The state with the enabled flag set to `enabled`.
    pub open spec fn with_enabled(self, enabled: bool) -> MatcherModel<'a> {
        MatcherModel { sets: self.sets, enabled, typed: self.typed }
    }

    /// The state with no set left.
    pub open spec fn cleared(self) -> MatcherModel<'a> {
        MatcherModel { sets: Seq::empty(), enabled: self.enabled, typed: self.typed }
    }

    /// The state after backspace: the newest set, and the input that made it, are taken back.
    pub open spec fn backspaced(self) -> MatcherModel<'a> {
        if self.sets.len() > 0 {
            MatcherModel {
                sets: self.sets.drop_last(),
                enabled: self.enabled,
                typed: self.typed.drop_last(),
            }
        } else {
            self
        }
    }
}

/// The second press of the toggle key comes soon enough after the first: the time between them
/// is known and shorter than `toggle_interval` milliseconds.
pub open spec fn quick_press(elapsed_ms: Option<u128>, toggle_interval: u32) -> bool {
    elapsed_ms is Some && elapsed_ms->0 < toggle_interval as u128
}

/// The time that a press of `m` is taken with: for the toggle key, the whole milliseconds from
/// its last press `last` to the reading `now`; for any other modifier, none.
pub open spec fn toggle_key_elapsed(config: Configs, m: KeyModifier, last: Option<u128>, now: Option<u128>) -> Option<u128> {
    if m == config.toggle_key {
        elapsed_ms(last, now)
    } else {
        None
    }
}

impl<'a> MatcherModel<'a> {
    /// The state after the modifier `m`, where `elapsed_ms` is the time since the toggle key was
    /// last pressed. A quick second press of the toggle key flips the enabled flag, and where that
    /// disables the matcher, drops every set. Backspace takes back the newest set.
    pub open spec fn after_modifier(self, config: Configs, m: KeyModifier, elapsed_ms: Option<u128>) -> MatcherModel<'a> {
        let s = if m == config.toggle_key && quick_press(elapsed_ms, config.toggle_interval) {
            let t = self.toggled();
            if t.enabled {
                t
            } else {
                t.cleared()
            }
        } else {
            self
        };
        if m == KeyModifier::BACKSPACE {
            s.backspaced()
        } else {
            s
        }
    }

    /// The enabled flag to report after the modifier `m`: the new one where it was flipped.
    pub open spec fn modifier_update(self, config: Configs, m: KeyModifier, elapsed_ms: Option<u128>) -> Option<bool> {
        if m == config.toggle_key && quick_press(elapsed_ms, config.toggle_interval) {
            Some(!self.enabled)
        } else {
            None
        }
    }

    /// The state after the action `a`: toggle, enable or disable; any other action changes nothing.
    pub open spec fn after_action(self, a: ActionType) -> MatcherModel<'a> {
        match a {
            ActionType::Toggle => self.toggled(),
            ActionType::Enable => self.with_enabled(true),
            ActionType::Disable => self.with_enabled(false),
            _ => self,
        }
    }

    /// The enabled flag to report after the action `a`: the new one for toggle, enable and
    /// disable, nothing for the others.
    pub open spec fn action_update(self, a: ActionType) -> Option<bool> {
        match a {
            ActionType::Toggle => Some(!self.enabled),
            ActionType::Enable => Some(true),
            ActionType::Disable => Some(false),
            _ => None,
        }
    }
}

// ---------------------------------------------------------------------------------------------
// Lemmas on the model
// ---------------------------------------------------------------------------------------------

/// An entry follows the same inputs once more inputs are typed after them.
proof fn lemma_spelled_extend(e: MatchEntry, typed: Seq<Seq<char>>, p: int, c: Seq<char>)
    requires
        entry_spelled(e, typed, p),
    ensures
        entry_spelled(e, typed.push(c), p),
{
    let t = e._match.trigger@;
    let first: int = p - e.start + 1;
    assert(typed.push(c)[first] == typed[first]);
    assert forall|k: int| 1 <= k < e.start implies #[trigger] typed.push(c)[first + k].len() > 0
        && typed.push(c)[first + k][0] == t[k] by {
        assert(typed[first + k].len() > 0);
    }
}

/// An entry that the input `c` takes a step further follows the inputs with `c` typed last.
proof fn lemma_spelled_advanced(e: MatchEntry, typed: Seq<Seq<char>>, c: Seq<char>)
    requires
        typed.len() >= 1,
        entry_spelled(e, typed, typed.len() - 1),
        follows(e, c),
    ensures
        entry_spelled(advanced(e), typed.push(c), typed.len() as int),
{
    let t = e._match.trigger@;
    let p: int = typed.len() - 1;
    let first: int = p - e.start + 1;
    let h = typed.push(c);
    let a = advanced(e);
    assert(e.count as int == t.len());
    assert(a.start == e.start + 1);
    assert(a._match == e._match);
    assert(a.count == e.count);
    assert(a.start <= t.len());
    assert(p + 1 - a.start + 1 == first);
    assert(h[first] == typed[first]);
    assert(starts_with(t, h[first]));
    assert forall|k: int| 1 <= k < a.start implies #[trigger] h[first + k].len() > 0 && h[first
        + k][0] == t[k] by {
        if k < e.start {
            assert(typed[first + k].len() > 0);
        } else {
            assert(first + k == typed.len());
        }
    }
}

/// The entries that `advance_set` leaves follow the inputs with `c` typed last.
proof fn lemma_advance_set_spelled(set: Seq<MatchEntry>, typed: Seq<Seq<char>>, c: Seq<char>)
    requires
        typed.len() >= 1,
        forall|j: int| 0 <= j < set.len() ==> entry_spelled(#[trigger] set[j], typed, typed.len() - 1),
    ensures
        forall|j: int|
            0 <= j < advance_set(set, c).len() ==> entry_spelled(
                #[trigger] advance_set(set, c)[j],
                typed.push(c),
                typed.len() as int,
            ),
    decreases set.len(),
{
    if set.len() > 0 {
        let rest = set.drop_last();
        assert forall|j: int| 0 <= j < rest.len() implies entry_spelled(
            #[trigger] rest[j],
            typed,
            typed.len() - 1,
        ) by {
            assert(rest[j] == set[j]);
        }
        lemma_advance_set_spelled(rest, typed, c);
        let ra = advance_set(rest, c);
        if follows(set.last(), c) {
            lemma_spelled_advanced(set.last(), typed, c);
            let r = ra.push(advanced(set.last()));
            assert forall|j: int| 0 <= j < r.len() implies entry_spelled(
                #[trigger] r[j],
                typed.push(c),
                typed.len() as int,
            ) by {
                if j < ra.len() {
                    assert(r[j] == ra[j]);
                }
            }
        }
    }
}

/// The entries that `new_entries` makes follow the inputs with `c` typed last.
proof fn lemma_new_entries_spelled(matches: Seq<Match>, typed: Seq<Seq<char>>, c: Seq<char>)
    requires
        triggers_fit(matches),
    ensures
        forall|j: int|
            0 <= j < new_entries(matches, c).len() ==> entry_spelled(
                #[trigger] new_entries(matches, c)[j],
                typed.push(c),
                typed.len() as int,
            ),
    decreases matches.len(),
{
    if matches.len() > 0 {
        let rest = matches.drop_last();
        assert(triggers_fit(rest)) by {
            assert forall|i: int| 0 <= i < rest.len() implies rest[i].trigger@.len()
                <= usize::MAX by {
                assert(rest[i] == matches[i]);
            }
        }
        lemma_new_entries_spelled(rest, typed, c);
        assert(matches.last() == matches[matches.len() - 1]);
        let h = typed.push(c);
        assert(h[typed.len() as int] == c);
        let rn = new_entries(rest, c);
        if starts_with(matches.last().trigger@, c) {
            let r = rn.push(new_entry(&matches.last()));
            assert forall|j: int| 0 <= j < r.len() implies entry_spelled(
                #[trigger] r[j],
                h,
                typed.len() as int,
            ) by {
                if j < rn.len() {
                    assert(r[j] == rn[j]);
                } else {
                    assert(r[j] == new_entry(&matches.last()));
                    assert(h[typed.len() as int] == c);
                }
            }
        }
    }
}

/// The match that `first_complete` gives is that of an entry whose trigger has been typed in
/// full; and where there is such an entry, it gives one.
pub proof fn lemma_first_complete(set: Seq<MatchEntry>, i: int)
    requires
        0 <= i,
    ensures
        first_complete(set, i) is Some ==> exists|j: int|
            i <= j < set.len() && (#[trigger] set[j]).start == set[j].count && first_complete(set, i)
                == Some(set[j]._match),
        (exists|j: int| i <= j < set.len() && (#[trigger] set[j]).start == set[j].count)
            ==> first_complete(set, i) is Some,
    decreases set.len() - i,
{
    if i < set.len() {
        lemma_first_complete(set, i + 1);
        if set[i].start != set[i].count {
            if exists|j: int| i <= j < set.len() && (#[trigger] set[j]).start == set[j].count {
                let j: int = choose|j: int| i <= j < set.len() && (#[trigger] set[j]).start == set[j].count;
                assert(j != i);
                assert(i + 1 <= j);
            }
        }
    }
}

impl<'a> MatcherModel<'a> {
    /// The combined entries follow the inputs with `c` typed last.
    pub proof fn lemma_combined_spelled(self, matches: Seq<Match>, c: Seq<char>)
        requires
            self.wf(),
            triggers_fit(matches),
        ensures
            forall|j: int|
                0 <= j < self.combined(matches, c).len() ==> entry_spelled(
                    #[trigger] self.combined(matches, c)[j],
                    self.typed.push(c),
                    self.typed.len() as int,
                ),
    {
        let fresh = new_entries(matches, c);
        lemma_new_entries_spelled(matches, self.typed, c);
        if self.sets.len() > 0 {
            let last = self.sets.last();
            let i: int = self.sets.len() - 1;
            assert forall|j: int| 0 <= j < last.len() implies entry_spelled(
                #[trigger] last[j],
                self.typed,
                self.typed.len() - 1,
            ) by {
                assert(last[j] == self.sets[i][j]);
            }
            lemma_advance_set_spelled(last, self.typed, c);
            let adv = advance_set(last, c);
            let comb = adv + fresh;
            assert forall|j: int| 0 <= j < comb.len() implies entry_spelled(
                #[trigger] comb[j],
                self.typed.push(c),
                self.typed.len() as int,
            ) by {
                if j < adv.len() {
                    assert(comb[j] == adv[j]);
                } else {
                    assert(comb[j] == fresh[j - adv.len()]);
                }
            }
        }
    }

    /// Typing keeps the state well formed.
    pub proof fn lemma_after_char_wf(self, matches: Seq<Match>, backspace_limit: i32, c: Seq<char>)
        requires
            self.wf(),
            triggers_fit(matches),
        ensures
            self.after_char(matches, backspace_limit, c).wf(),
    {
        if self.enabled {
            self.lemma_combined_spelled(matches, c);
            let comb = self.combined(matches, c);
            let set = if first_complete(comb, 0) is Some {
                Seq::empty()
            } else {
                comb
            };
            let pushed = self.sets.push(set);
            let h = self.typed.push(c);
            assert forall|i: int, j: int|
                0 <= i < pushed.len() && 0 <= j < pushed[i].len() implies entry_spelled(
                #[trigger] pushed[i][j],
                h,
                h.len() - pushed.len() + i,
            ) by {
                if i < self.sets.len() {
                    assert(pushed[i] == self.sets[i]);
                    lemma_spelled_extend(
                        self.sets[i][j],
                        self.typed,
                        self.typed.len() - self.sets.len() + i,
                        c,
                    );
                } else {
                    assert(pushed[i] == set);
                }
            }
            if (pushed.len() as i32) > backspace_limit + 1 {
                let dropped = pushed.drop_first();
                assert forall|i: int, j: int|
                    0 <= i < dropped.len() && 0 <= j < dropped[i].len() implies entry_spelled(
                    #[trigger] dropped[i][j],
                    h,
                    h.len() - dropped.len() + i,
                ) by {
                    assert(dropped[i] == pushed[i + 1]);
                    assert(pushed[i + 1][j] == dropped[i][j]);
                }
            }
        }
    }

    /// Backspace keeps the state well formed.
    pub proof fn lemma_backspaced_wf(self)
        requires
            self.wf(),
        ensures
            self.backspaced().wf(),
    {
        if self.sets.len() > 0 {
            let b = self.backspaced();
            assert forall|i: int, j: int|
                0 <= i < b.sets.len() && 0 <= j < b.sets[i].len() implies entry_spelled(
                #[trigger] b.sets[i][j],
                b.typed,
                b.typed.len() - b.sets.len() + i,
            ) by {
                assert(b.sets[i] == self.sets[i]);
                let e = self.sets[i][j];
                let p: int = self.typed.len() - self.sets.len() + i;
                assert(entry_spelled(e, self.typed, p));
                let first: int = p - e.start + 1;
                assert(p < b.typed.len());
                assert(b.typed[first] == self.typed[first]);
                assert forall|k: int| 1 <= k < e.start implies #[trigger] b.typed[first + k].len()
                    > 0 && b.typed[first + k][0] == e._match.trigger@[k] by {
                    assert(b.typed[first + k] == self.typed[first + k]);
                    assert(self.typed[first + k].len() > 0);
                }
            }
        }
    }

    /// The changes that a modifier makes keep the state well formed.
    pub proof fn lemma_after_modifier_wf(self, config: Configs, m: KeyModifier, elapsed_ms: Option<u128>)
        requires
            self.wf(),
        ensures
            self.after_modifier(config, m, elapsed_ms).wf(),
    {
        let t = self.toggled();
        assert(t.wf());
        assert(t.cleared().wf());
        assert(self.cleared().wf());
        t.lemma_backspaced_wf();
        t.cleared().lemma_backspaced_wf();
        self.lemma_backspaced_wf();
    }
}

// ---------------------------------------------------------------------------------------------
// The matcher
// ---------------------------------------------------------------------------------------------

/// Whether `prefix` is a prefix of `s`, given the lengths of both in characters.
fn str_starts_with(s: &str, s_len: usize, prefix: &str, prefix_len: usize) -> (r: bool)
    requires
        s_len == s@.len(),
        prefix_len == prefix@.len(),
    ensures
        r == starts_with(s@, prefix@),
{
    if prefix_len > s_len {
        return false;
    }
    let mut i: usize = 0;
    while i < prefix_len
        invariant
            i <= prefix_len <= s_len,
            s_len == s@.len(),
            prefix_len == prefix@.len(),
            forall|k: int| 0 <= k < i ==> s@[k] == prefix@[k],
        decreases prefix_len - i,
    {
        if s.get_char(i) != prefix.get_char(i) {
            assert(s@.subrange(0, prefix_len as int)[i as int] == s@[i as int]);
            return false;
        }
        i = i + 1;
    }
    assert(s@.subrange(0, prefix_len as int) =~= prefix@);
    true
}

/// One entry for each match whose trigger begins with `c`; `c_len` is the length of `c` in
/// characters.
fn collect_new_entries<'a>(matches: &'a Vec<Match>, c: &str, c_len: usize) -> (fresh: Vec<MatchEntry<'a>>)
    requires
        c_len == c@.len(),
    ensures
        fresh@ == new_entries(matches@, c@),
        triggers_fit(matches@),
{
    let mut fresh: Vec<MatchEntry<'a>> = Vec::new();
    let mut i: usize = 0;
    while i < matches.len()
        invariant
            i <= matches@.len(),
            c_len == c@.len(),
            fresh@ == new_entries(matches@.take(i as int), c@),
            triggers_fit(matches@.take(i as int)),
        decreases matches@.len() - i,
    {
        let m: &'a Match = &matches[i];
        let t_len: usize = m.trigger.as_str().unicode_len();
        let ghost taken = matches@.take(i + 1);
        assert(taken.drop_last() =~= matches@.take(i as int));
        assert(taken.last() == matches@[i as int]);
        if str_starts_with(m.trigger.as_str(), t_len, c, c_len) {
            fresh.push(MatchEntry { start: 1, count: t_len, _match: m });
        }
        assert(triggers_fit(taken)) by {
            assert forall|k: int| 0 <= k < taken.len() implies taken[k].trigger@.len()
                <= usize::MAX by {
                if k < i {
                    assert(taken[k] == matches@.take(i as int)[k]);
                }
            }
        }
        i = i + 1;
    }
    assert(matches@.take(matches@.len() as int) =~= matches@);
    fresh
}

/// The entries of `set` that the input `c` takes a step further, each a step further;
/// `c_len` is the length of `c` in characters.
fn advance_entries<'a>(set: &Vec<MatchEntry<'a>>, c: &str, c_len: usize) -> (updated: Vec<MatchEntry<'a>>)
    requires
        c_len == c@.len(),
        forall|j: int| 0 <= j < set@.len() ==> (#[trigger] set@[j]).count as int
            == set@[j]._match.trigger@.len(),
    ensures
        updated@ == advance_set(set@, c@),
{
    let mut updated: Vec<MatchEntry<'a>> = Vec::new();
    let mut i: usize = 0;
    while i < set.len()
        invariant
            i <= set@.len(),
            c_len == c@.len(),
            forall|j: int| 0 <= j < set@.len() ==> (#[trigger] set@[j]).count as int
                == set@[j]._match.trigger@.len(),
            updated@ == advance_set(set@.take(i as int), c@),
        decreases set@.len() - i,
    {
        let e = &set[i];
        let ghost taken = set@.take(i + 1);
        assert(taken.drop_last() =~= set@.take(i as int));
        assert(taken.last() == set@[i as int]);
        let t_len: usize = e._match.trigger.as_str().unicode_len();
        if e.start < t_len && c_len > 0 {
            if e._match.trigger.as_str().get_char(e.start) == c.get_char(0) {
                updated.push(MatchEntry { start: e.start + 1, count: e.count, _match: e._match });
            }
        }
        i = i + 1;
    }
    assert(set@.take(set@.len() as int) =~= set@);
    updated
}

/// The match of the first entry whose trigger has been typed in full.
fn find_complete<'a>(set: &Vec<MatchEntry<'a>>) -> (found: Option<&'a Match>)
    ensures
        found == first_complete(set@, 0),
{
    let mut i: usize = 0;
    while i < set.len() && set[i].start != set[i].count
        invariant
            i <= set@.len(),
            first_complete(set@, 0) == first_complete(set@, i as int),
        decreases set@.len() - i,
    {
        i = i + 1;
    }
    if i < set.len() {
        Some(set[i]._match)
    } else {
        None
    }
}

/// Follows the triggers of the matches as characters are typed, and reports a match when its
/// trigger has been typed in full. It keeps one set of entries per recent input, so that
/// backspace can take inputs back.
pub struct ScrollingMatcher<'a> {
    current_set_queue: VecDeque<Vec<MatchEntry<'a>>>,
    toggle_press_time: Option<u128>,
    is_enabled: bool,
    typed: Ghost<Seq<Seq<char>>>,
}

impl<'a> View for ScrollingMatcher<'a> {
    type V = MatcherModel<'a>;

    closed spec fn view(&self) -> MatcherModel<'a> {
        MatcherModel {
            sets: self.current_set_queue@.map_values(|set: Vec<MatchEntry<'a>>| set@),
            enabled: self.is_enabled,
            typed: self.typed@,
        }
    }
}

impl<'a> ScrollingMatcher<'a> {
    /// Every entry that the matcher keeps follows what was typed.
    #[verifier::type_invariant]
    closed spec fn inv(self) -> bool {
        self@.wf()
    }

    /// When the toggle key was last pressed, in nanoseconds since the epoch (`None` where the
    /// clock read earlier than the epoch).
    pub closed spec fn toggle_press_time(&self) -> Option<u128> {
        self.toggle_press_time
    }

    /// A matcher that is enabled and follows nothing yet.
    pub fn new() -> (matcher: ScrollingMatcher<'a>)
        ensures
            matcher@.wf(),
            matcher@.enabled,
            matcher@.sets.len() == 0,
            matcher@.typed.len() == 0,
    {
        let current_set_queue: VecDeque<Vec<MatchEntry<'a>>> = VecDeque::new();
        let toggle_press_time = now_nanos();
        proof {
            assert(current_set_queue@.map_values(|set: Vec<MatchEntry<'a>>| set@)
                =~= Seq::<Seq<MatchEntry<'a>>>::empty());
        }
        let matcher = ScrollingMatcher {
            current_set_queue,
            toggle_press_time,
            is_enabled: true,
            typed: Ghost(Seq::empty()),
        };
        matcher
    }

    /// Whether the matcher is enabled.
    pub fn is_enabled(&self) -> (enabled: bool)
        ensures
            enabled == self@.enabled,
    {
        self.is_enabled
    }

    /// Takes the typed input `c` (usually one character) against `matches`. While disabled, it
    /// does nothing. Else it follows each trigger that `c` takes a step further and each that
    /// begins with `c`, and returns the match of the first trigger typed in full, if any; the
    /// engine then expands it.
    pub fn handle_char(&mut self, matches: &'a Vec<Match>, config: &Configs, c: &str) -> (found: Option<&'a Match>)
        requires
            old(self)@.enabled ==> config.backspace_limit < i32::MAX,
        ensures
            final(self)@.wf(),
            final(self)@ == old(self)@.after_char(matches@, config.backspace_limit, c@),
            final(self).toggle_press_time() == old(self).toggle_press_time(),
            found == old(self)@.reported(matches@, c@),
            old(self)@.enabled ==> triggers_fit(matches@),
    {
        proof {
            use_type_invariant(&*self);
        }
        if !self.is_enabled {
            return None;
        }
        let ghost old_model = self@;
        let c_len: usize = c.unicode_len();
        let mut fresh = collect_new_entries(matches, c, c_len);
        let mut queue: VecDeque<Vec<MatchEntry<'a>>> = VecDeque::new();
        proof {
            assert(queue@.map_values(|set: Vec<MatchEntry<'a>>| set@)
                =~= Seq::<Seq<MatchEntry<'a>>>::empty());
        }
        std::mem::swap(&mut queue, &mut self.current_set_queue);
        let qlen: usize = queue.len();
        let mut combined: Vec<MatchEntry<'a>>;
        if qlen > 0 {
            let last: &Vec<MatchEntry<'a>> = &queue[qlen - 1];
            proof {
                assert(old_model.sets.last() == last@);
                assert forall|j: int| 0 <= j < last@.len() implies (#[trigger] last@[j]).count as int
                    == last@[j]._match.trigger@.len() by {
                    assert(entry_spelled(
                        old_model.sets[qlen - 1][j],
                        old_model.typed,
                        old_model.typed.len() - old_model.sets.len() + qlen - 1,
                    ));
                }
            }
            combined = advance_entries(last, c, c_len);
            combined.append(&mut fresh);
        } else {
            combined = fresh;
        }
        assert(combined@ == old_model.combined(matches@, c@));
        let found = find_complete(&combined);
        let set = if found.is_some() {
            Vec::new()
        } else {
            combined
        };
        let ghost set_view = set@;
        queue.push_back(set);
        let ghost pushed = old_model.sets.push(set_view);
        assert(queue@.map_values(|set: Vec<MatchEntry<'a>>| set@) =~= pushed);
        if (queue.len() as i32) > config.backspace_limit + 1 {
            queue.pop_front();
            assert(queue@.map_values(|set: Vec<MatchEntry<'a>>| set@) =~= pushed.drop_first());
        }
        proof {
            old_model.lemma_after_char_wf(matches@, config.backspace_limit, c@);
        }
        self.typed = Ghost(old_model.typed.push(c@));
        self.current_set_queue = queue;
        found
    }

    /// Flips the enabled flag and returns the new one, for the engine to show.
    pub fn toggle(&mut self) -> (enabled: bool)
        ensures
            final(self)@.wf(),
            final(self)@ == old(self)@.toggled(),
            final(self).toggle_press_time() == old(self).toggle_press_time(),
            enabled == final(self)@.enabled,
    {
        proof {
            use_type_invariant(&*self);
        }
        self.is_enabled = !self.is_enabled;
        self.is_enabled
    }

    /// Sets the enabled flag and returns it, for the engine to show.
    pub fn set_enabled(&mut self, enabled: bool) -> (reported: bool)
        ensures
            final(self)@.wf(),
            final(self)@ == old(self)@.with_enabled(enabled),
            final(self).toggle_press_time() == old(self).toggle_press_time(),
            reported == enabled,
    {
        proof {
            use_type_invariant(&*self);
        }
        self.is_enabled = enabled;
        self.is_enabled
    }

    /// Takes the modifier `m`, where `elapsed_ms` is the time in milliseconds since the toggle
    /// key was last pressed (`None` where it cannot be told). A second press of the toggle key
    /// within `toggle_interval` milliseconds flips the enabled flag, returns the new one, and
    /// where the matcher is now disabled, forgets every set; backspace takes back the newest set.
    pub fn handle_modifier_elapsed(&mut self, config: &Configs, m: KeyModifier, elapsed_ms: Option<u128>) -> (update: Option<bool>)
        ensures
            final(self)@.wf(),
            final(self)@ == old(self)@.after_modifier(*config, m, elapsed_ms),
            update == old(self)@.modifier_update(*config, m, elapsed_ms),
            final(self).toggle_press_time() == old(self).toggle_press_time(),
    {
        proof {
            use_type_invariant(&*self);
        }
        let ghost old_model = self@;
        let mut update: Option<bool> = None;
        if m == config.toggle_key {
            if let Some(ms) = elapsed_ms {
                if ms < config.toggle_interval as u128 {
                    let enabled = self.toggle();
                    update = Some(enabled);
                    if !self.is_enabled {
                        let mut queue: VecDeque<Vec<MatchEntry<'a>>> = VecDeque::new();
                        proof {
                            assert(queue@.map_values(|set: Vec<MatchEntry<'a>>| set@)
                                =~= Seq::<Seq<MatchEntry<'a>>>::empty());
                        }
                        std::mem::swap(&mut queue, &mut self.current_set_queue);
                    }
                }
            }
        }
        proof {
            use_type_invariant(&*self);
        }
        let ghost mid = self@;
        if m == KeyModifier::BACKSPACE {
            let mut queue: VecDeque<Vec<MatchEntry<'a>>> = VecDeque::new();
            proof {
                assert(queue@.map_values(|set: Vec<MatchEntry<'a>>| set@)
                    =~= Seq::<Seq<MatchEntry<'a>>>::empty());
            }
            std::mem::swap(&mut queue, &mut self.current_set_queue);
            let popped = queue.pop_back();
            proof {
                mid.lemma_backspaced_wf();
                assert(queue@.map_values(|set: Vec<MatchEntry<'a>>| set@) =~= mid.backspaced().sets);
            }
            if popped.is_some() {
                self.typed = Ghost(mid.typed.drop_last());
            }
            self.current_set_queue = queue;
        }
        proof {
            old_model.lemma_after_modifier_wf(*config, m, elapsed_ms);
        }
        update
    }

    /// Takes the modifier `m`, where `now` is the clock's reading in nanoseconds since the epoch.
    /// For the toggle key, the time from its last press to `now` goes to
    /// `handle_modifier_elapsed`, and `now` becomes its last press; any other modifier goes to
    /// `handle_modifier_elapsed` with no time, and the last press stays.
    pub fn handle_modifier_at(&mut self, config: &Configs, m: KeyModifier, now: Option<u128>) -> (update: Option<bool>)
        ensures
            final(self)@.wf(),
            final(self)@ == old(self)@.after_modifier(
                *config,
                m,
                toggle_key_elapsed(*config, m, old(self).toggle_press_time(), now),
            ),
            update == old(self)@.modifier_update(
                *config,
                m,
                toggle_key_elapsed(*config, m, old(self).toggle_press_time(), now),
            ),
            final(self).toggle_press_time() == (if m == config.toggle_key {
                now
            } else {
                old(self).toggle_press_time()
            }),
    {
        let mut elapsed: Option<u128> = None;
        if m == config.toggle_key {
            elapsed = elapsed_ms_between(self.toggle_press_time, now);
        }
        let update = self.handle_modifier_elapsed(config, m, elapsed);
        if m == config.toggle_key {
            proof {
                use_type_invariant(&*self);
            }
            self.toggle_press_time = now;
        }
        update
    }

    /// Takes the modifier `m`: as `handle_modifier_at` with the clock's reading at the call. The
    /// result is that of `handle_modifier_at` for some reading; for any other modifier than the
    /// toggle key the reading plays no part.
    pub fn handle_modifier(&mut self, config: &Configs, m: KeyModifier) -> (update: Option<bool>)
        ensures
            final(self)@.wf(),
            exists|now: Option<u128>|
                {
                    &&& final(self).toggle_press_time() == (if m == config.toggle_key {
                        now
                    } else {
                        old(self).toggle_press_time()
                    })
                    &&& final(self)@ == old(self)@.after_modifier(
                        *config,
                        m,
                        toggle_key_elapsed(*config, m, old(self).toggle_press_time(), now),
                    )
                    &&& update == old(self)@.modifier_update(
                        *config,
                        m,
                        toggle_key_elapsed(*config, m, old(self).toggle_press_time(), now),
                    )
                },
            m != config.toggle_key ==> final(self)@ == old(self)@.after_modifier(*config, m, None)
                && update is None && final(self).toggle_press_time() == old(self).toggle_press_time(),
    {
        let mut now: Option<u128> = None;
        if m == config.toggle_key {
            now = now_nanos();
        }
        self.handle_modifier_at(config, m, now)
    }

    /// Takes an action from outside the keyboard stream: toggle, enable or disable return the
    /// new enabled flag; the others change nothing.
    pub fn on_action_event(&mut self, e: ActionType) -> (update: Option<bool>)
        ensures
            final(self)@.wf(),
            final(self)@ == old(self)@.after_action(e),
            final(self).toggle_press_time() == old(self).toggle_press_time(),
            update == old(self)@.action_update(e),
    {
        proof {
            use_type_invariant(&*self);
        }
        match e {
            ActionType::Toggle => Some(self.toggle()),
            ActionType::Enable => Some(self.set_enabled(true)),
            ActionType::Disable => Some(self.set_enabled(false)),
            _ => None,
        }
    }
}

} // verus!
