use vstd::prelude::*;
use crate::input::raw::Button;

verus! {

/// Where an action stands this frame.
#[derive(Copy, Clone, Debug, PartialEq, Eq, Structural)]
pub enum ActionState {
    /// Its button went down this frame.
    Entered,
    /// A state action whose button stays down.
    Active,
    /// It was on last frame and is not any more.
    Left,
}

/// No action appears twice.
pub open spec fn distinct_actions(s: Seq<(u64, ActionState)>) -> bool {
    forall|i: int, j: int| 0 <= i < j < s.len() ==> s[i].0 != s[j].0
}

/// The state of `action` in a frame's button states.
pub open spec fn state_in(s: Seq<(u64, ActionState)>, action: u64) -> Option<ActionState> {
    if exists|i: int| 0 <= i < s.len() && s[i].0 == action {
        Some(s[choose|i: int| 0 <= i < s.len() && s[i].0 == action].1)
    } else {
        None
    }
}

/// The state of `action` this frame, given last frame's states, the actions of the buttons
/// pressed this frame (`entered`) and the state actions of the buttons held (`held`): a held
/// action stays active if it was on last frame and enters otherwise, a pressed one enters,
/// and one that was on last frame and is neither leaves.
pub open spec fn next_state(prev: Seq<(u64, ActionState)>, entered: Seq<u64>, held: Seq<u64>, action: u64) -> Option<ActionState> {
    let was_on = state_in(prev, action) matches Some(s) && s != ActionState::Left;
    if held.contains(action) {
        if was_on { Some(ActionState::Active) } else { Some(ActionState::Entered) }
    } else if entered.contains(action) {
        Some(ActionState::Entered)
    } else if was_on {
        Some(ActionState::Left)
    } else {
        None
    }
}

/// The state of `action` in `s`, whose actions are distinct.
fn find_state(s: &Vec<(u64, ActionState)>, action: u64) -> (r: Option<ActionState>)
    requires
        distinct_actions(s@),
    ensures
        r == state_in(s@, action),
{
    let mut i: usize = 0;
    while i < s.len()
        invariant
            i <= s@.len(),
            distinct_actions(s@),
            forall|j: int| 0 <= j < i ==> s@[j].0 != action,
        decreases s@.len() - i,
    {
        if s[i].0 == action {
            proof {
                assert(s@[i as int].0 == action);
                let k = choose|k: int| 0 <= k < s@.len() && s@[k].0 == action;
                assert(k == i as int);
            }
            return Some(s[i].1);
        }
        i = i + 1;
    }
    None
}

/// Whether `action` is in `v`.
fn contains_action(v: &Vec<u64>, action: u64) -> (r: bool)
    ensures
        r == v@.contains(action),
{
    let mut i: usize = 0;
    while i < v.len()
        invariant
            i <= v@.len(),
            forall|j: int| 0 <= j < i ==> v@[j] != action,
        decreases v@.len() - i,
    {
        if v[i] == action {
            return true;
        }
        i = i + 1;
    }
    false
}

/// The state of one action this frame, as `next_state` gives it.
fn action_state(prev: &Vec<(u64, ActionState)>, entered: &Vec<u64>, held: &Vec<u64>, action: u64) -> (r: Option<ActionState>)
    requires
        distinct_actions(prev@),
    ensures
        r == next_state(prev@, entered@, held@, action),
{
    let was_on = match find_state(prev, action) {
        Some(s) => s != ActionState::Left,
        None => false,
    };
    if contains_action(held, action) {
        if was_on { Some(ActionState::Active) } else { Some(ActionState::Entered) }
    } else if contains_action(entered, action) {
        Some(ActionState::Entered)
    } else if was_on {
        Some(ActionState::Left)
    } else {
        None
    }
}

/// Adds the state of `action` to `out` unless it is there already or has none.
fn add_action(out: &mut Vec<(u64, ActionState)>, prev: &Vec<(u64, ActionState)>, entered: &Vec<u64>, held: &Vec<u64>, action: u64)
    requires
        distinct_actions(prev@),
        distinct_actions(old(out)@),
        forall|i: int| 0 <= i < old(out)@.len() ==>
            next_state(prev@, entered@, held@, (#[trigger] old(out)@[i]).0) == Some(old(out)@[i].1),
    ensures
        distinct_actions(final(out)@),
        forall|i: int| 0 <= i < final(out)@.len() ==>
            next_state(prev@, entered@, held@, (#[trigger] final(out)@[i]).0) == Some(final(out)@[i].1),
        forall|a: u64| #[trigger] state_in(final(out)@, a) is Some <==> (state_in(old(out)@, a) is Some
            || (a == action && next_state(prev@, entered@, held@, a) is Some)),
{
    let ghost o = out@;
    if find_state(out, action).is_some() {
        return;
    }
    match action_state(prev, entered, held, action) {
        Some(st) => {
            out.push((action, st));
            proof {
                assert(o.len() < out@.len());
                assert forall|a: u64| #[trigger] state_in(out@, a) is Some <==> (state_in(o, a) is Some || a == action) by {
                    if state_in(o, a) is Some {
                        let k = choose|k: int| 0 <= k < o.len() && o[k].0 == a;
                        assert(out@[k].0 == a);
                    }
                    if a == action {
                        assert(out@[o.len() as int].0 == a);
                    }
                    if state_in(out@, a) is Some && a != action {
                        let k = choose|k: int| 0 <= k < out@.len() && out@[k].0 == a;
                        assert(k < o.len());
                        assert(o[k].0 == a);
                    }
                }
                assert forall|i: int, j: int| 0 <= i < j < out@.len() implies out@[i].0 != out@[j].0 by {
                    if j == o.len() {
                        assert(o[i].0 != action) by {
                            if o[i].0 == action {
                                assert(state_in(o, action) is Some);
                            }
                        }
                    } else {
                        assert(o[i] == out@[i] && o[j] == out@[j]);
                    }
                }
                assert forall|i: int| 0 <= i < out@.len() implies
                    next_state(prev@, entered@, held@, (#[trigger] out@[i]).0) == Some(out@[i].1) by {
                    if i < o.len() {
                        assert(o[i] == out@[i]);
                    }
                }
            }
        },
        None => {},
    }
}

/// This frame's button states from last frame's, the actions of the buttons pressed this
/// frame, and the state actions of the buttons held: every action with a state this frame
/// (see `next_state`) appears once, with that state, and no other does.
pub fn next_button_states(prev: &Vec<(u64, ActionState)>, entered: &Vec<u64>, held: &Vec<u64>) -> (r: Vec<(u64, ActionState)>)
    requires
        distinct_actions(prev@),
    ensures
        distinct_actions(r@),
        forall|i: int| 0 <= i < r@.len() ==> next_state(prev@, entered@, held@, (#[trigger] r@[i]).0) == Some(r@[i].1),
        forall|a: u64| #[trigger] next_state(prev@, entered@, held@, a) is Some ==> state_in(r@, a) is Some,
{
    let mut out: Vec<(u64, ActionState)> = Vec::new();
    let mut i: usize = 0;
    while i < entered.len()
        invariant
            distinct_actions(prev@),
            distinct_actions(out@),
            i <= entered@.len(),
            forall|k: int| 0 <= k < out@.len() ==> next_state(prev@, entered@, held@, (#[trigger] out@[k]).0) == Some(out@[k].1),
            forall|k: int| 0 <= k < i ==> state_in(out@, #[trigger] entered@[k]) is Some,
        decreases entered@.len() - i,
    {
        add_action(&mut out, prev, entered, held, entered[i]);
        proof {
            assert(entered@.contains(entered@[i as int]));
        }
        i = i + 1;
    }
    let mut i: usize = 0;
    while i < held.len()
        invariant
            distinct_actions(prev@),
            distinct_actions(out@),
            i <= held@.len(),
            forall|k: int| 0 <= k < out@.len() ==> next_state(prev@, entered@, held@, (#[trigger] out@[k]).0) == Some(out@[k].1),
            forall|k: int| 0 <= k < entered@.len() ==> state_in(out@, #[trigger] entered@[k]) is Some,
            forall|k: int| 0 <= k < i ==> state_in(out@, #[trigger] held@[k]) is Some,
        decreases held@.len() - i,
    {
        add_action(&mut out, prev, entered, held, held[i]);
        proof {
            assert(held@.contains(held@[i as int]));
        }
        i = i + 1;
    }
    let mut i: usize = 0;
    while i < prev.len()
        invariant
            distinct_actions(prev@),
            distinct_actions(out@),
            i <= prev@.len(),
            forall|k: int| 0 <= k < out@.len() ==> next_state(prev@, entered@, held@, (#[trigger] out@[k]).0) == Some(out@[k].1),
            forall|k: int| 0 <= k < entered@.len() ==> state_in(out@, #[trigger] entered@[k]) is Some,
            forall|k: int| 0 <= k < held@.len() ==> state_in(out@, #[trigger] held@[k]) is Some,
            forall|k: int| 0 <= k < i && next_state(prev@, entered@, held@, (#[trigger] prev@[k]).0) is Some
                ==> state_in(out@, prev@[k].0) is Some,
        decreases prev@.len() - i,
    {
        add_action(&mut out, prev, entered, held, prev[i].0);
        i = i + 1;
    }
    proof {
        assert forall|a: u64| #[trigger] next_state(prev@, entered@, held@, a) is Some implies state_in(out@, a) is Some by {
            if held@.contains(a) {
                let k = choose|k: int| 0 <= k < held@.len() && held@[k] == a;
                assert(state_in(out@, held@[k]) is Some);
            } else if entered@.contains(a) {
                let k = choose|k: int| 0 <= k < entered@.len() && entered@[k] == a;
                assert(state_in(out@, entered@[k]) is Some);
            } else {
                let k = choose|k: int| 0 <= k < prev@.len() && prev@[k].0 == a;
                assert(next_state(prev@, entered@, held@, prev@[k].0) is Some);
            }
        }
    }
    out
}

/// A binding of a context: `(context, button, action, whether the action is a state action)`.
pub type Binding = (u64, Button, u64, bool);

/// The position of the first binding of `button` in context `ctx`.
pub open spec fn binding_index(bindings: Seq<Binding>, ctx: u64, button: Button) -> Option<int>
    decreases bindings.len(),
{
    if bindings.len() == 0 {
        None
    } else {
        match binding_index(bindings.drop_last(), ctx, button) {
            Some(i) => Some(i),
            None => if bindings.last().0 == ctx && bindings.last().1 == button {
                Some(bindings.len() - 1)
            } else {
                None
            },
        }
    }
}

/// `binding_index` finds the first binding of the button in the context, and none where
/// there is none.
pub proof fn lemma_binding_index(bindings: Seq<Binding>, ctx: u64, button: Button)
    ensures
        binding_index(bindings, ctx, button) matches Some(i) ==> 0 <= i < bindings.len()
            && bindings[i].0 == ctx && bindings[i].1 == button
            && forall|j: int| 0 <= j < i ==> !(bindings[j].0 == ctx && bindings[j].1 == button),
        binding_index(bindings, ctx, button) is None ==>
            forall|j: int| 0 <= j < bindings.len() ==> !(bindings[j].0 == ctx && bindings[j].1 == button),
    decreases bindings.len(),
{
    if bindings.len() > 0 {
        let d = bindings.drop_last();
        lemma_binding_index(d, ctx, button);
        match binding_index(d, ctx, button) {
            Some(i) => {
                assert(binding_index(bindings, ctx, button) == Some(i));
                assert(d[i] == bindings[i]);
                assert forall|j: int| 0 <= j < i implies !(bindings[j].0 == ctx && bindings[j].1 == button) by {
                    assert(d[j] == bindings[j]);
                }
            },
            None => {
                assert forall|j: int| 0 <= j < bindings.len() - 1 implies !(bindings[j].0 == ctx && bindings[j].1 == button) by {
                    assert(d[j] == bindings[j]);
                }
            },
        }
    }
}

/// The action that `button` triggers: the one bound to it in the most recently activated
/// context (the last of `active`) that binds it at all, or, for `state_only`, that binds it
/// to a state action.
pub open spec fn resolve_action(bindings: Seq<Binding>, active: Seq<u64>, button: Button, state_only: bool) -> Option<u64>
    decreases active.len(),
{
    if active.len() == 0 {
        None
    } else {
        match binding_index(bindings, active.last(), button) {
            Some(i) => if !state_only || bindings[i].3 {
                Some(bindings[i].2)
            } else {
                resolve_action(bindings, active.drop_last(), button, state_only)
            },
            None => resolve_action(bindings, active.drop_last(), button, state_only),
        }
    }
}

/// The actions that `buttons` trigger, in order, leaving out those that trigger none.
pub open spec fn resolved_actions(bindings: Seq<Binding>, active: Seq<u64>, buttons: Seq<Button>, state_only: bool) -> Seq<u64>
    decreases buttons.len(),
{
    if buttons.len() == 0 {
        Seq::empty()
    } else {
        let rest = resolved_actions(bindings, active, buttons.drop_last(), state_only);
        match resolve_action(bindings, active, buttons.last(), state_only) {
            Some(a) => rest.push(a),
            None => rest,
        }
    }
}

/// The first binding of `button` in context `ctx`, as `(action, state action)`.
fn find_binding(bindings: &Vec<Binding>, ctx: u64, button: Button) -> (r: Option<(u64, bool)>)
    ensures
        match binding_index(bindings@, ctx, button) {
            Some(i) => r == Some((bindings@[i].2, bindings@[i].3)),
            None => r is None,
        },
{
    proof {
        lemma_binding_index(bindings@, ctx, button);
    }
    let mut i: usize = 0;
    while i < bindings.len()
        invariant
            i <= bindings@.len(),
            forall|j: int| 0 <= j < i ==> !(bindings@[j].0 == ctx && bindings@[j].1 == button),
        decreases bindings@.len() - i,
    {
        let b = bindings[i];
        if b.0 == ctx && b.1 == button {
            proof {
                lemma_binding_index(bindings@, ctx, button);
                if let Some(k) = binding_index(bindings@, ctx, button) {
                    if k > i as int {
                        assert(!(bindings@[i as int].0 == ctx && bindings@[i as int].1 == button));
                    }
                }
            }
            return Some((b.2, b.3));
        }
        i = i + 1;
    }
    proof {
        lemma_binding_index(bindings@, ctx, button);
        if let Some(k) = binding_index(bindings@, ctx, button) {
            assert(!(bindings@[k].0 == ctx && bindings@[k].1 == button));
        }
    }
    None
}

/// The action that `button` triggers, as `resolve_action` gives it.
pub fn action_for_button(bindings: &Vec<Binding>, active: &Vec<u64>, button: Button, state_only: bool) -> (r: Option<u64>)
    ensures
        r == resolve_action(bindings@, active@, button, state_only),
{
    let mut k: usize = active.len();
    proof {
        assert(active@.take(k as int) =~= active@);
    }
    while k > 0
        invariant
            k <= active@.len(),
            resolve_action(bindings@, active@, button, state_only)
                == resolve_action(bindings@, active@.take(k as int), button, state_only),
        decreases k,
    {
        let ctx = active[k - 1];
        proof {
            assert(active@.take(k as int).drop_last() =~= active@.take(k - 1));
            assert(active@.take(k as int).last() == ctx);
        }
        match find_binding(bindings, ctx, button) {
            Some((action, is_state)) => {
                if !state_only || is_state {
                    return Some(action);
                }
            },
            None => {},
        }
        k = k - 1;
    }
    None
}

/// The actions that `buttons` trigger, in order, as `resolved_actions` gives them.
fn actions_for_buttons(bindings: &Vec<Binding>, active: &Vec<u64>, buttons: &Vec<Button>, state_only: bool) -> (r: Vec<u64>)
    ensures
        r@ == resolved_actions(bindings@, active@, buttons@, state_only),
{
    let mut r: Vec<u64> = Vec::new();
    let mut i: usize = 0;
    while i < buttons.len()
        invariant
            i <= buttons@.len(),
            r@ == resolved_actions(bindings@, active@, buttons@.take(i as int), state_only),
        decreases buttons@.len() - i,
    {
        proof {
            assert(buttons@.take(i + 1).drop_last() =~= buttons@.take(i as int));
            assert(buttons@.take(i + 1).last() == buttons@[i as int]);
        }
        match action_for_button(bindings, active, buttons[i], state_only) {
            Some(a) => r.push(a),
            None => {},
        }
        i = i + 1;
    }
    proof {
        assert(buttons@.take(buttons@.len() as int) =~= buttons@);
    }
    r
}

/// This frame's button states from the contexts' bindings, the active contexts (most
/// recently activated last), the buttons pressed and held this frame, and last frame's
/// states: a pressed button enters the action it resolves to, a held button keeps up the
/// state action it resolves to, and an action on last frame that neither touches leaves.
pub fn resolve_button_actions(
    bindings: &Vec<Binding>,
    active: &Vec<u64>,
    new_buttons: &Vec<Button>,
    held: &Vec<Button>,
    prev: &Vec<(u64, ActionState)>,
) -> (r: Vec<(u64, ActionState)>)
    requires
        distinct_actions(prev@),
    ensures
        distinct_actions(r@),
        forall|i: int| 0 <= i < r@.len() ==> next_state(prev@,
            resolved_actions(bindings@, active@, new_buttons@, false),
            resolved_actions(bindings@, active@, held@, true), (#[trigger] r@[i]).0) == Some(r@[i].1),
        forall|a: u64| #[trigger] next_state(prev@,
            resolved_actions(bindings@, active@, new_buttons@, false),
            resolved_actions(bindings@, active@, held@, true), a) is Some ==> state_in(r@, a) is Some,
{
    let entered = actions_for_buttons(bindings, active, new_buttons, false);
    let held_actions = actions_for_buttons(bindings, active, held, true);
    next_button_states(prev, &entered, &held_actions)
}

} // verus!
