use toybox::input::raw::{Button, RawState};
use toybox::input::context_group::{ContextGroup, ContextGroupID};
use toybox::input::frame_state::{action_for_button, next_button_states, resolve_button_actions, ActionState};
use toybox::input::contexts::{sort_by_priority, ActiveContexts, ContextInfo};

#[test]
fn context_group_keeps_name_and_id() {
    let g = ContextGroup::new_empty("menu".to_string(), ContextGroupID(4));
    assert_eq!(g.id, ContextGroupID(4));
    assert_eq!(g.name, "menu");
}

#[test]
fn button_kinds() {
    assert!(Button::Mouse(1).is_mouse());
    assert!(!Button::Mouse(1).is_key());
    assert!(Button::Key(4).is_key());
}

#[test]
fn pressing_a_held_button_again_changes_nothing() {
    let mut s = RawState::new();
    s.track_button_down(Button::Key(4));
    s.track_button_down(Button::Mouse(1));
    s.track_button_down(Button::Key(4));
    assert_eq!(s.active_buttons, vec![Button::Key(4), Button::Mouse(1)]);
    assert_eq!(s.new_buttons, vec![Button::Key(4), Button::Mouse(1)]);
}

#[test]
fn released_buttons_are_no_longer_held() {
    let mut s = RawState::new();
    s.track_button_down(Button::Key(4));
    s.track_button_down(Button::Key(5));
    s.track_button_up(Button::Key(4));
    assert_eq!(s.active_buttons, vec![Button::Key(5)]);
    // Releasing a button that is not held changes nothing.
    s.track_button_up(Button::Key(9));
    assert_eq!(s.active_buttons, vec![Button::Key(5)]);
    // The presses of the frame are kept until the next frame.
    assert_eq!(s.new_buttons, vec![Button::Key(4), Button::Key(5)]);
    s.track_new_frame();
    assert!(s.new_buttons.is_empty());
    assert_eq!(s.active_buttons, vec![Button::Key(5)]);
}

#[test]
fn mouse_moves_add_up_within_a_frame() {
    let mut s = RawState::new();
    s.track_mouse_move((10, 20), (1, 2));
    s.track_mouse_move((12, 19), (2, -1));
    assert_eq!(s.mouse_absolute, Some((12, 19)));
    assert_eq!(s.mouse_delta, Some((3, 1)));
    s.track_new_frame();
    assert_eq!(s.mouse_delta, None);
    s.track_mouse_leave();
    assert_eq!(s.mouse_absolute, None);
}

#[test]
fn focus_loss_releases_all_buttons() {
    let mut s = RawState::new();
    s.track_button_down(Button::Key(4));
    s.track_button_down(Button::Mouse(3));
    s.track_focus_lost();
    assert!(s.active_buttons.is_empty());
}

fn state_of(states: &[(u64, ActionState)], action: u64) -> Option<ActionState> {
    states.iter().find(|(a, _)| *a == action).map(|(_, s)| *s)
}

#[test]
fn pressed_actions_enter_held_ones_stay_active_and_released_ones_leave() {
    // 1 was held and stays held, 2 was a trigger last frame, 3 is pressed now,
    // 4 left last frame, 5 is a state action pressed and held this frame.
    let prev = vec![(1, ActionState::Active), (2, ActionState::Entered), (4, ActionState::Left)];
    let next = next_button_states(&prev, &vec![3, 5], &vec![1, 5]);
    assert_eq!(next.len(), 4);
    assert_eq!(state_of(&next, 1), Some(ActionState::Active));
    assert_eq!(state_of(&next, 2), Some(ActionState::Left));
    assert_eq!(state_of(&next, 3), Some(ActionState::Entered));
    assert_eq!(state_of(&next, 4), None);
    assert_eq!(state_of(&next, 5), Some(ActionState::Entered));
    // Next frame: 5 is still held and becomes active; nothing else is pressed.
    let after = next_button_states(&next, &vec![], &vec![5]);
    assert_eq!(state_of(&after, 5), Some(ActionState::Active));
    assert_eq!(state_of(&after, 1), Some(ActionState::Left));
    assert_eq!(state_of(&after, 3), Some(ActionState::Left));
    assert_eq!(state_of(&after, 2), None);
    assert_eq!(after.len(), 3);
}

#[test]
fn a_held_action_that_left_enters_again() {
    let prev = vec![(7, ActionState::Left)];
    let next = next_button_states(&prev, &vec![], &vec![7]);
    assert_eq!(next, vec![(7, ActionState::Entered)]);
}

#[test]
fn buttons_resolve_through_the_most_recent_context_that_binds_them() {
    let space = Button::Key(44);
    let w = Button::Key(26);
    // Context 1 binds space to a trigger (10) and w to a state action (11); context 2,
    // activated later, binds space to a state action (20) and w to a trigger (21).
    let bindings = vec![
        (1, space, 10, false),
        (1, w, 11, true),
        (2, space, 20, true),
        (2, w, 21, false),
        (2, space, 22, false),
    ];
    let active = vec![1, 2];
    assert_eq!(action_for_button(&bindings, &active, space, false), Some(20));
    assert_eq!(action_for_button(&bindings, &active, w, false), Some(21));
    // Held buttons look for a state action, past contexts whose binding is a trigger.
    assert_eq!(action_for_button(&bindings, &active, w, true), Some(11));
    assert_eq!(action_for_button(&bindings, &vec![1], space, true), None);
    assert_eq!(action_for_button(&bindings, &vec![], space, false), None);

    let next = resolve_button_actions(&bindings, &active, &vec![space, w], &vec![space, w], &vec![(11, ActionState::Active)]);
    assert_eq!(state_of(&next, 20), Some(ActionState::Entered));
    assert_eq!(state_of(&next, 21), Some(ActionState::Entered));
    assert_eq!(state_of(&next, 11), Some(ActionState::Active));
    assert_eq!(next.len(), 3);
}

fn info(id: u64, group: Option<usize>, priority: i32) -> ContextInfo {
    ContextInfo { id, group: group.map(ContextGroupID), priority }
}

#[test]
fn contexts_are_entered_left_and_put_in_order_of_priority() {
    let contexts = vec![info(1, None, 5), info(2, Some(7), 0), info(3, None, 0), info(4, None, -3)];
    let mut a = ActiveContexts::new();
    assert!(a.refresh(&contexts).is_none());
    a.set_context_active(1, true);
    a.set_context_active(2, true);
    a.set_context_active(3, true);
    a.set_context_active(4, true);
    a.set_context_active(9, true);
    a.set_context_active(4, false);
    a.set_context_active(4, false);
    assert!(!a.is_context_active(&contexts, 4));
    // 2 is in group 7, which is not active.
    assert!(!a.is_context_active(&contexts, 2));
    assert!(a.is_context_active(&contexts, 3));
    // 9 names no context, so it sorts first; 2 and 3 share a priority and keep their order.
    assert_eq!(sort_by_priority(&contexts, &vec![1, 2, 3, 9]), vec![9, 2, 3, 1]);
    assert_eq!(a.refresh(&contexts), Some(vec![9, 3, 1]));
    assert!(a.refresh(&contexts).is_none());
    a.set_context_group_active(ContextGroupID(7), true);
    assert!(a.is_context_group_active(ContextGroupID(7)));
    assert!(a.is_context_active(&contexts, 2));
    assert_eq!(a.refresh(&contexts), Some(vec![9, 2, 3, 1]));
    a.set_context_group_active(ContextGroupID(7), false);
    assert!(!a.is_context_group_active(ContextGroupID(7)));
}
