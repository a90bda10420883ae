use vstd::prelude::*;

verus! {

/// A mouse button or a keyboard key, by its SDL number.
#[derive(Copy, Clone, Debug, Hash, PartialEq, Eq, Structural)]
pub enum Button {
    Mouse(u32),
    Key(u32),
}

impl Button {
    pub fn is_mouse(&self) -> (r: bool)
        ensures
            r == (*self is Mouse),
    {
        match self {
            Button::Mouse(_) => true,
            _ => false,
        }
    }

    pub fn is_key(&self) -> (r: bool)
        ensures
            r == (*self is Key),
    {
        match self {
            Button::Key(_) => true,
            _ => false,
        }
    }
}

/// The raw input of the current frame.
pub struct RawState {
    /// The mouse position in screen space, while the mouse is over the window.
    pub mouse_absolute: Option<(i32, i32)>,
    /// The mouse movement recorded this frame, if any.
    pub mouse_delta: Option<(i32, i32)>,
    /// Buttons being held, in the order they were pressed.
    pub active_buttons: Vec<Button>,
    /// Buttons pressed this frame, in order.
    pub new_buttons: Vec<Button>,
}

fn contains_button(buttons: &Vec<Button>, button: Button) -> (r: bool)
    ensures
        r == buttons@.contains(button),
{
    let mut k: usize = 0;
    while k < buttons.len()
        invariant
            k <= buttons@.len(),
            forall|m: int| 0 <= m < k ==> buttons@[m] != button,
        decreases buttons@.len() - k,
    {
        if buttons[k] == button {
            return true;
        }
        k = k + 1;
    }
    false
}

impl RawState {
    pub open spec fn active(self) -> Seq<Button> {
        self.active_buttons@
    }

    pub open spec fn pressed(self) -> Seq<Button> {
        self.new_buttons@
    }

    /// No button is held twice.
    pub open spec fn wf(self) -> bool {
        self.active_buttons@.no_duplicates()
    }

    pub fn new() -> (s: RawState)
        ensures
            s.wf(),
            s.mouse_absolute is None,
            s.mouse_delta is None,
            s.active() == Seq::<Button>::empty(),
            s.pressed() == Seq::<Button>::empty(),
    {
        RawState { mouse_absolute: None, mouse_delta: None, active_buttons: Vec::new(), new_buttons: Vec::new() }
    }

    pub fn active_buttons(&self) -> (r: &Vec<Button>)
        ensures
            r@ == self.active(),
    {
        &self.active_buttons
    }

    pub fn new_buttons(&self) -> (r: &Vec<Button>)
        ensures
            r@ == self.pressed(),
    {
        &self.new_buttons
    }

    pub fn track_mouse_leave(&mut self)
        ensures
            final(self).mouse_absolute is None,
            final(self).mouse_delta == old(self).mouse_delta,
            final(self).active() == old(self).active(),
            final(self).pressed() == old(self).pressed(),
            final(self).wf() == old(self).wf(),
    {
        self.mouse_absolute = None;
    }

    /// Losing focus releases every held button.
    pub fn track_focus_lost(&mut self)
        ensures
            final(self).mouse_absolute == old(self).mouse_absolute,
            final(self).mouse_delta == old(self).mouse_delta,
            final(self).active() == Seq::<Button>::empty(),
            final(self).pressed() == old(self).pressed(),
            final(self).wf(),
    {
        self.active_buttons.clear();
    }

    /// Records the mouse at `absolute`, having moved by `relative`; moves within a frame
    /// add up.
    pub fn track_mouse_move(&mut self, absolute: (i32, i32), relative: (i32, i32))
        requires
            old(self).mouse_delta matches Some(d) ==> i32::MIN <= d.0 + relative.0 <= i32::MAX
                && i32::MIN <= d.1 + relative.1 <= i32::MAX,
        ensures
            final(self).mouse_absolute == Some(absolute),
            final(self).mouse_delta == (match old(self).mouse_delta {
                Some(d) => Some(((d.0 + relative.0) as i32, (d.1 + relative.1) as i32)),
                None => Some(relative),
            }),
            final(self).active() == old(self).active(),
            final(self).pressed() == old(self).pressed(),
            final(self).wf() == old(self).wf(),
    {
        self.mouse_absolute = Some(absolute);
        self.mouse_delta = match self.mouse_delta {
            Some(d) => Some((d.0 + relative.0, d.1 + relative.1)),
            None => Some((0 + relative.0, 0 + relative.1)),
        };
    }

    /// A press of a button that is not held yet holds it and counts it as pressed this frame.
    pub fn track_button_down(&mut self, button: Button)
        requires
            old(self).wf(),
        ensures
            final(self).wf(),
            final(self).mouse_absolute == old(self).mouse_absolute,
            final(self).mouse_delta == old(self).mouse_delta,
            old(self).active().contains(button) ==> final(self).active() == old(self).active()
                && final(self).pressed() == old(self).pressed(),
            !old(self).active().contains(button) ==> final(self).active() == old(self).active().push(button)
                && final(self).pressed() == old(self).pressed().push(button),
    {
        if !contains_button(&self.active_buttons, button) {
            self.active_buttons.push(button);
            self.new_buttons.push(button);
            assert forall|i: int, j: int| 0 <= i < j < self.active_buttons@.len() implies
                self.active_buttons@[i] != self.active_buttons@[j] by {
                if j == self.active_buttons@.len() - 1 {
                    assert(old(self).active_buttons@[i] == self.active_buttons@[i]);
                }
            }
        }
    }

    /// Releasing a button stops holding it.
    pub fn track_button_up(&mut self, button: Button)
        requires
            old(self).wf(),
        ensures
            final(self).wf(),
            final(self).mouse_absolute == old(self).mouse_absolute,
            final(self).mouse_delta == old(self).mouse_delta,
            final(self).active() == old(self).active().filter(|b: Button| b != button),
            final(self).pressed() == old(self).pressed(),
    {
        let ghost before = self.active_buttons@;
        let mut kept: Vec<Button> = Vec::new();
        let mut k: usize = 0;
        while k < self.active_buttons.len()
            invariant
                k <= before.len(),
                self.active_buttons@ == before,
                before.no_duplicates(),
                kept@ == before.take(k as int).filter(|b: Button| b != button),
                kept@.no_duplicates(),
                forall|x: Button| #[trigger] kept@.contains(x) ==> exists|m: int| 0 <= m < k && before[m] == x,
            decreases before.len() - k,
        {
            let b = self.active_buttons[k];
            let ghost kept0 = kept@;
            proof {
                assert(before.take(k + 1) =~= before.take(k as int).push(b));
                before.take(k as int).lemma_filter_push(b, |b: Button| b != button);
            }
            if b != button {
                kept.push(b);
                proof {
                    assert(!kept0.contains(b)) by {
                        if kept0.contains(b) {
                            let m = choose|m: int| 0 <= m < k && before[m] == b;
                            assert(before[m] == before[k as int]);
                        }
                    }
                    assert forall|i: int, j: int| 0 <= i < j < kept@.len() implies kept@[i] != kept@[j] by {
                        if j == kept@.len() - 1 {
                            assert(kept0.contains(kept@[i]));
                        } else {
                            assert(kept0[i] == kept@[i] && kept0[j] == kept@[j]);
                        }
                    }
                    assert forall|x: Button| #[trigger] kept@.contains(x) implies exists|m: int| 0 <= m < k + 1 && before[m] == x by {
                        if x != b {
                            let n = choose|n: int| 0 <= n < kept@.len() && kept@[n] == x;
                            assert(kept0[n] == x);
                            assert(kept0.contains(x));
                        } else {
                            assert(before[k as int] == x);
                        }
                    }
                }
            }
            k = k + 1;
        }
        assert(before.take(before.len() as int) =~= before);
        self.active_buttons = kept;
    }

    /// Starts a new frame: no movement and no presses recorded yet.
    pub fn track_new_frame(&mut self)
        ensures
            final(self).mouse_absolute == old(self).mouse_absolute,
            final(self).mouse_delta is None,
            final(self).active() == old(self).active(),
            final(self).pressed() == Seq::<Button>::empty(),
            final(self).wf() == old(self).wf(),
    {
        self.mouse_delta = None;
        self.new_buttons.clear();
    }
}

/// After a button is released it is no longer held.
pub proof fn lemma_released_not_held(active: Seq<Button>, button: Button)
    ensures
        !active.filter(|b: Button| b != button).contains(button),
{
    broadcast use vstd::seq_lib::group_filter_ensures;
    let kept = active.filter(|b: Button| b != button);
    if kept.contains(button) {
        let i = choose|i: int| 0 <= i < kept.len() && kept[i] == button;
        assert(kept[i] != button);
    }
}

} // verus!
