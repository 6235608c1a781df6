use vstd::prelude::*;
use vstd::std_specs::cmp::PartialEqSpec;

verus! {

/// Where the knife's drag gesture stands.
#[derive(Clone, Copy, Debug, PartialEq)]
pub enum GestureState<P> {
    /// No drag under way.
    Ready,
    /// A drag from `start` that has reached `current`.
    Begun { start: P, current: P },
    /// The drag has ended; the mouse event that ended it reports the edit.
    Finished,
}

impl<P> Default for GestureState<P> {
    fn default() -> (r: Self)
        ensures
            r == GestureState::<P>::Ready,
    {
        GestureState::Ready
    }
}

impl<P: PartialEq> GestureState<P> {
    /// The two states are the same: the same variant, with equal points.
    pub open spec fn same_spec(self, other: Self) -> bool {
        match (self, other) {
            (GestureState::Ready, GestureState::Ready) => true,
            (GestureState::Finished, GestureState::Finished) => true,
            (
                GestureState::Begun { start: s1, current: c1 },
                GestureState::Begun { start: s2, current: c2 },
            ) => s1.eq_spec(&s2) && c1.eq_spec(&c2),
            _ => false,
        }
    }

    /// Whether the two states are the same: the same variant, with equal points.
    pub fn same_as(&self, other: &Self) -> (r: bool)
        ensures
            P::obeys_eq_spec() ==> r == self.same_spec(*other),
            self is Ready ==> r == (other is Ready),
            self is Finished ==> r == (other is Finished),
            self is Begun ==> (r ==> other is Begun),
    {
        match (self, other) {
            (GestureState::Ready, GestureState::Ready) => true,
            (GestureState::Finished, GestureState::Finished) => true,
            (
                GestureState::Begun { start: s1, current: c1 },
                GestureState::Begun { start: s2, current: c2 },
            ) => *s1 == *s2 && *c1 == *c2,
            _ => false,
        }
    }
}

/// The kind of edit a finished cut makes to the session.
#[derive(Clone, Copy, Debug, PartialEq, Eq, Structural)]
pub enum EditType {
    Normal,
}

/// What the knife holds: its gesture, whether the cut line is locked to an axis,
/// and the points where the current cut line crosses the paths.
pub struct KnifeState<P> {
    pub gesture: GestureState<P>,
    pub shift_locked: bool,
    pub intersections: Seq<P>,
}

/// The state of the knife tool.
pub struct Knife<P> {
    gesture: GestureState<P>,
    shift_locked: bool,
    /// During a drag, the places where the cut line crosses a path.
    intersections: Vec<P>,
}

impl<P> View for Knife<P> {
    type V = KnifeState<P>;

    closed spec fn view(&self) -> KnifeState<P> {
        KnifeState {
            gesture: self.gesture,
            shift_locked: self.shift_locked,
            intersections: self.intersections@,
        }
    }
}

/// A shift key going down (`down`) or up: it locks or frees the cut line; any other
/// key leaves the knife as it is.
pub open spec fn key_spec<P>(s: KnifeState<P>, is_shift: bool, down: bool) -> KnifeState<P> {
    if is_shift {
        KnifeState { shift_locked: down, ..s }
    } else {
        s
    }
}

/// A press of the left button: a single click at `pt` begins a drag there, and takes
/// the axis lock from the shift modifier; other clicks change nothing.
pub open spec fn left_down_spec<P>(s: KnifeState<P>, count: u8, pt: P, shift: bool) -> KnifeState<P> {
    if count == 1 {
        KnifeState { gesture: GestureState::Begun { start: pt, current: pt }, shift_locked: shift, ..s }
    } else {
        s
    }
}

/// The drag has moved to `pt`: a begun drag now reaches `pt`.
pub open spec fn drag_to_spec<P>(s: KnifeState<P>, pt: P) -> KnifeState<P> {
    match s.gesture {
        GestureState::Begun { start, current: _ } => KnifeState {
            gesture: GestureState::Begun { start: start, current: pt },
            ..s
        },
        _ => s,
    }
}

/// The drag has been let go: the gesture is finished.
pub open spec fn finish_spec<P>(s: KnifeState<P>) -> KnifeState<P> {
    KnifeState { gesture: GestureState::Finished, ..s }
}

/// The end of a mouse event: a finished gesture goes back to ready.
pub open spec fn after_event_spec<P>(s: KnifeState<P>) -> KnifeState<P> {
    if s.gesture is Finished {
        KnifeState { gesture: GestureState::Ready, ..s }
    } else {
        s
    }
}

/// What the end of a mouse event asks of the session.
#[derive(Clone, Copy, Debug, PartialEq, Eq, Structural)]
pub struct EventOutcome {
    /// The gesture changed during the event: the tool must be painted again.
    pub repaint: bool,
    /// The edit that the event made, if any.
    pub edit: Option<EditType>,
}

impl<P> Default for Knife<P> {
    fn default() -> (r: Self)
        ensures
            r@.gesture == GestureState::<P>::Ready,
            !r@.shift_locked,
            r@.intersections == Seq::<P>::empty(),
    {
        Knife { gesture: GestureState::Ready, shift_locked: false, intersections: Vec::new() }
    }
}

impl<P: Copy> Knife<P> {
    /// The gesture as it stands.
    pub fn gesture(&self) -> (r: GestureState<P>)
        ensures
            r == self@.gesture,
    {
        self.gesture
    }

    /// Whether the cut line is locked to the nearer axis.
    pub fn shift_locked(&self) -> (r: bool)
        ensures
            r == self@.shift_locked,
    {
        self.shift_locked
    }

    /// The points where the current cut line crosses the paths.
    pub fn intersections(&self) -> (r: &Vec<P>)
        ensures
            r@ == self@.intersections,
    {
        &self.intersections
    }

    /// The start and the end of the drag, while one is under way.
    pub fn drag_points(&self) -> (r: Option<(P, P)>)
        ensures
            r == (match self@.gesture {
                GestureState::Begun { start, current } => Some((start, current)),
                _ => None,
            }),
    {
        match self.gesture {
            GestureState::Begun { start, current } => Some((start, current)),
            _ => None,
        }
    }

    /// Takes the crossings of the current cut line; without a drag under way there is
    /// no cut line, and the knife keeps the crossings it had.
    pub fn set_intersections(&mut self, points: Vec<P>)
        ensures
            final(self)@.gesture == old(self)@.gesture,
            final(self)@.shift_locked == old(self)@.shift_locked,
            final(self)@.intersections == (if old(self)@.gesture is Begun {
                points@
            } else {
                old(self)@.intersections
            }),
    {
        if let GestureState::Begun { .. } = self.gesture {
            self.intersections = points;
        }
    }

    /// A key went down. Returns whether the crossings must be found again and the
    /// tool painted again, which is when the key is a shift key.
    pub fn key_down(&mut self, is_shift: bool) -> (refresh: bool)
        ensures
            final(self)@ == key_spec(old(self)@, is_shift, true),
            final(self)@.shift_locked == (is_shift || old(self)@.shift_locked),
            final(self)@.gesture == old(self)@.gesture,
            final(self)@.intersections == old(self)@.intersections,
            refresh == is_shift,
    {
        if is_shift {
            self.shift_locked = true;
        }
        is_shift
    }

    /// A key went up. Returns whether the crossings must be found again and the
    /// tool painted again, which is when the key is a shift key.
    pub fn key_up(&mut self, is_shift: bool) -> (refresh: bool)
        ensures
            final(self)@ == key_spec(old(self)@, is_shift, false),
            final(self)@.shift_locked == (!is_shift && old(self)@.shift_locked),
            final(self)@.gesture == old(self)@.gesture,
            final(self)@.intersections == old(self)@.intersections,
            refresh == is_shift,
    {
        if is_shift {
            self.shift_locked = false;
        }
        is_shift
    }

    /// The mouse event was abandoned: the knife goes back to ready.
    pub fn cancel(&mut self)
        ensures
            final(self)@ == (KnifeState { gesture: GestureState::<P>::Ready, ..old(self)@ }),
    {
        self.gesture = GestureState::Ready;
    }

    /// The left button went down at `pt` (`count` is the click count, `shift` the
    /// state of the shift modifier).
    pub fn left_down(&mut self, count: u8, pt: P, shift: bool)
        ensures
            final(self)@ == left_down_spec(old(self)@, count, pt, shift),
    {
        if count == 1 {
            self.gesture = GestureState::Begun { start: pt, current: pt };
            self.shift_locked = shift;
        }
    }

    /// The drag moved to `pt`. Returns whether the crossings must be found again,
    /// which is when a drag is under way.
    pub fn left_drag_changed(&mut self, pt: P) -> (refresh: bool)
        ensures
            final(self)@ == drag_to_spec(old(self)@, pt),
            refresh == old(self)@.gesture is Begun,
    {
        if let GestureState::Begun { start, current: _ } = self.gesture {
            self.gesture = GestureState::Begun { start, current: pt };
            true
        } else {
            false
        }
    }
}

impl<P: Copy + PartialEq> Knife<P> {
    /// The drag was let go at `now`. A drag under way that has moved reaches `now`;
    /// returns whether it moved, when the crossings must be found again.
    pub fn left_drag_ended(&mut self, now: P) -> (refresh: bool)
        ensures
            refresh ==> old(self)@.gesture is Begun,
            final(self)@ == (if refresh { drag_to_spec(old(self)@, now) } else { old(self)@ }),
            P::obeys_eq_spec() ==> (refresh == (match old(self)@.gesture {
                GestureState::Begun { start: _, current } => !now.eq_spec(&current),
                _ => false,
            })),
    {
        if let GestureState::Begun { start, current } = self.gesture {
            if !(now == current) {
                self.gesture = GestureState::Begun { start, current: now };
                return true;
            }
        }
        false
    }

    /// Ends the drag: the gesture is finished. Returns the start and the end of the
    /// drag when they make a cut, which is when a drag was under way and its line
    /// crosses some path.
    pub fn finish_drag(&mut self) -> (cut: Option<(P, P)>)
        ensures
            final(self)@ == finish_spec(old(self)@),
            cut == (match old(self)@.gesture {
                GestureState::Begun { start, current } => if old(self)@.intersections.len() > 0 {
                    Some((start, current))
                } else {
                    None
                },
                _ => None,
            }),
    {
        let cut = match self.gesture {
            GestureState::Begun { start, current } => if self.intersections.len() > 0 {
                Some((start, current))
            } else {
                None
            },
            _ => None,
        };
        self.gesture = GestureState::Finished;
        cut
    }

    /// Ends a mouse event that found the gesture as `before`. A finished gesture goes
    /// back to ready and reports its edit; the tool is painted again when the gesture
    /// changed during the event.
    pub fn after_mouse_event(&mut self, before: &GestureState<P>) -> (r: EventOutcome)
        ensures
            final(self)@ == after_event_spec(old(self)@),
            !(final(self)@.gesture is Finished),
            r.edit == (if old(self)@.gesture is Finished { Some(EditType::Normal) } else { None }),
            P::obeys_eq_spec() ==> r.repaint == !before.same_spec(old(self)@.gesture),
            before is Ready ==> r.repaint == !(old(self)@.gesture is Ready),
            before is Finished ==> r.repaint == !(old(self)@.gesture is Finished),
    {
        let repaint = !before.same_as(&self.gesture);
        if let GestureState::Finished = self.gesture {
            self.gesture = GestureState::Ready;
            EventOutcome { repaint, edit: Some(EditType::Normal) }
        } else {
            EventOutcome { repaint, edit: None }
        }
    }
}

/// While a drag is under way, moving it changes only where it has reached: its
/// start stays the pressed point.
pub proof fn lemma_drag_keeps_start<P>(s: KnifeState<P>, pt: P)
    requires
        s.gesture is Begun,
    ensures
        drag_to_spec(s, pt).gesture == (GestureState::Begun { start: s.gesture->start, current: pt }),
        drag_to_spec(s, pt).shift_locked == s.shift_locked,
        drag_to_spec(s, pt).intersections == s.intersections,
{
}

/// Without a drag under way, drag events leave the knife as it is.
pub proof fn lemma_idle_drag_ignored<P>(s: KnifeState<P>, pt: P)
    requires
        !(s.gesture is Begun),
    ensures
        drag_to_spec(s, pt) == s,
{
}

/// A cut gesture, a single click at `p`, a drag to `q` and the release, leaves the
/// knife finished until the end of the mouse event, which brings it back to ready
/// (and reports the edit, see `Knife::after_mouse_event`); the axis lock is the one
/// the click set.
pub proof fn lemma_cut_gesture<P>(s: KnifeState<P>, p: P, q: P, shift: bool)
    ensures
        ({
            let pressed = left_down_spec(s, 1, p, shift);
            let dragged = drag_to_spec(pressed, q);
            let released = finish_spec(dragged);
            &&& pressed.gesture == (GestureState::Begun { start: p, current: p })
            &&& dragged.gesture == (GestureState::Begun { start: p, current: q })
            &&& released.gesture is Finished
            &&& after_event_spec(released).gesture is Ready
            &&& after_event_spec(released).shift_locked == shift
        }),
{
}

/// Pressing and releasing a shift key leaves the cut line free, and keys never touch
/// the gesture or the crossings.
pub proof fn lemma_shift_press_release<P>(s: KnifeState<P>, is_shift: bool, down: bool)
    ensures
        !key_spec(key_spec(s, true, true), true, false).shift_locked,
        key_spec(s, is_shift, down).gesture == s.gesture,
        key_spec(s, is_shift, down).intersections == s.intersections,
        !is_shift ==> key_spec(s, is_shift, down) == s,
{
}

/// A shift key going down locks the cut line and a shift key going up frees it,
/// whatever the knife was doing: during a drag, before one, or after one; other
/// keys leave the lock as it was.
pub proof fn lemma_shift_key_sets_lock<P>(s: KnifeState<P>, is_shift: bool, down: bool)
    ensures
        key_spec(s, true, true).shift_locked,
        !key_spec(s, true, false).shift_locked,
        key_spec(s, is_shift, down).shift_locked == (if is_shift { down } else { s.shift_locked }),
        key_spec(s, is_shift, down).gesture == s.gesture,
        key_spec(s, is_shift, down).intersections == s.intersections,
{
}

} // verus!
