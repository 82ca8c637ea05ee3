//! Capture of a candidate, stroke by stroke, and the moments of drawing.
//!
//! A session collects the strokes of one candidate and keeps the running
//! length of the path, so that nothing has to be measured again when the
//! candidate is recognised. The moments of drawing are decided from plain
//! facts about the pointer; whoever reads the pointer performs what a moment
//! asks for.

use vstd::prelude::*;
use crate::geometry::{Point, dist, distance};
use crate::resample::{path_length, stroke_length};

verus! {

/// What the pen is doing.
#[derive(Clone, Copy, Debug, PartialEq, Eq, Structural)]
pub enum DrawMoment {
    /// Nothing is being drawn.
    Idle,
    /// The drawing is complete and waits to be recognised.
    Ended,
    /// The pen was lifted; the drawing may go on with another stroke.
    Paused,
    /// The pen came down at a point; the flag tells whether it resumes a
    /// paused drawing.
    Began(Point, bool),
    /// The pen moved to a point while down.
    Drawing(Point),
}

/// The first touch of a frame.
#[derive(Clone, Copy, Debug, PartialEq, Eq, Structural)]
pub struct TouchSample {
    pub just_pressed: bool,
    pub moved: bool,
    pub position: Point,
}

/// What one frame reports of the pointer.
#[derive(Clone, Copy, Debug)]
pub struct InputFrame {
    /// The drawing button or key went down in this frame.
    pub press_started: bool,
    /// The drawing button or key is down.
    pub held: bool,
    /// The pointer moved in this frame.
    pub moved: bool,
    /// Where the pointer is, if it is over the surface.
    pub cursor: Option<Point>,
    /// The first touch, if the surface is touched.
    pub first_touch: Option<TouchSample>,
    /// The drawing button, the drawing key or a touch was released in this
    /// frame.
    pub released: bool,
    /// The control that ends a drawing was pressed in this frame.
    pub end_pressed: bool,
    /// The secondary button was released in this frame.
    pub secondary_released: bool,
}

/// What is to be done on the surface after a moment was taken in.
#[derive(Clone, Copy, Debug, PartialEq, Eq, Structural)]
pub enum DrawAction {
    /// Nothing.
    Nothing,
    /// Mark the start of a stroke at `at`; clear the surface first where
    /// `fresh` holds.
    StartStroke { at: Point, fresh: bool },
    /// Trace the pen from `from` to `to`.
    Trace { from: Point, to: Point },
    /// Recognise the candidate.
    Recognize,
}

/// Why a point was not added to a stroke.
#[derive(Clone, Copy, Debug, PartialEq, Eq, Structural)]
pub enum CaptureError {
    /// No stroke is open.
    NoOpenStroke,
    /// The path would grow beyond the length the session allows.
    PathTooLong,
}

/// The moment after the pointer events of a frame, before releases and
/// requests to end are looked at.
pub open spec fn moment_after_motion(state: DrawMoment, input: InputFrame) -> DrawMoment {
    if input.press_started {
        match input.cursor {
            Some(at) => DrawMoment::Began(at, state == DrawMoment::Paused),
            None => state,
        }
    } else if input.held && input.moved {
        match input.cursor {
            Some(at) => DrawMoment::Drawing(at),
            None => state,
        }
    } else {
        let rest = if state == DrawMoment::Paused {
            DrawMoment::Paused
        } else {
            DrawMoment::Idle
        };
        match input.first_touch {
            Some(touch) => if touch.just_pressed {
                DrawMoment::Began(touch.position, state == DrawMoment::Paused)
            } else if touch.moved {
                DrawMoment::Drawing(touch.position)
            } else {
                rest
            },
            None => rest,
        }
    }
}

/// The moment that follows `state` after a frame: a request to end the
/// drawing wins over everything; else a release pauses whatever is not idle;
/// else the pointer decides.
pub open spec fn next_moment(state: DrawMoment, input: InputFrame) -> DrawMoment {
    let moved = moment_after_motion(state, input);
    if input.end_pressed || input.secondary_released {
        DrawMoment::Ended
    } else if input.released && moved != DrawMoment::Idle {
        DrawMoment::Paused
    } else {
        moved
    }
}

/// Decides the moment that follows `state` after a frame.
pub fn draw_state_handler(state: DrawMoment, input: &InputFrame) -> (next: DrawMoment)
    ensures
        next == next_moment(state, *input),
{
    let was_paused: bool = state == DrawMoment::Paused;
    let rest: DrawMoment = if was_paused {
        DrawMoment::Paused
    } else {
        DrawMoment::Idle
    };
    let moved: DrawMoment = if input.press_started {
        match input.cursor {
            Some(at) => DrawMoment::Began(at, was_paused),
            None => state,
        }
    } else if input.held && input.moved {
        match input.cursor {
            Some(at) => DrawMoment::Drawing(at),
            None => state,
        }
    } else {
        match input.first_touch {
            Some(touch) => if touch.just_pressed {
                DrawMoment::Began(touch.position, was_paused)
            } else if touch.moved {
                DrawMoment::Drawing(touch.position)
            } else {
                rest
            },
            None => rest,
        }
    };
    if input.end_pressed || input.secondary_released {
        DrawMoment::Ended
    } else if input.released && moved != DrawMoment::Idle {
        DrawMoment::Paused
    } else {
        moved
    }
}

/// The strokes of one candidate while they are drawn.
pub struct CaptureSession {
    finished: Vec<Vec<Point>>,
    current: Vec<Point>,
    total_length: u64,
    limit: u64,
}

impl CaptureSession {
    /// The strokes that were ended, in the order in which they were drawn.
    pub closed spec fn strokes(&self) -> Seq<Seq<Point>> {
        self.finished@.map_values(|stroke: Vec<Point>| stroke@)
    }

    /// The points of the open stroke; none where no stroke is open.
    pub closed spec fn current(&self) -> Seq<Point> {
        self.current@
    }

    /// The running length of the path.
    pub closed spec fn length(&self) -> nat {
        self.total_length as nat
    }

    /// The greatest length the path may reach.
    pub closed spec fn limit(&self) -> nat {
        self.limit as nat
    }

    /// A stroke is open.
    pub open spec fn is_open(&self) -> bool {
        self.current().len() > 0
    }

    /// No ended stroke is empty, the running length is the length of the
    /// ended strokes and of the open one together, and it is within the
    /// limit.
    pub open spec fn wf(&self) -> bool {
        &&& forall|i: int| 0 <= i < self.strokes().len() ==> (#[trigger] self.strokes()[i]).len() > 0
        &&& self.length() == path_length(self.strokes()) + stroke_length(self.current())
        &&& self.length() <= self.limit()
    }

    /// Makes a session without strokes, whose path may grow as long as 64
    /// bits can count.
    pub fn new() -> (session: CaptureSession)
        ensures
            session.wf(),
            session.strokes().len() == 0,
            !session.is_open(),
            session.length() == 0,
            session.limit() == u64::MAX,
    {
        CaptureSession::with_limit(u64::MAX)
    }

    /// Makes a session without strokes, whose path may grow no longer than
    /// `limit`.
    pub fn with_limit(limit: u64) -> (session: CaptureSession)
        ensures
            session.wf(),
            session.strokes().len() == 0,
            !session.is_open(),
            session.length() == 0,
            session.limit() == limit,
    {
        let session = CaptureSession {
            finished: Vec::new(),
            current: Vec::new(),
            total_length: 0,
            limit: limit,
        };
        assert(session.strokes() =~= Seq::empty());
        session
    }

    /// The ended strokes: the candidate.
    pub fn candidate(&self) -> (strokes: &Vec<Vec<Point>>)
        ensures
            crate::resample::strokes_of(strokes@) == self.strokes(),
    {
        &self.finished
    }

    /// The running length of the path.
    pub fn total_length(&self) -> (length: u64)
        ensures
            length == self.length(),
    {
        self.total_length
    }

    /// Tells whether a stroke is open.
    pub fn is_drawing(&self) -> (open: bool)
        ensures
            open == self.is_open(),
    {
        self.current.len() > 0
    }

    /// Ends the open stroke and appends it to the candidate. Without an open
    /// stroke nothing changes.
    pub fn end_stroke(&mut self)
        requires
            old(self).wf(),
        ensures
            final(self).wf(),
            !final(self).is_open(),
            final(self).length() == old(self).length(),
            final(self).limit() == old(self).limit(),
            final(self).strokes() == (if old(self).is_open() {
                old(self).strokes().push(old(self).current())
            } else {
                old(self).strokes()
            }),
    {
        if self.current.len() > 0 {
            let ghost before = self.strokes();
            let ghost stroke = self.current();
            let mut stroke_points: Vec<Point> = Vec::new();
            std::mem::swap(&mut stroke_points, &mut self.current);
            self.finished.push(stroke_points);
            assert(self.strokes() =~= before.push(stroke));
            assert(self.strokes().drop_last() =~= before);
        }
    }

    /// Begins a stroke at `at`. Where `resume` holds the stroke joins the
    /// candidate drawn so far, whose open stroke, if any, is ended first;
    /// else the candidate starts afresh.
    pub fn begin_stroke(&mut self, at: Point, resume: bool)
        requires
            old(self).wf(),
        ensures
            final(self).wf(),
            final(self).limit() == old(self).limit(),
            final(self).current() == seq![at],
            final(self).length() == (if resume {
                old(self).length()
            } else {
                0
            }),
            final(self).strokes() == (if !resume {
                Seq::empty()
            } else if old(self).is_open() {
                old(self).strokes().push(old(self).current())
            } else {
                old(self).strokes()
            }),
    {
        if resume {
            self.end_stroke();
        } else {
            self.finished = Vec::new();
            self.current = Vec::new();
            self.total_length = 0;
            assert(self.strokes() =~= Seq::empty());
        }
        self.current.push(at);
        assert(self.current() =~= seq![at]);
    }

    /// Adds `to` to the open stroke and the distance walked to the running
    /// length. Without an open stroke, or where the length would pass the
    /// limit, the session is left as it was.
    pub fn extend_stroke(&mut self, to: Point) -> (r: Result<(), CaptureError>)
        requires
            old(self).wf(),
        ensures
            final(self).wf(),
            final(self).limit() == old(self).limit(),
            final(self).strokes() == old(self).strokes(),
            !old(self).is_open() <==> r == Err::<(), CaptureError>(CaptureError::NoOpenStroke),
            old(self).is_open() && old(self).length() + dist(old(self).current().last(), to)
                > old(self).limit() <==> r == Err::<(), CaptureError>(CaptureError::PathTooLong),
            r is Ok <==> old(self).is_open() && old(self).length() + dist(
                old(self).current().last(),
                to,
            ) <= old(self).limit(),
            r is Err ==> final(self).current() == old(self).current() && final(self).length()
                == old(self).length(),
            r is Ok ==> final(self).current() == old(self).current().push(to),
            r is Ok ==> final(self).length() == old(self).length() + dist(
                old(self).current().last(),
                to,
            ),
    {
        if self.current.len() == 0 {
            return Err(CaptureError::NoOpenStroke);
        }
        let previous: Point = self.current[self.current.len() - 1];
        let step: u64 = distance(previous, to);
        match self.total_length.checked_add(step) {
            None => Err(CaptureError::PathTooLong),
            Some(total) => {
                if total > self.limit {
                    return Err(CaptureError::PathTooLong);
                }
                let ghost before = self.current();
                self.current.push(to);
                self.total_length = total;
                assert(self.current().drop_last() =~= before);
                Ok(())
            },
        }
    }

    /// Takes in a moment of drawing and says what is to be done on the
    /// surface, and which moment to go on from.
    ///
    /// While `blocked` holds, drawing is suspended: the moment is dropped and
    /// the session is left as it was. A pen coming down begins a stroke, a
    /// pen moving extends it, a pause ends it, and the end of the drawing
    /// ends it and asks for recognition, also where nothing was drawn: what
    /// recognition makes of an empty candidate is then reported like any
    /// other outcome.
    pub fn draw(&mut self, moment: DrawMoment, blocked: bool) -> (r: (DrawMoment, DrawAction))
        requires
            old(self).wf(),
        ensures
            final(self).wf(),
            final(self).limit() == old(self).limit(),
            blocked ==> r == (DrawMoment::Idle, DrawAction::Nothing) && *final(self) == *old(self),
            !blocked ==> match moment {
                DrawMoment::Idle => r == (DrawMoment::Idle, DrawAction::Nothing) && *final(self)
                    == *old(self),
                DrawMoment::Began(at, resume) => {
                    &&& r == (moment, DrawAction::StartStroke { at: at, fresh: !resume })
                    &&& final(self).current() == seq![at]
                    &&& final(self).length() == (if resume {
                        old(self).length()
                    } else {
                        0
                    })
                    &&& final(self).strokes() == (if !resume {
                        Seq::empty()
                    } else if old(self).is_open() {
                        old(self).strokes().push(old(self).current())
                    } else {
                        old(self).strokes()
                    })
                },
                DrawMoment::Drawing(to) => {
                    &&& r.0 == moment
                    &&& final(self).strokes() == old(self).strokes()
                    &&& if old(self).is_open() && old(self).length() + dist(
                        old(self).current().last(),
                        to,
                    ) <= old(self).limit() {
                        &&& r.1 == DrawAction::Trace { from: old(self).current().last(), to: to }
                        &&& final(self).current() == old(self).current().push(to)
                        &&& final(self).length() == old(self).length() + dist(
                            old(self).current().last(),
                            to,
                        )
                    } else {
                        &&& r.1 == DrawAction::Nothing
                        &&& final(self).current() == old(self).current()
                        &&& final(self).length() == old(self).length()
                    }
                },
                DrawMoment::Paused => {
                    &&& r == (moment, DrawAction::Nothing)
                    &&& !final(self).is_open()
                    &&& final(self).length() == old(self).length()
                    &&& final(self).strokes() == (if old(self).is_open() {
                        old(self).strokes().push(old(self).current())
                    } else {
                        old(self).strokes()
                    })
                },
                DrawMoment::Ended => {
                    &&& r == (DrawMoment::Idle, DrawAction::Recognize)
                    &&& !final(self).is_open()
                    &&& final(self).length() == old(self).length()
                    &&& final(self).strokes() == (if old(self).is_open() {
                        old(self).strokes().push(old(self).current())
                    } else {
                        old(self).strokes()
                    })
                },
            },
    {
        if blocked {
            return (DrawMoment::Idle, DrawAction::Nothing);
        }
        match moment {
            DrawMoment::Idle => (DrawMoment::Idle, DrawAction::Nothing),
            DrawMoment::Began(at, resume) => {
                self.begin_stroke(at, resume);
                (moment, DrawAction::StartStroke { at: at, fresh: !resume })
            },
            DrawMoment::Drawing(to) => {
                if self.current.len() == 0 {
                    return (moment, DrawAction::Nothing);
                }
                let from: Point = self.current[self.current.len() - 1];
                match self.extend_stroke(to) {
                    Ok(_) => (moment, DrawAction::Trace { from: from, to: to }),
                    Err(_) => (moment, DrawAction::Nothing),
                }
            },
            DrawMoment::Paused => {
                self.end_stroke();
                (moment, DrawAction::Nothing)
            },
            DrawMoment::Ended => {
                self.end_stroke();
                (DrawMoment::Idle, DrawAction::Recognize)
            },
        }
    }
}

} // verus!
