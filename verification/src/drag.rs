//! Drag detection and drag-out.
//!
//! The operating system does not announce that a drag has started, so the left mouse
//! button is watched: a press followed by a move of at least eight logical pixels
//! (scaled by the system DPI) counts as a drag, which shows the shelf once the pointer
//! is in the zone along the shelf's edge; releasing the button ends it. This module
//! holds that decision as a state machine fed with mouse events; the platform hooks
//! that deliver the events and run the callbacks live outside the library.

use vstd::prelude::*;
use crate::error::ShelfError;
use crate::layout::{EdgeGeometry, in_edge_zone, in_zone};

verus! {

/// What the watcher remembers between mouse events.
#[derive(Debug, Clone, Copy)]
pub struct DragState {
    /// Where the left button went down, while it is held.
    pub down_pos: Option<(i32, i32)>,
    /// The pointer has moved far enough from `down_pos` to count as a drag.
    pub dragging: bool,
    /// The start of this drag has been signalled.
    pub triggered: bool,
}

/// A mouse event as the hook reports it.
#[derive(Debug, Clone, Copy)]
pub enum MouseEvent {
    LeftDown(i32, i32),
    Move(i32, i32),
    LeftUp,
}

/// What the watcher does after an event.
#[derive(Debug, Clone, Copy, PartialEq, Eq, Structural)]
pub enum DragSignal {
    Nothing,
    /// Call the drag-start callback (show the shelf).
    Start,
    /// Call the drag-end callback.
    End,
}

/// A move of `(dx, dy)` reaches the drag threshold of 8 logical pixels at `dpi`
/// (`8 * dpi / 96` physical pixels): `sqrt(dx² + dy²) >= dpi / 12`, in whole numbers.
pub open spec fn reaches_threshold(dx: int, dy: int, dpi: int) -> bool {
    144 * (dx * dx + dy * dy) >= dpi * dpi
}

/// The state after a press, before any move.
pub open spec fn idle() -> DragState {
    DragState { down_pos: None, dragging: false, triggered: false }
}

/// One step of the watcher: the next state and the signal.
pub open spec fn drag_step(s: DragState, e: MouseEvent, dpi: int, zone: Option<EdgeGeometry>) -> (DragState, DragSignal) {
    match e {
        MouseEvent::LeftDown(x, y) => (DragState { down_pos: Some((x, y)), dragging: false, triggered: false }, DragSignal::Nothing),
        MouseEvent::LeftUp => (idle(), if s.triggered { DragSignal::End } else { DragSignal::Nothing }),
        MouseEvent::Move(x, y) => {
            if s.triggered {
                (s, DragSignal::Nothing)
            } else if !s.dragging && s.down_pos is None {
                (s, DragSignal::Nothing)
            } else {
                let dragging = s.dragging || match s.down_pos {
                    Some((x0, y0)) => reaches_threshold(x - x0, y - y0, dpi),
                    None => false,
                };
                let s1 = DragState { dragging, ..s };
                if !dragging {
                    (s1, DragSignal::Nothing)
                } else if zone matches Some(g) && !in_zone(x as int, y as int, g) {
                    (s1, DragSignal::Nothing)
                } else {
                    (DragState { triggered: true, ..s1 }, DragSignal::Start)
                }
            }
        },
    }
}

/// Whether a move of `(dx, dy)` reaches the drag threshold at `dpi`.
fn threshold_reached(dx: i64, dy: i64, dpi: u32) -> (r: bool)
    requires
        -0x1_0000_0000 <= dx <= 0x1_0000_0000,
        -0x1_0000_0000 <= dy <= 0x1_0000_0000,
    ensures
        r == reaches_threshold(dx as int, dy as int, dpi as int),
{
    let a: i128 = dx as i128;
    let b: i128 = dy as i128;
    let d: i128 = dpi as i128;
    assert(0 <= a * a <= 0x1_0000_0000_0000_0000) by (nonlinear_arith)
        requires
            -0x1_0000_0000 <= a <= 0x1_0000_0000,
    ;
    assert(0 <= b * b <= 0x1_0000_0000_0000_0000) by (nonlinear_arith)
        requires
            -0x1_0000_0000 <= b <= 0x1_0000_0000,
    ;
    assert(0 <= d * d <= 0x1_0000_0000_0000_0000) by (nonlinear_arith)
        requires
            0 <= d <= 0x1_0000_0000,
    ;
    144 * (a * a + b * b) >= d * d
}

/// Feeds one mouse event to the watcher state and returns what to signal. `dpi` is the
/// system DPI; `zone`, where known, restricts the start signal to the zone along the
/// shelf's edge (without it a drag anywhere counts).
pub fn handle_event(state: &mut DragState, event: MouseEvent, dpi: u32, zone: Option<&EdgeGeometry>) -> (r: DragSignal)
    ensures
        (*final(state), r) == drag_step(
            *old(state),
            event,
            dpi as int,
            match zone {
                Some(g) => Some(*g),
                None => None,
            },
        ),
{
    match event {
        MouseEvent::LeftDown(x, y) => {
            *state = DragState { down_pos: Some((x, y)), dragging: false, triggered: false };
            DragSignal::Nothing
        },
        MouseEvent::LeftUp => {
            let was_triggered = state.triggered;
            *state = DragState { down_pos: None, dragging: false, triggered: false };
            if was_triggered {
                DragSignal::End
            } else {
                DragSignal::Nothing
            }
        },
        MouseEvent::Move(x, y) => {
            if state.triggered {
                return DragSignal::Nothing;
            }
            if !state.dragging {
                match state.down_pos {
                    None => {
                        return DragSignal::Nothing;
                    },
                    Some((dx0, dy0)) => {
                        let dx: i64 = x as i64 - dx0 as i64;
                        let dy: i64 = y as i64 - dy0 as i64;
                        if threshold_reached(dx, dy, dpi) {
                            state.dragging = true;
                        }
                    },
                }
            }
            if !state.dragging {
                return DragSignal::Nothing;
            }
            let inside = match zone {
                Some(g) => in_edge_zone(x, y, g),
                None => true,
            };
            if !inside {
                return DragSignal::Nothing;
            }
            state.triggered = true;
            DragSignal::Start
        },
    }
}

/// The state and the signals after feeding `events` one after the other.
pub open spec fn drag_run(s: DragState, events: Seq<MouseEvent>, dpi: int, zone: Option<EdgeGeometry>) -> (DragState, Seq<DragSignal>)
    decreases events.len(),
{
    if events.len() == 0 {
        (s, Seq::empty())
    } else {
        let (s1, sig) = drag_step(s, events[0], dpi, zone);
        let (s2, rest) = drag_run(s1, events.drop_first(), dpi, zone);
        (s2, seq![sig].add(rest))
    }
}

/// No press begins while the button is already held (every press is released first).
pub open spec fn presses_well_formed(s: DragState, events: Seq<MouseEvent>, dpi: int, zone: Option<EdgeGeometry>) -> bool
    decreases events.len(),
{
    if events.len() == 0 {
        true
    } else {
        &&& (events[0] is LeftDown ==> s.down_pos is None)
        &&& presses_well_formed(drag_step(s, events[0], dpi, zone).0, events.drop_first(), dpi, zone)
    }
}

/// The signals, ignoring `Nothing`, alternate `Start`, `End`, `Start`, ...; `open` says
/// that a start has been signalled and not yet ended.
pub open spec fn alternates(signals: Seq<DragSignal>, open: bool) -> bool
    decreases signals.len(),
{
    if signals.len() == 0 {
        true
    } else {
        match signals[0] {
            DragSignal::Nothing => alternates(signals.drop_first(), open),
            DragSignal::Start => !open && alternates(signals.drop_first(), true),
            DragSignal::End => open && alternates(signals.drop_first(), false),
        }
    }
}

/// The watcher's states keep: a started drag is a drag, and a drag has a press.
pub open spec fn drag_state_ok(s: DragState) -> bool {
    &&& (s.triggered ==> s.dragging)
    &&& (s.dragging ==> s.down_pos is Some)
}

/// Over any sequence of events in which no press begins while the button is held,
/// the watcher signals start and end in turn: never two starts without an end between
/// them, and never an end without a start.
pub proof fn lemma_signals_alternate(s: DragState, events: Seq<MouseEvent>, dpi: int, zone: Option<EdgeGeometry>)
    requires
        drag_state_ok(s),
        presses_well_formed(s, events, dpi, zone),
    ensures
        alternates(drag_run(s, events, dpi, zone).1, s.triggered),
    decreases events.len(),
{
    if events.len() > 0 {
        let (s1, sig) = drag_step(s, events[0], dpi, zone);
        lemma_signals_alternate(s1, events.drop_first(), dpi, zone);
        let sigs = drag_run(s, events, dpi, zone).1;
        assert(sigs[0] == sig);
        assert(sigs.drop_first() =~= drag_run(s1, events.drop_first(), dpi, zone).1);
    }
}

/// How many times `sig` occurs among the signals.
pub open spec fn count_signal(signals: Seq<DragSignal>, sig: DragSignal) -> nat
    decreases signals.len(),
{
    if signals.len() == 0 {
        0
    } else {
        (if signals[0] == sig {
            1nat
        } else {
            0nat
        }) + count_signal(signals.drop_first(), sig)
    }
}

/// Every event is a pointer move.
pub open spec fn all_moves(events: Seq<MouseEvent>) -> bool {
    forall|i: int| 0 <= i < events.len() ==> #[trigger] events[i] is Move
}

proof fn lemma_count_concat(a: Seq<DragSignal>, b: Seq<DragSignal>, sig: DragSignal)
    ensures
        count_signal(a + b, sig) == count_signal(a, sig) + count_signal(b, sig),
    decreases a.len(),
{
    if a.len() == 0 {
        assert(a + b =~= b);
    } else {
        assert((a + b).drop_first() =~= a.drop_first() + b);
        lemma_count_concat(a.drop_first(), b, sig);
    }
}

proof fn lemma_run_concat(s: DragState, a: Seq<MouseEvent>, b: Seq<MouseEvent>, dpi: int, zone: Option<EdgeGeometry>)
    ensures
        drag_run(s, a + b, dpi, zone) == (
            drag_run(drag_run(s, a, dpi, zone).0, b, dpi, zone).0,
            drag_run(s, a, dpi, zone).1 + drag_run(drag_run(s, a, dpi, zone).0, b, dpi, zone).1,
        ),
    decreases a.len(),
{
    if a.len() == 0 {
        assert(a + b =~= b);
        assert(Seq::<DragSignal>::empty() + drag_run(s, b, dpi, zone).1 =~= drag_run(s, b, dpi, zone).1);
    } else {
        let s1 = drag_step(s, a[0], dpi, zone).0;
        assert((a + b)[0] == a[0]);
        assert((a + b).drop_first() =~= a.drop_first() + b);
        lemma_run_concat(s1, a.drop_first(), b, dpi, zone);
        let sig = drag_step(s, a[0], dpi, zone).1;
        let r1 = drag_run(s1, a.drop_first(), dpi, zone).1;
        let r2 = drag_run(drag_run(s1, a.drop_first(), dpi, zone).0, b, dpi, zone).1;
        assert(seq![sig] + (r1 + r2) =~= (seq![sig] + r1) + r2);
    }
}

proof fn lemma_moves_while_held(s: DragState, ms: Seq<MouseEvent>, dpi: int, zone: Option<EdgeGeometry>)
    requires
        all_moves(ms),
        s.down_pos is Some,
    ensures
        drag_run(s, ms, dpi, zone).1.len() == ms.len(),
        drag_run(s, ms, dpi, zone).0.down_pos == s.down_pos,
        count_signal(drag_run(s, ms, dpi, zone).1, DragSignal::End) == 0,
        count_signal(drag_run(s, ms, dpi, zone).1, DragSignal::Start) <= 1,
        s.triggered ==> count_signal(drag_run(s, ms, dpi, zone).1, DragSignal::Start) == 0,
        drag_run(s, ms, dpi, zone).0.triggered == (s.triggered || count_signal(
            drag_run(s, ms, dpi, zone).1,
            DragSignal::Start,
        ) == 1),
    decreases ms.len(),
{
    if ms.len() > 0 {
        assert(ms[0] is Move);
        let (s1, sig) = drag_step(s, ms[0], dpi, zone);
        let rest = ms.drop_first();
        assert forall|i: int| 0 <= i < rest.len() implies #[trigger] rest[i] is Move by {
            assert(rest[i] == ms[i + 1]);
        }
        lemma_moves_while_held(s1, rest, dpi, zone);
        let sigs = drag_run(s, ms, dpi, zone).1;
        assert(sigs[0] == sig);
        assert(sigs.drop_first() =~= drag_run(s1, rest, dpi, zone).1);
    }
}

/// One press of the left button, any pointer moves while it is held, and its release:
/// the drag start is signalled at most once; no drag end is signalled before the
/// release; the release signals the drag end exactly when a start was signalled during
/// the press; and the watcher is idle again afterwards.
pub proof fn lemma_one_press(s: DragState, x: i32, y: i32, moves: Seq<MouseEvent>, dpi: int, zone: Option<EdgeGeometry>)
    requires
        all_moves(moves),
    ensures
        ({
            let run = drag_run(s, seq![MouseEvent::LeftDown(x, y)] + moves + seq![MouseEvent::LeftUp], dpi, zone);
            &&& run.1.len() == moves.len() + 2
            &&& count_signal(run.1, DragSignal::Start) <= 1
            &&& count_signal(run.1.drop_last(), DragSignal::End) == 0
            &&& (run.1.last() == DragSignal::End) == (count_signal(run.1, DragSignal::Start) == 1)
            &&& run.0 == idle()
        }),
{
    let down = seq![MouseEvent::LeftDown(x, y)];
    let up = seq![MouseEvent::LeftUp];
    let pressed = drag_step(s, MouseEvent::LeftDown(x, y), dpi, zone).0;
    assert(drag_run(s, down, dpi, zone) == (pressed, seq![DragSignal::Nothing])) by {
        assert(down[0] == MouseEvent::LeftDown(x, y));
        assert(down.drop_first() =~= Seq::<MouseEvent>::empty());
        assert(drag_run(pressed, Seq::<MouseEvent>::empty(), dpi, zone) == (pressed, Seq::<DragSignal>::empty()));
        assert(seq![DragSignal::Nothing].add(Seq::<DragSignal>::empty()) =~= seq![DragSignal::Nothing]);
    }
    lemma_run_concat(s, down, moves, dpi, zone);
    lemma_moves_while_held(pressed, moves, dpi, zone);
    let held = drag_run(pressed, moves, dpi, zone);
    lemma_run_concat(s, down + moves, up, dpi, zone);
    let last_sig = if held.0.triggered {
        DragSignal::End
    } else {
        DragSignal::Nothing
    };
    assert(drag_run(held.0, up, dpi, zone) == (idle(), seq![last_sig])) by {
        assert(up[0] == MouseEvent::LeftUp);
        assert(up.drop_first() =~= Seq::<MouseEvent>::empty());
        assert(drag_run(idle(), Seq::<MouseEvent>::empty(), dpi, zone) == (idle(), Seq::<DragSignal>::empty()));
        assert(seq![last_sig].add(Seq::<DragSignal>::empty()) =~= seq![last_sig]);
    }
    let sigs = seq![DragSignal::Nothing] + held.1 + seq![last_sig];
    assert(drag_run(s, down + moves + up, dpi, zone).1 == sigs);
    assert(sigs.drop_last() =~= seq![DragSignal::Nothing] + held.1);
    lemma_count_concat(seq![DragSignal::Nothing], held.1, DragSignal::End);
    lemma_count_concat(seq![DragSignal::Nothing], held.1, DragSignal::Start);
    lemma_count_concat(seq![DragSignal::Nothing] + held.1, seq![last_sig], DragSignal::Start);
    assert(count_signal(Seq::<DragSignal>::empty(), DragSignal::Start) == 0);
    assert(count_signal(Seq::<DragSignal>::empty(), DragSignal::End) == 0);
    assert(seq![DragSignal::Nothing].drop_first() =~= Seq::<DragSignal>::empty());
    assert(seq![last_sig].drop_first() =~= Seq::<DragSignal>::empty());
    assert(count_signal(seq![DragSignal::Nothing], DragSignal::Start) == 0);
    assert(count_signal(seq![DragSignal::Nothing], DragSignal::End) == 0);
    assert(count_signal(seq![last_sig], DragSignal::Start) == 0);
}

/// The move reaches the drag threshold, measured from the press at `(x0, y0)`.
pub open spec fn move_reaches(e: MouseEvent, x0: i32, y0: i32, dpi: int) -> bool {
    match e {
        MouseEvent::Move(x, y) => reaches_threshold(x - x0, y - y0, dpi),
        _ => false,
    }
}

/// The move is where a drag may start: inside the zone, where one is given.
pub open spec fn move_in_zone(e: MouseEvent, zone: Option<EdgeGeometry>) -> bool {
    match e {
        MouseEvent::Move(x, y) => match zone {
            Some(g) => in_zone(x as int, y as int, g),
            None => true,
        },
        _ => false,
    }
}

/// By the `j`-th move of the press at `(x0, y0)` some move has reached the threshold,
/// and the `j`-th move is inside the zone.
pub open spec fn start_ready(moves: Seq<MouseEvent>, j: int, x0: i32, y0: i32, dpi: int, zone: Option<EdgeGeometry>) -> bool {
    &&& exists|i: int| 0 <= i <= j && #[trigger] move_reaches(moves[i], x0, y0, dpi)
    &&& move_in_zone(moves[j], zone)
}

/// The `j`-th move is the first at which a start is ready: the move at which the drag
/// start is signalled.
pub open spec fn starts_at(moves: Seq<MouseEvent>, j: int, x0: i32, y0: i32, dpi: int, zone: Option<EdgeGeometry>) -> bool {
    &&& start_ready(moves, j, x0, y0, dpi, zone)
    &&& forall|i: int| 0 <= i < j ==> !#[trigger] start_ready(moves, i, x0, y0, dpi, zone)
}

/// The state right after a press at `(x, y)`.
pub open spec fn pressed_at(x: i32, y: i32) -> DragState {
    DragState { down_pos: Some((x, y)), dragging: false, triggered: false }
}

proof fn lemma_run_one(s: DragState, e: MouseEvent, dpi: int, zone: Option<EdgeGeometry>)
    ensures
        drag_run(s, seq![e], dpi, zone) == (drag_step(s, e, dpi, zone).0, seq![drag_step(s, e, dpi, zone).1]),
{
    let s1 = drag_step(s, e, dpi, zone).0;
    assert(seq![e][0] == e);
    assert(seq![e].drop_first() =~= Seq::<MouseEvent>::empty());
    assert(drag_run(s1, Seq::<MouseEvent>::empty(), dpi, zone) == (s1, Seq::<DragSignal>::empty()));
    assert(seq![drag_step(s, e, dpi, zone).1].add(Seq::<DragSignal>::empty()) =~= seq![drag_step(s, e, dpi, zone).1]);
}

proof fn lemma_press_prefix(x0: i32, y0: i32, moves: Seq<MouseEvent>, k: int, dpi: int, zone: Option<EdgeGeometry>)
    requires
        all_moves(moves),
        0 <= k <= moves.len(),
    ensures
        ({
            let run = drag_run(pressed_at(x0, y0), moves.take(k), dpi, zone);
            &&& run.0.down_pos == Some((x0, y0))
            &&& run.0.dragging == (exists|i: int| 0 <= i < k && #[trigger] move_reaches(moves[i], x0, y0, dpi))
            &&& run.0.triggered == (exists|i: int| 0 <= i < k && #[trigger] start_ready(moves, i, x0, y0, dpi, zone))
            &&& run.1.len() == k
            &&& forall|j: int| 0 <= j < k ==> #[trigger] run.1[j] == if starts_at(moves, j, x0, y0, dpi, zone) {
                DragSignal::Start
            } else {
                DragSignal::Nothing
            }
        }),
    decreases k,
{
    let p = pressed_at(x0, y0);
    if k == 0 {
        assert(moves.take(0) =~= Seq::<MouseEvent>::empty());
    } else {
        let k1 = k - 1;
        lemma_press_prefix(x0, y0, moves, k1, dpi, zone);
        let e = moves[k1];
        assert(moves.take(k) =~= moves.take(k1) + seq![e]);
        lemma_run_concat(p, moves.take(k1), seq![e], dpi, zone);
        let prev = drag_run(p, moves.take(k1), dpi, zone);
        let sk = prev.0;
        lemma_run_one(sk, e, dpi, zone);
        let (s2, sig) = drag_step(sk, e, dpi, zone);
        let run = drag_run(p, moves.take(k), dpi, zone);
        assert(run.0 == s2);
        assert(run.1 == prev.1 + seq![sig]);
        assert(e is Move);
        let x = e->Move_0;
        let y = e->Move_1;
        assert(e == MouseEvent::Move(x, y));
        let reached_now = exists|i: int| 0 <= i < k && #[trigger] move_reaches(moves[i], x0, y0, dpi);
        let reached_before = exists|i: int| 0 <= i < k1 && #[trigger] move_reaches(moves[i], x0, y0, dpi);
        let ready_before = exists|i: int| 0 <= i < k1 && #[trigger] start_ready(moves, i, x0, y0, dpi, zone);
        assert(reached_now == (reached_before || move_reaches(e, x0, y0, dpi))) by {
            if move_reaches(e, x0, y0, dpi) {
                assert(move_reaches(moves[k1], x0, y0, dpi));
            }
            if reached_now && !move_reaches(e, x0, y0, dpi) {
                let i = choose|i: int| 0 <= i < k && #[trigger] move_reaches(moves[i], x0, y0, dpi);
                assert(i < k1);
            }
        }
        assert(start_ready(moves, k1, x0, y0, dpi, zone) == (reached_now && move_in_zone(e, zone))) by {
            if reached_now {
                let i = choose|i: int| 0 <= i < k && #[trigger] move_reaches(moves[i], x0, y0, dpi);
                assert(0 <= i <= k1 && move_reaches(moves[i], x0, y0, dpi));
            }
        }
        if ready_before {
            let i = choose|i: int| 0 <= i < k1 && #[trigger] start_ready(moves, i, x0, y0, dpi, zone);
            let m = choose|m: int| 0 <= m <= i && #[trigger] move_reaches(moves[m], x0, y0, dpi);
            assert(move_reaches(moves[m], x0, y0, dpi));
            assert(reached_before);
            assert(!starts_at(moves, k1, x0, y0, dpi, zone));
        }
        assert(starts_at(moves, k1, x0, y0, dpi, zone) == (!ready_before && start_ready(moves, k1, x0, y0, dpi, zone)));
        assert(s2.triggered == (exists|i: int| 0 <= i < k && #[trigger] start_ready(moves, i, x0, y0, dpi, zone))) by {
            if start_ready(moves, k1, x0, y0, dpi, zone) {
                assert(0 <= k1 < k);
            }
            if exists|i: int| 0 <= i < k && #[trigger] start_ready(moves, i, x0, y0, dpi, zone) {
                let i = choose|i: int| 0 <= i < k && #[trigger] start_ready(moves, i, x0, y0, dpi, zone);
                if i < k1 {
                    assert(ready_before);
                }
            }
        }
        assert(s2.dragging == reached_now);
        assert forall|j: int| 0 <= j < k implies #[trigger] run.1[j] == if starts_at(moves, j, x0, y0, dpi, zone) {
            DragSignal::Start
        } else {
            DragSignal::Nothing
        } by {
            if j < k1 {
                assert(run.1[j] == prev.1[j]);
            } else {
                assert(run.1[j] == sig);
            }
        }
    }
}

/// What the watcher signals over one press at `(x, y)`, the pointer moves while the
/// button is held, and the release: nothing at the press; at each move, the drag start
/// exactly at the first move that is inside the zone (anywhere, without a zone) once some
/// move of the press has reached the threshold from `(x, y)`, nothing otherwise; and at
/// the release the drag end exactly when a start was signalled.
pub proof fn lemma_press_signals(s: DragState, x: i32, y: i32, moves: Seq<MouseEvent>, dpi: int, zone: Option<EdgeGeometry>)
    requires
        all_moves(moves),
    ensures
        ({
            let run = drag_run(s, seq![MouseEvent::LeftDown(x, y)] + moves + seq![MouseEvent::LeftUp], dpi, zone);
            &&& run.1.len() == moves.len() + 2
            &&& run.1[0] == DragSignal::Nothing
            &&& forall|j: int| 0 <= j < moves.len() ==> #[trigger] run.1[j + 1] == if starts_at(moves, j, x, y, dpi, zone) {
                DragSignal::Start
            } else {
                DragSignal::Nothing
            }
            &&& run.1.last() == if exists|j: int| 0 <= j < moves.len() && #[trigger] starts_at(moves, j, x, y, dpi, zone) {
                DragSignal::End
            } else {
                DragSignal::Nothing
            }
        }),
{
    let down = seq![MouseEvent::LeftDown(x, y)];
    let up = seq![MouseEvent::LeftUp];
    let n = moves.len() as int;
    let p = pressed_at(x, y);
    lemma_run_one(s, MouseEvent::LeftDown(x, y), dpi, zone);
    lemma_run_concat(s, down, moves, dpi, zone);
    lemma_press_prefix(x, y, moves, n, dpi, zone);
    assert(moves.take(n) =~= moves);
    let held = drag_run(p, moves, dpi, zone);
    lemma_run_concat(s, down + moves, up, dpi, zone);
    lemma_run_one(held.0, MouseEvent::LeftUp, dpi, zone);
    let last_sig = drag_step(held.0, MouseEvent::LeftUp, dpi, zone).1;
    let run = drag_run(s, down + moves + up, dpi, zone);
    assert(run.1 == seq![DragSignal::Nothing] + held.1 + seq![last_sig]);
    assert forall|j: int| 0 <= j < n implies #[trigger] run.1[j + 1] == held.1[j] by {}
    let some_start = exists|j: int| 0 <= j < n && #[trigger] starts_at(moves, j, x, y, dpi, zone);
    assert(held.0.triggered == some_start) by {
        if held.0.triggered {
            let i = choose|i: int| 0 <= i < n && #[trigger] start_ready(moves, i, x, y, dpi, zone);
            lemma_first_ready(moves, i, x, y, dpi, zone);
        }
        if some_start {
            let j = choose|j: int| 0 <= j < n && #[trigger] starts_at(moves, j, x, y, dpi, zone);
            assert(start_ready(moves, j, x, y, dpi, zone));
        }
    }
}

proof fn lemma_first_ready(moves: Seq<MouseEvent>, i: int, x0: i32, y0: i32, dpi: int, zone: Option<EdgeGeometry>)
    requires
        0 <= i < moves.len(),
        start_ready(moves, i, x0, y0, dpi, zone),
    ensures
        exists|j: int| 0 <= j <= i && #[trigger] starts_at(moves, j, x0, y0, dpi, zone),
    decreases i,
{
    if exists|m: int| 0 <= m < i && #[trigger] start_ready(moves, m, x0, y0, dpi, zone) {
        let m = choose|m: int| 0 <= m < i && #[trigger] start_ready(moves, m, x0, y0, dpi, zone);
        lemma_first_ready(moves, m, x0, y0, dpi, zone);
    } else {
        assert(starts_at(moves, i, x0, y0, dpi, zone));
    }
}

/// Pointer moves while no button is held signal nothing and change nothing.
pub proof fn lemma_moves_without_press(s: DragState, moves: Seq<MouseEvent>, dpi: int, zone: Option<EdgeGeometry>)
    requires
        all_moves(moves),
        s.down_pos is None,
        !s.dragging,
        !s.triggered,
    ensures
        drag_run(s, moves, dpi, zone).0 == s,
        forall|i: int| 0 <= i < moves.len() ==> #[trigger] drag_run(s, moves, dpi, zone).1[i] == DragSignal::Nothing,
        drag_run(s, moves, dpi, zone).1.len() == moves.len(),
    decreases moves.len(),
{
    if moves.len() > 0 {
        assert(moves[0] is Move);
        let rest = moves.drop_first();
        assert forall|i: int| 0 <= i < rest.len() implies #[trigger] rest[i] is Move by {
            assert(rest[i] == moves[i + 1]);
        }
        lemma_moves_without_press(s, rest, dpi, zone);
        let sigs = drag_run(s, moves, dpi, zone).1;
        assert forall|i: int| 0 <= i < moves.len() implies #[trigger] sigs[i] == DragSignal::Nothing by {
            if i > 0 {
                assert(sigs[i] == drag_run(s, rest, dpi, zone).1[i - 1]);
            }
        }
    }
}

/// Watches for drags and reports their start and end to callbacks of types `S` and `E`.
pub trait DragWatcher<S: Fn(), E: Fn()> {
    /// Starts watching; `on_start` is called when a drag starts (in `zone`, where one is
    /// given), `on_end` when the button of a started drag is released.
    fn start(&mut self, on_start: S, on_end: E, zone: Option<EdgeGeometry>) -> Result<(), ShelfError>;

    /// Stops watching.
    fn stop(&mut self);
}

/// A watcher that watches nothing: used where the platform has no drag watcher.
pub struct DevStubDragWatcher;

impl DevStubDragWatcher {
    pub fn new() -> (w: DevStubDragWatcher) {
        DevStubDragWatcher
    }
}

impl<S: Fn(), E: Fn()> DragWatcher<S, E> for DevStubDragWatcher {
    fn start(&mut self, on_start: S, on_end: E, zone: Option<EdgeGeometry>) -> (r: Result<(), ShelfError>)
        ensures
            r is Ok,
    {
        Ok(())
    }

    fn stop(&mut self) {
    }
}

/// Starts a native drag of files out of the shelf to other applications.
pub trait DragOutSource {
    /// Begins dragging the files at `paths`.
    fn begin_drag(&self, paths: Vec<String>) -> Result<(), ShelfError>;
}

/// A drag-out source that drags nothing: used where the platform has no native drag.
pub struct DevStubDragOutSource;

impl DevStubDragOutSource {
    pub fn new() -> (s: DevStubDragOutSource) {
        DevStubDragOutSource
    }
}

impl DragOutSource for DevStubDragOutSource {
    fn begin_drag(&self, paths: Vec<String>) -> (r: Result<(), ShelfError>)
        ensures
            r is Ok,
    {
        Ok(())
    }
}

} // verus!
