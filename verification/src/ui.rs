//! The viewer's behaviour: view modes, layer toggles, and what mouse, wheel and
//! touch input does. The state machine takes events and says what is to be done;
//! drawing, casting and loading are the caller's work.

use vstd::prelude::*;
use crate::ieee::{Double, Single};

verus! {

/// 20° in binary64: the panorama's narrowest field of view.
pub const FOV_MIN_BITS: u64 = 0x4034_0000_0000_0000;

/// 160° in binary64: the panorama's widest field of view.
pub const FOV_MAX_BITS: u64 = 0x4064_0000_0000_0000;

/// 0.0001 in binary64: the map's smallest scale.
pub const ZOOM_MIN_BITS: u64 = 0x3f1a_36e2_eb1c_432d;

/// 5 in binary64: the map's largest scale.
pub const ZOOM_MAX_BITS: u64 = 0x4014_0000_0000_0000;

/// What the viewer is showing.
#[derive(Debug, Clone, Copy, PartialEq, Eq, Structural)]
pub enum Mode {
    MapView,
    Panorama,
    Compass,
}

impl Mode {
    /// The mode after this one in the cycle map -> panorama -> compass -> map.
    pub open spec fn following(self) -> Mode {
        match self {
            Mode::MapView => Mode::Panorama,
            Mode::Panorama => Mode::Compass,
            Mode::Compass => Mode::MapView,
        }
    }

    pub fn next(self) -> (m: Mode)
        ensures
            m == self.following(),
    {
        match self {
            Mode::MapView => Mode::Panorama,
            Mode::Panorama => Mode::Compass,
            Mode::Compass => Mode::MapView,
        }
    }

    pub open spec fn caption(self) -> Seq<char> {
        match self {
            Mode::MapView => "MAP"@,
            Mode::Panorama => "PANORAMA"@,
            Mode::Compass => "COMPASS"@,
        }
    }

    /// The mode button's label: the next mode in the cycle (what a tap switches
    /// to).
    pub fn button_label(self) -> (s: &'static str)
        ensures
            s@ == self.following().caption(),
    {
        match self {
            Mode::MapView => "PANORAMA",
            Mode::Panorama => "COMPASS",
            Mode::Compass => "MAP",
        }
    }
}

/// The things that keys switch on and off.
#[derive(Debug, Clone, Copy, PartialEq, Eq, Structural)]
pub enum Layer {
    Roads,
    Paths,
    Labels,
    Peaks,
    PeakNames,
    Edges,
    Water,
    /// The panorama's pen-and-ink style.
    Artist,
}

/// Which layers are shown.
#[derive(Debug, Clone, Copy, PartialEq, Eq, Structural)]
pub struct Shown {
    pub roads: bool,
    pub paths: bool,
    pub labels: bool,
    pub peaks: bool,
    pub peak_names: bool,
    pub edges: bool,
    pub water: bool,
    pub artist: bool,
}

impl Shown {
    pub open spec fn has(self, layer: Layer) -> bool {
        match layer {
            Layer::Roads => self.roads,
            Layer::Paths => self.paths,
            Layer::Labels => self.labels,
            Layer::Peaks => self.peaks,
            Layer::PeakNames => self.peak_names,
            Layer::Edges => self.edges,
            Layer::Water => self.water,
            Layer::Artist => self.artist,
        }
    }

    /// The same with one layer set.
    pub open spec fn with(self, layer: Layer, on: bool) -> Shown {
        match layer {
            Layer::Roads => Shown { roads: on, ..self },
            Layer::Paths => Shown { paths: on, ..self },
            Layer::Labels => Shown { labels: on, ..self },
            Layer::Peaks => Shown { peaks: on, ..self },
            Layer::PeakNames => Shown { peak_names: on, ..self },
            Layer::Edges => Shown { edges: on, ..self },
            Layer::Water => Shown { water: on, ..self },
            Layer::Artist => Shown { artist: on, ..self },
        }
    }

    fn toggle(&mut self, layer: Layer) -> (on: bool)
        ensures
            on == !old(self).has(layer),
            *final(self) == old(self).with(layer, on),
    {
        match layer {
            Layer::Roads => {
                self.roads = !self.roads;
                self.roads
            },
            Layer::Paths => {
                self.paths = !self.paths;
                self.paths
            },
            Layer::Labels => {
                self.labels = !self.labels;
                self.labels
            },
            Layer::Peaks => {
                self.peaks = !self.peaks;
                self.peaks
            },
            Layer::PeakNames => {
                self.peak_names = !self.peak_names;
                self.peak_names
            },
            Layer::Edges => {
                self.edges = !self.edges;
                self.edges
            },
            Layer::Water => {
                self.water = !self.water;
                self.water
            },
            Layer::Artist => {
                self.artist = !self.artist;
                self.artist
            },
        }
    }
}

/// A key that the viewer knows.
#[derive(Debug, Clone, Copy, PartialEq, Eq, Structural)]
pub enum Key {
    Escape,
    V,
    C,
    E,
    A,
    W,
    R,
    P,
    L,
    K,
    N,
}

/// What a key press asks the caller to do.
#[derive(Debug, Clone, Copy, PartialEq, Eq, Structural)]
pub enum Request {
    /// Quit.
    Exit,
    /// Cast the horizon, then call [`Viewer::settle`] with this mode.
    Cast(Mode),
    /// Draw the new mode.
    Redraw,
    /// A layer was switched; draw again. With `rebuild` the tiles' meshes have to
    /// be built anew, with `load` the paths have to be loaded first.
    Switched { layer: Layer, on: bool, rebuild: bool, load: bool },
}

/// The view's state.
#[derive(Debug, Clone, Copy, PartialEq, Eq, Structural)]
pub struct Viewer {
    pub mode: Mode,
    /// A horizon was cast.
    pub has_pano: bool,
    pub paths_loaded: bool,
    pub shown: Shown,
}

/// The layer that a key switches, if it switches one.
pub open spec fn switches(key: Key) -> Option<Layer> {
    match key {
        Key::Escape | Key::V | Key::C => None,
        Key::E => Some(Layer::Edges),
        Key::A => Some(Layer::Artist),
        Key::W => Some(Layer::Water),
        Key::R => Some(Layer::Roads),
        Key::P => Some(Layer::Paths),
        Key::L => Some(Layer::Labels),
        Key::K => Some(Layer::Peaks),
        Key::N => Some(Layer::PeakNames),
    }
}

impl Viewer {
    /// The horizon views are only shown with a horizon.
    pub open spec fn valid(self) -> bool {
        self.mode == Mode::MapView || self.has_pano
    }

    pub fn new() -> (v: Viewer)
        ensures
            v.valid(),
            v == (Viewer {
                mode: Mode::MapView,
                has_pano: false,
                paths_loaded: false,
                shown: Shown {
                    roads: false,
                    paths: false,
                    labels: false,
                    peaks: true,
                    peak_names: true,
                    edges: true,
                    water: true,
                    artist: false,
                },
            }),
    {
        Viewer {
            mode: Mode::MapView,
            has_pano: false,
            paths_loaded: false,
            shown: Shown {
                roads: false,
                paths: false,
                labels: false,
                peaks: true,
                peak_names: true,
                edges: true,
                water: true,
                artist: false,
            },
        }
    }

    /// Switching to `target` has to cast the horizon first: a horizon view is
    /// entered fresh from the map, or without a horizon.
    pub open spec fn casts_for(self, target: Mode) -> bool {
        target != Mode::MapView && (self.mode == Mode::MapView || !self.has_pano)
    }

    /// The state after a switch to `target` with the horizon as it then is.
    pub open spec fn settled(self, target: Mode, has_pano: bool) -> Viewer {
        Viewer {
            mode: if target == Mode::MapView || has_pano {
                target
            } else {
                self.mode
            },
            has_pano,
            ..self
        }
    }

    /// Switch view mode. Where the horizon has to be cast first, nothing changes
    /// until [`Viewer::settle`].
    pub fn set_mode(&mut self, target: Mode) -> (r: Request)
        requires
            old(self).valid(),
        ensures
            final(self).valid(),
            if old(self).casts_for(target) {
                r == Request::Cast(target) && *final(self) == *old(self)
            } else {
                r == Request::Redraw && *final(self) == old(self).settled(target, old(self).has_pano)
            },
    {
        if target != Mode::MapView && (self.mode == Mode::MapView || !self.has_pano) {
            return Request::Cast(target);
        }
        if target == Mode::MapView || self.has_pano {
            self.mode = target;
        }
        Request::Redraw
    }

    /// Finish a switch to `target` after a cast: `has_pano` says whether there is
    /// a horizon now. A failed cast leaves an earlier horizon in place.
    pub fn settle(&mut self, target: Mode, has_pano: bool)
        requires
            old(self).valid(),
            old(self).has_pano ==> has_pano,
        ensures
            final(self).valid(),
            *final(self) == old(self).settled(target, has_pano),
    {
        self.has_pano = has_pano;
        if target == Mode::MapView || has_pano {
            self.mode = target;
        }
    }

    /// Go on to the next mode in the cycle (the on-screen button).
    pub fn cycle_mode(&mut self) -> (r: Request)
        requires
            old(self).valid(),
        ensures
            final(self).valid(),
            if old(self).casts_for(old(self).mode.following()) {
                r == Request::Cast(old(self).mode.following()) && *final(self) == *old(self)
            } else {
                r == Request::Redraw && *final(self) == old(self).settled(
                    old(self).mode.following(),
                    old(self).has_pano,
                )
            },
    {
        let target = self.mode.next();
        self.set_mode(target)
    }

    /// The mode that a key leads to, if it switches no layer: its own view, or
    /// back to the map.
    pub open spec fn target_of(self, key: Key) -> Mode {
        if key == Key::V && self.mode != Mode::Panorama {
            Mode::Panorama
        } else if key == Key::C && self.mode != Mode::Compass {
            Mode::Compass
        } else {
            Mode::MapView
        }
    }

    /// The state after a key press, and what the press asks for.
    pub open spec fn pressed(self, key: Key) -> (Viewer, Request) {
        match switches(key) {
            Some(layer) => {
                let load = key == Key::P && !self.paths_loaded;
                let on = load || !self.shown.has(layer);
                (
                    Viewer {
                        shown: self.shown.with(layer, on),
                        paths_loaded: self.paths_loaded || key == Key::P,
                        ..self
                    },
                    Request::Switched { layer, on, rebuild: key == Key::R, load },
                )
            },
            None => {
                let target = self.target_of(key);
                if key == Key::Escape && self.mode == Mode::MapView {
                    (self, Request::Exit)
                } else if self.casts_for(target) {
                    (self, Request::Cast(target))
                } else {
                    (self.settled(target, self.has_pano), Request::Redraw)
                }
            },
        }
    }

    /// Handle a key press.
    pub fn press(&mut self, key: Key) -> (r: Request)
        requires
            old(self).valid(),
        ensures
            final(self).valid(),
            (*final(self), r) == old(self).pressed(key),
    {
        match key {
            Key::Escape => {
                // Esc returns to the map first, otherwise quits.
                if self.mode != Mode::MapView {
                    self.set_mode(Mode::MapView)
                } else {
                    Request::Exit
                }
            },
            Key::V => {
                let target = if self.mode == Mode::Panorama {
                    Mode::MapView
                } else {
                    Mode::Panorama
                };
                self.set_mode(target)
            },
            Key::C => {
                let target = if self.mode == Mode::Compass {
                    Mode::MapView
                } else {
                    Mode::Compass
                };
                self.set_mode(target)
            },
            Key::E => self.switch(Layer::Edges, false),
            Key::A => self.switch(Layer::Artist, false),
            Key::W => self.switch(Layer::Water, false),
            Key::R => self.switch(Layer::Roads, true),
            Key::P => {
                if !self.paths_loaded {
                    self.paths_loaded = true;
                    self.shown.paths = true;
                    Request::Switched { layer: Layer::Paths, on: true, rebuild: false, load: true }
                } else {
                    self.switch(Layer::Paths, false)
                }
            },
            Key::L => self.switch(Layer::Labels, false),
            Key::K => self.switch(Layer::Peaks, false),
            Key::N => self.switch(Layer::PeakNames, false),
        }
    }

    fn switch(&mut self, layer: Layer, rebuild: bool) -> (r: Request)
        ensures
            r == (Request::Switched {
                layer,
                on: !old(self).shown.has(layer),
                rebuild,
                load: false,
            }),
            *final(self) == (Viewer {
                shown: old(self).shown.with(layer, !old(self).shown.has(layer)),
                ..*old(self)
            }),
    {
        let on = self.shown.toggle(layer);
        Request::Switched { layer, on, rebuild, load: false }
    }

    /// The key legend: one line per toggle, and whether it is on.
    pub fn legend(&self) -> (lines: Vec<(&'static str, bool)>)
        ensures
            lines.len() == 5,
            lines@[0].0@ == "R  roads"@ && lines@[0].1 == self.shown.roads,
            lines@[1].0@ == "P  paths"@ && lines@[1].1 == self.shown.paths,
            lines@[2].0@ == "L  labels"@ && lines@[2].1 == self.shown.labels,
            lines@[3].0@ == "K  peaks"@ && lines@[3].1 == self.shown.peaks,
            lines@[4].0@ == "N  peak names"@ && lines@[4].1 == self.shown.peak_names,
    {
        let mut lines: Vec<(&'static str, bool)> = Vec::new();
        lines.push(("R  roads", self.shown.roads));
        lines.push(("P  paths", self.shown.paths));
        lines.push(("L  labels", self.shown.labels));
        lines.push(("K  peaks", self.shown.peaks));
        lines.push(("N  peak names", self.shown.peak_names));
        lines
    }
}

/// Three steps through the cycle lead back to where it started.
pub proof fn cycle_returns(m: Mode)
    ensures
        m.following().following().following() == m,
        m.following() != m,
{
}

/// Switching a layer twice leaves everything as it was.
pub proof fn switching_twice_restores(s: Shown, layer: Layer)
    ensures
        s.with(layer, !s.has(layer)).with(
            layer,
            !s.with(layer, !s.has(layer)).has(layer),
        ) == s,
{
}

/// Switching one layer leaves the others alone.
pub proof fn switching_keeps_others(s: Shown, layer: Layer, other: Layer, on: bool)
    requires
        layer != other,
    ensures
        s.with(layer, on).has(layer) == on,
        s.with(layer, on).has(other) == s.has(other),
{
}

/// Escape leads from the horizon views back to the map, and quits from the map;
/// no other key quits.
pub proof fn escape_returns_to_the_map(v: Viewer, key: Key)
    ensures
        v.mode != Mode::MapView ==> v.pressed(Key::Escape) == (
            Viewer { mode: Mode::MapView, ..v },
            Request::Redraw,
        ),
        v.mode == Mode::MapView ==> v.pressed(Key::Escape) == (v, Request::Exit),
        v.pressed(key).1 == Request::Exit <==> key == Key::Escape && v.mode == Mode::MapView,
{
}

/// A key press keeps the rule that horizon views are only shown with a horizon,
/// and never drops the horizon or the paths.
pub proof fn presses_keep_the_rules(v: Viewer, key: Key)
    requires
        v.valid(),
    ensures
        v.pressed(key).0.valid(),
        v.pressed(key).0.has_pano == v.has_pano,
        v.paths_loaded ==> v.pressed(key).0.paths_loaded,
{
}

/// Whatever a gesture asks for, the map's scale and the panorama's field of view
/// stay between their limits, and inside them they are what was asked for.
pub proof fn zooming_keeps_the_limits(asked: Double)
    requires
        !asked.nan(),
    ensures
        ({
            let (low, high) = (Double { bits: ZOOM_MIN_BITS }, Double { bits: ZOOM_MAX_BITS });
            let zoom = asked.between(low, high);
            &&& low.at_most(zoom) && zoom.at_most(high)
            &&& low.at_most(asked) && asked.at_most(high) ==> zoom == asked
        }),
        ({
            let (low, high) = (Double { bits: FOV_MIN_BITS }, Double { bits: FOV_MAX_BITS });
            let fov = asked.between(low, high);
            &&& low.at_most(fov) && fov.at_most(high)
            &&& low.at_most(asked) && asked.at_most(high) ==> fov == asked
        }),
{
}

/// A point on the screen.
#[derive(Debug, Clone, Copy, PartialEq, Eq, Structural)]
pub struct Spot {
    pub x: Double,
    pub y: Double,
}

/// A finger on the screen.
#[derive(Debug, Clone, Copy, PartialEq, Eq, Structural)]
pub struct Finger {
    pub id: u64,
    pub at: Spot,
}

/// Two fingers' midpoint and separation.
#[derive(Debug, Clone, Copy, PartialEq, Eq, Structural)]
pub struct Pinch {
    pub mid: Spot,
    pub dist: Double,
}

/// Where the mouse and the fingers are.
#[derive(Debug)]
pub struct Pointer {
    pub cursor: Option<Spot>,
    pub last_cursor: Option<Spot>,
    pub dragging: bool,
    /// While a finger is down, mouse drags are ignored (touch synthesises mouse
    /// events).
    pub fingers: Vec<Finger>,
    /// The two-finger reference for the pinch delta.
    pub pinch: Option<Pinch>,
}

/// What a mouse move or a touch asks the caller to do.
#[derive(Debug, Clone, Copy, PartialEq, Eq, Structural)]
pub enum Gesture {
    Nothing,
    /// The mode button was hit: go on to the next mode.
    Toggle,
    /// Something was dragged from one point to another.
    Drag { from: Spot, to: Spot },
    /// Two fingers rest here: measure them and call [`Pointer::set_pinch`].
    Measure { a: Spot, b: Spot },
    /// Two fingers moved: measure them, apply the change from `since` if there is
    /// one, and call [`Pointer::set_pinch`].
    Pinched { a: Spot, b: Spot, since: Option<Pinch> },
}

/// The position of a finger in the list, counting from `from`.
pub open spec fn finger_at(fingers: Seq<Finger>, id: u64, from: int) -> Option<int>
    decreases fingers.len() - from,
{
    if from >= fingers.len() {
        None
    } else if fingers[from].id == id {
        Some(from)
    } else {
        finger_at(fingers, id, from + 1)
    }
}

/// The fingers with one put down or moved.
pub open spec fn put(fingers: Seq<Finger>, id: u64, at: Spot) -> Seq<Finger> {
    match finger_at(fingers, id, 0) {
        Some(i) => fingers.update(i, Finger { id, at }),
        None => fingers.push(Finger { id, at }),
    }
}

/// The fingers with one lifted.
pub open spec fn lifted(fingers: Seq<Finger>, id: u64) -> Seq<Finger> {
    match finger_at(fingers, id, 0) {
        Some(i) => fingers.remove(i),
        None => fingers,
    }
}

/// Each finger stands in the list once.
pub open spec fn distinct(fingers: Seq<Finger>) -> bool {
    forall|i: int, j: int|
        #![trigger fingers[i], fingers[j]]
        0 <= i < j < fingers.len() ==> fingers[i].id != fingers[j].id
}

proof fn lemma_finger_at(fingers: Seq<Finger>, id: u64, from: int)
    requires
        0 <= from,
    ensures
        match finger_at(fingers, id, from) {
            Some(i) => from <= i < fingers.len() && fingers[i].id == id,
            None => forall|i: int| from <= i < fingers.len() ==> (#[trigger] fingers[i]).id != id,
        },
    decreases fingers.len() - from,
{
    if from < fingers.len() && fingers[from].id != id {
        lemma_finger_at(fingers, id, from + 1);
    }
}

/// The gesture when fingers land, lift or stay: two fingers want measuring.
pub open spec fn baseline(fingers: Seq<Finger>) -> Gesture {
    if fingers.len() == 2 {
        Gesture::Measure { a: fingers[0].at, b: fingers[1].at }
    } else {
        Gesture::Nothing
    }
}

/// The contents of a [`Pointer`].
pub struct PointerView {
    pub cursor: Option<Spot>,
    pub last_cursor: Option<Spot>,
    pub dragging: bool,
    pub fingers: Seq<Finger>,
    pub pinch: Option<Pinch>,
}

impl View for Pointer {
    type V = PointerView;

    open spec fn view(&self) -> PointerView {
        PointerView {
            cursor: self.cursor,
            last_cursor: self.last_cursor,
            dragging: self.dragging,
            fingers: self.fingers@,
            pinch: self.pinch,
        }
    }
}

impl PointerView {
    /// After the left mouse button was pressed or let go, and what that asks for.
    pub open spec fn clicked(self, pressed: bool, on_button: bool) -> (PointerView, Gesture) {
        if pressed && on_button && self.cursor is Some {
            (self, Gesture::Toggle)
        } else {
            (
                PointerView {
                    dragging: pressed && self.fingers.len() == 0,
                    last_cursor: self.cursor,
                    ..self
                },
                Gesture::Nothing,
            )
        }
    }

    /// After the mouse moved.
    pub open spec fn moved(self, to: Spot) -> (PointerView, Gesture) {
        (
            PointerView { cursor: Some(to), last_cursor: Some(to), ..self },
            match self.last_cursor {
                Some(from) => if self.dragging && self.fingers.len() == 0 {
                    Gesture::Drag { from, to }
                } else {
                    Gesture::Nothing
                },
                None => Gesture::Nothing,
            },
        )
    }

    /// After a finger landed.
    pub open spec fn landed(self, id: u64, at: Spot, on_button: bool) -> (PointerView, Gesture) {
        if on_button && self.fingers.len() == 0 {
            (self, Gesture::Toggle)
        } else {
            let now = put(self.fingers, id, at);
            (PointerView { fingers: now, dragging: false, pinch: None, ..self }, baseline(now))
        }
    }

    /// After a finger moved.
    pub open spec fn slid(self, id: u64, at: Spot) -> (PointerView, Gesture) {
        let now = put(self.fingers, id, at);
        (
            PointerView { fingers: now, ..self },
            if now.len() == 1 {
                match finger_at(self.fingers, id, 0) {
                    Some(i) => Gesture::Drag { from: self.fingers[i].at, to: at },
                    None => Gesture::Nothing,
                }
            } else if now.len() == 2 {
                Gesture::Pinched { a: now[0].at, b: now[1].at, since: self.pinch }
            } else {
                Gesture::Nothing
            },
        )
    }

    /// After a finger was lifted.
    pub open spec fn raised(self, id: u64) -> (PointerView, Gesture) {
        let now = lifted(self.fingers, id);
        (PointerView { fingers: now, pinch: None, ..self }, baseline(now))
    }
}

impl Pointer {
    pub open spec fn valid(self) -> bool {
        distinct(self.fingers@)
    }

    pub fn new() -> (p: Pointer)
        ensures
            p.valid(),
            p.cursor is None && p.last_cursor is None && !p.dragging && p.pinch is None,
            p.fingers@ == Seq::<Finger>::empty(),
    {
        Pointer {
            cursor: None,
            last_cursor: None,
            dragging: false,
            fingers: Vec::new(),
            pinch: None,
        }
    }

    /// The left mouse button was pressed or let go; `on_button` says whether the
    /// cursor is on the mode button.
    pub fn mouse_button(&mut self, pressed: bool, on_button: bool) -> (g: Gesture)
        ensures
            (final(self)@, g) == old(self)@.clicked(pressed, on_button),
            final(self).fingers@ == old(self).fingers@,
            final(self).cursor == old(self).cursor,
            final(self).pinch == old(self).pinch,
            if pressed && on_button && old(self).cursor is Some {
                &&& g == Gesture::Toggle
                &&& final(self).dragging == old(self).dragging
                &&& final(self).last_cursor == old(self).last_cursor
            } else {
                &&& g == Gesture::Nothing
                &&& final(self).dragging == (pressed && old(self).fingers.len() == 0)
                &&& final(self).last_cursor == old(self).cursor
            },
    {
        if pressed && on_button && self.cursor.is_some() {
            return Gesture::Toggle;
        }
        self.dragging = pressed && self.fingers.len() == 0;
        self.last_cursor = self.cursor;
        Gesture::Nothing
    }

    /// The mouse moved. Without a finger down, a drag goes on from where the
    /// cursor was.
    pub fn cursor_moved(&mut self, to: Spot) -> (g: Gesture)
        ensures
            (final(self)@, g) == old(self)@.moved(to),
            final(self).fingers@ == old(self).fingers@,
            final(self).dragging == old(self).dragging,
            final(self).pinch == old(self).pinch,
            final(self).cursor == Some(to),
            final(self).last_cursor == Some(to),
            g == (match old(self).last_cursor {
                Some(from) => if old(self).dragging && old(self).fingers.len() == 0 {
                    Gesture::Drag { from, to }
                } else {
                    Gesture::Nothing
                },
                None => Gesture::Nothing,
            }),
    {
        self.cursor = Some(to);
        let last = self.last_cursor;
        self.last_cursor = Some(to);
        if self.dragging && self.fingers.len() == 0 {
            if let Some(from) = last {
                return Gesture::Drag { from, to };
            }
        }
        Gesture::Nothing
    }

    fn find(&self, id: u64) -> (r: Option<usize>)
        ensures
            match finger_at(self.fingers@, id, 0) {
                Some(i) => r == Some(i as usize) && 0 <= i < self.fingers.len(),
                None => r is None,
            },
    {
        let mut i: usize = 0;
        while i < self.fingers.len()
            invariant
                i <= self.fingers.len(),
                finger_at(self.fingers@, id, i as int) == finger_at(self.fingers@, id, 0),
            decreases self.fingers.len() - i,
        {
            if self.fingers[i].id == id {
                return Some(i);
            }
            i = i + 1;
        }
        None
    }

    fn set_finger(&mut self, id: u64, at: Spot) -> (was: Option<Spot>)
        requires
            old(self).valid(),
        ensures
            final(self).valid(),
            final(self).cursor == old(self).cursor,
            final(self).last_cursor == old(self).last_cursor,
            final(self).dragging == old(self).dragging,
            final(self).pinch == old(self).pinch,
            final(self).fingers@ == put(old(self).fingers@, id, at),
            was == (match finger_at(old(self).fingers@, id, 0) {
                Some(i) => Some(old(self).fingers@[i].at),
                None => None,
            }),
    {
        proof {
            lemma_finger_at(self.fingers@, id, 0);
        }
        match self.find(id) {
            Some(i) => {
                let was = self.fingers[i].at;
                self.fingers.set(i, Finger { id, at });
                Some(was)
            },
            None => {
                self.fingers.push(Finger { id, at });
                None
            },
        }
    }

    /// Reset the pinch reference: two fingers have to be measured anew, for any
    /// other number there is none.
    fn refresh_pinch(&mut self) -> (g: Gesture)
        ensures
            final(self).fingers@ == old(self).fingers@,
            final(self).cursor == old(self).cursor,
            final(self).last_cursor == old(self).last_cursor,
            final(self).dragging == old(self).dragging,
            final(self).pinch is None,
            g == baseline(old(self).fingers@),
    {
        self.pinch = None;
        if self.fingers.len() == 2 {
            Gesture::Measure { a: self.fingers[0].at, b: self.fingers[1].at }
        } else {
            Gesture::Nothing
        }
    }

    /// A finger landed. A tap on the mode button goes on to the next mode; any
    /// other touch cancels a mouse drag.
    pub fn touch_started(&mut self, id: u64, at: Spot, on_button: bool) -> (g: Gesture)
        requires
            old(self).valid(),
        ensures
            final(self).valid(),
            (final(self)@, g) == old(self)@.landed(id, at, on_button),
            final(self).cursor == old(self).cursor,
            final(self).last_cursor == old(self).last_cursor,
            if on_button && old(self).fingers.len() == 0 {
                &&& g == Gesture::Toggle
                &&& final(self).fingers@ == old(self).fingers@
                &&& final(self).dragging == old(self).dragging
                &&& final(self).pinch == old(self).pinch
            } else {
                &&& final(self).fingers@ == put(old(self).fingers@, id, at)
                &&& !final(self).dragging
                &&& final(self).pinch is None
                &&& g == baseline(final(self).fingers@)
            },
    {
        if on_button && self.fingers.len() == 0 {
            return Gesture::Toggle;
        }
        self.dragging = false;
        self.set_finger(id, at);
        self.refresh_pinch()
    }

    /// A finger moved: one finger drags, two pinch, more are ignored.
    pub fn touch_moved(&mut self, id: u64, at: Spot) -> (g: Gesture)
        requires
            old(self).valid(),
        ensures
            final(self).valid(),
            (final(self)@, g) == old(self)@.slid(id, at),
            final(self).cursor == old(self).cursor,
            final(self).last_cursor == old(self).last_cursor,
            final(self).dragging == old(self).dragging,
            final(self).pinch == old(self).pinch,
            final(self).fingers@ == put(old(self).fingers@, id, at),
            ({
                let now = put(old(self).fingers@, id, at);
                g == (if now.len() == 1 {
                    match finger_at(old(self).fingers@, id, 0) {
                        Some(i) => Gesture::Drag { from: old(self).fingers@[i].at, to: at },
                        None => Gesture::Nothing,
                    }
                } else if now.len() == 2 {
                    Gesture::Pinched { a: now[0].at, b: now[1].at, since: old(self).pinch }
                } else {
                    Gesture::Nothing
                })
            }),
    {
        let was = self.set_finger(id, at);
        if self.fingers.len() == 1 {
            match was {
                Some(from) => Gesture::Drag { from, to: at },
                None => Gesture::Nothing,
            }
        } else if self.fingers.len() == 2 {
            Gesture::Pinched { a: self.fingers[0].at, b: self.fingers[1].at, since: self.pinch }
        } else {
            Gesture::Nothing
        }
    }

    /// A finger was lifted, or its touch cancelled.
    pub fn touch_ended(&mut self, id: u64) -> (g: Gesture)
        requires
            old(self).valid(),
        ensures
            final(self).valid(),
            (final(self)@, g) == old(self)@.raised(id),
            final(self).cursor == old(self).cursor,
            final(self).last_cursor == old(self).last_cursor,
            final(self).dragging == old(self).dragging,
            final(self).pinch is None,
            final(self).fingers@ == lifted(old(self).fingers@, id),
            g == baseline(lifted(old(self).fingers@, id)),
    {
        proof {
            lemma_finger_at(self.fingers@, id, 0);
        }
        if let Some(i) = self.find(id) {
            self.fingers.remove(i);
        }
        self.refresh_pinch()
    }

    /// Set the two-finger reference.
    pub fn set_pinch(&mut self, p: Pinch)
        ensures
            final(self).pinch == Some(p),
            final(self).fingers@ == old(self).fingers@,
            final(self).cursor == old(self).cursor,
            final(self).last_cursor == old(self).last_cursor,
            final(self).dragging == old(self).dragging,
    {
        self.pinch = Some(p);
    }
}

/// A finger that was put down is found again where it was put, until it is
/// lifted.
pub proof fn fingers_are_tracked(fingers: Seq<Finger>, id: u64, at: Spot)
    requires
        distinct(fingers),
    ensures
        distinct(put(fingers, id, at)),
        finger_at(put(fingers, id, at), id, 0) matches Some(i) && put(fingers, id, at)[i].at == at,
        distinct(lifted(fingers, id)),
        finger_at(lifted(fingers, id), id, 0) is None,
{
    lemma_finger_at(fingers, id, 0);
    lemma_finger_at(put(fingers, id, at), id, 0);
    lemma_finger_at(lifted(fingers, id), id, 0);
    if let Some(i) = finger_at(fingers, id, 0) {
        assert(put(fingers, id, at)[i].id == id);
    } else {
        assert(put(fingers, id, at)[fingers.len() as int].id == id);
    }
}

/// A point on the edge of the button still hits it.
pub fn hit_mode_button(x: Single, y: Single, left: Single, top: Single, right: Single, bottom: Single) -> (r:
    bool)
    ensures
        r == (left.at_most(x) && x.at_most(right) && top.at_most(y) && y.at_most(bottom)),
{
    left.le(x) && x.le(right) && top.le(y) && y.le(bottom)
}

/// What a drag does in a view.
#[derive(Debug, Clone, Copy, PartialEq, Eq, Structural)]
pub enum DragEffect {
    /// The map moves along.
    Pan,
    /// The panorama turns.
    Scrub,
    Nothing,
}

/// What a drag, a pinch or the wheel acts on: the map, the panorama, or nothing
/// in the compass view.
pub fn drag_effect(mode: Mode) -> (e: DragEffect)
    ensures
        e == (match mode {
            Mode::MapView => DragEffect::Pan,
            Mode::Panorama => DragEffect::Scrub,
            Mode::Compass => DragEffect::Nothing,
        }),
{
    match mode {
        Mode::MapView => DragEffect::Pan,
        Mode::Panorama => DragEffect::Scrub,
        Mode::Compass => DragEffect::Nothing,
    }
}

/// A field of view brought between 20° and 160°.
pub fn clamp_fov(fov: Double) -> (r: Double)
    ensures
        r == fov.between(Double { bits: FOV_MIN_BITS }, Double { bits: FOV_MAX_BITS }),
{
    fov.clamp(Double { bits: FOV_MIN_BITS }, Double { bits: FOV_MAX_BITS })
}

/// A map scale (screen pixels per Mercator metre) brought between its limits.
pub fn clamp_zoom(zoom: Double) -> (r: Double)
    ensures
        r == zoom.between(Double { bits: ZOOM_MIN_BITS }, Double { bits: ZOOM_MAX_BITS }),
{
    zoom.clamp(Double { bits: ZOOM_MIN_BITS }, Double { bits: ZOOM_MAX_BITS })
}

/// The size to give the drawing surface when the window becomes `w` by `h`: none
/// while the window has no area.
pub fn surface_size(w: u32, h: u32) -> (r: Option<(u32, u32)>)
    ensures
        r == (if w == 0 || h == 0 {
            None::<(u32, u32)>
        } else {
            Some((w, h))
        }),
{
    if w == 0 || h == 0 {
        None
    } else {
        Some((w, h))
    }
}

/// Each key has its own layer or view, and no two keys switch the same layer.
pub proof fn keys_switch_their_own_layer(key: Key, other: Key)
    ensures
        switches(Key::E) == Some(Layer::Edges) && switches(Key::A) == Some(Layer::Artist),
        switches(Key::W) == Some(Layer::Water) && switches(Key::R) == Some(Layer::Roads),
        switches(Key::P) == Some(Layer::Paths) && switches(Key::L) == Some(Layer::Labels),
        switches(Key::K) == Some(Layer::Peaks) && switches(Key::N) == Some(Layer::PeakNames),
        switches(key) is None <==> key == Key::Escape || key == Key::V || key == Key::C,
        switches(key) is Some && switches(key) == switches(other) ==> key == other,
{
}

/// A key that switches a layer turns that layer over and changes nothing else; only roads
/// have the meshes built anew.
pub proof fn layer_keys_turn_their_layer_over(v: Viewer, key: Key, layer: Layer, other: Layer)
    requires
        switches(key) == Some(layer),
        key != Key::P || v.paths_loaded,
        other != layer,
    ensures
        ({
            let (after, asked) = v.pressed(key);
            &&& after.shown.has(layer) == !v.shown.has(layer)
            &&& after.shown.has(other) == v.shown.has(other)
            &&& after.mode == v.mode && after.has_pano == v.has_pano && after.paths_loaded
                == v.paths_loaded
            &&& asked == (Request::Switched {
                layer,
                on: !v.shown.has(layer),
                rebuild: layer == Layer::Roads,
                load: false,
            })
        }),
{
}

/// The first press of the paths' key loads the paths and shows them, whatever was shown.
pub proof fn paths_load_on_first_use(v: Viewer, other: Layer)
    requires
        !v.paths_loaded,
        other != Layer::Paths,
    ensures
        ({
            let (after, asked) = v.pressed(Key::P);
            &&& after.paths_loaded && after.shown.paths
            &&& after.shown.has(other) == v.shown.has(other)
            &&& after.mode == v.mode && after.has_pano == v.has_pano
            &&& asked == (Request::Switched { layer: Layer::Paths, on: true, rebuild: false, load: true })
        }),
{
}

/// The panorama's and the compass's keys lead to their view and, from there, back to the map.
/// From the map a horizon is always cast first; between the horizon views none is.
pub proof fn view_keys_lead_there_and_back(v: Viewer)
    requires
        v.valid(),
    ensures
        v.mode == Mode::MapView ==> v.pressed(Key::V) == (v, Request::Cast(Mode::Panorama))
            && v.pressed(Key::C) == (v, Request::Cast(Mode::Compass)),
        v.mode == Mode::Panorama ==> v.pressed(Key::V) == (
            Viewer { mode: Mode::MapView, ..v },
            Request::Redraw,
        ) && v.pressed(Key::C) == (Viewer { mode: Mode::Compass, ..v }, Request::Redraw),
        v.mode == Mode::Compass ==> v.pressed(Key::C) == (
            Viewer { mode: Mode::MapView, ..v },
            Request::Redraw,
        ) && v.pressed(Key::V) == (Viewer { mode: Mode::Panorama, ..v }, Request::Redraw),
{
}

/// After a cast the view is the one asked for exactly where there is a horizon; without one
/// nothing but that is noted.
pub proof fn a_failed_cast_changes_no_view(v: Viewer, target: Mode)
    ensures
        v.settled(target, true) == (Viewer { mode: target, has_pano: true, ..v }),
        target != Mode::MapView ==> v.settled(target, false) == (Viewer { has_pano: false, ..v }),
        v.settled(Mode::MapView, v.has_pano) == (Viewer { mode: Mode::MapView, ..v }),
        v.casts_for(target) <==> target != Mode::MapView && (v.mode == Mode::MapView || !v.has_pano),
{
}

/// The cycle goes from the map to the panorama, to the compass, and back; the button names
/// the view that comes next.
pub proof fn the_cycle_starts_at_the_map()
    ensures
        Mode::MapView.following() == Mode::Panorama,
        Mode::Panorama.following() == Mode::Compass,
        Mode::Compass.following() == Mode::MapView,
        Mode::MapView.caption() == "MAP"@,
        Mode::Panorama.caption() == "PANORAMA"@,
        Mode::Compass.caption() == "COMPASS"@,
{
}

/// A finger that moves keeps its place in the list; one that lands comes last. No other
/// finger changes, and lifting one leaves the others in their order.
pub proof fn other_fingers_stay(fingers: Seq<Finger>, id: u64, at: Spot, i: int)
    requires
        distinct(fingers),
        0 <= i < fingers.len(),
    ensures
        fingers[i].id == id ==> put(fingers, id, at) == fingers.update(i, Finger { id, at }),
        fingers[i].id != id ==> put(fingers, id, at)[i] == fingers[i],
        fingers[i].id == id ==> lifted(fingers, id) == fingers.remove(i),
        (forall|j: int| 0 <= j < fingers.len() ==> (#[trigger] fingers[j]).id != id) ==> put(
            fingers,
            id,
            at,
        ) == fingers.push(Finger { id, at }) && lifted(fingers, id) == fingers,
{
    lemma_finger_at(fingers, id, 0);
    if let Some(j) = finger_at(fingers, id, 0) {
        if fingers[i].id == id && i != j {
            assert(fingers[i].id != fingers[j].id || i == j);
        }
    }
}

/// Two fingers, and no other number, are measured: the first and the second that landed.
pub proof fn only_two_fingers_are_measured(fingers: Seq<Finger>)
    ensures
        fingers.len() == 2 ==> baseline(fingers) == (Gesture::Measure {
            a: fingers[0].at,
            b: fingers[1].at,
        }),
        fingers.len() != 2 ==> baseline(fingers) == Gesture::Nothing,
{
}

/// The button is hit on its edges too, and nowhere beyond them.
pub proof fn buttons_include_their_edges(
    x: Single,
    y: Single,
    left: Single,
    top: Single,
    right: Single,
    bottom: Single,
    r: bool,
)
    requires
        call_ensures(hit_mode_button, (x, y, left, top, right, bottom), r),
        !x.nan() && !y.nan() && !left.nan() && !top.nan() && !right.nan() && !bottom.nan(),
    ensures
        r <==> !x.below(left) && !right.below(x) && !y.below(top) && !bottom.below(y),
{
}

/// The map pans, the panorama turns, and the compass stays as it is.
pub proof fn drags_act_on_the_view(mode: Mode, e: DragEffect)
    requires
        call_ensures(drag_effect, (mode,), e),
    ensures
        e == DragEffect::Pan <==> mode == Mode::MapView,
        e == DragEffect::Scrub <==> mode == Mode::Panorama,
        e == DragEffect::Nothing <==> mode == Mode::Compass,
{
}

/// A window with an area is drawn at its own size; one without is not drawn.
pub proof fn surfaces_have_the_windows_size(w: u32, h: u32, r: Option<(u32, u32)>)
    requires
        call_ensures(surface_size, (w, h), r),
    ensures
        r is Some <==> w > 0 && h > 0,
        r matches Some(s) ==> s.0 == w && s.1 == h,
{
}

/// The field of view stays between 20 and 160 degrees, and the scale between a
/// ten-thousandth and five; inside these limits they are what was asked for.
pub proof fn views_stay_in_their_limits(fov: Double, zoom: Double, f: Double, z: Double)
    requires
        call_ensures(clamp_fov, (fov,), f),
        call_ensures(clamp_zoom, (zoom,), z),
        !fov.nan() && !zoom.nan(),
    ensures
        ({
            let (low, high) = (
                Double { bits: 0x4034_0000_0000_0000 },
                Double { bits: 0x4064_0000_0000_0000 },
            );
            &&& low.at_most(f) && f.at_most(high)
            &&& low.at_most(fov) && fov.at_most(high) ==> f == fov
            &&& fov.below(low) ==> f == low
        }),
        ({
            let (low, high) = (
                Double { bits: 0x3f1a_36e2_eb1c_432d },
                Double { bits: 0x4014_0000_0000_0000 },
            );
            &&& low.at_most(z) && z.at_most(high)
            &&& low.at_most(zoom) && zoom.at_most(high) ==> z == zoom
            &&& zoom.below(low) ==> z == low
        }),
{
}

/// The legend says of each of its five layers whether it is shown, under its own key.
pub proof fn legends_say_what_is_shown(v: &Viewer, lines: Vec<(&'static str, bool)>)
    requires
        call_ensures(Viewer::legend, (v,), lines),
    ensures
        lines.len() == 5,
        lines@[0].0@ == "R  roads"@ && lines@[0].1 == v.shown.has(Layer::Roads),
        lines@[1].0@ == "P  paths"@ && lines@[1].1 == v.shown.has(Layer::Paths),
        lines@[2].0@ == "L  labels"@ && lines@[2].1 == v.shown.has(Layer::Labels),
        lines@[3].0@ == "K  peaks"@ && lines@[3].1 == v.shown.has(Layer::Peaks),
        lines@[4].0@ == "N  peak names"@ && lines@[4].1 == v.shown.has(Layer::PeakNames),
{
}

/// A press without a finger down starts a drag from where the cursor is; the next move drags
/// from there, and the one after goes on from where that ended. Letting go ends it.
pub proof fn mouse_drags_last_while_the_button_is_held(
    p: PointerView,
    from: Spot,
    to: Spot,
    on: Spot,
    on_button: bool,
)
    requires
        p.cursor == Some(from),
        p.fingers.len() == 0,
    ensures
        ({
            let pressed = p.clicked(true, false).0;
            let (first, drag) = pressed.moved(to);
            &&& p.clicked(true, false).1 == Gesture::Nothing
            &&& drag == (Gesture::Drag { from, to })
            &&& first.moved(on).1 == (Gesture::Drag { from: to, to: on })
            &&& first.clicked(false, on_button).1 == Gesture::Nothing
            &&& first.clicked(false, on_button).0.moved(on).1 == Gesture::Nothing
        }),
{
}

/// The mouse drags nothing without the button held, while a finger is down, or before the
/// cursor was anywhere; wherever it goes, it is then there.
pub proof fn the_mouse_drags_nothing_else(p: PointerView, to: Spot)
    ensures
        !p.dragging || p.fingers.len() > 0 || p.last_cursor is None ==> p.moved(to).1
            == Gesture::Nothing,
        p.moved(to).0.cursor == Some(to) && p.moved(to).0.last_cursor == Some(to),
        p.moved(to).0.dragging == p.dragging && p.moved(to).0.fingers == p.fingers
            && p.moved(to).0.pinch == p.pinch,
        p.fingers.len() > 0 ==> !p.clicked(true, false).0.dragging,
{
}

/// A press on the mode button, or a tap on it while no other finger is down, switches the mode
/// and does nothing else.
pub proof fn the_mode_button_switches(p: PointerView, id: u64, at: Spot)
    ensures
        p.cursor is Some ==> p.clicked(true, true) == (p, Gesture::Toggle),
        p.clicked(false, true).1 == Gesture::Nothing,
        p.fingers.len() == 0 ==> p.landed(id, at, true) == (p, Gesture::Toggle),
        p.fingers.len() > 0 ==> p.landed(id, at, true) == p.landed(id, at, false),
        p.landed(id, at, false).1 != Gesture::Toggle,
{
}

/// One finger drags from where it was: first from where it landed, then from where it last was.
/// Landing ends a mouse drag.
pub proof fn one_finger_drags(p: PointerView, id: u64, a: Spot, b: Spot, c: Spot, to: Spot)
    requires
        p.fingers.len() == 0,
    ensures
        ({
            let (down, g) = p.landed(id, a, false);
            let (along, first) = down.slid(id, b);
            &&& g == Gesture::Nothing
            &&& first == (Gesture::Drag { from: a, to: b })
            &&& along.slid(id, c).1 == (Gesture::Drag { from: b, to: c })
            &&& !down.dragging && down.moved(to).1 == Gesture::Nothing
            &&& along.raised(id).0.fingers.len() == 0
        }),
{
    let down = p.landed(id, a, false).0;
    let along = down.slid(id, b).0;
    lemma_finger_at(p.fingers, id, 0);
    lemma_finger_at(down.fingers, id, 0);
    assert(down.fingers[0].id == id);
    lemma_finger_at(along.fingers, id, 0);
    assert(along.fingers[0].id == id);
}

/// A second finger is measured against the first; moving either pinches, with the reference
/// set last, and keeps the order in which they landed.
pub proof fn two_fingers_pinch(p: PointerView, f: Finger, id: u64, at: Spot, to: Spot)
    requires
        p.fingers == seq![f],
        f.id != id,
    ensures
        ({
            let (down, g) = p.landed(id, at, false);
            &&& g == (Gesture::Measure { a: f.at, b: at })
            &&& down.pinch is None
            &&& down.slid(id, to).1 == (Gesture::Pinched { a: f.at, b: to, since: None })
            &&& down.slid(f.id, to).1 == (Gesture::Pinched { a: to, b: at, since: None })
            &&& down.slid(id, to).0.pinch == down.pinch
        }),
        forall|r: Pinch|
            ({
                let down = #[trigger] with_reference(p.landed(id, at, false).0, r);
                down.slid(id, to).1 == (Gesture::Pinched { a: f.at, b: to, since: Some(r) })
            }),
{
    let down = p.landed(id, at, false).0;
    lemma_finger_at(p.fingers, id, 0);
    lemma_finger_at(down.fingers, id, 0);
    lemma_finger_at(down.fingers, f.id, 0);
    assert(down.fingers[0] == f && down.fingers[1].id == id);
}

/// The pointer with the two-finger reference set.
pub open spec fn with_reference(p: PointerView, r: Pinch) -> PointerView {
    PointerView { pinch: Some(r), ..p }
}

/// Three fingers or more do nothing as they move. When fingers leave, two that remain are
/// measured anew, and any other number does nothing.
pub proof fn more_fingers_do_nothing(p: PointerView, i: int, to: Spot)
    requires
        distinct(p.fingers),
        0 <= i < p.fingers.len(),
    ensures
        p.fingers.len() > 2 ==> p.slid(p.fingers[i].id, to).1 == Gesture::Nothing,
        ({
            let (up, g) = p.raised(p.fingers[i].id);
            &&& up.fingers == p.fingers.remove(i)
            &&& up.pinch is None
            &&& p.fingers.len() == 3 ==> g == (Gesture::Measure {
                a: p.fingers.remove(i)[0].at,
                b: p.fingers.remove(i)[1].at,
            })
            &&& p.fingers.len() != 3 ==> g == Gesture::Nothing
        }),
{
    other_fingers_stay(p.fingers, p.fingers[i].id, to, i);
}

}
