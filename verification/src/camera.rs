//! The camera: where on the screen a body is shown, and how wheel and
//! pointer move and scale the view. Screen coordinates and the scale are
//! binary32 patterns.
use crate::consts::KM_IN_PX;
use crate::ieee::arith::{div_spec, fdiv, fsub, sub_spec};
use crate::ieee::convert::{narrow, narrow_spec};
use crate::ieee::format::Format;
use crate::ieee::single::{add32, div32, fadd32, fdiv32, fmul32, fsub32, less32, lt32, mul32, sub32};
use crate::vector::Vector2;
use vstd::prelude::*;

verus! {

/// The scale at the start: 2.5.
pub const START_SCALE: u32 = 0x4020_0000;

/// The scale after a reset: 1.
pub const UNIT_SCALE: u32 = 0x3f80_0000;

/// By what share of itself one notch of the wheel changes the scale: the
/// binary32 nearest to 0.1.
pub const ZOOM_FACTOR: u32 = 0x3dcc_cccd;

/// The same share, negative.
pub const ZOOM_FACTOR_BACK: u32 = 0xbdcc_cccd;

/// How far a label stands from its body, in units of length, as a binary64
/// pattern: the binary64 nearest to 0.05.
pub const LABEL_OFFSET: u64 = 0x3fa9_9999_9999_999a;

/// A point of the screen.
#[derive(Clone, Copy, Debug, PartialEq, Eq, Structural)]
pub struct Point {
    pub x: u32,
    pub y: u32,
}

/// The view: its scale, where the origin of the world lies on the screen,
/// where a drag was last seen (while a button is down) and where the pointer
/// was last seen.
#[derive(Clone, Copy, Debug, PartialEq, Eq, Structural)]
pub struct Camera {
    pub world_scale: u32,
    pub scene_position: Point,
    pub last_mouse_position: Option<Point>,
    pub curr_mouse_position: Option<Point>,
}

impl Point {
    /// The point of two positive zeros.
    pub open spec fn origin() -> Point {
        Point { x: 0, y: 0 }
    }
}

/// One coordinate of the scene after a zoom about `mouse`: the distance from
/// the pointer keeps its share of the scale.
pub open spec fn zoomed_coordinate(scene: u32, mouse: u32, prev_scale: u32, scale: u32) -> u32 {
    add32(mouse, mul32(div32(sub32(scene, mouse), prev_scale), scale))
}

/// One coordinate of a position on the screen: the coordinate in units of
/// length, less `offset`, taken to single precision, scaled and moved.
pub open spec fn projected(coordinate: u64, offset: Option<u64>, scale: u32, scene: u32) -> u32 {
    let length = div_spec(Format::Binary64, coordinate as nat, KM_IN_PX as nat);
    let shifted = match offset {
        Some(o) => sub_spec(Format::Binary64, length, o as nat),
        None => length,
    };
    add32(mul32(narrow_spec(shifted) as u32, scale), scene)
}

impl Camera {
    /// The camera after a zoom by the share `zoom_delta` of the scale, about
    /// the pointer (about the origin of the screen while no pointer was
    /// seen).
    pub open spec fn zoomed(self, zoom_delta: u32) -> Camera {
        let scale = add32(self.world_scale, mul32(zoom_delta, self.world_scale));
        let mouse = match self.curr_mouse_position {
            Some(p) => p,
            None => Point::origin(),
        };
        Camera {
            world_scale: scale,
            scene_position: Point {
                x: zoomed_coordinate(self.scene_position.x, mouse.x, self.world_scale, scale),
                y: zoomed_coordinate(self.scene_position.y, mouse.y, self.world_scale, scale),
            },
            last_mouse_position: self.last_mouse_position,
            curr_mouse_position: self.curr_mouse_position,
        }
    }

    /// The camera after the drag has reached `mouse`: the scene moves by as
    /// much as the pointer moved since the drag was last seen, and the drag
    /// is now seen at `mouse`.
    pub open spec fn dragged(self, mouse: Point) -> Camera {
        let scene = match self.last_mouse_position {
            Some(last) => Point {
                x: sub32(self.scene_position.x, sub32(last.x, mouse.x)),
                y: sub32(self.scene_position.y, sub32(last.y, mouse.y)),
            },
            None => self.scene_position,
        };
        Camera {
            world_scale: self.world_scale,
            scene_position: scene,
            last_mouse_position: Some(mouse),
            curr_mouse_position: self.curr_mouse_position,
        }
    }

    /// The camera after the wheel turned by `y`: a zoom in for a positive
    /// `y`, out for a negative one, none otherwise.
    pub open spec fn wheeled(self, y: u32) -> Camera {
        if lt32(0, y) {
            self.zoomed(ZOOM_FACTOR)
        } else if lt32(y, 0) {
            self.zoomed(ZOOM_FACTOR_BACK)
        } else {
            self
        }
    }

    /// The camera after the pointer moved to `mouse`: a drag under way
    /// follows, and the pointer is now seen at `mouse`.
    pub open spec fn moved(self, mouse: Point) -> Camera {
        let c = if self.last_mouse_position is Some {
            self.dragged(mouse)
        } else {
            self
        };
        Camera {
            world_scale: c.world_scale,
            scene_position: c.scene_position,
            last_mouse_position: c.last_mouse_position,
            curr_mouse_position: Some(mouse),
        }
    }

    /// Where a position of the world is shown.
    pub open spec fn shown_at(self, position: Vector2, offset: Option<u64>) -> Point {
        Point {
            x: projected(position.x, offset, self.world_scale, self.scene_position.x),
            y: projected(position.y, offset, self.world_scale, self.scene_position.y),
        }
    }

    /// The camera at the start, for a window of the given size: the origin
    /// of the world in the middle.
    pub fn new(width: u32, height: u32) -> (r: Camera)
        ensures
            r == (Camera {
                world_scale: START_SCALE,
                scene_position: Point {
                    x: div32(width, 0x4000_0000),
                    y: div32(height, 0x4000_0000),
                },
                last_mouse_position: None,
                curr_mouse_position: None,
            }),
    {
        Camera {
            world_scale: START_SCALE,
            scene_position: Point { x: fdiv32(width, 0x4000_0000), y: fdiv32(height, 0x4000_0000) },
            last_mouse_position: None,
            curr_mouse_position: None,
        }
    }

    /// Zooms by the share `zoom_delta` of the scale, about the pointer.
    pub fn zoom(&mut self, zoom_delta: u32)
        ensures
            *final(self) == old(self).zoomed(zoom_delta),
    {
        let prev_scale = self.world_scale;
        let scale = fadd32(prev_scale, fmul32(zoom_delta, prev_scale));
        let mouse = match self.curr_mouse_position {
            Some(p) => p,
            None => Point { x: 0, y: 0 },
        };
        let dx = fsub32(self.scene_position.x, mouse.x);
        let dy = fsub32(self.scene_position.y, mouse.y);
        self.world_scale = scale;
        self.scene_position = Point {
            x: fadd32(mouse.x, fmul32(fdiv32(dx, prev_scale), scale)),
            y: fadd32(mouse.y, fmul32(fdiv32(dy, prev_scale), scale)),
        };
    }

    /// Follows a drag to `mouse`.
    pub fn update_scene_position(&mut self, mouse: Point)
        ensures
            *final(self) == old(self).dragged(mouse),
    {
        match self.last_mouse_position {
            Some(last) => {
                let dx = fsub32(last.x, mouse.x);
                let dy = fsub32(last.y, mouse.y);
                self.scene_position = Point {
                    x: fsub32(self.scene_position.x, dx),
                    y: fsub32(self.scene_position.y, dy),
                };
            },
            None => {},
        }
        self.last_mouse_position = Some(mouse);
    }

    /// Takes a turn of the wheel by `y`.
    pub fn mouse_wheel(&mut self, y: u32)
        ensures
            *final(self) == old(self).wheeled(y),
    {
        if less32(0, y) {
            self.zoom(ZOOM_FACTOR);
        } else if less32(y, 0) {
            self.zoom(ZOOM_FACTOR_BACK);
        }
    }

    /// Takes a move of the pointer to `mouse`.
    pub fn mouse_motion(&mut self, mouse: Point)
        ensures
            *final(self) == old(self).moved(mouse),
    {
        if self.last_mouse_position.is_some() {
            self.update_scene_position(mouse);
        }
        self.curr_mouse_position = Some(mouse);
    }

    /// Ends a drag.
    pub fn mouse_button_up(&mut self)
        ensures
            *final(self) == (Camera { last_mouse_position: None, ..*old(self) }),
    {
        self.last_mouse_position = None;
    }

    /// Goes back to a scale of one with the origin of the world in the
    /// corner of the screen.
    pub fn reset(&mut self)
        ensures
            *final(self) == (Camera {
                world_scale: UNIT_SCALE,
                scene_position: Point::origin(),
                ..*old(self)
            }),
    {
        self.world_scale = UNIT_SCALE;
        self.scene_position = Point { x: 0, y: 0 };
    }

    /// Where a position of the world is shown; with an `offset`, where what
    /// stands that far up and left of it is shown.
    pub fn project(&self, position: Vector2, offset: Option<u64>) -> (r: Point)
        ensures
            r == self.shown_at(position, offset),
    {
        Point {
            x: project_coordinate(position.x, offset, self.world_scale, self.scene_position.x),
            y: project_coordinate(position.y, offset, self.world_scale, self.scene_position.y),
        }
    }

    /// The radius of a body on the screen.
    pub fn shown_radius(&self, radius: u32) -> (r: u32)
        ensures
            r == mul32(radius, self.world_scale),
    {
        fmul32(radius, self.world_scale)
    }
}

/// One coordinate of a position on the screen.
pub fn project_coordinate(coordinate: u64, offset: Option<u64>, scale: u32, scene: u32) -> (r: u32)
    ensures
        r == projected(coordinate, offset, scale, scene),
{
    let length = fdiv(Format::Binary64, coordinate, KM_IN_PX);
    let shifted = match offset {
        Some(o) => fsub(Format::Binary64, length, o),
        None => length,
    };
    fadd32(fmul32(narrow(shifted), scale), scene)
}

} // verus!
