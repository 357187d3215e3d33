//! The fixed pinhole camera: eye at the origin, looking down the negative
//! z axis through a 16:9 viewport of height 2 at focal distance 1.
use vstd::prelude::*;

use crate::Point;
use crate::Ray;
use crate::algebra::Vec3;
use crate::algebra::vadd;
use crate::algebra::vdiv;
use crate::algebra::vmul;
use crate::algebra::vsub;
use crate::algebra::vec_wf;
use crate::fixed::Fx;
use crate::fixed::SCALE;
use crate::fixed::fdiv;
use crate::fixed::fmul;
use crate::fixed::fx_wf;

verus! {

/// The derived fixed state of the camera.
#[derive(Clone, Copy, PartialEq, Eq, Structural, Debug)]
pub struct Camera {
    pub origin: Point,
    pub lower_left_corner: Point,
    pub horizontal: Vec3,
    pub vertical: Vec3,
}

/// All four stored vectors are on the grid.
pub open spec fn cam_wf(c: Camera) -> bool {
    &&& vec_wf(c.origin)
    &&& vec_wf(c.lower_left_corner)
    &&& vec_wf(c.horizontal)
    &&& vec_wf(c.vertical)
}

/// The camera state `Camera::new` derives: viewport width from the 16:9
/// aspect ratio and height 2, spans along the image axes, and the lower-left
/// corner one focal length in front of the eye.
pub open spec fn camera_spec() -> Camera {
    let aspect_ratio = fdiv(Fx { v: (16 * SCALE) as i128 }, Fx { v: (9 * SCALE) as i128 });
    let viewport_height = Fx { v: (2 * SCALE) as i128 };
    let viewport_width = fmul(aspect_ratio, viewport_height);
    let focal_length = Fx { v: SCALE };
    let origin = Vec3 { x: Fx { v: 0 }, y: Fx { v: 0 }, z: Fx { v: 0 } };
    let horizontal = Vec3 { x: viewport_width, y: Fx { v: 0 }, z: Fx { v: 0 } };
    let vertical = Vec3 { x: Fx { v: 0 }, y: viewport_height, z: Fx { v: 0 } };
    let two = Fx { v: (2 * SCALE) as i128 };
    let lower_left_corner = vsub(
        vsub(vsub(origin, vdiv(horizontal, two)), vdiv(vertical, two)),
        Vec3 { x: Fx { v: 0 }, y: Fx { v: 0 }, z: focal_length },
    );
    Camera { origin, lower_left_corner, horizontal, vertical }
}

/// The ray `cast_ray` returns: from the eye toward the viewport point at
/// normalized image coordinates `(u, v)`.
pub open spec fn cast_ray_spec(c: Camera, u: Fx, v: Fx) -> Ray {
    Ray {
        origin: c.origin,
        direction: vsub(
            vadd(vadd(c.lower_left_corner, vmul(c.horizontal, u)), vmul(c.vertical, v)),
            c.origin,
        ),
    }
}

impl Camera {
    /// The fixed pinhole camera of this renderer.
    pub fn new() -> (r: Camera)
        ensures
            r == camera_spec(),
            cam_wf(r),
    {
        let aspect_ratio = Fx::from_int(16).div(Fx::from_int(9));
        let viewport_height = Fx::from_int(2);
        let viewport_width = aspect_ratio.mul(viewport_height);
        let focal_length = Fx::from_int(1);

        let origin = Vec3::zero();
        let horizontal = Vec3::new(viewport_width, Fx::zero(), Fx::zero());
        let vertical = Vec3::new(Fx::zero(), viewport_height, Fx::zero());
        let two = Fx::from_int(2);
        let lower_left_corner = origin
            .sub(horizontal.div(two))
            .sub(vertical.div(two))
            .sub(Vec3::new(Fx::zero(), Fx::zero(), focal_length));

        Camera { origin, lower_left_corner, horizontal, vertical }
    }

    /// The ray from the eye through normalized viewport coordinates `(u, v)`.
    pub fn cast_ray(&self, u: Fx, v: Fx) -> (r: Ray)
        requires
            cam_wf(*self),
            fx_wf(u),
            fx_wf(v),
        ensures
            r == cast_ray_spec(*self, u, v),
    {
        Ray {
            origin: self.origin,
            direction: self
                .lower_left_corner
                .add(self.horizontal.mul(u))
                .add(self.vertical.mul(v))
                .sub(self.origin),
        }
    }
}

} // verus!
