//! Selection of the camera that a frame is drawn through.
use vstd::prelude::*;
use crate::scene::{Node, Scene, SceneView};

verus! {

/// Conditions that stop a frame.
#[derive(Clone, Copy, PartialEq, Eq, Structural, Debug)]
pub enum RenderError {
    /// No entity of the scene carries a camera.
    NoCamera,
}

/// A camera that can be drawn through: active, on an entity with a transform.
pub open spec fn selectable(n: Node) -> bool {
    n.camera == Some(true) && n.depth is Some
}

pub open spec fn has_camera(v: SceneView) -> bool {
    exists|e: int| v.valid(e) && (#[trigger] v.nodes[e]).camera is Some
}

/// What camera selection returns on `v`: the first selectable camera; `None` when
/// cameras exist but none is selectable; the error when there is no camera at all.
pub open spec fn camera_choice(v: SceneView, r: Result<Option<usize>, RenderError>) -> bool {
    match r {
        Err(RenderError::NoCamera) => !has_camera(v),
        Ok(Some(c)) => {
            &&& v.valid(c as int)
            &&& selectable(v.nodes[c as int])
            &&& forall|e: int| 0 <= e < c ==> !selectable(#[trigger] v.nodes[e])
        },
        Ok(None) => {
            &&& has_camera(v)
            &&& forall|e: int| v.valid(e) ==> !selectable(#[trigger] v.nodes[e])
        },
    }
}

impl Scene {
    /// Finds the camera to draw through: the first entity whose camera is active and
    /// that has a transform.
    pub fn get_camera(&self) -> (r: Result<Option<usize>, RenderError>)
        ensures
            camera_choice(self@, r),
    {
        let n = self.nodes.len();
        let mut seen = false;
        let mut e: usize = 0;
        while e < n
            invariant
                n == self@.len(),
                e <= n,
                seen <==> exists|x: int| 0 <= x < e && (#[trigger] self@.nodes[x]).camera is Some,
                forall|x: int| 0 <= x < e ==> !selectable(#[trigger] self@.nodes[x]),
            decreases n - e,
        {
            let node = self.nodes[e];
            match node.camera {
                Some(active) => {
                    seen = true;
                    if active && node.depth.is_some() {
                        return Ok(Some(e));
                    }
                },
                None => {},
            }
            e += 1;
        }
        if seen {
            Ok(None)
        } else {
            Err(RenderError::NoCamera)
        }
    }
}

} // verus!
