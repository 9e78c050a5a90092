//! Frame planning for a layered 2.5D renderer driven by an entity/component scene.
//!
//! The scene is handed to the library as a [`scene::Scene`] snapshot: one record per
//! entity, with its parent, its ordered children and the components that matter for
//! drawing. From it the library selects the camera, resolves blend nodes, suppresses
//! inactive subtrees, orders everything by depth and returns the flat lists that the
//! rasterizer draws.
use vstd::prelude::*;

pub mod camera;
pub mod collect;
pub mod frame;
pub mod resolve;
pub mod scene;

pub use camera::RenderError;
pub use collect::EntityDepthItem;
pub use frame::FramePlan;
pub use resolve::{DrawItem, LightItem};
pub use scene::{
    AnimationClock, BlendComponent, DrawableKind, DrawableSet, LightKind, LightSet, Node, NotActive,
    Scene,
};
