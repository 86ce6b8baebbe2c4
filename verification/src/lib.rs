//! Verified core of the solid-gpui host: application activation delivery,
//! host launch options, motion preference policy, native type validation and
//! the bounded schema rules of the native components.
pub mod text;
pub mod lifecycle;
pub mod type_validation;
pub mod motion;
pub mod host;
pub mod questionnaire;
pub mod native;
pub mod components;
pub mod settings;
pub mod keys;
pub mod tree;
pub mod icons;
pub mod surfaces;
pub mod popups;
pub mod pump;
pub mod rows;
pub mod exports;
