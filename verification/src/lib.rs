//! A minimal archetype-based entity-component-system core.
//!
//! Entities are numeric identifiers; components are plain values tagged with a
//! kind token; entities sharing the same set of component kinds are stored
//! together in an [`archetype::Archetype`], one dense column per kind.  The
//! [`world::World`] routes each spawned entity to the archetype matching its
//! bundle's kind set, and the [`app::App`] scheduler drives registered systems
//! over the world in ordered phases.

pub mod app;
pub mod archetype;
pub mod component;
pub mod entity;
pub mod world;
