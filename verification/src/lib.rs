//! Agent lifecycle modelled as a category: knowledge sets, filtered lifetime
//! diagrams whose colimit is the sunset state, spawning as a pullback of two
//! parents over a shared interface, conservation signatures, connected
//! components, kintsugi repair and generation tracking.

pub mod keys;
pub mod strmap;
pub mod knowledge;
pub mod agent;
pub mod diagram;
pub mod spawn;
pub mod conservation;
pub mod components;
pub mod kintsugi;
pub mod generation;
pub mod order_facts;
pub mod plato;
pub mod laws;
