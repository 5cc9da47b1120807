pub mod change;
pub mod document;
pub mod edit;
pub mod env;
pub mod flat;
pub mod inlays;
pub mod layout;
pub mod midi;
pub mod point;
pub mod selection;
pub mod session;
pub mod text;
pub mod token;
