pub mod config;
pub mod environment;
pub mod genetics;
pub mod history;
pub mod i18n;
pub mod mating;
pub mod perception;
pub mod population;
pub mod random;
pub mod substrate;
pub mod world;
