//! A resource-dependency mediator: producers declare identity-stable
//! resources, consumers ask for them once or on every change, and a central
//! coordinator deduplicates production and fans results out to subscribers.

mod consumer;
mod host;
pub mod laws;
mod manifest;
mod mediator;
mod resource;

pub use consumer::Consumer;
pub use consumer::ConsumerRef;
pub use consumer::ConsumerRegistry;
pub use consumer::Delivery;
pub use consumer::Outcome;
pub use host::Host;
pub use host::ScriptedHost;
pub use manifest::Entry;
pub use manifest::EntryView;
pub use manifest::Manifest;
pub use manifest::Tag;
pub use mediator::completed_state;
pub use mediator::fanout_log;
pub use mediator::on_change_only;
pub use mediator::one_shots;
pub use mediator::outcome_of;
pub use mediator::resolved_view;
pub use mediator::run_effect;
pub use mediator::state_view;
pub use mediator::sub_view;
pub use mediator::sub_views;
pub use mediator::survivors;
pub use mediator::Mediator;
pub use mediator::Mode;
pub use mediator::ProductionState;
pub use mediator::StateView;
pub use mediator::SubView;
pub use mediator::Subscription;
pub use resource::Metadata;
pub use resource::Resource;
pub use resource::ResourceId;
pub use resource::ResourceView;
pub use resource::ShapeMismatch;
