pub mod endpoint;
pub mod forms;
pub mod payload;
pub mod routes;
pub mod service_discovery;
pub mod text;
