pub mod json;
pub mod text;
pub mod table;
pub mod labels;
pub mod traefik_config;
pub mod entities;
pub mod ingress;
pub mod api;
