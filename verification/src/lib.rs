//! Fase: a content-addressed build system run by a Kubernetes controller.
//!
//! The library holds the controller's logic: label and selector rules, the
//! validation of Tasks, the resolution of a Request into a graph of Recipes
//! and Tasks, the content identity of Artifacts, the request generator's
//! schedule and matrix, the template renderer and the decisions of the Run
//! state machine.
#![allow(unused_imports)]

pub mod text;
pub mod json;
pub mod strmap;
pub mod labels;
pub mod numbers;
pub mod sha;
pub mod api;
pub mod paths;
pub mod validate;
pub mod named;
pub mod resolve;
pub mod storage;
pub mod transfer;
pub mod job;
pub mod controller;
pub mod generator;
pub mod eval;
pub mod content;
pub mod runtime;
pub mod kustomize;
pub mod local_build;
