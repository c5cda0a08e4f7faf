pub mod app_config;
pub mod config;
pub mod commit_proxy_model;
pub mod file_diff_proxy_models;
pub mod files_proxy_model;
pub mod git_utils;
pub mod repository;
pub mod id_model;
pub mod notes;
pub mod notes_proxy_models;
pub mod sorting;
pub mod strutil;
pub mod sys;
pub mod project;
