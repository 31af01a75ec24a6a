pub mod admin;
pub mod broker;
pub mod buffer;
pub mod checksum;
pub mod cli;
pub mod client;
pub mod cluster;
pub mod config;
pub mod consumer;
pub mod endian;
pub mod group_requests;
pub mod groups;
pub mod history;
pub mod jobs;
pub mod leadership;
pub mod messages;
pub mod metrics;
pub mod observability;
pub mod producers;
pub mod promotion;
pub mod protocol;
pub mod record;
pub mod replication;
pub mod retry;
pub mod serving;
pub mod sorted;
pub mod storage;
pub mod text;
