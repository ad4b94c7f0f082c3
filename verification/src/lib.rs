//! Network traffic monitoring.
pub mod address;
pub mod args;
pub mod bytes;
pub mod capture;
pub mod connection_laws;
pub mod counts;
pub mod devices;
pub mod dns;
pub mod dns_laws;
pub mod interfaces;
pub mod ip_text;
pub mod layout;
pub mod live;
pub mod monitor;
pub mod netstat;
pub mod number;
pub mod order;
pub mod packet;
pub mod packet_laws;
pub mod proc_laws;
pub mod proc_table;
pub mod ranking_laws;
pub mod report;
pub mod report_laws;
pub mod scale;
pub mod socket;
pub mod split;
pub mod text;
pub mod text_laws;
pub mod tls;
pub mod tls_laws;
