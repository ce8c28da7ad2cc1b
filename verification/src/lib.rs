//! Building blocks of a high-rate IPv4 Minecraft server scanner.

pub mod http;
pub mod ip;
pub mod ipv4;
pub mod ipv6;
pub mod job;
pub mod limits;
pub mod live;
pub mod modular;
pub mod num;
pub mod page;
pub mod ping;
pub mod reach;
pub mod reply;
pub mod run;
pub mod scan;
pub mod shown;
pub mod sort;
pub mod state;
pub mod strmap;
pub mod syn;
pub mod talk;
pub mod text;
pub mod web;
pub mod wire;
