pub mod bytes;
pub mod crypt;
pub mod rc4;
pub mod reader;
pub mod text;
pub mod writer;
pub mod component;
pub mod db;
pub mod object;
pub mod session;
pub mod config;
pub mod room;
pub mod packet;
pub mod server;
pub mod on_room;
pub mod on_game;
pub mod on_lobby;
pub mod timer;
pub mod turn_table;
pub mod hash;
pub mod before_login;
pub mod after_login;
pub mod status;
pub mod login;
pub mod guard;
pub mod consistency;
pub mod conn;
