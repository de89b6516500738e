/// What a server decides around one connection.
pub mod connection;
