pub mod handshake;
