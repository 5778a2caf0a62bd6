//! A DNS message codec: decoding a raw UDP datagram into a structured DNS
//! message (header, question, resource records) and encoding a structured
//! message back into wire bytes, including the domain-name compression
//! scheme shared by both directions.

pub mod dnserror;
pub mod dnsmessage;
pub mod packetbuf;
