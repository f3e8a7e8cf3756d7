pub mod outbound_session;
