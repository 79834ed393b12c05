//! The logic of a payment service: credits, idempotent debits, and debits that are parked until
//! a credit covers them or their deadline passes.
//!
//! | Module             | Contents                                                        |
//! |--------------------|-----------------------------------------------------------------|
//! | [`models`]         | The data that requests, events and statements are made of       |
//! | [`time`], [`ids`]  | Instants and identifiers as integers, and their text            |
//! | [`text`]           | The order of texts                                              |
//! | [`cache`]          | The bounded cache under the two stores                          |
//! | [`pending_store`]  | The parked debits; their laws are in [`pending_laws`]           |
//! | [`event_store`]    | The queued outbound events; their laws are in [`event_laws`]    |
//! | [`repository`]     | The rules of the durable tables                                 |
//! | [`statement`]      | Statements; their laws are in [`statement_laws`]                |
//! | [`service`]        | The flows of credits and debits; their laws are in              |
//! |                    | [`service_laws`]                                                |
//! | [`ledger`]         | What holds of the service and its tables together               |
//! | [`run_laws`]       | What holds over whole runs                                      |
//! | [`seqs`]           | Facts about sequences                                           |

pub mod cache;
pub mod event_laws;
pub mod event_store;
pub mod ids;
pub mod ledger;
pub mod models;
pub mod pending_laws;
pub mod pending_store;
pub mod repository;
pub mod run_laws;
pub mod seqs;
pub mod service;
pub mod service_laws;
pub mod statement;
pub mod statement_laws;
pub mod text;
pub mod time;
