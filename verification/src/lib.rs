//! A deterministic total-ordering engine for a certified DAG of block
//! certificates (a Bullshark-style commit rule over a Narwhal-style mempool
//! DAG).
//!
//! Validators build a DAG of certificates, at most one per authority and
//! round.  This library consumes those certificates in any causally valid
//! arrival order and deterministically emits a totally ordered stream of
//! committed sub-DAGs.  Every contract is stated over the DAG *as a set* of
//! certificates, so the committed output is provably a function of the
//! observed DAG and the scalar state alone: arrival order never leaks in.
//!
//! The commit rule lives in [`bullshark`], over the certificate store of
//! [`dag`], the committee model of [`committee`], the running state of
//! [`state`], and the durable records and recovery of [`store`] with the
//! key encoding of [`codec`].  The crate also carries the pure decision
//! logic of the components around the engine in a running node: the ordered
//! payload-fetch pipeline of the downstream subscriber ([`subscriber`]), the
//! batch accumulator of a worker ([`batch_maker`]), and the peer-connection
//! tracker ([`connectivity`]).  The asynchronous plumbing around these —
//! channels, networking, disk — lives outside the library and hands it
//! plain values.

pub mod batch_maker;
pub mod bullshark;
pub mod certificate;
pub mod codec;
pub mod committee;
pub mod connectivity;
pub mod dag;
pub mod state;
pub mod store;
pub mod subscriber;
