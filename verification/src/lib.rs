//! A safety layer over a reference-counted object runtime that is guarded by
//! a single access token.
//!
//! Every object of the runtime is reached through a handle. A handle is either
//! borrowed ([`handle::PyObjectRef`]) or owning ([`handle::PyObject`]), and every
//! operation that touches an object takes the access token
//! ([`token::Python`]). The token carries an arena of owning handles whose
//! release is deferred until the token itself is given back.
pub mod conversion;
pub mod err;
pub mod handle;
pub mod heap;
pub mod laws;
pub mod list;
pub mod list_spec;
pub mod ptr;
pub mod runtime;
pub mod scope;
pub mod token;
