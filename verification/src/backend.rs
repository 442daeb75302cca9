//! The Redis-backed cache client, single-object topology.
//!
//! Every entry lives as one field of a single hash object, so bulk
//! invalidation is one atomic object delete.  Each operation is one
//! blocking round trip; its outcome depends on the live store, so nothing
//! is assumed about what comes back: the verified logic around each call
//! fixes what is sent, converts every decodable response exactly (through
//! the verified codecs), and resolves every failure to a miss or a no-op.
//! The only surfaced fault is a connection error at construction.

use vstd::prelude::*;
use crate::codec::{encode_key, CompositeKey};
use crate::values::{decode_response, CacheValue};
use core::marker::PhantomData;

verus! {

#[verifier::external_type_specification]
#[verifier::external_body]
pub struct ExClient(redis::Client);

#[verifier::external_type_specification]
#[verifier::external_body]
pub struct ExConnection(redis::Connection);

#[verifier::external_type_specification]
#[verifier::external_body]
pub struct ExRedisError(redis::RedisError);

/// The fixed key of the hash object that holds the cache's namespace.
fn namespace_object() -> (r: &'static str)
    ensures
        r@ == "casbin_cache"@,
{
    "casbin_cache"
}

/// Relies on redis::Client::open: parses the store address into a client,
/// with no network traffic; a malformed address is the error.
#[verifier::external_body]
fn open_client(url: &str) -> (r: Result<redis::Client, redis::RedisError>) {
    redis::Client::open(url)
}

/// Relies on redis::Client::get_connection: establishes one blocking
/// connection to the store.
#[verifier::external_body]
fn client_connection(client: &redis::Client) -> (r: Result<
    redis::Connection,
    redis::RedisError,
>) {
    client.get_connection()
}

/// Relies on redis's HGET command: reads one field of the object, absent
/// when the field or the object does not exist.  What comes back depends on
/// the live store.
#[verifier::external_body]
fn hash_get(conn: &mut redis::Connection, object: &str, field: &[u8]) -> (r: Result<
    Option<Vec<u8>>,
    redis::RedisError,
>) {
    redis::cmd("HGET").arg(object).arg(field).query(conn)
}

/// Relies on redis's HEXISTS command: whether the object has the field.
#[verifier::external_body]
fn hash_field_exists(conn: &mut redis::Connection, object: &str, field: &[u8]) -> (r: Result<
    bool,
    redis::RedisError,
>) {
    redis::cmd("HEXISTS").arg(object).arg(field).query(conn)
}

/// Relies on redis's HKEYS command: every field name of the object, in
/// store order.
#[verifier::external_body]
fn hash_fields(conn: &mut redis::Connection, object: &str) -> (r: Result<
    Vec<Vec<u8>>,
    redis::RedisError,
>) {
    redis::cmd("HKEYS").arg(object).query(conn)
}

/// Relies on redis's HSET command: writes one field of the object.
#[verifier::external_body]
fn hash_set(conn: &mut redis::Connection, object: &str, field: &[u8], value: &[u8]) -> (r: Result<
    bool,
    redis::RedisError,
>) {
    redis::cmd("HSET").arg(object).arg(field).arg(value).query(conn)
}

/// Relies on redis's DEL command: deletes the whole object in one
/// operation, atomically with respect to subsequent reads.
#[verifier::external_body]
fn delete_object(conn: &mut redis::Connection, object: &str) -> (r: Result<
    bool,
    redis::RedisError,
>) {
    redis::cmd("DEL").arg(object).query(conn)
}

/// Relies on RedisError's Display implementation for a readable
/// description of the fault.
#[verifier::external_body]
fn error_text(e: &redis::RedisError) -> (r: String) {
    format!("{}", e)
}

/// The admission check of the capacity guard, on the store's own answer:
/// a write is admitted exactly when the namespace's field count is still
/// below the capacity bound.
pub fn admits_write(fields: &Vec<Vec<u8>>, cap: usize) -> (r: bool)
    ensures
        r == (fields@.len() < cap),
{
    fields.len() < cap
}

/// The one surfaced fault: the connection to the store could not be set
/// up.  Everything after construction is silently absorbed.
pub struct ConnectError {
    pub message: String,
}

/// A cache client over one Redis connection, single-object topology.
pub struct RedisCache<V: CacheValue> {
    conn: redis::Connection,
    cap: usize,
    marker: PhantomData<V>,
}

impl<V: CacheValue> RedisCache<V> {
    /// The configured capacity bound.
    pub closed spec fn capacity(&self) -> nat {
        self.cap as nat
    }

    /// Connect to the store at `url`.  Transport setup failure is the only
    /// error this cache ever surfaces.
    pub fn new(url: &str) -> (r: Result<RedisCache<V>, ConnectError>)
        ensures
            r matches Ok(c) ==> c.capacity() == 1000,
    {
        match open_client(url) {
            Ok(client) => match client_connection(&client) {
                Ok(conn) => Ok(RedisCache { conn, cap: 1000, marker: PhantomData }),
                Err(e) => Err(ConnectError { message: error_text(&e) }),
            },
            Err(e) => Err(ConnectError { message: error_text(&e) }),
        }
    }

    /// Configure the capacity bound checked before each write.
    pub fn set_capacity(&mut self, cap: usize)
        ensures
            final(self).capacity() == cap,
    {
        self.cap = cap;
    }

    /// Read a decision back.  A store error, a missing entry and an
    /// undecodable entry all resolve to `None`: cache unavailability only
    /// ever costs a recomputation, never a fault.
    pub fn get(&mut self, k: &CompositeKey) -> (r: Option<V>)
        ensures
            final(self).capacity() == old(self).capacity(),
            r matches Some(v) ==> exists|bytes: Seq<u8>| V::dec(bytes) == Some(v),
    {
        let token = encode_key(k);
        match hash_get(&mut self.conn, namespace_object(), token.as_slice()) {
            Ok(resp) => {
                let ghost gresp = resp;
                let decoded = decode_response::<V>(resp);
                let ghost gdec = decoded;
                proof {
                    match gdec {
                        Some(v) => {
                            match gresp {
                                Some(b) => {
                                    assert(V::dec(b@) == Some(v));
                                },
                                None => {
                                    assert(false);
                                },
                            }
                        },
                        None => {},
                    }
                }
                decoded
            },
            Err(_) => None,
        }
    }

    /// Existence check on the entry's field.  A store error resolves to
    /// `false`.
    pub fn has(&mut self, k: &CompositeKey) -> (r: bool)
        ensures
            final(self).capacity() == old(self).capacity(),
    {
        let token = encode_key(k);
        match hash_field_exists(&mut self.conn, namespace_object(), token.as_slice()) {
            Ok(present) => present,
            Err(_) => false,
        }
    }

    /// Write a decision, best-effort: when the namespace already holds at
    /// least `capacity` entries, or on any store error, the write is
    /// silently dropped.
    pub fn set(&mut self, k: CompositeKey, v: V)
        ensures
            final(self).capacity() == old(self).capacity(),
    {
        match hash_fields(&mut self.conn, namespace_object()) {
            Ok(fields) => {
                if admits_write(&fields, self.cap) {
                    let token = encode_key(&k);
                    let enc = v.encode();
                    let _ = hash_set(
                        &mut self.conn,
                        namespace_object(),
                        token.as_slice(),
                        enc.as_slice(),
                    );
                }
            },
            Err(_) => {},
        }
    }

    /// Remove the whole namespace in one store operation.  A store error
    /// resolves to a no-op.
    pub fn clear(&mut self)
        ensures
            final(self).capacity() == old(self).capacity(),
    {
        let _ = delete_object(&mut self.conn, namespace_object());
    }
}

} // verus!
