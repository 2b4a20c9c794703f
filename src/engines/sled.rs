//! An engine backed by the embedded `sled` tree store.
use vstd::prelude::*;
use vstd::utf8::*;

use super::KvsEngine;
use crate::codec::string_from_utf8;
use crate::error::{KvsError, Result};

verus! {

broadcast use {encode_utf8_valid_utf8, encode_utf8_decode_utf8};

/// A handle to an open `sled` database.
#[verifier::external_type_specification]
#[verifier::external_body]
pub struct ExDb(sled::Db);

/// What an open `sled` database holds: each key's bytes with its value's bytes.
pub uninterp spec fn sled_contents(db: sled::Db) -> Map<Seq<u8>, Seq<u8>>;

/// Relies on `sled::Tree::set`: on success the key holds the value.
#[verifier::external_body]
fn sled_set(db: &mut sled::Db, key: &str, value: &str) -> (r: core::result::Result<
    (),
    sled::Error,
>)
    ensures
        r is Ok ==> sled_contents(*final(db)) == sled_contents(*old(db)).insert(
            encode_utf8(key@),
            encode_utf8(value@),
        ),
{
    db.set(key, value.as_bytes()).map(|_| ())
}

/// Relies on `sled::Tree::get`: the value held under the key, if any.
#[verifier::external_body]
fn sled_get(db: &sled::Db, key: &str) -> (r: core::result::Result<Option<Vec<u8>>, sled::Error>)
    ensures
        r matches Ok(o) ==> (o is Some <==> sled_contents(*db).contains_key(encode_utf8(key@))),
        r matches Ok(Some(v)) ==> v@ == sled_contents(*db)[encode_utf8(key@)],
{
    db.get(key).map(|o| o.map(|v| v.to_vec()))
}

/// Relies on `sled::Tree::del`: removes the key and hands back the value it
/// held; when it hands back nothing, the database is unchanged.
#[verifier::external_body]
fn sled_del(db: &mut sled::Db, key: &str) -> (r: core::result::Result<Option<Vec<u8>>, sled::Error>)
    ensures
        r matches Ok(Some(_)) ==> sled_contents(*old(db)).contains_key(encode_utf8(key@))
            && sled_contents(*final(db)) == sled_contents(*old(db)).remove(encode_utf8(key@)),
        r matches Ok(None) ==> sled_contents(*final(db)) == sled_contents(*old(db)),
{
    db.del(key).map(|o| o.map(|v| v.to_vec()))
}

/// Relies on `sled::Tree::flush`: writes dirty buffers to disk; what the
/// database holds is unchanged.
#[verifier::external_body]
fn sled_flush(db: &sled::Db) -> (r: core::result::Result<(), sled::Error>) {
    db.flush().map(|_| ())
}

/// Relies on `sled::Tree::iter` and `sled::Iter::keys`: a walk over the
/// whole tree in key order, so every key held, each once.
#[verifier::external_body]
fn sled_keys(db: &sled::Db) -> (r: core::result::Result<Vec<Vec<u8>>, sled::Error>)
    ensures
        r matches Ok(ks) ==> forall|i: int|
            0 <= i < ks@.len() ==> sled_contents(*db).contains_key(#[trigger] ks@[i]@),
        r matches Ok(ks) ==> forall|k: Seq<u8>|
            sled_contents(*db).contains_key(k) ==> exists|i: int|
                0 <= i < ks@.len() && #[trigger] ks@[i]@ == k,
        r matches Ok(ks) ==> forall|i: int, j: int| 0 <= i < j < ks@.len() ==> ks@[i]@ != ks@[j]@,
{
    db.iter().keys().collect()
}

/// An engine that keeps its keys and values in a `sled` database.
pub struct SledKvsEngine {
    database: sled::Db,
}

/// The map of strings that a map of bytes holds, keys and values read as UTF-8.
pub open spec fn string_map(m: Map<Seq<u8>, Seq<u8>>) -> Map<Seq<char>, Seq<char>> {
    Map::new(
        |k: Seq<char>| m.contains_key(encode_utf8(k)),
        |k: Seq<char>| decode_utf8(m[encode_utf8(k)]),
    )
}

proof fn lemma_string_map_insert(m: Map<Seq<u8>, Seq<u8>>, k: Seq<char>, v: Seq<char>)
    ensures
        string_map(m.insert(encode_utf8(k), encode_utf8(v))) == string_map(m).insert(k, v),
{
    assert forall|kk: Seq<char>| encode_utf8(kk) == encode_utf8(k) implies kk == k by {
        assert(decode_utf8(encode_utf8(kk)) == kk);
    }
    assert(string_map(m.insert(encode_utf8(k), encode_utf8(v))) =~= string_map(m).insert(k, v));
}

proof fn lemma_string_map_remove(m: Map<Seq<u8>, Seq<u8>>, k: Seq<char>)
    ensures
        string_map(m.remove(encode_utf8(k))) == string_map(m).remove(k),
{
    assert forall|kk: Seq<char>| encode_utf8(kk) == encode_utf8(k) implies kk == k by {
        assert(decode_utf8(encode_utf8(kk)) == kk);
    }
    assert(string_map(m.remove(encode_utf8(k))) =~= string_map(m).remove(k));
}

/// The keys among `ks` that are valid UTF-8, read as strings, in order.
pub open spec fn decoded_keys(ks: Seq<Seq<u8>>) -> Seq<Seq<char>>
    decreases ks.len(),
{
    if ks.len() == 0 {
        Seq::empty()
    } else if valid_utf8(ks.last()) {
        decoded_keys(ks.drop_last()).push(decode_utf8(ks.last()))
    } else {
        decoded_keys(ks.drop_last())
    }
}

/// The keys among `ks` that are valid UTF-8, read as strings, in order;
/// distinct keys give distinct strings.
pub fn keys_to_strings(ks: &Vec<Vec<u8>>) -> (r: Vec<String>)
    ensures
        r@.map_values(|s: String| s@) == decoded_keys(ks@.map_values(|k: Vec<u8>| k@)),
        forall|j: int|
            0 <= j < r@.len() ==> exists|t: int|
                0 <= t < ks@.len() && #[trigger] encode_utf8(r@[j]@) == ks@[t]@,
        (forall|a: int, b: int| 0 <= a < b < ks@.len() ==> ks@[a]@ != ks@[b]@) ==> forall|
            a: int,
            b: int,
        | 0 <= a < b < r@.len() ==> r@[a]@ != r@[b]@,
{
    let ghost kv = ks@.map_values(|k: Vec<u8>| k@);
    let mut out: Vec<String> = Vec::new();
    let n = ks.len();
    let mut i: usize = 0;
    proof {
        assert(kv.take(0) =~= Seq::<Seq<u8>>::empty());
        assert(out@.map_values(|s: String| s@) =~= decoded_keys(kv.take(0)));
    }
    while i < n
        invariant
            n == ks@.len(),
            i <= n,
            kv == ks@.map_values(|k: Vec<u8>| k@),
            out@.map_values(|s: String| s@) == decoded_keys(kv.take(i as int)),
            forall|j: int|
                0 <= j < out@.len() ==> exists|t: int|
                    0 <= t < i && #[trigger] encode_utf8(out@[j]@) == ks@[t]@,
            (forall|a: int, b: int| 0 <= a < b < ks@.len() ==> ks@[a]@ != ks@[b]@) ==> forall|
                a: int,
                b: int,
            | 0 <= a < b < out@.len() ==> out@[a]@ != out@[b]@,
        decreases n - i,
    {
        let ghost prev = out@;
        let ghost kb = ks@[i as int]@;
        proof {
            let t = kv.take(i + 1);
            assert(t.drop_last() =~= kv.take(i as int));
            assert(t.last() == kb);
        }
        match string_from_utf8(ks[i].clone()) {
            Some(s) => {
                proof {
                    assert(decode_utf8(encode_utf8(s@)) == s@);
                }
                out.push(s);
                proof {
                    assert(out@.map_values(|s: String| s@) =~= prev.map_values(|s: String| s@).push(
                        s@,
                    ));
                    assert forall|j: int| 0 <= j < out@.len() implies exists|t: int|
                        0 <= t < i + 1 && #[trigger] encode_utf8(out@[j]@) == ks@[t]@ by {
                        if j == out@.len() - 1 {
                            assert(encode_utf8(out@[j]@) == ks@[i as int]@);
                        } else {
                            assert(out@[j] == prev[j]);
                        }
                    }
                    if forall|a: int, b: int| 0 <= a < b < ks@.len() ==> ks@[a]@ != ks@[b]@ {
                        assert forall|a: int, b: int| 0 <= a < b < out@.len() implies out@[a]@
                            != out@[b]@ by {
                            if b == out@.len() - 1 {
                                assert(out@[a] == prev[a]);
                                let t = choose|t: int|
                                    0 <= t < i && #[trigger] encode_utf8(prev[a]@) == ks@[t]@;
                                assert(ks@[t]@ != ks@[i as int]@);
                            } else {
                                assert(out@[a] == prev[a] && out@[b] == prev[b]);
                            }
                        }
                    }
                }
            },
            None => {},
        }
        i = i + 1;
    }
    proof {
        assert(kv.take(n as int) =~= kv);
    }
    out
}

impl SledKvsEngine {
    /// An engine over an open `sled` database.
    pub fn open(database: sled::Db) -> (r: SledKvsEngine)
        ensures
            r.contents() == string_map(sled_contents(database)),
    {
        SledKvsEngine { database }
    }
}

impl KvsEngine for SledKvsEngine {
    closed spec fn contents(&self) -> Map<Seq<char>, Seq<char>> {
        string_map(sled_contents(self.database))
    }

    open spec fn well_formed(&self) -> bool {
        true
    }

    open spec fn reliable(&self) -> bool {
        false
    }

    open spec fn admits(&self, key: Seq<char>, value: Seq<char>) -> bool {
        true
    }

    fn set(&mut self, key: String, value: String) -> (r: Result<()>) {
        let ghost before = sled_contents(self.database);
        match sled_set(&mut self.database, key.as_str(), value.as_str()) {
            Ok(()) => {},
            Err(e) => return Err(KvsError::SledError(e)),
        }
        proof {
            lemma_string_map_insert(before, key@, value@);
        }
        match sled_flush(&self.database) {
            Ok(()) => Ok(()),
            Err(e) => Err(KvsError::SledError(e)),
        }
    }

    fn get(&self, key: String) -> (r: Result<Option<String>>) {
        match sled_get(&self.database, key.as_str()) {
            Ok(Some(bytes)) => {
                let ghost raw = bytes@;
                match string_from_utf8(bytes) {
                    Some(s) => {
                        proof {
                            assert(decode_utf8(encode_utf8(s@)) == s@);
                        }
                        Ok(Some(s))
                    },
                    None => Err(KvsError::Corruption),
                }
            },
            Ok(None) => Ok(None),
            Err(e) => Err(KvsError::SledError(e)),
        }
    }

    fn remove(&mut self, key: String) -> (r: Result<()>) {
        let ghost before = sled_contents(self.database);
        match sled_del(&mut self.database, key.as_str()) {
            Ok(Some(_)) => {},
            Ok(None) => return Err(KvsError::KeyNotFound),
            Err(e) => return Err(KvsError::SledError(e)),
        }
        proof {
            lemma_string_map_remove(before, key@);
        }
        match sled_flush(&self.database) {
            Ok(()) => Ok(()),
            Err(e) => Err(KvsError::SledError(e)),
        }
    }

    fn scan(&self) -> (r: Vec<String>) {
        match sled_keys(&self.database) {
            Ok(ks) => {
                let r = keys_to_strings(&ks);
                proof {
                    assert forall|i: int| 0 <= i < r@.len() implies self.contents().contains_key(
                        #[trigger] r@[i]@,
                    ) by {
                        let t = choose|t: int|
                            0 <= t < ks@.len() && #[trigger] encode_utf8(r@[i]@) == ks@[t]@;
                        assert(sled_contents(self.database).contains_key(ks@[t]@));
                    }
                }
                r
            },
            Err(_) => Vec::new(),
        }
    }
}

} // verus!
