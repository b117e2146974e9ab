//! The persistence store: best scores keyed by grid size and the single undo
//! snapshot, held in a sled database behind trusted wrappers. The store's
//! contents are modelled as a map from byte-string keys to byte-string
//! values.

use vstd::prelude::*;

use crate::codec::{be_bytes16, bytes_parse, lemma_be_bytes16_round_trip, u128_from_be_bytes,
    u128_to_be_bytes};
use crate::palace::Game;
use crate::snapshot::{snapshot_decode, snapshot_enc, snapshot_encode};

verus! {

/// The sled database handle; opaque to verification, its contents modelled
/// by `db_view`.
#[verifier::external_type_specification]
#[verifier::external_body]
pub struct ExDb(sled::Db);

/// The error type sled reports.
#[verifier::external_type_specification]
#[verifier::external_body]
pub struct ExSledError(sled::Error);

/// What the database holds: a map from byte-string keys to byte-string
/// values. Named, not defined: the contents live on disk.
pub uninterp spec fn db_view(db: sled::Db) -> Map<Seq<u8>, Seq<u8>>;

/// Relies on sled::Tree::insert (reached through Db's deref): it sets the
/// key to the value. After an error the on-disk contents are unknown. The
/// contract assumes this handle is the only one open on the database.
#[verifier::external_body]
fn db_insert(db: &mut sled::Db, key: &Vec<u8>, value: &Vec<u8>) -> (r: Result<(), sled::Error>)
    ensures
        r is Ok ==> db_view(*final(db)) == db_view(*old(db)).insert(key@, value@),
{
    db.insert(key.as_slice(), value.as_slice()).map(|_| ())
}

/// Relies on sled::Tree::get: it returns the value held at the key, if any.
#[verifier::external_body]
fn db_get(db: &sled::Db, key: &Vec<u8>) -> (r: Result<Option<Vec<u8>>, sled::Error>)
    ensures
        (match r {
            Ok(Some(v)) => db_view(*db).contains_key(key@) && v@ == db_view(*db)[key@],
            Ok(None) => !db_view(*db).contains_key(key@),
            Err(_) => true,
        }),
{
    match db.get(key.as_slice()) {
        Ok(Some(iv)) => Ok(Some(iv.to_vec())),
        Ok(None) => Ok(None),
        Err(e) => Err(e),
    }
}

/// Relies on sled::Tree::remove: it deletes the key. After an error the
/// on-disk contents are unknown. The contract assumes this handle is the
/// only one open on the database.
#[verifier::external_body]
fn db_remove(db: &mut sled::Db, key: &Vec<u8>) -> (r: Result<(), sled::Error>)
    ensures
        r is Ok ==> db_view(*final(db)) == db_view(*old(db)).remove(key@),
{
    db.remove(key.as_slice()).map(|_| ())
}

/// The one failure the store surfaces: the backing database reported an
/// error.
#[derive(Debug, PartialEq, Eq, Structural)]
pub enum StoreError {
    Backend,
}

/// The decimal digits of `n`, most significant first, no leading zeros.
pub open spec fn dec_be(n: int) -> Seq<u8>
    decreases n,
{
    if n < 10 {
        seq![(48 + if n >= 0 {
            n
        } else {
            0
        }) as u8]
    } else {
        dec_be(n / 10) + seq![(48 + n % 10) as u8]
    }
}

/// Append the decimal rendering of `x`.
fn push_dec(out: &mut Vec<u8>, x: usize)
    ensures
        final(out)@ == old(out)@ + dec_be(x as int),
    decreases x,
{
    if x < 10 {
        out.push(48 + (x as u8));
        proof {
            assert(out@ =~= old(out)@ + dec_be(x as int));
        }
    } else {
        push_dec(out, x / 10);
        out.push(48 + ((x % 10) as u8));
        proof {
            assert(out@ =~= old(out)@ + dec_be(x as int));
        }
    }
}

/// The key of grid size `n`'s best-score record: the decimal digits of `n`
/// followed by the bytes of `_top_score`.
pub open spec fn top_score_key(n: int) -> Seq<u8> {
    dec_be(n) + seq![95u8, 116u8, 111u8, 112u8, 95u8, 115u8, 99u8, 111u8, 114u8, 101u8]
}

/// The key under which the undo snapshot is stored: the bytes of `history`.
pub open spec fn history_key() -> Seq<u8> {
    seq![104u8, 105u8, 115u8, 116u8, 111u8, 114u8, 121u8]
}

fn build_top_score_key(n: usize) -> (r: Vec<u8>)
    ensures
        r@ == top_score_key(n as int),
{
    let mut out: Vec<u8> = Vec::new();
    push_dec(&mut out, n);
    out.push(95);
    out.push(116);
    out.push(111);
    out.push(112);
    out.push(95);
    out.push(115);
    out.push(99);
    out.push(111);
    out.push(114);
    out.push(101);
    proof {
        assert(out@ =~= top_score_key(n as int));
    }
    out
}

fn build_history_key() -> (r: Vec<u8>)
    ensures
        r@ == history_key(),
{
    let mut out: Vec<u8> = Vec::new();
    out.push(104);
    out.push(105);
    out.push(115);
    out.push(116);
    out.push(111);
    out.push(114);
    out.push(121);
    proof {
        assert(out@ =~= history_key());
    }
    out
}

/// The best score a store's contents record for grid size `n`: the value of
/// the 16-byte record under that size's key, or 0 when the key is absent or
/// its value is not 16 bytes long.
pub open spec fn stored_top_score(m: Map<Seq<u8>, Seq<u8>>, n: int) -> int {
    if m.contains_key(top_score_key(n)) && m[top_score_key(n)].len() == 16 {
        bytes_parse(m[top_score_key(n)])
    } else {
        0
    }
}

/// The store's contents hold game `g` as the undo snapshot.
pub open spec fn valid_snapshot_at(m: Map<Seq<u8>, Seq<u8>>, g: Game) -> bool {
    g.wf() && m.contains_key(history_key()) && m[history_key()] == snapshot_enc(g)
}

/// After recording a best score for size `n`, reading the best for `n` gives
/// exactly that score back.
pub proof fn lemma_recorded_best_reads_back(m: Map<Seq<u8>, Seq<u8>>, n: int, score: u128)
    ensures
        stored_top_score(m.insert(top_score_key(n), be_bytes16(score as int)), n) == score as int,
{
    lemma_be_bytes16_round_trip(score);
}

/// The persistence store: a handle on the backing key/value database.
pub struct Store {
    db: sled::Db,
}

impl Store {
    /// The store's current contents.
    pub closed spec fn contents(self) -> Map<Seq<u8>, Seq<u8>> {
        db_view(self.db)
    }

    /// Wrap an opened database handle. The store's contracts assume it is
    /// the only handle open on that database.
    pub fn new(db: sled::Db) -> (r: Store)
        ensures
            r.contents() == db_view(db),
    {
        Store { db }
    }

    /// Record `score` as the best for grid size `n`, as 16 big-endian bytes.
    pub fn insert_top_score(&mut self, n: usize, score: u128) -> (r: Result<(), StoreError>)
        ensures
            r is Ok ==> final(self).contents() == old(self).contents().insert(
                top_score_key(n as int),
                be_bytes16(score as int),
            ),
    {
        let key = build_top_score_key(n);
        let val = u128_to_be_bytes(score);
        match db_insert(&mut self.db, &key, &val) {
            Ok(()) => Ok(()),
            Err(_) => Err(StoreError::Backend),
        }
    }

    /// Read the best score recorded for grid size `n`: 0 when no 16-byte
    /// record is stored under that size's key.
    pub fn top_score(&self, n: usize) -> (r: Result<u128, StoreError>)
        ensures
            (match r {
                Ok(v) => v as int == stored_top_score(self.contents(), n as int),
                Err(_) => true,
            }),
    {
        let key = build_top_score_key(n);
        match db_get(&self.db, &key) {
            Ok(Some(v)) => {
                if v.len() == 16 {
                    let score = u128_from_be_bytes(&v);
                    proof {
                        lemma_be_bytes16_round_trip(score);
                    }
                    Ok(score)
                } else {
                    Ok(0)
                }
            },
            Ok(None) => Ok(0),
            Err(_) => Err(StoreError::Backend),
        }
    }

    /// Store the undo snapshot of `game`, replacing any previous snapshot.
    pub fn insert_history(&mut self, game: &Game) -> (r: Result<(), StoreError>)
        ensures
            r is Ok ==> final(self).contents() == old(self).contents().insert(
                history_key(),
                snapshot_enc(*game),
            ),
    {
        let key = build_history_key();
        let val = snapshot_encode(game);
        match db_insert(&mut self.db, &key, &val) {
            Ok(()) => Ok(()),
            Err(_) => Err(StoreError::Backend),
        }
    }

    /// Read back the stored undo snapshot: the well-formed state whose
    /// rendering is stored under the history key. An absent or corrupt
    /// snapshot reads as nothing.
    pub fn history(&self) -> (r: Result<Option<Game>, StoreError>)
        ensures
            (match r {
                Ok(Some(g)) => valid_snapshot_at(self.contents(), g),
                Ok(None) => forall|g: Game| !valid_snapshot_at(self.contents(), g),
                Err(_) => true,
            }),
    {
        let key = build_history_key();
        match db_get(&self.db, &key) {
            Ok(Some(v)) => {
                match snapshot_decode(&v) {
                    Some(g) => Ok(Some(g)),
                    None => {
                        proof {
                            assert forall|g: Game| !valid_snapshot_at(self.contents(), g) by {
                                if g.wf() {
                                    assert(v@ != snapshot_enc(g));
                                }
                            }
                        }
                        Ok(None)
                    },
                }
            },
            Ok(None) => Ok(None),
            Err(_) => Err(StoreError::Backend),
        }
    }

    /// Delete the stored undo snapshot.
    pub fn remove_history(&mut self) -> (r: Result<(), StoreError>)
        ensures
            r is Ok ==> final(self).contents() == old(self).contents().remove(history_key()),
    {
        let key = build_history_key();
        match db_remove(&mut self.db, &key) {
            Ok(()) => Ok(()),
            Err(_) => Err(StoreError::Backend),
        }
    }
}

} // verus!
