//! The disk-paged overlap store: interval additions gather in a bounded
//! write buffer; a full buffer is flushed into an embedded key-value
//! store, each read's new intervals appended to what is already persisted
//! for it.  Reads merge the persisted and the buffered intervals.

use vstd::hash_map::StringHashMap;
use vstd::prelude::*;
use vstd::string::StrSliceExecFns;
use vstd::utf8::{decode_utf8, encode_utf8};

use crate::error::Error;
use crate::reads2ovl::{
    model_add_both, model_add_length, model_add_overlap, order_add, OvlPage, Reads2Ovl,
};

verus! {

/// Four little-endian bytes of one coordinate.
pub open spec fn le4(n: u32) -> Seq<u8> {
    seq![
        (n % 256) as u8,
        ((n / 256) % 256) as u8,
        ((n / 65536) % 256) as u8,
        ((n / 16777216) % 256) as u8,
    ]
}

/// The stored bytes of an interval list: eight little-endian bytes per
/// interval, begin first.
pub open spec fn enc_pairs(s: Seq<(u32, u32)>) -> Seq<u8>
    decreases s.len(),
{
    if s.len() == 0 {
        Seq::empty()
    } else {
        le4(s[0].0) + le4(s[0].1) + enc_pairs(s.drop_first())
    }
}

/// The coordinate read back from four little-endian bytes.
pub open spec fn dec4(b: Seq<u8>) -> u32
    recommends
        b.len() >= 4,
{
    (b[0] + b[1] * 256 + b[2] * 65536 + b[3] * 16777216) as u32
}

/// The interval list read back from stored bytes; a trailing fragment is
/// dropped.
pub open spec fn dec_pairs(b: Seq<u8>) -> Seq<(u32, u32)>
    decreases b.len(),
{
    if b.len() < 8 {
        Seq::empty()
    } else {
        seq![(dec4(b.subrange(0, 4)), dec4(b.subrange(4, 8)))] + dec_pairs(
            b.subrange(8, b.len() as int),
        )
    }
}

/// Eight bytes per encoded interval.
pub proof fn lemma_enc_len(s: Seq<(u32, u32)>)
    ensures
        enc_pairs(s).len() == 8 * s.len(),
    decreases s.len(),
{
    if s.len() > 0 {
        lemma_enc_len(s.drop_first());
    }
}

/// Encoding distributes over concatenation.
pub proof fn lemma_enc_concat(a: Seq<(u32, u32)>, b: Seq<(u32, u32)>)
    ensures
        enc_pairs(a + b) == enc_pairs(a) + enc_pairs(b),
    decreases a.len(),
{
    if a.len() == 0 {
        assert(a + b =~= b);
        assert(enc_pairs(a) + enc_pairs(b) =~= enc_pairs(b));
    } else {
        lemma_enc_concat(a.drop_first(), b);
        assert((a + b).drop_first() =~= a.drop_first() + b);
        assert((a + b)[0] == a[0]);
        assert((le4(a[0].0) + le4(a[0].1) + (enc_pairs(a.drop_first()) + enc_pairs(b))) =~= (le4(
            a[0].0,
        ) + le4(a[0].1) + enc_pairs(a.drop_first())) + enc_pairs(b));
    }
}

/// One coordinate survives the trip through its four bytes.
proof fn lemma_dec4_le4(n: u32)
    ensures
        dec4(le4(n)) == n,
{
    assert((n % 256) + ((n / 256) % 256) * 256 + ((n / 65536) % 256) * 65536 + ((n / 16777216)
        % 256) * 16777216 == n) by (nonlinear_arith)
        requires
            0 <= n <= 0xFFFFFFFFu32,
    ;
}

/// An interval list survives the trip through its stored bytes.
pub proof fn lemma_dec_enc(s: Seq<(u32, u32)>)
    ensures
        dec_pairs(enc_pairs(s)) == s,
        enc_pairs(s).len() % 8 == 0,
    decreases s.len(),
{
    lemma_enc_len(s);
    if s.len() == 0 {
        assert(dec_pairs(enc_pairs(s)) =~= s);
    } else {
        lemma_dec_enc(s.drop_first());
        let e = enc_pairs(s);
        lemma_enc_len(s.drop_first());
        assert(e.subrange(0, 4) =~= le4(s[0].0));
        assert(e.subrange(4, 8) =~= le4(s[0].1));
        assert(e.subrange(8, e.len() as int) =~= enc_pairs(s.drop_first()));
        lemma_dec4_le4(s[0].0);
        lemma_dec4_le4(s[0].1);
        assert(dec_pairs(e) =~= seq![(s[0].0, s[0].1)] + s.drop_first());
        assert(seq![(s[0].0, s[0].1)] + s.drop_first() =~= s);
    }
}

/// Writes an interval list as bytes.
#[verifier::rlimit(50)]
fn encode_intervals(v: &Vec<(u32, u32)>) -> (r: Vec<u8>)
    ensures
        r@ == enc_pairs(v@),
{
    let mut out: Vec<u8> = Vec::new();
    let mut i: usize = 0;
    proof {
        assert(out@ =~= enc_pairs(v@.subrange(0, 0)));
    }
    while i < v.len()
        invariant
            0 <= i <= v@.len(),
            out@ == enc_pairs(v@.subrange(0, i as int)),
        decreases v@.len() - i,
    {
        let p = v[i];
        out.push((p.0 % 256) as u8);
        out.push(((p.0 / 256) % 256) as u8);
        out.push(((p.0 / 65536) % 256) as u8);
        out.push(((p.0 / 16777216) % 256) as u8);
        out.push((p.1 % 256) as u8);
        out.push(((p.1 / 256) % 256) as u8);
        out.push(((p.1 / 65536) % 256) as u8);
        out.push(((p.1 / 16777216) % 256) as u8);
        proof {
            lemma_enc_concat(v@.subrange(0, i as int), seq![v@[i as int]]);
            assert(v@.subrange(0, i + 1) =~= v@.subrange(0, i as int) + seq![v@[i as int]]);
            assert(seq![v@[i as int]].drop_first() =~= Seq::<(u32, u32)>::empty());
            assert(enc_pairs(seq![v@[i as int]]) =~= le4(v@[i as int].0) + le4(v@[i as int].1)
                + enc_pairs(Seq::<(u32, u32)>::empty()));
            assert(out@ =~= enc_pairs(v@.subrange(0, i as int)) + enc_pairs(seq![v@[i as int]]));
        }
        i = i + 1;
    }
    proof {
        assert(v@.subrange(0, v@.len() as int) =~= v@);
    }
    out
}

/// Reads an interval list back from bytes; bytes of the wrong shape are
/// refused.
fn decode_intervals(b: &Vec<u8>) -> (r: Option<Vec<(u32, u32)>>)
    ensures
        match r {
            Some(v) => b@.len() % 8 == 0 && v@ == dec_pairs(b@),
            None => b@.len() % 8 != 0,
        },
{
    if b.len() % 8 != 0 {
        return None;
    }
    let mut out: Vec<(u32, u32)> = Vec::new();
    let mut i: usize = 0;
    proof {
        assert(b@.subrange(0, b@.len() as int) =~= b@);
        assert(out@ + dec_pairs(b@.subrange(i as int, b@.len() as int)) =~= dec_pairs(b@));
    }
    while b.len() - i >= 8
        invariant
            0 <= i <= b@.len(),
            i % 8 == 0,
            b@.len() % 8 == 0,
            dec_pairs(b@) == out@ + dec_pairs(b@.subrange(i as int, b@.len() as int)),
        decreases b@.len() - i,
    {
        let ghost rest = b@.subrange(i as int, b@.len() as int);
        let x: u32 = (b[i] as u32) + (b[i + 1] as u32) * 256 + (b[i + 2] as u32) * 65536 + (b[i
            + 3] as u32) * 16777216;
        let y: u32 = (b[i + 4] as u32) + (b[i + 5] as u32) * 256 + (b[i + 6] as u32) * 65536 + (b[i
            + 7] as u32) * 16777216;
        let ghost prev = out@;
        out.push((x, y));
        proof {
            assert(rest.subrange(0, 4) =~= b@.subrange(i as int, i + 4));
            assert(rest.subrange(4, 8) =~= b@.subrange(i + 4, i + 8));
            assert(dec4(rest.subrange(0, 4)) == x);
            assert(dec4(rest.subrange(4, 8)) == y);
            assert(rest.subrange(8, rest.len() as int) =~= b@.subrange(i + 8, b@.len() as int));
            assert(out@ =~= prev + seq![(x, y)]);
            assert((prev + seq![(x, y)]) + dec_pairs(b@.subrange(i + 8, b@.len() as int)) =~= prev
                + (seq![(x, y)] + dec_pairs(b@.subrange(i + 8, b@.len() as int))));
        }
        i = i + 8;
    }
    proof {
        assert(b@.subrange(i as int, b@.len() as int).len() < 8);
        assert(dec_pairs(b@.subrange(i as int, b@.len() as int)) =~= Seq::<(u32, u32)>::empty());
        assert(out@ + Seq::<(u32, u32)>::empty() =~= out@);
    }
    Some(out)
}

#[verifier::external_type_specification]
#[verifier::external_body]
pub struct ExDb(sled::Db);

/// What the embedded key-value store holds, keys to values, as bytes.
pub uninterp spec fn sled_contents(db: &sled::Db) -> Map<Seq<u8>, Seq<u8>>;

/// Relies on sled::open: opens or creates the database at the path.
#[verifier::external_body]
fn sled_open(path: &str) -> (r: Result<sled::Db, Error>)
    ensures
        r matches Err(e) ==> e is OnDiskOpen,
{
    match sled::open(path) {
        Ok(db) => Ok(db),
        Err(_) => Err(Error::OnDiskOpen),
    }
}

/// Relies on sled::Tree::clear: a cleared database holds no keys.
#[verifier::external_body]
fn sled_clear(db: &mut sled::Db) -> (r: Result<(), Error>)
    ensures
        match r {
            Ok(u) => sled_contents(final(db)) == Map::<Seq<u8>, Seq<u8>>::empty(),
            Err(e) => e is OnDiskOpen,
        },
{
    match db.clear() {
        Ok(()) => Ok(()),
        Err(_) => Err(Error::OnDiskOpen),
    }
}

/// Relies on sled::Tree::get: returns the value stored under the key.
#[verifier::external_body]
fn sled_get(db: &sled::Db, key: &Vec<u8>) -> (r: Result<Option<Vec<u8>>, Error>)
    ensures
        match r {
            Ok(opt) => match opt {
                Some(v) => sled_contents(db).contains_key(key@) && v@ == sled_contents(db)[key@],
                None => !sled_contents(db).contains_key(key@),
            },
            Err(e) => e is OnDiskReadDatabase,
        },
{
    match db.get(key) {
        Ok(Some(ivec)) => Ok(Some(ivec.to_vec())),
        Ok(None) => Ok(None),
        Err(_) => Err(Error::OnDiskReadDatabase),
    }
}

/// Relies on sled::Tree::insert: stores the value under the key.
#[verifier::external_body]
fn sled_insert(db: &mut sled::Db, key: &Vec<u8>, value: &Vec<u8>) -> (r: Result<(), Error>)
    ensures
        match r {
            Ok(u) => sled_contents(final(db)) == sled_contents(old(db)).insert(key@, value@),
            Err(e) => e is OnDiskBatchApplication,
        },
{
    match db.insert(key.as_slice(), value.as_slice()) {
        Ok(_) => Ok(()),
        Err(_) => Err(Error::OnDiskBatchApplication),
    }
}

/// Relies on sled::Tree::remove: takes the value stored under the key
/// out.
#[verifier::external_body]
fn sled_remove(db: &mut sled::Db, key: &Vec<u8>) -> (r: Result<Option<Vec<u8>>, Error>)
    ensures
        match r {
            Ok(opt) => (match opt {
                Some(v) => sled_contents(old(db)).contains_key(key@) && v@ == sled_contents(
                    old(db),
                )[key@],
                None => !sled_contents(old(db)).contains_key(key@),
            }) && sled_contents(final(db)) == sled_contents(old(db)).remove(key@),
            Err(e) => e is OnDiskReadDatabase,
        },
{
    match db.remove(key.as_slice()) {
        Ok(Some(ivec)) => Ok(Some(ivec.to_vec())),
        Ok(None) => Ok(None),
        Err(_) => Err(Error::OnDiskReadDatabase),
    }
}

/// The names are pairwise distinct.
pub open spec fn names_unique(ids: Seq<String>) -> bool {
    forall|a: int, b: int| 0 <= a < b < ids.len() ==> ids[a]@ != ids[b]@
}

/// Every name stands in the set.
pub open spec fn names_in_set(ids: Seq<String>, s: Set<Seq<char>>) -> bool {
    forall|i: int| 0 <= i < ids.len() ==> s.contains((#[trigger] ids[i])@)
}

/// Every name keys the map.
pub open spec fn names_key_map<V>(ids: Seq<String>, m: Map<Seq<char>, V>) -> bool {
    forall|i: int| 0 <= i < ids.len() ==> m.contains_key((#[trigger] ids[i])@)
}

/// Every member of the set stands among the names.
pub open spec fn set_covered(s: Set<Seq<char>>, ids: Seq<String>) -> bool {
    forall|k: Seq<char>|
        s.contains(k) ==> exists|i: int| 0 <= i < ids.len() && ids[i]@ == k
}

/// Every key of the map stands in the set.
pub open spec fn keys_in_set<V>(m: Map<Seq<char>, V>, s: Set<Seq<char>>) -> bool {
    forall|k: Seq<char>| m.contains_key(k) ==> s.contains(k)
}

/// Every key of the map stands among the names.
pub open spec fn keys_covered<V>(m: Map<Seq<char>, V>, ids: Seq<String>) -> bool {
    forall|k: Seq<char>|
        m.contains_key(k) ==> exists|i: int| 0 <= i < ids.len() && ids[i]@ == k
}

/// The database holds exactly the persisted interval lists, keyed by the
/// read names' bytes.
pub open spec fn db_reflects(p: Map<Seq<char>, Seq<(u32, u32)>>, sc: Map<Seq<u8>, Seq<u8>>) -> bool {
    forall|k: Seq<char>|
        #![trigger p.contains_key(k)]
        #![trigger sc.contains_key(encode_utf8(k))]
        p.contains_key(k) ==> sc.contains_key(encode_utf8(k)) && sc[encode_utf8(k)] == enc_pairs(
            p[k],
        )
}

/// The database holds no key for a read that has nothing persisted.
pub open spec fn db_only(p: Map<Seq<char>, Seq<(u32, u32)>>, sc: Map<Seq<u8>, Seq<u8>>) -> bool {
    forall|k: Seq<char>|
        #![trigger p.contains_key(k)]
        #![trigger sc.contains_key(encode_utf8(k))]
        !p.contains_key(k) ==> !sc.contains_key(encode_utf8(k))
}

/// Every name from `from` on stands in the set.
pub open spec fn tail_in_set(page: Seq<String>, from: int, s: Set<Seq<char>>) -> bool {
    forall|a: int| from <= a < page.len() ==> s.contains((#[trigger] page[a])@)
}

/// Every member of the set stands among the names, or in the tail of the
/// page from `from` on.
pub open spec fn covered_by_two(
    s: Set<Seq<char>>,
    ids: Seq<String>,
    page: Seq<String>,
    from: int,
) -> bool {
    forall|k: Seq<char>|
        s.contains(k) ==> (exists|a: int| 0 <= a < ids.len() && ids[a]@ == k) || (exists|a: int|
            from <= a < page.len() && page[a]@ == k)
}

/// Storing one read's encoded intervals keeps the database aligned with
/// the persisted map.
proof fn lemma_db_insert(
    p0: Map<Seq<char>, Seq<(u32, u32)>>,
    sc0: Map<Seq<u8>, Seq<u8>>,
    id: Seq<char>,
    merged: Seq<(u32, u32)>,
)
    requires
        db_reflects(p0, sc0),
        db_only(p0, sc0),
    ensures
        db_reflects(p0.insert(id, merged), sc0.insert(encode_utf8(id), enc_pairs(merged))),
        db_only(p0.insert(id, merged), sc0.insert(encode_utf8(id), enc_pairs(merged))),
{
    broadcast use vstd::utf8::encode_utf8_decode_utf8;

    let p1 = p0.insert(id, merged);
    let sc1 = sc0.insert(encode_utf8(id), enc_pairs(merged));
    assert forall|k: Seq<char>| p1.contains_key(k) implies sc1.contains_key(encode_utf8(k))
        && sc1[encode_utf8(k)] == enc_pairs(#[trigger] p1[k]) by {
        if k != id {
            assert(decode_utf8(encode_utf8(k)) == k);
            assert(decode_utf8(encode_utf8(id)) == id);
            assert(encode_utf8(k) != encode_utf8(id));
            assert(p0.contains_key(k));
            assert(sc0.contains_key(encode_utf8(k)) && sc0[encode_utf8(k)] == enc_pairs(p0[k]));
            assert(p1[k] == p0[k]);
        }
    }
    assert forall|k: Seq<char>| !p1.contains_key(k) implies !sc1.contains_key(
        #[trigger] encode_utf8(k),
    ) by {
        assert(k != id);
        assert(decode_utf8(encode_utf8(k)) == k);
        assert(decode_utf8(encode_utf8(id)) == id);
        assert(encode_utf8(k) != encode_utf8(id));
        assert(!p0.contains_key(k));
    }
}

/// Taking one read's encoded intervals out keeps the database aligned
/// with the persisted map.
proof fn lemma_db_remove(
    p0: Map<Seq<char>, Seq<(u32, u32)>>,
    sc0: Map<Seq<u8>, Seq<u8>>,
    id: Seq<char>,
)
    requires
        db_reflects(p0, sc0),
        db_only(p0, sc0),
    ensures
        db_reflects(p0.remove(id), sc0.remove(encode_utf8(id))),
        db_only(p0.remove(id), sc0.remove(encode_utf8(id))),
{
    broadcast use vstd::utf8::encode_utf8_decode_utf8;

    let p1 = p0.remove(id);
    let sc1 = sc0.remove(encode_utf8(id));
    assert forall|k: Seq<char>| p1.contains_key(k) implies sc1.contains_key(encode_utf8(k))
        && sc1[encode_utf8(k)] == enc_pairs(#[trigger] p1[k]) by {
        assert(k != id);
        assert(decode_utf8(encode_utf8(k)) == k);
        assert(decode_utf8(encode_utf8(id)) == id);
        assert(encode_utf8(k) != encode_utf8(id));
        assert(p0.contains_key(k));
        assert(sc0.contains_key(encode_utf8(k)) && sc0[encode_utf8(k)] == enc_pairs(p0[k]));
        assert(p1[k] == p0[k]);
    }
    assert forall|k: Seq<char>| !p1.contains_key(k) implies !sc1.contains_key(
        #[trigger] encode_utf8(k),
    ) by {
        if k != id {
            assert(decode_utf8(encode_utf8(k)) == k);
            assert(decode_utf8(encode_utf8(id)) == id);
            assert(encode_utf8(k) != encode_utf8(id));
            assert(!p0.contains_key(k));
        }
    }
}

/// The buffered write store over an embedded key-value database.
pub struct OnDisk {
    buffer: StringHashMap<Vec<(u32, u32)>>,
    buf_ids: Vec<String>,
    reads2len: StringHashMap<usize>,
    ids: Vec<String>,
    ids_set: vstd::hash_set::StringHashSet,
    db: sled::Db,
    persisted: Ghost<Map<Seq<char>, Seq<(u32, u32)>>>,
    number_of_value: u64,
    buffer_size: u64,
    read_buffer_size: usize,
    failed: bool,
}

impl OnDisk {
    /// The persisted and the buffered intervals of one read, persisted
    /// first.
    pub closed spec fn intervals_of(&self, k: Seq<char>) -> Seq<(u32, u32)> {
        let p = if self.persisted@.contains_key(k) {
            self.persisted@[k]
        } else {
            Seq::<(u32, u32)>::empty()
        };
        let b = if self.buffer@.contains_key(k) {
            self.buffer@[k]@
        } else {
            Seq::<(u32, u32)>::empty()
        };
        p + b
    }

    /// How many interval additions sit unflushed in the write buffer.
    pub closed spec fn pending(&self) -> int {
        self.number_of_value as int
    }

    /// The configured pending-value count at which a flush runs.
    pub closed spec fn flush_threshold(&self) -> int {
        self.buffer_size as int
    }

    /// Builds the store over a fresh database under the path prefix.  The
    /// database is cleared, so a stale directory cannot leak intervals
    /// into this run.
    pub fn new(on_disk_path: String, buffer_size: u64, read_buffer_size: usize) -> (r: Result<
        OnDisk,
        Error,
    >)
        ensures
            match r {
                Ok(s) => s.wf() && s.model() == Map::<Seq<char>, (Seq<(u32, u32)>, usize)>::empty()
                    && s.order() == Seq::<Seq<char>>::empty() && s.pending() == 0
                    && s.flush_threshold() == buffer_size as int && s.page_limit() == (
                if buffer_size < 1 {
                    1int
                } else {
                    buffer_size as int
                }),
                Err(e) => e is OnDiskOpen,
            },
    {
        let mut db = match sled_open(on_disk_path.as_str()) {
            Ok(db) => db,
            Err(e) => {
                return Err(e);
            },
        };
        match sled_clear(&mut db) {
            Ok(()) => (),
            Err(e) => {
                return Err(e);
            },
        }
        let s = OnDisk {
            buffer: StringHashMap::new(),
            buf_ids: Vec::new(),
            reads2len: StringHashMap::new(),
            ids: Vec::new(),
            ids_set: vstd::hash_set::StringHashSet::new(),
            db,
            persisted: Ghost(Map::empty()),
            number_of_value: 0,
            buffer_size,
            read_buffer_size,
            failed: false,
        };
        proof {
            assert(s.model() =~= Map::<Seq<char>, (Seq<(u32, u32)>, usize)>::empty());
            assert(s.order() =~= Seq::<Seq<char>>::empty());
        }
        Ok(s)
    }

    /// The invariant pieces that do not mention the write buffer's id
    /// list: id bookkeeping, and the database reflecting the persisted
    /// intervals.
    pub closed spec fn base_wf(&self) -> bool {
        &&& names_unique(self.ids@)
        &&& names_in_set(self.ids@, self.ids_set@)
        &&& keys_in_set(self.buffer@, self.ids_set@)
        &&& keys_in_set(self.reads2len@, self.ids_set@)
        &&& keys_in_set(self.persisted@, self.ids_set@)
        &&& (!self.failed ==> db_reflects(self.persisted@, sled_contents(&self.db)))
        &&& (!self.failed ==> db_only(self.persisted@, sled_contents(&self.db)))
    }

    /// Every known id stands somewhere in the id list.
    pub closed spec fn ids_cover(&self) -> bool {
        set_covered(self.ids_set@, self.ids@)
    }

    /// The write buffer's ids list its keys exactly once each.
    pub closed spec fn buf_wf(&self) -> bool {
        &&& names_unique(self.buf_ids@)
        &&& names_key_map(self.buf_ids@, self.buffer@)
        &&& keys_covered(self.buffer@, self.buf_ids@)
    }

    /// Flushes the buffered intervals: each buffered read's list is
    /// appended to what the database already holds for it.  What every
    /// read maps to is unchanged.
    #[verifier::rlimit(100)]
    fn clean_buffer(&mut self) -> (r: Result<(), Error>)
        requires
            old(self).wf(),
        ensures
            final(self).wf(),
            final(self).model() == old(self).model(),
            final(self).order() == old(self).order(),
            final(self).ids@ == old(self).ids@,
            final(self).ids_set@ == old(self).ids_set@,
            final(self).reads2len@ == old(self).reads2len@,
            final(self).flush_threshold() == old(self).flush_threshold(),
            match r {
                Ok(()) => (final(self).buffer@.dom() =~= Set::<Seq<char>>::empty())
                    && !final(self).failed && final(self).pending() == 0,
                Err(e) => e is OnDiskReadDatabase || e is OnDiskDeserializeVec
                    || e is OnDiskBatchApplication,
            },
    {
        if self.failed {
            return Err(Error::OnDiskReadDatabase);
        }
        while self.buf_ids.len() > 0
            invariant
                self.base_wf(),
                self.buf_wf(),
                self.ids_cover(),
                !self.failed,
                self.model() == old(self).model(),
                self.order() == old(self).order(),
                self.ids@ == old(self).ids@,
                self.ids_set@ == old(self).ids_set@,
                self.reads2len@ == old(self).reads2len@,
                self.buffer_size == old(self).buffer_size,
            decreases self.buf_ids@.len(),
        {
            let id = self.buf_ids[0].clone();
            let key = id.as_str().as_bytes_vec();
            proof {
                assert(key@ == encode_utf8(id@));
                assert(self.buffer@.contains_key(self.buf_ids@[0]@));
            }
            let prior = match sled_get(&self.db, &key) {
                Ok(p) => p,
                Err(e) => {
                    self.failed = true;
                    return Err(e);
                },
            };
            let ghost p0 = self.persisted@;
            let ghost b0 = self.buffer@;
            let mut merged: Vec<(u32, u32)> = match prior {
                Some(bytes) => {
                    proof {
                        broadcast use vstd::utf8::encode_utf8_decode_utf8;

                        assert(sled_contents(&self.db).contains_key(encode_utf8(id@)));
                        if !self.persisted@.contains_key(id@) {
                            assert(false);
                        }
                        lemma_dec_enc(self.persisted@[id@]);
                    }
                    match decode_intervals(&bytes) {
                        Some(v) => v,
                        None => {
                            proof {
                                assert(false);
                            }
                            return Err(Error::OnDiskDeserializeVec);
                        },
                    }
                },
                None => Vec::new(),
            };
            let ghost prior_seq = merged@;
            proof {
                broadcast use vstd::utf8::encode_utf8_decode_utf8;

                if p0.contains_key(id@) {
                    lemma_dec_enc(p0[id@]);
                    assert(prior_seq == p0[id@]);
                } else {
                    assert(prior_seq == Seq::<(u32, u32)>::empty());
                }
            }
            let buffered = match self.buffer.get(id.as_str()) {
                Some(v) => crate::reads2ovl::fullmemory::copy_intervals(v),
                None => {
                    proof {
                        assert(false);
                    }
                    Vec::new()
                },
            };
            let mut extra = buffered;
            merged.append(&mut extra);
            let bytes = encode_intervals(&merged);
            let ghost sc0 = sled_contents(&self.db);
            proof {
                assert(db_reflects(p0, sc0));
                assert(db_only(p0, sc0));
            }
            match sled_insert(&mut self.db, &key, &bytes) {
                Ok(()) => (),
                Err(e) => {
                    self.failed = true;
                    return Err(e);
                },
            }
            let ghost model0 = self.model();
            let ghost order0 = self.order();
            let ghost bufids0 = self.buf_ids@;
            self.buffer.remove(id.as_str());
            let _ = self.buf_ids.remove(0);
            proof {
                self.persisted@ = p0.insert(id@, merged@);
            }
            proof {
                broadcast use vstd::utf8::encode_utf8_decode_utf8;

                assert(sled_contents(&self.db) == sc0.insert(key@, bytes@));
                assert(db_reflects(p0, sc0));
                assert(db_only(p0, sc0));
                lemma_db_insert(p0, sc0, id@, merged@);
                assert(self.persisted@ == p0.insert(id@, merged@));
                assert(key@ == encode_utf8(id@));
                assert(bytes@ == enc_pairs(merged@));
                assert(db_reflects(self.persisted@, sled_contents(&self.db)));
                assert(db_only(self.persisted@, sled_contents(&self.db)));
                // the buffered intervals moved behind the persisted ones
                assert forall|k2: Seq<char>| true implies self.intervals_of(k2) == ({
                    let p = if p0.contains_key(k2) {
                        p0[k2]
                    } else {
                        Seq::<(u32, u32)>::empty()
                    };
                    let b = if b0.contains_key(k2) {
                        b0[k2]@
                    } else {
                        Seq::<(u32, u32)>::empty()
                    };
                    p + b
                }) by {
                    if k2 == id@ {
                        assert(self.intervals_of(k2) =~= merged@);
                        assert(merged@ == prior_seq + b0[k2]@);
                    } else {
                        assert(self.intervals_of(k2) =~= ({
                            let p = if p0.contains_key(k2) {
                                p0[k2]
                            } else {
                                Seq::<(u32, u32)>::empty()
                            };
                            let b = if b0.contains_key(k2) {
                                b0[k2]@
                            } else {
                                Seq::<(u32, u32)>::empty()
                            };
                            p + b
                        }));
                    }
                }
                assert(self.model() =~= model0);
                assert(self.order() =~= order0);
                // the drained id leaves both the buffer and its id list
                assert forall|a: int, b: int|
                    0 <= a < b < self.buf_ids@.len() implies self.buf_ids@[a]@
                    != self.buf_ids@[b]@ by {
                    assert(self.buf_ids@[a] == bufids0[a + 1]);
                    assert(self.buf_ids@[b] == bufids0[b + 1]);
                }
                assert forall|i2: int|
                    0 <= i2 < self.buf_ids@.len() implies self.buffer@.contains_key(
                    (#[trigger] self.buf_ids@[i2])@) by {
                    assert(self.buf_ids@[i2] == bufids0[i2 + 1]);
                    assert(bufids0[i2 + 1]@ != bufids0[0]@);
                }
                assert forall|k2: Seq<char>|
                    self.buffer@.contains_key(k2) implies exists|j: int|
                    0 <= j < self.buf_ids@.len() && self.buf_ids@[j]@ == k2 by {
                    let j0 = choose|j0: int| 0 <= j0 < bufids0.len() && bufids0[j0]@ == k2;
                    assert(j0 != 0);
                    assert(self.buf_ids@[j0 - 1]@ == k2);
                }
                assert(self.ids_set@.contains(id@));
                assert forall|k2: Seq<char>|
                    self.persisted@.contains_key(k2) implies self.ids_set@.contains(k2) by {
                    if k2 != id@ {
                        assert(p0.contains_key(k2));
                    }
                }
                assert(names_unique(self.ids@));
                assert(names_in_set(self.ids@, self.ids_set@));
                assert(keys_in_set(self.buffer@, self.ids_set@));
                assert(keys_in_set(self.reads2len@, self.ids_set@));
                assert(keys_in_set(self.persisted@, self.ids_set@));
                assert(set_covered(self.ids_set@, self.ids@));
            }
        }
        self.number_of_value = 0;
        proof {
            assert forall|k: Seq<char>| !self.buffer@.contains_key(k) by {}
            assert(self.buffer@.dom() =~= Set::<Seq<char>>::empty());
        }
        Ok(())
    }
}

impl Reads2Ovl for OnDisk {
    /// The disk-paged store leans on the database, which can fail.
    open spec fn fallible(&self) -> bool {
        true
    }

    /// A page carries at most the configured batch size, and always at
    /// least one read.
    closed spec fn page_limit(&self) -> int {
        if self.buffer_size < 1 {
            1
        } else {
            self.buffer_size as int
        }
    }

    closed spec fn model(&self) -> Map<Seq<char>, (Seq<(u32, u32)>, usize)> {
        Map::new(
            |k: Seq<char>| self.ids_set@.contains(k),
            |k: Seq<char>|
                (
                    self.intervals_of(k),
                    if self.reads2len@.contains_key(k) {
                        self.reads2len@[k]
                    } else {
                        0
                    },
                ),
        )
    }

    closed spec fn order(&self) -> Seq<Seq<char>> {
        self.ids@.map_values(|s: String| s@)
    }

    closed spec fn wf(&self) -> bool {
        self.base_wf() && self.buf_wf() && self.ids_cover()
    }

    proof fn order_model(&self) {
        let ord = self.order();
        let dom = self.model().dom();
        assert(dom =~= ord.to_set()) by {
            assert forall|k: Seq<char>| dom.contains(k) implies ord.to_set().contains(k) by {
                let i = choose|i: int| 0 <= i < self.ids@.len() && self.ids@[i]@ == k;
                assert(ord[i] == k);
            }
            assert forall|k: Seq<char>| ord.to_set().contains(k) implies dom.contains(k) by {
                let i = choose|i: int| 0 <= i < ord.len() && ord[i] == k;
                assert(self.ids_set@.contains(self.ids@[i]@));
            }
        }
        assert(forall|i: int, j: int| 0 <= i < j < ord.len() ==> ord[i] != ord[j]);
        ord.unique_seq_to_set();
    }

    #[verifier::rlimit(100)]
    fn overlap(&self, id: &str) -> (r: Result<Vec<(u32, u32)>, Error>) {
        if self.failed {
            return Err(Error::OnDiskReadDatabase);
        }
        let key = id.as_bytes_vec();
        let prior = match sled_get(&self.db, &key) {
            Ok(p) => p,
            Err(e) => {
                return Err(e);
            },
        };
        let mut out: Vec<(u32, u32)> = match prior {
            Some(bytes) => {
                proof {
                    broadcast use vstd::utf8::encode_utf8_decode_utf8;

                    assert(sled_contents(&self.db).contains_key(encode_utf8(id@)));
                    if !self.persisted@.contains_key(id@) {
                        assert(false);
                    }
                    lemma_dec_enc(self.persisted@[id@]);
                }
                match decode_intervals(&bytes) {
                    Some(v) => v,
                    None => {
                        proof {
                            assert(false);
                        }
                        return Err(Error::OnDiskDeserializeVec);
                    },
                }
            },
            None => Vec::new(),
        };
        proof {
            broadcast use vstd::utf8::encode_utf8_decode_utf8;

            if self.persisted@.contains_key(id@) {
                lemma_dec_enc(self.persisted@[id@]);
            }
        }
        let mut extra = match self.buffer.get(id) {
            Some(v) => crate::reads2ovl::fullmemory::copy_intervals(v),
            None => Vec::new(),
        };
        out.append(&mut extra);
        proof {
            if self.ids_set@.contains(id@) {
                assert(out@ =~= self.intervals_of(id@));
            } else {
                assert(out@ =~= Seq::<(u32, u32)>::empty());
            }
        }
        Ok(out)
    }

    fn length(&self, id: &str) -> (r: usize) {
        match self.reads2len.get(id) {
            Some(l) => *l,
            None => 0,
        }
    }

    /// The flush runs exactly when the pending-value count reaches the
    /// configured threshold, not earlier and not later.
    #[verifier::rlimit(100)]
    fn add_overlap(&mut self, id: String, ovl: (u32, u32)) -> (r: Result<(), Error>)
        ensures
            final(self).flush_threshold() == old(self).flush_threshold(),
            r is Ok ==> final(self).pending() == ({
                let bumped = if old(self).pending() < u64::MAX {
                    old(self).pending() + 1
                } else {
                    old(self).pending()
                };
                if bumped >= old(self).flush_threshold() {
                    0int
                } else {
                    bumped
                }
            }),
    {
        let ghost m0 = self.model();
        let ghost ord0 = self.order();
        let ghost ids0 = self.ids@;
        let ghost bufids0 = self.buf_ids@;
        match self.buffer.get(id.as_str()) {
            Some(v) => {
                let mut nv = crate::reads2ovl::fullmemory::copy_intervals(v);
                nv.push(ovl);
                self.buffer.insert(id.clone(), nv);
            },
            None => {
                let mut nv: Vec<(u32, u32)> = Vec::new();
                nv.push(ovl);
                self.buf_ids.push(id.clone());
                self.buffer.insert(id.clone(), nv);
                proof {
                    assert(nv@ =~= seq![ovl]);
                    assert forall|k: Seq<char>|
                        self.buffer@.contains_key(k) implies exists|j: int|
                        0 <= j < self.buf_ids@.len() && self.buf_ids@[j]@ == k by {
                        if k == id@ {
                            assert(self.buf_ids@[self.buf_ids@.len() - 1]@ == k);
                        } else {
                            let j = choose|j: int| 0 <= j < bufids0.len() && bufids0[j]@ == k;
                            assert(self.buf_ids@[j]@ == k);
                        }
                    }
                }
            },
        }
        if !self.ids_set.contains(id.as_str()) {
            self.ids.push(id.clone());
            self.ids_set.insert(id.clone());
            proof {
                assert forall|k: Seq<char>| self.ids_set@.contains(k) implies exists|j: int|
                    0 <= j < self.ids@.len() && self.ids@[j]@ == k by {
                    if k == id@ {
                        assert(self.ids@[self.ids@.len() - 1]@ == k);
                    } else {
                        let j = choose|j: int| 0 <= j < ids0.len() && ids0[j]@ == k;
                        assert(self.ids@[j]@ == k);
                    }
                }
            }
        } else {
            proof {
                assert forall|k: Seq<char>| self.ids_set@.contains(k) implies exists|j: int|
                    0 <= j < self.ids@.len() && self.ids@[j]@ == k by {
                    let j = choose|j: int| 0 <= j < ids0.len() && ids0[j]@ == k;
                    assert(self.ids@[j]@ == k);
                }
            }
        }
        proof {
            assert forall|k2: Seq<char>| true implies self.intervals_of(k2) == (if k2 == id@ {
                if m0.contains_key(id@) {
                    m0[id@].0.push(ovl)
                } else {
                    seq![ovl]
                }
            } else {
                if m0.contains_key(k2) {
                    m0[k2].0
                } else {
                    Seq::<(u32, u32)>::empty()
                }
            }) by {
                if k2 == id@ {
                    if old(self).buffer@.contains_key(id@) {
                        assert(self.intervals_of(k2) =~= old(self).intervals_of(k2).push(ovl));
                    } else {
                        assert(self.intervals_of(k2) =~= old(self).intervals_of(k2).push(ovl));
                    }
                } else {
                    assert(self.intervals_of(k2) =~= old(self).intervals_of(k2));
                }
            }
            assert(self.model() =~= model_add_overlap(m0, id@, ovl));
            assert(self.order() =~= order_add(ord0, m0, id@));
        }
        if self.number_of_value < u64::MAX {
            self.number_of_value = self.number_of_value + 1;
        }
        if self.number_of_value >= self.buffer_size {
            match self.clean_buffer() {
                Ok(()) => (),
                Err(e) => {
                    return Err(e);
                },
            }
        }
        Ok(())
    }

    #[verifier::rlimit(100)]
    fn add_length(&mut self, id: String, length: usize)
        ensures
            final(self).pending() == old(self).pending(),
            final(self).flush_threshold() == old(self).flush_threshold(),
    {
        let ghost m0 = self.model();
        let ghost ord0 = self.order();
        let ghost ids0 = self.ids@;
        let known = match self.reads2len.get(id.as_str()) {
            Some(l) => *l != 0,
            None => false,
        };
        if !known {
            self.reads2len.insert(id.clone(), length);
        }
        if !self.ids_set.contains(id.as_str()) {
            self.ids.push(id.clone());
            self.ids_set.insert(id.clone());
            proof {
                assert forall|k: Seq<char>| self.ids_set@.contains(k) implies exists|j: int|
                    0 <= j < self.ids@.len() && self.ids@[j]@ == k by {
                    if k == id@ {
                        assert(self.ids@[self.ids@.len() - 1]@ == k);
                    } else {
                        let j = choose|j: int| 0 <= j < ids0.len() && ids0[j]@ == k;
                        assert(self.ids@[j]@ == k);
                    }
                }
            }
        } else {
            proof {
                assert forall|k: Seq<char>| self.ids_set@.contains(k) implies exists|j: int|
                    0 <= j < self.ids@.len() && self.ids@[j]@ == k by {
                    let j = choose|j: int| 0 <= j < ids0.len() && ids0[j]@ == k;
                    assert(self.ids@[j]@ == k);
                }
            }
        }
        proof {
            assert forall|k2: Seq<char>| true implies self.intervals_of(k2) == old(
                self,
            ).intervals_of(k2) by {
                assert(self.intervals_of(k2) =~= old(self).intervals_of(k2));
            }
            assert(self.model() =~= model_add_length(m0, id@, length));
            assert(self.order() =~= order_add(ord0, m0, id@));
        }
    }

    fn add_overlap_and_length(&mut self, id: String, ovl: (u32, u32), length: usize) -> (r: Result<
        (),
        Error,
    >) {
        let ghost m0 = self.model();
        let ghost ord0 = self.order();
        self.add_length(id.clone(), length);
        let r = self.add_overlap(id, ovl);
        proof {
            if r is Ok {
                assert(self.model() =~= model_add_both(m0, id@, ovl, length));
            }
        }
        r
    }

    fn get_reads(&self) -> (r: Vec<String>) {
        crate::reads2ovl::fullmemory::copy_names(&self.ids)
    }

    #[verifier::rlimit(100)]
    fn get_overlaps(&mut self, new: &mut OvlPage) -> (r: Result<bool, Error>) {
        match self.clean_buffer() {
            Ok(()) => (),
            Err(e) => {
                return Err(e);
            },
        }
        new.ids.clear();
        new.map.clear();
        proof {
            assert(new.wf());
            assert(new.model() =~= Map::<Seq<char>, (Seq<(u32, u32)>, usize)>::empty());
        }
        if self.ids.len() == 0 {
            proof {
                assert(self.model().dom() =~= Set::<Seq<char>>::empty());
                assert(self.model() =~= old(self).model().remove_keys(new.model().dom()));
                assert(new.model().dom() =~= Set::<Seq<char>>::empty());
                assert(new.model().dom().len() == 0);
                assert(self.buffer_size == old(self).buffer_size);
            }
            return Ok(true);
        }
        let mut n: usize = if self.buffer_size > (usize::MAX as u64) {
            self.ids.len()
        } else if (self.buffer_size as usize) < self.ids.len() {
            self.buffer_size as usize
        } else {
            self.ids.len()
        };
        if n == 0 {
            n = 1;
        }
        proof {
            assert(self.buffer_size == old(self).buffer_size);
            assert(self.ids@ == old(self).ids@);
            assert(n as int == (
            if old(self).page_limit() <= old(self).ids@.len() as int {
                old(self).page_limit()
            } else {
                old(self).ids@.len() as int
            }));
            assert(forall|j: int|
                0 <= j < self.ids@.len() ==> self.ids_set@.contains(
                    (#[trigger] self.ids@[j])@,
                ));
        }
        let mut rest = self.ids.split_off(n);
        core::mem::swap(&mut self.ids, &mut rest);
        // rest now holds the page's ids; self.ids what stays behind
        let ghost mid = self.model();
        let page_ids = rest;
        let ghost whole_ids = page_ids@ + self.ids@;
        proof {
            assert(whole_ids =~= old(self).ids@);
            assert(forall|j: int|
                0 <= j < whole_ids.len() ==> self.ids_set@.contains((#[trigger] whole_ids[j])@));
            assert(forall|j: int|
                0 <= j < page_ids@.len() ==> whole_ids[j] == (#[trigger] page_ids@[j]));
            assert forall|j: int| 0 <= j < self.ids@.len() implies self.ids_set@.contains(
                (#[trigger] self.ids@[j])@,
            ) by {
                assert(self.ids@[j] == whole_ids[page_ids@.len() + j]);
            }
            assert forall|a: int, b: int| 0 <= a < b < self.ids@.len() implies self.ids@[a]@
                != self.ids@[b]@ by {
                assert(self.ids@[a] == whole_ids[page_ids@.len() + a]);
                assert(self.ids@[b] == whole_ids[page_ids@.len() + b]);
            }
            assert(self.base_wf());
            assert(tail_in_set(page_ids@, 0, self.ids_set@)) by {
                assert forall|a: int| 0 <= a < page_ids@.len() implies self.ids_set@.contains(
                    (#[trigger] page_ids@[a])@,
                ) by {
                    assert(page_ids@[a] == whole_ids[a]);
                }
            }
            assert(covered_by_two(self.ids_set@, self.ids@, page_ids@, 0)) by {
                assert forall|k: Seq<char>| self.ids_set@.contains(k) implies (exists|a: int|
                    0 <= a < self.ids@.len() && self.ids@[a]@ == k) || (exists|a: int|
                    0 <= a < page_ids@.len() && page_ids@[a]@ == k) by {
                    let j = choose|j: int|
                        0 <= j < old(self).ids@.len() && old(self).ids@[j]@ == k;
                    if j < page_ids@.len() {
                        assert(page_ids@[j]@ == k);
                    } else {
                        assert(self.ids@[j - page_ids@.len()]@ == k);
                    }
                }
            }
        }
        let mut i: usize = 0;
        while i < page_ids.len()
            invariant
                0 <= i <= page_ids@.len(),
                whole_ids == page_ids@ + self.ids@,
                forall|a: int, b: int|
                    0 <= a < b < whole_ids.len() ==> whole_ids[a]@ != whole_ids[b]@,
                self.ids@ == whole_ids.subrange(page_ids@.len() as int, whole_ids.len() as int),
                self.base_wf(),
                self.buf_wf(),
                !self.failed,
                self.buffer@.dom() =~= Set::<Seq<char>>::empty(),
                new.wf(),
                new.ids@.len() == i,
                // ids not yet paged are still known
                tail_in_set(page_ids@, i as int, self.ids_set@),
                // known ids stand in the remainder or in the unpaged part
                covered_by_two(self.ids_set@, self.ids@, page_ids@, i as int),
                // ids paged so far moved into the page
                forall|k: int|
                    0 <= k < i ==> new.model().contains_key((#[trigger] page_ids@[k])@)
                        && new.model()[page_ids@[k]@] == mid[page_ids@[k]@],
                forall|k: Seq<char>|
                    new.model().contains_key(k) ==> exists|j: int|
                        0 <= j < i && page_ids@[j]@ == k,
                self.model() == mid.remove_keys(new.model().dom()),
                mid == old(self).model(),
            decreases page_ids@.len() - i,
        {
            let id = page_ids[i].clone();
            proof {
                assert(self.ids_set@.contains(id@));
                assert(!new.model().contains_key(id@)) by {
                    if new.model().contains_key(id@) {
                        let j = choose|j: int| 0 <= j < i && page_ids@[j]@ == id@;
                        assert(whole_ids[j]@ == whole_ids[i as int]@);
                        assert(false);
                    }
                }
                assert(self.model().contains_key(id@));
                assert(self.model()[id@] == mid[id@]);
                assert(mid.contains_key(id@));
            }
            let key = id.as_str().as_bytes_vec();
            proof {
                assert(key@ == encode_utf8(id@));
            }
            let ghost sc0 = sled_contents(&self.db);
            let ghost p0 = self.persisted@;
            proof {
                assert(db_reflects(p0, sc0));
                assert(db_only(p0, sc0));
            }
            let removed = match sled_remove(&mut self.db, &key) {
                Ok(p) => p,
                Err(e) => {
                    self.failed = true;
                    let mut j: usize = i;
                    while j < page_ids.len()
                        invariant
                            i <= j <= page_ids@.len(),
                            whole_ids == page_ids@ + whole_ids.subrange(
                                page_ids@.len() as int,
                                whole_ids.len() as int,
                            ),
                            forall|a: int, b: int|
                                0 <= a < b < whole_ids.len() ==> whole_ids[a]@ != whole_ids[b]@,
                            self.ids@ == whole_ids.subrange(
                                page_ids@.len() as int,
                                whole_ids.len() as int,
                            ) + page_ids@.subrange(i as int, j as int),
                            names_in_set(self.ids@, self.ids_set@),
                            names_unique(self.ids@),
                            self.buf_wf(),
                            keys_in_set(self.buffer@, self.ids_set@),
                            keys_in_set(self.reads2len@, self.ids_set@),
                            keys_in_set(self.persisted@, self.ids_set@),
                            self.failed,
                            covered_by_two(self.ids_set@, self.ids@, page_ids@, j as int),
                            tail_in_set(page_ids@, i as int, self.ids_set@),
                        decreases page_ids@.len() - j,
                    {
                        let ghost ridso = self.ids@;
                        self.ids.push(page_ids[j].clone());
                        proof {
                            assert(self.ids@ =~= whole_ids.subrange(
                                page_ids@.len() as int,
                                whole_ids.len() as int,
                            ) + page_ids@.subrange(i as int, j + 1));
                            assert forall|a: int, b: int|
                                0 <= a < b < self.ids@.len() implies self.ids@[a]@
                                != self.ids@[b]@ by {
                                let n0 = whole_ids.len() - page_ids@.len();
                                let wa: int = if a < n0 {
                                    page_ids@.len() + a
                                } else {
                                    i + (a - n0)
                                };
                                let wb: int = if b < n0 {
                                    page_ids@.len() + b
                                } else {
                                    i + (b - n0)
                                };
                                assert(self.ids@[a] == whole_ids[wa]);
                                assert(self.ids@[b] == whole_ids[wb]);
                            }
                            assert(covered_by_two(
                                self.ids_set@,
                                self.ids@,
                                page_ids@,
                                j + 1,
                            )) by {
                                assert(covered_by_two(self.ids_set@, ridso, page_ids@, j as int));
                                assert forall|k: Seq<char>|
                                    self.ids_set@.contains(k) implies (exists|a: int|
                                    0 <= a < self.ids@.len() && self.ids@[a]@ == k) || (exists|a: int|
                                    j + 1 <= a < page_ids@.len() && page_ids@[a]@ == k) by {
                                    if exists|a: int| 0 <= a < ridso.len() && ridso[a]@ == k {
                                        let a = choose|a: int|
                                            0 <= a < ridso.len() && ridso[a]@ == k;
                                        assert(self.ids@[a]@ == k);
                                    } else {
                                        let a = choose|a: int|
                                            j <= a < page_ids@.len() && page_ids@[a]@ == k;
                                        if a == j {
                                            assert(self.ids@[self.ids@.len() - 1]@ == k);
                                        }
                                    }
                                }
                            }
                        }
                        j = j + 1;
                    }
                    proof {
                        assert(set_covered(self.ids_set@, self.ids@)) by {
                            assert forall|k: Seq<char>|
                                self.ids_set@.contains(k) implies exists|a: int|
                                0 <= a < self.ids@.len() && self.ids@[a]@ == k by {}
                        }
                    }
                    return Err(e);
                },
            };
            let intervals: Vec<(u32, u32)> = match removed {
                Some(bytes) => {
                    proof {
                        assert(sc0.contains_key(key@));
                        if !p0.contains_key(id@) {
                            assert(!sc0.contains_key(encode_utf8(id@)));
                            assert(false);
                        }
                        assert(bytes@ == sc0[encode_utf8(id@)]);
                        assert(bytes@ == enc_pairs(p0[id@]));
                        lemma_dec_enc(p0[id@]);
                    }
                    match decode_intervals(&bytes) {
                        Some(v) => v,
                        None => {
                            proof {
                                assert(false);
                            }
                            return Err(Error::OnDiskDeserializeVec);
                        },
                    }
                },
                None => Vec::new(),
            };
            proof {
                if p0.contains_key(id@) {
                    lemma_dec_enc(p0[id@]);
                    assert(intervals@ == p0[id@]);
                } else {
                    assert(intervals@ =~= Seq::<(u32, u32)>::empty());
                }
                assert(intervals@ == mid[id@].0) by {
                    assert(self.intervals_of(id@) =~= intervals@);
                    assert(self.model().contains_key(id@));
                    assert(self.model()[id@].0 == self.intervals_of(id@));
                    assert(self.model()[id@] == mid[id@]);
                }
            }
            let length: usize = match self.reads2len.get(id.as_str()) {
                Some(l) => *l,
                None => 0,
            };
            proof {
                assert(length == mid[id@].1) by {
                    assert(self.model()[id@].1 == mid[id@].1);
                }
            }
            let ghost model_pre = self.model();
            let ghost new_model_pre = new.model();
            let ghost set_pre = self.ids_set@;
            self.reads2len.remove(id.as_str());
            let _ = self.ids_set.remove(id.as_str());
            proof {
                self.persisted@ = p0.remove(id@);
            }
            let ghost nids0 = new.ids@;
            new.ids.push(id.clone());
            new.map.insert(id.clone(), (intervals, length));
            proof {
                broadcast use vstd::utf8::encode_utf8_decode_utf8;

                assert(sled_contents(&self.db) == sc0.remove(key@));
                lemma_db_remove(p0, sc0, id@);
                assert(self.persisted@ == p0.remove(id@));
                assert(key@ == encode_utf8(id@));
                assert(db_reflects(self.persisted@, sled_contents(&self.db)));
                assert(db_only(self.persisted@, sled_contents(&self.db)));
                assert forall|k2: Seq<char>|
                    new.map@.contains_key(k2) implies exists|j: int|
                    0 <= j < new.ids@.len() && new.ids@[j]@ == k2 by {
                    if k2 == id@ {
                        assert(new.ids@[new.ids@.len() - 1]@ == k2);
                    } else {
                        let j = choose|j: int| 0 <= j < nids0.len() && nids0[j]@ == k2;
                        assert(new.ids@[j]@ == k2);
                    }
                }
                assert(new.model() =~= new_model_pre.insert(id@, (intervals@, length)));
                assert(self.model() =~= model_pre.remove(id@)) by {
                    assert forall|k2: Seq<char>|
                        self.model().contains_key(k2) implies self.model()[k2]
                        == model_pre.remove(id@)[k2] by {
                        assert(set_pre.contains(k2) && k2 != id@);
                        let expect = if p0.contains_key(k2) {
                            p0[k2]
                        } else {
                            Seq::<(u32, u32)>::empty()
                        };
                        assert(self.intervals_of(k2) =~= expect);
                        assert(model_pre[k2].0 =~= expect);
                        assert(model_pre[k2].1 == self.model()[k2].1);
                    }
                }
                assert(new.model().dom() =~= new_model_pre.dom().insert(id@));
                assert(mid.remove_keys(new_model_pre.dom().insert(id@)) =~= mid.remove_keys(
                    new_model_pre.dom(),
                ).remove(id@));
                assert(mid.remove_keys(new.model().dom()) =~= model_pre.remove(id@));
                assert(self.model() =~= mid.remove_keys(new.model().dom()));
                // the unpaged ids stay known, and the remainder still covers
                assert(tail_in_set(page_ids@, i + 1, self.ids_set@)) by {
                    assert(tail_in_set(page_ids@, i as int, set_pre));
                    assert forall|j: int|
                        i + 1 <= j < page_ids@.len() implies self.ids_set@.contains(
                        (#[trigger] page_ids@[j])@) by {
                        assert(whole_ids[j]@ != whole_ids[i as int]@);
                        assert(set_pre.contains(page_ids@[j]@));
                    }
                }
                assert(names_in_set(self.ids@, set_pre));
                assert forall|j: int| 0 <= j < self.ids@.len() implies self.ids_set@.contains(
                    (#[trigger] self.ids@[j])@,
                ) by {
                    assert(self.ids@[j] == whole_ids[page_ids@.len() + j]);
                    assert(whole_ids[page_ids@.len() + j]@ != whole_ids[i as int]@);
                    assert(set_pre.contains(self.ids@[j]@));
                }
                assert(names_in_set(self.ids@, self.ids_set@));
                assert(covered_by_two(self.ids_set@, self.ids@, page_ids@, i + 1)) by {
                    assert(covered_by_two(set_pre, self.ids@, page_ids@, i as int));
                    assert forall|k2: Seq<char>|
                        self.ids_set@.contains(k2) implies (exists|j: int|
                        0 <= j < self.ids@.len() && self.ids@[j]@ == k2) || (exists|j: int|
                        i + 1 <= j < page_ids@.len() && page_ids@[j]@ == k2) by {
                        assert(set_pre.contains(k2) && k2 != id@);
                        if exists|j: int| i <= j < page_ids@.len() && page_ids@[j]@ == k2 {
                            let j = choose|j: int| i <= j < page_ids@.len() && page_ids@[j]@ == k2;
                            assert(j != i);
                            assert(i + 1 <= j < page_ids@.len() && page_ids@[j]@ == k2);
                        }
                    }
                }
                assert forall|a: int, b: int| 0 <= a < b < new.ids@.len() implies new.ids@[a]@
                    != new.ids@[b]@ by {
                    if b == new.ids@.len() - 1 {
                        assert(new.ids@[b]@ == id@);
                        assert(new.ids@[a] == nids0[a]);
                        assert(new_model_pre.contains_key(nids0[a]@));
                        let j = choose|j: int| 0 <= j < i && page_ids@[j]@ == nids0[a]@;
                        assert(whole_ids[j]@ != whole_ids[i as int]@);
                    } else {
                        assert(new.ids@[a] == nids0[a]);
                        assert(new.ids@[b] == nids0[b]);
                    }
                }
                assert(names_unique(self.ids@));
                assert(names_in_set(self.ids@, self.ids_set@));
                assert(keys_in_set(self.buffer@, self.ids_set@));
                assert forall|k2: Seq<char>|
                    self.reads2len@.contains_key(k2) implies self.ids_set@.contains(k2) by {
                    assert(k2 != id@);
                    assert(set_pre.contains(k2));
                }
                assert forall|k2: Seq<char>|
                    self.persisted@.contains_key(k2) implies self.ids_set@.contains(k2) by {
                    assert(k2 != id@);
                    assert(p0.contains_key(k2));
                    assert(set_pre.contains(k2));
                }
            }
            i = i + 1;
        }
        proof {
            assert(self.model() =~= old(self).model().remove_keys(new.model().dom()));
            assert forall|k: Seq<char>| self.ids_set@.contains(k) implies exists|j: int|
                0 <= j < self.ids@.len() && self.ids@[j]@ == k by {}
            assert forall|k: Seq<char>|
                new.model().contains_key(k) implies old(self).model().dom().contains(k) by {
                let j = choose|j: int| 0 <= j < page_ids@.len() && page_ids@[j]@ == k;
                assert(old(self).ids@[j]@ == k);
                assert(old(self).ids_set@.contains(old(self).ids@[j]@));
            }
            assert(new.model().dom().subset_of(old(self).model().dom()));
            // the page carries exactly its ids, which number the batch size
            assert(new.model().dom().len() == page_ids@.len()) by {
                let nord = new.ids@.map_values(|s: String| s@);
                assert(new.model().dom() =~= nord.to_set()) by {
                    assert forall|k: Seq<char>| new.model().dom().contains(k) implies nord.to_set()
                        .contains(k) by {
                        let j = choose|j: int|
                            0 <= j < new.ids@.len() && new.ids@[j]@ == k;
                        assert(nord[j] == k);
                    }
                    assert forall|k: Seq<char>| nord.to_set().contains(k) implies new.model().dom()
                        .contains(k) by {
                        let j = choose|j: int| 0 <= j < nord.len() && nord[j] == k;
                        assert(new.map@.contains_key(new.ids@[j]@));
                    }
                }
                assert(forall|a: int, b: int| 0 <= a < b < nord.len() ==> nord[a] != nord[b]);
                nord.unique_seq_to_set();
            }
            old(self).order_model();
            assert(old(self).model().dom().len() == old(self).ids@.len());
            assert(new.model().dom().len() as int == (
            if old(self).page_limit() <= old(self).model().dom().len() as int {
                old(self).page_limit()
            } else {
                old(self).model().dom().len() as int
            }));
            if self.ids@.len() == 0 {
                assert(self.model().dom() =~= Set::<Seq<char>>::empty());
                assert(self.model().dom() == Set::<Seq<char>>::empty());
            } else {
                assert(self.ids_set@.contains(self.ids@[0]@));
                assert(self.model().dom().contains(self.ids@[0]@));
                assert(self.model().dom() != Set::<Seq<char>>::empty());
                old(self).order_model();
                self.order_model();
                assert(new.model().contains_key(page_ids@[0]@));
                assert(old(self).model().dom().contains(page_ids@[0]@));
                assert(!self.model().dom().contains(page_ids@[0]@));
                assert(self.model().dom().subset_of(old(self).model().dom()));
                vstd::set_lib::lemma_len_subset(self.model().dom(), old(self).model().dom());
                assert(self.model().dom() != old(self).model().dom());
            }
        }
        Ok(self.ids.len() == 0)
    }

    fn read_buffer_size(&self) -> usize {
        self.read_buffer_size
    }
}

} // verus!
