//! The private binary snapshot format of the store: little-endian fixed-width
//! integers and fixed-width records, with a proved encode/decode round trip.
//! A snapshot that does not decode exactly (truncated, corrupt, or breaking a
//! store invariant) is rejected as a whole, and the caller falls back to the
//! empty store.
use vstd::prelude::*;

use crate::store::{
    has_key, key_idx, remove_key, unique_keys, value_of, Database, LeastVisitor, StoreModel,
    StoredIp, VISIT_HISTORY_MAX_SIZE,
};

verus! {

/// 256 to the power `n`.
pub open spec fn pow256(n: nat) -> nat
    decreases n,
{
    if n == 0 {
        1
    } else {
        256 * pow256((n - 1) as nat)
    }
}

pub proof fn lemma_pow256_concrete()
    ensures
        pow256(4) == 0x1_0000_0000,
        pow256(8) == 0x1_0000_0000_0000_0000,
        pow256(14) == 0x1_0000_0000_0000_0000_0000_0000_0000,
        pow256(16) == 0x1_0000_0000_0000_0000_0000_0000_0000_0000,
{
    assert(pow256(0) == 1);
    assert(pow256(1) == 256);
    assert(pow256(2) == 0x1_0000);
    assert(pow256(3) == 0x100_0000);
    assert(pow256(4) == 0x1_0000_0000);
    assert(pow256(5) == 0x100_0000_0000);
    assert(pow256(6) == 0x1_0000_0000_0000);
    assert(pow256(7) == 0x100_0000_0000_0000);
    assert(pow256(8) == 0x1_0000_0000_0000_0000);
    assert(pow256(9) == 0x100_0000_0000_0000_0000);
    assert(pow256(10) == 0x1_0000_0000_0000_0000_0000);
    assert(pow256(11) == 0x100_0000_0000_0000_0000_0000);
    assert(pow256(12) == 0x1_0000_0000_0000_0000_0000_0000);
    assert(pow256(13) == 0x100_0000_0000_0000_0000_0000_0000);
    assert(pow256(14) == 0x1_0000_0000_0000_0000_0000_0000_0000);
    assert(pow256(15) == 0x100_0000_0000_0000_0000_0000_0000_0000);
    assert(pow256(16) == 0x1_0000_0000_0000_0000_0000_0000_0000_0000);
}

pub proof fn lemma_pow256_mono(a: nat, b: nat)
    requires
        a <= b,
    ensures
        pow256(a) <= pow256(b),
        pow256(a) >= 1,
    decreases b,
{
    if b > 0 {
        if a == b {
            lemma_pow256_mono((a - 1) as nat, (b - 1) as nat);
        } else {
            lemma_pow256_mono(a, (b - 1) as nat);
        }
    }
}

/// The `n` little-endian bytes of `v` (low byte first).
pub open spec fn le_bytes(v: nat, n: nat) -> Seq<u8>
    decreases n,
{
    if n == 0 {
        Seq::empty()
    } else {
        seq![(v % 256) as u8] + le_bytes(v / 256, (n - 1) as nat)
    }
}

/// The value of a little-endian byte string.
pub open spec fn le_val(s: Seq<u8>) -> nat
    decreases s.len(),
{
    if s.len() == 0 {
        0
    } else {
        (s[0] + 256 * le_val(s.drop_first())) as nat
    }
}

pub proof fn lemma_le_bytes_len(v: nat, n: nat)
    ensures
        le_bytes(v, n).len() == n,
    decreases n,
{
    if n > 0 {
        lemma_le_bytes_len(v / 256, (n - 1) as nat);
    }
}

pub proof fn lemma_le_val_bound(s: Seq<u8>)
    ensures
        le_val(s) < pow256(s.len()),
    decreases s.len(),
{
    if s.len() > 0 {
        lemma_le_val_bound(s.drop_first());
    }
}

/// Writing `n` bytes and reading them back gives the value again, provided it
/// fits in `n` bytes.
pub proof fn lemma_le_round(v: nat, n: nat)
    requires
        v < pow256(n),
    ensures
        le_val(le_bytes(v, n)) == v,
    decreases n,
{
    if n == 0 {
    } else {
        let b = le_bytes(v, n);
        lemma_le_bytes_len(v / 256, (n - 1) as nat);
        assert(b.drop_first() =~= le_bytes(v / 256, (n - 1) as nat));
        assert(v / 256 < pow256((n - 1) as nat)) by {
            assert(pow256(n) == 256 * pow256((n - 1) as nat));
            vstd::arithmetic::div_mod::lemma_fundamental_div_mod(v as int, 256);
        }
        lemma_le_round(v / 256, (n - 1) as nat);
        vstd::arithmetic::div_mod::lemma_fundamental_div_mod(v as int, 256);
    }
}

/// Appends the `width` little-endian bytes of `v`.
fn push_le(out: &mut Vec<u8>, v: u128, width: usize)
    ensures
        final(out)@ == old(out)@ + le_bytes(v as nat, width as nat),
{
    let ghost base = out@;
    let ghost mut done: Seq<u8> = Seq::empty();
    let mut x: u128 = v;
    let mut k: usize = 0;
    proof {
        assert(out@ =~= base + done);
    }
    while k < width
        invariant
            k <= width,
            out@ == base + done,
            le_bytes(v as nat, width as nat) == done + le_bytes(
                x as nat,
                (width - k) as nat,
            ),
        decreases width - k,
    {
        let b: u8 = (x % 256) as u8;
        out.push(b);
        proof {
            let rest = le_bytes(x as nat, (width - k) as nat);
            assert(rest == seq![b] + le_bytes((x as nat) / 256, (width - k - 1) as nat));
            done = done.push(b);
            assert(out@ =~= base + done);
            assert(done + le_bytes((x as nat) / 256, (width - k - 1) as nat) =~= (done.drop_last()
                + seq![b]) + le_bytes((x as nat) / 256, (width - k - 1) as nat));
            assert(done.drop_last() + (seq![b] + le_bytes((x as nat) / 256, (width - k - 1) as nat))
                =~= (done.drop_last() + seq![b]) + le_bytes(
                (x as nat) / 256,
                (width - k - 1) as nat,
            ));
            assert((x / 256) as nat == (x as nat) / 256);
        }
        x = x / 256;
        k = k + 1;
    }
    proof {
        assert(le_bytes(x as nat, 0) =~= Seq::<u8>::empty());
        assert(done + le_bytes(x as nat, 0) =~= done);
    }
}

/// Reads `width` little-endian bytes at `pos`; `None` when out of bounds.
fn read_le(data: &Vec<u8>, pos: usize, width: usize) -> (r: Option<u128>)
    requires
        width <= 16,
    ensures
        match r {
            Some(v) => pos + width <= data@.len() && v as nat == le_val(
                data@.subrange(pos as int, pos + width),
            ),
            None => pos + width > data@.len(),
        },
{
    if width > data.len() || pos > data.len() - width {
        return None;
    }
    let mut acc: u128 = 0;
    let mut k: usize = width;
    proof {
        assert(data@.subrange(pos + width, pos + width) =~= Seq::<u8>::empty());
    }
    while k > 0
        invariant
            k <= width <= 16,
            pos + width <= data@.len(),
            data@.len() <= usize::MAX,
            acc as nat == le_val(data@.subrange(pos + k, pos + width)),
            (acc as nat) < pow256((width - k) as nat),
        decreases k,
    {
        k = k - 1;
        let b = data[pos + k];
        proof {
            let s = data@.subrange(pos + k, pos + width);
            assert(s.drop_first() =~= data@.subrange(pos + k + 1, pos + width));
            assert(le_val(s) == b + 256 * (acc as nat));
            lemma_pow256_mono((width - k) as nat, 16);
            lemma_pow256_concrete();
            assert(pow256((width - k) as nat) == 256 * pow256((width - k - 1) as nat));
        }
        acc = acc * 256 + (b as u128);
    }
    proof {
        assert(data@.subrange(pos as int, pos + width) =~= data@.subrange(
            pos + 0,
            pos + width,
        ));
    }
    Some(acc)
}


/// The encoding of an address: a variant tag, then sixteen little-endian
/// bytes of the address value.
pub open spec fn spec_encode_ip(ip: StoredIp) -> Seq<u8> {
    match ip {
        StoredIp::V4(v) => seq![0u8] + le_bytes(v as nat, 16),
        StoredIp::V6(v) => seq![1u8] + le_bytes(v as nat, 16),
    }
}

/// The encoding of one rating entry: the id byte, then the accumulator as
/// eight little-endian bytes of its two's-complement value.
pub open spec fn spec_encode_rating(e: (u8, i64)) -> Seq<u8> {
    seq![e.0] + le_bytes((e.1 as u64) as nat, 8)
}

/// The concatenated encodings of rating entries `i..`.
pub open spec fn spec_encode_ratings_from(s: Seq<(u8, i64)>, i: int) -> Seq<u8>
    decreases s.len() - i,
{
    if 0 <= i < s.len() {
        spec_encode_rating(s[i]) + spec_encode_ratings_from(s, i + 1)
    } else {
        Seq::empty()
    }
}

/// The encoding of one history entry: the address, then the visit count as
/// four little-endian bytes.
pub open spec fn spec_encode_entry(e: (StoredIp, u32)) -> Seq<u8> {
    spec_encode_ip(e.0) + le_bytes(e.1 as nat, 4)
}

/// The concatenated encodings of history entries `i..`.
pub open spec fn spec_encode_entries_from(s: Seq<(StoredIp, u32)>, i: int) -> Seq<u8>
    decreases s.len() - i,
{
    if 0 <= i < s.len() {
        spec_encode_entry(s[i]) + spec_encode_entries_from(s, i + 1)
    } else {
        Seq::empty()
    }
}

/// The encoding of the least-visitor cache: a presence tag, then the entry.
pub open spec fn spec_encode_least(l: Option<LeastVisitor>) -> Seq<u8> {
    match l {
        None => seq![0u8],
        Some(lv) => seq![1u8] + spec_encode_ip(lv.ip) + le_bytes(lv.count as nat, 4),
    }
}

/// The whole snapshot: both maps with their lengths, the least-visitor cache,
/// and the visit counter. The dirty marker is deliberately not persisted.
pub open spec fn spec_encode(m: StoreModel) -> Seq<u8> {
    le_bytes(m.ratings.len(), 8) + spec_encode_ratings_from(m.ratings, 0) + le_bytes(
        m.history.len(),
        8,
    ) + spec_encode_entries_from(m.history, 0) + spec_encode_least(m.least) + le_bytes(
        m.visits as nat,
        8,
    )
}

/// Reads an address record; `None` on a bad tag or a value too wide for it.
pub open spec fn spec_read_ip(data: Seq<u8>, pos: int) -> Option<(StoredIp, int)> {
    if 0 <= pos && pos + 17 <= data.len() {
        let tag = data[pos];
        let v = le_val(data.subrange(pos + 1, pos + 17));
        if tag == 0 && v < 0x1_0000_0000 {
            Some((StoredIp::V4(v as u32), pos + 17))
        } else if tag == 1 {
            Some((StoredIp::V6(v as u128), pos + 17))
        } else {
            None
        }
    } else {
        None
    }
}

/// Reads `count` rating entries.
pub open spec fn spec_read_ratings(data: Seq<u8>, pos: int, count: nat) -> Option<
    (Seq<(u8, i64)>, int),
>
    decreases count,
{
    if count == 0 {
        Some((Seq::empty(), pos))
    } else if 0 <= pos && pos + 9 <= data.len() {
        let e = (data[pos], (le_val(data.subrange(pos + 1, pos + 9)) as u64) as i64);
        match spec_read_ratings(data, pos + 9, (count - 1) as nat) {
            Some(rest) => Some((seq![e] + rest.0, rest.1)),
            None => None,
        }
    } else {
        None
    }
}

/// Reads `count` history entries.
pub open spec fn spec_read_entries(data: Seq<u8>, pos: int, count: nat) -> Option<
    (Seq<(StoredIp, u32)>, int),
>
    decreases count,
{
    if count == 0 {
        Some((Seq::empty(), pos))
    } else {
        match spec_read_ip(data, pos) {
            Some((ip, p1)) => if p1 + 4 <= data.len() {
                let e = (ip, le_val(data.subrange(p1, p1 + 4)) as u32);
                match spec_read_entries(data, p1 + 4, (count - 1) as nat) {
                    Some(rest) => Some((seq![e] + rest.0, rest.1)),
                    None => None,
                }
            } else {
                None
            },
            None => None,
        }
    }
}

/// Reads the least-visitor record.
pub open spec fn spec_read_least(data: Seq<u8>, pos: int) -> Option<
    (Option<LeastVisitor>, int),
> {
    if 0 <= pos && pos + 1 <= data.len() {
        let tag = data[pos];
        if tag == 0 {
            Some((None, pos + 1))
        } else if tag == 1 {
            match spec_read_ip(data, pos + 1) {
                Some((ip, p1)) => if p1 + 4 <= data.len() {
                    Some(
                        (
                            Some(
                                LeastVisitor {
                                    ip,
                                    count: le_val(data.subrange(p1, p1 + 4)) as u32,
                                },
                            ),
                            p1 + 4,
                        ),
                    )
                } else {
                    None
                },
                None => None,
            }
        } else {
            None
        }
    } else {
        None
    }
}

/// Decodes a whole snapshot: every record must parse, the bytes must end
/// exactly at the last record, and the decoded store must be well-formed.
pub open spec fn spec_decode(data: Seq<u8>) -> Option<StoreModel> {
    if data.len() < 8 {
        None
    } else {
        let rc = le_val(data.subrange(0, 8));
        match spec_read_ratings(data, 8, rc) {
            Some((ratings, p1)) => if p1 + 8 <= data.len() {
                let hc = le_val(data.subrange(p1, p1 + 8));
                match spec_read_entries(data, p1 + 8, hc) {
                    Some((history, p2)) => match spec_read_least(data, p2) {
                        Some((least, p3)) => if p3 + 8 == data.len() {
                            let m = StoreModel {
                                ratings,
                                history,
                                least,
                                visits: le_val(data.subrange(p3, p3 + 8)) as u64,
                                dirty: None,
                            };
                            if m.wf() {
                                Some(m)
                            } else {
                                None
                            }
                        } else {
                            None
                        },
                        None => None,
                    },
                    None => None,
                }
            } else {
                None
            },
            None => None,
        }
    }
}


/// Appends the encoding of an address.
fn push_ip(out: &mut Vec<u8>, ip: StoredIp)
    ensures
        final(out)@ == old(out)@ + spec_encode_ip(ip),
{
    let ghost base = out@;
    match ip {
        StoredIp::V4(v) => {
            out.push(0);
            push_le(out, v as u128, 16);
            proof {
                assert(out@ =~= base + spec_encode_ip(ip));
            }
        },
        StoredIp::V6(v) => {
            out.push(1);
            push_le(out, v as u128, 16);
            proof {
                assert(out@ =~= base + spec_encode_ip(ip));
            }
        },
    }
}

impl Database {
    /// Serializes the store into its snapshot bytes. The dirty marker is not
    /// part of the snapshot.
    pub fn snapshot_bytes(&self) -> (r: Vec<u8>)
        ensures
            r@ == spec_encode(self@),
    {
        let mut out: Vec<u8> = Vec::new();
        push_le(&mut out, self.review_ratings.len() as u128, 8);
        let ghost part1 = le_bytes(self@.ratings.len(), 8);
        proof {
            assert(out@ =~= part1);
        }
        let mut i: usize = 0;
        while i < self.review_ratings.len()
            invariant
                i <= self.review_ratings@.len(),
                out@ == part1 + spec_encode_ratings_from(self.review_ratings@, 0).subrange(
                    0,
                    out@.len() - part1.len(),
                ),
                out@.len() >= part1.len(),
                part1 + spec_encode_ratings_from(self.review_ratings@, 0) == out@
                    + spec_encode_ratings_from(self.review_ratings@, i as int),
            decreases self.review_ratings@.len() - i,
        {
            let ghost pre = out@;
            let e = self.review_ratings[i];
            out.push(e.0);
            push_le(&mut out, (e.1 as u64) as u128, 8);
            proof {
                assert((e.1 as u64) as u128 as nat == (e.1 as u64) as nat);
                assert(out@ =~= pre + spec_encode_rating(e));
                assert(spec_encode_ratings_from(self.review_ratings@, i as int)
                    == spec_encode_rating(e) + spec_encode_ratings_from(
                    self.review_ratings@,
                    i + 1,
                ));
                assert(pre + (spec_encode_rating(e) + spec_encode_ratings_from(
                    self.review_ratings@,
                    i + 1,
                )) =~= out@ + spec_encode_ratings_from(self.review_ratings@, i + 1));
                assert(out@ =~= (part1 + spec_encode_ratings_from(self.review_ratings@, 0)).subrange(
                    0,
                    out@.len() as int,
                ));
                assert(out@ =~= part1 + spec_encode_ratings_from(self.review_ratings@, 0).subrange(
                    0,
                    out@.len() - part1.len(),
                ));
            }
            i = i + 1;
        }
        let ghost part2 = out@;
        proof {
            assert(spec_encode_ratings_from(self.review_ratings@, self.review_ratings@.len() as int)
                =~= Seq::<u8>::empty());
            assert(part2 =~= part1 + spec_encode_ratings_from(self.review_ratings@, 0));
        }
        push_le(&mut out, self.visit_history.len() as u128, 8);
        let ghost part3 = out@;
        proof {
            assert(part3 =~= part2 + le_bytes(self@.history.len(), 8));
        }
        let mut j: usize = 0;
        while j < self.visit_history.len()
            invariant
                j <= self.visit_history@.len(),
                part3 + spec_encode_entries_from(self.visit_history@, 0) == out@
                    + spec_encode_entries_from(self.visit_history@, j as int),
                out@.len() >= part3.len(),
                out@ == (part3 + spec_encode_entries_from(self.visit_history@, 0)).subrange(
                    0,
                    out@.len() as int,
                ),
            decreases self.visit_history@.len() - j,
        {
            let ghost pre = out@;
            let e = self.visit_history[j];
            push_ip(&mut out, e.0);
            push_le(&mut out, e.1 as u128, 4);
            proof {
                assert(out@ =~= pre + spec_encode_entry(e));
                assert(spec_encode_entries_from(self.visit_history@, j as int)
                    == spec_encode_entry(e) + spec_encode_entries_from(self.visit_history@, j + 1));
                assert(pre + (spec_encode_entry(e) + spec_encode_entries_from(
                    self.visit_history@,
                    j + 1,
                )) =~= out@ + spec_encode_entries_from(self.visit_history@, j + 1));
                assert(out@ =~= (part3 + spec_encode_entries_from(self.visit_history@, 0)).subrange(
                    0,
                    out@.len() as int,
                ));
            }
            j = j + 1;
        }
        let ghost part4 = out@;
        proof {
            assert(spec_encode_entries_from(self.visit_history@, self.visit_history@.len() as int)
                =~= Seq::<u8>::empty());
            assert(part4 =~= part3 + spec_encode_entries_from(self.visit_history@, 0));
        }
        match self.least_visitor {
            None => {
                out.push(0);
            },
            Some(lv) => {
                out.push(1);
                push_ip(&mut out, lv.ip);
                push_le(&mut out, lv.count as u128, 4);
            },
        }
        let ghost part5 = out@;
        proof {
            assert(part5 =~= part4 + spec_encode_least(self@.least));
        }
        push_le(&mut out, self.visits as u128, 8);
        proof {
            assert(out@ =~= part5 + le_bytes(self@.visits as nat, 8));
            assert(out@ =~= spec_encode(self@));
        }
        out
    }
}


pub proof fn lemma_read_ratings_advance(data: Seq<u8>, pos: int, count: nat)
    ensures
        spec_read_ratings(data, pos, count) matches Some(rt) ==> rt.1 == pos + 9 * count
            && rt.0.len() == count && (count > 0 ==> pos + 9 * count <= data.len()),
    decreases count,
{
    if count > 0 {
        lemma_read_ratings_advance(data, pos + 9, (count - 1) as nat);
    }
}

pub proof fn lemma_read_entries_advance(data: Seq<u8>, pos: int, count: nat)
    ensures
        spec_read_entries(data, pos, count) matches Some(rt) ==> rt.1 == pos + 21 * count
            && rt.0.len() == count && (count > 0 ==> pos + 21 * count <= data.len()),
    decreases count,
{
    if count > 0 {
        match spec_read_ip(data, pos) {
            Some((ip, p1)) => {
                lemma_read_entries_advance(data, p1 + 4, (count - 1) as nat);
            },
            None => {},
        }
    }
}

/// Whether the ratings list has pairwise distinct ids.
fn ratings_unique(v: &Vec<(u8, i64)>) -> (r: bool)
    ensures
        r == unique_keys(v@),
{
    let mut i: usize = 0;
    while i < v.len()
        invariant
            i <= v@.len(),
            forall|p: int, q: int| 0 <= p < q < i ==> (#[trigger] v@[p]).0 != (#[trigger] v@[q]).0,
        decreases v@.len() - i,
    {
        let mut j: usize = 0;
        while j < i
            invariant
                j <= i < v@.len(),
                forall|q: int| 0 <= q < j ==> (#[trigger] v@[q]).0 != v@[i as int].0,
            decreases i - j,
        {
            if v[j].0 == v[i].0 {
                return false;
            }
            j = j + 1;
        }
        i = i + 1;
    }
    true
}

/// Whether the history list has pairwise distinct addresses.
fn history_unique(v: &Vec<(StoredIp, u32)>) -> (r: bool)
    ensures
        r == unique_keys(v@),
{
    let mut i: usize = 0;
    while i < v.len()
        invariant
            i <= v@.len(),
            forall|p: int, q: int| 0 <= p < q < i ==> (#[trigger] v@[p]).0 != (#[trigger] v@[q]).0,
        decreases v@.len() - i,
    {
        let mut j: usize = 0;
        while j < i
            invariant
                j <= i < v@.len(),
                forall|q: int| 0 <= q < j ==> (#[trigger] v@[q]).0 != v@[i as int].0,
            decreases i - j,
        {
            if v[j].0 == v[i].0 {
                return false;
            }
            j = j + 1;
        }
        i = i + 1;
    }
    true
}

/// Reads an address record.
fn read_ip(data: &Vec<u8>, pos: usize) -> (r: Option<(StoredIp, usize)>)
    ensures
        match r {
            Some((ip, p)) => spec_read_ip(data@, pos as int) == Some((ip, p as int)),
            None => spec_read_ip(data@, pos as int) is None,
        },
{
    if data.len() < 17 || pos > data.len() - 17 {
        return None;
    }
    let tag = data[pos];
    let v: u128 = match read_le(data, pos + 1, 16) {
        Some(v) => v,
        None => {
            proof {
                assert(false);
            }
            0
        },
    };
    proof {
        lemma_le_val_bound(data@.subrange(pos + 1, pos + 17));
        lemma_pow256_concrete();
    }
    if tag == 0 {
        if v < 0x1_0000_0000u128 {
            Some((StoredIp::V4(v as u32), pos + 17))
        } else {
            None
        }
    } else if tag == 1 {
        Some((StoredIp::V6(v), pos + 17))
    } else {
        None
    }
}

/// Decodes a snapshot into a store; `None` when the bytes are not exactly a
/// well-formed snapshot.
fn decode_model(data: &Vec<u8>) -> (r: Option<Database>)
    ensures
        match r {
            Some(db) => spec_decode(data@) == Some(db@) && db.wf() && db@.dirty is None,
            None => spec_decode(data@) is None,
        },
{
    let rc: u64 = match read_le(data, 0, 8) {
        Some(v) => {
            proof {
                lemma_le_val_bound(data@.subrange(0, 8));
                lemma_pow256_concrete();
                assert(data@.subrange(0int + 0, 0int + 8) =~= data@.subrange(0, 8));
            }
            v as u64
        },
        None => {
            return None;
        },
    };
    let ghost rcn = le_val(data@.subrange(0, 8));
    if rc > data.len() as u64 {
        proof {
            lemma_read_ratings_advance(data@, 8, rcn);
            assert(spec_read_ratings(data@, 8, rcn) is None);
            assert(spec_decode(data@) is None);
        }
        return None;
    }
    let count = rc as usize;
    let mut ratings: Vec<(u8, i64)> = Vec::new();
    let mut pos: usize = 8;
    let mut i: usize = 0;
    while i < count
        invariant
            i <= count,
            8 <= pos <= data@.len(),
            data@.len() <= usize::MAX,
            count == rcn,
            rcn == le_val(data@.subrange(0, 8)),
            data@.len() >= 8,
            match spec_read_ratings(data@, pos as int, (count - i) as nat) {
                Some(rt) => spec_read_ratings(data@, 8, rcn) == Some((ratings@ + rt.0, rt.1)),
                None => spec_read_ratings(data@, 8, rcn) is None,
            },
        decreases count - i,
    {
        if data.len() - pos < 9 {
            proof {
                assert(spec_read_ratings(data@, pos as int, (count - i) as nat) is None);
                assert(spec_read_ratings(data@, 8, rcn) is None);
                assert(spec_decode(data@) is None);
            }
            return None;
        }
        let id = data[pos];
        let v: u64 = match read_le(data, pos + 1, 8) {
            Some(v) => {
                proof {
                    lemma_le_val_bound(data@.subrange(pos + 1, pos + 9));
                    lemma_pow256_concrete();
                }
                v as u64
            },
            None => {
                proof {
                    assert(false);
                }
                0
            },
        };
        let entry: (u8, i64) = (id, #[verifier::truncate] (v as i64));
        proof {
            let ghost c = (count - i) as nat;
            assert(spec_read_ratings(data@, pos as int, c) == (match spec_read_ratings(
                data@,
                pos + 9,
                (c - 1) as nat,
            ) {
                Some(rest) => Some((seq![entry] + rest.0, rest.1)),
                None => None,
            }));
            match spec_read_ratings(data@, pos + 9, (c - 1) as nat) {
                Some(rest) => {
                    assert(ratings@ + (seq![entry] + rest.0) =~= ratings@.push(entry) + rest.0);
                },
                None => {},
            }
        }
        ratings.push(entry);
        pos = pos + 9;
        i = i + 1;
    }
    let ghost pr = pos as int;
    proof {
        assert(spec_read_ratings(data@, pr, 0) == Some((Seq::<(u8, i64)>::empty(), pr)));
        assert(ratings@ + Seq::<(u8, i64)>::empty() =~= ratings@);
        assert(spec_read_ratings(data@, 8, rcn) == Some((ratings@, pr)));
    }
    // History count.
    let hc: u64 = match read_le(data, pos, 8) {
        Some(v) => {
            proof {
                lemma_le_val_bound(data@.subrange(pos as int, pos + 8));
                lemma_pow256_concrete();
            }
            v as u64
        },
        None => {
            proof {
                assert(pr + 8 > data@.len());
                assert(spec_decode(data@) is None);
            }
            return None;
        },
    };
    let ghost hcn = le_val(data@.subrange(pr, pr + 8));
    let ghost hstart = pr + 8;
    if hc > data.len() as u64 {
        proof {
            lemma_read_entries_advance(data@, hstart, hcn);
            assert(spec_read_entries(data@, hstart, hcn) is None);
            assert(spec_decode(data@) is None);
        }
        return None;
    }
    let hcount = hc as usize;
    let mut history: Vec<(StoredIp, u32)> = Vec::new();
    pos = pos + 8;
    let mut j: usize = 0;
    while j < hcount
        invariant
            j <= hcount,
            pos <= data@.len(),
            data@.len() <= usize::MAX,
            hcount == hcn,
            data@.len() >= 8,
            rcn == le_val(data@.subrange(0, 8)),
            spec_read_ratings(data@, 8, rcn) == Some((ratings@, pr)),
            pr + 8 <= data@.len(),
            hcn == le_val(data@.subrange(pr, pr + 8)),
            hstart == pr + 8,
            match spec_read_entries(data@, pos as int, (hcount - j) as nat) {
                Some(rt) => spec_read_entries(data@, hstart, hcn) == Some((history@ + rt.0, rt.1)),
                None => spec_read_entries(data@, hstart, hcn) is None,
            },
        decreases hcount - j,
    {
        let ip: StoredIp;
        let p1: usize;
        match read_ip(data, pos) {
            Some((ip0, p10)) => {
                ip = ip0;
                p1 = p10;
            },
            None => {
                proof {
                    assert(spec_read_entries(data@, pos as int, (hcount - j) as nat) is None);
                    assert(spec_read_entries(data@, hstart, hcn) is None);
                    assert(spec_decode(data@) is None);
                }
                return None;
            },
        }
        if data.len() - p1 < 4 {
            proof {
                assert(spec_read_entries(data@, pos as int, (hcount - j) as nat) is None);
                assert(spec_read_entries(data@, hstart, hcn) is None);
                assert(spec_decode(data@) is None);
            }
            return None;
        }
        let c: u32 = match read_le(data, p1, 4) {
            Some(v) => {
                proof {
                    lemma_le_val_bound(data@.subrange(p1 as int, p1 + 4));
                    lemma_pow256_concrete();
                }
                v as u32
            },
            None => {
                proof {
                    assert(false);
                }
                0
            },
        };
        let entry: (StoredIp, u32) = (ip, c);
        proof {
            let ghost cjn = (hcount - j) as nat;
            match spec_read_entries(data@, p1 + 4, (cjn - 1) as nat) {
                Some(rest) => {
                    assert(history@ + (seq![entry] + rest.0) =~= history@.push(entry) + rest.0);
                },
                None => {},
            }
        }
        history.push(entry);
        pos = p1 + 4;
        j = j + 1;
    }
    let ghost pe = pos as int;
    proof {
        assert(spec_read_entries(data@, pe, 0) == Some(
            (Seq::<(StoredIp, u32)>::empty(), pe),
        ));
        assert(history@ + Seq::<(StoredIp, u32)>::empty() =~= history@);
        assert(spec_read_entries(data@, hstart, hcn) == Some((history@, pe)));
    }
    // Least-visitor record.
    let least: Option<LeastVisitor>;
    if pos >= data.len() {
        proof {
            assert(spec_read_least(data@, pe) is None);
            assert(spec_decode(data@) is None);
        }
        return None;
    }
    let tag = data[pos];
    if tag == 0 {
        least = None;
        pos = pos + 1;
    } else if tag == 1 {
        let ip: StoredIp;
        let p1: usize;
        match read_ip(data, pos + 1) {
            Some((ip0, p10)) => {
                ip = ip0;
                p1 = p10;
            },
            None => {
                proof {
                    assert(spec_read_least(data@, pe) is None);
                    assert(spec_decode(data@) is None);
                }
                return None;
            },
        }
        if data.len() - p1 < 4 {
            proof {
                assert(spec_read_least(data@, pe) is None);
                assert(spec_decode(data@) is None);
            }
            return None;
        }
        let c: u32 = match read_le(data, p1, 4) {
            Some(v) => {
                proof {
                    lemma_le_val_bound(data@.subrange(p1 as int, p1 + 4));
                    lemma_pow256_concrete();
                }
                v as u32
            },
            None => {
                proof {
                    assert(false);
                }
                0
            },
        };
        least = Some(LeastVisitor { ip, count: c });
        pos = p1 + 4;
    } else {
        proof {
            assert(spec_read_least(data@, pe) is None);
            assert(spec_decode(data@) is None);
        }
        return None;
    }
    let ghost pl = pos as int;
    proof {
        assert(spec_read_least(data@, pe) == Some((least, pl)));
    }
    // Visit counter, and the strict end of the data.
    let visits: u64 = match read_le(data, pos, 8) {
        Some(v) => {
            proof {
                lemma_le_val_bound(data@.subrange(pos as int, pos + 8));
                lemma_pow256_concrete();
            }
            v as u64
        },
        None => {
            proof {
                assert(pl + 8 != data@.len());
                assert(spec_decode(data@) is None);
            }
            return None;
        },
    };
    if pos + 8 != data.len() {
        proof {
            assert(spec_decode(data@) is None);
        }
        return None;
    }
    let ghost m = StoreModel {
        ratings: ratings@,
        history: history@,
        least,
        visits,
        dirty: None,
    };
    proof {
        assert(visits as nat == le_val(data@.subrange(pl, pl + 8)));
    }
    // Validity of the decoded store.
    if !ratings_unique(&ratings) {
        proof {
            assert(!m.wf());
            assert(spec_decode(data@) is None);
        }
        return None;
    }
    if !history_unique(&history) {
        proof {
            assert(!m.wf());
            assert(spec_decode(data@) is None);
        }
        return None;
    }
    if history.len() > VISIT_HISTORY_MAX_SIZE {
        proof {
            assert(!m.wf());
            assert(spec_decode(data@) is None);
        }
        return None;
    }
    match least {
        Some(lv) => {
            if crate::store::find_history_index(&history, lv.ip).is_none() {
                proof {
                    assert(!m.wf());
                    assert(spec_decode(data@) is None);
                }
                return None;
            }
        },
        None => {},
    }
    proof {
        assert(m.wf());
        assert(spec_decode(data@) == Some(m));
    }
    let db = Database {
        review_ratings: ratings,
        visit_history: history,
        least_visitor: least,
        visits,
        dirty_start: None,
    };
    Some(db)
}

impl Database {
    /// Rebuilds a store from snapshot bytes, falling back to the empty store
    /// when the bytes are not exactly a well-formed snapshot.
    pub fn from_snapshot_bytes(data: &Vec<u8>) -> (r: Database)
        ensures
            match spec_decode(data@) {
                Some(m) => r@ == m,
                None => r@ == StoreModel::empty(),
            },
            r.wf(),
            r@.dirty is None,
    {
        match decode_model(data) {
            Some(db) => db,
            None => Database::default(),
        }
    }
}


proof fn lemma_enc_ip_len(ip: StoredIp)
    ensures
        spec_encode_ip(ip).len() == 17,
{
    match ip {
        StoredIp::V4(v) => {
            lemma_le_bytes_len(v as nat, 16);
        },
        StoredIp::V6(v) => {
            lemma_le_bytes_len(v as nat, 16);
        },
    }
}

proof fn lemma_enc_ratings_len(s: Seq<(u8, i64)>, i: int)
    requires
        0 <= i <= s.len(),
    ensures
        spec_encode_ratings_from(s, i).len() == 9 * (s.len() - i),
    decreases s.len() - i,
{
    if i < s.len() {
        lemma_le_bytes_len((s[i].1 as u64) as nat, 8);
        lemma_enc_ratings_len(s, i + 1);
    }
}

proof fn lemma_enc_entries_len(s: Seq<(StoredIp, u32)>, i: int)
    requires
        0 <= i <= s.len(),
    ensures
        spec_encode_entries_from(s, i).len() == 21 * (s.len() - i),
    decreases s.len() - i,
{
    if i < s.len() {
        lemma_enc_ip_len(s[i].0);
        lemma_le_bytes_len(s[i].1 as nat, 4);
        lemma_enc_entries_len(s, i + 1);
    }
}

proof fn lemma_enc_least_len(l: Option<LeastVisitor>)
    ensures
        spec_encode_least(l).len() == (match l {
            None => 1int,
            Some(lv) => 22int,
        }),
{
    match l {
        None => {},
        Some(lv) => {
            lemma_enc_ip_len(lv.ip);
            lemma_le_bytes_len(lv.count as nat, 4);
        },
    }
}

/// An encoded address reads back as itself.
proof fn lemma_read_ip_encoded(data: Seq<u8>, pos: int, ip: StoredIp)
    requires
        0 <= pos,
        pos + 17 <= data.len(),
        data.subrange(pos, pos + 17) == spec_encode_ip(ip),
    ensures
        spec_read_ip(data, pos) == Some((ip, pos + 17)),
{
    lemma_enc_ip_len(ip);
    lemma_pow256_concrete();
    let enc = spec_encode_ip(ip);
    assert(data[pos] == enc[0]);
    assert(data.subrange(pos + 1, pos + 17) =~= enc.subrange(1, 17));
    match ip {
        StoredIp::V4(v) => {
            lemma_le_bytes_len(v as nat, 16);
            assert(enc.subrange(1, 17) =~= le_bytes(v as nat, 16));
            lemma_pow256_mono(4, 16);
            lemma_le_round(v as nat, 16);
            assert(le_val(data.subrange(pos + 1, pos + 17)) == v as nat);
        },
        StoredIp::V6(v) => {
            lemma_le_bytes_len(v as nat, 16);
            assert(enc.subrange(1, 17) =~= le_bytes(v as nat, 16));
            lemma_le_round(v as nat, 16);
            assert(le_val(data.subrange(pos + 1, pos + 17)) == v as nat);
        },
    }
}

/// Encoded rating entries read back as themselves.
proof fn lemma_read_ratings_encoded(data: Seq<u8>, pos: int, s: Seq<(u8, i64)>, i: int)
    requires
        0 <= i <= s.len(),
        0 <= pos,
        pos + 9 * (s.len() - i) <= data.len(),
        data.subrange(pos, pos + 9 * (s.len() - i)) == spec_encode_ratings_from(s, i),
    ensures
        spec_read_ratings(data, pos, (s.len() - i) as nat) == Some(
            (s.subrange(i, s.len() as int), pos + 9 * (s.len() - i)),
        ),
    decreases s.len() - i,
{
    if i == s.len() {
        assert(s.subrange(i, s.len() as int) =~= Seq::<(u8, i64)>::empty());
    } else {
        let e = s[i];
        let w = 9 * (s.len() - i);
        lemma_enc_ratings_len(s, i);
        lemma_enc_ratings_len(s, i + 1);
        lemma_le_bytes_len((e.1 as u64) as nat, 8);
        let whole = data.subrange(pos, pos + w);
        assert(whole == spec_encode_rating(e) + spec_encode_ratings_from(s, i + 1));
        assert(whole.subrange(0, 9) =~= spec_encode_rating(e));
        assert(whole.subrange(9, w) =~= spec_encode_ratings_from(s, i + 1));
        assert(data.subrange(pos, pos + 9) =~= whole.subrange(0, 9));
        assert(data.subrange(pos + 9, pos + w) =~= whole.subrange(9, w));
        assert(data[pos] == whole[0]);
        assert(data[pos] == e.0);
        assert(spec_encode_rating(e).subrange(1, 9) =~= le_bytes((e.1 as u64) as nat, 8));
        assert(data.subrange(pos + 1, pos + 9) =~= spec_encode_rating(e).subrange(1, 9));
        lemma_pow256_concrete();
        lemma_le_round((e.1 as u64) as nat, 8);
        assert(le_val(data.subrange(pos + 1, pos + 9)) == (e.1 as u64) as nat);
        assert(((e.1 as u64) as nat) as u64 == e.1 as u64);
        let x = e.1;
        assert(((x as u64) as i64) == x) by (bit_vector);
        lemma_read_ratings_encoded(data, pos + 9, s, i + 1);
        assert(seq![(e.0, e.1)] + s.subrange(i + 1, s.len() as int) =~= s.subrange(
            i,
            s.len() as int,
        ));
    }
}

/// Encoded history entries read back as themselves.
proof fn lemma_read_entries_encoded(data: Seq<u8>, pos: int, s: Seq<(StoredIp, u32)>, i: int)
    requires
        0 <= i <= s.len(),
        0 <= pos,
        pos + 21 * (s.len() - i) <= data.len(),
        data.subrange(pos, pos + 21 * (s.len() - i)) == spec_encode_entries_from(s, i),
    ensures
        spec_read_entries(data, pos, (s.len() - i) as nat) == Some(
            (s.subrange(i, s.len() as int), pos + 21 * (s.len() - i)),
        ),
    decreases s.len() - i,
{
    if i == s.len() {
        assert(s.subrange(i, s.len() as int) =~= Seq::<(StoredIp, u32)>::empty());
    } else {
        let e = s[i];
        let w = 21 * (s.len() - i);
        lemma_enc_entries_len(s, i);
        lemma_enc_entries_len(s, i + 1);
        lemma_enc_ip_len(e.0);
        lemma_le_bytes_len(e.1 as nat, 4);
        let whole = data.subrange(pos, pos + w);
        assert(whole == spec_encode_entry(e) + spec_encode_entries_from(s, i + 1));
        assert(whole.subrange(0, 21) =~= spec_encode_entry(e));
        assert(whole.subrange(21, w) =~= spec_encode_entries_from(s, i + 1));
        assert(data.subrange(pos, pos + 21) =~= whole.subrange(0, 21));
        assert(data.subrange(pos + 21, pos + w) =~= whole.subrange(21, w));
        assert(spec_encode_entry(e).subrange(0, 17) =~= spec_encode_ip(e.0));
        assert(data.subrange(pos, pos + 17) =~= spec_encode_entry(e).subrange(0, 17));
        lemma_read_ip_encoded(data, pos, e.0);
        assert(spec_encode_entry(e).subrange(17, 21) =~= le_bytes(e.1 as nat, 4));
        assert(data.subrange(pos + 17, pos + 21) =~= spec_encode_entry(e).subrange(17, 21));
        lemma_pow256_concrete();
        lemma_le_round(e.1 as nat, 4);
        assert((le_val(data.subrange(pos + 17, pos + 21)) as u32) == e.1);
        lemma_read_entries_encoded(data, pos + 21, s, i + 1);
        assert(seq![(e.0, e.1)] + s.subrange(i + 1, s.len() as int) =~= s.subrange(
            i,
            s.len() as int,
        ));
    }
}

/// An encoded least-visitor record reads back as itself.
proof fn lemma_read_least_encoded(data: Seq<u8>, pos: int, l: Option<LeastVisitor>)
    requires
        0 <= pos,
        pos + spec_encode_least(l).len() <= data.len(),
        data.subrange(pos, pos + spec_encode_least(l).len()) == spec_encode_least(l),
    ensures
        spec_read_least(data, pos) == Some((l, pos + spec_encode_least(l).len())),
{
    lemma_enc_least_len(l);
    let enc = spec_encode_least(l);
    assert(data[pos] == enc[0]);
    match l {
        None => {},
        Some(lv) => {
            lemma_enc_ip_len(lv.ip);
            lemma_le_bytes_len(lv.count as nat, 4);
            let whole = data.subrange(pos, pos + 22);
            assert(whole == enc);
            assert(enc.subrange(1, 18) =~= spec_encode_ip(lv.ip));
            assert(data.subrange(pos + 1, pos + 18) =~= enc.subrange(1, 18));
            lemma_read_ip_encoded(data, pos + 1, lv.ip);
            assert(enc.subrange(18, 22) =~= le_bytes(lv.count as nat, 4));
            assert(data.subrange(pos + 18, pos + 22) =~= enc.subrange(18, 22));
            lemma_pow256_concrete();
            lemma_le_round(lv.count as nat, 4);
        },
    }
}

/// Serializing a well-formed store and deserializing the bytes reproduces the
/// ratings, the visit history, the least-visitor cache and the visit total
/// exactly; only the dirty marker (a timing field, deliberately not
/// persisted) is reset.
pub proof fn law_snapshot_round_trip(m: StoreModel)
    requires
        m.wf(),
        m.ratings.len() < 0x1_0000_0000_0000_0000,
        m.history.len() < 0x1_0000_0000_0000_0000,
    ensures
        spec_decode(spec_encode(m)) == Some((StoreModel { dirty: None, ..m })),
{
    let data = spec_encode(m);
    let rlen = m.ratings.len() as int;
    let hlen = m.history.len() as int;
    let a = le_bytes(m.ratings.len(), 8);
    let b = spec_encode_ratings_from(m.ratings, 0);
    let c = le_bytes(m.history.len(), 8);
    let d = spec_encode_entries_from(m.history, 0);
    let e = spec_encode_least(m.least);
    let f = le_bytes(m.visits as nat, 8);
    lemma_le_bytes_len(m.ratings.len(), 8);
    lemma_le_bytes_len(m.history.len(), 8);
    lemma_le_bytes_len(m.visits as nat, 8);
    lemma_enc_ratings_len(m.ratings, 0);
    lemma_enc_entries_len(m.history, 0);
    lemma_enc_least_len(m.least);
    let elen = e.len() as int;
    let p1 = 8 + 9 * rlen;
    let p2 = p1 + 8 + 21 * hlen;
    let p3 = p2 + elen;
    assert(data.len() == p3 + 8);
    lemma_pow256_concrete();
    // Ratings count.
    assert(data.subrange(0, 8) =~= a);
    lemma_le_round(m.ratings.len(), 8);
    assert(le_val(data.subrange(0, 8)) == m.ratings.len());
    // Ratings.
    assert(data.subrange(8, p1) =~= b);
    lemma_read_ratings_encoded(data, 8, m.ratings, 0);
    assert(m.ratings.subrange(0, rlen) =~= m.ratings);
    assert(spec_read_ratings(data, 8, m.ratings.len()) == Some((m.ratings, p1)));
    // History count.
    assert(data.subrange(p1, p1 + 8) =~= c);
    lemma_le_round(m.history.len(), 8);
    assert(le_val(data.subrange(p1, p1 + 8)) == m.history.len());
    // History.
    assert(data.subrange(p1 + 8, p2) =~= d);
    lemma_read_entries_encoded(data, p1 + 8, m.history, 0);
    assert(m.history.subrange(0, hlen) =~= m.history);
    assert(spec_read_entries(data, p1 + 8, m.history.len()) == Some((m.history, p2)));
    // Least visitor.
    assert(data.subrange(p2, p2 + elen) =~= e);
    lemma_read_least_encoded(data, p2, m.least);
    assert(spec_read_least(data, p2) == Some((m.least, p3)));
    // Visits, and the exact end.
    assert(data.subrange(p3, p3 + 8) =~= f);
    lemma_le_round(m.visits as nat, 8);
    assert(le_val(data.subrange(p3, p3 + 8)) == m.visits as nat);
    let decoded = StoreModel {
        ratings: m.ratings,
        history: m.history,
        least: m.least,
        visits: m.visits,
        dirty: None,
    };
    assert(decoded.wf());
    assert(spec_decode(data) == Some(decoded));
}

} // verus!




