//! Byte format of the pruning-table cache: an eight-byte magic, a `u32`
//! version, the `u16` middle-slice goal coordinate, and the five tables,
//! each as a `u64` length followed by its bytes; all integers
//! little-endian. A stale or damaged file is rejected on decoding rather
//! than read as tables.

use vstd::prelude::*;
use crate::three::coords::{N_CO, N_CP, N_EO, N_EP, N_UDSLICE, N_UDSLICE_PERM};
use crate::three::tables::{PruneKind, PruningTables, kind_size};

verus! {

/// Bumped on any change that affects table contents.
pub const CACHE_VERSION: u32 = 1;

/// Why cached bytes were rejected.
#[derive(Debug, Clone, Copy, PartialEq, Eq, Structural)]
pub enum CacheError {
    /// The file does not start with the cache magic.
    BadMagic,
    /// The file was written by another version of the table layout.
    VersionMismatch(u32),
    /// A table has the wrong length.
    SizeMismatch { got: u64, expected: u64 },
    /// The bytes end before the last table does.
    Truncated,
}

/// The magic `R3PRUN` followed by two zero bytes.
pub open spec fn magic_spec() -> Seq<u8> {
    seq![82u8, 51u8, 80u8, 82u8, 85u8, 78u8, 0u8, 0u8]
}

/// `v` as `k` little-endian bytes.
pub open spec fn le_bytes(v: int, k: int) -> Seq<u8>
    decreases k,
{
    if k <= 0 {
        Seq::empty()
    } else {
        seq![(v % 256) as u8] + le_bytes(v / 256, k - 1)
    }
}

/// Value of little-endian bytes.
pub open spec fn le_value(b: Seq<u8>) -> int
    decreases b.len(),
{
    if b.len() == 0 {
        0
    } else {
        b[0] + 256 * le_value(b.drop_first())
    }
}

/// A table as its `u64` length and its bytes.
pub open spec fn table_bytes(t: Seq<u8>) -> Seq<u8> {
    le_bytes(t.len() as int, 8) + t
}

/// The goal coordinate and the five tables, in file order.
pub type TablesView = (u16, Seq<u8>, Seq<u8>, Seq<u8>, Seq<u8>, Seq<u8>);

pub open spec fn tables_view(p: PruningTables) -> TablesView {
    (p.udslice_goal, p.p1_co_udslice@, p.p1_eo_udslice@, p.p1_co_eo@, p.p2_cp_uperm@, p.p2_ep_uperm@)
}

/// The cache bytes of a set of tables.
pub open spec fn encoded(v: TablesView) -> Seq<u8> {
    magic_spec() + le_bytes(CACHE_VERSION as int, 4) + le_bytes(v.0 as int, 2) + table_bytes(v.1) + table_bytes(v.2)
        + table_bytes(v.3) + table_bytes(v.4) + table_bytes(v.5)
}

/// Reading a table of `expected` bytes at `pos`: the table and the
/// position after it.
pub open spec fn read_table_spec(b: Seq<u8>, pos: int, expected: int) -> Result<(Seq<u8>, int), CacheError> {
    if b.len() < pos + 8 {
        Err(CacheError::Truncated)
    } else {
        let n = le_value(b.subrange(pos, pos + 8));
        if n != expected {
            Err(CacheError::SizeMismatch { got: n as u64, expected: expected as u64 })
        } else if b.len() < pos + 8 + n {
            Err(CacheError::Truncated)
        } else {
            Ok((b.subrange(pos + 8, pos + 8 + n), pos + 8 + n))
        }
    }
}

/// Expected length of the `i`-th table.
pub open spec fn expected_len(i: int) -> int {
    if i == 0 {
        kind_size(PruneKind::CoUdslice)
    } else if i == 1 {
        kind_size(PruneKind::EoUdslice)
    } else if i == 2 {
        kind_size(PruneKind::CoEo)
    } else if i == 3 {
        kind_size(PruneKind::CpUperm)
    } else {
        kind_size(PruneKind::EpUperm)
    }
}

/// The five tables read from `pos` on, in order.
pub open spec fn read_tables_spec(b: Seq<u8>, pos: int, i: int) -> Result<Seq<Seq<u8>>, CacheError>
    decreases 5 - i,
{
    if i >= 5 {
        Ok(Seq::empty())
    } else {
        match read_table_spec(b, pos, expected_len(i)) {
            Err(e) => Err(e),
            Ok((t, next)) => match read_tables_spec(b, next, i + 1) {
                Err(e) => Err(e),
                Ok(rest) => Ok(seq![t] + rest),
            },
        }
    }
}

/// Decoding cache bytes: the first failing check decides the error;
/// bytes after the last table are ignored.
pub open spec fn decoded(b: Seq<u8>) -> Result<TablesView, CacheError> {
    if b.len() < 8 {
        Err(CacheError::Truncated)
    } else if b.subrange(0, 8) != magic_spec() {
        Err(CacheError::BadMagic)
    } else if b.len() < 12 {
        Err(CacheError::Truncated)
    } else if le_value(b.subrange(8, 12)) != CACHE_VERSION {
        Err(CacheError::VersionMismatch(le_value(b.subrange(8, 12)) as u32))
    } else if b.len() < 14 {
        Err(CacheError::Truncated)
    } else {
        match read_tables_spec(b, 14, 0) {
            Err(e) => Err(e),
            Ok(ts) => Ok((le_value(b.subrange(12, 14)) as u16, ts[0], ts[1], ts[2], ts[3], ts[4])),
        }
    }
}

/// Append `k` little-endian bytes of `v`.
fn push_le(out: &mut Vec<u8>, v: u64, k: usize)
    requires
        k <= 8,
    ensures
        final(out)@ == old(out)@ + le_bytes(v as int, k as int),
{
    let mut r = v;
    let mut j: usize = 0;
    let ghost pre = out@;
    while j < k
        invariant
            j <= k,
            k <= 8,
            le_bytes(v as int, k as int) == out@.subrange(pre.len() as int, out@.len() as int) + le_bytes(
                r as int,
                (k - j) as int,
            ),
            out@.subrange(0, pre.len() as int) == pre,
            out@.len() == pre.len() + j,
        decreases k - j,
    {
        let ghost before = out@;
        out.push((r % 256) as u8);
        proof {
            let x = before.subrange(pre.len() as int, before.len() as int);
            assert(out@.subrange(pre.len() as int, out@.len() as int) =~= x.push((r % 256) as u8));
            assert(le_bytes(r as int, (k - j) as int) == seq![(r % 256) as u8] + le_bytes((r / 256) as int, (k - j - 1) as int));
            assert(x + (seq![(r % 256) as u8] + le_bytes((r / 256) as int, (k - j - 1) as int)) =~= x.push((r % 256) as u8)
                + le_bytes((r / 256) as int, (k - j - 1) as int));
            assert(out@.subrange(0, pre.len() as int) =~= before.subrange(0, pre.len() as int));
        }
        r = r / 256;
        j = j + 1;
    }
    proof {
        assert(le_bytes(r as int, 0) =~= Seq::<u8>::empty());
        assert(out@ =~= out@.subrange(0, pre.len() as int) + out@.subrange(pre.len() as int, out@.len() as int));
    }
}

fn push_table(out: &mut Vec<u8>, t: &Vec<u8>)
    ensures
        final(out)@ == old(out)@ + table_bytes(t@),
{
    push_le(out, t.len() as u64, 8);
    let ghost mid = out@;
    let mut i: usize = 0;
    while i < t.len()
        invariant
            i <= t@.len(),
            out@ == mid + t@.take(i as int),
        decreases t@.len() - i,
    {
        out.push(t[i]);
        proof {
            assert(t@.take(i + 1) =~= t@.take(i as int).push(t@[i as int]));
        }
        i = i + 1;
    }
    proof {
        assert(t@.take(i as int) =~= t@);
    }
}

/// The cache bytes of `tables`.
pub fn encode_tables(tables: &PruningTables) -> (r: Vec<u8>)
    ensures
        r@ == encoded(tables_view(*tables)),
{
    let mut out: Vec<u8> = Vec::new();
    let magic: [u8; 8] = [82, 51, 80, 82, 85, 78, 0, 0];
    let mut i: usize = 0;
    while i < 8
        invariant
            i <= 8,
            magic@ == magic_spec(),
            out@ == magic_spec().take(i as int),
        decreases 8 - i,
    {
        out.push(magic[i]);
        proof {
            assert(magic_spec().take(i + 1) =~= magic_spec().take(i as int).push(magic_spec()[i as int]));
        }
        i = i + 1;
    }
    proof {
        assert(magic_spec().take(8) =~= magic_spec());
    }
    push_le(&mut out, CACHE_VERSION as u64, 4);
    push_le(&mut out, tables.udslice_goal as u64, 2);
    push_table(&mut out, &tables.p1_co_udslice);
    push_table(&mut out, &tables.p1_eo_udslice);
    push_table(&mut out, &tables.p1_co_eo);
    push_table(&mut out, &tables.p2_cp_uperm);
    push_table(&mut out, &tables.p2_ep_uperm);
    out
}

pub open spec fn pow256(n: int) -> int
    decreases n,
{
    if n <= 0 {
        1
    } else {
        256 * pow256(n - 1)
    }
}

proof fn lemma_le_value_bound(s: Seq<u8>)
    ensures
        0 <= le_value(s) < pow256(s.len() as int),
    decreases s.len(),
{
    if s.len() > 0 {
        lemma_le_value_bound(s.drop_first());
    }
}

/// Little-endian bytes read back give the value they were written from.
pub proof fn lemma_le_round_trip(v: int, k: int)
    requires
        0 <= k,
        0 <= v < pow256(k),
    ensures
        le_bytes(v, k).len() == k,
        le_value(le_bytes(v, k)) == v,
    decreases k,
{
    if k > 0 {
        lemma_le_round_trip(v / 256, k - 1);
        let b = le_bytes(v, k);
        assert(b.drop_first() =~= le_bytes(v / 256, k - 1));
    }
}

proof fn lemma_pow256_small()
    ensures
        pow256(2) == 65536,
        pow256(4) == 0x1_0000_0000,
        pow256(8) == 0x1_0000_0000_0000_0000,
{
    reveal_with_fuel(pow256, 9);
}

/// Value of `bytes[pos..pos + k]`, little-endian.
fn read_le(bytes: &[u8], pos: usize, k: usize) -> (r: u64)
    requires
        k <= 8,
        pos + k <= bytes@.len(),
    ensures
        r == le_value(bytes@.subrange(pos as int, pos + k)),
{
    proof {
        lemma_pow256_small();
    }
    let len = bytes.len();
    let mut v: u64 = 0;
    let mut i: usize = k;
    while i > 0
        invariant
            len == bytes@.len(),
            k <= 8,
            pos + k <= bytes@.len(),
            i <= k,
            pow256(8) == 0x1_0000_0000_0000_0000,
            v == le_value(bytes@.subrange(pos + i, pos + k)),
            v < pow256(k - i),
        decreases i,
    {
        proof {
            let s = bytes@.subrange(pos + i - 1, pos + k);
            assert(s.drop_first() =~= bytes@.subrange(pos + i, pos + k));
            assert(s[0] == bytes@[pos + i - 1]);
            lemma_pow256_mono(k - i + 1, 8);
            assert(pow256(k - i + 1) == 256 * pow256(k - i));
        }
        v = v * 256 + bytes[pos + i - 1] as u64;
        i = i - 1;
    }
    v
}

proof fn lemma_pow256_pos(n: int)
    ensures
        pow256(n) >= 1,
    decreases n,
{
    if n > 0 {
        lemma_pow256_pos(n - 1);
    }
}

proof fn lemma_pow256_mono(a: int, b: int)
    requires
        0 <= a <= b,
    ensures
        pow256(a) <= pow256(b),
    decreases b - a,
{
    if a < b {
        lemma_pow256_mono(a, b - 1);
        lemma_pow256_pos(b - 1);
    }
}

fn read_table(bytes: &[u8], pos: usize, expected: usize) -> (r: Result<(Vec<u8>, usize), CacheError>)
    requires
        pos <= bytes@.len(),
        expected <= 0x100_0000,
    ensures
        match r {
            Ok((t, next)) => read_table_spec(bytes@, pos as int, expected as int) == Ok::<
                (Seq<u8>, int),
                CacheError,
            >((t@, next as int)) && next <= bytes@.len(),
            Err(e) => read_table_spec(bytes@, pos as int, expected as int) == Err::<(Seq<u8>, int), CacheError>(e),
        },
{
    if bytes.len() - pos < 8 {
        return Err(CacheError::Truncated);
    }
    let n = read_le(bytes, pos, 8);
    proof {
        lemma_le_value_bound(bytes@.subrange(pos as int, pos + 8));
        lemma_pow256_small();
    }
    if n != expected as u64 {
        return Err(CacheError::SizeMismatch { got: n, expected: expected as u64 });
    }
    let start = pos + 8;
    if bytes.len() - start < expected {
        return Err(CacheError::Truncated);
    }
    let len = bytes.len();
    let mut t: Vec<u8> = Vec::with_capacity(expected);
    let mut i: usize = 0;
    while i < expected
        invariant
            len == bytes@.len(),
            start + expected <= bytes@.len(),
            i <= expected,
            t@ == bytes@.subrange(start as int, start + i),
        decreases expected - i,
    {
        t.push(bytes[start + i]);
        proof {
            assert(bytes@.subrange(start as int, start + i + 1) =~= bytes@.subrange(start as int, start + i).push(
                bytes@[start + i],
            ));
        }
        i = i + 1;
    }
    Ok((t, start + expected))
}

/// Tables from cache bytes.
pub fn decode_tables(bytes: &[u8]) -> (r: Result<PruningTables, CacheError>)
    ensures
        match r {
            Ok(t) => decoded(bytes@) == Ok::<TablesView, CacheError>(tables_view(t)) && t.shape_ok(),
            Err(e) => decoded(bytes@) == Err::<TablesView, CacheError>(e),
        },
{
    let ghost b = bytes@;
    if bytes.len() < 8 {
        return Err(CacheError::Truncated);
    }
    let magic: [u8; 8] = [82, 51, 80, 82, 85, 78, 0, 0];
    let mut i: usize = 0;
    while i < 8
        invariant
            bytes@.len() >= 8,
            i <= 8,
            magic@ == magic_spec(),
            forall|j: int| 0 <= j < i ==> bytes@[j] == magic_spec()[j],
        decreases 8 - i,
    {
        if bytes[i] != magic[i] {
            proof {
                assert(bytes@.subrange(0, 8)[i as int] != magic_spec()[i as int]);
            }
            return Err(CacheError::BadMagic);
        }
        i = i + 1;
    }
    proof {
        assert(bytes@.subrange(0, 8) =~= magic_spec());
    }
    if bytes.len() < 12 {
        return Err(CacheError::Truncated);
    }
    let version = read_le(bytes, 8, 4);
    proof {
        lemma_le_value_bound(bytes@.subrange(8, 12));
        lemma_pow256_small();
    }
    if version != CACHE_VERSION as u64 {
        return Err(CacheError::VersionMismatch(version as u32));
    }
    if bytes.len() < 14 {
        return Err(CacheError::Truncated);
    }
    let goal = read_le(bytes, 12, 2);
    proof {
        lemma_le_value_bound(bytes@.subrange(12, 14));
    }
    let (t0, p1) = match read_table(bytes, 14, N_CO * N_UDSLICE) {
        Ok(x) => x,
        Err(e) => {
            return Err(e);
        },
    };
    let (t1, p2) = match read_table(bytes, p1, N_EO * N_UDSLICE) {
        Ok(x) => x,
        Err(e) => {
            proof {
                assert(read_tables_spec(b, 14, 0) == Err::<Seq<Seq<u8>>, CacheError>(e));
            }
            return Err(e);
        },
    };
    let (t2, p3) = match read_table(bytes, p2, N_CO * N_EO) {
        Ok(x) => x,
        Err(e) => {
            proof {
                assert(read_tables_spec(b, p1 as int, 1) == Err::<Seq<Seq<u8>>, CacheError>(e));
            }
            return Err(e);
        },
    };
    let (t3, p4) = match read_table(bytes, p3, N_CP * N_UDSLICE_PERM) {
        Ok(x) => x,
        Err(e) => {
            proof {
                assert(read_tables_spec(b, p2 as int, 2) == Err::<Seq<Seq<u8>>, CacheError>(e));
                assert(read_tables_spec(b, p1 as int, 1) == Err::<Seq<Seq<u8>>, CacheError>(e));
            }
            return Err(e);
        },
    };
    let (t4, _p5) = match read_table(bytes, p4, N_EP * N_UDSLICE_PERM) {
        Ok(x) => x,
        Err(e) => {
            proof {
                assert(read_tables_spec(b, p3 as int, 3) == Err::<Seq<Seq<u8>>, CacheError>(e));
                assert(read_tables_spec(b, p2 as int, 2) == Err::<Seq<Seq<u8>>, CacheError>(e));
                assert(read_tables_spec(b, p1 as int, 1) == Err::<Seq<Seq<u8>>, CacheError>(e));
            }
            return Err(e);
        },
    };
    proof {
        let r5 = read_tables_spec(b, _p5 as int, 5);
        assert(r5 == Ok::<Seq<Seq<u8>>, CacheError>(Seq::empty()));
        let r4 = read_tables_spec(b, p4 as int, 4);
        assert(r4 == Ok::<Seq<Seq<u8>>, CacheError>(seq![t4@] + Seq::empty()));
        let r3 = read_tables_spec(b, p3 as int, 3);
        assert(r3 == Ok::<Seq<Seq<u8>>, CacheError>(seq![t3@] + (seq![t4@] + Seq::empty())));
        let r2 = read_tables_spec(b, p2 as int, 2);
        let r1 = read_tables_spec(b, p1 as int, 1);
        let r0 = read_tables_spec(b, 14, 0);
        let ts = seq![t0@] + (seq![t1@] + (seq![t2@] + (seq![t3@] + (seq![t4@] + Seq::empty()))));
        assert(r0 == Ok::<Seq<Seq<u8>>, CacheError>(ts));
        assert(ts[0] == t0@ && ts[1] == t1@ && ts[2] == t2@ && ts[3] == t3@ && ts[4] == t4@);
    }
    Ok(PruningTables {
        p1_co_udslice: t0,
        p1_eo_udslice: t1,
        p1_co_eo: t2,
        p2_cp_uperm: t3,
        p2_ep_uperm: t4,
        udslice_goal: goal as u16,
    })
}

proof fn lemma_read_at(e: Seq<u8>, pre: Seq<u8>, t: Seq<u8>, post: Seq<u8>)
    requires
        e == pre + table_bytes(t) + post,
        t.len() < 0x1_0000_0000,
    ensures
        read_table_spec(e, pre.len() as int, t.len() as int) == Ok::<(Seq<u8>, int), CacheError>(
            (t, (pre.len() + 8 + t.len()) as int),
        ),
{
    lemma_pow256_small();
    lemma_le_round_trip(t.len() as int, 8);
    let p = pre.len() as int;
    let lb = le_bytes(t.len() as int, 8);
    assert(e.subrange(p, p + 8) =~= lb);
    assert(e.subrange(p + 8, p + 8 + t.len()) =~= t);
}

/// Decoding the bytes that encoding writes gives back the same goal
/// coordinate and tables, for tables of the lengths the layout expects.
pub proof fn lemma_cache_round_trip(v: TablesView)
    requires
        v.1.len() == expected_len(0),
        v.2.len() == expected_len(1),
        v.3.len() == expected_len(2),
        v.4.len() == expected_len(3),
        v.5.len() == expected_len(4),
    ensures
        decoded(encoded(v)) == Ok::<TablesView, CacheError>(v),
{
    lemma_pow256_small();
    let e = encoded(v);
    let m = magic_spec();
    let ver = le_bytes(CACHE_VERSION as int, 4);
    let g = le_bytes(v.0 as int, 2);
    lemma_le_round_trip(CACHE_VERSION as int, 4);
    lemma_le_round_trip(v.0 as int, 2);
    let h = m + ver + g;
    let b1 = table_bytes(v.1);
    let b2 = table_bytes(v.2);
    let b3 = table_bytes(v.3);
    let b4 = table_bytes(v.4);
    let b5 = table_bytes(v.5);
    assert(h.len() == 14);
    assert(e =~= h + b1 + b2 + b3 + b4 + b5);
    assert(e.subrange(0, 8) =~= m);
    assert(e.subrange(8, 12) =~= ver);
    assert(e.subrange(12, 14) =~= g);
    lemma_le_round_trip(v.1.len() as int, 8);
    lemma_le_round_trip(v.2.len() as int, 8);
    lemma_le_round_trip(v.3.len() as int, 8);
    lemma_le_round_trip(v.4.len() as int, 8);
    lemma_le_round_trip(v.5.len() as int, 8);
    let q1 = h;
    let q2 = h + b1;
    let q3 = h + b1 + b2;
    let q4 = h + b1 + b2 + b3;
    let q5 = h + b1 + b2 + b3 + b4;
    assert(e =~= q1 + b1 + (b2 + b3 + b4 + b5));
    assert(e =~= q2 + b2 + (b3 + b4 + b5));
    assert(e =~= q3 + b3 + (b4 + b5));
    assert(e =~= q4 + b4 + b5);
    assert(e =~= q5 + b5 + Seq::<u8>::empty());
    lemma_read_at(e, q1, v.1, b2 + b3 + b4 + b5);
    lemma_read_at(e, q2, v.2, b3 + b4 + b5);
    lemma_read_at(e, q3, v.3, b4 + b5);
    lemma_read_at(e, q4, v.4, b5);
    lemma_read_at(e, q5, v.5, Seq::empty());
    let p2 = q2.len() as int;
    let p3 = q3.len() as int;
    let p4 = q4.len() as int;
    let p5 = q5.len() as int;
    let p6 = e.len() as int;
    assert(read_tables_spec(e, p6, 5) == Ok::<Seq<Seq<u8>>, CacheError>(Seq::empty()));
    let s5 = seq![v.5] + Seq::<Seq<u8>>::empty();
    let s4 = seq![v.4] + s5;
    let s3 = seq![v.3] + s4;
    let s2 = seq![v.2] + s3;
    let ts = seq![v.1] + s2;
    assert(p6 == p5 + 8 + v.5.len());
    assert(read_tables_spec(e, p5, 4) == Ok::<Seq<Seq<u8>>, CacheError>(s5));
    assert(p5 == p4 + 8 + v.4.len());
    assert(read_tables_spec(e, p4, 3) == Ok::<Seq<Seq<u8>>, CacheError>(s4));
    assert(p4 == p3 + 8 + v.3.len());
    assert(read_tables_spec(e, p3, 2) == Ok::<Seq<Seq<u8>>, CacheError>(s3));
    assert(p3 == p2 + 8 + v.2.len());
    assert(read_tables_spec(e, p2, 1) == Ok::<Seq<Seq<u8>>, CacheError>(s2));
    assert(p2 == 14 + 8 + v.1.len());
    assert(read_tables_spec(e, 14, 0) == Ok::<Seq<Seq<u8>>, CacheError>(ts));
    assert(ts[0] == v.1 && ts[1] == v.2 && ts[2] == v.3 && ts[3] == v.4 && ts[4] == v.5);
}

} // verus!
