//! Where each part of an encoded file stands.
use crate::codec::{
    encode_spec, header_bytes, pool_after, records, track_record, words_be,
    HeaderFields,
};
use crate::pool::lemma_register;
use crate::track::{flat_values, record_size, TrackView};
use crate::wire::{be_at, be_bytes, lemma_be_read_written};
use vstd::prelude::*;

verus! {

/// A big-endian word written at `inner` of a part `x` that stands at `off` of `e`
/// reads back from `e` at `off + inner`.
pub proof fn lemma_read_be_inside(e: Seq<u8>, x: Seq<u8>, off: int, inner: int, v: u32)
    requires
        0 <= off,
        off + x.len() <= e.len(),
        e.subrange(off, off + x.len()) == x,
        0 <= inner,
        inner + 4 <= x.len(),
        x.subrange(inner, inner + 4) == be_bytes(v),
    ensures
        be_at(e, off + inner) == v,
{
    assert(e.subrange(off + inner, off + inner + 4) =~= x.subrange(inner, inner + 4)) by {
        assert forall|t: int| 0 <= t < 4 implies #[trigger] e.subrange(off + inner, off + inner + 4)[t]
            == x.subrange(inner, inner + 4)[t] by {
            assert(e[off + inner + t] == e.subrange(off, off + x.len())[inner + t]);
        }
    }
    lemma_be_read_written(e, off + inner, v);
}

pub proof fn lemma_record_len(ts: Seq<TrackView>, baked: bool, k: nat)
    ensures
        track_record(ts, baked, k).len() == record_size(baked),
{
}

pub proof fn lemma_records_len(ts: Seq<TrackView>, baked: bool, n: nat)
    ensures
        records(ts, baked, n).len() == n * record_size(baked),
    decreases n,
{
    if n > 0 {
        lemma_records_len(ts, baked, (n - 1) as nat);
        lemma_record_len(ts, baked, (n - 1) as nat);
        assert((n - 1) * record_size(baked) + record_size(baked) == n * record_size(baked))
            by (nonlinear_arith);
    }
}

/// Record `k` stands at `k * record_size` of the records.
pub proof fn lemma_records_slice(ts: Seq<TrackView>, baked: bool, n: nat, k: nat)
    requires
        k < n,
    ensures
        records(ts, baked, n).subrange(
            k * record_size(baked),
            (k + 1) * record_size(baked),
        ) == track_record(ts, baked, k),
    decreases n,
{
    let rs = record_size(baked);
    let prev = records(ts, baked, (n - 1) as nat);
    lemma_records_len(ts, baked, (n - 1) as nat);
    lemma_record_len(ts, baked, (n - 1) as nat);
    assert((k + 1) * rs == k * rs + rs) by (nonlinear_arith);
    if k + 1 < n {
        lemma_records_slice(ts, baked, (n - 1) as nat, k);
        assert((k + 1) * rs <= (n - 1) * rs) by (nonlinear_arith)
            requires
                k + 1 <= n - 1,
                rs > 0,
        ;
        assert(records(ts, baked, n).subrange(k * rs, (k + 1) * rs) =~= prev.subrange(
            k * rs,
            (k + 1) * rs,
        ));
    } else {
        assert(records(ts, baked, n).subrange(k * rs, (k + 1) * rs) =~= track_record(
            ts,
            baked,
            k,
        ));
    }
}

pub proof fn lemma_words_be_len(p: Seq<u32>)
    ensures
        words_be(p).len() == 4 * p.len(),
    decreases p.len(),
{
    if p.len() > 0 {
        lemma_words_be_len(p.drop_last());
    }
}

/// Value `q` of the pool stands at `4 * q` of its bytes.
pub proof fn lemma_words_be_slice(p: Seq<u32>, q: int)
    requires
        0 <= q < p.len(),
    ensures
        words_be(p).subrange(4 * q, 4 * q + 4) == be_bytes(p[q]),
    decreases p.len(),
{
    lemma_words_be_len(p.drop_last());
    if q + 1 < p.len() {
        lemma_words_be_slice(p.drop_last(), q);
        assert(words_be(p).subrange(4 * q, 4 * q + 4) =~= words_be(p.drop_last()).subrange(
            4 * q,
            4 * q + 4,
        ));
    } else {
        assert(words_be(p).subrange(4 * q, 4 * q + 4) =~= be_bytes(p.last()));
    }
}

/// Pools only grow: an earlier pool is a prefix of a later one.
pub proof fn lemma_pool_prefix(ts: Seq<TrackView>, baked: bool, a: nat, b: nat)
    requires
        a <= b,
    ensures
        pool_after(ts, baked, a).len() <= pool_after(ts, baked, b).len(),
        pool_after(ts, baked, b).subrange(0, pool_after(ts, baked, a).len() as int) == pool_after(
            ts,
            baked,
            a,
        ),
    decreases b,
{
    if a == b {
        assert(pool_after(ts, baked, b).subrange(0, pool_after(ts, baked, a).len() as int)
            =~= pool_after(ts, baked, a));
    } else {
        lemma_pool_prefix(ts, baked, a, (b - 1) as nat);
        let p = pool_after(ts, baked, (b - 1) as nat);
        lemma_register(p, flat_values(ts[b - 1], baked));
        let q = pool_after(ts, baked, b);
        let pa = pool_after(ts, baked, a);
        assert(q.subrange(0, pa.len() as int) =~= pa) by {
            assert forall|t: int| 0 <= t < pa.len() implies #[trigger] q.subrange(0, pa.len() as int)[t]
                == pa[t] by {
                assert(q[t] == q.subrange(0, p.len() as int)[t]);
                assert(p[t] == p.subrange(0, pa.len() as int)[t]);
            }
        }
    }
}

/// The parts of an encoded file and where they stand.
pub proof fn lemma_encode_layout(magic: u32, h: HeaderFields, ts: Seq<TrackView>, baked: bool)
    ensures
        ({
            let e = encode_spec(magic, h, ts, baked);
            let rs = record_size(baked);
            let pool = pool_after(ts, baked, 8);
            let data = 32 + 8 * rs + 4;
            &&& e.len() == data + 4 * pool.len() + 12
            &&& e.subrange(0, 32) == header_bytes(magic, h, baked)
            &&& e.subrange(32, 32 + 8 * rs) == records(ts, baked, 8)
            &&& e.subrange(32 + 8 * rs, data) == be_bytes(((pool.len() + 2) * 4) as u32)
            &&& e.subrange(data, data + 4 * pool.len()) == words_be(pool)
        }),
{
    let e = encode_spec(magic, h, ts, baked);
    let rs = record_size(baked);
    let pool = pool_after(ts, baked, 8);
    let hd = header_bytes(magic, h, baked);
    let rc = records(ts, baked, 8);
    let sz = be_bytes(((pool.len() + 2) * 4) as u32);
    let wd = words_be(pool);
    lemma_records_len(ts, baked, 8);
    lemma_words_be_len(pool);
    assert(hd.len() == 32);
    let data = 32 + 8 * rs + 4;
    assert(e.subrange(0, 32) =~= hd);
    assert(e.subrange(32, 32 + 8 * rs) =~= rc);
    assert(e.subrange(32 + 8 * rs, data) =~= sz);
    assert(e.subrange(data, data + 4 * pool.len()) =~= wd);
}

/// The record of track `k` within an encoded file.
pub proof fn lemma_record_in_encoding(
    magic: u32,
    h: HeaderFields,
    ts: Seq<TrackView>,
    baked: bool,
    k: nat,
)
    requires
        k < 8,
    ensures
        ({
            let e = encode_spec(magic, h, ts, baked);
            let rs = record_size(baked);
            e.subrange(32 + k * rs, 32 + (k + 1) * rs) == track_record(ts, baked, k)
        }),
{
    let e = encode_spec(magic, h, ts, baked);
    let rs = record_size(baked);
    lemma_encode_layout(magic, h, ts, baked);
    lemma_records_slice(ts, baked, 8, k);
    let rc = records(ts, baked, 8);
    assert((k + 1) * rs <= 8 * rs) by (nonlinear_arith)
        requires
            k < 8,
            rs > 0,
    ;
    assert((k + 1) * rs == k * rs + rs) by (nonlinear_arith);
    assert(e.subrange(32 + k * rs, 32 + (k + 1) * rs) =~= rc.subrange(k * rs, (k + 1) * rs)) by {
        assert forall|t: int| 0 <= t < rs implies #[trigger] e.subrange(32 + k * rs, 32 + (k + 1) * rs)[t]
            == rc.subrange(k * rs, (k + 1) * rs)[t] by {
            assert(e[32 + k * rs + t] == e.subrange(32, 32 + 8 * rs)[k * rs + t]);
        }
    }
}

/// Value `q` of the final pool reads back from the encoded file.
pub proof fn lemma_value_in_encoding(
    magic: u32,
    h: HeaderFields,
    ts: Seq<TrackView>,
    baked: bool,
    q: int,
)
    requires
        0 <= q < pool_after(ts, baked, 8).len(),
    ensures
        be_at(
            encode_spec(magic, h, ts, baked),
            32 + 8 * record_size(baked) + 4 + 4 * q,
        ) == pool_after(ts, baked, 8)[q],
{
    let e = encode_spec(magic, h, ts, baked);
    let pool = pool_after(ts, baked, 8);
    let data = 32 + 8 * record_size(baked) + 4;
    lemma_encode_layout(magic, h, ts, baked);
    lemma_words_be_slice(pool, q);
    lemma_words_be_len(pool);
    lemma_read_be_inside(e, words_be(pool), data, 4 * q, pool[q]);
}

} // verus!
