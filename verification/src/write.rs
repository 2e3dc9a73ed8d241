use vstd::prelude::*;
use vstd::bytes::{
    spec_u16_to_le_bytes, spec_u32_to_le_bytes, spec_u64_to_le_bytes, spec_u64_from_le_bytes,
    u16_to_le_bytes, u32_to_le_bytes, u64_to_le_bytes, lemma_auto_spec_u64_to_from_le_bytes,
};
use vstd::arithmetic::mul::lemma_mul_inequality;
use crate::schema::{add_sym_post, valid_symbol, Column, ColumnType, SymbolError};
use crate::table::{ColumnFile, MinMax, Partition, Table, TickError};
use crate::timeparts::{bucket_width_of, MAX_PARTITION_TS};
use crate::paths::{get_partition_dir, spec_partition_dir, strftime_ok};

verus! {

/// Row capacity a fresh partition's column files are allocated for.
pub const DEFAULT_ROWS: usize = 1_000_000;

/// Overwrites `dst[off .. off + src.len()]` with `src`, leaving every other
/// byte as it was.
fn write_at(dst: &mut Vec<u8>, off: usize, src: &[u8])
    requires
        off + src@.len() <= old(dst)@.len(),
    ensures
        final(dst)@.len() == old(dst)@.len(),
        forall|i: int|
            0 <= i < old(dst)@.len() ==> final(dst)@[i] == (if off <= i < off + src@.len() {
                src@[i - off]
            } else {
                old(dst)@[i]
            }),
{
    let n: usize = src.len();
    let dl: usize = dst.len();
    let mut j: usize = 0;
    while j < n
        invariant
            n == src@.len(),
            off + n <= dl,
            dl == dst@.len(),
            dst@.len() == old(dst)@.len(),
            0 <= j <= n,
            forall|i: int|
                0 <= i < dst@.len() ==> dst@[i] == (if off <= i < off + j {
                    src@[i - off]
                } else {
                    old(dst)@[i]
                }),
        decreases n - j,
    {
        let b: u8 = *vstd::slice::slice_index_get(src, j);
        dst[off + j] = b;
        j += 1;
    }
}

/// How one `put_<type>` call changes the table: the next cell of the current
/// row of the last partition receives `d` at the row's offset, the column
/// cursor advances, and a full row bumps the partition's row count. Everything
/// else is untouched.
pub open spec fn put_cell_post(t0: Table, t1: Table, d: Seq<u8>) -> bool {
    let np = t0.num_parts();
    let nc = t0.num_cols();
    let pi = np - 1;
    let oci = t0.column_index as int;
    let rc = t0.row_count_of(pi);
    let s = d.len() as int;
    let off = rc * s;
    &&& t1.home == t0.home
    &&& t1.meta_path == t0.meta_path
    &&& t1.num_parts() == np
    &&& t1.num_cols() == nc
    &&& t1.partition_index == t0.partition_index
    &&& t1.storage@.len() == t0.storage@.len()
    &&& forall|p: int|
        0 <= p < np ==> (#[trigger] t1.storage@[p])@.len() == t0.storage@[p]@.len()
    &&& t1.row_count_of(pi) == (if oci == nc - 1 {
        rc + 1
    } else {
        rc
    })
    &&& (if oci == nc - 1 {
        &&& t1.column_index == 0
        &&& t1.partitions@ == t0.partitions@.update(
            pi,
            Partition { row_count: (rc + 1) as usize, ..t0.partitions@[pi] },
        )
    } else {
        &&& t1.column_index == oci + 1
        &&& t1.partitions@ == t0.partitions@
    })
    &&& forall|p: int, c: int|
        0 <= p < np && 0 <= c < nc && !(p == pi && c == oci) ==> t1.col_bytes(p, c)
            == t0.col_bytes(p, c)
    &&& t1.col_bytes(pi, oci).len() == t0.col_bytes(pi, oci).len()
    &&& forall|i: int|
        0 <= i < t0.col_bytes(pi, oci).len() ==> t1.col_bytes(pi, oci)[i] == (if off <= i < off
            + s {
            d[i - off]
        } else {
            t0.col_bytes(pi, oci)[i]
        })
    &&& t1.col_bytes(pi, oci).subrange(off, off + s) == d
}

impl Table {
    /// Writes the next cell of the current row. `bytes` must be exactly one
    /// value of the current column; when the cursor is at the timestamp
    /// column, the value must be the pending timestamp the partition's range
    /// already records.
    #[verifier::rlimit(100)]
    fn put_bytes(&mut self, bytes: &[u8])
        requires
            old(self).wf_core(),
            old(self).num_parts() > 0,
            bytes@.len() == old(self).stride_of(old(self).column_index as int),
            old(self).cap_rows(old(self).num_parts() - 1) >= old(self).row_count_of(
                old(self).num_parts() - 1,
            ) + 1,
            old(self).column_index == 0 ==> bytes@ == spec_u64_to_le_bytes(
                old(self).partitions@.last().ts_range.max as u64,
            ),
        ensures
            final(self).wf(),
            final(self).schema == old(self).schema,
            put_cell_post(*old(self), *final(self), bytes@),
    {
        let pi: usize = self.partition_index;
        let ci: usize = self.column_index;
        let s: usize = bytes.len();
        let rc: usize = self.partitions[pi].row_count;
        let cell_len: usize = self.storage[pi][ci].bytes.len();
        proof {
            let t = *self;
            let pii = pi as int;
            let cii = ci as int;
            assert(t.col_bytes(pii, cii).len() == t.cap_rows(pii) * t.stride_of(cii));
            assert(t.stride_of(cii) == s as int);
            lemma_mul_inequality(rc as int + 1, t.cap_rows(pii), s as int);
            assert((rc as int + 1) * (s as int) == rc as int * (s as int) + s as int)
                by (nonlinear_arith);
            assert(rc as int * (s as int) + s as int <= cell_len as int);
            assert(1 <= s as int);
            assert(rc as int + 1 <= cell_len as int) by (nonlinear_arith)
                requires
                    1 <= s as int,
                    0 <= rc as int,
                    rc as int * (s as int) + s as int <= cell_len as int,
            ;
        }
        let nc: usize = self.schema.columns.len();
        let off: usize = rc * s;
        let cell: &mut Vec<u8> = &mut self.storage[pi][ci].bytes;
        write_at(cell, off, bytes);
        self.column_index = ci + 1;
        if self.column_index == nc {
            self.column_index = 0;
            self.partitions[pi].row_count = rc + 1;
        }
        let ghost t0 = *old(self);
        let ghost t1 = *self;
        proof {
            let npi = pi as int;
            let nci = ci as int;
            let offi = off as int;
            let si = s as int;
            if ci + 1 == nc {
                assert(t1.partitions@ =~= t0.partitions@.update(
                    npi,
                    Partition { row_count: (rc + 1) as usize, ..t0.partitions@[npi] },
                ));
            }
            assert(forall|p: int, c: int|
                0 <= p < t0.num_parts() && 0 <= c < t0.num_cols() && !(p == npi && c == nci)
                    ==> t1.col_bytes(p, c) == t0.col_bytes(p, c));
            assert(t1.col_bytes(npi, nci).subrange(offi, offi + si) =~= bytes@);
            assert(put_cell_post(t0, t1, bytes@));
            lemma_put_cell_preserves_wf(t0, t1, bytes@);
        }
    }
}

/// The capacity reached by one doubling; a drained file restarts at one row.
pub open spec fn grow_cap(c: int) -> int {
    if c == 0 {
        1
    } else {
        2 * c
    }
}

/// How growth changes the table: every column file of the last partition is
/// extended with zero bytes to the doubled row capacity; nothing else moves.
pub open spec fn grow_post(t0: Table, t1: Table) -> bool {
    let np = t0.num_parts();
    let nc = t0.num_cols();
    let pi = np - 1;
    let cap2 = grow_cap(t0.cap_rows(pi));
    &&& t1.schema == t0.schema
    &&& t1.home == t0.home
    &&& t1.meta_path == t0.meta_path
    &&& t1.partitions@ == t0.partitions@
    &&& t1.column_index == t0.column_index
    &&& t1.partition_index == t0.partition_index
    &&& t1.storage@.len() == t0.storage@.len()
    &&& forall|p: int|
        0 <= p < np ==> (#[trigger] t1.storage@[p])@.len() == t0.storage@[p]@.len()
    &&& forall|p: int, c: int|
        0 <= p < np - 1 && 0 <= c < nc ==> t1.col_bytes(p, c) == t0.col_bytes(p, c)
    &&& forall|c: int|
        0 <= c < nc ==> (#[trigger] t1.col_bytes(pi, c)).len() == cap2 * t0.stride_of(c)
    &&& forall|c: int|
        0 <= c < nc ==> #[trigger] t1.col_bytes(pi, c).subrange(
            0,
            t0.col_bytes(pi, c).len() as int,
        ) == t0.col_bytes(pi, c)
}

/// Every column type's stride is between 1 and 8 bytes.
pub proof fn lemma_stride_bound(t: ColumnType)
    ensures
        1 <= t.spec_stride() <= 8,
{
}

impl Table {
    /// Doubles every column file of the active partition, as when the next
    /// row would overflow the mapped region. All columns grow together so
    /// their row offsets remain aligned. Fails only when the doubled size
    /// cannot be addressed, and then changes nothing.
    #[verifier::rlimit(100)]
    fn grow_columns(&mut self) -> (r: Result<(), TickError>)
        requires
            old(self).wf(),
            old(self).num_parts() > 0,
            old(self).column_index == 0,
        ensures
            final(self).wf(),
            r is Err ==> *final(self) == *old(self) && r == Err::<(), TickError>(
                TickError::CapacityOverflow,
            ),
            r is Ok ==> grow_post(*old(self), *final(self)),
            r is Ok ==> final(self).cap_rows(final(self).num_parts() - 1) == grow_cap(
                old(self).cap_rows(old(self).num_parts() - 1),
            ),
    {
        let pi: usize = self.partition_index;
        let nc: usize = self.schema.columns.len();
        let len0: usize = self.storage[pi][0].bytes.len();
        let cap: usize = len0 / 8;
        let cap2: usize = if cap == 0 {
            1
        } else {
            cap * 2
        };
        if cap2 > usize::MAX / 8 {
            return Err(TickError::CapacityOverflow);
        }
        let ghost t0 = *old(self);
        let pii = Ghost(pi as int);
        let mut c: usize = 0;
        while c < nc
            invariant
                t0.wf(),
                t0.num_parts() > 0,
                t0.column_index == 0,
                pii@ == t0.num_parts() - 1,
                pi == pii@,
                nc == t0.num_cols(),
                cap == t0.cap_rows(pii@),
                cap2 == grow_cap(t0.cap_rows(pii@)),
                cap2 <= usize::MAX / 8,
                0 <= c <= nc,
                self.schema == t0.schema,
                self.home == t0.home,
                self.meta_path == t0.meta_path,
                self.partitions@ == t0.partitions@,
                self.column_index == t0.column_index,
                self.partition_index == t0.partition_index,
                self.storage@.len() == t0.storage@.len(),
                forall|p: int|
                    0 <= p < t0.num_parts() ==> (#[trigger] self.storage@[p])@.len()
                        == t0.storage@[p]@.len(),
                forall|p: int, cc: int|
                    0 <= p < t0.num_parts() - 1 && 0 <= cc < nc ==> self.col_bytes(p, cc)
                        == t0.col_bytes(p, cc),
                forall|cc: int|
                    c <= cc < nc ==> self.col_bytes(pii@, cc) == t0.col_bytes(pii@, cc),
                forall|cc: int|
                    0 <= cc < c ==> (#[trigger] self.col_bytes(pii@, cc)).len() == cap2
                        * t0.stride_of(cc),
                forall|cc: int|
                    0 <= cc < c ==> #[trigger] self.col_bytes(pii@, cc).subrange(
                        0,
                        t0.col_bytes(pii@, cc).len() as int,
                    ) == t0.col_bytes(pii@, cc),
            decreases nc - c,
        {
            let stride: usize = self.schema.columns[c].stride;
            proof {
                assert(t0.schema.columns@[c as int].wf());
                assert(stride as int == t0.stride_of(c as int));
                lemma_stride_bound(t0.schema.columns@[c as int].typ);
                assert(1 <= stride <= 8);
                assert(cap2 * stride <= cap2 * 8) by (nonlinear_arith)
                    requires
                        stride <= 8,
                        0 <= cap2,
                ;
                assert(t0.col_bytes(pii@, c as int).len() == t0.cap_rows(pii@) * t0.stride_of(
                    c as int,
                ));
                assert(cap as int * (stride as int) <= cap2 as int * (stride as int))
                    by (nonlinear_arith)
                    requires
                        0 <= stride,
                        0 <= cap,
                        cap <= cap2 || cap2 == grow_cap(cap as int),
                        cap2 == grow_cap(cap as int),
                ;
            }
            proof {
                assert(cap2 as int * (stride as int) > cap as int * (stride as int))
                    by (nonlinear_arith)
                    requires
                        1 <= stride,
                        0 <= cap,
                        cap2 == grow_cap(cap as int),
                ;
            }
            let new_len: usize = cap2 * stride;
            let ghost prev = *self;
            let cell: &mut Vec<u8> = &mut self.storage[pi][c].bytes;
            cell.resize(new_len, 0u8);
            proof {
                assert(self.col_bytes(pii@, c as int).len() == cap2 as int * (stride as int));
                assert(self.col_bytes(pii@, c as int).subrange(
                    0,
                    t0.col_bytes(pii@, c as int).len() as int,
                ) =~= t0.col_bytes(pii@, c as int));
                assert forall|cc: int| 0 <= cc <= c as int implies {
                    &&& (#[trigger] self.col_bytes(pii@, cc)).len() == cap2 as int * t0.stride_of(
                        cc,
                    )
                    &&& self.col_bytes(pii@, cc).subrange(
                        0,
                        t0.col_bytes(pii@, cc).len() as int,
                    ) == t0.col_bytes(pii@, cc)
                } by {
                    if cc < c as int {
                        assert(self.col_bytes(pii@, cc) == prev.col_bytes(pii@, cc));
                    }
                }
            }
            c += 1;
        }
        let ghost t1 = *self;
        proof {
            assert(grow_post(t0, t1));
            lemma_grow_preserves_wf(t0, t1);
            vstd::arithmetic::div_mod::lemma_div_multiples_vanish(cap2 as int, 8);
            assert(t1.col_bytes(pii@, 0).len() == cap2 as int * 8);
            assert(t1.cap_rows(pii@) == cap2 as int);
        }
        Ok(())
    }
}

/// Growth out of a well-formed table leaves it well-formed: data prefixes are
/// kept, so every stored timestamp reads the same.
#[verifier::rlimit(100)]
proof fn lemma_grow_preserves_wf(t0: Table, t1: Table)
    requires
        t0.wf(),
        t0.num_parts() > 0,
        t0.column_index == 0,
        grow_post(t0, t1),
    ensures
        t1.wf(),
{
    let np = t0.num_parts();
    let pi = np - 1;
    let cap2 = grow_cap(t0.cap_rows(pi));
    vstd::arithmetic::div_mod::lemma_div_multiples_vanish(cap2, 8);
    assert(t0.stride_of(0) == 8);
    assert(t1.col_bytes(pi, 0).len() == cap2 * 8);
    assert(t1.cap_rows(pi) == cap2);
    assert(t0.cap_rows(pi) <= cap2);
    assert forall|p: int, r: int|
        0 <= p < np && 0 <= r < t0.row_count_of(p) implies #[trigger] t1.ts_at(p, r) == t0.ts_at(
        p,
        r,
    ) by {
        lemma_mul_inequality(t0.row_count_of(p), t0.cap_rows(p), 8);
        assert(t0.col_bytes(p, 0).len() == t0.cap_rows(p) * t0.stride_of(0));
        assert(8 * r + 8 <= t0.col_bytes(p, 0).len());
        if p == pi {
            assert(t1.col_bytes(p, 0).subrange(0, t0.col_bytes(p, 0).len() as int)
                == t0.col_bytes(p, 0));
            assert(t1.col_bytes(p, 0).subrange(8 * r, 8 * r + 8) =~= t0.col_bytes(p, 0).subrange(
                8 * r,
                8 * r + 8,
            ));
        } else {
            assert(t1.col_bytes(p, 0) == t0.col_bytes(p, 0));
            assert(t1.col_bytes(p, 0).subrange(8 * r, 8 * r + 8) =~= t0.col_bytes(p, 0).subrange(
                8 * r,
                8 * r + 8,
            ));
        }
    }
    assert forall|p: int, c: int|
        0 <= p < np && 0 <= c < t1.num_cols() implies (#[trigger] t1.col_bytes(p, c)).len()
        == t1.cap_rows(p) * t1.stride_of(c) by {
        if p != pi {
            assert(t1.col_bytes(p, c) == t0.col_bytes(p, c));
            assert(t1.col_bytes(p, 0) == t0.col_bytes(p, 0));
        }
    }
    assert forall|p: int|
        0 <= p < np implies t1.row_count_of(p) <= #[trigger] t1.cap_rows(p) by {
        if p != pi {
            assert(t1.col_bytes(p, 0) == t0.col_bytes(p, 0));
        }
    }
    assert forall|p: int, r1: int, r2: int|
        0 <= p < np && 0 <= r1 <= r2 < t1.row_count_of(p) implies #[trigger] t1.ts_at(p, r1)
        <= #[trigger] t1.ts_at(p, r2) by {
        assert(t1.ts_at(p, r1) == t0.ts_at(p, r1));
        assert(t1.ts_at(p, r2) == t0.ts_at(p, r2));
        assert(t0.ts_at(p, r1) <= t0.ts_at(p, r2));
    }
    assert forall|p: int, r: int|
        0 <= p < np && 0 <= r < t1.row_count_of(p) implies t1.partitions@[p].ts_range.min
        <= #[trigger] t1.ts_at(p, r) <= t1.partitions@[p].ts_range.max by {
        assert(t1.ts_at(p, r) == t0.ts_at(p, r));
    }
    assert(t1.schema.wf());
    assert(t1.storage@.len() == t1.num_parts());
    assert(forall|p: int|
        0 <= p < t1.num_parts() ==> (#[trigger] t1.storage@[p])@.len() == t1.num_cols());
    assert(forall|p: int|
        0 <= p < t1.num_parts() ==> (#[trigger] t1.partitions@[p]).wf_meta());
    assert(forall|p: int|
        0 <= p < t1.num_parts() - 1 ==> (#[trigger] t1.partitions@[p]).ts_range.max
            < t1.partitions@[p + 1].ts_range.min);
    assert(forall|p: int|
        0 <= p < t1.num_parts() - 1 ==> (#[trigger] t1.partitions@[p]).ts_bounds.max
            < t1.partitions@[p + 1].ts_bounds.min);
    assert forall|p: int|
        0 <= p < t1.num_parts() && t1.row_count_of(p) == 0 implies p == t1.num_parts() - 1 by {
        assert(t1.row_count_of(p) == t0.row_count_of(p));
    }
    assert(0 <= t1.column_index < t1.num_cols());
    assert(t1.num_parts() > 0 ==> t1.partition_index == t1.num_parts() - 1);
    assert(t1.column_index == 0);
    assert(t1.wf_core());
    assert(t1.row_count_of(t1.num_parts() - 1) == t0.row_count_of(t0.num_parts() - 1));
    assert(t1.wf());
}

/// `ts` opens a new partition: the table is empty, or `ts` lies past the last
/// bucket's upper bound.
pub open spec fn rolls(t0: Table, ts: i64) -> bool {
    t0.num_parts() == 0 || ts > t0.partitions@.last().ts_bounds.max
}

/// What a successful `put(ts)` guarantees: the row cursor sits after the
/// written timestamp, the last partition records `ts` as its observed maximum,
/// row `row_count` of its timestamp column holds `ts`, every other partition
/// and all previously written data are untouched, a freshly opened partition
/// carries the strftime directory, the bucket bounds of `ts` and the default
/// row capacity, and a grown partition carries the doubled capacity.
pub open spec fn put_ok_post(t0: Table, t1: Table, ts: i64) -> bool {
    let nc = t0.num_cols();
    let rolled = rolls(t0, ts);
    let np1 = if rolled {
        t0.num_parts() + 1
    } else {
        t0.num_parts()
    };
    let pi = np1 - 1;
    let rc0: int = if rolled {
        0
    } else {
        t0.row_count_of(t0.num_parts() - 1)
    };
    &&& t1.schema == t0.schema
    &&& t1.home == t0.home
    &&& t1.meta_path == t0.meta_path
    &&& t1.num_parts() == np1
    &&& t1.column_index == (if nc == 1 {
        0int
    } else {
        1int
    })
    &&& t1.row_count_of(pi) == (if nc == 1 {
        rc0 + 1
    } else {
        rc0
    })
    &&& t1.ts_at(pi, rc0) == ts
    &&& t1.partitions@[pi].ts_range.max == ts
    &&& forall|p: int| 0 <= p < np1 - 1 ==> t1.partitions@[p] == t0.partitions@[p]
    &&& forall|p: int, c: int|
        0 <= p < np1 - 1 && 0 <= c < nc ==> t1.col_bytes(p, c) == t0.col_bytes(p, c)
    &&& (rolled ==> {
        &&& t1.cap_rows(pi) == DEFAULT_ROWS
        &&& t1.partitions@[pi].dir@ == spec_partition_dir(
            t0.home@,
            t0.schema.name@,
            t0.schema.partition_fmt@,
            ts as int,
        )
        &&& t1.partitions@[pi].ts_range.min == ts
        &&& t1.partitions@[pi].ts_bounds.min <= ts <= t1.partitions@[pi].ts_bounds.max
        &&& (t0.schema.partition_fmt@.len() > 0 ==> {
            let w = bucket_width_of(t0.schema.partition_fmt@, ts as int);
            &&& t1.partitions@[pi].ts_bounds.min == ts - (ts as int) % w
            &&& t1.partitions@[pi].ts_bounds.max == ts - (ts as int) % w + w - 1
        })
        &&& (t0.schema.partition_fmt@.len() == 0 ==> t1.partitions@[pi].ts_bounds == MinMax {
            min: i64::MIN,
            max: i64::MAX,
        })
    })
    &&& (!rolled ==> {
        &&& t1.cap_rows(pi) == (if t0.cap_rows(pi) > rc0 {
            t0.cap_rows(pi)
        } else {
            grow_cap(t0.cap_rows(pi))
        })
        &&& t1.partitions@[pi].ts_range.min == t0.partitions@[pi].ts_range.min
        &&& t1.partitions@[pi].ts_bounds == t0.partitions@[pi].ts_bounds
        &&& t1.partitions@[pi].dir == t0.partitions@[pi].dir
        &&& forall|c: int|
            0 <= c < nc ==> #[trigger] t1.col_bytes(pi, c).subrange(0, rc0 * t0.stride_of(c))
                == t0.col_bytes(pi, c).subrange(0, rc0 * t0.stride_of(c))
    })
}

impl Table {
    /// The inclusive bucket bounds that would hold `ts` under the schema's
    /// partition format: the whole axis for an empty format, `None` when a
    /// non-empty format has no known specifier.
    pub fn get_partition_bounds(&self, ts: i64) -> (r: Option<MinMax>)
        requires
            0 <= ts <= MAX_PARTITION_TS,
        ensures
            self.schema.partition_fmt@.len() == 0 ==> r == Some(MinMax {
                min: i64::MIN,
                max: i64::MAX,
            }),
            self.schema.partition_fmt@.len() > 0 ==> {
                let w = bucket_width_of(self.schema.partition_fmt@, ts as int);
                if w > 0 {
                    r matches Some(b) && b.min == ts - (ts as int) % w && b.max == ts - (ts as int)
                        % w + w - 1 && 0 <= b.min <= ts <= b.max
                } else {
                    r is None
                }
            },
    {
        let fmt: &str = self.schema.partition_fmt.as_str();
        if fmt.unicode_len() == 0 {
            return Some(MinMax { min: i64::MIN, max: i64::MAX });
        }
        let (secs, nanos) = crate::timeparts::split_ts(ts);
        let year: i32 = crate::timeparts::ts_year(secs, nanos);
        let month: u32 = crate::timeparts::ts_month(secs, nanos);
        let w: i64 = crate::timeparts::highest_res_specifier(fmt, year, month);
        if w == 0 {
            return None;
        }
        let min: i64 = crate::timeparts::partition_min_ts(fmt, ts);
        let max: i64 = crate::timeparts::partition_max_ts(fmt, ts);
        Some(MinMax { min, max })
    }

    /// Appends the timestamp of a new row, opening or growing a partition as
    /// needed. Timestamps must be non-decreasing; a violation of the ordering
    /// contract is excluded by the caller, as are timestamps past the last
    /// representable bucket. On any fault the table is unchanged.
    #[verifier::rlimit(100)]
    pub fn put(&mut self, ts: i64) -> (r: Result<(), TickError>)
        requires
            old(self).wf(),
            old(self).column_index == 0,
            0 <= ts <= MAX_PARTITION_TS,
            old(self).num_parts() > 0 ==> ts >= old(self).last_ts(),
        ensures
            final(self).wf(),
            r is Ok ==> put_ok_post(*old(self), *final(self), ts),
            r is Err ==> *final(self) == *old(self),
            !rolls(*old(self), ts) && old(self).cap_rows(old(self).num_parts() - 1) > old(
                self,
            ).row_count_of(old(self).num_parts() - 1) ==> r is Ok,
            !rolls(*old(self), ts) ==> (r is Ok || r == Err::<(), TickError>(
                TickError::CapacityOverflow,
            )),
            rolls(*old(self), ts) && old(self).schema.partition_fmt@.len() == 0 ==> (if old(
                self,
            ).num_parts() == 0 {
                r is Ok
            } else {
                r == Err::<(), TickError>(TickError::BucketOverlap)
            }),
            rolls(*old(self), ts) && old(self).schema.partition_fmt@.len() > 0 ==> {
                let w = bucket_width_of(old(self).schema.partition_fmt@, ts as int);
                r is Ok <==> (w > 0 && strftime_ok(old(self).schema.partition_fmt@) && (old(
                    self,
                ).num_parts() > 0 ==> ts - (ts as int) % w > old(
                    self,
                ).partitions@.last().ts_bounds.max))
            },
            rolls(*old(self), ts) && old(self).schema.partition_fmt@.len() > 0
                && bucket_width_of(old(self).schema.partition_fmt@, ts as int) == 0
                ==> r == Err::<(), TickError>(TickError::NoPartitionSpecifier),
            r == Err::<(), TickError>(TickError::BucketOverlap) ==> rolls(*old(self), ts)
                && old(self).num_parts() > 0,
            r == Err::<(), TickError>(TickError::FormatRefused) ==> rolls(*old(self), ts)
                && old(self).schema.partition_fmt@.len() > 0 && !strftime_ok(
                old(self).schema.partition_fmt@,
            ),
    {
        let np: usize = self.partitions.len();
        let nc: usize = self.schema.columns.len();
        let rolled: bool = np == 0 || ts > self.partitions[np - 1].ts_bounds.max;
        if rolled {
            let bounds: MinMax = match self.get_partition_bounds(ts) {
                None => {
                    return Err(TickError::NoPartitionSpecifier);
                }
                Some(b) => b,
            };
            let dir: String = match get_partition_dir(
                self.home.as_str(),
                &self.schema,
                ts,
            ) {
                None => {
                    return Err(TickError::FormatRefused);
                }
                Some(d) => d,
            };
            if np > 0 && bounds.min <= self.partitions[np - 1].ts_bounds.max {
                return Err(TickError::BucketOverlap);
            }
            self.partitions.push(
                Partition {
                    dir,
                    ts_range: MinMax { min: ts, max: ts },
                    ts_bounds: bounds,
                    row_count: 0,
                },
            );
            let mut cols: Vec<ColumnFile> = Vec::new();
            let mut c: usize = 0;
            while c < nc
                invariant
                    old(self).wf(),
                    nc == old(self).num_cols(),
                    self.schema == old(self).schema,
                    0 <= c <= nc,
                    cols@.len() == c,
                    forall|k: int|
                        0 <= k < c ==> (#[trigger] cols@[k].bytes@).len() == DEFAULT_ROWS
                            * old(self).stride_of(k),
                decreases nc - c,
            {
                let stride: usize = self.schema.columns[c].stride;
                proof {
                    assert(old(self).schema.columns@[c as int].wf());
                    lemma_stride_bound(old(self).schema.columns@[c as int].typ);
                }
                let bytes: Vec<u8> = vec![0u8; DEFAULT_ROWS * stride];
                cols.push(ColumnFile { bytes });
                c += 1;
            }
            self.storage.push(cols);
            self.partition_index = np;
            proof {
                let t0 = *old(self);
                let npi = np as int;
                assert(forall|p: int| 0 <= p < npi ==> self.partitions@[p] == t0.partitions@[p]);
                assert(forall|p: int| 0 <= p < npi ==> self.storage@[p] == t0.storage@[p]);
                assert(roll_mid(t0, *self, ts));
                lemma_roll_preserves_wf(t0, *self, ts);
            }
        } else {
            let pi: usize = np - 1;
            let rc: usize = self.partitions[pi].row_count;
            let cap: usize = self.storage[pi][0].bytes.len() / 8;
            if cap <= rc {
                match self.grow_columns() {
                    Err(e) => {
                        return Err(e);
                    }
                    Ok(()) => {}
                }
            }
            let ghost grown = *self;
            self.partitions[pi].ts_range.max = ts;
            proof {
                let t0 = *old(self);
                let pii = pi as int;
                assert(self.partitions@ =~= t0.partitions@.update(
                    pii,
                    Partition {
                        ts_range: MinMax { min: t0.partitions@[pii].ts_range.min, max: ts },
                        ..t0.partitions@[pii]
                    },
                ));
                assert(grown.cap_rows(pii) >= t0.row_count_of(pii) + 1);
                assert forall|c: int| 0 <= c < nc as int implies {
                    &&& t0.col_bytes(pii, c).len() <= (#[trigger] self.col_bytes(pii, c)).len()
                    &&& self.col_bytes(pii, c).subrange(0, t0.col_bytes(pii, c).len() as int)
                        == t0.col_bytes(pii, c)
                    &&& self.col_bytes(pii, c).len() == self.cap_rows(pii) * t0.stride_of(c)
                } by {
                    assert(self.col_bytes(pii, c) == grown.col_bytes(pii, c));
                    assert(self.col_bytes(pii, 0) == grown.col_bytes(pii, 0));
                    if cap <= rc {
                        assert(grow_post(t0, grown));
                        assert(grown.cap_rows(pii) == grow_cap(t0.cap_rows(pii)));
                        assert(grown.col_bytes(pii, c).len() == grow_cap(t0.cap_rows(pii))
                            * t0.stride_of(c));
                        assert(grown.col_bytes(pii, c).subrange(
                            0,
                            t0.col_bytes(pii, c).len() as int,
                        ) == t0.col_bytes(pii, c));
                        assert(t0.col_bytes(pii, c).len() == t0.cap_rows(pii) * t0.stride_of(c));
                        lemma_mul_inequality(
                            t0.cap_rows(pii),
                            grow_cap(t0.cap_rows(pii)),
                            t0.stride_of(c),
                        );
                    } else {
                        assert(grown == t0);
                        assert(self.col_bytes(pii, c).subrange(
                            0,
                            t0.col_bytes(pii, c).len() as int,
                        ) =~= t0.col_bytes(pii, c));
                    }
                }
                assert(cap == t0.cap_rows(pii));
                assert(rc == t0.row_count_of(pii));
                assert(self.col_bytes(pii, 0) == grown.col_bytes(pii, 0));
                if cap <= rc {
                    assert(grown.cap_rows(grown.num_parts() - 1) == grow_cap(t0.cap_rows(pii)));
                    assert(grown.num_parts() == t0.num_parts());
                    assert(self.cap_rows(pii) == grow_cap(t0.cap_rows(pii)));
                } else {
                    assert(grown == t0);
                    assert(self.cap_rows(pii) == t0.cap_rows(pii));
                }
                assert(touch_mid(t0, *self, ts));
                lemma_touch_preserves_wf(t0, *self, ts);
            }
        }
        let ghost mid = *self;
        let b: Vec<u8> = u64_to_le_bytes(ts as u64);
        self.put_bytes(b.as_slice());
        proof {
            lemma_auto_spec_u64_to_from_le_bytes();
            assert((ts as u64) as i64 == ts) by (bit_vector);
            lemma_put_combines(*old(self), mid, *self, ts);
        }
        Ok(())
    }
}

/// A `put_cell_post` step out of a well-formed table leaves the table
/// well-formed: the write lands past the completed rows, so every stored
/// timestamp is untouched, and a completed row extends the sorted order by
/// the pending timestamp the range already records.
#[verifier::rlimit(100)]
proof fn lemma_put_cell_preserves_wf(t0: Table, t1: Table, d: Seq<u8>)
    requires
        t0.wf_core(),
        t0.num_parts() > 0,
        d.len() == t0.stride_of(t0.column_index as int),
        t0.cap_rows(t0.num_parts() - 1) >= t0.row_count_of(t0.num_parts() - 1) + 1,
        t0.column_index == 0 ==> d == spec_u64_to_le_bytes(
            t0.partitions@.last().ts_range.max as u64,
        ),
        t1.schema == t0.schema,
        put_cell_post(t0, t1, d),
    ensures
        t1.wf(),
{
    lemma_auto_spec_u64_to_from_le_bytes();
    let npi = t0.num_parts() - 1;
    let nci = t0.column_index as int;
    let nc = t0.num_cols();
    let rci = t0.row_count_of(npi);
    let si = d.len() as int;
    let offi = rci * si;
    let completed = nci == nc - 1;
    // timestamps of completed rows are untouched, so `ts_at` is stable
    assert forall|p: int, r: int|
        0 <= p < t1.num_parts() && 0 <= r < t0.row_count_of(p)
            implies #[trigger] t1.ts_at(p, r) == t0.ts_at(p, r) by {
        if p == npi && nci == 0 {
            assert(t0.stride_of(0) == 8);
            assert(si == 8);
            assert(offi == 8 * rci) by (nonlinear_arith)
                requires
                    si == 8,
                    offi == rci * si,
            ;
            assert(8 * r + 8 <= 8 * rci);
            lemma_mul_inequality(t0.row_count_of(p), t0.cap_rows(p), 8);
            assert(t0.col_bytes(p, 0).len() == t0.cap_rows(p) * t0.stride_of(0));
            assert(8 * r + 8 <= t0.col_bytes(p, 0).len());
            assert forall|k: int| 0 <= k < 8 implies #[trigger] t1.col_bytes(p, 0)[8 * r + k]
                == t0.col_bytes(p, 0)[8 * r + k] by {
                assert(8 * r + k < offi);
            }
            assert(t1.col_bytes(p, 0).subrange(8 * r, 8 * r + 8) =~= t0.col_bytes(p, 0).subrange(
                8 * r,
                8 * r + 8,
            ));
        } else {
            assert(t1.col_bytes(p, 0) == t0.col_bytes(p, 0));
            assert(t1.col_bytes(p, 0).subrange(8 * r, 8 * r + 8) =~= t0.col_bytes(p, 0).subrange(
                8 * r,
                8 * r + 8,
            ));
        }
    }
    // the timestamp of the in-flight row, written now or by an earlier call
    let pend = t0.partitions@[npi].ts_range.max;
    assert(t1.ts_at(npi, rci) == pend) by {
        if nci == 0 {
            assert(t0.stride_of(0) == 8);
            assert(si == 8);
            assert(offi == 8 * rci) by (nonlinear_arith)
                requires
                    si == 8,
                    offi == rci * si,
            ;
            assert(t1.col_bytes(npi, 0).subrange(8 * rci, 8 * rci + 8) == d);
            assert(spec_u64_from_le_bytes(spec_u64_to_le_bytes(pend as u64)) == pend as u64);
            assert((pend as u64) as i64 == pend) by (bit_vector);
        } else {
            assert(t1.col_bytes(npi, 0) == t0.col_bytes(npi, 0));
            assert(t1.col_bytes(npi, 0).subrange(8 * rci, 8 * rci + 8) =~= t0.col_bytes(
                npi,
                0,
            ).subrange(8 * rci, 8 * rci + 8));
        }
    }
    // sortedness and range containment, with the completed row included
    assert forall|p: int, r1: int, r2: int|
        0 <= p < t1.num_parts() && 0 <= r1 <= r2 < t1.row_count_of(p)
            implies #[trigger] t1.ts_at(p, r1) <= #[trigger] t1.ts_at(p, r2) by {
        if p == npi && completed && r2 == rci {
            if r1 < rci {
                assert(t0.ts_at(p, r1) <= pend);
            }
        } else {
            assert(t0.ts_at(p, r1) <= t0.ts_at(p, r2));
        }
    }
    assert forall|p: int, r: int|
        0 <= p < t1.num_parts() && 0 <= r < t1.row_count_of(p)
            implies t1.partitions@[p].ts_range.min <= #[trigger] t1.ts_at(p, r)
            <= t1.partitions@[p].ts_range.max by {
        if p == npi && completed && r == rci {
            assert(t1.ts_at(p, r) == pend);
        } else {
            assert(t1.ts_at(p, r) == t0.ts_at(p, r));
        }
    }
    assert forall|p: int|
        0 <= p < t1.num_parts() && t1.row_count_of(p) == 0 implies p == t1.num_parts() - 1 by {
        if p != npi {
            assert(t1.row_count_of(p) == t0.row_count_of(p));
        }
    }
    assert(forall|p: int, c: int|
        0 <= p < t1.num_parts() && 0 <= c < t1.num_cols() ==> (#[trigger] t1.col_bytes(
            p,
            c,
        )).len() == t1.cap_rows(p) * t1.stride_of(c));
    assert(t1.wf_core());
    assert(t1.wf());
}


/// The table state after a new partition for `ts` was opened but before the
/// timestamp cell is written: the new last partition records the single
/// pending timestamp, its column files are fresh at the default capacity, and
/// everything older is untouched.
pub open spec fn roll_mid(t0: Table, mid: Table, ts: i64) -> bool {
    let np = t0.num_parts();
    let nc = t0.num_cols();
    &&& mid.schema == t0.schema
    &&& mid.home == t0.home
    &&& mid.meta_path == t0.meta_path
    &&& mid.partitions@.len() == np + 1
    &&& forall|p: int| 0 <= p < np ==> mid.partitions@[p] == t0.partitions@[p]
    &&& mid.partitions@[np].ts_range == MinMax { min: ts, max: ts }
    &&& mid.partitions@[np].row_count == 0
    &&& mid.partitions@[np].ts_bounds.min <= ts <= mid.partitions@[np].ts_bounds.max
    &&& (np > 0 ==> mid.partitions@[np].ts_bounds.min > t0.partitions@[np - 1].ts_bounds.max)
    &&& mid.storage@.len() == np + 1
    &&& forall|p: int| 0 <= p < np ==> mid.storage@[p] == t0.storage@[p]
    &&& mid.storage@[np]@.len() == nc
    &&& forall|c: int|
        0 <= c < nc ==> (#[trigger] mid.col_bytes(np, c)).len() == DEFAULT_ROWS * t0.stride_of(c)
    &&& mid.column_index == 0
    &&& mid.partition_index == np
}

/// Opening a partition preserves well-formedness (up to the in-flight-row
/// claim) and allocates the default row capacity.
#[verifier::rlimit(100)]
proof fn lemma_roll_preserves_wf(t0: Table, mid: Table, ts: i64)
    requires
        t0.wf(),
        t0.column_index == 0,
        t0.num_parts() > 0 ==> ts >= t0.last_ts(),
        roll_mid(t0, mid, ts),
    ensures
        mid.wf_core(),
        mid.cap_rows(mid.num_parts() - 1) == DEFAULT_ROWS,
{
    let np = t0.num_parts();
    let nc = t0.num_cols();
    assert(mid.stride_of(0) == 8);
    assert(mid.col_bytes(np, 0).len() == DEFAULT_ROWS * 8);
    vstd::arithmetic::div_mod::lemma_div_multiples_vanish(DEFAULT_ROWS as int, 8);
    assert(mid.cap_rows(np) == DEFAULT_ROWS);
    assert forall|p: int, c: int|
        0 <= p < mid.num_parts() && 0 <= c < nc implies (#[trigger] mid.col_bytes(p, c)).len()
        == mid.cap_rows(p) * mid.stride_of(c) by {
        if p < np {
            assert(mid.col_bytes(p, c) == t0.col_bytes(p, c));
            assert(mid.col_bytes(p, 0) == t0.col_bytes(p, 0));
        }
    }
    assert forall|p: int, r: int|
        0 <= p < mid.num_parts() && 0 <= r < mid.row_count_of(p) implies {
        &&& mid.ts_at(p, r) == t0.ts_at(p, r)
        &&& mid.partitions@[p].ts_range.min <= #[trigger] mid.ts_at(p, r)
            <= mid.partitions@[p].ts_range.max
    } by {
        assert(p < np);
        assert(mid.col_bytes(p, 0) == t0.col_bytes(p, 0));
    }
    assert forall|p: int, r1: int, r2: int|
        0 <= p < mid.num_parts() && 0 <= r1 <= r2 < mid.row_count_of(p)
        implies #[trigger] mid.ts_at(p, r1) <= #[trigger] mid.ts_at(p, r2) by {
        assert(p < np);
        assert(mid.col_bytes(p, 0) == t0.col_bytes(p, 0));
        assert(mid.ts_at(p, r1) == t0.ts_at(p, r1));
        assert(mid.ts_at(p, r2) == t0.ts_at(p, r2));
    }
    if np > 0 {
        // the new partition sits strictly after the old last one
        assert(mid.partitions@[np - 1] == t0.partitions@[np - 1]);
        assert(t0.partitions@[np - 1].wf_meta());
        assert(ts > t0.partitions@[np - 1].ts_bounds.max);
    }
    assert forall|p: int|
        0 <= p < mid.num_parts() implies (#[trigger] mid.storage@[p])@.len()
        == mid.num_cols() by {
        if p < np {
            assert(mid.storage@[p] == t0.storage@[p]);
        }
    }
    assert forall|p: int|
        0 <= p < mid.num_parts() implies (#[trigger] mid.partitions@[p]).wf_meta() by {
        if p < np {
            assert(mid.partitions@[p] == t0.partitions@[p]);
        }
    }
    assert forall|p: int|
        0 <= p < mid.num_parts() implies mid.row_count_of(p)
        <= #[trigger] mid.cap_rows(p) by {
        if p < np {
            assert(mid.col_bytes(p, 0) == t0.col_bytes(p, 0));
            assert(mid.row_count_of(p) == t0.row_count_of(p));
        }
    }
    assert forall|p: int|
        0 <= p < mid.num_parts() - 1 implies (#[trigger] mid.partitions@[p]).ts_range.max
        < mid.partitions@[p + 1].ts_range.min by {
        if p < np - 1 {
            assert(mid.partitions@[p] == t0.partitions@[p]);
            assert(mid.partitions@[p + 1] == t0.partitions@[p + 1]);
        } else {
            assert(mid.partitions@[p] == t0.partitions@[p]);
            assert(mid.partitions@[p].ts_range.max <= mid.partitions@[p].ts_bounds.max);
        }
    }
    assert forall|p: int|
        0 <= p < mid.num_parts() - 1 implies (#[trigger] mid.partitions@[p]).ts_bounds.max
        < mid.partitions@[p + 1].ts_bounds.min by {
        if p < np - 1 {
            assert(mid.partitions@[p] == t0.partitions@[p]);
            assert(mid.partitions@[p + 1] == t0.partitions@[p + 1]);
        } else {
            assert(mid.partitions@[p] == t0.partitions@[p]);
        }
    }
    assert forall|p: int|
        0 <= p < mid.num_parts() && mid.row_count_of(p) == 0
        implies p == mid.num_parts() - 1 by {
        if p < np {
            assert(mid.row_count_of(p) == t0.row_count_of(p));
            if t0.row_count_of(p) == 0 {
                assert(p == np - 1);
                // the old last partition cannot be empty while no row is in
                // flight
                assert(t0.column_index == 0);
                assert(false);
            }
        }
    }
    assert(mid.wf_core());
}

/// The table state after the active partition was prepared for an in-bounds
/// append: its observed maximum is the pending timestamp, capacity covers one
/// more row, data prefixes are intact, and other partitions are untouched.
pub open spec fn touch_mid(t0: Table, mid: Table, ts: i64) -> bool {
    let np = t0.num_parts();
    let nc = t0.num_cols();
    let pi = np - 1;
    &&& mid.schema == t0.schema
    &&& mid.home == t0.home
    &&& mid.meta_path == t0.meta_path
    &&& mid.partitions@ == t0.partitions@.update(
        pi,
        Partition {
            ts_range: MinMax { min: t0.partitions@[pi].ts_range.min, max: ts },
            ..t0.partitions@[pi]
        },
    )
    &&& mid.column_index == 0
    &&& mid.partition_index == t0.partition_index
    &&& mid.storage@.len() == np
    &&& forall|p: int| 0 <= p < np ==> (#[trigger] mid.storage@[p])@.len() == nc
    &&& forall|p: int, c: int|
        0 <= p < np - 1 && 0 <= c < nc ==> mid.col_bytes(p, c) == t0.col_bytes(p, c)
    &&& forall|c: int|
        0 <= c < nc ==> t0.col_bytes(pi, c).len() <= (#[trigger] mid.col_bytes(pi, c)).len()
    &&& forall|c: int|
        0 <= c < nc ==> #[trigger] mid.col_bytes(pi, c).subrange(
            0,
            t0.col_bytes(pi, c).len() as int,
        ) == t0.col_bytes(pi, c)
    &&& forall|c: int|
        0 <= c < nc ==> (#[trigger] mid.col_bytes(pi, c)).len() == mid.cap_rows(pi)
            * t0.stride_of(c)
    &&& mid.cap_rows(pi) >= t0.row_count_of(pi) + 1
}

/// Preparing the active partition for an in-bounds append preserves
/// well-formedness.
#[verifier::rlimit(100)]
proof fn lemma_touch_preserves_wf(t0: Table, mid: Table, ts: i64)
    requires
        t0.wf(),
        t0.column_index == 0,
        t0.num_parts() > 0,
        ts >= t0.last_ts(),
        ts <= t0.partitions@.last().ts_bounds.max,
        touch_mid(t0, mid, ts),
    ensures
        mid.wf(),
{
    let np = t0.num_parts();
    let pi = np - 1;
    assert forall|p: int, r: int|
        0 <= p < np && 0 <= r < t0.row_count_of(p) implies #[trigger] mid.ts_at(p, r) == t0.ts_at(
        p,
        r,
    ) by {
        lemma_mul_inequality(t0.row_count_of(p), t0.cap_rows(p), 8);
        assert(t0.col_bytes(p, 0).len() == t0.cap_rows(p) * t0.stride_of(0));
        assert(8 * r + 8 <= t0.col_bytes(p, 0).len());
        if p == pi {
            assert(mid.col_bytes(p, 0).subrange(0, t0.col_bytes(p, 0).len() as int)
                == t0.col_bytes(p, 0));
            assert(mid.col_bytes(p, 0).subrange(8 * r, 8 * r + 8) =~= t0.col_bytes(p, 0).subrange(
                8 * r,
                8 * r + 8,
            ));
        } else {
            assert(mid.col_bytes(p, 0) == t0.col_bytes(p, 0));
            assert(mid.col_bytes(p, 0).subrange(8 * r, 8 * r + 8) =~= t0.col_bytes(p, 0).subrange(
                8 * r,
                8 * r + 8,
            ));
        }
    }
    assert forall|p: int, r1: int, r2: int|
        0 <= p < mid.num_parts() && 0 <= r1 <= r2 < mid.row_count_of(p)
        implies #[trigger] mid.ts_at(p, r1) <= #[trigger] mid.ts_at(p, r2) by {
        assert(mid.ts_at(p, r1) == t0.ts_at(p, r1));
        assert(mid.ts_at(p, r2) == t0.ts_at(p, r2));
    }
    assert forall|p: int, r: int|
        0 <= p < mid.num_parts() && 0 <= r < mid.row_count_of(p)
        implies mid.partitions@[p].ts_range.min <= #[trigger] mid.ts_at(p, r)
        <= mid.partitions@[p].ts_range.max by {
        assert(mid.ts_at(p, r) == t0.ts_at(p, r));
        if p == pi {
            assert(t0.ts_at(p, r) <= t0.partitions@[pi].ts_range.max);
            assert(t0.partitions@[pi].ts_range.max == t0.last_ts());
        }
    }
    assert forall|p: int|
        0 <= p < mid.num_parts() && mid.row_count_of(p) == 0
        implies p == mid.num_parts() - 1 by {
        assert(mid.row_count_of(p) == t0.row_count_of(p));
    }
    assert(mid.row_count_of(pi) == t0.row_count_of(pi));
    assert(mid.row_count_of(pi) > 0);
    assert(mid.wf());
}

/// Composes partition selection and the timestamp write into the contract of
/// `put`.
#[verifier::rlimit(100)]
proof fn lemma_put_combines(t0: Table, mid: Table, t1: Table, ts: i64)
    requires
        t0.wf(),
        t0.column_index == 0,
        0 <= ts <= MAX_PARTITION_TS,
        t0.num_parts() > 0 ==> ts >= t0.last_ts(),
        rolls(t0, ts) ==> roll_mid(t0, mid, ts) && {
            let last = mid.partitions@[t0.num_parts()];
            &&& last.dir@ == spec_partition_dir(
                t0.home@,
                t0.schema.name@,
                t0.schema.partition_fmt@,
                ts as int,
            )
            &&& (t0.schema.partition_fmt@.len() > 0 ==> {
                let w = bucket_width_of(t0.schema.partition_fmt@, ts as int);
                &&& last.ts_bounds.min == ts - (ts as int) % w
                &&& last.ts_bounds.max == ts - (ts as int) % w + w - 1
            })
            &&& (t0.schema.partition_fmt@.len() == 0 ==> last.ts_bounds == MinMax {
                min: i64::MIN,
                max: i64::MAX,
            })
        },
        !rolls(t0, ts) ==> touch_mid(t0, mid, ts) && mid.cap_rows(t0.num_parts() - 1) == (if t0.cap_rows(
            t0.num_parts() - 1,
        ) > t0.row_count_of(t0.num_parts() - 1) {
            t0.cap_rows(t0.num_parts() - 1)
        } else {
            grow_cap(t0.cap_rows(t0.num_parts() - 1))
        }),
        t1.schema == mid.schema,
        t1.wf(),
        put_cell_post(mid, t1, spec_u64_to_le_bytes(ts as u64)),
    ensures
        t1.num_parts() == mid.num_parts(),
        t1.partitions@[t1.num_parts() - 1].dir == mid.partitions@[mid.num_parts() - 1].dir,
        t1.partitions@[t1.num_parts() - 1].ts_bounds
            == mid.partitions@[mid.num_parts() - 1].ts_bounds,
        put_ok_post(t0, t1, ts),
{
    lemma_auto_spec_u64_to_from_le_bytes();
    let d = spec_u64_to_le_bytes(ts as u64);
    let rolled = rolls(t0, ts);
    let np1 = if rolled { t0.num_parts() + 1 } else { t0.num_parts() };
    let pi = np1 - 1;
    let nc = t0.num_cols();
    let rc0: int = if rolled { 0 } else { t0.row_count_of(t0.num_parts() - 1) };
    assert(mid.num_parts() == np1);
    assert(mid.row_count_of(pi) == rc0);
    assert(mid.num_cols() == nc);
    assert(d.len() == 8);
    // the timestamp cell now holds ts
    assert(rc0 * d.len() as int == rc0 * 8) by (nonlinear_arith)
        requires
            d.len() == 8,
    ;
    assert(t1.col_bytes(pi, 0).subrange(rc0 * 8, rc0 * 8 + 8) == d);
    assert(spec_u64_from_le_bytes(d) == ts as u64);
    assert((ts as u64) as i64 == ts) by (bit_vector);
    assert(t1.ts_at(pi, rc0) == ts);
    // the last partition's observed maximum is ts
    assert(mid.partitions@[pi].ts_range.max == ts);
    if nc == 1 {
        assert(t1.partitions@ == mid.partitions@.update(
            pi,
            Partition { row_count: (rc0 + 1) as usize, ..mid.partitions@[pi] },
        ));
    } else {
        assert(t1.partitions@ == mid.partitions@);
    }
    assert(t1.partitions@[pi].ts_range.max == ts);
    // untouched earlier partitions
    assert forall|p: int| 0 <= p < np1 - 1 implies t1.partitions@[p] == t0.partitions@[p] by {
        assert(t1.partitions@[p] == mid.partitions@[p]);
    }
    assert forall|p: int, c: int|
        0 <= p < np1 - 1 && 0 <= c < nc implies t1.col_bytes(p, c) == t0.col_bytes(p, c) by {
        assert(t1.col_bytes(p, c) == mid.col_bytes(p, c));
        assert(mid.col_bytes(p, c) == t0.col_bytes(p, c));
    }
    if !rolled {
        // data written before this row is intact in the active partition
        assert forall|c: int|
            0 <= c < nc implies #[trigger] t1.col_bytes(pi, c).subrange(0, rc0 * t0.stride_of(c))
            == t0.col_bytes(pi, c).subrange(0, rc0 * t0.stride_of(c)) by {
            let s = t0.stride_of(c);
            lemma_mul_inequality(rc0, t0.cap_rows(pi), s);
            assert(t0.col_bytes(pi, c).len() == t0.cap_rows(pi) * s);
            assert(rc0 * s <= t0.col_bytes(pi, c).len());
            assert(mid.col_bytes(pi, c).subrange(0, t0.col_bytes(pi, c).len() as int)
                == t0.col_bytes(pi, c));
            assert(mid.col_bytes(pi, c).subrange(0, rc0 * s) =~= t0.col_bytes(pi, c).subrange(
                0,
                rc0 * s,
            ));
            if c == 0 {
                assert(t0.stride_of(0) == 8);
                assert forall|i: int| 0 <= i < rc0 * 8 implies #[trigger] t1.col_bytes(pi, 0)[i]
                    == mid.col_bytes(pi, 0)[i] by {
                    assert(i < rc0 * d.len());
                }
                assert(t1.col_bytes(pi, 0).subrange(0, rc0 * 8) =~= mid.col_bytes(
                    pi,
                    0,
                ).subrange(0, rc0 * 8));
            } else {
                assert(t1.col_bytes(pi, c) == mid.col_bytes(pi, c));
            }
        }
    }
    assert(t1.num_parts() == np1);
    assert(t1.column_index == (if nc == 1 { 0int } else { 1int }));
    assert(t1.row_count_of(pi) == (if nc == 1 { rc0 + 1 } else { rc0 }));
    // the timestamp write leaves every column file's length alone, so the
    // capacity the partition-selection step established carries to t1
    assert(t1.col_bytes(pi, 0).len() == mid.col_bytes(pi, 0).len());
    assert(t1.cap_rows(pi) == mid.cap_rows(pi));
    if rolled {
        assert(mid.stride_of(0) == 8);
        assert(mid.col_bytes(pi, 0).len() == DEFAULT_ROWS * 8);
        vstd::arithmetic::div_mod::lemma_div_multiples_vanish(DEFAULT_ROWS as int, 8);
        assert(mid.cap_rows(pi) == DEFAULT_ROWS);
        assert(t1.partitions@[pi].dir == mid.partitions@[pi].dir);
        assert(t1.partitions@[pi].ts_bounds == mid.partitions@[pi].ts_bounds);
        assert(t1.partitions@[pi].ts_range.min == ts);
    } else {
        assert(t1.partitions@[pi].ts_range.min == t0.partitions@[pi].ts_range.min);
        assert(t1.partitions@[pi].ts_bounds == t0.partitions@[pi].ts_bounds);
        assert(t1.partitions@[pi].dir == t0.partitions@[pi].dir);
    }
    assert(put_ok_post(t0, t1, ts));
}


impl Table {
    /// Common contract of the typed per-row appenders: a row must be started
    /// (`put` wrote the timestamp), and the current column must carry exactly
    /// this type.
    pub open spec fn can_put(self, typ: ColumnType) -> bool {
        &&& self.wf()
        &&& self.column_index > 0
        &&& self.schema.columns@[self.column_index as int].typ == typ
    }

    pub fn put_i8(&mut self, val: i8) -> (r: Ghost<Seq<u8>>)
        requires
            old(self).can_put(ColumnType::I8),
        ensures
            final(self).wf(),
            final(self).schema == old(self).schema,
            put_cell_post(*old(self), *final(self), r@),
            r@ == seq![val as u8],
    {
        let mut b: Vec<u8> = Vec::new();
        b.push(val as u8);
        self.put_bytes(b.as_slice());
        Ghost(b@)
    }

    pub fn put_u8(&mut self, val: u8) -> (r: Ghost<Seq<u8>>)
        requires
            old(self).can_put(ColumnType::U8),
        ensures
            final(self).wf(),
            final(self).schema == old(self).schema,
            put_cell_post(*old(self), *final(self), r@),
            r@ == seq![val],
    {
        let mut b: Vec<u8> = Vec::new();
        b.push(val);
        self.put_bytes(b.as_slice());
        Ghost(b@)
    }

    pub fn put_i16(&mut self, val: i16) -> (r: Ghost<Seq<u8>>)
        requires
            old(self).can_put(ColumnType::I16),
        ensures
            final(self).wf(),
            final(self).schema == old(self).schema,
            put_cell_post(*old(self), *final(self), r@),
            r@ == spec_u16_to_le_bytes(val as u16),
    {
        let b: Vec<u8> = u16_to_le_bytes(val as u16);
        self.put_bytes(b.as_slice());
        Ghost(b@)
    }

    pub fn put_u16(&mut self, val: u16) -> (r: Ghost<Seq<u8>>)
        requires
            old(self).can_put(ColumnType::U16),
        ensures
            final(self).wf(),
            final(self).schema == old(self).schema,
            put_cell_post(*old(self), *final(self), r@),
            r@ == spec_u16_to_le_bytes(val),
    {
        let b: Vec<u8> = u16_to_le_bytes(val);
        self.put_bytes(b.as_slice());
        Ghost(b@)
    }

    pub fn put_i32(&mut self, val: i32) -> (r: Ghost<Seq<u8>>)
        requires
            old(self).can_put(ColumnType::I32),
        ensures
            final(self).wf(),
            final(self).schema == old(self).schema,
            put_cell_post(*old(self), *final(self), r@),
            r@ == spec_u32_to_le_bytes(val as u32),
    {
        let b: Vec<u8> = u32_to_le_bytes(val as u32);
        self.put_bytes(b.as_slice());
        Ghost(b@)
    }

    pub fn put_u32(&mut self, val: u32) -> (r: Ghost<Seq<u8>>)
        requires
            old(self).can_put(ColumnType::U32),
        ensures
            final(self).wf(),
            final(self).schema == old(self).schema,
            put_cell_post(*old(self), *final(self), r@),
            r@ == spec_u32_to_le_bytes(val),
    {
        let b: Vec<u8> = u32_to_le_bytes(val);
        self.put_bytes(b.as_slice());
        Ghost(b@)
    }

    /// The bit pattern of an `f32` value, as `f32::to_bits` hands it out:
    /// floating point stays outside the verified core.
    pub fn put_f32_bits(&mut self, bits: u32) -> (r: Ghost<Seq<u8>>)
        requires
            old(self).can_put(ColumnType::F32),
        ensures
            final(self).wf(),
            final(self).schema == old(self).schema,
            put_cell_post(*old(self), *final(self), r@),
            r@ == spec_u32_to_le_bytes(bits),
    {
        let b: Vec<u8> = u32_to_le_bytes(bits);
        self.put_bytes(b.as_slice());
        Ghost(b@)
    }

    pub fn put_i64(&mut self, val: i64) -> (r: Ghost<Seq<u8>>)
        requires
            old(self).can_put(ColumnType::I64),
        ensures
            final(self).wf(),
            final(self).schema == old(self).schema,
            put_cell_post(*old(self), *final(self), r@),
            r@ == spec_u64_to_le_bytes(val as u64),
    {
        let b: Vec<u8> = u64_to_le_bytes(val as u64);
        self.put_bytes(b.as_slice());
        Ghost(b@)
    }

    pub fn put_u64(&mut self, val: u64) -> (r: Ghost<Seq<u8>>)
        requires
            old(self).can_put(ColumnType::U64),
        ensures
            final(self).wf(),
            final(self).schema == old(self).schema,
            put_cell_post(*old(self), *final(self), r@),
            r@ == spec_u64_to_le_bytes(val),
    {
        let b: Vec<u8> = u64_to_le_bytes(val);
        self.put_bytes(b.as_slice());
        Ghost(b@)
    }

    /// A secondary timestamp column; the leading `ts` column is written by
    /// `put` alone.
    pub fn put_timestamp(&mut self, val: i64) -> (r: Ghost<Seq<u8>>)
        requires
            old(self).can_put(ColumnType::Timestamp),
        ensures
            final(self).wf(),
            final(self).schema == old(self).schema,
            put_cell_post(*old(self), *final(self), r@),
            r@ == spec_u64_to_le_bytes(val as u64),
    {
        let b: Vec<u8> = u64_to_le_bytes(val as u64);
        self.put_bytes(b.as_slice());
        Ghost(b@)
    }

    /// The bit pattern of an `f64` value, as `f64::to_bits` hands it out.
    pub fn put_f64_bits(&mut self, bits: u64) -> (r: Ghost<Seq<u8>>)
        requires
            old(self).can_put(ColumnType::F64),
        ensures
            final(self).wf(),
            final(self).schema == old(self).schema,
            put_cell_post(*old(self), *final(self), r@),
            r@ == spec_u64_to_le_bytes(bits),
    {
        let b: Vec<u8> = u64_to_le_bytes(bits);
        self.put_bytes(b.as_slice());
        Ghost(b@)
    }

    /// Interns the symbol in the current column's dictionary and writes the
    /// returned 1-based index as the cell value. A symbol that cannot stand in
    /// the dictionary side-file is rejected, leaving the table unchanged.
    pub fn put_symbol(&mut self, val: &str) -> (r: Result<u64, SymbolError>)
        requires
            old(self).can_put(ColumnType::Symbol),
        ensures
            final(self).wf(),
            !valid_symbol(val@) ==> r == Err::<u64, SymbolError>(SymbolError::InvalidSymbol)
                && *final(self) == *old(self),
            valid_symbol(val@) ==> (r matches Ok(ix) && {
                let ci = old(self).column_index as int;
                let old_dict = old(self).schema.columns@[ci].symbol_file.unwrap();
                let new_dict = final(self).schema.columns@[ci].symbol_file.unwrap();
                &&& add_sym_post(old_dict, new_dict, val@, ix as int)
                &&& final(self).schema.columns@ == old(self).schema.columns@.update(
                    ci,
                    Column { symbol_file: Some(new_dict), ..old(self).schema.columns@[ci] },
                )
                &&& final(self).schema.name == old(self).schema.name
                &&& final(self).schema.partition_fmt == old(self).schema.partition_fmt
                &&& put_cell_post(*old(self), *final(self), spec_u64_to_le_bytes(ix as u64))
            }),
    {
        if !crate::schema::symbol_ok(val) {
            return Err(SymbolError::InvalidSymbol);
        }
        let ci: usize = self.column_index;
        let ghost t0 = *self;
        let dict_slot: &mut Option<crate::schema::SymbolDict> =
            &mut self.schema.columns[ci].symbol_file;
        let ix: u64 = match dict_slot {
            Some(dict) => {
                match dict.add_sym(val) {
                    Err(_) => {
                        proof {
                            assert(false);
                        }
                        vstd::pervasive::unreached()
                    }
                    Ok(ix) => ix,
                }
            }
            None => {
                proof {
                    assert(t0.schema.columns@[ci as int].wf());
                    assert(false);
                }
                vstd::pervasive::unreached()
            }
        };
        proof {
            assert(self.schema.columns@ =~= t0.schema.columns@.update(
                ci as int,
                Column {
                    symbol_file: self.schema.columns@[ci as int].symbol_file,
                    ..t0.schema.columns@[ci as int]
                },
            ));
            assert(self.schema.wf()) by {
                assert(forall|i: int|
                    0 <= i < self.schema.columns@.len() && i != ci
                        ==> self.schema.columns@[i] == t0.schema.columns@[i]);
                assert(self.schema.columns@[ci as int].wf());
            }
            assert forall|c2: int|
                0 <= c2 < self.num_cols() implies #[trigger] self.stride_of(c2) == t0.stride_of(
                c2,
            ) by {
                if c2 != ci {
                    assert(self.schema.columns@[c2] == t0.schema.columns@[c2]);
                }
            }
            lemma_eq_data_wf_core(t0, *self);
            assert(self.wf_core());
        }
        let b: Vec<u8> = u64_to_le_bytes(ix);
        self.put_bytes(b.as_slice());
        Ok(ix)
    }

    /// Truncates every column file to exactly `stride * row_count` bytes,
    /// freeing the tail slack: the on-disk image of each column is then
    /// precisely the little-endian rows that were written. The caller
    /// persists the images and the metadata.
    #[verifier::rlimit(100)]
    pub fn flush(&mut self)
        requires
            old(self).wf(),
            old(self).column_index == 0,
        ensures
            final(self).wf(),
            final(self).schema == old(self).schema,
            final(self).home == old(self).home,
            final(self).meta_path == old(self).meta_path,
            final(self).partitions@ == old(self).partitions@,
            final(self).column_index == 0,
            final(self).num_parts() == old(self).num_parts(),
            forall|p: int, c: int|
                0 <= p < old(self).num_parts() && 0 <= c < old(self).num_cols()
                    ==> #[trigger] final(self).col_bytes(p, c) == old(self).used_bytes(p, c),
            forall|p: int, c: int|
                0 <= p < old(self).num_parts() && 0 <= c < old(self).num_cols()
                    ==> (#[trigger] final(self).col_bytes(p, c)).len() == old(self).row_count_of(
                    p,
                ) * old(self).stride_of(c),
    {
        let ghost t0 = *self;
        let np: usize = self.partitions.len();
        let nc: usize = self.schema.columns.len();
        let mut p: usize = 0;
        while p < np
            invariant
                t0.wf(),
                t0.column_index == 0,
                np == t0.num_parts(),
                nc == t0.num_cols(),
                0 <= p <= np,
                self.schema == t0.schema,
                self.home == t0.home,
                self.meta_path == t0.meta_path,
                self.partitions@ == t0.partitions@,
                self.column_index == t0.column_index,
                self.partition_index == t0.partition_index,
                self.storage@.len() == t0.storage@.len(),
                forall|q: int|
                    0 <= q < np ==> (#[trigger] self.storage@[q])@.len() == t0.storage@[q]@.len(),
                forall|q: int, c: int|
                    p <= q < np && 0 <= c < nc ==> self.col_bytes(q, c) == t0.col_bytes(q, c),
                forall|q: int, c: int|
                    0 <= q < p && 0 <= c < nc ==> #[trigger] self.col_bytes(q, c)
                        == t0.used_bytes(q, c),
            decreases np - p,
        {
            let rc: usize = self.partitions[p].row_count;
            let mut c: usize = 0;
            while c < nc
                invariant
                    t0.wf(),
                    np == t0.num_parts(),
                    nc == t0.num_cols(),
                    0 <= p < np,
                    0 <= c <= nc,
                    rc == t0.row_count_of(p as int),
                    self.schema == t0.schema,
                    self.home == t0.home,
                    self.meta_path == t0.meta_path,
                    self.partitions@ == t0.partitions@,
                    self.column_index == t0.column_index,
                    self.partition_index == t0.partition_index,
                    self.storage@.len() == t0.storage@.len(),
                    forall|q: int|
                        0 <= q < np ==> (#[trigger] self.storage@[q])@.len()
                            == t0.storage@[q]@.len(),
                    forall|q: int, cc: int|
                        p < q < np && 0 <= cc < nc ==> self.col_bytes(q, cc) == t0.col_bytes(
                            q,
                            cc,
                        ),
                    forall|cc: int|
                        c <= cc < nc ==> self.col_bytes(p as int, cc) == t0.col_bytes(
                            p as int,
                            cc,
                        ),
                    forall|q: int, cc: int|
                        0 <= q < p && 0 <= cc < nc ==> #[trigger] self.col_bytes(q, cc)
                            == t0.used_bytes(q, cc),
                    forall|cc: int|
                        0 <= cc < c ==> #[trigger] self.col_bytes(p as int, cc) == t0.used_bytes(
                            p as int,
                            cc,
                        ),
                decreases nc - c,
            {
                let stride: usize = self.schema.columns[c].stride;
                proof {
                    assert(t0.schema.columns@[c as int].wf());
                    assert(stride as int == t0.stride_of(c as int));
                    assert(t0.col_bytes(p as int, c as int).len() == t0.cap_rows(p as int)
                        * t0.stride_of(c as int));
                    lemma_mul_inequality(
                        t0.row_count_of(p as int),
                        t0.cap_rows(p as int),
                        stride as int,
                    );
                }
                let cl: usize = self.storage[p][c].bytes.len();
                proof {
                    assert(self.col_bytes(p as int, c as int) == t0.col_bytes(
                        p as int,
                        c as int,
                    ));
                    assert(rc as int * (stride as int) <= cl as int);
                }
                let used: usize = rc * stride;
                let ghost prev = *self;
                let cell: &mut Vec<u8> = &mut self.storage[p][c].bytes;
                cell.truncate(used);
                proof {
                    assert forall|q: int, cc: int|
                        0 <= q < np as int && 0 <= cc < nc as int && !(q == p as int && cc
                            == c as int) implies #[trigger] self.col_bytes(q, cc)
                        == prev.col_bytes(q, cc) by {}
                    assert forall|cc: int| 0 <= cc <= c as int implies {
                        &&& (cc < c as int ==> #[trigger] self.col_bytes(p as int, cc)
                            == t0.used_bytes(p as int, cc))
                        &&& (cc == c as int ==> self.col_bytes(p as int, cc) == t0.used_bytes(
                            p as int,
                            cc,
                        ))
                    } by {
                        if cc < c as int {
                            assert(self.col_bytes(p as int, cc) == prev.col_bytes(p as int, cc));
                        } else {
                            assert(self.col_bytes(p as int, cc) =~= t0.used_bytes(p as int, cc));
                        }
                    }
                }
                c += 1;
            }
            p += 1;
        }
        proof {
            lemma_flush_preserves_wf(t0, *self);
        }
    }
}

/// Truncating every column to its used prefix preserves well-formedness: the
/// capacity becomes exactly the row count and the stored rows are unchanged.
#[verifier::rlimit(100)]
proof fn lemma_flush_preserves_wf(t0: Table, t1: Table)
    requires
        t0.wf(),
        t0.column_index == 0,
        t1.schema == t0.schema,
        t1.home == t0.home,
        t1.meta_path == t0.meta_path,
        t1.partitions@ == t0.partitions@,
        t1.column_index == t0.column_index,
        t1.partition_index == t0.partition_index,
        t1.storage@.len() == t0.storage@.len(),
        forall|q: int|
            0 <= q < t0.num_parts() ==> (#[trigger] t1.storage@[q])@.len()
                == t0.storage@[q]@.len(),
        forall|q: int, c: int|
            0 <= q < t0.num_parts() && 0 <= c < t0.num_cols() ==> #[trigger] t1.col_bytes(q, c)
                == t0.used_bytes(q, c),
    ensures
        t1.wf(),
        forall|p: int, c: int|
            0 <= p < t0.num_parts() && 0 <= c < t0.num_cols()
                ==> (#[trigger] t1.col_bytes(p, c)).len() == t0.row_count_of(p) * t0.stride_of(c),
{
    let np = t0.num_parts();
    let nc = t0.num_cols();
    assert forall|p: int, c: int|
        0 <= p < np && 0 <= c < nc implies (#[trigger] t1.col_bytes(p, c)).len()
        == t0.row_count_of(p) * t0.stride_of(c) by {
        assert(t0.col_bytes(p, c).len() == t0.cap_rows(p) * t0.stride_of(c));
        lemma_mul_inequality(t0.row_count_of(p), t0.cap_rows(p), t0.stride_of(c));
    }
    assert forall|p: int|
        0 <= p < np implies #[trigger] t1.cap_rows(p) == t0.row_count_of(p) by {
        assert(t1.col_bytes(p, 0).len() == t0.row_count_of(p) * 8);
        vstd::arithmetic::div_mod::lemma_div_multiples_vanish(t0.row_count_of(p), 8);
    }
    assert forall|p: int, r: int|
        0 <= p < np && 0 <= r < t0.row_count_of(p) implies #[trigger] t1.ts_at(p, r) == t0.ts_at(
        p,
        r,
    ) by {
        assert(t1.col_bytes(p, 0) == t0.used_bytes(p, 0));
        assert(t0.stride_of(0) == 8);
        assert(t0.row_count_of(p) * t0.stride_of(0) == t0.row_count_of(p) * 8)
            by (nonlinear_arith)
            requires
                t0.stride_of(0) == 8,
        ;
        assert(t0.col_bytes(p, 0).len() == t0.cap_rows(p) * 8);
        lemma_mul_inequality(t0.row_count_of(p), t0.cap_rows(p), 8);
        assert(8 * r + 8 <= t0.row_count_of(p) * 8);
        assert(t1.col_bytes(p, 0).subrange(8 * r, 8 * r + 8) =~= t0.col_bytes(p, 0).subrange(
            8 * r,
            8 * r + 8,
        ));
    }
    assert forall|p: int, r1: int, r2: int|
        0 <= p < np && 0 <= r1 <= r2 < t1.row_count_of(p) implies #[trigger] t1.ts_at(p, r1)
        <= #[trigger] t1.ts_at(p, r2) by {
        assert(t1.ts_at(p, r1) == t0.ts_at(p, r1));
        assert(t1.ts_at(p, r2) == t0.ts_at(p, r2));
    }
    assert forall|p: int, r: int|
        0 <= p < np && 0 <= r < t1.row_count_of(p) implies t1.partitions@[p].ts_range.min
        <= #[trigger] t1.ts_at(p, r) <= t1.partitions@[p].ts_range.max by {
        assert(t1.ts_at(p, r) == t0.ts_at(p, r));
    }
    assert forall|p: int, c: int|
        0 <= p < np && 0 <= c < nc implies (#[trigger] t1.col_bytes(p, c)).len() == t1.cap_rows(p)
        * t1.stride_of(c) by {
        assert(t1.col_bytes(p, c).len() == t0.row_count_of(p) * t0.stride_of(c));
        assert(t1.cap_rows(p) == t0.row_count_of(p));
    }
    assert(forall|p: int|
        0 <= p < np ==> t1.row_count_of(p) <= #[trigger] t1.cap_rows(p));
    assert(forall|p: int|
        0 <= p < np ==> (#[trigger] t1.storage@[p])@.len() == t1.num_cols());
    assert forall|p: int|
        0 <= p < t1.num_parts() && #[trigger] t1.row_count_of(p) == 0 implies p == t1.num_parts()
        - 1 by {
        assert(t1.row_count_of(p) == t0.row_count_of(p));
    }
    assert(t1.wf_core());
    assert(t1.wf());
}


/// A table whose partitions, storage, and cursor are unchanged, and whose
/// schema still agrees column-by-column on types, stays well-formed.
#[verifier::rlimit(100)]
proof fn lemma_eq_data_wf_core(t0: Table, t1: Table)
    requires
        t0.wf_core(),
        t1.schema.wf(),
        t1.partitions@ == t0.partitions@,
        t1.storage@ == t0.storage@,
        t1.column_index == t0.column_index,
        t1.partition_index == t0.partition_index,
        t1.schema.columns@.len() == t0.schema.columns@.len(),
        forall|c: int|
            0 <= c < t0.num_cols() ==> #[trigger] t1.stride_of(c) == t0.stride_of(c),
    ensures
        t1.wf_core(),
{
    assert forall|p: int, c: int|
        0 <= p < t1.num_parts() && 0 <= c < t1.num_cols() implies (#[trigger] t1.col_bytes(
        p,
        c,
    )).len() == t1.cap_rows(p) * t1.stride_of(c) by {
        assert(t1.col_bytes(p, c) == t0.col_bytes(p, c));
        assert(t1.cap_rows(p) == t0.cap_rows(p));
    }
    assert forall|p: int|
        0 <= p < t1.num_parts() implies t1.row_count_of(p) <= #[trigger] t1.cap_rows(p) by {
        assert(t1.cap_rows(p) == t0.cap_rows(p));
    }
    assert forall|p: int, r1: int, r2: int|
        0 <= p < t1.num_parts() && 0 <= r1 <= r2 < t1.row_count_of(p)
        implies #[trigger] t1.ts_at(p, r1) <= #[trigger] t1.ts_at(p, r2) by {
        assert(t1.ts_at(p, r1) == t0.ts_at(p, r1));
        assert(t1.ts_at(p, r2) == t0.ts_at(p, r2));
    }
    assert forall|p: int, r: int|
        0 <= p < t1.num_parts() && 0 <= r < t1.row_count_of(p)
        implies t1.partitions@[p].ts_range.min <= #[trigger] t1.ts_at(p, r)
        <= t1.partitions@[p].ts_range.max by {
        assert(t1.ts_at(p, r) == t0.ts_at(p, r));
    }
    if t1.column_index > 0 {
        let last = t1.num_parts() - 1;
        assert(t1.cap_rows(last) == t0.cap_rows(last));
        assert(t1.ts_at(last, t1.row_count_of(last)) == t0.ts_at(last, t0.row_count_of(last)));
    }
    assert(t1.schema.wf());
    assert(t1.storage@.len() == t1.num_parts());
    assert(forall|p: int|
        0 <= p < t1.num_parts() ==> (#[trigger] t1.storage@[p])@.len() == t1.num_cols());
    assert(forall|p: int|
        0 <= p < t1.num_parts() ==> (#[trigger] t1.partitions@[p]).wf_meta());
    assert(forall|p: int|
        0 <= p < t1.num_parts() - 1 ==> (#[trigger] t1.partitions@[p]).ts_range.max
            < t1.partitions@[p + 1].ts_range.min);
    assert(forall|p: int|
        0 <= p < t1.num_parts() - 1 ==> (#[trigger] t1.partitions@[p]).ts_bounds.max
            < t1.partitions@[p + 1].ts_bounds.min);
    assert forall|p: int|
        0 <= p < t1.num_parts() && #[trigger] t1.row_count_of(p) == 0 implies p == t1.num_parts()
        - 1 by {
        assert(t1.row_count_of(p) == t0.row_count_of(p));
    }
    assert(0 <= t1.column_index < t1.num_cols());
    assert(t1.num_parts() == 0 ==> t1.column_index == 0 && t1.partition_index == 0);
    assert(t1.num_parts() > 0 ==> t1.partition_index == t1.num_parts() - 1);
    assert(t1.column_index > 0 ==> t1.num_parts() > 0);
    assert(t1.column_index > 0 ==> t1.cap_rows(t1.num_parts() - 1) >= t1.row_count_of(
        t1.num_parts() - 1,
    ) + 1);
    assert(t1.column_index > 0 ==> t1.ts_at(t1.num_parts() - 1, t1.row_count_of(
        t1.num_parts() - 1,
    )) == t1.partitions@[t1.num_parts() - 1].ts_range.max);
    assert(t1.wf_core());
}

} // verus!
