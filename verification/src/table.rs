use vstd::prelude::*;
use vstd::bytes::spec_u64_from_le_bytes;
use crate::schema::{ColumnType, Schema};

verus! {

/// Faults of the write path. Each stands for a condition the original design
/// treats as fatal; the writer reports them instead of panicking and leaves
/// the table unchanged.
#[derive(Debug, Copy, Clone, PartialEq, Eq, Structural)]
pub enum TickError {
    /// The partition format was refused by the formatter.
    FormatRefused,
    /// The non-empty partition format holds no known strftime specifier, so no
    /// bucket width exists.
    NoPartitionSpecifier,
    /// The bucket of the new timestamp would overlap the previous partition's
    /// bounds.
    BucketOverlap,
    /// Doubling the column files would exceed the address space.
    CapacityOverflow,
    /// A requested column name is not in the schema.
    UnknownColumn,
    /// Persisted table parts that no well-formed table could have written.
    CorruptTable,
    /// An adapter-declared argument type differs from the column's on-disk
    /// type.
    TypeMismatch,
    /// A request timestamp was not integer nanoseconds, RFC 3339, or a plain
    /// date.
    BadTimestamp,
}

/// An inclusive range of timestamps.
#[derive(Debug, Clone, Copy, PartialEq, Eq, Structural)]
pub struct MinMax {
    pub min: i64,
    pub max: i64,
}

/// One partition bucket. `ts_bounds` is the inclusive range the bucket may
/// contain given the schema's partition format; `ts_range` is the observed
/// range of what was written. `dir` is the on-disk directory of the bucket's
/// column files.
#[derive(Debug, Clone)]
pub struct Partition {
    pub dir: String,
    pub ts_range: MinMax,
    pub ts_bounds: MinMax,
    pub row_count: usize,
}

impl Partition {
    pub open spec fn wf_meta(self) -> bool {
        self.ts_bounds.min <= self.ts_range.min && self.ts_range.min <= self.ts_range.max
            && self.ts_range.max <= self.ts_bounds.max
    }
}

/// The byte image of one column file of one partition: raw little-endian
/// packed values, row `i` at byte offset `i * stride`. The vector's length is
/// the file's capacity; only the first `row_count * stride` bytes are data.
#[derive(Debug, Clone)]
pub struct ColumnFile {
    pub bytes: Vec<u8>,
}

/// A table: a schema, its partitions in timestamp order, and the column file
/// images, `storage[p][c]` backing column `c` of partition `p`. Writes go
/// through the row cursor (`partition_index`, `column_index`); both paths keep
/// `wf()`.
#[derive(Debug)]
pub struct Table {
    pub schema: Schema,
    pub partitions: Vec<Partition>,
    pub storage: Vec<Vec<ColumnFile>>,
    pub home: String,
    pub meta_path: String,
    pub column_index: usize,
    pub partition_index: usize,
}

impl Table {
    pub open spec fn num_cols(self) -> int {
        self.schema.columns@.len() as int
    }

    pub open spec fn num_parts(self) -> int {
        self.partitions@.len() as int
    }

    pub open spec fn stride_of(self, c: int) -> int {
        self.schema.columns@[c].typ.spec_stride() as int
    }

    pub open spec fn col_bytes(self, p: int, c: int) -> Seq<u8> {
        self.storage@[p]@[c].bytes@
    }

    pub open spec fn row_count_of(self, p: int) -> int {
        self.partitions@[p].row_count as int
    }

    /// Uniform row capacity of a partition's column files.
    pub open spec fn cap_rows(self, p: int) -> int {
        self.col_bytes(p, 0).len() as int / 8
    }

    /// The timestamp stored in row `r` of partition `p`.
    pub open spec fn ts_at(self, p: int, r: int) -> i64 {
        spec_u64_from_le_bytes(self.col_bytes(p, 0).subrange(8 * r, 8 * r + 8)) as i64
    }

    /// The data prefix of a column file: the bytes of the completed rows.
    pub open spec fn used_bytes(self, p: int, c: int) -> Seq<u8> {
        self.col_bytes(p, c).subrange(0, self.row_count_of(p) * self.stride_of(c))
    }

    /// Everything `wf` holds except the claim that an empty last partition
    /// means a row is in flight; mid-way through opening a partition that
    /// claim is briefly false.
    pub open spec fn wf_core(self) -> bool {
        &&& self.schema.wf()
        &&& self.storage@.len() == self.num_parts()
        &&& forall|p: int|
            0 <= p < self.num_parts() ==> (#[trigger] self.storage@[p])@.len() == self.num_cols()
        &&& forall|p: int, c: int|
            0 <= p < self.num_parts() && 0 <= c < self.num_cols() ==> (#[trigger] self.col_bytes(
                p,
                c,
            )).len() == self.cap_rows(p) * self.stride_of(c)
        &&& forall|p: int|
            0 <= p < self.num_parts() ==> self.row_count_of(p) <= #[trigger] self.cap_rows(p)
        &&& forall|p: int| 0 <= p < self.num_parts() ==> (#[trigger] self.partitions@[p]).wf_meta()
        &&& forall|p: int, r1: int, r2: int|
            0 <= p < self.num_parts() && 0 <= r1 <= r2 < self.row_count_of(p) ==> #[trigger] self.ts_at(
                p,
                r1,
            ) <= #[trigger] self.ts_at(p, r2)
        &&& forall|p: int, r: int|
            0 <= p < self.num_parts() && 0 <= r < self.row_count_of(p) ==> self.partitions@[p].ts_range.min
                <= #[trigger] self.ts_at(p, r) <= self.partitions@[p].ts_range.max
        &&& forall|p: int|
            0 <= p < self.num_parts() - 1 ==> (#[trigger] self.partitions@[p]).ts_range.max
                < self.partitions@[p + 1].ts_range.min
        &&& forall|p: int|
            0 <= p < self.num_parts() - 1 ==> (#[trigger] self.partitions@[p]).ts_bounds.max
                < self.partitions@[p + 1].ts_bounds.min
        &&& forall|p: int|
            0 <= p < self.num_parts() && #[trigger] self.row_count_of(p) == 0 ==> p
                == self.num_parts() - 1
        &&& 0 <= self.column_index < self.num_cols()
        &&& (self.num_parts() == 0 ==> self.column_index == 0 && self.partition_index == 0)
        &&& (self.num_parts() > 0 ==> self.partition_index == self.num_parts() - 1)
        &&& (self.column_index > 0 ==> self.num_parts() > 0 && {
            let last = self.num_parts() - 1;
            &&& self.cap_rows(last) >= self.row_count_of(last) + 1
            &&& self.ts_at(last, self.row_count_of(last)) == self.partitions@[last].ts_range.max
        })
    }

    /// Well-formedness, preserved by every operation: shapes agree, capacities
    /// are uniform per partition and cover the rows, timestamps are sorted
    /// within and across partitions, observed ranges sit within bucket bounds,
    /// bucket bounds of successive partitions are disjoint and ascending, and
    /// a partition is empty only while its first row is in flight.
    pub open spec fn wf(self) -> bool {
        &&& self.wf_core()
        &&& (self.num_parts() > 0 && self.row_count_of(self.num_parts() - 1) == 0
            ==> self.column_index > 0)
    }

    /// The greatest timestamp the table holds (completed or in flight), as
    /// tracked by the last partition's observed range.
    pub open spec fn last_ts(self) -> i64 {
        self.partitions@.last().ts_range.max
    }

    /// Creates a fresh, empty table for a schema. The caller owns clearing any
    /// prior data directory and persisting the metadata.
    pub fn create(schema: Schema, home: &str) -> (t: Table)
        requires
            schema.wf(),
        ensures
            t.wf(),
            t.schema == schema,
            t.num_parts() == 0,
            t.home@ == home@,
            t.meta_path@ == crate::paths::spec_meta_path(home@, schema.name@),
    {
        let meta_path = crate::paths::get_meta_path(home, schema.name.as_str());
        Table {
            schema,
            partitions: Vec::new(),
            storage: Vec::new(),
            home: home.to_owned(),
            meta_path,
            column_index: 0,
            partition_index: 0,
        }
    }

    pub fn get_first_ts(&self) -> (r: Option<i64>)
        ensures
            self.num_parts() == 0 ==> r is None,
            self.num_parts() > 0 ==> r == Some(self.partitions@[0].ts_range.min),
    {
        if self.partitions.len() == 0 {
            None
        } else {
            Some(self.partitions[0].ts_range.min)
        }
    }

    pub fn get_last_ts(&self) -> (r: Option<i64>)
        ensures
            self.num_parts() == 0 ==> r is None,
            self.num_parts() > 0 ==> r == Some(self.last_ts()),
    {
        if self.partitions.len() == 0 {
            None
        } else {
            Some(self.partitions[self.partitions.len() - 1].ts_range.max)
        }
    }

    /// Timestamps of earlier partitions lie strictly below timestamps of later
    /// ones: the observed ranges chain across any gap.
    pub proof fn lemma_range_chain(self, p: int, q: int)
        requires
            self.wf(),
            0 <= p < q < self.num_parts(),
        ensures
            self.partitions@[p].ts_range.max < self.partitions@[q].ts_range.min,
        decreases q - p,
    {
        if q == p + 1 {
        } else {
            self.lemma_range_chain(p + 1, q);
        }
    }
}


/// The table a set of persisted parts stands for, with the row cursor at a
/// fresh row of the last partition.
pub open spec fn parts_table(
    schema: Schema,
    partitions: Vec<Partition>,
    storage: Vec<Vec<ColumnFile>>,
    home: String,
    meta_path: String,
) -> Table {
    Table {
        schema,
        partitions,
        storage,
        home,
        meta_path,
        column_index: 0,
        partition_index: if partitions@.len() == 0 {
            0
        } else {
            (partitions@.len() - 1) as usize
        },
    }
}

impl Table {
    /// Reassembles a table from its persisted parts: the schema of the meta
    /// file (with rehydrated dictionaries), its partition list, and the column
    /// file images. Succeeds exactly when the parts form a well-formed table;
    /// anything else could not have been written by this library and is
    /// rejected as corrupt.
    #[verifier::rlimit(100)]
    pub fn open(
        schema: Schema,
        partitions: Vec<Partition>,
        storage: Vec<Vec<ColumnFile>>,
        home: &str,
    ) -> (r: Result<Table, TickError>)
        ensures
            r matches Ok(t) ==> {
                &&& t.wf()
                &&& t == parts_table(schema, partitions, storage, t.home, t.meta_path)
                &&& t.home@ == home@
                &&& t.meta_path@ == crate::paths::spec_meta_path(home@, schema.name@)
            },
            r is Err ==> r == Err::<Table, TickError>(TickError::CorruptTable) && forall|
                h: String,
                m: String,
            | !#[trigger] parts_table(schema, partitions, storage, h, m).wf(),
    {
        let np: usize = partitions.len();
        let nc: usize = schema.columns.len();
        if !schema.check() {
            proof {
                assert forall|h: String, m: String|
                    !(#[trigger] parts_table(schema, partitions, storage, h, m).wf()) by {
                    let t = parts_table(schema, partitions, storage, h, m);
                    assert(t.schema == schema);
                }
            }
            return Err(TickError::CorruptTable);
        }
        if storage.len() != np {
            proof {
                assert forall|h: String, m: String|
                    !(#[trigger] parts_table(schema, partitions, storage, h, m).wf()) by {
                    let t = parts_table(schema, partitions, storage, h, m);
                    assert(t.storage@.len() == storage@.len());
                }
            }
            return Err(TickError::CorruptTable);
        }
        let mut p: usize = 0;
        while p < np
            invariant
                schema.wf(),
                np == partitions@.len(),
                nc == schema.columns@.len(),
                storage@.len() == np,
                0 <= p <= np,
                forall|q: int|
                    0 <= q < p ==> (#[trigger] storage@[q])@.len() == nc,
                forall|q: int, c: int|
                    0 <= q < p && 0 <= c < nc ==> (#[trigger] storage@[q]@[c].bytes@).len()
                        == (storage@[q]@[0].bytes@.len() as int / 8)
                        * schema.columns@[c].typ.spec_stride(),
                forall|q: int|
                    0 <= q < p ==> partitions@[q].row_count
                        <= #[trigger] storage@[q]@[0].bytes@.len() as int / 8,
                forall|q: int| 0 <= q < p ==> (#[trigger] partitions@[q]).wf_meta(),
                forall|q: int| 0 <= q < p ==> (#[trigger] partitions@[q]).row_count > 0,
                forall|q: int, r1: int, r2: int|
                    0 <= q < p && 0 <= r1 <= r2 < partitions@[q].row_count
                        ==> #[trigger] spec_ts_of(storage@[q]@[0].bytes@, r1)
                        <= #[trigger] spec_ts_of(storage@[q]@[0].bytes@, r2),
                forall|q: int, r1: int|
                    0 <= q < p && 0 <= r1 < partitions@[q].row_count
                        ==> partitions@[q].ts_range.min <= #[trigger] spec_ts_of(
                        storage@[q]@[0].bytes@,
                        r1,
                    ) <= partitions@[q].ts_range.max,
            decreases np - p,
        {
            if storage[p].len() != nc {
                proof {
                    assert forall|h: String, m: String|
                        !(#[trigger] parts_table(schema, partitions, storage, h, m).wf()) by {
                        let t = parts_table(schema, partitions, storage, h, m);
                        if t.wf() {
                            assert(t.storage@[p as int]@.len() == t.num_cols());
                            assert(false);
                        }
                    }
                }
                return Err(TickError::CorruptTable);
            }
            let rc: usize = partitions[p].row_count;
            if rc == 0 {
                proof {
                    assert forall|h: String, m: String|
                        !(#[trigger] parts_table(schema, partitions, storage, h, m).wf()) by {
                        let t = parts_table(schema, partitions, storage, h, m);
                        if t.wf() {
                            assert(t.row_count_of(p as int) == 0);
                            assert(p as int == t.num_parts() - 1);
                            assert(t.column_index > 0);
                            assert(false);
                        }
                    }
                }
                return Err(TickError::CorruptTable);
            }
            let len0: usize = storage[p][0].bytes.len();
            if len0 % 8 != 0 {
                proof {
                    assert forall|h: String, m: String|
                        !(#[trigger] parts_table(schema, partitions, storage, h, m).wf()) by {
                        let t = parts_table(schema, partitions, storage, h, m);
                        if t.wf() {
                            let capg = t.cap_rows(p as int);
                            assert(t.col_bytes(p as int, 0).len() == capg * t.stride_of(0));
                            assert(t.stride_of(0) == 8);
                            assert(capg * t.stride_of(0) == capg * 8) by (nonlinear_arith)
                                requires
                                    t.stride_of(0) == 8,
                            ;
                            assert(len0 as int == capg * 8);
                            vstd::arithmetic::div_mod::lemma_fundamental_div_mod(len0 as int, 8);
                            assert(8 * (len0 as int / 8) + len0 as int % 8 == len0 as int);
                            assert(capg == len0 as int / 8);
                            assert(8 * capg == capg * 8) by (nonlinear_arith);
                            assert(false);
                        }
                    }
                }
                return Err(TickError::CorruptTable);
            }
            let cap: usize = len0 / 8;
            if rc > cap {
                proof {
                    assert forall|h: String, m: String|
                        !(#[trigger] parts_table(schema, partitions, storage, h, m).wf()) by {
                        let t = parts_table(schema, partitions, storage, h, m);
                        if t.wf() {
                            assert(t.row_count_of(p as int) <= t.cap_rows(p as int));
                            assert(false);
                        }
                    }
                }
                return Err(TickError::CorruptTable);
            }
            let mut c: usize = 0;
            while c < nc
                invariant
                    schema.wf(),
                    np == partitions@.len(),
                    nc == schema.columns@.len(),
                    storage@.len() == np,
                    0 <= p < np,
                    storage@[p as int]@.len() == nc,
                    len0 == storage@[p as int]@[0].bytes@.len(),
                    cap == len0 as int / 8,
                    cap * 8 == len0,
                    0 <= c <= nc,
                    forall|cc: int|
                        0 <= cc < c ==> (#[trigger] storage@[p as int]@[cc].bytes@).len() == cap
                            * schema.columns@[cc].typ.spec_stride(),
                decreases nc - c,
            {
                let stride: usize = schema.columns[c].stride;
                proof {
                    assert(schema.columns@[c as int].wf());
                    crate::write::lemma_stride_bound(schema.columns@[c as int].typ);
                    assert(cap * stride <= cap * 8) by (nonlinear_arith)
                        requires
                            stride <= 8,
                            0 <= cap,
                    ;
                }
                if storage[p][c].bytes.len() != cap * stride {
                    proof {
                        assert forall|h: String, m: String|
                            !(#[trigger] parts_table(schema, partitions, storage, h, m).wf()) by {
                            let t = parts_table(schema, partitions, storage, h, m);
                            if t.wf() {
                                assert(t.col_bytes(p as int, c as int).len() == t.cap_rows(
                                    p as int,
                                ) * t.stride_of(c as int));
                                assert(t.col_bytes(p as int, 0).len() == t.cap_rows(p as int)
                                    * t.stride_of(0));
                                assert(t.stride_of(0) == 8);
                                vstd::arithmetic::div_mod::lemma_div_multiples_vanish(
                                    t.cap_rows(p as int),
                                    8,
                                );
                                assert(false);
                            }
                        }
                    }
                    return Err(TickError::CorruptTable);
                }
                c += 1;
            }
            let pr: &Partition = &partitions[p];
            if !(pr.ts_bounds.min <= pr.ts_range.min && pr.ts_range.min <= pr.ts_range.max
                && pr.ts_range.max <= pr.ts_bounds.max) {
                proof {
                    assert forall|h: String, m: String|
                        !(#[trigger] parts_table(schema, partitions, storage, h, m).wf()) by {
                        let t = parts_table(schema, partitions, storage, h, m);
                        if t.wf() {
                            assert(t.partitions@[p as int].wf_meta());
                            assert(false);
                        }
                    }
                }
                return Err(TickError::CorruptTable);
            }
            // the stored timestamps must be sorted and within the observed range
            let bytes: &Vec<u8> = &storage[p][0].bytes;
            let mut r: usize = 0;
            let mut prev: i64 = pr.ts_range.min;
            while r < rc
                invariant
                    np == partitions@.len(),
                    storage@.len() == np,
                    0 <= p < np,
                    rc == partitions@[p as int].row_count,
                    bytes@ == storage@[p as int]@[0].bytes@,
                    rc <= cap,
                    cap * 8 == len0,
                    len0 == bytes@.len(),
                    0 <= r <= rc,
                    r > 0 ==> prev == spec_ts_of(bytes@, r - 1),
                    r == 0 ==> prev == partitions@[p as int].ts_range.min,
                    forall|r1: int, r2: int|
                        0 <= r1 <= r2 < r ==> #[trigger] spec_ts_of(bytes@, r1)
                            <= #[trigger] spec_ts_of(bytes@, r2),
                    forall|r1: int|
                        0 <= r1 < r ==> partitions@[p as int].ts_range.min
                            <= #[trigger] spec_ts_of(bytes@, r1)
                            <= partitions@[p as int].ts_range.max,
                decreases rc - r,
            {
                proof {
                    crate::write::lemma_stride_bound(ColumnType::Timestamp);
                    vstd::arithmetic::mul::lemma_mul_inequality(r as int + 1, cap as int, 8);
                    assert((r as int + 1) * 8 == r as int * 8 + 8) by (nonlinear_arith);
                }
                let v: i64 = vstd::bytes::u64_from_le_bytes(
                    vstd::slice::slice_subrange(bytes.as_slice(), 8 * r, 8 * r + 8),
                ) as i64;
                proof {
                    assert(v == spec_ts_of(bytes@, r as int));
                }
                let lo: i64 = partitions[p].ts_range.min;
                let hi: i64 = partitions[p].ts_range.max;
                if v < lo || v > hi {
                    proof {
                        assert forall|h: String, m: String|
                            !(#[trigger] parts_table(schema, partitions, storage, h, m).wf()) by {
                            let t = parts_table(schema, partitions, storage, h, m);
                            if t.wf() {
                                assert(t.partitions@[p as int].ts_range.min <= t.ts_at(
                                    p as int,
                                    r as int,
                                ) <= t.partitions@[p as int].ts_range.max);
                                assert(t.ts_at(p as int, r as int) == spec_ts_of(
                                    bytes@,
                                    r as int,
                                ));
                                assert(false);
                            }
                        }
                    }
                    return Err(TickError::CorruptTable);
                }
                if r > 0 && v < prev {
                    proof {
                        assert forall|h: String, m: String|
                            !(#[trigger] parts_table(schema, partitions, storage, h, m).wf()) by {
                            let t = parts_table(schema, partitions, storage, h, m);
                            if t.wf() {
                                assert(t.ts_at(p as int, r - 1) <= t.ts_at(p as int, r as int));
                                assert(t.ts_at(p as int, r - 1) == spec_ts_of(bytes@, r - 1));
                                assert(t.ts_at(p as int, r as int) == spec_ts_of(
                                    bytes@,
                                    r as int,
                                ));
                                assert(false);
                            }
                        }
                    }
                    return Err(TickError::CorruptTable);
                }
                prev = v;
                r += 1;
            }
            p += 1;
        }
        // successive partitions carry disjoint, ascending ranges and bounds
        if np > 1 {
            let mut q: usize = 0;
            while q < np - 1
                invariant
                    np == partitions@.len(),
                    0 <= q <= np - 1,
                    forall|k: int|
                        0 <= k < q ==> (#[trigger] partitions@[k]).ts_range.max
                            < partitions@[k + 1].ts_range.min && partitions@[k].ts_bounds.max
                            < partitions@[k + 1].ts_bounds.min,
                decreases np - q,
            {
                if !(partitions[q].ts_range.max < partitions[q + 1].ts_range.min
                    && partitions[q].ts_bounds.max < partitions[q + 1].ts_bounds.min) {
                    proof {
                        assert forall|h: String, m: String|
                            !(#[trigger] parts_table(schema, partitions, storage, h, m).wf()) by {
                            let t = parts_table(schema, partitions, storage, h, m);
                            if t.wf() {
                                assert(t.partitions@[q as int].ts_range.max < t.partitions@[
                                    q as int + 1
                                ].ts_range.min);
                                assert(t.partitions@[q as int].ts_bounds.max < t.partitions@[
                                    q as int + 1
                                ].ts_bounds.min);
                                assert(false);
                            }
                        }
                    }
                    return Err(TickError::CorruptTable);
                }
                q += 1;
            }
        }
        let meta_path: String = crate::paths::get_meta_path(home, schema.name.as_str());
        let t = Table {
            schema,
            partitions,
            storage,
            home: home.to_owned(),
            meta_path,
            column_index: 0,
            partition_index: if np == 0 {
                0
            } else {
                np - 1
            },
        };
        proof {
            assert forall|pp: int, cc: int|
                0 <= pp < t.num_parts() && 0 <= cc < t.num_cols() implies (#[trigger] t.col_bytes(
                pp,
                cc,
            )).len() == t.cap_rows(pp) * t.stride_of(cc) by {
                assert(t.col_bytes(pp, 0).len() == t.col_bytes(pp, 0).len() as int / 8 * t.stride_of(0));
            }
            assert forall|pp: int, r1: int, r2: int|
                0 <= pp < t.num_parts() && 0 <= r1 <= r2 < t.row_count_of(pp)
                implies #[trigger] t.ts_at(pp, r1) <= #[trigger] t.ts_at(pp, r2) by {
                assert(t.ts_at(pp, r1) == spec_ts_of(storage@[pp]@[0].bytes@, r1));
                assert(t.ts_at(pp, r2) == spec_ts_of(storage@[pp]@[0].bytes@, r2));
            }
            assert forall|pp: int, r1: int|
                0 <= pp < t.num_parts() && 0 <= r1 < t.row_count_of(pp)
                implies t.partitions@[pp].ts_range.min <= #[trigger] t.ts_at(pp, r1)
                <= t.partitions@[pp].ts_range.max by {
                assert(t.ts_at(pp, r1) == spec_ts_of(storage@[pp]@[0].bytes@, r1));
            }
            assert(t.wf());
        }
        Ok(t)
    }
}

/// The timestamp stored at row `r` of a timestamp column image.
pub open spec fn spec_ts_of(bytes: Seq<u8>, r: int) -> i64 {
    spec_u64_from_le_bytes(bytes.subrange(8 * r, 8 * r + 8)) as i64
}

} // verus!
