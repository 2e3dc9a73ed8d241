use vstd::prelude::*;
use vstd::bytes::{spec_u64_from_le_bytes, u16_from_le_bytes, u32_from_le_bytes, u64_from_le_bytes};
use vstd::slice::slice_subrange;
use vstd::arithmetic::mul::lemma_mul_inequality;
use crate::schema::{Column, ColumnType, SymbolDict};
use crate::table::{Partition, Table, TickError};

verus! {

/// The sequence is sorted in non-decreasing order.
pub open spec fn sorted_i64(s: Seq<i64>) -> bool {
    forall|r1: int, r2: int| 0 <= r1 <= r2 < s.len() ==> s[r1] <= s[r2]
}

/// `i` splits `s` into a strict prefix below `x` and a suffix at or above it:
/// for a sorted sequence, the first position where `x` could sit.
pub open spec fn lower_bound_at(s: Seq<i64>, x: i64, i: int) -> bool {
    &&& 0 <= i <= s.len()
    &&& forall|j: int| 0 <= j < i ==> s[j] < x
    &&& forall|j: int| i <= j < s.len() ==> s[j] >= x
}

/// `i` splits `s` into a prefix at or below `x` and a strictly greater
/// suffix: one past the last position holding `x`.
pub open spec fn upper_bound_at(s: Seq<i64>, x: i64, i: int) -> bool {
    &&& 0 <= i <= s.len()
    &&& forall|j: int| 0 <= j < i ==> s[j] <= x
    &&& forall|j: int| i <= j < s.len() ==> s[j] > x
}

/// The number of leading elements strictly below `x`.
pub open spec fn spec_lb(s: Seq<i64>, x: i64) -> int
    decreases s.len(),
{
    if s.len() == 0 {
        0
    } else if s[0] < x {
        1 + spec_lb(s.drop_first(), x)
    } else {
        0
    }
}

/// The number of leading elements at or below `x`.
pub open spec fn spec_ub(s: Seq<i64>, x: i64) -> int
    decreases s.len(),
{
    if s.len() == 0 {
        0
    } else if s[0] <= x {
        1 + spec_ub(s.drop_first(), x)
    } else {
        0
    }
}

/// Any split point in the sense of `lower_bound_at` is the count of leading
/// elements below `x`, so the split point is unique.
pub proof fn lemma_lb_unique(s: Seq<i64>, x: i64, i: int)
    requires
        lower_bound_at(s, x, i),
    ensures
        i == spec_lb(s, x),
    decreases s.len(),
{
    if s.len() > 0 {
        if s[0] < x {
            assert(i >= 1);
            assert(lower_bound_at(s.drop_first(), x, i - 1)) by {
                assert(forall|j: int|
                    0 <= j < i - 1 ==> s.drop_first()[j] == s[j + 1] && s[j + 1] < x);
                assert(forall|j: int|
                    i - 1 <= j < s.len() - 1 ==> s.drop_first()[j] == s[j + 1] && s[j + 1] >= x);
            }
            lemma_lb_unique(s.drop_first(), x, i - 1);
        } else {
            assert(i == 0);
        }
    }
}

/// The `upper_bound_at` split point is likewise unique.
pub proof fn lemma_ub_unique(s: Seq<i64>, x: i64, i: int)
    requires
        upper_bound_at(s, x, i),
    ensures
        i == spec_ub(s, x),
    decreases s.len(),
{
    if s.len() > 0 {
        if s[0] <= x {
            assert(i >= 1);
            assert(upper_bound_at(s.drop_first(), x, i - 1)) by {
                assert(forall|j: int|
                    0 <= j < i - 1 ==> s.drop_first()[j] == s[j + 1] && s[j + 1] <= x);
                assert(forall|j: int|
                    i - 1 <= j < s.len() - 1 ==> s.drop_first()[j] == s[j + 1] && s[j + 1] > x);
            }
            lemma_ub_unique(s.drop_first(), x, i - 1);
        } else {
            assert(i == 0);
        }
    }
}

/// First position at or after which every element is `>= x`.
fn lower_bound_idx(a: &[i64], x: i64) -> (i: usize)
    requires
        sorted_i64(a@),
    ensures
        lower_bound_at(a@, x, i as int),
        i as int == spec_lb(a@, x),
{
    let mut lo: usize = 0;
    let mut hi: usize = a.len();
    while lo < hi
        invariant
            0 <= lo <= hi <= a@.len(),
            sorted_i64(a@),
            forall|j: int| 0 <= j < lo ==> a@[j] < x,
            forall|j: int| hi <= j < a@.len() ==> a@[j] >= x,
        decreases hi - lo,
    {
        let mid: usize = lo + (hi - lo) / 2;
        if *vstd::slice::slice_index_get(a, mid) < x {
            lo = mid + 1;
        } else {
            hi = mid;
        }
    }
    proof {
        lemma_lb_unique(a@, x, lo as int);
    }
    lo
}

/// One past the last position whose element is `<= x`.
fn upper_bound_idx(a: &[i64], x: i64) -> (i: usize)
    requires
        sorted_i64(a@),
    ensures
        upper_bound_at(a@, x, i as int),
        i as int == spec_ub(a@, x),
{
    let mut lo: usize = 0;
    let mut hi: usize = a.len();
    while lo < hi
        invariant
            0 <= lo <= hi <= a@.len(),
            sorted_i64(a@),
            forall|j: int| 0 <= j < lo ==> a@[j] <= x,
            forall|j: int| hi <= j < a@.len() ==> a@[j] > x,
        decreases hi - lo,
    {
        let mid: usize = lo + (hi - lo) / 2;
        if *vstd::slice::slice_index_get(a, mid) <= x {
            lo = mid + 1;
        } else {
            hi = mid;
        }
    }
    proof {
        lemma_ub_unique(a@, x, lo as int);
    }
    lo
}

/// Duplicates-aware binary search over a sorted slice. With `seek_start` a
/// hit reports the smallest index holding the needle; otherwise a hit reports
/// one past the largest such index. A miss reports the insertion point either
/// way.
pub fn binary_search_seek(haystack: &[i64], needle: i64, seek_start: bool) -> (r: Result<
    usize,
    usize,
>)
    requires
        sorted_i64(haystack@),
    ensures
        haystack@.contains(needle) ==> (r matches Ok(i) && {
            if seek_start {
                lower_bound_at(haystack@, needle, i as int) && haystack@[i as int] == needle
            } else {
                upper_bound_at(haystack@, needle, i as int) && haystack@[i as int - 1] == needle
            }
        }),
        !haystack@.contains(needle) ==> (r matches Err(i) && lower_bound_at(
            haystack@,
            needle,
            i as int,
        ) && upper_bound_at(haystack@, needle, i as int)),
{
    if seek_start {
        let i: usize = lower_bound_idx(haystack, needle);
        if i < haystack.len() && *vstd::slice::slice_index_get(haystack, i) == needle {
            proof {
                assert(haystack@.contains(needle));
            }
            Ok(i)
        } else {
            proof {
                if haystack@.contains(needle) {
                    let w = choose|w: int|
                        0 <= w < haystack@.len() && haystack@[w] == needle;
                    assert(w >= i);
                    assert(haystack@[i as int] <= haystack@[w]);
                    assert(false);
                }
            }
            Err(i)
        }
    } else {
        let i: usize = upper_bound_idx(haystack, needle);
        if i >= 1 && *vstd::slice::slice_index_get(haystack, i - 1) == needle {
            proof {
                assert(haystack@.contains(needle));
            }
            Ok(i)
        } else {
            proof {
                if haystack@.contains(needle) {
                    let w = choose|w: int|
                        0 <= w < haystack@.len() && haystack@[w] == needle;
                    assert(w < i);
                    assert(haystack@[w] <= haystack@[i as int - 1]);
                    assert(false);
                }
                assert(lower_bound_at(haystack@, needle, i as int));
            }
            Err(i)
        }
    }
}

/// The row index a range endpoint maps to: the insertion point of the needle,
/// at the start or past the end of its run of duplicates.
pub fn find_ts(ts_column: &[i64], needle: i64, seek_start: bool) -> (i: usize)
    requires
        sorted_i64(ts_column@),
    ensures
        seek_start ==> i as int == spec_lb(ts_column@, needle),
        !seek_start ==> i as int == spec_ub(ts_column@, needle),
{
    let r: usize = match binary_search_seek(ts_column, needle, seek_start) {
        Ok(n) => n,
        Err(n) => n,
    };
    proof {
        if seek_start {
            lemma_lb_unique(ts_column@, needle, r as int);
        } else {
            if ts_column@.contains(needle) {
                lemma_ub_unique(ts_column@, needle, r as int);
            } else {
                assert(upper_bound_at(ts_column@, needle, r as int));
                lemma_ub_unique(ts_column@, needle, r as int);
            }
        }
    }
    r
}


/// `spec_lb` of a sorted sequence is a lower-bound split point.
pub proof fn lemma_lb_sorted(s: Seq<i64>, x: i64)
    requires
        sorted_i64(s),
    ensures
        lower_bound_at(s, x, spec_lb(s, x)),
    decreases s.len(),
{
    if s.len() > 0 {
        assert(sorted_i64(s.drop_first())) by {
            assert(forall|r1: int, r2: int|
                0 <= r1 <= r2 < s.len() - 1 ==> s.drop_first()[r1] == s[r1 + 1]
                    && s.drop_first()[r2] == s[r2 + 1]);
        }
        lemma_lb_sorted(s.drop_first(), x);
        if s[0] < x {
            let lbp = spec_lb(s.drop_first(), x);
            assert(spec_lb(s, x) == 1 + lbp);
            assert forall|j: int| 0 <= j < 1 + lbp implies #[trigger] s[j] < x by {
                if j >= 1 {
                    assert(s[j] == s.drop_first()[j - 1]);
                }
            }
            assert forall|j: int| 1 + lbp <= j < s.len() implies #[trigger] s[j] >= x by {
                assert(s[j] == s.drop_first()[j - 1]);
            }
        } else {
            assert(forall|j: int| 0 <= j < s.len() ==> s[0] <= #[trigger] s[j]);
        }
    }
}

/// `spec_ub` of a sorted sequence is an upper-bound split point.
pub proof fn lemma_ub_sorted(s: Seq<i64>, x: i64)
    requires
        sorted_i64(s),
    ensures
        upper_bound_at(s, x, spec_ub(s, x)),
    decreases s.len(),
{
    if s.len() > 0 {
        assert(sorted_i64(s.drop_first())) by {
            assert(forall|r1: int, r2: int|
                0 <= r1 <= r2 < s.len() - 1 ==> s.drop_first()[r1] == s[r1 + 1]
                    && s.drop_first()[r2] == s[r2 + 1]);
        }
        lemma_ub_sorted(s.drop_first(), x);
        if s[0] <= x {
            let ubp = spec_ub(s.drop_first(), x);
            assert(spec_ub(s, x) == 1 + ubp);
            assert forall|j: int| 0 <= j < 1 + ubp implies #[trigger] s[j] <= x by {
                if j >= 1 {
                    assert(s[j] == s.drop_first()[j - 1]);
                }
            }
            assert forall|j: int| 1 + ubp <= j < s.len() implies #[trigger] s[j] > x by {
                assert(s[j] == s.drop_first()[j - 1]);
            }
        } else {
            assert(forall|j: int| 0 <= j < s.len() ==> s[0] <= #[trigger] s[j]);
        }
    }
}

/// With `x <= y`, the strict split below `x` cannot lie past the split above
/// `y`.
pub proof fn lemma_lb_le_ub(s: Seq<i64>, x: i64, y: i64)
    requires
        sorted_i64(s),
        x <= y,
    ensures
        0 <= spec_lb(s, x) <= s.len(),
        0 <= spec_ub(s, y) <= s.len(),
        spec_lb(s, x) <= spec_ub(s, y),
{
    lemma_lb_sorted(s, x);
    lemma_ub_sorted(s, y);
    let lb = spec_lb(s, x);
    let ub = spec_ub(s, y);
    if lb > ub {
        assert(s[ub] < x);
        assert(s[ub] > y);
    }
}

/// The timestamps of the completed rows of one partition.
pub open spec fn ts_seq(t: Table, p: int) -> Seq<i64> {
    Seq::new(t.row_count_of(p) as nat, |r: int| t.ts_at(p, r))
}

/// A partition is delivered iff its observed timestamp range intersects the
/// query range.
pub open spec fn selected(t: Table, from: i64, to: i64, p: int) -> bool {
    from <= t.partitions@[p].ts_range.max && to >= t.partitions@[p].ts_range.min
}

/// The first delivered row of the `k`-th delivered partition: rows before the
/// query start are skipped in the first batch only.
pub open spec fn batch_start(t: Table, from: i64, sel: Seq<usize>, k: int) -> int {
    if k == 0 {
        spec_lb(ts_seq(t, sel[0] as int), from)
    } else {
        0
    }
}

/// One past the last delivered row of the `k`-th delivered partition: rows
/// past the query end are dropped from the last batch only.
pub open spec fn batch_end(t: Table, to: i64, sel: Seq<usize>, k: int) -> int {
    if k == sel.len() - 1 {
        spec_ub(ts_seq(t, sel[k] as int), to)
    } else {
        t.row_count_of(sel[k] as int)
    }
}


/// Row `k` of a packed column of width `w` sits inside the buffer.
proof fn lemma_rows_fit(rc: int, w: int, len: int, k: int)
    requires
        len == rc * w,
        0 <= k < rc,
        0 < w,
    ensures
        0 <= k * w,
        k * w + w <= len,
        (k + 1) * w == k * w + w,
{
    vstd::arithmetic::mul::lemma_mul_inequality(k + 1, rc, w);
    assert((k + 1) * w == k * w + w) by (nonlinear_arith);
    assert(k * w >= 0) by (nonlinear_arith)
        requires
            k >= 0,
            w > 0,
    ;
}

/// Two columns hold the same name, type, stride, and symbol table, compared
/// by content.
pub open spec fn col_like(a: Column, b: Column) -> bool {
    &&& a.name@ == b.name@
    &&& a.typ == b.typ
    &&& a.stride == b.stride
    &&& (a.symbol_file is Some <==> b.symbol_file is Some)
    &&& (a.symbol_file matches Some(da) ==> {
        let db = b.symbol_file.unwrap();
        &&& da.symbols@.len() == db.symbols@.len()
        &&& forall|j: int|
            0 <= j < da.symbols@.len() ==> (#[trigger] da.symbols@[j])@ == db.symbols@[j]@
        &&& da.file@ == db.file@
    })
}

fn clone_strings(v: &Vec<String>) -> (r: Vec<String>)
    ensures
        r@.len() == v@.len(),
        forall|j: int| 0 <= j < v@.len() ==> (#[trigger] r@[j])@ == v@[j]@,
{
    let mut r: Vec<String> = Vec::new();
    let n: usize = v.len();
    let mut j: usize = 0;
    while j < n
        invariant
            n == v@.len(),
            0 <= j <= n,
            r@.len() == j,
            forall|k: int| 0 <= k < j ==> (#[trigger] r@[k])@ == v@[k]@,
        decreases n - j,
    {
        r.push(v[j].clone());
        j += 1;
    }
    r
}

fn clone_column(c: &Column) -> (r: Column)
    requires
        c.wf(),
    ensures
        r.wf(),
        col_like(*c, r),
{
    let symbol_file: Option<SymbolDict> = match &c.symbol_file {
        None => None,
        Some(d) => Some(
            SymbolDict { symbols: clone_strings(&d.symbols), file: d.file.clone() },
        ),
    };
    proof {
        if c.symbol_file is Some {
            let da = c.symbol_file.unwrap();
            let db = symbol_file.unwrap();
            assert(crate::schema::str_views(db.symbols@) =~= crate::schema::str_views(
                da.symbols@,
            ));
            assert(db.wf());
        }
    }
    Column { name: c.name.clone(), typ: c.typ, stride: c.stride, symbol_file }
}

fn clone_partition(p: &Partition) -> (r: Partition)
    ensures
        r.dir@ == p.dir@,
        r.ts_range == p.ts_range,
        r.ts_bounds == p.ts_bounds,
        r.row_count == p.row_count,
{
    Partition {
        dir: p.dir.clone(),
        ts_range: p.ts_range,
        ts_bounds: p.ts_bounds,
        row_count: p.row_count,
    }
}

/// One column of one delivered batch: a typed byte slice covering rows
/// `start..end` of the column within one partition, with the column and
/// partition descriptions it came from.
#[derive(Debug)]
pub struct PartitionColumn {
    pub column: Column,
    pub slice: Vec<u8>,
    pub partition: Partition,
    pub row_count: usize,
}

impl PartitionColumn {
    pub open spec fn wf(self) -> bool {
        &&& self.column.wf()
        &&& self.slice@.len() == self.row_count * self.column.typ.spec_stride()
    }

    pub fn get_i8(&self) -> (r: Vec<i8>)
        requires
            self.wf(),
            self.column.typ.spec_stride() == 1,
        ensures
            r@.len() == self.row_count,
            forall|k: int| 0 <= k < self.row_count ==> #[trigger] r@[k] == self.slice@[k] as i8,
    {
        let n: usize = self.row_count;
        let mut r: Vec<i8> = Vec::new();
        let mut k: usize = 0;
        while k < n
            invariant
                self.wf(),
                self.column.typ.spec_stride() == 1,
                n == self.row_count,
                0 <= k <= n,
                r@.len() == k,
                forall|q: int| 0 <= q < k ==> #[trigger] r@[q] == self.slice@[q] as i8,
            decreases n - k,
        {
            let sl: usize = self.slice.len();
            proof {
                assert(sl == self.slice@.len());
                assert(self.slice@.len() == self.row_count * self.column.typ.spec_stride());
                assert(self.row_count * self.column.typ.spec_stride() == self.row_count)
                    by (nonlinear_arith)
                    requires
                        self.column.typ.spec_stride() == 1,
                ;
            }
            r.push(self.slice[k] as i8);
            k += 1;
        }
        r
    }

    pub fn get_u8(&self) -> (r: Vec<u8>)
        requires
            self.wf(),
            self.column.typ.spec_stride() == 1,
        ensures
            r@.len() == self.row_count,
            forall|k: int| 0 <= k < self.row_count ==> #[trigger] r@[k] == self.slice@[k],
    {
        let n: usize = self.row_count;
        let mut r: Vec<u8> = Vec::new();
        let mut k: usize = 0;
        while k < n
            invariant
                self.wf(),
                self.column.typ.spec_stride() == 1,
                n == self.row_count,
                0 <= k <= n,
                r@.len() == k,
                forall|q: int| 0 <= q < k ==> #[trigger] r@[q] == self.slice@[q],
            decreases n - k,
        {
            let sl: usize = self.slice.len();
            proof {
                assert(sl == self.slice@.len());
                assert(self.slice@.len() == self.row_count * self.column.typ.spec_stride());
                assert(self.row_count * self.column.typ.spec_stride() == self.row_count)
                    by (nonlinear_arith)
                    requires
                        self.column.typ.spec_stride() == 1,
                ;
            }
            r.push(self.slice[k]);
            k += 1;
        }
        r
    }

    pub fn get_u16(&self) -> (r: Vec<u16>)
        requires
            self.wf(),
            self.column.typ.spec_stride() == 2,
        ensures
            r@.len() == self.row_count,
            forall|k: int|
                0 <= k < self.row_count ==> #[trigger] r@[k]
                    == vstd::bytes::spec_u16_from_le_bytes(self.slice@.subrange(2 * k, 2 * k + 2)),
    {
        let n: usize = self.row_count;
        let mut r: Vec<u16> = Vec::new();
        let mut k: usize = 0;
        while k < n
            invariant
                self.wf(),
                self.column.typ.spec_stride() == 2,
                n == self.row_count,
                0 <= k <= n,
                r@.len() == k,
                forall|q: int|
                    0 <= q < k ==> #[trigger] r@[q] == vstd::bytes::spec_u16_from_le_bytes(
                        self.slice@.subrange(2 * q, 2 * q + 2),
                    ),
            decreases n - k,
        {
            let sl: usize = self.slice.len();
            proof {
                assert(sl == self.slice@.len());
                assert(self.slice@.len() == self.row_count * self.column.typ.spec_stride());
                assert(self.row_count * self.column.typ.spec_stride() == self.row_count * 2)
                    by (nonlinear_arith)
                    requires
                        self.column.typ.spec_stride() == 2,
                ;
                lemma_rows_fit(self.row_count as int, 2, self.slice@.len() as int, k as int);
            }
            let v: u16 = u16_from_le_bytes(slice_subrange(self.slice.as_slice(), 2 * k, 2 * k + 2));
            r.push(v);
            k += 1;
        }
        r
    }

    pub fn get_i16(&self) -> (r: Vec<i16>)
        requires
            self.wf(),
            self.column.typ.spec_stride() == 2,
        ensures
            r@.len() == self.row_count,
            forall|k: int|
                0 <= k < self.row_count ==> #[trigger] r@[k]
                    == vstd::bytes::spec_u16_from_le_bytes(self.slice@.subrange(2 * k, 2 * k + 2))
                    as i16,
    {
        let v: Vec<u16> = self.get_u16();
        let n: usize = self.row_count;
        let mut r: Vec<i16> = Vec::new();
        let mut k: usize = 0;
        while k < n
            invariant
                0 <= k <= n,
                n == self.row_count,
                v@.len() == n,
                r@.len() == k,
                forall|q: int|
                    0 <= q < n ==> #[trigger] v@[q] == vstd::bytes::spec_u16_from_le_bytes(
                        self.slice@.subrange(2 * q, 2 * q + 2),
                    ),
                forall|q: int| 0 <= q < k ==> #[trigger] r@[q] == v@[q] as i16,
            decreases n - k,
        {
            r.push(v[k] as i16);
            k += 1;
        }
        r
    }

    pub fn get_u32(&self) -> (r: Vec<u32>)
        requires
            self.wf(),
            self.column.typ.spec_stride() == 4,
        ensures
            r@.len() == self.row_count,
            forall|k: int|
                0 <= k < self.row_count ==> #[trigger] r@[k]
                    == vstd::bytes::spec_u32_from_le_bytes(self.slice@.subrange(4 * k, 4 * k + 4)),
    {
        let n: usize = self.row_count;
        let mut r: Vec<u32> = Vec::new();
        let mut k: usize = 0;
        while k < n
            invariant
                self.wf(),
                self.column.typ.spec_stride() == 4,
                n == self.row_count,
                0 <= k <= n,
                r@.len() == k,
                forall|q: int|
                    0 <= q < k ==> #[trigger] r@[q] == vstd::bytes::spec_u32_from_le_bytes(
                        self.slice@.subrange(4 * q, 4 * q + 4),
                    ),
            decreases n - k,
        {
            let sl: usize = self.slice.len();
            proof {
                assert(sl == self.slice@.len());
                assert(self.slice@.len() == self.row_count * self.column.typ.spec_stride());
                assert(self.row_count * self.column.typ.spec_stride() == self.row_count * 4)
                    by (nonlinear_arith)
                    requires
                        self.column.typ.spec_stride() == 4,
                ;
                lemma_rows_fit(self.row_count as int, 4, self.slice@.len() as int, k as int);
            }
            let v: u32 = u32_from_le_bytes(slice_subrange(self.slice.as_slice(), 4 * k, 4 * k + 4));
            r.push(v);
            k += 1;
        }
        r
    }

    pub fn get_i32(&self) -> (r: Vec<i32>)
        requires
            self.wf(),
            self.column.typ.spec_stride() == 4,
        ensures
            r@.len() == self.row_count,
            forall|k: int|
                0 <= k < self.row_count ==> #[trigger] r@[k]
                    == vstd::bytes::spec_u32_from_le_bytes(self.slice@.subrange(4 * k, 4 * k + 4))
                    as i32,
    {
        let v: Vec<u32> = self.get_u32();
        let n: usize = self.row_count;
        let mut r: Vec<i32> = Vec::new();
        let mut k: usize = 0;
        while k < n
            invariant
                0 <= k <= n,
                n == self.row_count,
                v@.len() == n,
                r@.len() == k,
                forall|q: int|
                    0 <= q < n ==> #[trigger] v@[q] == vstd::bytes::spec_u32_from_le_bytes(
                        self.slice@.subrange(4 * q, 4 * q + 4),
                    ),
                forall|q: int| 0 <= q < k ==> #[trigger] r@[q] == v@[q] as i32,
            decreases n - k,
        {
            r.push(v[k] as i32);
            k += 1;
        }
        r
    }

    /// The raw bit patterns of an F32 column; `f32::from_bits` recovers the
    /// values outside the verified core.
    pub fn get_f32_bits(&self) -> (r: Vec<u32>)
        requires
            self.wf(),
            self.column.typ.spec_stride() == 4,
        ensures
            r@.len() == self.row_count,
            forall|k: int|
                0 <= k < self.row_count ==> #[trigger] r@[k]
                    == vstd::bytes::spec_u32_from_le_bytes(self.slice@.subrange(4 * k, 4 * k + 4)),
    {
        self.get_u32()
    }

    pub fn get_u64(&self) -> (r: Vec<u64>)
        requires
            self.wf(),
            self.column.typ.spec_stride() == 8,
        ensures
            r@.len() == self.row_count,
            forall|k: int|
                0 <= k < self.row_count ==> #[trigger] r@[k] == spec_u64_from_le_bytes(
                    self.slice@.subrange(8 * k, 8 * k + 8),
                ),
    {
        let n: usize = self.row_count;
        let mut r: Vec<u64> = Vec::new();
        let mut k: usize = 0;
        while k < n
            invariant
                self.wf(),
                self.column.typ.spec_stride() == 8,
                n == self.row_count,
                0 <= k <= n,
                r@.len() == k,
                forall|q: int|
                    0 <= q < k ==> #[trigger] r@[q] == spec_u64_from_le_bytes(
                        self.slice@.subrange(8 * q, 8 * q + 8),
                    ),
            decreases n - k,
        {
            let sl: usize = self.slice.len();
            proof {
                assert(sl == self.slice@.len());
                assert(self.slice@.len() == self.row_count * self.column.typ.spec_stride());
                assert(self.row_count * self.column.typ.spec_stride() == self.row_count * 8)
                    by (nonlinear_arith)
                    requires
                        self.column.typ.spec_stride() == 8,
                ;
                lemma_rows_fit(self.row_count as int, 8, self.slice@.len() as int, k as int);
            }
            let v: u64 = u64_from_le_bytes(slice_subrange(self.slice.as_slice(), 8 * k, 8 * k + 8));
            r.push(v);
            k += 1;
        }
        r
    }

    pub fn get_i64(&self) -> (r: Vec<i64>)
        requires
            self.wf(),
            self.column.typ.spec_stride() == 8,
        ensures
            r@.len() == self.row_count,
            forall|k: int|
                0 <= k < self.row_count ==> #[trigger] r@[k] == spec_u64_from_le_bytes(
                    self.slice@.subrange(8 * k, 8 * k + 8),
                ) as i64,
    {
        let v: Vec<u64> = self.get_u64();
        let n: usize = self.row_count;
        let mut r: Vec<i64> = Vec::new();
        let mut k: usize = 0;
        while k < n
            invariant
                0 <= k <= n,
                n == self.row_count,
                v@.len() == n,
                r@.len() == k,
                forall|q: int|
                    0 <= q < n ==> #[trigger] v@[q] == spec_u64_from_le_bytes(
                        self.slice@.subrange(8 * q, 8 * q + 8),
                    ),
                forall|q: int| 0 <= q < k ==> #[trigger] r@[q] == v@[q] as i64,
            decreases n - k,
        {
            r.push(v[k] as i64);
            k += 1;
        }
        r
    }

    /// The raw bit patterns of an F64 column; `f64::from_bits` recovers the
    /// values outside the verified core.
    pub fn get_f64_bits(&self) -> (r: Vec<u64>)
        requires
            self.wf(),
            self.column.typ.spec_stride() == 8,
        ensures
            r@.len() == self.row_count,
            forall|k: int|
                0 <= k < self.row_count ==> #[trigger] r@[k] == spec_u64_from_le_bytes(
                    self.slice@.subrange(8 * k, 8 * k + 8),
                ),
    {
        self.get_u64()
    }

    /// Materializes a symbol column as the user-visible strings: each stored
    /// 1-based index resolved through the column's dictionary. `None` exactly
    /// when some stored index is not in the dictionary.
    pub fn get_sym(&self) -> (r: Option<Vec<String>>)
        requires
            self.wf(),
            self.column.typ == ColumnType::Symbol,
        ensures
            r matches Some(v) ==> {
                let d = self.column.symbol_file.unwrap();
                &&& v@.len() == self.row_count
                &&& forall|k: int|
                    0 <= k < self.row_count ==> 1 <= #[trigger] spec_u64_from_le_bytes(
                        self.slice@.subrange(8 * k, 8 * k + 8),
                    ) <= d.symbols@.len()
                &&& forall|k: int|
                    0 <= k < self.row_count ==> (#[trigger] v@[k])@ == d.symbols@[
                        spec_u64_from_le_bytes(self.slice@.subrange(8 * k, 8 * k + 8)) - 1
                    ]@
            },
            r is None ==> exists|k: int|
                0 <= k < self.row_count && !{
                    let ix = #[trigger] spec_u64_from_le_bytes(
                        self.slice@.subrange(8 * k, 8 * k + 8),
                    );
                    1 <= ix <= self.column.symbol_file.unwrap().symbols@.len()
                },
    {
        let idxs: Vec<u64> = self.get_u64();
        let d: &SymbolDict = match &self.column.symbol_file {
            Some(d) => d,
            None => {
                proof {
                    assert(false);
                }
                vstd::pervasive::unreached()
            }
        };
        let n: usize = self.row_count;
        let mut out: Vec<String> = Vec::new();
        let mut k: usize = 0;
        while k < n
            invariant
                self.wf(),
                self.column.typ == ColumnType::Symbol,
                self.column.symbol_file == Some(*d),
                n == self.row_count,
                idxs@.len() == n,
                forall|q: int|
                    0 <= q < n ==> #[trigger] idxs@[q] == spec_u64_from_le_bytes(
                        self.slice@.subrange(8 * q, 8 * q + 8),
                    ),
                0 <= k <= n,
                out@.len() == k,
                forall|q: int| 0 <= q < k ==> 1 <= #[trigger] idxs@[q] <= d.symbols@.len(),
                forall|q: int|
                    0 <= q < k ==> (#[trigger] out@[q])@ == d.symbols@[idxs@[q] - 1]@,
            decreases n - k,
        {
            let ix: u64 = idxs[k];
            match d.resolve(ix) {
                None => {
                    proof {
                        assert(!(1 <= ix <= d.symbols@.len()));
                        assert(idxs@[k as int] == spec_u64_from_le_bytes(
                            self.slice@.subrange(8 * k as int, 8 * k as int + 8),
                        ));
                        assert(exists|q: int|
                            0 <= q < self.row_count && !{
                                let w = #[trigger] spec_u64_from_le_bytes(
                                    self.slice@.subrange(8 * q, 8 * q + 8),
                                );
                                1 <= w <= self.column.symbol_file.unwrap().symbols@.len()
                            });
                    }
                    return None;
                }
                Some(sym) => {
                    let ghost prev_out = out@;
                    out.push(sym.clone());
                    proof {
                        assert(1 <= ix <= d.symbols@.len());
                        assert(out@[k as int]@ == d.symbols@[ix - 1]@);
                        assert forall|q: int|
                            0 <= q <= k as int implies 1 <= #[trigger] idxs@[q]
                            <= d.symbols@.len() by {}
                        assert forall|q: int|
                            0 <= q <= k as int implies (#[trigger] out@[q])@ == d.symbols@[
                        idxs@[q] - 1]@ by {
                            if q < k as int {
                                assert(out@[q] == prev_out[q]);
                            }
                        }
                    }
                }
            }
            k += 1;
        }
        proof {
            assert forall|q: int|
                0 <= q < self.row_count implies 1 <= #[trigger] spec_u64_from_le_bytes(
                self.slice@.subrange(8 * q, 8 * q + 8),
            ) <= d.symbols@.len() by {
                assert(idxs@[q] == spec_u64_from_le_bytes(self.slice@.subrange(8 * q, 8 * q + 8)));
            }
            assert forall|q: int|
                0 <= q < self.row_count implies (#[trigger] out@[q])@ == d.symbols@[
                spec_u64_from_le_bytes(self.slice@.subrange(8 * q, 8 * q + 8)) - 1
            ]@ by {
                assert(idxs@[q] == spec_u64_from_le_bytes(self.slice@.subrange(8 * q, 8 * q + 8)));
            }
        }
        Some(out)
    }
}


/// A pull-based, finite traversal of the partitions whose observed ranges
/// intersect `[from_ts, to_ts]`, in ascending timestamp order. Each step
/// yields one batch of column slices; a fresh call to `partition_iter` makes
/// a fresh traversal.
pub struct PartitionIterator<'a> {
    pub table: &'a Table,
    pub cols: Vec<usize>,
    pub from_ts: i64,
    pub to_ts: i64,
    pub sel: Vec<usize>,
    pub partition_index: usize,
}

impl<'a> PartitionIterator<'a> {
    /// The traversal invariant: the table is well-formed, the column indices
    /// are in the schema, and `sel` lists exactly the selected partitions in
    /// ascending order.
    pub open spec fn inv(self) -> bool {
        &&& self.table.wf()
        &&& self.from_ts <= self.to_ts
        &&& forall|j: int|
            0 <= j < self.cols@.len() ==> 0 <= #[trigger] self.cols@[j] < self.table.num_cols()
        &&& forall|k: int|
            0 <= k < self.sel@.len() ==> 0 <= #[trigger] self.sel@[k] < self.table.num_parts()
                && selected(*self.table, self.from_ts, self.to_ts, self.sel@[k] as int)
        &&& forall|k1: int, k2: int|
            0 <= k1 < k2 < self.sel@.len() ==> self.sel@[k1] < self.sel@[k2]
        &&& forall|p: int|
            0 <= p < self.table.num_parts() && selected(*self.table, self.from_ts, self.to_ts, p)
                ==> exists|k: int| 0 <= k < self.sel@.len() && #[trigger] self.sel@[k] == p
        &&& self.partition_index <= self.sel@.len()
    }

    /// Delivers the next batch: one `PartitionColumn` per requested column,
    /// covering rows `batch_start..batch_end` of the next selected partition.
    /// `None` exactly when the traversal is done.
    #[verifier::rlimit(100)]
    pub fn next(&mut self) -> (r: Option<Vec<PartitionColumn>>)
        requires
            old(self).inv(),
        ensures
            final(self).inv(),
            final(self).table == old(self).table,
            final(self).cols@ == old(self).cols@,
            final(self).from_ts == old(self).from_ts,
            final(self).to_ts == old(self).to_ts,
            final(self).sel@ == old(self).sel@,
            old(self).partition_index == old(self).sel@.len() ==> r is None
                && final(self).partition_index == old(self).partition_index,
            old(self).partition_index < old(self).sel@.len() ==> (r matches Some(batch) && {
                let t = *old(self).table;
                let k = old(self).partition_index as int;
                let p = old(self).sel@[k] as int;
                let st = batch_start(t, old(self).from_ts, old(self).sel@, k);
                let en = batch_end(t, old(self).to_ts, old(self).sel@, k);
                &&& final(self).partition_index == old(self).partition_index + 1
                &&& batch@.len() == old(self).cols@.len()
                &&& 0 <= st <= en <= t.row_count_of(p)
                &&& forall|j: int|
                    0 <= j < batch@.len() ==> {
                        let c = old(self).cols@[j] as int;
                        let stride = t.stride_of(c);
                        &&& (#[trigger] batch@[j]).wf()
                        &&& col_like(t.schema.columns@[c], batch@[j].column)
                        &&& batch@[j].row_count == en - st
                        &&& batch@[j].slice@ == t.col_bytes(p, c).subrange(
                            st * stride,
                            en * stride,
                        )
                        &&& batch@[j].partition.dir@ == t.partitions@[p].dir@
                        &&& batch@[j].partition.ts_range == t.partitions@[p].ts_range
                        &&& batch@[j].partition.ts_bounds == t.partitions@[p].ts_bounds
                        &&& batch@[j].partition.row_count == t.partitions@[p].row_count
                    }
            }),
    {
        let k: usize = self.partition_index;
        let nsel: usize = self.sel.len();
        if k == nsel {
            return None;
        }
        let p: usize = self.sel[k];
        let rc: usize = self.table.partitions[p].row_count;
        let t: &Table = self.table;
        let ghost ti = *self.table;
        // decode the timestamp column of this partition
        let len0: usize = t.storage[p][0].bytes.len();
        proof {
            assert(ti.col_bytes(p as int, 0).len() == ti.cap_rows(p as int) * ti.stride_of(0));
            assert(ti.stride_of(0) == 8);
            lemma_rows_fit_weak(ti.row_count_of(p as int), ti.cap_rows(p as int), len0 as int);
        }
        let ts_col = PartitionColumn {
            column: clone_column(&t.schema.columns[0]),
            slice: vstd::slice::slice_to_vec(
                slice_subrange(t.storage[p][0].bytes.as_slice(), 0, rc * 8),
            ),
            partition: clone_partition(&t.partitions[p]),
            row_count: rc,
        };
        let ts_vals: Vec<i64> = ts_col.get_i64();
        proof {
            assert(ts_vals@ =~= ts_seq(ti, p as int)) by {
                assert forall|q: int| 0 <= q < rc implies ts_vals@[q] == ti.ts_at(p as int, q) by {
                    assert(ts_col.slice@.subrange(8 * q, 8 * q + 8) =~= ti.col_bytes(
                        p as int,
                        0,
                    ).subrange(8 * q, 8 * q + 8));
                }
            }
            assert(sorted_i64(ts_vals@));
        }
        let start: usize = if k == 0 {
            find_ts(ts_vals.as_slice(), self.from_ts, true)
        } else {
            0
        };
        let end: usize = if k == nsel - 1 {
            find_ts(ts_vals.as_slice(), self.to_ts, false)
        } else {
            rc
        };
        proof {
            lemma_lb_le_ub(ts_vals@, self.from_ts, self.to_ts);
            lemma_lb_sorted(ts_vals@, self.from_ts);
            lemma_ub_sorted(ts_vals@, self.to_ts);
            assert(start <= end);
        }
        let row_count: usize = end - start;
        let ncols: usize = self.cols.len();
        let mut batch: Vec<PartitionColumn> = Vec::new();
        let mut j: usize = 0;
        while j < ncols
            invariant
                old(self).inv(),
                ti == *old(self).table,
                t == old(self).table,
                k == old(self).partition_index,
                k < old(self).sel@.len(),
                p == old(self).sel@[k as int],
                rc == ti.row_count_of(p as int),
                ncols == old(self).cols@.len(),
                0 <= start as int <= end as int <= rc,
                start as int == batch_start(ti, old(self).from_ts, old(self).sel@, k as int),
                end as int == batch_end(ti, old(self).to_ts, old(self).sel@, k as int),
                row_count == end - start,
                0 <= j <= ncols,
                batch@.len() == j,
                forall|q: int|
                    0 <= q < j ==> {
                        let c = old(self).cols@[q] as int;
                        let stride = ti.stride_of(c);
                        &&& (#[trigger] batch@[q]).wf()
                        &&& col_like(ti.schema.columns@[c], batch@[q].column)
                        &&& batch@[q].row_count == end - start
                        &&& batch@[q].slice@ == ti.col_bytes(p as int, c).subrange(
                            (start as int) * stride,
                            (end as int) * stride,
                        )
                        &&& batch@[q].partition.dir@ == ti.partitions@[p as int].dir@
                        &&& batch@[q].partition.ts_range == ti.partitions@[p as int].ts_range
                        &&& batch@[q].partition.ts_bounds == ti.partitions@[p as int].ts_bounds
                        &&& batch@[q].partition.row_count == ti.partitions@[p as int].row_count
                    },
            decreases ncols - j,
        {
            let c: usize = self.cols[j];
            let stride: usize = t.schema.columns[c].stride;
            let cl: usize = t.storage[p][c].bytes.len();
            proof {
                assert(ti.schema.columns@[c as int].wf());
                assert(stride as int == ti.stride_of(c as int));
                assert(ti.col_bytes(p as int, c as int).len() == ti.cap_rows(p as int)
                    * ti.stride_of(c as int));
                lemma_mul_inequality(rc as int, ti.cap_rows(p as int), stride as int);
                lemma_mul_inequality(start as int, end as int, stride as int);
                lemma_mul_inequality(end as int, rc as int, stride as int);
                assert(cl == ti.cap_rows(p as int) * ti.stride_of(c as int));
            }
            let slice: Vec<u8> = vstd::slice::slice_to_vec(
                slice_subrange(t.storage[p][c].bytes.as_slice(), start * stride, end * stride),
            );
            let column: Column = clone_column(&t.schema.columns[c]);
            let partition: Partition = clone_partition(&t.partitions[p]);
            proof {
                assert(slice@.len() == (end as int) * (stride as int) - (start as int) * (
                stride as int));
                assert(((end - start) as int) * (stride as int) == (end as int) * (stride as int)
                    - (start as int) * (stride as int)) by (nonlinear_arith);
            }
            batch.push(PartitionColumn { column, slice, partition, row_count });
            j += 1;
        }
        self.partition_index = k + 1;
        proof {
            assert forall|q: int|
                0 <= q < self.table.num_parts() && selected(
                    *self.table,
                    self.from_ts,
                    self.to_ts,
                    q,
                ) implies exists|kk: int|
                0 <= kk < self.sel@.len() && #[trigger] self.sel@[kk] == q by {
                let kk = choose|kk: int|
                    0 <= kk < old(self).sel@.len() && #[trigger] old(self).sel@[kk] == q;
                assert(self.sel@[kk] == q);
            }
            assert(self.inv());
        }
        Some(batch)
    }
}

/// The used prefix of a column file fits in the allocated buffer.
proof fn lemma_rows_fit_weak(rc: int, cap: int, len0: int)
    requires
        0 <= rc <= cap,
        len0 == cap * 8,
    ensures
        0 <= rc * 8 <= len0,
{
    lemma_mul_inequality(rc, cap, 8);
    assert(rc * 8 >= 0) by (nonlinear_arith)
        requires
            rc >= 0,
    ;
}

impl Table {
    /// The schema index of a named column, if any.
    fn find_col(&self, name: &String) -> (r: Option<usize>)
        requires
            self.wf(),
        ensures
            r matches Some(c) ==> 0 <= c < self.num_cols() && self.schema.columns@[
                c as int
            ].name@ == name@,
            r is None ==> forall|c: int|
                0 <= c < self.num_cols() ==> (#[trigger] self.schema.columns@[c]).name@ != name@,
    {
        let nc: usize = self.schema.columns.len();
        let mut c: usize = 0;
        while c < nc
            invariant
                self.wf(),
                nc == self.num_cols(),
                0 <= c <= nc,
                forall|q: int|
                    0 <= q < c ==> (#[trigger] self.schema.columns@[q]).name@ != name@,
            decreases nc - c,
        {
            if self.schema.columns[c].name.eq(name) {
                return Some(c);
            }
            c += 1;
        }
        None
    }

    /// Resolves requested column names to schema indices; fails on a name the
    /// schema does not hold.
    fn get_union(&self, columns: &Vec<String>) -> (r: Result<Vec<usize>, TickError>)
        requires
            self.wf(),
        ensures
            r matches Ok(ixs) ==> {
                &&& ixs@.len() == columns@.len()
                &&& forall|j: int|
                    0 <= j < columns@.len() ==> 0 <= #[trigger] ixs@[j] < self.num_cols()
                        && self.schema.columns@[ixs@[j] as int].name@ == columns@[j]@
            },
            r is Err ==> r == Err::<Vec<usize>, TickError>(TickError::UnknownColumn)
                && exists|j: int| #![trigger columns@[j]]
                0 <= j < columns@.len() && forall|c: int|
                    0 <= c < self.num_cols()
                        ==> (#[trigger] self.schema.columns@[c]).name@ != columns@[j]@,
    {
        let n: usize = columns.len();
        let mut ixs: Vec<usize> = Vec::new();
        let mut j: usize = 0;
        while j < n
            invariant
                self.wf(),
                n == columns@.len(),
                0 <= j <= n,
                ixs@.len() == j,
                forall|q: int|
                    0 <= q < j ==> 0 <= #[trigger] ixs@[q] < self.num_cols()
                        && self.schema.columns@[ixs@[q] as int].name@ == columns@[q]@,
            decreases n - j,
        {
            match self.find_col(&columns[j]) {
                Some(c) => {
                    ixs.push(c);
                }
                None => {
                    return Err(TickError::UnknownColumn);
                }
            }
            j += 1;
        }
        Ok(ixs)
    }

    /// Opens a range-pruned traversal over the partitions intersecting
    /// `[from_ts, to_ts]`, delivering the named columns. Fails exactly when a
    /// requested column is not in the schema.
    pub fn partition_iter<'a>(&'a self, from_ts: i64, to_ts: i64, columns: &Vec<String>) -> (r:
        Result<PartitionIterator<'a>, TickError>)
        requires
            self.wf(),
            from_ts <= to_ts,
        ensures
            r matches Ok(it) ==> {
                &&& it.inv()
                &&& it.table == self
                &&& it.from_ts == from_ts
                &&& it.to_ts == to_ts
                &&& it.partition_index == 0
                &&& it.cols@.len() == columns@.len()
                &&& forall|j: int|
                    0 <= j < columns@.len() ==> self.schema.columns@[
                        #[trigger] it.cols@[j] as int
                    ].name@ == columns@[j]@
            },
            r is Err ==> r == Err::<PartitionIterator<'a>, TickError>(TickError::UnknownColumn)
                && exists|j: int| #![trigger columns@[j]]
                0 <= j < columns@.len() && forall|c: int|
                    0 <= c < self.num_cols()
                        ==> (#[trigger] self.schema.columns@[c]).name@ != columns@[j]@,
    {
        let cols: Vec<usize> = match self.get_union(columns) {
            Err(e) => {
                return Err(e);
            }
            Ok(ixs) => ixs,
        };
        let np: usize = self.partitions.len();
        let mut sel: Vec<usize> = Vec::new();
        let mut p: usize = 0;
        while p < np
            invariant
                self.wf(),
                from_ts <= to_ts,
                np == self.num_parts(),
                0 <= p <= np,
                forall|k: int|
                    0 <= k < sel@.len() ==> 0 <= #[trigger] sel@[k] < p && selected(
                        *self,
                        from_ts,
                        to_ts,
                        sel@[k] as int,
                    ),
                forall|k1: int, k2: int| 0 <= k1 < k2 < sel@.len() ==> sel@[k1] < sel@[k2],
                forall|q: int|
                    0 <= q < p && selected(*self, from_ts, to_ts, q) ==> exists|k: int|
                        0 <= k < sel@.len() && #[trigger] sel@[k] == q,
            decreases np - p,
        {
            let pr: &Partition = &self.partitions[p];
            let ghost prev_sel = sel@;
            if (from_ts >= pr.ts_range.min && from_ts <= pr.ts_range.max) || (from_ts
                < pr.ts_range.min && to_ts > pr.ts_range.max) || (to_ts >= pr.ts_range.min && to_ts
                <= pr.ts_range.max) {
                sel.push(p);
                proof {
                    assert(sel@[sel@.len() - 1] == p);
                    assert forall|q: int|
                        0 <= q < p as int + 1 && selected(*self, from_ts, to_ts, q)
                        implies exists|k: int|
                        0 <= k < sel@.len() && #[trigger] sel@[k] == q by {
                        if q < p as int {
                            let k0 = choose|k0: int|
                                0 <= k0 < prev_sel.len() && #[trigger] prev_sel[k0] == q;
                            assert(sel@[k0] == q);
                        } else {
                            assert(sel@[sel@.len() - 1] == q);
                        }
                    }
                }
            } else {
                proof {
                    assert(!selected(*self, from_ts, to_ts, p as int));
                }
            }
            p += 1;
        }
        Ok(
            PartitionIterator {
                table: self,
                cols,
                from_ts,
                to_ts,
                sel,
                partition_index: 0,
            },
        )
    }
}


/// The stored timestamps of one partition of a well-formed table are sorted.
proof fn lemma_ts_seq_sorted(t: Table, p: int)
    requires
        t.wf(),
        0 <= p < t.num_parts(),
    ensures
        sorted_i64(ts_seq(t, p)),
{
    assert forall|r1: int, r2: int|
        0 <= r1 <= r2 < ts_seq(t, p).len() implies ts_seq(t, p)[r1] <= ts_seq(t, p)[r2] by {
        assert(ts_seq(t, p)[r1] == t.ts_at(p, r1));
        assert(ts_seq(t, p)[r2] == t.ts_at(p, r2));
    }
}

/// Every delivered row range sits within its partition's rows.
proof fn lemma_batch_range_ok(t: Table, from: i64, to: i64, sel: Seq<usize>, k: int)
    requires
        t.wf(),
        from <= to,
        0 <= k < sel.len(),
        forall|q: int|
            0 <= q < sel.len() ==> 0 <= #[trigger] sel[q] < t.num_parts(),
    ensures
        0 <= batch_start(t, from, sel, k) <= batch_end(t, to, sel, k) <= t.row_count_of(
            sel[k] as int,
        ),
{
    let p = sel[k] as int;
    lemma_ts_seq_sorted(t, p);
    lemma_lb_le_ub(ts_seq(t, p), from, to);
    lemma_lb_sorted(ts_seq(t, p), from);
    lemma_ub_sorted(ts_seq(t, p), to);
    if k == 0 {
        lemma_ts_seq_sorted(t, sel[0] as int);
        lemma_lb_le_ub(ts_seq(t, sel[0] as int), from, to);
    }
}

/// The delivered batches cover exactly the rows whose timestamps lie in
/// `[from, to]`, in ascending timestamp order: a completed row of the table
/// falls inside a delivered row range iff its timestamp is in the query
/// range, and rows taken in batch-concatenation order carry non-decreasing
/// timestamps. The selection `sel` is the one `partition_iter` builds: the
/// ascending list of exactly the partitions whose observed range intersects
/// the query range.
#[verifier::rlimit(100)]
pub proof fn lemma_scan_exact_range(t: Table, from: i64, to: i64, sel: Seq<usize>)
    requires
        t.wf(),
        from <= to,
        forall|k: int|
            0 <= k < sel.len() ==> 0 <= #[trigger] sel[k] < t.num_parts() && selected(
                t,
                from,
                to,
                sel[k] as int,
            ),
        forall|k1: int, k2: int| 0 <= k1 < k2 < sel.len() ==> sel[k1] < sel[k2],
        forall|p: int|
            0 <= p < t.num_parts() && selected(t, from, to, p) ==> exists|k: int|
                0 <= k < sel.len() && #[trigger] sel[k] == p,
    ensures
        forall|p: int, r: int|
            0 <= p < t.num_parts() && 0 <= r < t.row_count_of(p) ==> ((from <= #[trigger] t.ts_at(
                p,
                r,
            ) <= to) <==> exists|k: int|
                0 <= k < sel.len() && #[trigger] sel[k] as int == p && batch_start(t, from, sel, k)
                    <= r < batch_end(t, to, sel, k)),
        forall|k1: int, r1: int, k2: int, r2: int|
            0 <= k1 <= k2 < sel.len() && (k1 < k2 || r1 <= r2) && batch_start(t, from, sel, k1)
                <= r1 < batch_end(t, to, sel, k1) && batch_start(t, from, sel, k2) <= r2
                < batch_end(t, to, sel, k2) ==> #[trigger] t.ts_at(sel[k1] as int, r1)
                <= #[trigger] t.ts_at(sel[k2] as int, r2),
{
    // a delivered row's timestamp is in range
    assert forall|k: int, r: int|
        0 <= k < sel.len() && batch_start(t, from, sel, k) <= r < batch_end(t, to, sel, k)
        implies from <= #[trigger] t.ts_at(sel[k] as int, r) <= to by {
        let p = sel[k] as int;
        lemma_batch_range_ok(t, from, to, sel, k);
        lemma_ts_seq_sorted(t, p);
        assert(ts_seq(t, p)[r] == t.ts_at(p, r));
        // at or above the query start
        if k == 0 {
            lemma_lb_sorted(ts_seq(t, p), from);
            assert(t.ts_at(p, r) >= from);
        } else {
            let prev = sel[k - 1] as int;
            assert(sel[k - 1] < sel[k]);
            t.lemma_range_chain(prev, p);
            assert(from <= t.partitions@[prev].ts_range.max);
            assert(t.partitions@[prev].ts_range.max < t.partitions@[p].ts_range.min);
            assert(t.partitions@[p].ts_range.min <= t.ts_at(p, r));
        }
        // at or below the query end
        if k == sel.len() - 1 {
            lemma_ub_sorted(ts_seq(t, p), to);
            assert(t.ts_at(p, r) <= to);
        } else {
            let nxt = sel[k + 1] as int;
            assert(sel[k] < sel[k + 1]);
            t.lemma_range_chain(p, nxt);
            assert(to >= t.partitions@[nxt].ts_range.min);
            assert(t.ts_at(p, r) <= t.partitions@[p].ts_range.max);
        }
    }
    // a row with an in-range timestamp is delivered
    assert forall|p: int, r: int|
        0 <= p < t.num_parts() && 0 <= r < t.row_count_of(p) && from <= #[trigger] t.ts_at(p, r)
        <= to implies exists|k: int|
        0 <= k < sel.len() && #[trigger] sel[k] as int == p && batch_start(t, from, sel, k) <= r
            < batch_end(t, to, sel, k) by {
        // the partition intersects the range, so it was selected
        assert(from <= t.partitions@[p].ts_range.max) by {
            assert(t.ts_at(p, r) <= t.partitions@[p].ts_range.max);
        }
        assert(to >= t.partitions@[p].ts_range.min) by {
            assert(t.partitions@[p].ts_range.min <= t.ts_at(p, r));
        }
        assert(selected(t, from, to, p));
        let k = choose|k: int| 0 <= k < sel.len() && #[trigger] sel[k] == p;
        lemma_ts_seq_sorted(t, p);
        assert(ts_seq(t, p)[r] == t.ts_at(p, r));
        // not before the delivered start
        if k == 0 {
            lemma_lb_sorted(ts_seq(t, p), from);
            assert(r >= batch_start(t, from, sel, k)) by {
                if r < spec_lb(ts_seq(t, p), from) {
                    assert(ts_seq(t, p)[r] < from);
                }
            }
        }
        // before the delivered end
        if k == sel.len() - 1 {
            lemma_ub_sorted(ts_seq(t, p), to);
            assert(r < batch_end(t, to, sel, k)) by {
                if r >= spec_ub(ts_seq(t, p), to) {
                    assert(ts_seq(t, p)[r] > to);
                }
            }
        }
        assert(batch_start(t, from, sel, k) <= r < batch_end(t, to, sel, k));
    }
    // ascending order across the concatenation
    assert forall|k1: int, r1: int, k2: int, r2: int|
        0 <= k1 <= k2 < sel.len() && (k1 < k2 || r1 <= r2) && batch_start(t, from, sel, k1) <= r1
            < batch_end(t, to, sel, k1) && batch_start(t, from, sel, k2) <= r2 < batch_end(
            t,
            to,
            sel,
            k2,
        ) implies #[trigger] t.ts_at(sel[k1] as int, r1) <= #[trigger] t.ts_at(
        sel[k2] as int,
        r2,
    ) by {
        lemma_batch_range_ok(t, from, to, sel, k1);
        lemma_batch_range_ok(t, from, to, sel, k2);
        let p1 = sel[k1] as int;
        let p2 = sel[k2] as int;
        if k1 == k2 {
            assert(t.ts_at(p1, r1) <= t.ts_at(p1, r2));
        } else {
            assert(sel[k1] < sel[k2]);
            t.lemma_range_chain(p1, p2);
            assert(t.ts_at(p1, r1) <= t.partitions@[p1].ts_range.max);
            assert(t.partitions@[p2].ts_range.min <= t.ts_at(p2, r2));
        }
    }
}

} // verus!
