use vstd::prelude::*;

verus! {

/// The fixed-width scalar kinds a column can hold. `Timestamp` and `Symbol`
/// are stored as 8-byte integers; `Symbol` values are 1-based dictionary
/// indices.
#[derive(Debug, Copy, Clone, PartialEq, Eq, Structural)]
pub enum ColumnType {
    Timestamp,
    Symbol,
    I8,
    U8,
    I16,
    U16,
    I32,
    U32,
    F32,
    I64,
    U64,
    F64,
}

impl ColumnType {
    /// Bytes per row of a value of this type.
    pub open spec fn spec_stride(self) -> nat {
        match self {
            ColumnType::I8 | ColumnType::U8 => 1,
            ColumnType::I16 | ColumnType::U16 => 2,
            ColumnType::I32 | ColumnType::U32 | ColumnType::F32 => 4,
            ColumnType::Timestamp
            | ColumnType::Symbol
            | ColumnType::I64
            | ColumnType::U64
            | ColumnType::F64 => 8,
        }
    }

    pub fn stride(self) -> (s: usize)
        ensures
            s == self.spec_stride(),
    {
        match self {
            ColumnType::I8 | ColumnType::U8 => 1,
            ColumnType::I16 | ColumnType::U16 => 2,
            ColumnType::I32 | ColumnType::U32 | ColumnType::F32 => 4,
            ColumnType::Timestamp
            | ColumnType::Symbol
            | ColumnType::I64
            | ColumnType::U64
            | ColumnType::F64 => 8,
        }
    }

    /// The lowercase name of the type, used as the extension of a column file.
    pub fn ext(self) -> (s: &'static str)
        ensures
            s@ == self.spec_ext(),
    {
        proof {
            reveal_strlit("timestamp");
            reveal_strlit("symbol");
            reveal_strlit("i8");
            reveal_strlit("u8");
            reveal_strlit("i16");
            reveal_strlit("u16");
            reveal_strlit("i32");
            reveal_strlit("u32");
            reveal_strlit("f32");
            reveal_strlit("i64");
            reveal_strlit("u64");
            reveal_strlit("f64");
        }
        match self {
            ColumnType::Timestamp => "timestamp",
            ColumnType::Symbol => "symbol",
            ColumnType::I8 => "i8",
            ColumnType::U8 => "u8",
            ColumnType::I16 => "i16",
            ColumnType::U16 => "u16",
            ColumnType::I32 => "i32",
            ColumnType::U32 => "u32",
            ColumnType::F32 => "f32",
            ColumnType::I64 => "i64",
            ColumnType::U64 => "u64",
            ColumnType::F64 => "f64",
        }
    }

    pub open spec fn spec_ext(self) -> Seq<char> {
        match self {
            ColumnType::Timestamp => "timestamp"@,
            ColumnType::Symbol => "symbol"@,
            ColumnType::I8 => "i8"@,
            ColumnType::U8 => "u8"@,
            ColumnType::I16 => "i16"@,
            ColumnType::U16 => "u16"@,
            ColumnType::I32 => "i32"@,
            ColumnType::U32 => "u32"@,
            ColumnType::F32 => "f32"@,
            ColumnType::I64 => "i64"@,
            ColumnType::U64 => "u64"@,
            ColumnType::F64 => "f64"@,
        }
    }
}

/// Faults on the symbol-dictionary operations.
#[derive(Debug, Copy, Clone, PartialEq, Eq, Structural)]
pub enum SymbolError {
    /// The symbol is empty or contains a newline; the one-symbol-per-line
    /// side-file format cannot carry it.
    InvalidSymbol,
    /// A line of a dictionary side-file occurs twice.
    DuplicateSymbol,
}

/// A symbol can stand in the dictionary side-file only if it occupies exactly
/// one non-empty line.
pub open spec fn valid_symbol(s: Seq<char>) -> bool {
    s.len() > 0 && !s.contains('\n')
}

/// The views of a sequence of strings.
pub open spec fn str_views(ss: Seq<String>) -> Seq<Seq<char>> {
    ss.map_values(|s: String| s@)
}

/// Symbols joined by single newlines, with no trailing newline: the exact
/// image of the dictionary side-file.
pub open spec fn join_lines(ss: Seq<Seq<char>>) -> Seq<char>
    decreases ss.len(),
{
    if ss.len() == 0 {
        Seq::empty()
    } else if ss.len() == 1 {
        ss[0]
    } else {
        join_lines(ss.drop_last()) + seq!['\n'] + ss.last()
    }
}

pub open spec fn has_symbol(ss: Seq<String>, s: Seq<char>) -> bool {
    exists|j: int| 0 <= j < ss.len() && ss[j]@ == s
}

/// Append-only interned-string table for one symbol column. `symbols` holds
/// the interned strings in insertion order; a symbol's dictionary index is its
/// 1-based position. `file` is the image of the side-file that persists the
/// table: UTF-8, one symbol per line, no trailing newline.
#[derive(Debug, Clone)]
pub struct SymbolDict {
    pub symbols: Vec<String>,
    pub file: String,
}

/// What a successful `add_sym` reports: either the symbol was already interned
/// at 1-based index `i` and nothing changed, or it was appended and `i` is the
/// new last position.
pub open spec fn add_sym_post(old_d: SymbolDict, new_d: SymbolDict, s: Seq<char>, i: int) -> bool {
    if has_symbol(old_d.symbols@, s) {
        &&& new_d == old_d
        &&& 1 <= i <= old_d.symbols@.len()
        &&& old_d.symbols@[i - 1]@ == s
    } else {
        &&& new_d.symbols@.len() == old_d.symbols@.len() + 1
        &&& new_d.symbols@.drop_last() == old_d.symbols@
        &&& new_d.symbols@.last()@ == s
        &&& i == new_d.symbols@.len()
    }
}

impl SymbolDict {
    /// Symbols are distinct, each fits on one line, and the file image is
    /// exactly the symbols joined by newlines.
    pub open spec fn wf(self) -> bool {
        &&& forall|j: int| 0 <= j < self.symbols@.len() ==> valid_symbol(#[trigger] self.symbols@[j]@)
        &&& forall|j: int, k: int|
            0 <= j < k < self.symbols@.len() ==> self.symbols@[j]@ != self.symbols@[k]@
        &&& self.file@ == join_lines(str_views(self.symbols@))
    }

    pub fn new() -> (d: SymbolDict)
        ensures
            d.wf(),
            d.symbols@.len() == 0,
            d.file@.len() == 0,
    {
        let d = SymbolDict { symbols: Vec::new(), file: String::new() };
        proof {
            assert(str_views(d.symbols@).len() == 0);
        }
        d
    }

    /// Interns `sym`, returning its 1-based index. Adding a symbol that is
    /// already present is idempotent and returns its prior index. A symbol
    /// that cannot stand on one line of the side-file is rejected.
    pub fn add_sym(&mut self, sym: &str) -> (r: Result<u64, SymbolError>)
        requires
            old(self).wf(),
        ensures
            final(self).wf(),
            valid_symbol(sym@) ==> (r matches Ok(i) && add_sym_post(*old(self), *final(self), sym@, i as int)),
            !valid_symbol(sym@) ==> r == Err::<u64, SymbolError>(SymbolError::InvalidSymbol)
                && *final(self) == *old(self),
    {
        if !symbol_ok(sym) {
            return Err(SymbolError::InvalidSymbol);
        }
        let n: usize = self.symbols.len();
        let sym_string: String = sym.to_owned();
        let mut j: usize = 0;
        while j < n
            invariant
                *self == *old(self),
                old(self).wf(),
                valid_symbol(sym@),
                n == self.symbols@.len(),
                0 <= j <= n,
                sym_string@ == sym@,
                forall|k: int| 0 <= k < j ==> self.symbols@[k]@ != sym@,
            decreases n - j,
        {
            let cur: &String = &self.symbols[j];
            if cur.eq(&sym_string) {
                return Ok((j + 1) as u64);
            }
            j += 1;
        }
        // not present: append to the table and to the file image
        if n > 0 {
            self.file.append("\n");
        }
        self.file.append(sym);
        self.symbols.push(sym_string);
        let m: usize = self.symbols.len();
        proof {
            reveal_strlit("\n");
            let ss = str_views(self.symbols@);
            let old_ss = str_views(old(self).symbols@);
            assert(self.symbols@.drop_last() =~= old(self).symbols@);
            assert(ss.drop_last() =~= old_ss);
            assert(join_lines(ss.drop_last()) == join_lines(old_ss));
            if n == 0 {
                assert(ss.len() == 1);
                assert(self.file@ =~= ss[0]);
            } else {
                assert(ss.len() >= 2);
                assert("\n"@ =~= seq!['\n']);
                assert(self.file@ =~= join_lines(ss.drop_last()) + seq!['\n'] + ss.last());
            }
            assert(!has_symbol(old(self).symbols@, sym@));
        }
        Ok(m as u64)
    }

    /// Looks an index up; `Some` exactly for the 1-based positions in use.
    pub fn resolve(&self, i: u64) -> (r: Option<&String>)
        ensures
            1 <= i <= self.symbols@.len() ==> (r matches Some(s) && s@ == self.symbols@[i as int - 1]@),
            !(1 <= i <= self.symbols@.len()) ==> r is None,
    {
        if i >= 1 && i <= self.symbols.len() as u64 {
            Some(&self.symbols[(i - 1) as usize])
        } else {
            None
        }
    }

    /// Rebuilds a dictionary from the lines of its side-file, as read back
    /// from disk. Rejects a file whose lines could not have been written by
    /// `add_sym`: an empty or repeated line.
    pub fn from_lines(lines: &Vec<String>) -> (r: Result<SymbolDict, SymbolError>)
        ensures
            r matches Ok(d) ==> {
                &&& d.wf()
                &&& d.symbols@.len() == lines@.len()
                &&& forall|j: int| 0 <= j < lines@.len()
                    ==> (#[trigger] d.symbols@[j])@ == lines@[j]@
            },
            r matches Err(e) ==> {
                ||| (e == SymbolError::InvalidSymbol && exists|j: int|
                    0 <= j < lines@.len() && !valid_symbol(#[trigger] lines@[j]@))
                ||| (e == SymbolError::DuplicateSymbol && exists|j: int, k: int|
                    0 <= j < k < lines@.len() && lines@[j]@ == lines@[k]@)
            },
    {
        let mut d = SymbolDict::new();
        let n: usize = lines.len();
        let mut j: usize = 0;
        while j < n
            invariant
                n == lines@.len(),
                0 <= j <= n,
                d.wf(),
                d.symbols@.len() == j,
                forall|k: int| 0 <= k < j ==> (#[trigger] d.symbols@[k])@ == lines@[k]@,
            decreases n - j,
        {
            let line: &String = &lines[j];
            let ghost pre = d;
            match d.add_sym(line.as_str()) {
                Err(e) => {
                    return Err(e);
                }
                Ok(i) => {
                    if (i as usize) != j + 1 {
                        // already present: the file held this line twice
                        proof {
                            assert(has_symbol(pre.symbols@, line@));
                            let p = choose|p: int|
                                0 <= p < pre.symbols@.len() && pre.symbols@[p]@ == line@;
                            assert(lines@[p]@ == lines@[j as int]@);
                        }
                        return Err(SymbolError::DuplicateSymbol);
                    }
                    proof {
                        if has_symbol(pre.symbols@, line@) {
                            // then add_sym reported an index at most j, not j + 1
                            let p = choose|p: int|
                                0 <= p < pre.symbols@.len() && pre.symbols@[p]@ == line@;
                            assert(false);
                        }
                        assert(d.symbols@.drop_last() == pre.symbols@);
                        assert(forall|k: int| 0 <= k < j
                            ==> (#[trigger] d.symbols@[k]) == pre.symbols@[k]);
                    }
                }
            }
            j += 1;
        }
        Ok(d)
    }
}

/// True exactly when `s` can be one line of a dictionary side-file.
pub fn symbol_ok(s: &str) -> (b: bool)
    ensures
        b == valid_symbol(s@),
{
    let n: usize = s.unicode_len();
    if n == 0 {
        return false;
    }
    let mut j: usize = 0;
    while j < n
        invariant
            n == s@.len(),
            0 <= j <= n,
            forall|k: int| 0 <= k < j ==> s@[k] != '\n',
        decreases n - j,
    {
        if s.get_char(j) == '\n' {
            proof {
                assert(s@.contains('\n'));
            }
            return false;
        }
        j += 1;
    }
    proof {
        assert(!s@.contains('\n')) by {
            if s@.contains('\n') {
                let k = choose|k: int| 0 <= k < s@.len() && s@[k] == '\n';
                assert(false);
            }
        }
    }
    true
}

/// Re-reading an interned symbol through the dictionary returns the original
/// string: whatever index `add_sym` reported for a symbol, the resulting
/// dictionary holds that symbol at that 1-based index, so `resolve` hands the
/// symbol back.
pub proof fn lemma_intern_resolve(old_d: SymbolDict, new_d: SymbolDict, s: Seq<char>, i: int)
    requires
        old_d.wf(),
        valid_symbol(s),
        add_sym_post(old_d, new_d, s, i),
    ensures
        1 <= i <= new_d.symbols@.len(),
        new_d.symbols@[i - 1]@ == s,
{
    if !has_symbol(old_d.symbols@, s) {
        assert(new_d.symbols@[i - 1] == new_d.symbols@.last());
    }
}

/// `{name, type, stride}`, optionally carrying the symbol dictionary of a
/// symbol column.
#[derive(Debug, Clone)]
pub struct Column {
    pub name: String,
    pub typ: ColumnType,
    pub stride: usize,
    pub symbol_file: Option<SymbolDict>,
}

impl Column {
    pub open spec fn wf(self) -> bool {
        &&& self.stride == self.typ.spec_stride()
        &&& (self.typ == ColumnType::Symbol <==> self.symbol_file is Some)
        &&& (self.symbol_file matches Some(d) ==> d.wf())
    }

    pub fn new(name: &str, typ: ColumnType) -> (c: Column)
        ensures
            c.wf(),
            c.name@ == name@,
            c.typ == typ,
            (c.symbol_file matches Some(d) ==> d.symbols@.len() == 0),
    {
        let symbol_file: Option<SymbolDict> = if matches!(typ, ColumnType::Symbol) {
            Some(SymbolDict::new())
        } else {
            None
        };
        Column { name: name.to_owned(), typ, stride: typ.stride(), symbol_file }
    }
}

/// An ordered column list headed by the implicit `("ts", Timestamp)` column,
/// plus the strftime-like partition format.
#[derive(Debug, Clone)]
pub struct Schema {
    pub name: String,
    pub columns: Vec<Column>,
    pub partition_fmt: String,
}

impl Schema {
    pub open spec fn wf(self) -> bool {
        &&& self.columns@.len() >= 1
        &&& self.columns@[0].typ == ColumnType::Timestamp
        &&& self.columns@[0].name@ == "ts"@
        &&& forall|i: int| 0 <= i < self.columns@.len() ==> (#[trigger] self.columns@[i]).wf()
        &&& forall|i: int, j: int|
            0 <= i < j < self.columns@.len() ==> self.columns@[i].name@ != self.columns@[j].name@
    }

    pub fn new(name: &str, partition_fmt: &str) -> (s: Schema)
        ensures
            s.wf(),
            s.name@ == name@,
            s.partition_fmt@ == partition_fmt@,
            s.columns@.len() == 1,
    {
        let mut columns: Vec<Column> = Vec::new();
        columns.push(Column::new("ts", ColumnType::Timestamp));
        Schema { name: name.to_owned(), columns, partition_fmt: partition_fmt.to_owned() }
    }

    /// Appends a user column. The name must be new to the schema.
    pub fn add_col(self, column: Column) -> (s: Schema)
        requires
            self.wf(),
            column.wf(),
            forall|i: int| 0 <= i < self.columns@.len()
                ==> (#[trigger] self.columns@[i]).name@ != column.name@,
        ensures
            s.wf(),
            s.name@ == self.name@,
            s.partition_fmt@ == self.partition_fmt@,
            s.columns@ == self.columns@.push(column),
    {
        let mut s = self;
        s.columns.push(column);
        s
    }

    /// Appends several user columns; names must be new and pairwise distinct.
    pub fn add_cols(self, columns: Vec<Column>) -> (s: Schema)
        requires
            self.wf(),
            forall|i: int| 0 <= i < columns@.len() ==> (#[trigger] columns@[i]).wf(),
            forall|i: int, j: int|
                0 <= i < j < columns@.len() ==> columns@[i].name@ != columns@[j].name@,
            forall|i: int, j: int|
                0 <= i < self.columns@.len() && 0 <= j < columns@.len()
                    ==> (#[trigger] self.columns@[i]).name@ != (#[trigger] columns@[j]).name@,
        ensures
            s.wf(),
            s.name@ == self.name@,
            s.partition_fmt@ == self.partition_fmt@,
            s.columns@ == self.columns@ + columns@,
    {
        let ghost orig = self;
        let mut s = self;
        let n: usize = columns.len();
        let mut j: usize = 0;
        let mut rest = columns;
        while j < n
            invariant
                orig.wf(),
                n == columns@.len(),
                0 <= j <= n,
                rest@ == columns@.subrange(j as int, n as int),
                s.columns@ == orig.columns@ + columns@.subrange(0, j as int),
                s.name@ == orig.name@,
                s.partition_fmt@ == orig.partition_fmt@,
                forall|i: int| 0 <= i < columns@.len() ==> (#[trigger] columns@[i]).wf(),
                forall|i: int, j2: int|
                    0 <= i < j2 < columns@.len() ==> columns@[i].name@ != columns@[j2].name@,
                forall|i: int, j2: int|
                    0 <= i < orig.columns@.len() && 0 <= j2 < columns@.len()
                        ==> (#[trigger] orig.columns@[i]).name@ != (#[trigger] columns@[j2]).name@,
                s.wf(),
            decreases n - j,
        {
            let c = rest.remove(0);
            proof {
                assert(c == columns@[j as int]);
                assert(forall|i: int| 0 <= i < s.columns@.len()
                    ==> (#[trigger] s.columns@[i]).name@ != c.name@);
            }
            s = s.add_col(c);
            proof {
                assert(rest@ =~= columns@.subrange(j as int + 1, n as int));
                assert(s.columns@ =~= orig.columns@ + columns@.subrange(0, j as int + 1));
            }
            j += 1;
        }
        proof {
            assert(columns@.subrange(0, n as int) =~= columns@);
            assert(s.columns@ =~= orig.columns@ + columns@);
        }
        s
    }
}


impl SymbolDict {
    /// Decides well-formedness: symbols valid and distinct, file image equal
    /// to their joined lines.
    pub fn check(&self) -> (b: bool)
        ensures
            b == self.wf(),
    {
        let n: usize = self.symbols.len();
        let mut j: usize = 0;
        let mut rebuilt = String::new();
        while j < n
            invariant
                n == self.symbols@.len(),
                0 <= j <= n,
                forall|q: int| 0 <= q < j ==> valid_symbol((#[trigger] self.symbols@[q])@),
                forall|q1: int, q2: int|
                    0 <= q1 < q2 < j ==> self.symbols@[q1]@ != self.symbols@[q2]@,
                rebuilt@ == join_lines(str_views(self.symbols@.subrange(0, j as int))),
            decreases n - j,
        {
            let sym: &String = &self.symbols[j];
            if !symbol_ok(sym.as_str()) {
                proof {
                    assert(!valid_symbol(self.symbols@[j as int]@));
                }
                return false;
            }
            let mut q: usize = 0;
            while q < j
                invariant
                    0 <= q <= j < n,
                    n == self.symbols@.len(),
                    sym@ == self.symbols@[j as int]@,
                    forall|q2: int| 0 <= q2 < q ==> self.symbols@[q2]@ != sym@,
                decreases j - q,
            {
                if self.symbols[q].eq(sym) {
                    proof {
                        assert(self.symbols@[q as int]@ == self.symbols@[j as int]@);
                        assert(!self.wf());
                    }
                    return false;
                }
                q += 1;
            }
            if j > 0 {
                rebuilt.append("\n");
            }
            rebuilt.append(sym.as_str());
            proof {
                reveal_strlit("\n");
                let pre = str_views(self.symbols@.subrange(0, j as int));
                let ext = str_views(self.symbols@.subrange(0, j as int + 1));
                assert(ext.drop_last() =~= pre);
                assert(ext.last() == self.symbols@[j as int]@);
                if j == 0 {
                    assert(rebuilt@ =~= join_lines(ext));
                } else {
                    assert("\n"@ =~= seq!['\n']);
                    assert(rebuilt@ =~= join_lines(pre) + seq!['\n'] + ext.last());
                    assert(rebuilt@ =~= join_lines(ext));
                }
            }
            j += 1;
        }
        proof {
            assert(self.symbols@.subrange(0, n as int) =~= self.symbols@);
        }
        if !self.file.eq(&rebuilt) {
            return false;
        }
        true
    }
}

impl Column {
    /// Decides well-formedness: the stride matches the type, and a symbol
    /// column carries a well-formed dictionary.
    pub fn check(&self) -> (b: bool)
        ensures
            b == self.wf(),
    {
        if self.stride != self.typ.stride() {
            return false;
        }
        match &self.symbol_file {
            Some(d) => matches!(self.typ, ColumnType::Symbol) && d.check(),
            None => !matches!(self.typ, ColumnType::Symbol),
        }
    }
}

impl Schema {
    /// Decides well-formedness: a leading `("ts", Timestamp)` column, every
    /// column well-formed, names distinct.
    pub fn check(&self) -> (b: bool)
        ensures
            b == self.wf(),
    {
        let nc: usize = self.columns.len();
        if nc == 0 {
            return false;
        }
        if !matches!(self.columns[0].typ, ColumnType::Timestamp) {
            return false;
        }
        let ts_name: String = "ts".to_owned();
        if !self.columns[0].name.eq(&ts_name) {
            return false;
        }
        let mut j: usize = 0;
        while j < nc
            invariant
                nc == self.columns@.len(),
                0 <= j <= nc,
                forall|q: int| 0 <= q < j ==> (#[trigger] self.columns@[q]).wf(),
                forall|q1: int, q2: int|
                    0 <= q1 < q2 < j ==> self.columns@[q1].name@ != self.columns@[q2].name@,
            decreases nc - j,
        {
            if !self.columns[j].check() {
                return false;
            }
            let mut q: usize = 0;
            while q < j
                invariant
                    0 <= q <= j < nc,
                    nc == self.columns@.len(),
                    forall|q2: int|
                        0 <= q2 < q ==> self.columns@[q2].name@ != self.columns@[j as int].name@,
                decreases j - q,
            {
                if self.columns[q].name.eq(&self.columns[j].name) {
                    proof {
                        assert(self.columns@[q as int].name@ == self.columns@[j as int].name@);
                        assert(!self.wf());
                    }
                    return false;
                }
                q += 1;
            }
            j += 1;
        }
        true
    }
}

} // verus!
