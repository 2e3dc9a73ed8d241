use vstd::prelude::*;

verus! {

/// The decimal digit `d` as a character.
pub open spec fn digit_char(d: int) -> char {
    if d == 0 {
        '0'
    } else if d == 1 {
        '1'
    } else if d == 2 {
        '2'
    } else if d == 3 {
        '3'
    } else if d == 4 {
        '4'
    } else if d == 5 {
        '5'
    } else if d == 6 {
        '6'
    } else if d == 7 {
        '7'
    } else if d == 8 {
        '8'
    } else {
        '9'
    }
}

/// The decimal rendering of a non-negative number, no leading zeros.
pub open spec fn spec_dec(v: int) -> Seq<char>
    decreases v,
{
    if v < 10 {
        seq![digit_char(v)]
    } else {
        spec_dec(v / 10).push(digit_char(v % 10))
    }
}

fn digit_str(d: u64) -> (r: &'static str)
    requires
        d < 10,
    ensures
        r@ == seq![digit_char(d as int)],
{
    proof {
        reveal_strlit("0");
        reveal_strlit("1");
        reveal_strlit("2");
        reveal_strlit("3");
        reveal_strlit("4");
        reveal_strlit("5");
        reveal_strlit("6");
        reveal_strlit("7");
        reveal_strlit("8");
        reveal_strlit("9");
        assert("0"@ =~= seq!['0']);
        assert("1"@ =~= seq!['1']);
        assert("2"@ =~= seq!['2']);
        assert("3"@ =~= seq!['3']);
        assert("4"@ =~= seq!['4']);
        assert("5"@ =~= seq!['5']);
        assert("6"@ =~= seq!['6']);
        assert("7"@ =~= seq!['7']);
        assert("8"@ =~= seq!['8']);
        assert("9"@ =~= seq!['9']);
    }
    if d == 0 {
        "0"
    } else if d == 1 {
        "1"
    } else if d == 2 {
        "2"
    } else if d == 3 {
        "3"
    } else if d == 4 {
        "4"
    } else if d == 5 {
        "5"
    } else if d == 6 {
        "6"
    } else if d == 7 {
        "7"
    } else if d == 8 {
        "8"
    } else {
        "9"
    }
}

/// Renders a number in decimal.
pub fn u64_to_dec(v: u64) -> (r: String)
    ensures
        r@ == spec_dec(v as int),
    decreases v,
{
    if v < 10 {
        digit_str(v).to_owned()
    } else {
        let mut r: String = u64_to_dec(v / 10);
        r.append(digit_str(v % 10));
        proof {
            assert(r@ =~= spec_dec(v as int / 10).push(digit_char(v as int % 10)));
        }
        r
    }
}

/// The `key: value\r\n` lines of an HTTP header block.
pub open spec fn spec_header_lines(hs: Seq<(String, String)>) -> Seq<char>
    decreases hs.len(),
{
    if hs.len() == 0 {
        Seq::empty()
    } else {
        spec_header_lines(hs.drop_last()) + hs.last().0@ + ": "@ + hs.last().1@ + "\r\n"@
    }
}

/// The full response head: status line with content length, then one line per
/// header, then the blank line.
pub open spec fn spec_header(
    version: Seq<char>,
    status: int,
    reason: Seq<char>,
    body_len: int,
    hs: Seq<(String, String)>,
) -> Seq<char> {
    version + " "@ + spec_dec(status) + " "@ + reason + "\r\nContent-Length: "@ + spec_dec(
        body_len,
    ) + "\r\n"@ + spec_header_lines(hs) + "\r\n"@
}

/// Renders the response head for a body of `body_len` bytes: the version,
/// numeric status and reason phrase, a content-length line, the given header
/// lines, and the terminating blank line.
pub fn stringify_header(
    version: &str,
    status: u16,
    reason: &str,
    body_len: usize,
    headers: &Vec<(String, String)>,
) -> (r: String)
    ensures
        r@ == spec_header(version@, status as int, reason@, body_len as int, headers@),
{
    let mut r: String = String::new();
    r.append(version);
    r.append(" ");
    let sd: String = u64_to_dec(status as u64);
    r.append(sd.as_str());
    r.append(" ");
    r.append(reason);
    r.append("\r\nContent-Length: ");
    let bd: String = u64_to_dec(body_len as u64);
    r.append(bd.as_str());
    r.append("\r\n");
    let ghost head = r@;
    let n: usize = headers.len();
    let mut j: usize = 0;
    while j < n
        invariant
            n == headers@.len(),
            0 <= j <= n,
            r@ == head + spec_header_lines(headers@.subrange(0, j as int)),
        decreases n - j,
    {
        r.append(headers[j].0.as_str());
        r.append(": ");
        r.append(headers[j].1.as_str());
        r.append("\r\n");
        proof {
            let pre = headers@.subrange(0, j as int);
            let ext = headers@.subrange(0, j as int + 1);
            assert(ext.drop_last() =~= pre);
            assert(ext.last() == headers@[j as int]);
            assert(r@ =~= head + spec_header_lines(ext));
        }
        j += 1;
    }
    r.append("\r\n");
    proof {
        assert(headers@.subrange(0, n as int) =~= headers@);
        assert(r@ =~= spec_header(
            version@,
            status as int,
            reason@,
            body_len as int,
            headers@,
        ));
    }
    r
}

/// The ASCII code of `c` with upper-case letters folded to lower case.
pub open spec fn lower_code(c: char) -> int {
    if 65 <= c as int <= 90 {
        c as int + 32
    } else {
        c as int
    }
}

/// Character sequences equal up to ASCII case.
pub open spec fn eq_ignore_ascii(a: Seq<char>, b: Seq<char>) -> bool {
    a.len() == b.len() && forall|i: int|
        0 <= i < a.len() ==> lower_code(#[trigger] a[i]) == lower_code(b[i])
}

/// Compares two names up to ASCII case, as HTTP header names are matched.
pub fn name_eq_ignore_case(a: &str, b: &str) -> (r: bool)
    ensures
        r == eq_ignore_ascii(a@, b@),
{
    let na: usize = a.unicode_len();
    let nb: usize = b.unicode_len();
    if na != nb {
        return false;
    }
    let mut i: usize = 0;
    while i < na
        invariant
            na == a@.len(),
            nb == b@.len(),
            na == nb,
            0 <= i <= na,
            forall|q: int| 0 <= q < i ==> lower_code(#[trigger] a@[q]) == lower_code(b@[q]),
        decreases na - i,
    {
        let ca: u32 = a.get_char(i) as u32;
        let cb: u32 = b.get_char(i) as u32;
        let la: u32 = if ca >= 65 && ca <= 90 {
            ca + 32
        } else {
            ca
        };
        let lb: u32 = if cb >= 65 && cb <= 90 {
            cb + 32
        } else {
            cb
        };
        if la != lb {
            return false;
        }
        i += 1;
    }
    true
}

/// The first header whose name is `key` up to ASCII case, as a request's
/// content length is looked up.
pub fn find_header(headers: &Vec<(String, String)>, key: &str) -> (r: Option<usize>)
    ensures
        r matches Some(i) ==> 0 <= i < headers@.len() && eq_ignore_ascii(
            headers@[i as int].0@,
            key@,
        ) && forall|q: int| 0 <= q < i ==> !eq_ignore_ascii((#[trigger] headers@[q]).0@, key@),
        r is None ==> forall|q: int|
            0 <= q < headers@.len() ==> !eq_ignore_ascii((#[trigger] headers@[q]).0@, key@),
{
    let n: usize = headers.len();
    let mut i: usize = 0;
    while i < n
        invariant
            n == headers@.len(),
            0 <= i <= n,
            forall|q: int| 0 <= q < i ==> !eq_ignore_ascii((#[trigger] headers@[q]).0@, key@),
        decreases n - i,
    {
        if name_eq_ignore_case(headers[i].0.as_str(), key) {
            return Some(i);
        }
        i += 1;
    }
    None
}

/// The offending source line followed by a caret underline from the start to
/// the end column, with tabs preserved in the padding so the carets line up.
pub open spec fn spec_error_line(line: Seq<char>, start: int, end: int) -> Seq<char> {
    line + seq!['\n'] + Seq::new((start) as nat, |i: int| if line[i] == '\t' {
        '\t'
    } else {
        ' '
    }) + Seq::new((end - start) as nat, |i: int| '^')
}

/// Renders a compile or runtime error's source line with a caret underline
/// marking the start and end columns.
pub fn fmt_error_line(line: &str, start_col: usize, end_col: usize) -> (r: String)
    requires
        start_col <= end_col,
        start_col <= line@.len(),
    ensures
        r@ == spec_error_line(line@, start_col as int, end_col as int),
{
    let mut r: String = line.to_owned();
    r.append("\n");
    proof {
        reveal_strlit("\n");
        assert("\n"@ =~= seq!['\n']);
    }
    let ghost head = line@ + seq!['\n'];
    proof {
        assert(r@ =~= head);
    }
    let mut i: usize = 0;
    while i < start_col
        invariant
            start_col <= line@.len(),
            0 <= i <= start_col,
            r@ == head + Seq::new(i as nat, |q: int| if line@[q] == '\t' {
                '\t'
            } else {
                ' '
            }),
        decreases start_col - i,
    {
        if line.get_char(i) == '\t' {
            r.append("\t");
        } else {
            r.append(" ");
        }
        proof {
            reveal_strlit("\t");
            reveal_strlit(" ");
            assert("\t"@ =~= seq!['\t']);
            assert(" "@ =~= seq![' ']);
            assert(r@ =~= head + Seq::new((i + 1) as nat, |q: int| if line@[q] == '\t' {
                '\t'
            } else {
                ' '
            }));
        }
        i += 1;
    }
    let ghost mid = r@;
    let mut k: usize = 0;
    while k < end_col - start_col
        invariant
            start_col <= end_col,
            0 <= k <= end_col - start_col,
            r@ == mid + Seq::new(k as nat, |q: int| '^'),
        decreases end_col - start_col - k,
    {
        r.append("^");
        proof {
            reveal_strlit("^");
            assert("^"@ =~= seq!['^']);
            assert(r@ =~= mid + Seq::new((k + 1) as nat, |q: int| '^'));
        }
        k += 1;
    }
    proof {
        assert(r@ =~= spec_error_line(line@, start_col as int, end_col as int));
    }
    r
}

/// One frame of a user-code stack trace.
#[derive(Debug, Clone)]
pub struct StackFrame {
    pub fn_name: String,
    pub file: String,
    pub line: u32,
    pub col: u32,
}

/// One rendered `\tat fn (file:line:col)\n` frame.
pub open spec fn spec_frame(f: StackFrame) -> Seq<char> {
    "\tat "@ + f.fn_name@ + " ("@ + f.file@ + ":"@ + spec_dec(f.line as int) + ":"@ + spec_dec(
        f.col as int,
    ) + ")\n"@
}

pub open spec fn spec_frames(fs: Seq<StackFrame>) -> Seq<char>
    decreases fs.len(),
{
    if fs.len() == 0 {
        Seq::empty()
    } else {
        spec_frames(fs.drop_last()) + spec_frame(fs.last())
    }
}

/// Renders a stack trace in the shared error format: a blank line, then one
/// `at fn (file:line:col)` frame per line.
pub fn fmt_stack_trace(frames: &Vec<StackFrame>) -> (r: String)
    ensures
        r@ == seq!['\n'] + spec_frames(frames@),
{
    let mut r: String = String::new();
    r.append("\n");
    proof {
        reveal_strlit("\n");
        assert("\n"@ =~= seq!['\n']);
    }
    let ghost head = seq!['\n'];
    let n: usize = frames.len();
    let mut j: usize = 0;
    while j < n
        invariant
            n == frames@.len(),
            0 <= j <= n,
            r@ == head + spec_frames(frames@.subrange(0, j as int)),
        decreases n - j,
    {
        let f: &StackFrame = &frames[j];
        r.append("\tat ");
        r.append(f.fn_name.as_str());
        r.append(" (");
        r.append(f.file.as_str());
        r.append(":");
        let ld: String = u64_to_dec(f.line as u64);
        r.append(ld.as_str());
        r.append(":");
        let cd: String = u64_to_dec(f.col as u64);
        r.append(cd.as_str());
        r.append(")\n");
        proof {
            let pre = frames@.subrange(0, j as int);
            let ext = frames@.subrange(0, j as int + 1);
            assert(ext.drop_last() =~= pre);
            assert(ext.last() == frames@[j as int]);
            assert(r@ =~= head + spec_frames(ext));
        }
        j += 1;
    }
    proof {
        assert(frames@.subrange(0, n as int) =~= frames@);
    }
    r
}

/// The full error report in the shared format: `file:line`, the source line
/// with a caret underline, a blank line, the message, and the stack frames
/// when any exist.
pub open spec fn spec_error_report(
    fname: Seq<char>,
    lineno: Option<u32>,
    source_line: Option<(String, usize, usize)>,
    message: Seq<char>,
    frames: Seq<StackFrame>,
) -> Seq<char> {
    let head = fname + (match lineno {
        Some(l) => ":"@ + spec_dec(l as int),
        None => Seq::empty(),
    }) + seq!['\n'];
    let body = match source_line {
        Some(sl) => spec_error_line(sl.0@, sl.1 as int, sl.2 as int),
        None => Seq::empty(),
    };
    let tail = if frames.len() > 0 {
        seq!['\n'] + spec_frames(frames)
    } else {
        Seq::empty()
    };
    head + body + seq!['\n', '\n'] + message + tail
}

/// Renders a compile or runtime error of user code: position, source line
/// with carets, message, and stack frames.
pub fn fmt_error(
    fname: &str,
    lineno: Option<u32>,
    source_line: Option<(String, usize, usize)>,
    message: &str,
    frames: &Vec<StackFrame>,
) -> (r: String)
    requires
        source_line matches Some(sl) ==> sl.1 <= sl.2 && sl.1 <= sl.0@.len(),
    ensures
        r@ == spec_error_report(fname@, lineno, source_line, message@, frames@),
{
    proof {
        reveal_strlit("\n");
        reveal_strlit("\n\n");
        reveal_strlit(":");
        assert("\n"@ =~= seq!['\n']);
        assert("\n\n"@ =~= seq!['\n', '\n']);
    }
    let mut r: String = fname.to_owned();
    match lineno {
        Some(l) => {
            r.append(":");
            let ld: String = u64_to_dec(l as u64);
            r.append(ld.as_str());
        }
        None => {}
    }
    r.append("\n");
    match &source_line {
        Some((line, start, end)) => {
            let el: String = fmt_error_line(line.as_str(), *start, *end);
            r.append(el.as_str());
        }
        None => {}
    }
    r.append("\n\n");
    r.append(message);
    if frames.len() > 0 {
        let tr: String = fmt_stack_trace(frames);
        r.append(tr.as_str());
    }
    proof {
        assert(r@ =~= spec_error_report(fname@, lineno, source_line, message@, frames@));
    }
    r
}

} // verus!
