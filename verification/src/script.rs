use vstd::prelude::*;

use crate::turtle::{Command, Scope};

verus! {

/// Failure to parse the script: `line` is the index, among non-blank
/// lines, of the first line that is not a well-formed instruction.
#[derive(Debug, Clone, Copy, PartialEq, Eq, Structural)]
pub struct ParseError {
    pub line: usize,
}

/// Outcome of reading a single script line.
#[derive(Debug, Clone, Copy, PartialEq, Eq, Structural)]
pub enum LineParse {
    Blank,
    Malformed,
    Instr(Command),
}

pub open spec fn is_space(b: u8) -> bool {
    b == 32 || b == 9
}

pub open spec fn is_digit(b: u8) -> bool {
    48 <= b && b <= 57
}

/// Number of consecutive tab bytes starting at `i`.
pub open spec fn tab_run(l: Seq<u8>, i: int) -> nat
    decreases l.len() - i,
{
    if i < 0 || i >= l.len() || l[i] != 9 {
        0
    } else {
        1 + tab_run(l, i + 1)
    }
}

/// Number of consecutive whitespace bytes starting at `i`.
pub open spec fn ws_run(l: Seq<u8>, i: int) -> nat
    decreases l.len() - i,
{
    if i < 0 || i >= l.len() || !is_space(l[i]) {
        0
    } else {
        1 + ws_run(l, i + 1)
    }
}

/// Number of consecutive non-whitespace bytes starting at `i`.
pub open spec fn word_run(l: Seq<u8>, i: int) -> nat
    decreases l.len() - i,
{
    if i < 0 || i >= l.len() || is_space(l[i]) {
        0
    } else {
        1 + word_run(l, i + 1)
    }
}

/// Distance from `i` to the next newline byte (or to the end).
pub open spec fn nl_dist(t: Seq<u8>, i: int) -> nat
    decreases t.len() - i,
{
    if i < 0 || i >= t.len() || t[i] == 10 {
        0
    } else {
        1 + nl_dist(t, i + 1)
    }
}

proof fn lemma_tab_run(l: Seq<u8>, i: int, j: int)
    requires
        0 <= i <= j <= l.len(),
        forall|k: int| i <= k < j ==> l[k] == 9,
        j == l.len() || l[j] != 9,
    ensures
        i + tab_run(l, i) == j,
    decreases j - i,
{
    if i < j {
        lemma_tab_run(l, i + 1, j);
    }
}

proof fn lemma_ws_run(l: Seq<u8>, i: int, j: int)
    requires
        0 <= i <= j <= l.len(),
        forall|k: int| i <= k < j ==> is_space(l[k]),
        j == l.len() || !is_space(l[j]),
    ensures
        i + ws_run(l, i) == j,
    decreases j - i,
{
    if i < j {
        lemma_ws_run(l, i + 1, j);
    }
}

proof fn lemma_word_run(l: Seq<u8>, i: int, j: int)
    requires
        0 <= i <= j <= l.len(),
        forall|k: int| i <= k < j ==> !is_space(l[k]),
        j == l.len() || is_space(l[j]),
    ensures
        i + word_run(l, i) == j,
    decreases j - i,
{
    if i < j {
        lemma_word_run(l, i + 1, j);
    }
}

proof fn lemma_nl_dist(t: Seq<u8>, i: int, j: int)
    requires
        0 <= i <= j <= t.len(),
        forall|k: int| i <= k < j ==> t[k] != 10,
        j == t.len() || t[j] == 10,
    ensures
        i + nl_dist(t, i) == j,
    decreases j - i,
{
    if i < j {
        lemma_nl_dist(t, i + 1, j);
    }
}

/// Value of a string of decimal digits, most significant first.
pub open spec fn digits_val(s: Seq<u8>) -> int
    decreases s.len(),
{
    if s.len() == 0 {
        0
    } else {
        digits_val(s.drop_last()) * 10 + (s.last() - 48)
    }
}

pub open spec fn all_digits(s: Seq<u8>) -> bool {
    forall|k: int| 0 <= k < s.len() ==> is_digit(s[k])
}

/// The integer denoted by a token: an optional sign followed by at least
/// one decimal digit; anything else denotes nothing.
pub open spec fn spec_parse_int(s: Seq<u8>) -> Option<int> {
    if s.len() == 0 {
        None
    } else if s[0] == 43 || s[0] == 45 {
        let ds = s.skip(1);
        if ds.len() == 0 || !all_digits(ds) {
            None
        } else if s[0] == 45 {
            Some(-digits_val(ds))
        } else {
            Some(digits_val(ds))
        }
    } else if all_digits(s) {
        Some(digits_val(s))
    } else {
        None
    }
}

pub open spec fn keyword_move() -> Seq<u8> {
    seq![109u8, 111u8, 118u8, 101u8]
}

pub open spec fn keyword_turn() -> Seq<u8> {
    seq![116u8, 117u8, 114u8, 110u8]
}

pub open spec fn keyword_repeat() -> Seq<u8> {
    seq![114u8, 101u8, 112u8, 101u8, 97u8, 116u8]
}

/// What a single script line means. A line is one instruction: leading
/// tabs give the scope depth, then a keyword token and one signed integer
/// argument (further tokens are ignored). Empty lines are blank; a line
/// missing keyword or argument, with an unknown keyword, or whose argument
/// does not fit an `i32` is malformed.
pub open spec fn spec_parse_line(l: Seq<u8>) -> LineParse {
    if l.len() == 0 {
        LineParse::Blank
    } else {
        let depth: int = tab_run(l, 0) as int;
        let s1: int = ws_run(l, 0) as int;
        let e1: int = s1 + word_run(l, s1) as int;
        let s2: int = e1 + ws_run(l, e1) as int;
        let e2: int = s2 + word_run(l, s2) as int;
        let kw: Seq<u8> = l.subrange(s1, e1);
        let arg: Seq<u8> = l.subrange(s2, e2);
        if s1 >= l.len() {
            LineParse::Malformed
        } else if s2 >= l.len() {
            LineParse::Malformed
        } else {
            match spec_parse_int(arg) {
                None => LineParse::Malformed,
                Some(v) => if v < i32::MIN || v > i32::MAX {
                    LineParse::Malformed
                } else if kw == keyword_move() {
                    LineParse::Instr(Command::Move(Scope(depth as usize), v as i32))
                } else if kw == keyword_turn() {
                    LineParse::Instr(Command::Turn(Scope(depth as usize), v as i32))
                } else if kw == keyword_repeat() {
                    LineParse::Instr(Command::Repeat(Scope(depth as usize), v as i32))
                } else {
                    LineParse::Malformed
                },
            }
        }
    }
}

/// A line with its trailing carriage return removed, if any.
pub open spec fn strip_cr(l: Seq<u8>) -> Seq<u8> {
    if l.len() > 0 && l.last() == 13 {
        l.drop_last()
    } else {
        l
    }
}

/// The lines of the text from position `i` on, split at newline bytes;
/// a trailing newline does not open a final empty line.
pub open spec fn spec_lines_from(t: Seq<u8>, i: int) -> Seq<Seq<u8>>
    decreases t.len() - i,
{
    if i < 0 || i >= t.len() {
        Seq::empty()
    } else {
        let j: int = i + nl_dist(t, i);
        if j >= t.len() {
            seq![strip_cr(t.subrange(i, t.len() as int))]
        } else {
            seq![strip_cr(t.subrange(i, j))] + spec_lines_from(t, j + 1)
        }
    }
}

pub open spec fn spec_lines(t: Seq<u8>) -> Seq<Seq<u8>> {
    spec_lines_from(t, 0)
}

/// Parse a sequence of lines; `n` counts the non-blank lines already
/// consumed, so an error reports the index of the offending instruction.
pub open spec fn spec_parse_lines(ls: Seq<Seq<u8>>, n: int) -> Result<Seq<Command>, int>
    decreases ls.len(),
{
    if ls.len() == 0 {
        Ok(Seq::empty())
    } else {
        match spec_parse_line(ls[0]) {
            LineParse::Blank => spec_parse_lines(ls.skip(1), n),
            LineParse::Malformed => Err(n),
            LineParse::Instr(c) => match spec_parse_lines(ls.skip(1), n + 1) {
                Ok(rest) => Ok(seq![c] + rest),
                Err(e) => Err(e),
            },
        }
    }
}

/// The command sequence denoted by a script text, or the index of its
/// first bad instruction line. Parsing is a pure function of the text.
pub open spec fn spec_parse(t: Seq<u8>) -> Result<Seq<Command>, int> {
    spec_parse_lines(spec_lines(t), 0)
}

/// Re-parsing identical script text yields identical command sequences:
/// what a script means is a function of its bytes alone.
pub proof fn lemma_parse_deterministic(t1: Seq<u8>, t2: Seq<u8>)
    requires
        t1 == t2,
    ensures
        spec_parse(t1) == spec_parse(t2),
{
}

/// The number of leading tab bytes of a line: its scope depth.
pub fn count_indentation(line: &[u8]) -> (r: usize)
    ensures
        r == tab_run(line@, 0),
{
    let mut count: usize = 0;
    while count < line.len() && line[count] == 9
        invariant
            count <= line@.len(),
            forall|k: int| 0 <= k < count ==> line@[k] == 9,
        decreases line@.len() - count,
    {
        count = count + 1;
    }
    proof {
        lemma_tab_run(line@, 0, count as int);
    }
    count
}

/// Parse the argument token `text[s..e]` as an `i32`; `None` both for a
/// token that denotes no integer and for a value out of range.
fn parse_int_arg(text: &[u8], s: usize, e: usize) -> (r: Option<i32>)
    requires
        s < e <= text@.len(),
    ensures
        (match spec_parse_int(text@.subrange(s as int, e as int)) {
            None => r is None,
            Some(v) => if i32::MIN <= v <= i32::MAX {
                r == Some(v as i32)
            } else {
                r is None
            },
        }),
{
    let ghost tok = text@.subrange(s as int, e as int);
    let b0: u8 = text[s];
    let neg: bool = b0 == 45;
    let ds: usize = if b0 == 45 || b0 == 43 {
        s + 1
    } else {
        s
    };
    proof {
        if ds > s {
            assert(tok.skip(1) =~= text@.subrange(ds as int, e as int));
        } else {
            assert(tok =~= text@.subrange(ds as int, e as int));
        }
    }
    let ghost digits = text@.subrange(ds as int, e as int);
    if ds == e {
        // a bare sign denotes nothing
        return None;
    }
    let mut val: i64 = 0;
    let mut over: bool = false;
    let mut k: usize = ds;
    while k < e
        invariant
            s < e,
            ds <= k <= e,
            e <= text@.len(),
            digits == text@.subrange(ds as int, e as int),
            ds < e,
            ds == s || ds == s + 1,
            (ds == s + 1) <==> (text@[s as int] == 45 || text@[s as int] == 43),
            forall|m: int| 0 <= m < k - ds ==> is_digit(digits[m]),
            !over ==> 0 <= val <= 0x8000_0000 && val == digits_val(
                digits.subrange(0, k - ds),
            ),
            over ==> digits_val(digits.subrange(0, k - ds)) > 0x8000_0000,
        decreases e - k,
    {
        let b: u8 = text[k];
        if b < 48 || b > 57 {
            // a non-digit: the token denotes nothing
            proof {
                let tok2 = text@.subrange(s as int, e as int);
                if ds == s + 1 {
                    assert(tok2.skip(1) =~= digits);
                } else {
                    assert(tok2 =~= digits);
                }
                assert(!is_digit(digits[k - ds]));
            }
            return None;
        }
        proof {
            let m: int = k - ds;
            assert(digits.subrange(0, m + 1).drop_last() =~= digits.subrange(0, m));
            assert(digits.subrange(0, m + 1).last() == digits[m]);
            if over {
                let dv: int = digits_val(digits.subrange(0, m));
                assert(dv * 10 + (digits[m] - 48) > 0x8000_0000) by (nonlinear_arith)
                    requires dv > 0x8000_0000 && digits[m] >= 48;
            }
        }
        if !over {
            val = val * 10 + (b - 48) as i64;
            if val > 0x8000_0000 {
                over = true;
            }
        }
        k = k + 1;
    }
    proof {
        assert(digits.subrange(0, e - ds) =~= digits);
        assert(all_digits(digits));
    }
    if over {
        return None;
    }
    if neg {
        proof {
            assert(-0x8000_0000 <= -val <= 0);
        }
        Some((-val) as i32)
    } else {
        if val > 0x7fff_ffff {
            return None;
        }
        Some(val as i32)
    }
}

/// Read the single line `text[s..e]` as an instruction.
fn parse_line_at(text: &[u8], s: usize, e: usize) -> (r: LineParse)
    requires
        s <= e <= text@.len(),
    ensures
        r == spec_parse_line(text@.subrange(s as int, e as int)),
{
    let ghost line = text@.subrange(s as int, e as int);
    if s == e {
        return LineParse::Blank;
    }
    // leading tabs: the scope depth
    let mut d: usize = s;
    while d < e && text[d] == 9
        invariant
            s <= d <= e,
            e <= text@.len(),
            forall|k: int| s <= k < d ==> text@[k] == 9,
        decreases e - d,
    {
        d = d + 1;
    }
    proof {
        lemma_tab_run(line, 0, d - s);
    }
    let depth: usize = d - s;
    // keyword token
    let mut p: usize = s;
    while p < e && (text[p] == 32 || text[p] == 9)
        invariant
            s <= p <= e,
            e <= text@.len(),
            forall|k: int| s <= k < p ==> is_space(text@[k]),
        decreases e - p,
    {
        p = p + 1;
    }
    proof {
        lemma_ws_run(line, 0, p - s);
    }
    if p == e {
        // only whitespace: no keyword
        return LineParse::Malformed;
    }
    let mut q: usize = p;
    while q < e && !(text[q] == 32 || text[q] == 9)
        invariant
            p <= q <= e,
            e <= text@.len(),
            forall|k: int| p <= k < q ==> !is_space(text@[k]),
        decreases e - q,
    {
        q = q + 1;
    }
    proof {
        lemma_word_run(line, p - s, q - s);
    }
    // argument token
    let mut p2: usize = q;
    while p2 < e && (text[p2] == 32 || text[p2] == 9)
        invariant
            q <= p2 <= e,
            e <= text@.len(),
            forall|k: int| q <= k < p2 ==> is_space(text@[k]),
        decreases e - p2,
    {
        p2 = p2 + 1;
    }
    proof {
        lemma_ws_run(line, q - s, p2 - s);
    }
    if p2 == e {
        // keyword with no argument
        return LineParse::Malformed;
    }
    let mut q2: usize = p2;
    while q2 < e && !(text[q2] == 32 || text[q2] == 9)
        invariant
            p2 <= q2 <= e,
            e <= text@.len(),
            forall|k: int| p2 <= k < q2 ==> !is_space(text@[k]),
        decreases e - q2,
    {
        q2 = q2 + 1;
    }
    proof {
        lemma_word_run(line, p2 - s, q2 - s);
    }
    let ghost kw = line.subrange(p - s, q - s);
    proof {
        assert(forall|k: int| 0 <= k < kw.len() ==> kw[k] == text@[p + k]);
    }
    let is_move: bool = q - p == 4 && text[p] == 109 && text[p + 1] == 111 && text[p + 2] == 118
        && text[p + 3] == 101;
    let is_turn: bool = q - p == 4 && text[p] == 116 && text[p + 1] == 117 && text[p + 2] == 114
        && text[p + 3] == 110;
    let is_repeat: bool = q - p == 6 && text[p] == 114 && text[p + 1] == 101 && text[p + 2] == 112
        && text[p + 3] == 101 && text[p + 4] == 97 && text[p + 5] == 116;
    proof {
        if is_move {
            assert(kw =~= keyword_move());
        }
        if is_turn {
            assert(kw =~= keyword_turn());
        }
        if is_repeat {
            assert(kw =~= keyword_repeat());
        }
    }
    let arg: Option<i32> = parse_int_arg(text, p2, q2);
    proof {
        assert(line.subrange(p2 - s, q2 - s) =~= text@.subrange(p2 as int, q2 as int));
        let s1: int = 0 + ws_run(line, 0) as int;
        let e1: int = s1 + word_run(line, s1) as int;
        let s2: int = e1 + ws_run(line, e1) as int;
        let e2: int = s2 + word_run(line, s2) as int;
        assert(s1 == p - s);
        assert(e1 == q - s);
        assert(s2 == p2 - s);
        assert(e2 == q2 - s);
        assert(line.subrange(s2, e2) == text@.subrange(p2 as int, q2 as int));
        assert(tab_run(line, 0) == depth);
    }
    match arg {
        None => LineParse::Malformed,
        Some(v) => {
            if is_move {
                LineParse::Instr(Command::Move(Scope(depth), v))
            } else if is_turn {
                LineParse::Instr(Command::Turn(Scope(depth), v))
            } else if is_repeat {
                LineParse::Instr(Command::Repeat(Scope(depth), v))
            } else {
                LineParse::Malformed
            }
        },
    }
}

/// Watches one script source through its modification marker and owns the
/// decision whether freshly read text should be re-parsed.
#[derive(Debug, Clone, Copy, PartialEq, Eq, Structural)]
pub struct Script {
    pub last_modified: u128,
}

impl Script {
    pub fn new(last_modified: u128) -> (r: Script)
        ensures
            r.last_modified == last_modified,
    {
        Script { last_modified }
    }

    /// Record a freshly observed modification marker; true exactly when it
    /// differs from the last one seen, i.e. when the text must be re-read.
    pub fn update(&mut self, modified: u128) -> (changed: bool)
        ensures
            changed == (modified != old(self).last_modified),
            final(self).last_modified == modified,
    {
        let changed: bool = modified != self.last_modified;
        if changed {
            self.last_modified = modified;
        }
        changed
    }

    /// Turn script text into its command sequence: one instruction per
    /// non-empty line. On failure nothing is produced, and the error names
    /// the first offending instruction line; the caller keeps whatever
    /// sequence it was using before.
    pub fn parse(text: &[u8]) -> (r: Result<Vec<Command>, ParseError>)
        ensures
            (match (r, spec_parse(text@)) {
                (Ok(cs), Ok(ss)) => cs@ == ss,
                (Err(pe), Err(n)) => pe.line == n,
                _ => false,
            }),
    {
        let mut cmds: Vec<Command> = Vec::new();
        let mut n: usize = 0;
        let mut i: usize = 0;
        while i < text.len()
            invariant
                i <= text@.len(),
                n <= i,
                cmds@.len() <= i,
                (match spec_parse_lines(spec_lines_from(text@, i as int), n as int) {
                    Ok(rest) => spec_parse(text@) == Ok::<Seq<Command>, int>(cmds@ + rest),
                    Err(e) => spec_parse(text@) == Err::<Seq<Command>, int>(e),
                }),
            decreases text@.len() - i,
        {
            // find the end of the current line
            let mut j: usize = i;
            while j < text.len() && text[j] != 10
                invariant
                    i <= j <= text@.len(),
                    forall|k: int| i <= k < j ==> text@[k] != 10,
                decreases text@.len() - j,
            {
                j = j + 1;
            }
            proof {
                lemma_nl_dist(text@, i as int, j as int);
            }
            // drop a trailing carriage return from the line
            let e: usize = if j > i && text[j - 1] == 13 {
                j - 1
            } else {
                j
            };
            proof {
                assert(strip_cr(text@.subrange(i as int, j as int)) =~= text@.subrange(
                    i as int,
                    e as int,
                ));
            }
            let next: usize = if j < text.len() {
                j + 1
            } else {
                j
            };
            let ghost rest_lines = spec_lines_from(text@, next as int);
            proof {
                assert(spec_lines_from(text@, i as int) == seq![
                    text@.subrange(i as int, e as int),
                ] + rest_lines);
                assert((seq![text@.subrange(i as int, e as int)] + rest_lines).skip(1)
                    =~= rest_lines);
            }
            match parse_line_at(text, i, e) {
                LineParse::Blank => {
                },
                LineParse::Malformed => {
                    return Err(ParseError { line: n });
                },
                LineParse::Instr(c) => {
                    proof {
                        (match spec_parse_lines(rest_lines, n as int + 1) {
                            Ok(rest) => {
                                assert(cmds@ + (seq![c] + rest) =~= (cmds@.push(c)) + rest);
                            },
                            Err(_e) => {
                            },
                        });
                    }
                    cmds.push(c);
                    n = n + 1;
                },
            }
            i = next;
        }
        Ok(cmds)
    }
}

} // verus!
