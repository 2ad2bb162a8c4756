use std::ops::Range;
use std::rc::Rc;
use std::string::FromUtf8Error;
use vstd::prelude::*;
use vstd::string::StringSliceAdditionalSpecFns;
use vstd::utf8::*;
use vstd::cell::invcell::InvCell;
use vstd::predicate::Predicate;

use crate::lua_table::{
    lua_create_table, lua_globals, lua_table_set, writes_view, LuaSlot, SlotKind, TableRole,
    TableWrite,
};

use crate::diagnostic::{
    diagnostics_view, Diagnostic, DiagnosticKind, DiagnosticKindView, DiagnosticView,
};

verus! {

/// Byte values the scanner looks at.
pub const PERCENT: u8 = 0x25;
pub const LOWER_L: u8 = 0x6c;
pub const LOWER_U: u8 = 0x75;
pub const LOWER_A: u8 = 0x61;
pub const OPEN_BRACE: u8 = 0x7b;
pub const CLOSE_BRACE: u8 = 0x7d;
pub const SPACE: u8 = 0x20;
pub const TAB: u8 = 0x09;
pub const NEWLINE: u8 = 0x0a;
pub const FORM_FEED: u8 = 0x0c;
pub const CARRIAGE_RETURN: u8 = 0x0d;
pub const DOUBLE_QUOTE: u8 = 0x22;
pub const SINGLE_QUOTE: u8 = 0x27;
pub const BACKSLASH: u8 = 0x5c;
pub const DASH: u8 = 0x2d;
pub const OPEN_BRACKET: u8 = 0x5b;
pub const CLOSE_BRACKET: u8 = 0x5d;
pub const EQUALS: u8 = 0x3d;

/// Length in bytes of the `%lua` directive.
pub const DIRECTIVE_LEN: usize = 4;

/// The bytes of the `%lua` directive.
pub open spec fn directive_bytes() -> Seq<u8> {
    seq![PERCENT, LOWER_L, LOWER_U, LOWER_A]
}

/// ASCII whitespace as Rust's `u8::is_ascii_whitespace` defines it.
pub open spec fn is_ascii_ws(b: u8) -> bool {
    b == SPACE || b == TAB || b == NEWLINE || b == FORM_FEED || b == CARRIAGE_RETURN
}

/// A `%lua` directive starts at `i`: it begins a line, is spelled `%lua`, and is
/// followed by whitespace or an opening brace.
pub open spec fn is_directive_at(b: Seq<u8>, i: int) -> bool {
    &&& 0 <= i
    &&& i + 4 < b.len()
    &&& b.subrange(i, i + 4) == directive_bytes()
    &&& (i == 0 || b[i - 1] == NEWLINE)
    &&& (is_ascii_ws(b[i + 4]) || b[i + 4] == OPEN_BRACE)
}

fn byte_is_ascii_ws(b: u8) -> (r: bool)
    ensures
        r == is_ascii_ws(b),
{
    b == SPACE || b == TAB || b == NEWLINE || b == FORM_FEED || b == CARRIAGE_RETURN
}

/// The first directive at or after `from`.
pub open spec fn next_directive(b: Seq<u8>, from: int) -> Option<int>
    decreases b.len() - from,
{
    if from < 0 || from >= b.len() {
        None
    } else if is_directive_at(b, from) {
        Some(from)
    } else {
        next_directive(b, from + 1)
    }
}

pub proof fn lemma_next_directive(b: Seq<u8>, from: int)
    requires
        0 <= from,
    ensures
        match next_directive(b, from) {
            Some(i) => from <= i && is_directive_at(b, i) && forall|j: int|
                from <= j < i ==> !is_directive_at(b, j),
            None => forall|j: int| from <= j ==> !is_directive_at(b, j),
        },
    decreases b.len() - from,
{
    if from < b.len() && !is_directive_at(b, from) {
        lemma_next_directive(b, from + 1);
    }
}

/// Finds the first `%lua` directive at or after byte `from`.
pub fn find_next_lua_directive(bytes: &[u8], from: usize) -> (r: Option<usize>)
    ensures
        r == (match next_directive(bytes@, from as int) {
            Some(i) => Some(i as usize),
            None => None,
        }),
        match r {
            Some(i) => from <= i && is_directive_at(bytes@, i as int) && forall|j: int|
                from <= j < i ==> !is_directive_at(bytes@, j),
            None => forall|j: int| from <= j ==> !is_directive_at(bytes@, j),
        },
{
    proof {
        lemma_next_directive(bytes@, from as int);
    }
    let mut i = from;
    while i < bytes.len() && bytes.len() - i > DIRECTIVE_LEN
        invariant
            from <= i,
            forall|j: int| from <= j < i ==> !is_directive_at(bytes@, j),
        decreases bytes.len() - i,
    {
        if bytes[i] == PERCENT && (i == 0 || bytes[i - 1] == NEWLINE) && bytes[i + 1] == LOWER_L
            && bytes[i + 2] == LOWER_U && bytes[i + 3] == LOWER_A && (byte_is_ascii_ws(bytes[i + 4])
            || bytes[i + 4] == OPEN_BRACE) {
            assert(bytes@.subrange(i as int, i + 4) =~= directive_bytes());
            assert(is_directive_at(bytes@, i as int));
            proof {
                lemma_next_directive(bytes@, from as int);
            }
            return Some(i);
        }
        assert(!is_directive_at(bytes@, i as int)) by {
            if is_directive_at(bytes@, i as int) {
                assert(bytes@.subrange(i as int, i + 4)[1] == LOWER_L);
                assert(bytes@.subrange(i as int, i + 4)[0] == PERCENT);
                assert(bytes@.subrange(i as int, i + 4)[2] == LOWER_U);
                assert(bytes@.subrange(i as int, i + 4)[3] == LOWER_A);
            }
        }
        i = i + 1;
    }
    None
}


/// Where a Lua quoted string that opened with `quote` ends, scanning from `i`:
/// the byte just after the closing quote. A backslash escapes the next byte.
pub open spec fn quoted_end(b: Seq<u8>, quote: u8, i: int) -> Option<int>
    decreases b.len() - i,
{
    if i < 0 || i >= b.len() {
        None
    } else if b[i] == BACKSLASH {
        if i + 2 <= b.len() {
            quoted_end(b, quote, i + 2)
        } else {
            None
        }
    } else if b[i] == quote {
        Some(i + 1)
    } else {
        quoted_end(b, quote, i + 1)
    }
}

/// The first index at or after `i` that is not an `=` byte.
pub open spec fn equals_run_end(b: Seq<u8>, i: int) -> int
    decreases b.len() - i,
{
    if 0 <= i < b.len() && b[i] == EQUALS {
        equals_run_end(b, i + 1)
    } else {
        i
    }
}

/// A long-bracket closer of level `level` (`]`, `level` times `=`, `]`) starts at `i`.
pub open spec fn closer_at(b: Seq<u8>, i: int, level: int) -> bool {
    &&& 0 <= i
    &&& i + level + 2 <= b.len()
    &&& b[i] == CLOSE_BRACKET
    &&& forall|k: int| i + 1 <= k < i + 1 + level ==> b[k] == EQUALS
    &&& b[i + 1 + level] == CLOSE_BRACKET
}

/// The end (exclusive) of the first closer of level `level` at or after `i`.
pub open spec fn closer_search(b: Seq<u8>, i: int, level: int) -> Option<int>
    decreases b.len() - i,
{
    if i < 0 || i >= b.len() {
        None
    } else if closer_at(b, i, level) {
        Some(i + level + 2)
    } else {
        closer_search(b, i + 1, level)
    }
}

/// Where a Lua long bracket (`[[ ... ]]`, `[=[ ... ]=]`, ...) that opens at `start` ends:
/// the byte just after its matching closer.
pub open spec fn long_bracket_end(b: Seq<u8>, start: int) -> Option<int> {
    if 0 <= start < b.len() && b[start] == OPEN_BRACKET {
        let k = equals_run_end(b, start + 1);
        if k < b.len() && b[k] == OPEN_BRACKET {
            closer_search(b, k + 1, k - start - 1)
        } else {
            None
        }
    } else {
        None
    }
}

/// The first index at or after `i` that holds a newline, or the length.
pub open spec fn line_end(b: Seq<u8>, i: int) -> int
    decreases b.len() - i,
{
    if 0 <= i < b.len() && b[i] != NEWLINE {
        line_end(b, i + 1)
    } else {
        i
    }
}

pub proof fn lemma_quoted_end_after(b: Seq<u8>, quote: u8, i: int)
    ensures
        quoted_end(b, quote, i) matches Some(e) ==> i < e <= b.len(),
    decreases b.len() - i,
{
    if 0 <= i < b.len() {
        if b[i] == BACKSLASH {
            if i + 2 <= b.len() {
                lemma_quoted_end_after(b, quote, i + 2);
            }
        } else if b[i] != quote {
            lemma_quoted_end_after(b, quote, i + 1);
        }
    }
}

pub proof fn lemma_equals_run_end(b: Seq<u8>, i: int)
    ensures
        i <= equals_run_end(b, i),
        0 <= i ==> equals_run_end(b, i) <= b.len() || equals_run_end(b, i) == i,
        forall|k: int| i <= k < equals_run_end(b, i) ==> b[k] == EQUALS,
        0 <= i ==> equals_run_end(b, i) >= b.len() || b[equals_run_end(b, i)] != EQUALS,
    decreases b.len() - i,
{
    if 0 <= i < b.len() && b[i] == EQUALS {
        lemma_equals_run_end(b, i + 1);
    }
}

pub proof fn lemma_closer_search_after(b: Seq<u8>, i: int, level: int)
    requires
        level >= 0,
    ensures
        closer_search(b, i, level) matches Some(e) ==> i < e <= b.len() && closer_at(
            b,
            e - level - 2,
            level,
        ) && i <= e - level - 2,
    decreases b.len() - i,
{
    if 0 <= i < b.len() && !closer_at(b, i, level) {
        lemma_closer_search_after(b, i + 1, level);
    }
}

pub proof fn lemma_long_bracket_end_after(b: Seq<u8>, start: int)
    ensures
        long_bracket_end(b, start) matches Some(e) ==> start < e <= b.len() && b[e - 1]
            == CLOSE_BRACKET,
{
    if 0 <= start < b.len() && b[start] == OPEN_BRACKET {
        lemma_equals_run_end(b, start + 1);
        let k = equals_run_end(b, start + 1);
        if k < b.len() && b[k] == OPEN_BRACKET {
            lemma_closer_search_after(b, k + 1, k - start - 1);
        }
    }
}

pub proof fn lemma_line_end(b: Seq<u8>, i: int)
    ensures
        i <= line_end(b, i),
        0 <= i <= b.len() ==> line_end(b, i) <= b.len(),
        forall|k: int| i <= k < line_end(b, i) ==> b[k] != NEWLINE,
        0 <= i ==> line_end(b, i) >= b.len() || b[line_end(b, i)] == NEWLINE,
    decreases b.len() - i,
{
    if 0 <= i < b.len() && b[i] != NEWLINE {
        lemma_line_end(b, i + 1);
    }
}

/// Scans a Lua block body from `i` with `depth` unclosed braces, skipping quoted
/// strings, comments and long brackets, and yields the index of the brace that
/// closes the block.
pub open spec fn brace_scan(b: Seq<u8>, i: int, depth: nat) -> Option<int>
    decreases b.len() - i,
{
    if i < 0 || i >= b.len() || depth == 0 {
        None
    } else if b[i] == SINGLE_QUOTE || b[i] == DOUBLE_QUOTE {
        match quoted_end(b, b[i], i + 1) {
            Some(j) => {
                proof {
                    lemma_quoted_end_after(b, b[i], i + 1);
                }
                brace_scan(b, j, depth)
            },
            None => None,
        }
    } else if b[i] == DASH && i + 1 < b.len() && b[i + 1] == DASH {
        match long_bracket_end(b, i + 2) {
            Some(e) => {
                proof {
                    lemma_long_bracket_end_after(b, i + 2);
                }
                brace_scan(b, e, depth)
            },
            None => {
                proof {
                    lemma_line_end(b, i + 2);
                }
                brace_scan(b, line_end(b, i + 2), depth)
            },
        }
    } else if b[i] == OPEN_BRACKET {
        match long_bracket_end(b, i) {
            Some(e) => {
                proof {
                    lemma_long_bracket_end_after(b, i);
                }
                brace_scan(b, e, depth)
            },
            None => brace_scan(b, i + 1, depth),
        }
    } else if b[i] == OPEN_BRACE {
        brace_scan(b, i + 1, depth + 1)
    } else if b[i] == CLOSE_BRACE {
        if depth == 1 {
            Some(i)
        } else {
            brace_scan(b, i + 1, (depth - 1) as nat)
        }
    } else {
        brace_scan(b, i + 1, depth)
    }
}


/// Skips a quoted Lua string whose opening quote is at `start`; yields the index
/// just after the closing quote.
fn skip_quoted(bytes: &[u8], start: usize) -> (r: Option<usize>)
    requires
        start < bytes@.len(),
    ensures
        r matches Some(e) ==> e <= bytes@.len(),
        r == (match quoted_end(bytes@, bytes@[start as int], start + 1) {
            Some(e) => Some(e as usize),
            None => None,
        }),
{
    let quote = bytes[start];
    let mut i = start + 1;
    proof {
        lemma_quoted_end_after(bytes@, quote, i as int);
    }
    while i < bytes.len()
        invariant
            i <= bytes@.len(),
            quote == bytes@[start as int],
            quoted_end(bytes@, quote, i as int) == quoted_end(bytes@, quote, start + 1),
        decreases bytes.len() - i,
    {
        if bytes[i] == BACKSLASH {
            if bytes.len() - i >= 2 {
                i = i + 2;
            } else {
                return None;
            }
        } else if bytes[i] == quote {
            return Some(i + 1);
        } else {
            i = i + 1;
        }
    }
    None
}

/// If `start` points at a Lua long-bracket string/comment opener (`[[` or
/// `[=[` etc.), returns the index just after its matching closer.
fn skip_long_bracket(bytes: &[u8], start: usize) -> (r: Option<usize>)
    ensures
        r matches Some(e) ==> e <= bytes@.len(),
        r == (match long_bracket_end(bytes@, start as int) {
            Some(e) => Some(e as usize),
            None => None,
        }),
{
    proof {
        lemma_long_bracket_end_after(bytes@, start as int);
    }
    if start >= bytes.len() || bytes[start] != OPEN_BRACKET {
        return None;
    }
    let mut i = start + 1;
    let mut equals: usize = 0;
    while i < bytes.len() && bytes[i] == EQUALS
        invariant
            start < i <= bytes@.len(),
            equals == i - start - 1,
            equals_run_end(bytes@, i as int) == equals_run_end(bytes@, start + 1),
        decreases bytes.len() - i,
    {
        equals = equals + 1;
        i = i + 1;
    }
    if i >= bytes.len() || bytes[i] != OPEN_BRACKET {
        return None;
    }
    i = i + 1;
    let ghost level = equals as int;
    while i < bytes.len()
        invariant
            i <= bytes@.len(),
            level == equals,
            closer_search(bytes@, i as int, level) == long_bracket_end(bytes@, start as int),
        decreases bytes.len() - i,
    {
        if bytes[i] == CLOSE_BRACKET {
            let mut j = i + 1;
            let mut seen: usize = 0;
            while seen < equals && j < bytes.len() && bytes[j] == EQUALS
                invariant
                    i < j <= bytes@.len(),
                    seen <= equals,
                    j == i + 1 + seen,
                    forall|k: int| i + 1 <= k < j ==> bytes@[k] == EQUALS,
                decreases equals - seen,
            {
                seen = seen + 1;
                j = j + 1;
            }
            if seen == equals && j < bytes.len() && bytes[j] == CLOSE_BRACKET {
                assert(closer_at(bytes@, i as int, level));
                return Some(j + 1);
            }
            assert(!closer_at(bytes@, i as int, level)) by {
                if closer_at(bytes@, i as int, level) {
                    if seen < equals {
                        assert(bytes@[j as int] == EQUALS);
                    }
                }
            }
        }
        i = i + 1;
    }
    None
}

/// Finds the brace that closes the Lua block opened by the brace at `open`.
fn find_matching_brace(bytes: &[u8], open: usize) -> (r: Option<usize>)
    ensures
        r == (match brace_scan(bytes@, open + 1, 1) {
            Some(c) => Some(c as usize),
            None => None,
        }),
{
    if open >= bytes.len() {
        return None;
    }
    let mut i = open + 1;
    let mut depth: usize = 1;
    while i < bytes.len()
        invariant
            open < i <= bytes@.len(),
            1 <= depth <= i - open,
            brace_scan(bytes@, i as int, depth as nat) == brace_scan(bytes@, open + 1, 1),
        decreases bytes.len() - i,
    {
        let c = bytes[i];
        if c == SINGLE_QUOTE || c == DOUBLE_QUOTE {
            match skip_quoted(bytes, i) {
                Some(j) => {
                    proof {
                        lemma_quoted_end_after(bytes@, c, i + 1);
                    }
                    i = j;
                },
                None => {
                    return None;
                },
            }
        } else if c == DASH && i + 1 < bytes.len() && bytes[i + 1] == DASH {
            proof {
                lemma_long_bracket_end_after(bytes@, i + 2);
                lemma_line_end(bytes@, i + 2);
            }
            match skip_long_bracket(bytes, i + 2) {
                Some(e) => {
                    i = e;
                },
                None => {
                    let ghost from = i + 2;
                    i = i + 2;
                    while i < bytes.len() && bytes[i] != NEWLINE
                        invariant
                            from <= i <= bytes@.len(),
                            open < from,
                            1 <= depth <= from - open,
                            line_end(bytes@, i as int) == line_end(bytes@, from),
                        decreases bytes.len() - i,
                    {
                        i = i + 1;
                    }
                },
            }
        } else if c == OPEN_BRACKET {
            proof {
                lemma_long_bracket_end_after(bytes@, i as int);
            }
            match skip_long_bracket(bytes, i) {
                Some(e) => {
                    i = e;
                },
                None => {
                    i = i + 1;
                },
            }
        } else if c == OPEN_BRACE {
            depth = depth + 1;
            i = i + 1;
        } else if c == CLOSE_BRACE {
            depth = depth - 1;
            if depth == 0 {
                return Some(i);
            }
            i = i + 1;
        } else {
            i = i + 1;
        }
    }
    None
}


/// The first index at or after `i` that is not a space, tab or carriage return.
pub open spec fn blank_end(b: Seq<u8>, i: int) -> int
    decreases b.len() - i,
{
    if 0 <= i < b.len() && (b[i] == SPACE || b[i] == TAB || b[i] == CARRIAGE_RETURN) {
        blank_end(b, i + 1)
    } else {
        i
    }
}

pub proof fn lemma_blank_end(b: Seq<u8>, i: int)
    ensures
        i <= blank_end(b, i),
        0 <= i <= b.len() ==> blank_end(b, i) <= b.len(),
    decreases b.len() - i,
{
    if 0 <= i < b.len() && (b[i] == SPACE || b[i] == TAB || b[i] == CARRIAGE_RETURN) {
        lemma_blank_end(b, i + 1);
    }
}

pub proof fn lemma_brace_scan_bounds(b: Seq<u8>, i: int, depth: nat)
    ensures
        brace_scan(b, i, depth) matches Some(c) ==> i <= c < b.len() && b[c] == CLOSE_BRACE,
    decreases b.len() - i,
{
    if !(i < 0 || i >= b.len() || depth == 0) {
        if b[i] == SINGLE_QUOTE || b[i] == DOUBLE_QUOTE {
            lemma_quoted_end_after(b, b[i], i + 1);
            if let Some(j) = quoted_end(b, b[i], i + 1) {
                lemma_brace_scan_bounds(b, j, depth);
            }
        } else if b[i] == DASH && i + 1 < b.len() && b[i + 1] == DASH {
            lemma_long_bracket_end_after(b, i + 2);
            lemma_line_end(b, i + 2);
            match long_bracket_end(b, i + 2) {
                Some(e) => lemma_brace_scan_bounds(b, e, depth),
                None => lemma_brace_scan_bounds(b, line_end(b, i + 2), depth),
            }
        } else if b[i] == OPEN_BRACKET {
            lemma_long_bracket_end_after(b, i);
            match long_bracket_end(b, i) {
                Some(e) => lemma_brace_scan_bounds(b, e, depth),
                None => lemma_brace_scan_bounds(b, i + 1, depth),
            }
        } else if b[i] == OPEN_BRACE {
            lemma_brace_scan_bounds(b, i + 1, depth + 1);
        } else if b[i] == CLOSE_BRACE {
            if depth != 1 {
                lemma_brace_scan_bounds(b, i + 1, (depth - 1) as nat);
            }
        } else {
            lemma_brace_scan_bounds(b, i + 1, depth);
        }
    }
}

/// How the text after a `%lua` directive at `start` reads.
pub enum BlockParse {
    /// A block whose body lies between the braces at `open` and `close`.
    Block { open: int, close: int },
    /// No `{` follows the directive; the error covers `start..end`.
    MissingBrace { end: int },
    /// The block opens but never closes.
    Unterminated,
}

pub open spec fn parse_block_spec(b: Seq<u8>, start: int) -> BlockParse {
    let open = blank_end(b, start + 4);
    if open < b.len() && b[open] == OPEN_BRACE {
        match brace_scan(b, open + 1, 1) {
            Some(close) => BlockParse::Block { open, close },
            None => BlockParse::Unterminated,
        }
    } else {
        let end = line_end(b, start);
        BlockParse::MissingBrace { end: if end < start + 4 { start + 4 } else { end } }
    }
}

/// The diagnostic a malformed block at `start` yields.
pub open spec fn block_error_view(b: Seq<u8>, start: int) -> DiagnosticView {
    match parse_block_spec(b, start) {
        BlockParse::MissingBrace { end } => DiagnosticView {
            kind: DiagnosticKindView::IoError {
                message: "expected `\u{7b}` after `%lua`"@,
                help: Some("use `%lua { ... }` with the directive at the start of a line"@),
            },
            start,
            end,
        },
        _ => DiagnosticView {
            kind: DiagnosticKindView::IoError {
                message: "unterminated `%lua` block"@,
                help: Some("add the closing `\u{7d}` for the compile-time Lua block"@),
            },
            start,
            end: b.len() as int,
        },
    }
}

/// A `%lua { ... }` block: the whole directive and the Lua code between its braces.
pub struct LuaBlock {
    pub full_span: Range<usize>,
    pub body_span: Range<usize>,
}

/// Builds the diagnostic for a compile-time Lua failure.
fn lua_error(message: String, span: Range<usize>, help: Option<String>) -> (d: Diagnostic)
    ensures
        d@ == (DiagnosticView {
            kind: DiagnosticKindView::IoError {
                message: message@,
                help: match help {
                    Some(h) => Some(h@),
                    None => None,
                },
            },
            start: span.start as int,
            end: span.end as int,
        }),
{
    Diagnostic { kind: DiagnosticKind::IoError { message, help }, span }
}

/// Reads the block that the `%lua` directive at `start` opens.
pub fn parse_block(bytes: &[u8], start: usize) -> (r: Result<LuaBlock, Diagnostic>)
    requires
        start <= bytes@.len(),
        start + DIRECTIVE_LEN <= usize::MAX,
    ensures
        match parse_block_spec(bytes@, start as int) {
            BlockParse::Block { open, close } => r matches Ok(block) && block.full_span.start
                == start && block.full_span.end == close + 1 && block.body_span.start == open + 1
                && block.body_span.end == close,
            _ => r matches Err(d) && d@ == block_error_view(bytes@, start as int),
        },
{
    let mut i = start + DIRECTIVE_LEN;
    proof {
        lemma_blank_end(bytes@, i as int);
    }
    while i < bytes.len() && (bytes[i] == SPACE || bytes[i] == TAB || bytes[i] == CARRIAGE_RETURN)
        invariant
            start + 4 <= i,
            i <= bytes@.len() || i == start + 4,
            start <= bytes@.len(),
            blank_end(bytes@, i as int) == blank_end(bytes@, start + 4),
        decreases bytes.len() - i,
    {
        i = i + 1;
    }
    if i >= bytes.len() || bytes[i] != OPEN_BRACE {
        let mut end = start;
        proof {
            lemma_line_end(bytes@, start as int);
        }
        while end < bytes.len() && bytes[end] != NEWLINE
            invariant
                start <= end <= bytes@.len(),
                line_end(bytes@, end as int) == line_end(bytes@, start as int),
            decreases bytes.len() - end,
        {
            end = end + 1;
        }
        let stop = if end < start + DIRECTIVE_LEN { start + DIRECTIVE_LEN } else { end };
        return Err(lua_error(
            String::from_str("expected `\u{7b}` after `%lua`"),
            start..stop,
            Some(String::from_str("use `%lua { ... }` with the directive at the start of a line")),
        ));
    }
    let open = i;
    match find_matching_brace(bytes, open) {
        Some(close) => {
            proof {
                lemma_brace_scan_bounds(bytes@, open + 1, 1);
            }
            Ok(LuaBlock { full_span: start..close + 1, body_span: open + 1..close })
        },
        None => Err(lua_error(
            String::from_str("unterminated `%lua` block"),
            start..bytes.len(),
            Some(String::from_str("add the closing `\u{7d}` for the compile-time Lua block")),
        )),
    }
}


/// The blocks found from `cursor` on, each as `(start, open, close)`: the index of
/// `%`, of the opening brace and of the closing brace; and, if scanning stopped at
/// a malformed directive, that directive's start.
pub open spec fn scan_blocks(b: Seq<u8>, cursor: int) -> (Seq<(int, int, int)>, Option<int>)
    decreases b.len() - cursor,
{
    if cursor < 0 || cursor > b.len() {
        (seq![], None)
    } else {
        match next_directive(b, cursor) {
            None => (seq![], None),
            Some(s) => match parse_block_spec(b, s) {
                BlockParse::Block { open, close } => {
                    proof {
                        lemma_next_directive(b, cursor);
                        lemma_blank_end(b, s + 4);
                        lemma_brace_scan_bounds(b, open + 1, 1);
                    }
                    let rest = scan_blocks(b, close + 1);
                    (seq![(s, open, close)] + rest.0, rest.1)
                },
                _ => (seq![], Some(s)),
            },
        }
    }
}

/// The shape every scanned block has: a directive at its start, braces at its
/// ends, and blocks in increasing, non-overlapping order after `cursor`.
pub open spec fn blocks_well_placed(b: Seq<u8>, blocks: Seq<(int, int, int)>, cursor: int) -> bool {
    &&& forall|k: int|
        0 <= k < blocks.len() ==> {
            let (s, o, c) = #[trigger] blocks[k];
            &&& cursor <= s
            &&& is_directive_at(b, s)
            &&& s + 4 <= o < c < b.len()
            &&& b[o] == OPEN_BRACE
            &&& b[c] == CLOSE_BRACE
        }
    &&& forall|k: int, m: int|
        0 <= k < m < blocks.len() ==> (#[trigger] blocks[k]).2 < (#[trigger] blocks[m]).0
}

pub proof fn lemma_scan_blocks_well_placed(b: Seq<u8>, cursor: int)
    requires
        0 <= cursor,
    ensures
        blocks_well_placed(b, scan_blocks(b, cursor).0, cursor),
        scan_blocks(b, cursor).1 matches Some(s) ==> cursor <= s && is_directive_at(b, s),
    decreases b.len() - cursor,
{
    if cursor <= b.len() {
        lemma_next_directive(b, cursor);
        if let Some(s) = next_directive(b, cursor) {
            if let BlockParse::Block { open, close } = parse_block_spec(b, s) {
                lemma_blank_end(b, s + 4);
                lemma_brace_scan_bounds(b, open + 1, 1);
                lemma_scan_blocks_well_placed(b, close + 1);
                let rest = scan_blocks(b, close + 1).0;
                let all = seq![(s, open, close)] + rest;
                assert forall|k: int| 0 <= k < all.len() implies {
                    let (s2, o2, c2) = #[trigger] all[k];
                    &&& cursor <= s2
                    &&& is_directive_at(b, s2)
                    &&& s2 + 4 <= o2 < c2 < b.len()
                    &&& b[o2] == OPEN_BRACE
                    &&& b[c2] == CLOSE_BRACE
                } by {
                    if k > 0 {
                        assert(all[k] == rest[k - 1]);
                    }
                }
                assert forall|k: int, m: int| 0 <= k < m < all.len() implies (#[trigger] all[k]).2
                    < (#[trigger] all[m]).0 by {
                    assert(all[m] == rest[m - 1]);
                    if k > 0 {
                        assert(all[k] == rest[k - 1]);
                    }
                }
            }
        }
    }
}

/// The view of a block as `(start, open, close)`.
pub open spec fn block_view(block: LuaBlock) -> (int, int, int) {
    (
        block.full_span.start as int,
        block.body_span.start - 1,
        block.body_span.end as int,
    )
}

/// A block's spans agree with each other: the body sits between the braces that
/// end the whole directive.
pub open spec fn block_spans_agree(block: LuaBlock) -> bool {
    &&& block.full_span.start < block.body_span.start
    &&& block.body_span.end + 1 == block.full_span.end
    &&& block.body_span.start <= block.body_span.end
}

/// The outcome of scanning a source for `%lua` blocks.
pub struct LuaScan {
    pub blocks: Vec<LuaBlock>,
    pub error: Option<Diagnostic>,
}

/// Finds every well-formed `%lua { ... }` block, in source order, up to the first
/// malformed one, which is reported.
pub fn scan_lua_blocks(bytes: &[u8]) -> (r: LuaScan)
    ensures
        r.blocks@.len() == scan_blocks(bytes@, 0).0.len(),
        forall|k: int|
            0 <= k < r.blocks@.len() ==> block_view(#[trigger] r.blocks@[k]) == scan_blocks(
                bytes@,
                0,
            ).0[k] && block_spans_agree(r.blocks@[k]),
        match scan_blocks(bytes@, 0).1 {
            Some(s) => r.error matches Some(d) && d@ == block_error_view(bytes@, s),
            None => r.error is None,
        },
{
    let mut blocks: Vec<LuaBlock> = Vec::new();
    let mut cursor: usize = 0;
    let ghost all = scan_blocks(bytes@, 0);
    proof {
        lemma_scan_blocks_well_placed(bytes@, 0);
    }
    loop
        invariant
            cursor <= bytes@.len(),
            all == scan_blocks(bytes@, 0),
            blocks@.len() + scan_blocks(bytes@, cursor as int).0.len() == all.0.len(),
            forall|k: int|
                0 <= k < blocks@.len() ==> block_view(#[trigger] blocks@[k]) == all.0[k]
                    && block_spans_agree(blocks@[k]),
            forall|k: int|
                0 <= k < scan_blocks(bytes@, cursor as int).0.len() ==> all.0[blocks@.len() + k]
                    == #[trigger] scan_blocks(bytes@, cursor as int).0[k],
            scan_blocks(bytes@, cursor as int).1 == all.1,
        decreases bytes@.len() - cursor,
    {
        let ghost rest = scan_blocks(bytes@, cursor as int);
        match find_next_lua_directive(bytes, cursor) {
            None => {
                assert(rest.0.len() == 0);
                assert(rest.1 is None);
                return LuaScan { blocks, error: None };
            },
            Some(start) => {
                proof {
                    lemma_next_directive(bytes@, cursor as int);
                }
                let len = bytes.len();
                assert(start + DIRECTIVE_LEN < len);
                match parse_block(bytes, start) {
                    Ok(block) => {
                        let ghost (s, o, c) = rest.0[0];
                        let next = block.full_span.end;
                        proof {
                            lemma_blank_end(bytes@, start + 4);
                            lemma_brace_scan_bounds(bytes@, o + 1, 1);
                            assert(rest.0 =~= seq![(s, o, c)] + scan_blocks(bytes@, next as int).0);
                            assert(all.0[blocks@.len() as int] == rest.0[0]);
                        }
                        blocks.push(block);
                        proof {
                            assert forall|k: int|
                                0 <= k < scan_blocks(bytes@, next as int).0.len() implies all.0[blocks@.len() + k]
                                    == #[trigger] scan_blocks(bytes@, next as int).0[k] by {
                                assert(rest.0[k + 1] == scan_blocks(bytes@, next as int).0[k]);
                            }
                        }
                        cursor = next;
                    },
                    Err(d) => {
                        assert(rest.0.len() == 0);
                        assert(rest.1 == Some(start as int));
                        return LuaScan { blocks, error: Some(d) };
                    },
                }
            },
        }
    }
}


/// Byte `i` lies in one of the first `n` blocks (directive and braces included).
pub open spec fn in_blocks(blocks: Seq<(int, int, int)>, n: int, i: int) -> bool {
    exists|j: int| 0 <= j < n && (#[trigger] blocks[j]).0 <= i <= blocks[j].2
}

/// The source with every byte of every block, newlines aside, replaced by a space.
pub open spec fn masked_bytes(b: Seq<u8>, blocks: Seq<(int, int, int)>) -> Seq<u8> {
    masked_prefix(b, blocks, blocks.len() as int)
}

/// The source with the first `n` blocks masked.
pub open spec fn masked_prefix(b: Seq<u8>, blocks: Seq<(int, int, int)>, n: int) -> Seq<u8> {
    Seq::new(
        b.len(),
        |i: int|
            if in_blocks(blocks, n, i) && b[i] != NEWLINE {
                SPACE
            } else {
                b[i]
            },
    )
}

/// Masking keeps every source position: the masked text is as long as the
/// source and has its newlines where the source has them; bytes outside the
/// blocks are unchanged, and every other byte inside a block is a space.
pub proof fn lemma_masking_keeps_positions(b: Seq<u8>, blocks: Seq<(int, int, int)>)
    ensures
        masked_bytes(b, blocks).len() == b.len(),
        forall|i: int|
            0 <= i < b.len() ==> (#[trigger] masked_bytes(b, blocks)[i] == NEWLINE <==> b[i]
                == NEWLINE),
        forall|i: int|
            0 <= i < b.len() && !in_blocks(blocks, blocks.len() as int, i) ==> #[trigger] masked_bytes(
                b,
                blocks,
            )[i] == b[i],
        forall|i: int|
            0 <= i < b.len() && in_blocks(blocks, blocks.len() as int, i) && b[i] != NEWLINE
                ==> #[trigger] masked_bytes(b, blocks)[i] == SPACE,
{
}

/// Replacing the bytes of `m` between two ASCII bytes by ASCII bytes keeps it UTF-8.
proof fn lemma_splice_ascii_valid(m: Seq<u8>, s: int, e: int, x: Seq<u8>)
    requires
        valid_utf8(m),
        0 <= s < e <= m.len(),
        m[s] < 0x80,
        m[e - 1] < 0x80,
        x.len() == e - s,
        forall|i: int| 0 <= i < x.len() ==> #[trigger] x[i] < 0x80,
    ensures
        valid_utf8(m.subrange(0, s) + x + m.subrange(e, m.len() as int)),
{
    is_char_boundary_iff_is_leading_byte(m, s);
    valid_utf8_split(m, s);
    is_char_boundary_iff_is_leading_byte(m, e - 1);
    valid_utf8_split(m, e - 1);
    let t = m.subrange(e - 1, m.len() as int);
    assert(is_leading_byte_width_1(t[0]));
    assert(pop_first_scalar(t) =~= m.subrange(e, m.len() as int));
    assert(valid_utf8(m.subrange(e, m.len() as int)));
    assert(valid_utf8(x)) by {
        assert(x.subrange(0, 0) =~= Seq::<u8>::empty());
        assert(valid_utf8(Seq::<u8>::empty()));
        assert(partial_valid_utf8(x, 0));
        assert forall|i: int| 0 <= 0 <= i < x.len() <= x.len() implies #[trigger] is_leading_byte_width_1(x[i]) by {
            assert(x[i] < 0x80);
        }
        partial_valid_utf8_extend_ascii_block(x, 0, x.len() as int);
        assert(x.subrange(0, x.len() as int) =~= x);
    }
    valid_utf8_concat(m.subrange(0, s), x);
    valid_utf8_concat(m.subrange(0, s) + x, m.subrange(e, m.len() as int));
}

/// Masking well-placed blocks of a UTF-8 text leaves a UTF-8 text.
proof fn lemma_masked_valid(b: Seq<u8>, blocks: Seq<(int, int, int)>, n: int)
    requires
        valid_utf8(b),
        blocks_well_placed(b, blocks, 0),
        0 <= n <= blocks.len(),
    ensures
        valid_utf8(masked_prefix(b, blocks, n)),
    decreases n,
{
    if n == 0 {
        assert(masked_prefix(b, blocks, 0) =~= b);
    } else {
        lemma_masked_valid(b, blocks, n - 1);
        let m = masked_prefix(b, blocks, n - 1);
        let (s, o, c) = blocks[n - 1];
        assert(is_directive_at(b, s));
        let x = Seq::new(
            (c + 1 - s) as nat,
            |j: int|
                if b[s + j] != NEWLINE {
                    SPACE
                } else {
                    b[s + j]
                },
        );
        assert forall|i: int| s <= i <= c implies !#[trigger] in_blocks(blocks, n - 1, i) by {
            if in_blocks(blocks, n - 1, i) {
                let j = choose|j: int| 0 <= j < n - 1 && (#[trigger] blocks[j]).0 <= i <= blocks[j].2;
                assert(blocks[j].2 < blocks[n - 1].0);
            }
        }
        assert(b.subrange(s, s + 4)[0] == PERCENT);
        assert(m[s] == b[s]);
        assert(m[c] == b[c]);
        assert forall|i: int| 0 <= i < x.len() implies #[trigger] x[i] < 0x80 by {
            assert(b[s + i] == NEWLINE || x[i] == SPACE);
        }
        lemma_splice_ascii_valid(m, s, c + 1, x);
        let spliced = m.subrange(0, s) + x + m.subrange(c + 1, m.len() as int);
        assert forall|i: int| 0 <= i < b.len() implies #[trigger] masked_prefix(b, blocks, n)[i]
            == spliced[i] by {
            if s <= i <= c {
                assert(in_blocks(blocks, n, i)) by {
                    assert(blocks[n - 1].0 <= i <= blocks[n - 1].2);
                }
            } else {
                if in_blocks(blocks, n, i) {
                    let j = choose|j: int| 0 <= j < n && (#[trigger] blocks[j]).0 <= i <= blocks[j].2;
                    assert(j != n - 1);
                    assert(in_blocks(blocks, n - 1, i));
                }
                if in_blocks(blocks, n - 1, i) {
                    let j = choose|j: int| 0 <= j < n - 1 && (#[trigger] blocks[j]).0 <= i <= blocks[j].2;
                    assert(in_blocks(blocks, n, i));
                }
            }
        }
        assert(masked_prefix(b, blocks, n) =~= spliced);
    }
}

/// `String::from_utf8`: std documents that it succeeds exactly on valid UTF-8,
/// and then the string holds those bytes.
#[verifier::external_body]
fn string_from_utf8(bytes: Vec<u8>) -> (r: Result<String, FromUtf8Error>)
    ensures
        r is Ok <==> valid_utf8(bytes@),
        r matches Ok(s) ==> encode_utf8(s@) == bytes@,
{
    String::from_utf8(bytes)
}

#[verifier::external_type_specification]
#[verifier::external_body]
pub struct ExFromUtf8Error(FromUtf8Error);


/// The views of a sequence of blocks.
pub open spec fn blocks_view(blocks: Seq<LuaBlock>) -> Seq<(int, int, int)> {
    blocks.map_values(|block: LuaBlock| block_view(block))
}

/// Replaces every byte of every block, newlines aside, by a space, so that byte
/// positions after a block stay where they were.
fn mask_blocks(bytes: &[u8], blocks: &Vec<LuaBlock>) -> (m: Vec<u8>)
    requires
        blocks_well_placed(bytes@, blocks_view(blocks@), 0),
        forall|k: int| 0 <= k < blocks@.len() ==> block_spans_agree(#[trigger] blocks@[k]),
    ensures
        m@ == masked_bytes(bytes@, blocks_view(blocks@)),
{
    let ghost views = blocks_view(blocks@);
    let mut masked = vstd::slice::slice_to_vec(bytes);
    let mut k: usize = 0;
    assert(masked@ =~= masked_prefix(bytes@, views, 0));
    while k < blocks.len()
        invariant
            k <= blocks@.len(),
            views == blocks_view(blocks@),
            blocks_well_placed(bytes@, views, 0),
            forall|j: int| 0 <= j < blocks@.len() ==> block_spans_agree(#[trigger] blocks@[j]),
            masked@ == masked_prefix(bytes@, views, k as int),
        decreases blocks@.len() - k,
    {
        let start = blocks[k].full_span.start;
        let end = blocks[k].full_span.end;
        let ghost (s, o, c) = views[k as int];
        assert(views[k as int] == block_view(blocks@[k as int]));
        assert(end == c + 1);
        let mut p = start;
        while p < end
            invariant
                s == start,
                end == c + 1,
                start <= p <= end,
                end <= bytes@.len(),
                masked@.len() == bytes@.len(),
                forall|i: int|
                    0 <= i < bytes@.len() ==> #[trigger] masked@[i] == (if (in_blocks(
                        views,
                        k as int,
                        i,
                    ) || (start <= i < p)) && bytes@[i] != NEWLINE {
                        SPACE
                    } else {
                        bytes@[i]
                    }),
            decreases end - p,
        {
            if bytes[p] != NEWLINE {
                masked.set(p, SPACE);
            }
            p = p + 1;
        }
        assert forall|i: int| 0 <= i < bytes@.len() implies #[trigger] masked@[i]
            == masked_prefix(bytes@, views, k + 1)[i] by {
            if in_blocks(views, k + 1, i) {
                let j = choose|j: int| 0 <= j < k + 1 && (#[trigger] views[j]).0 <= i <= views[j].2;
                if j < k {
                    assert(in_blocks(views, k as int, i));
                }
            }
            if start <= i < end {
                assert(in_blocks(views, k + 1, i)) by {
                    assert(views[k as int].0 <= i <= views[k as int].2);
                }
            }
            if in_blocks(views, k as int, i) {
                let j = choose|j: int| 0 <= j < k && (#[trigger] views[j]).0 <= i <= views[j].2;
                assert(in_blocks(views, k + 1, i));
            }
        }
        assert(masked@ =~= masked_prefix(bytes@, views, k + 1));
        k = k + 1;
    }
    masked
}


/// The most bytes one block may emit.
pub const MAX_EMITTED_BYTES: usize = 8388608;

/// The bytes end with a newline.
pub open spec fn ends_with_newline(b: Seq<u8>) -> bool {
    b.len() > 0 && b.last() == NEWLINE
}

/// What `uy.emit(text)` appends: the text, and a newline unless it ends with one.
pub open spec fn emitted_piece(text: &str) -> Seq<char> {
    if ends_with_newline(text.spec_bytes()) {
        text@
    } else {
        text@ + seq!['\n']
    }
}

/// The last byte of a character's encoding is a newline exactly for `\n`.
proof fn lemma_scalar_last_byte(c: char)
    ensures
        encode_scalar(c as u32).len() > 0,
        (encode_scalar(c as u32).last() == NEWLINE) <==> c == '\n',
{
    char_is_scalar(c);
    let s = c as u32;
    if has_width_1_encoding(s) {
        assert(((s & 0x7F) as u8 == 0x0a) <==> (s == 0x0a)) by (bit_vector)
            requires
                s <= 0x7F,
        ;
    } else {
        assert((0x80u8 | ((s & 0x3F) as u8)) != 0x0a) by (bit_vector);
    }
}

/// The last byte of a text's encoding is the last byte of its last character's.
proof fn lemma_encode_last(cs: Seq<char>)
    requires
        cs.len() > 0,
    ensures
        encode_utf8(cs).len() > 0,
        encode_utf8(cs).last() == encode_scalar(cs.last() as u32).last(),
    decreases cs.len(),
{
    lemma_scalar_last_byte(cs[0]);
    if cs.len() == 1 {
        assert(encode_utf8(cs.drop_first()) =~= seq![]);
        assert(encode_utf8(cs) =~= encode_scalar(cs[0] as u32));
    } else {
        lemma_encode_last(cs.drop_first());
        assert(cs.drop_first().last() == cs.last());
    }
}

/// A text's encoding ends with a newline byte exactly when its last character is
/// a newline.
pub proof fn lemma_ends_with_newline_char(text: &str)
    ensures
        ends_with_newline(text.spec_bytes()) <==> (text@.len() > 0 && text@.last() == '\n'),
{
    if text@.len() > 0 {
        lemma_encode_last(text@);
        lemma_scalar_last_byte(text@.last());
    } else {
        assert(text.spec_bytes() =~= seq![]);
    }
}

/// What `uy.emit` appends ends with exactly one trailing newline it adds: the
/// text itself when it already ends with a newline, else the text and a newline.
pub proof fn lemma_emitted_piece_ends_with_newline(text: &str)
    ensures
        emitted_piece(text).len() > 0,
        emitted_piece(text).last() == '\n',
        text@.len() > 0 && text@.last() == '\n' ==> emitted_piece(text) == text@,
        !(text@.len() > 0 && text@.last() == '\n') ==> emitted_piece(text) == text@ + seq!['\n'],
{
    lemma_ends_with_newline_char(text);
}

/// Appends what `uy.emit(text)` emits to `output`, unless the output would then
/// exceed [`MAX_EMITTED_BYTES`] bytes, in which case nothing changes.
pub fn append_emitted(output: &mut String, text: &str) -> (r: Result<(), String>)
    ensures
        ({
            let extra: int = if ends_with_newline(text.spec_bytes()) { 0 } else { 1 };
            let total = encode_utf8(old(output)@).len() + text.spec_bytes().len() + extra;
            if total > MAX_EMITTED_BYTES {
                &&& r matches Err(m) && m@ == "Lua macro output exceeded 8 MiB"@
                &&& final(output)@ == old(output)@
            } else {
                &&& r is Ok
                &&& final(output)@ == old(output)@ + emitted_piece(text)
            }
        }),
        emit_step(old(output)@, text) == if r is Ok {
            Some(final(output)@)
        } else {
            None::<Seq<char>>
        },
{
    let text_bytes = text.as_bytes();
    let newline_at_end = text_bytes.len() > 0 && text_bytes[text_bytes.len() - 1] == NEWLINE;
    let extra: usize = if newline_at_end { 0 } else { 1 };
    let out_len = output.as_str().as_bytes().len();
    let text_len = text_bytes.len();
    if out_len > MAX_EMITTED_BYTES || text_len > MAX_EMITTED_BYTES - out_len || extra
        > MAX_EMITTED_BYTES - out_len - text_len {
        return Err(String::from_str("Lua macro output exceeded 8 MiB"));
    }
    let ghost before = output@;
    output.append(text);
    if !newline_at_end {
        output.append("\n");
        proof {
            reveal_strlit("\n");
            assert("\n"@ =~= seq!['\n']);
        }
    }
    assert(newline_at_end == ends_with_newline(text.spec_bytes()));
    assert(output@ =~= before + emitted_piece(text));
    Ok(())
}

#[verifier::external_type_specification]
#[verifier::external_body]
pub struct ExLua(mlua::Lua);

#[verifier::external_type_specification]
#[verifier::external_body]
pub struct ExLuaTable(mlua::Table);

#[verifier::external_type_specification]
#[verifier::external_body]
pub struct ExLuaFunction(mlua::Function);

#[verifier::external_type_specification]
#[verifier::external_body]
pub struct ExLuaError(mlua::Error);


/// What `uy.emit` calls can have collected: nothing, or text that ends with a
/// newline, and at most [`MAX_EMITTED_BYTES`] bytes of it.
pub open spec fn emitted_output(s: Seq<char>) -> bool {
    &&& s.len() == 0 || s.last() == '\n'
    &&& encode_utf8(s).len() <= MAX_EMITTED_BYTES
}

/// The invariant of the cell that collects a block's output.
pub struct EmittedOutput;

impl Predicate<String> for EmittedOutput {
    open spec fn predicate(&self, s: String) -> bool {
        emitted_output(s@)
    }
}

/// The output a block's `uy.emit` calls collect.
pub type EmitCell = InvCell<String, EmittedOutput>;

/// The length of the encoding of two texts is the sum of their lengths.
proof fn lemma_encode_utf8_concat(a: Seq<char>, b: Seq<char>)
    ensures
        encode_utf8(a + b).len() == encode_utf8(a).len() + encode_utf8(b).len(),
    decreases a.len(),
{
    if a.len() == 0 {
        assert(a + b =~= b);
    } else {
        assert((a + b).drop_first() =~= a.drop_first() + b);
        lemma_encode_utf8_concat(a.drop_first(), b);
    }
}

/// Appending what `uy.emit(text)` emits keeps the output well formed.
proof fn lemma_append_keeps_output(before: Seq<char>, text: &str)
    requires
        emitted_output(before),
        encode_utf8(before).len() + text.spec_bytes().len() + (if ends_with_newline(
            text.spec_bytes(),
        ) {
            0int
        } else {
            1int
        }) <= MAX_EMITTED_BYTES,
    ensures
        emitted_output(before + emitted_piece(text)),
{
    lemma_emitted_piece_ends_with_newline(text);
    lemma_encode_utf8_concat(before, emitted_piece(text));
    if !ends_with_newline(text.spec_bytes()) {
        lemma_ends_with_newline_char(text);
        lemma_encode_utf8_concat(text@, seq!['\n']);
        assert(encode_utf8(seq!['\n']).len() == 1) by {
            let nl = seq!['\n'];
            assert(nl.drop_first() =~= Seq::<char>::empty());
            assert(encode_utf8(nl.drop_first()) =~= Seq::<u8>::empty());
            assert(('\n' as u32) == 10u32);
            assert(has_width_1_encoding(nl[0] as u32));
            assert(encode_scalar(nl[0] as u32).len() == 1);
        }
    }
    let p = before + emitted_piece(text);
    assert(p.last() == emitted_piece(text).last());
}

/// What `uy.emit(text)` does: appends to the block's output as
/// [`append_emitted`] does, or fails with its error and leaves the output as it was.
pub fn emit_into(cell: &EmitCell, text: &str) -> (r: Result<(), String>)
    requires
        cell.predicate() == EmittedOutput,
    ensures
        r matches Err(m) ==> m@ == "Lua macro output exceeded 8 MiB"@,
{
    let mut output = cell.replace(String::new());
    let ghost before = output@;
    let r = append_emitted(&mut output, text);
    proof {
        if r.is_ok() {
            lemma_append_keeps_output(before, text);
        }
    }
    cell.set(output);
    r
}

/// Takes what a block's `uy.emit` calls collected.
pub fn take_emitted(cell: &EmitCell) -> (r: String)
    requires
        cell.predicate() == EmittedOutput,
    ensures
        emitted_output(r@),
{
    proof {
        assert(encode_utf8(Seq::<char>::empty()) =~= Seq::<u8>::empty());
    }
    cell.replace(String::new())
}

/// The globals a `%lua` block runs without: the host libraries and the loaders.
pub open spec fn hidden_global_names() -> Seq<Seq<char>> {
    seq!["io"@, "os"@, "package"@, "debug"@, "require"@, "dofile"@, "loadfile"@]
}

/// The globals a `%lua` block runs without: the host libraries and the loaders.
pub fn sandbox_hidden_globals() -> (r: Vec<&'static str>)
    ensures
        r@.map_values(|s: &str| s@) == hidden_global_names(),
{
    let r = vec!["io", "os", "package", "debug", "require", "dofile", "loadfile"];
    assert(r@.map_values(|s: &str| s@) =~= hidden_global_names());
    r
}

/// The number of VM instructions between two calls of a block's instruction hook.
pub const HOOK_INTERVAL: u64 = 10000;

/// The number of VM instructions a block may run.
pub const INSTRUCTION_LIMIT: u64 = 10000000;

/// Charges `step` more instructions to a block that has used `used`: the new
/// count, or nothing when it would pass `limit`.
pub fn charge_instructions(used: u64, step: u64, limit: u64) -> (r: Option<u64>)
    ensures
        r == (if used + step > limit {
            None::<u64>
        } else {
            Some((used + step) as u64)
        }),
{
    if used > limit || step > limit - used {
        None
    } else {
        Some(used + step)
    }
}

/// The invariant of a block's instruction count: it never passes the limit.
pub struct InstructionBudget;

impl Predicate<u64> for InstructionBudget {
    open spec fn predicate(&self, used: u64) -> bool {
        used <= INSTRUCTION_LIMIT
    }
}

/// The instructions a block has used so far.
pub type BudgetCell = InvCell<u64, InstructionBudget>;

/// A budget for a new block: no instruction used yet.
pub fn new_budget() -> (r: BudgetCell)
    ensures
        r.predicate() == InstructionBudget,
{
    InvCell::new(0, Ghost(InstructionBudget))
}

/// What the instruction hook does every [`HOOK_INTERVAL`] instructions: charges
/// them to the block, or, when that would pass [`INSTRUCTION_LIMIT`], fails with
/// the message that stops the block and leaves the count as it was.
pub fn charge_budget(budget: &BudgetCell) -> (r: Result<(), String>)
    requires
        budget.predicate() == InstructionBudget,
    ensures
        r matches Err(m) ==> m@ == "Lua macro exceeded the 10,000,000 instruction limit"@,
{
    let used = budget.get();
    match charge_instructions(used, HOOK_INTERVAL, INSTRUCTION_LIMIT) {
        Some(next) => {
            budget.replace(next);
            Ok(())
        },
        None => Err(String::from_str("Lua macro exceeded the 10,000,000 instruction limit")),
    }
}




/// `mlua::Lua::create_function`: a Lua function that hands its string argument
/// to [`emit_into`] on `output`. Nothing is claimed of the outcome.
#[verifier::external_body]
fn lua_create_emit_function(lua: &mlua::Lua, output: &Rc<EmitCell>) -> Result<
    mlua::Function,
    mlua::Error,
>
    requires
        output.predicate() == EmittedOutput,
{
    let output = Rc::clone(output);
    lua.create_function(
        move |_, text: String| emit_into(&output, &text).map_err(mlua::Error::RuntimeError),
    )
}

/// The writes that set up the sandbox: each hidden global cleared, then `emit`
/// stored in a fresh table, then that table stored as the global `uy`.
pub open spec fn sandbox_writes() -> Seq<(TableRole, Seq<char>, SlotKind)> {
    hidden_global_names().map_values(|n: Seq<char>| (TableRole::Globals, n, SlotKind::Nil)) + seq![
        (TableRole::Created, "emit"@, SlotKind::Function),
        (TableRole::Globals, "uy"@, SlotKind::Table),
    ]
}

/// A Lua state's sandbox: the cell that collects what `uy.emit` emits, and the
/// writes that set it up, in the order they were made.
pub struct Sandbox {
    pub output: Rc<EmitCell>,
    pub writes: Vec<TableWrite>,
}

/// Prepares a Lua state for running a `%lua` block: clears each of
/// [`sandbox_hidden_globals`] from its globals, and registers `uy.emit`, which
/// collects into the returned cell through [`emit_into`]. Whether the table
/// writes succeed is up to `mlua`; when they all do, the writes made are exactly
/// [`sandbox_writes`], and whatever the cell collects is well formed.
pub fn sandbox_lua(lua: &mlua::Lua) -> (r: Result<Sandbox, mlua::Error>)
    ensures
        r matches Ok(s) ==> {
            &&& s.output.predicate() == EmittedOutput
            &&& writes_view(s.writes@) == sandbox_writes()
        },
{
    let globals = lua_globals(lua);
    let hidden = sandbox_hidden_globals();
    let ghost names = hidden_global_names();
    let mut writes: Vec<TableWrite> = Vec::new();
    let mut i: usize = 0;
    while i < hidden.len()
        invariant
            i <= hidden@.len(),
            hidden@.map_values(|s: &str| s@) == names,
            names == hidden_global_names(),
            globals.role() == TableRole::Globals,
            writes_view(writes@) == names.take(i as int).map_values(
                |n: Seq<char>| (TableRole::Globals, n, SlotKind::Nil),
            ),
        decreases hidden@.len() - i,
    {
        let w = lua_table_set(&globals, hidden[i], LuaSlot::Nil)?;
        assert(hidden@.map_values(|s: &str| s@)[i as int] == hidden@[i as int]@);
        assert(w@ == (TableRole::Globals, names[i as int], SlotKind::Nil));
        let ghost before = writes@;
        writes.push(w);
        assert(writes_view(writes@) =~= writes_view(before).push(w@));
        assert(writes_view(writes@) =~= names.take(i + 1).map_values(
            |n: Seq<char>| (TableRole::Globals, n, SlotKind::Nil),
        ));
        i = i + 1;
    }
    assert(names.take(i as int) =~= names);
    proof {
        assert(encode_utf8(Seq::<char>::empty()) =~= Seq::<u8>::empty());
    }
    let output = Rc::new(InvCell::new(String::new(), Ghost(EmittedOutput)));
    let uy = lua_create_table(lua)?;
    let emit = lua_create_emit_function(lua, &output)?;
    let w = lua_table_set(&uy, "emit", LuaSlot::Function(emit))?;
    writes.push(w);
    let w = lua_table_set(&globals, "uy", LuaSlot::Table(uy))?;
    writes.push(w);
    proof {
        reveal_strlit("emit");
        reveal_strlit("uy");
    }
    assert(writes_view(writes@) =~= sandbox_writes());
    Ok(Sandbox { output, writes })
}

/// Source generated by one `%lua` block, and the span of that block.
#[derive(Debug)]
pub struct LuaExpansion {
    pub span: Range<usize>,
    pub source: String,
}

impl Clone for LuaExpansion {
    fn clone(&self) -> (r: Self)
        ensures
            r@ == self@,
    {
        LuaExpansion { span: self.span.start..self.span.end, source: self.source.clone() }
    }
}

/// The mathematical value of a [`LuaExpansion`].
pub struct ExpansionView {
    pub start: int,
    pub end: int,
    pub source: Seq<char>,
}

impl View for LuaExpansion {
    type V = ExpansionView;

    open spec fn view(&self) -> ExpansionView {
        ExpansionView {
            start: self.span.start as int,
            end: self.span.end as int,
            source: self.source@,
        }
    }
}

/// The views of a sequence of expansions.
pub open spec fn expansions_view(es: Seq<LuaExpansion>) -> Seq<ExpansionView> {
    es.map_values(|e: LuaExpansion| e@)
}

/// A source with its `%lua` blocks masked, what they generated, and what went wrong.
#[derive(Debug)]
pub struct PreparedLuaMacros {
    pub masked_source: String,
    pub expansions: Vec<LuaExpansion>,
    pub diagnostics: Vec<Diagnostic>,
}

/// The view of what running one block gave: its output, or the error's text.
pub open spec fn outcome_view(o: Result<String, String>) -> Result<Seq<char>, Seq<char>> {
    match o {
        Ok(g) => Ok(g@),
        Err(e) => Err(e@),
    }
}

/// The views of a sequence of outcomes.
pub open spec fn outcomes_view(os: Seq<Result<String, String>>) -> Seq<Result<Seq<char>, Seq<char>>> {
    os.map_values(|o: Result<String, String>| outcome_view(o))
}

/// The expansions of the first `n` blocks: one for each that produced output.
pub open spec fn expansions_spec(
    blocks: Seq<(int, int, int)>,
    outcomes: Seq<Result<Seq<char>, Seq<char>>>,
    n: int,
) -> Seq<ExpansionView>
    decreases n,
{
    if n <= 0 {
        seq![]
    } else {
        let prev = expansions_spec(blocks, outcomes, n - 1);
        match outcomes[n - 1] {
            Ok(g) => if g.len() > 0 {
                prev.push(
                    ExpansionView { start: blocks[n - 1].0, end: blocks[n - 1].2 + 1, source: g },
                )
            } else {
                prev
            },
            Err(_) => prev,
        }
    }
}

/// The diagnostic for a block whose Lua failed with `message`.
pub open spec fn lua_failure_view(start: int, end: int, message: Seq<char>) -> DiagnosticView {
    DiagnosticView {
        kind: DiagnosticKindView::IoError {
            message: "Lua macro failed: "@ + message,
            help: Some("the error came from compile-time Lua inside `%lua { ... }`"@),
        },
        start,
        end,
    }
}

/// The diagnostics of the first `n` blocks: one for each whose Lua failed.
pub open spec fn failures_spec(
    blocks: Seq<(int, int, int)>,
    outcomes: Seq<Result<Seq<char>, Seq<char>>>,
    n: int,
) -> Seq<DiagnosticView>
    decreases n,
{
    if n <= 0 {
        seq![]
    } else {
        let prev = failures_spec(blocks, outcomes, n - 1);
        match outcomes[n - 1] {
            Ok(_) => prev,
            Err(e) => prev.push(lua_failure_view(blocks[n - 1].0, blocks[n - 1].2 + 1, e)),
        }
    }
}

/// The diagnostic of a malformed directive, if scanning stopped at one.
pub open spec fn scan_error_view(b: Seq<u8>, error: Option<int>) -> Seq<DiagnosticView> {
    match error {
        Some(s) => seq![block_error_view(b, s)],
        None => seq![],
    }
}

/// Puts the outcome of a preparation together from the masked source, the blocks
/// in source order, what running each block gave (its output, or the text of its
/// error), and the malformed directive that stopped the scan, if any.
pub fn assemble_prepared(
    masked_source: String,
    blocks: &Vec<LuaBlock>,
    outcomes: Vec<Result<String, String>>,
    error: Option<Diagnostic>,
) -> (r: PreparedLuaMacros)
    requires
        outcomes@.len() == blocks@.len(),
        forall|k: int| 0 <= k < blocks@.len() ==> block_spans_agree(#[trigger] blocks@[k]),
    ensures
        r.masked_source == masked_source,
        expansions_view(r.expansions@) == expansions_spec(
            blocks_view(blocks@),
            outcomes_view(outcomes@),
            blocks@.len() as int,
        ),
        diagnostics_view(r.diagnostics@) == failures_spec(
            blocks_view(blocks@),
            outcomes_view(outcomes@),
            blocks@.len() as int,
        ) + match error {
            Some(d) => seq![d@],
            None => seq![],
        },
{
    let ghost views = blocks_view(blocks@);
    let ghost outs = outcomes_view(outcomes@);
    let mut expansions: Vec<LuaExpansion> = Vec::new();
    let mut diagnostics: Vec<Diagnostic> = Vec::new();
    let mut k: usize = 0;
    while k < blocks.len()
        invariant
            k <= blocks@.len(),
            outcomes@.len() == blocks@.len(),
            forall|j: int| 0 <= j < blocks@.len() ==> block_spans_agree(#[trigger] blocks@[j]),
            views == blocks_view(blocks@),
            outs == outcomes_view(outcomes@),
            expansions_view(expansions@) == expansions_spec(views, outs, k as int),
            diagnostics_view(diagnostics@) == failures_spec(views, outs, k as int),
        decreases blocks@.len() - k,
    {
        let start = blocks[k].full_span.start;
        let end = blocks[k].full_span.end;
        assert(views[k as int] == block_view(blocks@[k as int]));
        assert(outs[k as int] == outcome_view(outcomes@[k as int]));
        match &outcomes[k] {
            Ok(generated) => {
                if !generated.as_str().is_empty() {
                    let e = LuaExpansion { span: start..end, source: generated.clone() };
                    expansions.push(e);
                    assert(expansions_view(expansions@) =~= expansions_view(
                        expansions@.drop_last(),
                    ).push(e@));
                }
            },
            Err(message) => {
                let text = String::from_str("Lua macro failed: ").concat(message.as_str());
                let d = lua_error(
                    text,
                    start..end,
                    Some(
                        String::from_str(
                            "the error came from compile-time Lua inside `%lua { ... }`",
                        ),
                    ),
                );
                diagnostics.push(d);
                assert(diagnostics_view(diagnostics@) =~= diagnostics_view(
                    diagnostics@.drop_last(),
                ).push(d@));
            },
        }
        k = k + 1;
    }
    match error {
        Some(d) => {
            let ghost dv = d@;
            diagnostics.push(d);
            assert(diagnostics_view(diagnostics@) =~= diagnostics_view(
                diagnostics@.drop_last(),
            ).push(dv));
        },
        None => {},
    }
    PreparedLuaMacros { masked_source, expansions, diagnostics }
}

/// `out` is a possible outcome of `run` on some code whose bytes are `code`.
pub open spec fn runs_to<F: Fn(&[u8]) -> Result<String, String>>(
    run: F,
    code: Seq<u8>,
    out: Result<String, String>,
) -> bool {
    exists|c: &[u8]| c@ == code && #[trigger] run.ensures((c,), out)
}

/// The code between the braces of a block.
pub open spec fn block_body(b: Seq<u8>, block: (int, int, int)) -> Seq<u8> {
    b.subrange(block.1 + 1, block.2)
}

/// Finds and executes UY-script `%lua { ... }` procedural macros.
///
/// Macro bodies are replaced with whitespace of the same byte length so ordinary
/// source positions remain valid. Generated source is tokenized separately by the
/// parser and all generated tokens are mapped back to the macro callsite span.
///
/// `run` runs the Lua code of one block and gives what it emitted, or the text of
/// its error. Each block's outcome comes from `run` on exactly the code between
/// the block's braces; the contract fixes the masked text, which blocks exist,
/// and how each outcome becomes an expansion or a diagnostic at the block's span.
/// What `run` gives back for a piece of code is up to `run`.
pub fn prepare<F: Fn(&[u8]) -> Result<String, String>>(source: &str, run: &F) -> (r:
    PreparedLuaMacros)
    requires
        forall|code: &[u8]| #[trigger] run.requires((code,)),
    ensures
        ({
            let b = source.spec_bytes();
            let scan = scan_blocks(b, 0);
            &&& encode_utf8(r.masked_source@) == masked_bytes(b, scan.0)
            &&& exists|outs: Seq<Result<String, String>>|
                {
                    &&& outs.len() == scan.0.len()
                    &&& forall|k: int|
                        0 <= k < outs.len() ==> runs_to(*run, block_body(b, scan.0[k]), #[trigger] outs[k])
                    &&& expansions_view(r.expansions@) == expansions_spec(
                        scan.0,
                        outcomes_view(outs),
                        outs.len() as int,
                    )
                    &&& diagnostics_view(r.diagnostics@) == failures_spec(
                        scan.0,
                        outcomes_view(outs),
                        outs.len() as int,
                    ) + scan_error_view(b, scan.1)
                }
        }),
{
    let bytes = source.as_bytes();
    let scan = scan_lua_blocks(bytes);
    let ghost views = blocks_view(scan.blocks@);
    proof {
        lemma_scan_blocks_well_placed(bytes@, 0);
        assert(views =~= scan_blocks(bytes@, 0).0);
    }
    let masked = mask_blocks(bytes, &scan.blocks);
    proof {
        encode_utf8_valid_utf8(source@);
        lemma_masked_valid(bytes@, views, views.len() as int);
    }
    let masked_source = match string_from_utf8(masked) {
        Ok(text) => text,
        Err(_) => {
            assert(false);
            String::new()
        },
    };
    let mut outcomes: Vec<Result<String, String>> = Vec::new();
    let mut k: usize = 0;
    while k < scan.blocks.len()
        invariant
            k <= scan.blocks@.len(),
            outcomes@.len() == k,
            views == blocks_view(scan.blocks@),
            forall|j: int|
                0 <= j < scan.blocks@.len() ==> block_spans_agree(#[trigger] scan.blocks@[j]),
            forall|j: int|
                0 <= j < scan.blocks@.len() ==> (#[trigger] scan.blocks@[j]).full_span.end
                    <= bytes@.len(),
            forall|code: &[u8]| #[trigger] run.requires((code,)),
            forall|j: int|
                0 <= j < k ==> runs_to(*run, block_body(bytes@, views[j]), #[trigger] outcomes@[j]),
        decreases scan.blocks@.len() - k,
    {
        let body = vstd::slice::slice_subrange(
            bytes,
            scan.blocks[k].body_span.start,
            scan.blocks[k].body_span.end,
        );
        assert(views[k as int] == block_view(scan.blocks@[k as int]));
        assert(body@ == block_body(bytes@, views[k as int]));
        let outcome = run(body);
        outcomes.push(outcome);
        assert(run.ensures((body,), outcomes@[k as int]));
        assert(runs_to(*run, block_body(bytes@, views[k as int]), outcomes@[k as int]));
        k = k + 1;
    }
    let ghost outs = outcomes@;
    let r = assemble_prepared(masked_source, &scan.blocks, outcomes, scan.error);
    assert(outs.len() == views.len());
    r
}

/// A malformed directive that stops the scan comes after every block found
/// before it.
pub proof fn lemma_scan_error_after_blocks(b: Seq<u8>, cursor: int)
    requires
        0 <= cursor,
    ensures
        scan_blocks(b, cursor).1 matches Some(s) ==> forall|k: int|
            0 <= k < scan_blocks(b, cursor).0.len() ==> (#[trigger] scan_blocks(b, cursor).0[k]).2
                < s,
    decreases b.len() - cursor,
{
    if cursor <= b.len() {
        lemma_next_directive(b, cursor);
        if let Some(s) = next_directive(b, cursor) {
            if let BlockParse::Block { open, close } = parse_block_spec(b, s) {
                lemma_blank_end(b, s + 4);
                lemma_brace_scan_bounds(b, open + 1, 1);
                lemma_scan_error_after_blocks(b, close + 1);
                lemma_scan_blocks_well_placed(b, close + 1);
                let rest = scan_blocks(b, close + 1);
                let all = seq![(s, open, close)] + rest.0;
                if let Some(e) = rest.1 {
                    assert forall|k: int| 0 <= k < all.len() implies (#[trigger] all[k]).2 < e by {
                        if k > 0 {
                            assert(all[k] == rest.0[k - 1]);
                        }
                    }
                }
            }
        }
    }
}

/// The expansions of the first `n` blocks come from those blocks: each has
/// non-empty source and the span of one of them, and they follow each other in
/// source order without overlapping.
proof fn lemma_expansions_placed(
    b: Seq<u8>,
    blocks: Seq<(int, int, int)>,
    outcomes: Seq<Result<Seq<char>, Seq<char>>>,
    n: int,
)
    requires
        0 <= n <= blocks.len(),
        blocks_well_placed(b, blocks, 0),
    ensures
        forall|i: int|
            0 <= i < expansions_spec(blocks, outcomes, n).len() ==> exists|k: int|
                0 <= k < n && #[trigger] expansions_spec(blocks, outcomes, n)[i].start
                    == blocks[k].0 && expansions_spec(blocks, outcomes, n)[i].end == blocks[k].2
                    + 1,
        forall|i: int|
            0 <= i < expansions_spec(blocks, outcomes, n).len() ==> (#[trigger] expansions_spec(
                blocks,
                outcomes,
                n,
            )[i]).source.len() > 0,
        forall|i: int, j: int|
            0 <= i < j < expansions_spec(blocks, outcomes, n).len() ==> (#[trigger] expansions_spec(
                blocks,
                outcomes,
                n,
            )[i]).end <= (#[trigger] expansions_spec(blocks, outcomes, n)[j]).start,
    decreases n,
{
    if n > 0 {
        lemma_expansions_placed(b, blocks, outcomes, n - 1);
        let prev = expansions_spec(blocks, outcomes, n - 1);
        let cur = expansions_spec(blocks, outcomes, n);
        if cur.len() != prev.len() {
            assert(blocks[n - 1] == blocks[n - 1]);
            assert forall|i: int| 0 <= i < cur.len() implies exists|k: int|
                0 <= k < n && #[trigger] cur[i].start == blocks[k].0 && cur[i].end == blocks[k].2
                    + 1 by {
                if i < prev.len() {
                    assert(cur[i] == prev[i]);
                    let k = choose|k: int|
                        0 <= k < n - 1 && #[trigger] prev[i].start == blocks[k].0 && prev[i].end
                            == blocks[k].2 + 1;
                    assert(0 <= k < n && cur[i].start == blocks[k].0);
                } else {
                    assert(0 <= n - 1 < n && cur[i].start == blocks[n - 1].0);
                }
            }
            assert forall|i: int, j: int| 0 <= i < j < cur.len() implies (#[trigger] cur[i]).end
                <= (#[trigger] cur[j]).start by {
                assert(cur[i] == prev[i]);
                if j < prev.len() {
                    assert(cur[j] == prev[j]);
                } else {
                    let k = choose|k: int|
                        0 <= k < n - 1 && #[trigger] prev[i].start == blocks[k].0 && prev[i].end
                            == blocks[k].2 + 1;
                    assert(blocks[k].2 < blocks[n - 1].0);
                }
            }
        }
    }
}

/// What a preparation expands follows the source: one expansion per block whose
/// Lua emitted something, in source order and without overlapping; each covers a
/// whole block, from a `%lua` that begins a line to the brace that closes it; and
/// when a malformed directive stopped the scan, every expansion ends before it.
pub proof fn lemma_prepared_expansions_in_order(
    b: Seq<u8>,
    outcomes: Seq<Result<Seq<char>, Seq<char>>>,
)
    requires
        outcomes.len() == scan_blocks(b, 0).0.len(),
    ensures
        ({
            let es = expansions_spec(scan_blocks(b, 0).0, outcomes, outcomes.len() as int);
            &&& forall|i: int, j: int|
                0 <= i < j < es.len() ==> (#[trigger] es[i]).end <= (#[trigger] es[j]).start
            &&& forall|i: int|
                0 <= i < es.len() ==> {
                    &&& (#[trigger] es[i]).source.len() > 0
                    &&& is_directive_at(b, es[i].start)
                    &&& es[i].start < es[i].end <= b.len()
                    &&& b[es[i].end - 1] == CLOSE_BRACE
                    &&& (scan_blocks(b, 0).1 matches Some(s) ==> es[i].end <= s)
                }
        }),
{
    let blocks = scan_blocks(b, 0).0;
    let n = outcomes.len() as int;
    lemma_scan_blocks_well_placed(b, 0);
    lemma_scan_error_after_blocks(b, 0);
    lemma_expansions_placed(b, blocks, outcomes, n);
    let es = expansions_spec(blocks, outcomes, n);
    assert forall|i: int| 0 <= i < es.len() implies {
        &&& (#[trigger] es[i]).source.len() > 0
        &&& is_directive_at(b, es[i].start)
        &&& es[i].start < es[i].end <= b.len()
        &&& b[es[i].end - 1] == CLOSE_BRACE
        &&& (scan_blocks(b, 0).1 matches Some(s) ==> es[i].end <= s)
    } by {
        let k = choose|k: int|
            0 <= k < n && #[trigger] es[i].start == blocks[k].0 && es[i].end == blocks[k].2 + 1;
        assert(blocks[k] == blocks[k]);
    }
}

/// No long-bracket closer of level `level` starts before the one that
/// `closer_search` finds, and none at all when it finds nothing.
proof fn lemma_closer_search_least(b: Seq<u8>, i: int, level: int)
    requires
        0 <= i,
        level >= 0,
    ensures
        closer_search(b, i, level) matches Some(e) ==> forall|j: int|
            i <= j < e - level - 2 ==> !#[trigger] closer_at(b, j, level),
        closer_search(b, i, level) is None ==> forall|j: int|
            i <= j ==> !#[trigger] closer_at(b, j, level),
    decreases b.len() - i,
{
    if i < b.len() && !closer_at(b, i, level) {
        lemma_closer_search_least(b, i + 1, level);
        lemma_closer_search_after(b, i + 1, level);
        assert forall|j: int| i <= j && j != i && #[trigger] closer_at(b, j, level) implies i + 1
            <= j by {}
    }
}

/// A long bracket that opens at `start` with `level` equals signs (`[`, `level`
/// times `=`, `[`) ends just after the first closer of the same level (`]`, `level`
/// times `=`, `]`) that follows the opener; there is no end when no such closer
/// follows, or when no opener stands at `start`.
pub proof fn lemma_long_bracket_least_closer(b: Seq<u8>, start: int)
    requires
        0 <= start,
    ensures
        long_bracket_end(b, start) matches Some(e) ==> exists|level: int|
            {
                &&& level >= 0
                &&& b[start] == OPEN_BRACKET
                &&& forall|k: int| start + 1 <= k < start + 1 + level ==> b[k] == EQUALS
                &&& b[start + 1 + level] == OPEN_BRACKET
                &&& start + level + 2 <= e - level - 2
                &&& #[trigger] closer_at(b, e - level - 2, level)
                &&& forall|j: int|
                    start + level + 2 <= j < e - level - 2 ==> !#[trigger] closer_at(b, j, level)
            },
        long_bracket_end(b, start) is None ==> {
            ||| start >= b.len()
            ||| b[start] != OPEN_BRACKET
            ||| b[equals_run_end(b, start + 1)] != OPEN_BRACKET
            ||| equals_run_end(b, start + 1) >= b.len()
            ||| forall|j: int|
                equals_run_end(b, start + 1) + 1 <= j ==> !#[trigger] closer_at(
                    b,
                    j,
                    equals_run_end(b, start + 1) - start - 1,
                )
        },
{
    if start < b.len() && b[start] == OPEN_BRACKET {
        lemma_equals_run_end(b, start + 1);
        let k = equals_run_end(b, start + 1);
        if k < b.len() && b[k] == OPEN_BRACKET {
            let level = k - start - 1;
            lemma_closer_search_after(b, k + 1, level);
            lemma_closer_search_least(b, k + 1, level);
            if let Some(e) = closer_search(b, k + 1, level) {
                assert(closer_at(b, e - level - 2, level));
            }
        }
    }
}

/// The difference between the opening and the closing braces in `b[lo..hi]`.
pub open spec fn brace_balance(b: Seq<u8>, lo: int, hi: int) -> int
    decreases hi - lo,
{
    if hi <= lo {
        0
    } else {
        brace_balance(b, lo, hi - 1) + if b[hi - 1] == OPEN_BRACE {
            1int
        } else if b[hi - 1] == CLOSE_BRACE {
            -1int
        } else {
            0int
        }
    }
}

/// From `i` on, `b` holds no quote, no long-bracket opener and no comment.
pub open spec fn plain_lua_from(b: Seq<u8>, i: int) -> bool {
    forall|j: int|
        i <= j < b.len() ==> {
            &&& #[trigger] b[j] != SINGLE_QUOTE
            &&& b[j] != DOUBLE_QUOTE
            &&& b[j] != OPEN_BRACKET
            &&& !(b[j] == DASH && j + 1 < b.len() && b[j + 1] == DASH)
        }
}

proof fn lemma_brace_scan_plain(b: Seq<u8>, open: int, i: int, depth: nat)
    requires
        0 <= open < i <= b.len(),
        plain_lua_from(b, open + 1),
        depth == brace_balance(b, open, i),
        depth >= 1,
    ensures
        brace_scan(b, i, depth) matches Some(c) ==> {
            &&& i <= c < b.len()
            &&& brace_balance(b, open, c + 1) == 0
            &&& forall|j: int| i <= j < c ==> #[trigger] brace_balance(b, open, j + 1) > 0
        },
        brace_scan(b, i, depth) is None ==> forall|j: int|
            i <= j < b.len() ==> #[trigger] brace_balance(b, open, j + 1) > 0,
    decreases b.len() - i,
{
    if i < b.len() {
        assert(b[i] != SINGLE_QUOTE && b[i] != DOUBLE_QUOTE && b[i] != OPEN_BRACKET);
        assert(!(b[i] == DASH && i + 1 < b.len() && b[i + 1] == DASH));
        assert(brace_balance(b, open, i + 1) == brace_balance(b, open, i) + if b[i]
            == OPEN_BRACE {
            1int
        } else if b[i] == CLOSE_BRACE {
            -1int
        } else {
            0int
        });
        if b[i] == OPEN_BRACE {
            lemma_brace_scan_plain(b, open, i + 1, depth + 1);
        } else if b[i] == CLOSE_BRACE {
            if depth != 1 {
                lemma_brace_scan_plain(b, open, i + 1, (depth - 1) as nat);
            }
        } else {
            lemma_brace_scan_plain(b, open, i + 1, depth);
        }
    }
}

/// In a block body without strings, comments or long brackets, the brace that
/// closes the block opened at `open` is the first one after which the text from
/// `open` on holds as many closing braces as opening ones; when there is no such
/// place, the block is not closed.
pub proof fn lemma_matching_brace_balances(b: Seq<u8>, open: int)
    requires
        0 <= open < b.len(),
        b[open] == OPEN_BRACE,
        plain_lua_from(b, open + 1),
    ensures
        brace_scan(b, open + 1, 1) matches Some(c) ==> {
            &&& open < c < b.len()
            &&& b[c] == CLOSE_BRACE
            &&& brace_balance(b, open, c + 1) == 0
            &&& forall|j: int| open <= j < c ==> #[trigger] brace_balance(b, open, j + 1) > 0
        },
        brace_scan(b, open + 1, 1) is None ==> forall|j: int|
            open <= j < b.len() ==> #[trigger] brace_balance(b, open, j + 1) > 0,
{
    assert(brace_balance(b, open, open) == 0);
    assert(brace_balance(b, open, open + 1) == 1);
    lemma_brace_scan_plain(b, open, open + 1, 1);
    lemma_brace_scan_bounds(b, open + 1, 1);
}

/// What `uy.emit(text)` does to a block's output `out`: the output with the
/// emitted piece appended, or nothing when that would pass [`MAX_EMITTED_BYTES`]
/// bytes (the call then fails).
pub open spec fn emit_step(out: Seq<char>, text: &str) -> Option<Seq<char>> {
    let extra: int = if ends_with_newline(text.spec_bytes()) { 0 } else { 1 };
    if encode_utf8(out).len() + text.spec_bytes().len() + extra > MAX_EMITTED_BYTES {
        None
    } else {
        Some(out + emitted_piece(text))
    }
}

/// The output of a block whose Lua calls `uy.emit` with `texts` in order: each
/// call from the output the calls before it left, until one fails.
pub open spec fn emit_run(texts: Seq<&str>) -> Option<Seq<char>>
    decreases texts.len(),
{
    if texts.len() == 0 {
        Some(seq![])
    } else {
        match emit_run(texts.drop_last()) {
            Some(out) => emit_step(out, texts.last()),
            None => None,
        }
    }
}

/// The emitted pieces of `texts`, one after the other.
pub open spec fn emitted_pieces(texts: Seq<&str>) -> Seq<char>
    decreases texts.len(),
{
    if texts.len() == 0 {
        seq![]
    } else {
        emitted_pieces(texts.drop_last()) + emitted_piece(texts.last())
    }
}

/// The encoded length of what `uy.emit(text)` appends: the text's bytes, and one
/// more for a newline it adds.
proof fn lemma_piece_len(text: &str)
    ensures
        encode_utf8(emitted_piece(text)).len() == text.spec_bytes().len() + if ends_with_newline(
            text.spec_bytes(),
        ) {
            0int
        } else {
            1int
        },
{
    if !ends_with_newline(text.spec_bytes()) {
        lemma_encode_utf8_concat(text@, seq!['\n']);
        let nl = seq!['\n'];
        assert(nl.drop_first() =~= Seq::<char>::empty());
        assert(encode_utf8(nl.drop_first()) =~= Seq::<u8>::empty());
        assert(('\n' as u32) == 10u32);
        assert(has_width_1_encoding(nl[0] as u32));
        assert(encode_scalar(nl[0] as u32).len() == 1);
    }
}

/// A block's `uy.emit` calls with `texts`, in order, leave the emitted pieces one
/// after the other, each text followed by a newline unless it ends with one,
/// exactly when they come to at most [`MAX_EMITTED_BYTES`] bytes; otherwise a call
/// fails. Whatever output they leave is nothing, or ends with a newline, and is
/// within the limit.
pub proof fn lemma_emit_run(texts: Seq<&str>)
    ensures
        emit_run(texts) == if encode_utf8(emitted_pieces(texts)).len() <= MAX_EMITTED_BYTES {
            Some(emitted_pieces(texts))
        } else {
            None::<Seq<char>>
        },
        emit_run(texts) matches Some(out) ==> emitted_output(out),
    decreases texts.len(),
{
    if texts.len() == 0 {
        assert(encode_utf8(Seq::<char>::empty()) =~= Seq::<u8>::empty());
    } else {
        let prev = texts.drop_last();
        let text = texts.last();
        lemma_emit_run(prev);
        lemma_piece_len(text);
        lemma_encode_utf8_concat(emitted_pieces(prev), emitted_piece(text));
        if let Some(out) = emit_run(prev) {
            if encode_utf8(emitted_pieces(texts)).len() <= MAX_EMITTED_BYTES {
                lemma_append_keeps_output(out, text);
            }
        }
    }
}

/// Only spaces, tabs and carriage returns stand between `i` and `blank_end(b, i)`.
proof fn lemma_blank_end_blanks(b: Seq<u8>, i: int)
    requires
        0 <= i,
    ensures
        forall|k: int|
            i <= k < blank_end(b, i) ==> #[trigger] b[k] == SPACE || b[k] == TAB || b[k]
                == CARRIAGE_RETURN,
        blank_end(b, i) < b.len() ==> !(b[blank_end(b, i)] == SPACE || b[blank_end(b, i)] == TAB
            || b[blank_end(b, i)] == CARRIAGE_RETURN),
    decreases b.len() - i,
{
    if i < b.len() && (b[i] == SPACE || b[i] == TAB || b[i] == CARRIAGE_RETURN) {
        lemma_blank_end_blanks(b, i + 1);
    }
}

/// What a `%lua` at `start` opens: a block whose opening brace follows the
/// directive after spaces, tabs and carriage returns only, whose closing brace
/// is the one that brace scanning finds for it; or else an error that starts at
/// the directive and ends within the text.
pub proof fn lemma_block_shape(b: Seq<u8>, start: int)
    requires
        0 <= start,
        start + 4 <= b.len(),
    ensures
        parse_block_spec(b, start) matches BlockParse::Block { open, close } ==> {
            &&& start + 4 <= open < close < b.len()
            &&& b[open] == OPEN_BRACE
            &&& b[close] == CLOSE_BRACE
            &&& forall|k: int|
                start + 4 <= k < open ==> #[trigger] b[k] == SPACE || b[k] == TAB || b[k]
                    == CARRIAGE_RETURN
            &&& brace_scan(b, open + 1, 1) == Some(close)
        },
        !(parse_block_spec(b, start) is Block) ==> {
            &&& block_error_view(b, start).start == start
            &&& start < block_error_view(b, start).end <= b.len()
        },
{
    lemma_blank_end(b, start + 4);
    lemma_blank_end_blanks(b, start + 4);
    lemma_line_end(b, start);
    lemma_brace_scan_bounds(b, blank_end(b, start + 4) + 1, 1);
}

/// Inside a quoted Lua string a backslash escapes the byte after it: scanning
/// goes on two bytes later, so an escaped quote never closes the string, and the
/// string ends after that escaped byte, if at all.
pub proof fn lemma_backslash_escapes(b: Seq<u8>, quote: u8, i: int)
    requires
        0 <= i,
        i + 2 <= b.len(),
        b[i] == BACKSLASH,
    ensures
        quoted_end(b, quote, i) == quoted_end(b, quote, i + 2),
        quoted_end(b, quote, i) matches Some(e) ==> i + 2 < e,
{
    lemma_quoted_end_after(b, quote, i + 2);
}

/// A quoted Lua string without backslashes ends just after its first closing
/// quote.
pub proof fn lemma_plain_string_ends_at_first_quote(b: Seq<u8>, quote: u8, i: int, j: int)
    requires
        0 <= i <= j < b.len(),
        b[j] == quote,
        quote != BACKSLASH,
        forall|k: int| i <= k < j ==> #[trigger] b[k] != quote && b[k] != BACKSLASH,
    ensures
        quoted_end(b, quote, i) == Some(j + 1),
    decreases j - i,
{
    if i < j {
        assert(b[i] != quote && b[i] != BACKSLASH);
        lemma_plain_string_ends_at_first_quote(b, quote, i + 1, j);
    }
}

/// A quoted Lua string whose closing quote never comes has no end.
pub proof fn lemma_unclosed_string(b: Seq<u8>, quote: u8, i: int)
    requires
        0 <= i,
        forall|k: int| i <= k < b.len() ==> #[trigger] b[k] != quote,
    ensures
        quoted_end(b, quote, i) is None,
    decreases b.len() - i,
{
    if i < b.len() {
        if b[i] == BACKSLASH {
            if i + 2 <= b.len() {
                lemma_unclosed_string(b, quote, i + 2);
            }
        } else {
            lemma_unclosed_string(b, quote, i + 1);
        }
    }
}

} // verus!
