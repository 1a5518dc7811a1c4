use vstd::prelude::*;
use vstd::string::StringSliceAdditionalSpecFns;
use crate::cell::Cell;

verus! {

// The grammar works on the solver response's bytes.  All its literal
// tokens are ASCII: '(' 40, ')' 41, ',' 44, ' ' 32, tab 9, '-' 45,
// '>' 62, newline 10, carriage return 13, digits 48..=57, and the
// section header tag "--- Path " (45 45 45 32 80 97 116 104 32)
// with its closing " ---" (32 45 45 45).

pub open spec fn is_digit(b: u8) -> bool {
    48 <= b <= 57
}

pub open spec fn is_space(b: u8) -> bool {
    b == 32 || b == 9
}

/// The first index at or after `i` that does not hold a decimal digit.
pub open spec fn digits_end(s: Seq<u8>, i: int) -> int
    decreases s.len() - i when 0 <= i <= s.len()
{
    if i < s.len() && is_digit(s[i]) {
        digits_end(s, i + 1)
    } else {
        i
    }
}

pub proof fn lemma_digits_end(s: Seq<u8>, i: int)
    requires
        0 <= i <= s.len(),
    ensures
        i <= digits_end(s, i) <= s.len(),
        forall|k: int| i <= k < digits_end(s, i) ==> is_digit(#[trigger] s[k]),
        digits_end(s, i) == s.len() || !is_digit(s[digits_end(s, i)]),
    decreases s.len() - i,
{
    if i < s.len() && is_digit(s[i]) {
        lemma_digits_end(s, i + 1);
    }
}

/// The first index at or after `i` that does not hold a space or tab.
pub open spec fn space_end(s: Seq<u8>, i: int) -> int
    decreases s.len() - i when 0 <= i <= s.len()
{
    if i < s.len() && is_space(s[i]) {
        space_end(s, i + 1)
    } else {
        i
    }
}

pub proof fn lemma_space_end(s: Seq<u8>, i: int)
    requires
        0 <= i <= s.len(),
    ensures
        i <= space_end(s, i) <= s.len(),
    decreases s.len() - i,
{
    if i < s.len() && is_space(s[i]) {
        lemma_space_end(s, i + 1);
    }
}

/// The number denoted by the digits `s[i..j]`, most significant first.
pub open spec fn digits_val(s: Seq<u8>, i: int, j: int) -> int
    decreases j - i when i <= j
{
    if i >= j {
        0
    } else {
        digits_val(s, i, j - 1) * 10 + (s[j - 1] - 48)
    }
}

/// A maximal run of at least one digit whose value fits a 31-bit signed
/// parse; yields the end of the run and the value.
pub open spec fn spec_number(s: Seq<u8>, i: int) -> Option<(int, int)> {
    let e = digits_end(s, i);
    if e == i {
        None
    } else if digits_val(s, i, e) > 0x7fffffff {
        None
    } else {
        Some((e, digits_val(s, i, e)))
    }
}

/// `(x,y)` with both coordinates `spec_number`s.
pub open spec fn spec_cell(s: Seq<u8>, i: int) -> Option<(int, Cell)> {
    if i < s.len() && s[i] == 40 {
        match spec_number(s, i + 1) {
            None => None,
            Some((j, x)) => if j < s.len() && s[j] == 44 {
                match spec_number(s, j + 1) {
                    None => None,
                    Some((k, y)) => if k < s.len() && s[k] == 41 {
                        Some((k + 1, Cell { x: x as usize, y: y as usize }))
                    } else {
                        None
                    },
                }
            } else {
                None
            },
        }
    } else {
        None
    }
}

/// The literal ` -> ` separator.
pub open spec fn arrow_at(s: Seq<u8>, i: int) -> bool {
    i + 4 <= s.len() && s[i] == 32 && s[i + 1] == 45 && s[i + 2] == 62 && s[i + 3] == 32
}

/// One directed edge: `(x1,y1) -> (x2,y2)`.
pub open spec fn spec_link(s: Seq<u8>, i: int) -> Option<(int, (Cell, Cell))> {
    match spec_cell(s, i) {
        None => None,
        Some((j, a)) => if arrow_at(s, j) {
            match spec_cell(s, j + 4) {
                None => None,
                Some((k, b)) => Some((k, (a, b))),
            }
        } else {
            None
        },
    }
}

/// A line terminator after an edge: newline, carriage return + newline,
/// or the end of the input.
pub open spec fn spec_line_end(s: Seq<u8>, i: int) -> Option<int> {
    if i == s.len() {
        Some(i)
    } else if s[i] == 10 {
        Some(i + 1)
    } else if s[i] == 13 && i + 1 < s.len() && s[i + 1] == 10 {
        Some(i + 2)
    } else {
        None
    }
}

/// One edge line: optional leading spaces, an edge, and a terminator.
pub open spec fn spec_link_line(s: Seq<u8>, i: int) -> Option<(int, (Cell, Cell))> {
    let j = space_end(s, i);
    match spec_link(s, j) {
        None => None,
        Some((k, l)) => match spec_line_end(s, k) {
            None => None,
            Some(m) => Some((m, l)),
        },
    }
}

pub proof fn lemma_spec_cell_bounds(s: Seq<u8>, i: int)
    requires
        0 <= i <= s.len(),
    ensures
        spec_cell(s, i) matches Some((j, _)) ==> i + 5 <= j <= s.len(),
{
    if i < s.len() && s[i] == 40 {
        lemma_digits_end(s, i + 1);
        let e1 = digits_end(s, i + 1);
        if e1 != i + 1 && digits_val(s, i + 1, e1) <= 0x7fffffff {
            if e1 < s.len() && s[e1] == 44 {
                lemma_digits_end(s, e1 + 1);
            }
        }
    }
}

pub proof fn lemma_spec_link_line_bounds(s: Seq<u8>, i: int)
    requires
        0 <= i <= s.len(),
    ensures
        spec_link_line(s, i) matches Some((m, _)) ==> i < m <= s.len(),
{
    lemma_space_end(s, i);
    let j = space_end(s, i);
    lemma_spec_cell_bounds(s, j);
    match spec_cell(s, j) {
        Some((k, _)) => {
            if arrow_at(s, k) {
                lemma_spec_cell_bounds(s, k + 4);
            }
        }
        None => {}
    }
}

/// The section header tag `--- Path ` starts at `i`.
pub open spec fn header_tag_at(s: Seq<u8>, i: int) -> bool {
    &&& i + 9 <= s.len()
    &&& s[i] == 45 && s[i + 1] == 45 && s[i + 2] == 45 && s[i + 3] == 32
    &&& s[i + 4] == 80 && s[i + 5] == 97 && s[i + 6] == 116 && s[i + 7] == 104
    &&& s[i + 8] == 32
}

/// An optional line terminator (consuming nothing when absent).
pub open spec fn opt_line_end(s: Seq<u8>, i: int) -> int {
    if i < s.len() && s[i] == 10 {
        i + 1
    } else if i + 1 < s.len() && s[i] == 13 && s[i + 1] == 10 {
        i + 2
    } else {
        i
    }
}

/// A section header line: an optional leading line terminator, optional
/// whitespace, the tag `--- Path `, at least one digit, ` ---`, and a
/// mandatory line terminator.  Yields the position after the line.
pub open spec fn spec_path_header(s: Seq<u8>, i: int) -> Option<int> {
    let i2 = space_end(s, opt_line_end(s, i));
    if header_tag_at(s, i2) {
        let e = digits_end(s, i2 + 9);
        if e == i2 + 9 {
            None
        } else if e + 4 <= s.len() && s[e] == 32 && s[e + 1] == 45 && s[e + 2] == 45
            && s[e + 3] == 45 {
            if e + 4 < s.len() && s[e + 4] == 10 {
                Some(e + 5)
            } else if e + 5 < s.len() && s[e + 4] == 13 && s[e + 5] == 10 {
                Some(e + 6)
            } else {
                None
            }
        } else {
            None
        }
    } else {
        None
    }
}

/// Zero or more edge lines from `i`: the position where the run of
/// well-formed edge lines ends, and the edges in encounter order.
pub open spec fn spec_links(s: Seq<u8>, i: int) -> (int, Seq<(Cell, Cell)>)
    decreases s.len() - i when 0 <= i <= s.len()
{
    match spec_link_line(s, i) {
        None => (i, seq![]),
        Some((j, l)) => {
            proof {
                lemma_spec_link_line_bounds(s, i);
            }
            let (k, rest) = spec_links(s, j);
            (k, seq![l] + rest)
        }
    }
}

pub proof fn lemma_spec_links_bounds(s: Seq<u8>, i: int)
    requires
        0 <= i <= s.len(),
    ensures
        i <= spec_links(s, i).0 <= s.len(),
    decreases s.len() - i,
{
    match spec_link_line(s, i) {
        None => {}
        Some((j, _)) => {
            lemma_spec_link_line_bounds(s, i);
            lemma_spec_links_bounds(s, j);
        }
    }
}

/// One labeled section: a header line followed by its run of edge lines.
pub open spec fn spec_path_block(s: Seq<u8>, i: int) -> Option<(int, Seq<(Cell, Cell)>)> {
    match spec_path_header(s, i) {
        None => None,
        Some(j) => Some(spec_links(s, j)),
    }
}

pub proof fn lemma_spec_path_header_bounds(s: Seq<u8>, i: int)
    requires
        0 <= i <= s.len(),
    ensures
        spec_path_header(s, i) matches Some(j) ==> i < j <= s.len(),
{
    let i1 = opt_line_end(s, i);
    lemma_space_end(s, i1);
    let i2 = space_end(s, i1);
    if header_tag_at(s, i2) {
        lemma_digits_end(s, i2 + 9);
    }
}

pub proof fn lemma_spec_path_block_bounds(s: Seq<u8>, i: int)
    requires
        0 <= i <= s.len(),
    ensures
        spec_path_block(s, i) matches Some((j, _)) ==> i < j <= s.len(),
{
    lemma_spec_path_header_bounds(s, i);
    match spec_path_header(s, i) {
        None => {}
        Some(j) => {
            lemma_spec_links_bounds(s, j);
        }
    }
}

/// The position of the first section header tag at or after `i`, if any.
pub open spec fn find_header(s: Seq<u8>, i: int) -> Option<int>
    decreases s.len() - i when 0 <= i
{
    if i + 9 > s.len() {
        None
    } else if header_tag_at(s, i) {
        Some(i)
    } else {
        find_header(s, i + 1)
    }
}

pub proof fn lemma_find_header_bounds(s: Seq<u8>, i: int)
    requires
        0 <= i,
    ensures
        find_header(s, i) matches Some(h) ==> i <= h && h + 9 <= s.len(),
    decreases s.len() - i,
{
    if i + 9 <= s.len() && !header_tag_at(s, i) {
        lemma_find_header_bounds(s, i + 1);
    }
}

/// The whole response: skip to each section header in turn, parse the
/// section, and collect the sections' edge lists in order.  `None` when
/// a found header does not continue as a well-formed header line.
pub open spec fn spec_output(s: Seq<u8>, i: int) -> Option<(int, Seq<Seq<(Cell, Cell)>>)>
    decreases s.len() - i when 0 <= i <= s.len()
{
    match find_header(s, i) {
        None => Some((i, seq![])),
        Some(h) => {
            proof {
                lemma_find_header_bounds(s, i);
            }
            match spec_path_block(s, h) {
                None => None,
                Some((j, links)) => {
                    proof {
                        lemma_spec_path_block_bounds(s, h);
                    }
                    match spec_output(s, j) {
                        None => None,
                        Some((k, rest)) => Some((k, seq![links] + rest)),
                    }
                }
            }
        }
    }
}

/// Scans to the end of the digit run starting at `pos`.
fn scan_digits(s: &[u8], pos: usize) -> (r: usize)
    requires
        pos <= s@.len(),
    ensures
        r == digits_end(s@, pos as int),
        pos <= r <= s@.len(),
    {
    let mut i = pos;
    while i < s.len() && 48 <= s[i] && s[i] <= 57
        invariant
            pos <= i <= s@.len(),
            digits_end(s@, pos as int) == digits_end(s@, i as int),
        decreases s@.len() - i,
    {
        i = i + 1;
    }
    proof {
        lemma_digits_end(s@, pos as int);
    }
    i
}

/// Scans to the end of the space/tab run starting at `pos`.
fn scan_spaces(s: &[u8], pos: usize) -> (r: usize)
    requires
        pos <= s@.len(),
    ensures
        r == space_end(s@, pos as int),
        pos <= r <= s@.len(),
    {
    let mut i = pos;
    while i < s.len() && (s[i] == 32 || s[i] == 9)
        invariant
            pos <= i <= s@.len(),
            space_end(s@, pos as int) == space_end(s@, i as int),
        decreases s@.len() - i,
    {
        i = i + 1;
    }
    i
}

/// Recognizes a decimal number at `pos`: a maximal digit run of at least
/// one digit whose value fits a 31-bit signed integer; yields the
/// position after the run and the value.
pub fn number(s: &[u8], pos: usize) -> (r: Option<(usize, u32)>)
    requires
        pos <= s@.len(),
    ensures
        (r is Some) == (spec_number(s@, pos as int) is Some),
        r matches Some((j, v)) ==> spec_number(s@, pos as int) == Some((j as int, v as int))
            && pos < j <= s@.len(),
{
    let e = scan_digits(s, pos);
    proof {
        lemma_digits_end(s@, pos as int);
    }
    if e == pos {
        return None;
    }
    let mut val: u32 = 0;
    let mut over = false;
    let mut i = pos;
    while i < e
        invariant
            pos <= i <= e <= s@.len(),
            forall|k: int| pos <= k < e ==> is_digit(#[trigger] s@[k]),
            !over ==> val == digits_val(s@, pos as int, i as int) && val <= 0x7fffffff,
            over ==> digits_val(s@, pos as int, i as int) > 0x7fffffff,
        decreases e - i,
    {
        let d = s[i] - 48;
        proof {
            assert(is_digit(s@[i as int]));
            assert(digits_val(s@, pos as int, i as int + 1)
                == digits_val(s@, pos as int, i as int) * 10 + d);
        }
        if !over {
            let t = val as u64 * 10 + d as u64;
            if t > 0x7fffffff {
                over = true;
            } else {
                val = t as u32;
            }
        } else {
            proof {
                assert(digits_val(s@, pos as int, i as int + 1) > 0x7fffffff);
            }
        }
        i = i + 1;
    }
    if over {
        None
    } else {
        Some((e, val))
    }
}

/// Recognizes a cell literal `(x,y)` at `pos`.
pub fn cell(s: &[u8], pos: usize) -> (r: Option<(usize, Cell)>)
    requires
        pos <= s@.len(),
    ensures
        (r is Some) == (spec_cell(s@, pos as int) is Some),
        r matches Some((j, c)) ==> spec_cell(s@, pos as int) == Some((j as int, c))
            && pos < j <= s@.len(),
{
    if pos < s.len() && s[pos] == 40 {
        match number(s, pos + 1) {
            None => None,
            Some((j, x)) => {
                if j < s.len() && s[j] == 44 {
                    match number(s, j + 1) {
                        None => None,
                        Some((k, y)) => {
                            if k < s.len() && s[k] == 41 {
                                Some((k + 1, Cell::new(x as usize, y as usize)))
                            } else {
                                None
                            }
                        }
                    }
                } else {
                    None
                }
            }
        }
    } else {
        None
    }
}

/// Recognizes a directed edge `(x1,y1) -> (x2,y2)` at `pos`.
pub fn link(s: &[u8], pos: usize) -> (r: Option<(usize, (Cell, Cell))>)
    requires
        pos <= s@.len(),
    ensures
        (r is Some) == (spec_link(s@, pos as int) is Some),
        r matches Some((j, l)) ==> spec_link(s@, pos as int) == Some((j as int, l))
            && pos < j <= s@.len(),
{
    match cell(s, pos) {
        None => None,
        Some((j, a)) => {
            let arrow = s.len() - j >= 4 && s[j] == 32 && s[j + 1] == 45 && s[j + 2] == 62
                && s[j + 3] == 32;
            if arrow {
                match cell(s, j + 4) {
                    None => None,
                    Some((k, b)) => Some((k, (a, b))),
                }
            } else {
                None
            }
        }
    }
}

/// Recognizes a newline or carriage-return + newline at `pos`, or the
/// end of the input; yields the position after it.
fn line_end(s: &[u8], pos: usize) -> (r: Option<usize>)
    requires
        pos <= s@.len(),
    ensures
        match r {
            Some(j) => spec_line_end(s@, pos as int) == Some(j as int) && pos <= j <= s@.len(),
            None => spec_line_end(s@, pos as int) is None,
        },
{
    if pos == s.len() {
        Some(pos)
    } else if s[pos] == 10 {
        Some(pos + 1)
    } else if s[pos] == 13 && pos + 1 < s.len() && s[pos + 1] == 10 {
        Some(pos + 2)
    } else {
        None
    }
}

/// Recognizes one edge line at `pos`: optional leading whitespace, an
/// edge, and a line terminator (or end of input).
pub fn link_line(s: &[u8], pos: usize) -> (r: Option<(usize, (Cell, Cell))>)
    requires
        pos <= s@.len(),
    ensures
        (r is Some) == (spec_link_line(s@, pos as int) is Some),
        r matches Some((j, l)) ==> spec_link_line(s@, pos as int) == Some((j as int, l))
            && pos < j <= s@.len(),
{
    let j = scan_spaces(s, pos);
    match link(s, j) {
        None => None,
        Some((k, l)) => match line_end(s, k) {
            None => None,
            Some(m) => Some((m, l)),
        },
    }
}

/// The per-section edge lists denoted by a vector of edge vectors.
pub open spec fn sections_of(v: Seq<Vec<(Cell, Cell)>>) -> Seq<Seq<(Cell, Cell)>> {
    Seq::new(v.len(), |i: int| v[i]@)
}

/// Recognizes a section header line at `pos`.
pub fn path_header(s: &[u8], pos: usize) -> (r: Option<usize>)
    requires
        pos <= s@.len(),
    ensures
        match r {
            Some(j) => spec_path_header(s@, pos as int) == Some(j as int) && pos < j <= s@.len(),
            None => spec_path_header(s@, pos as int) is None,
        },
{
    proof {
        lemma_spec_path_header_bounds(s@, pos as int);
    }
    let i1 = if pos < s.len() && s[pos] == 10 {
        pos + 1
    } else if pos < s.len() && s[pos] == 13 && pos + 1 < s.len() && s[pos + 1] == 10 {
        pos + 2
    } else {
        pos
    };
    let i2 = scan_spaces(s, i1);
    let tag = s.len() - i2 >= 9 && s[i2] == 45 && s[i2 + 1] == 45 && s[i2 + 2] == 45
        && s[i2 + 3] == 32 && s[i2 + 4] == 80 && s[i2 + 5] == 97 && s[i2 + 6] == 116
        && s[i2 + 7] == 104 && s[i2 + 8] == 32;
    if !tag {
        return None;
    }
    let e = scan_digits(s, i2 + 9);
    if e == i2 + 9 {
        return None;
    }
    let tail = s.len() - e >= 4 && s[e] == 32 && s[e + 1] == 45 && s[e + 2] == 45
        && s[e + 3] == 45;
    if !tail {
        return None;
    }
    if s.len() - e > 4 && s[e + 4] == 10 {
        Some(e + 5)
    } else if s.len() - e > 5 && s[e + 4] == 13 && s[e + 5] == 10 {
        Some(e + 6)
    } else {
        None
    }
}

/// Recognizes one labeled section at `pos`: its header line, then every
/// well-formed edge line that follows; the first line that is not a
/// well-formed edge line ends the section without failing it.
pub fn path_block(s: &[u8], pos: usize) -> (r: Option<(usize, Vec<(Cell, Cell)>)>)
    requires
        pos <= s@.len(),
    ensures
        match r {
            Some((j, v)) => spec_path_block(s@, pos as int) == Some((j as int, v@))
                && pos < j <= s@.len(),
            None => spec_path_block(s@, pos as int) is None,
        },
{
    let start = match path_header(s, pos) {
        None => {
            return None;
        }
        Some(j) => j,
    };
    let mut out: Vec<(Cell, Cell)> = Vec::new();
    let mut i = start;
    while link_line(s, i).is_some()
        invariant
            pos < start <= i <= s@.len(),
            spec_links(s@, start as int) == {
                let (k, rest) = spec_links(s@, i as int);
                (k, out@ + rest)
            },
        decreases s@.len() - i,
    {
        let (j, l) = link_line(s, i).unwrap();
        let ghost prev = out@;
        out.push(l);
        proof {
            lemma_spec_link_line_bounds(s@, i as int);
            let (k2, rest2) = spec_links(s@, j as int);
            assert(spec_links(s@, i as int) == (k2, seq![l] + rest2));
            assert(prev + (seq![l] + rest2) =~= out@ + rest2);
        }
        i = j;
    }
    proof {
        assert(spec_links(s@, i as int) == (i as int, Seq::<(Cell, Cell)>::empty()));
        assert(out@ + Seq::<(Cell, Cell)>::empty() =~= out@);
        lemma_spec_links_bounds(s@, start as int);
    }
    Some((i, out))
}

/// The position of the next section header tag at or after `pos`,
/// skipping everything before it.
pub fn skip_until_path(s: &[u8], pos: usize) -> (r: Option<usize>)
    requires
        pos <= s@.len(),
    ensures
        match r {
            Some(h) => find_header(s@, pos as int) == Some(h as int) && pos <= h
                && h + 9 <= s@.len(),
            None => find_header(s@, pos as int) is None,
        },
{
    if s.len() < 9 {
        return None;
    }
    let mut i = pos;
    while i <= s.len() - 9
        invariant
            pos <= i,
            i <= s@.len(),
            s@.len() >= 9,
            find_header(s@, pos as int) == find_header(s@, i as int),
        decreases s@.len() - i,
    {
        let tag = s[i] == 45 && s[i + 1] == 45 && s[i + 2] == 45 && s[i + 3] == 32
            && s[i + 4] == 80 && s[i + 5] == 97 && s[i + 6] == 116 && s[i + 7] == 104
            && s[i + 8] == 32;
        if tag {
            return Some(i);
        }
        i = i + 1;
    }
    None
}

/// Scans a whole solver response: finds every labeled section in order
/// and collects each section's directed edges.  `None` when a found
/// header does not continue as a well-formed header line; text between
/// and after sections is ignored.
pub fn parse_neos_output(input: &str) -> (r: Option<Vec<Vec<(Cell, Cell)>>>)
    ensures
        match r {
            Some(v) => {
                &&& spec_output(input.spec_bytes(), 0) matches Some((_, secs))
                &&& sections_of(v@) == spec_output(input.spec_bytes(), 0)->Some_0.1
            },
            None => spec_output(input.spec_bytes(), 0) is None,
        },
{
    let s = input.as_bytes();
    let mut out: Vec<Vec<(Cell, Cell)>> = Vec::new();
    let mut pos: usize = 0;
    loop
        invariant
            pos <= s@.len(),
            s@ == input.spec_bytes(),
            spec_output(s@, 0) == {
                match spec_output(s@, pos as int) {
                    None => None::<(int, Seq<Seq<(Cell, Cell)>>)>,
                    Some((k, rest)) => Some((k, sections_of(out@) + rest)),
                }
            },
        ensures
            pos <= s@.len(),
            s@ == input.spec_bytes(),
            spec_output(s@, 0) == {
                match spec_output(s@, pos as int) {
                    None => None::<(int, Seq<Seq<(Cell, Cell)>>)>,
                    Some((k, rest)) => Some((k, sections_of(out@) + rest)),
                }
            },
            find_header(s@, pos as int) is None,
        decreases s@.len() - pos,
    {
        let h = match skip_until_path(s, pos) {
            None => {
                break;
            }
            Some(h) => h,
        };
        match path_block(s, h) {
            None => {
                return None;
            }
            Some((np, links)) => {
                let ghost prev = sections_of(out@);
                let ghost links_v = links@;
                out.push(links);
                proof {
                    assert(sections_of(out@) =~= prev.push(links_v));
                    let (k2, rest2) = spec_output(s@, np as int)->Some_0;
                    if spec_output(s@, np as int) is Some {
                        assert(prev + (seq![links_v] + rest2) =~= sections_of(out@) + rest2);
                    }
                }
                pos = np;
            }
        }
    }
    proof {
        assert(find_header(s@, pos as int) is None);
        assert(spec_output(s@, pos as int) == Some((pos as int, Seq::<Seq<(Cell, Cell)>>::empty())));
        assert(sections_of(out@) + Seq::<Seq<(Cell, Cell)>>::empty() =~= sections_of(out@));
    }
    Some(out)
}

// ---------------------------------------------------------------------
// Formatting: the inverse direction of the grammar.  An ordered edge
// list is rendered back into the literal section syntax, and re-parsing
// the rendering yields the same edge list (proved below).

/// The decimal digit bytes of a non-negative number, most significant
/// first, without leading zeros.
pub open spec fn dec_bytes(n: int) -> Seq<u8>
    decreases n when n >= 0
{
    if n < 10 {
        seq![(48 + n) as u8]
    } else {
        dec_bytes(n / 10) + seq![(48 + n % 10) as u8]
    }
}

/// The rendering of one cell: `(x,y)`.
pub open spec fn spec_format_cell(c: Cell) -> Seq<u8> {
    seq![40u8] + dec_bytes(c.x as int) + seq![44u8] + dec_bytes(c.y as int) + seq![41u8]
}

/// The rendering of one edge: `(x1,y1) -> (x2,y2)`.
pub open spec fn spec_format_link(l: (Cell, Cell)) -> Seq<u8> {
    spec_format_cell(l.0) + seq![32u8, 45u8, 62u8, 32u8] + spec_format_cell(l.1)
}

/// The rendering of an edge list: one edge line per edge, each closed by
/// a newline.
pub open spec fn spec_format_links(ls: Seq<(Cell, Cell)>) -> Seq<u8>
    decreases ls.len(),
{
    if ls.len() == 0 {
        seq![]
    } else {
        spec_format_link(ls[0]) + seq![10u8] + spec_format_links(ls.drop_first())
    }
}

/// The rendering of one labeled section: the header line `--- Path N ---`
/// followed by the edge lines.
pub open spec fn spec_format_section(n: int, ls: Seq<(Cell, Cell)>) -> Seq<u8> {
    seq![45u8, 45u8, 45u8, 32u8, 80u8, 97u8, 116u8, 104u8, 32u8] + dec_bytes(n)
        + seq![32u8, 45u8, 45u8, 45u8, 10u8] + spec_format_links(ls)
}

pub proof fn lemma_format_links_push(ls: Seq<(Cell, Cell)>, l: (Cell, Cell))
    ensures
        spec_format_links(ls.push(l)) == spec_format_links(ls) + spec_format_link(l) + seq![10u8],
    decreases ls.len(),
{
    if ls.len() == 0 {
        assert(ls.push(l)[0] == l);
        assert(ls.push(l).drop_first() =~= Seq::<(Cell, Cell)>::empty());
        assert(spec_format_link(l) + seq![10u8] + spec_format_links(Seq::<(Cell, Cell)>::empty())
            =~= spec_format_links(ls) + spec_format_link(l) + seq![10u8]);
    } else {
        assert(ls.push(l)[0] == ls[0]);
        assert(ls.push(l).drop_first() =~= ls.drop_first().push(l));
        lemma_format_links_push(ls.drop_first(), l);
        assert(spec_format_link(ls[0]) + seq![10u8] + (spec_format_links(ls.drop_first())
            + spec_format_link(l) + seq![10u8])
            =~= spec_format_links(ls) + spec_format_link(l) + seq![10u8]);
    }
}

/// Appends the decimal rendering of `n` to `out`.
fn push_dec_bytes(out: &mut Vec<u8>, n: usize)
    ensures
        final(out)@ == old(out)@ + dec_bytes(n as int),
    decreases n,
{
    if n >= 10 {
        push_dec_bytes(out, n / 10);
    }
    let ghost mid = out@;
    let d: u8 = (n % 10) as u8;
    out.push(48 + d);
    proof {
        if n >= 10 {
            assert(old(out)@ + dec_bytes((n / 10) as int) + seq![(48 + (n as int) % 10) as u8]
                =~= old(out)@ + dec_bytes(n as int));
            assert(out@ =~= mid + seq![(48 + (n as int) % 10) as u8]);
        } else {
            assert(out@ =~= old(out)@ + dec_bytes(n as int));
        }
    }
}

/// Appends the rendering of one cell to `out`.
fn push_cell(out: &mut Vec<u8>, c: Cell)
    ensures
        final(out)@ == old(out)@ + spec_format_cell(c),
{
    out.push(40);
    push_dec_bytes(out, c.x);
    out.push(44);
    push_dec_bytes(out, c.y);
    out.push(41);
    proof {
        assert(out@ =~= old(out)@ + spec_format_cell(c));
    }
}

/// Renders an ordered edge list back into the literal section syntax,
/// labeled with the section number `n`.
pub fn format_section(n: usize, links: &Vec<(Cell, Cell)>) -> (r: Vec<u8>)
    ensures
        r@ == spec_format_section(n as int, links@),
{
    let mut out: Vec<u8> = Vec::new();
    out.push(45);
    out.push(45);
    out.push(45);
    out.push(32);
    out.push(80);
    out.push(97);
    out.push(116);
    out.push(104);
    out.push(32);
    push_dec_bytes(&mut out, n);
    out.push(32);
    out.push(45);
    out.push(45);
    out.push(45);
    out.push(10);
    proof {
        assert(out@ =~= seq![45u8, 45u8, 45u8, 32u8, 80u8, 97u8, 116u8, 104u8, 32u8]
            + dec_bytes(n as int) + seq![32u8, 45u8, 45u8, 45u8, 10u8]);
        assert(spec_format_links(links@.take(0)) =~= Seq::<u8>::empty());
        assert(out@ + spec_format_links(links@.take(0)) =~= out@);
    }
    let ghost header = out@;
    let mut i: usize = 0;
    while i < links.len()
        invariant
            i <= links@.len(),
            header == seq![45u8, 45u8, 45u8, 32u8, 80u8, 97u8, 116u8, 104u8, 32u8]
                + dec_bytes(n as int) + seq![32u8, 45u8, 45u8, 45u8, 10u8],
            out@ == header + spec_format_links(links@.take(i as int)),
        decreases links@.len() - i,
    {
        let (a, b) = links[i];
        let ghost before = out@;
        push_cell(&mut out, a);
        out.push(32);
        out.push(45);
        out.push(62);
        out.push(32);
        push_cell(&mut out, b);
        out.push(10);
        proof {
            assert(out@ =~= before + spec_format_link((a, b)) + seq![10u8]);
            assert(links@.take(i + 1) =~= links@.take(i as int).push(links@[i as int]));
            lemma_format_links_push(links@.take(i as int), links@[i as int]);
            assert(out@ =~= header + spec_format_links(links@.take(i + 1)));
        }
        i = i + 1;
    }
    proof {
        assert(links@.take(links@.len() as int) =~= links@);
    }
    out
}

// ---------------------------------------------------------------------
// The grammar round-trip law: re-parsing a rendered section yields the
// same edge list, order preserved.

/// The bytes of `t` appear in `s` starting at `i`.
pub open spec fn bytes_at(s: Seq<u8>, i: int, t: Seq<u8>) -> bool {
    0 <= i && i + t.len() <= s.len() && s.subrange(i, i + t.len() as int) == t
}

pub proof fn lemma_bytes_at_index(s: Seq<u8>, i: int, t: Seq<u8>, k: int)
    requires
        bytes_at(s, i, t),
        0 <= k < t.len(),
    ensures
        s[i + k] == t[k],
{
    assert(s.subrange(i, i + t.len() as int)[k] == s[i + k]);
}

pub proof fn lemma_bytes_at_concat(s: Seq<u8>, i: int, t1: Seq<u8>, t2: Seq<u8>)
    requires
        bytes_at(s, i, t1 + t2),
    ensures
        bytes_at(s, i, t1),
        bytes_at(s, i + t1.len(), t2),
{
    assert forall|k: int| 0 <= k < t1.len() implies s[i + k] == t1[k] by {
        lemma_bytes_at_index(s, i, t1 + t2, k);
        assert((t1 + t2)[k] == t1[k]);
    }
    assert(s.subrange(i, i + t1.len() as int) =~= t1);
    assert forall|k: int| 0 <= k < t2.len() implies s[i + t1.len() + k] == t2[k] by {
        lemma_bytes_at_index(s, i, t1 + t2, t1.len() + k);
        assert((t1 + t2)[t1.len() + k] == t2[k]);
    }
    assert(s.subrange(i + t1.len(), i + t1.len() + t2.len() as int) =~= t2);
}

pub proof fn lemma_dec_bytes_digits(n: int)
    requires
        n >= 0,
    ensures
        dec_bytes(n).len() >= 1,
        forall|k: int| 0 <= k < dec_bytes(n).len() ==> is_digit(#[trigger] dec_bytes(n)[k]),
    decreases n,
{
    if n >= 10 {
        lemma_dec_bytes_digits(n / 10);
        assert forall|k: int| 0 <= k < dec_bytes(n).len()
            implies is_digit(#[trigger] dec_bytes(n)[k]) by {
            if k < dec_bytes(n / 10).len() {
                assert(dec_bytes(n)[k] == dec_bytes(n / 10)[k]);
            } else {
                assert(dec_bytes(n)[k] == (48 + n % 10) as u8);
            }
        }
    }
}

pub proof fn lemma_digits_end_of_run(s: Seq<u8>, i: int, j: int)
    requires
        0 <= i <= j <= s.len(),
        forall|k: int| i <= k < j ==> is_digit(#[trigger] s[k]),
        j == s.len() || !is_digit(s[j]),
    ensures
        digits_end(s, i) == j,
    decreases j - i,
{
    if i < j {
        lemma_digits_end_of_run(s, i + 1, j);
    }
}

pub proof fn lemma_digits_val_of_dec(s: Seq<u8>, i: int, n: int)
    requires
        n >= 0,
        bytes_at(s, i, dec_bytes(n)),
    ensures
        digits_val(s, i, i + dec_bytes(n).len()) == n,
    decreases n,
{
    if n < 10 {
        lemma_bytes_at_index(s, i, dec_bytes(n), 0);
        assert(digits_val(s, i, i + 1) == digits_val(s, i, i) * 10 + (s[i] - 48));
    } else {
        lemma_bytes_at_concat(s, i, dec_bytes(n / 10), seq![(48 + n % 10) as u8]);
        lemma_digits_val_of_dec(s, i, n / 10);
        let ll = dec_bytes(n / 10).len() as int;
        lemma_bytes_at_index(s, i + ll, seq![(48 + n % 10) as u8], 0);
        assert(s[i + ll] == (48 + n % 10) as u8);
        assert(digits_val(s, i, i + ll + 1) == digits_val(s, i, i + ll) * 10 + (s[i + ll] - 48));
        vstd::arithmetic::div_mod::lemma_fundamental_div_mod(n, 10);
    }
}

pub proof fn lemma_number_of_dec(s: Seq<u8>, i: int, n: int)
    requires
        0 <= n <= 0x7fffffff,
        bytes_at(s, i, dec_bytes(n)),
        i + dec_bytes(n).len() == s.len() || !is_digit(s[i + dec_bytes(n).len()]),
    ensures
        spec_number(s, i) == Some((i + dec_bytes(n).len(), n)),
{
    lemma_dec_bytes_digits(n);
    let j = i + dec_bytes(n).len() as int;
    assert forall|k: int| i <= k < j implies is_digit(#[trigger] s[k]) by {
        lemma_bytes_at_index(s, i, dec_bytes(n), k - i);
    }
    lemma_digits_end_of_run(s, i, j);
    lemma_digits_val_of_dec(s, i, n);
}

/// A cell whose coordinates survive the 31-bit parse bound.
pub open spec fn cell_bounded(c: Cell) -> bool {
    c.x <= 0x7fffffff && c.y <= 0x7fffffff
}

pub proof fn lemma_cell_of_format(s: Seq<u8>, i: int, c: Cell)
    requires
        cell_bounded(c),
        bytes_at(s, i, spec_format_cell(c)),
    ensures
        spec_cell(s, i) == Some((i + spec_format_cell(c).len(), c)),
{
    let dx = dec_bytes(c.x as int);
    let dy = dec_bytes(c.y as int);
    assert(spec_format_cell(c)
        =~= seq![40u8] + (dx + (seq![44u8] + (dy + seq![41u8]))));
    lemma_bytes_at_concat(s, i, seq![40u8], dx + (seq![44u8] + (dy + seq![41u8])));
    lemma_bytes_at_index(s, i, seq![40u8], 0);
    lemma_bytes_at_concat(s, i + 1, dx, seq![44u8] + (dy + seq![41u8]));
    let j = i + 1 + dx.len() as int;
    lemma_bytes_at_concat(s, j, seq![44u8], dy + seq![41u8]);
    lemma_bytes_at_index(s, j, seq![44u8], 0);
    lemma_bytes_at_concat(s, j + 1, dy, seq![41u8]);
    let k = j + 1 + dy.len() as int;
    lemma_bytes_at_index(s, k, seq![41u8], 0);
    lemma_number_of_dec(s, i + 1, c.x as int);
    lemma_number_of_dec(s, j + 1, c.y as int);
    assert(spec_cell(s, i) == Some((k + 1, Cell { x: c.x, y: c.y })));
    assert(Cell { x: c.x, y: c.y } == c);
}

pub proof fn lemma_link_line_of_format(s: Seq<u8>, i: int, l: (Cell, Cell))
    requires
        cell_bounded(l.0),
        cell_bounded(l.1),
        bytes_at(s, i, spec_format_link(l) + seq![10u8]),
    ensures
        spec_link_line(s, i) == Some((i + spec_format_link(l).len() + 1, l)),
{
    let fa = spec_format_cell(l.0);
    let fb = spec_format_cell(l.1);
    let arrow = seq![32u8, 45u8, 62u8, 32u8];
    assert(spec_format_link(l) + seq![10u8] =~= fa + (arrow + (fb + seq![10u8])));
    lemma_bytes_at_concat(s, i, fa, arrow + (fb + seq![10u8]));
    let j = i + fa.len() as int;
    lemma_bytes_at_concat(s, j, arrow, fb + seq![10u8]);
    lemma_bytes_at_index(s, j, arrow, 0);
    lemma_bytes_at_index(s, j, arrow, 1);
    lemma_bytes_at_index(s, j, arrow, 2);
    lemma_bytes_at_index(s, j, arrow, 3);
    let k = j + 4;
    lemma_bytes_at_concat(s, k, fb, seq![10u8]);
    let m = k + fb.len() as int;
    lemma_bytes_at_index(s, m, seq![10u8], 0);
    lemma_cell_of_format(s, i, l.0);
    lemma_cell_of_format(s, k, l.1);
    // The line starts with '(' so no leading whitespace is consumed.
    lemma_bytes_at_index(s, i, fa, 0);
    assert(fa[0] == 40) by {
        assert(fa =~= seq![40u8] + (dec_bytes(l.0.x as int) + (seq![44u8]
            + (dec_bytes(l.0.y as int) + seq![41u8]))));
    }
    assert(space_end(s, i) == i);
    assert(spec_line_end(s, m) == Some(m + 1));
}

/// All edges render with parseable coordinates.
pub open spec fn links_bounded(ls: Seq<(Cell, Cell)>) -> bool {
    forall|k: int| 0 <= k < ls.len()
        ==> cell_bounded((#[trigger] ls[k]).0) && cell_bounded(ls[k].1)
}

pub proof fn lemma_links_of_format(s: Seq<u8>, i: int, ls: Seq<(Cell, Cell)>)
    requires
        links_bounded(ls),
        bytes_at(s, i, spec_format_links(ls)),
        i + spec_format_links(ls).len() == s.len(),
    ensures
        spec_links(s, i) == (s.len() as int, ls),
    decreases ls.len(),
{
    if ls.len() == 0 {
        assert(i == s.len());
        assert(space_end(s, i) == i);
        assert(spec_cell(s, i) is None);
        assert(spec_links(s, i) == (i, Seq::<(Cell, Cell)>::empty()));
        assert(Seq::<(Cell, Cell)>::empty() =~= ls);
    } else {
        let fl = spec_format_link(ls[0]);
        let rest = spec_format_links(ls.drop_first());
        assert(spec_format_links(ls) =~= (fl + seq![10u8]) + rest);
        lemma_bytes_at_concat(s, i, fl + seq![10u8], rest);
        let j = i + fl.len() + 1;
        lemma_link_line_of_format(s, i, ls[0]);
        assert(links_bounded(ls.drop_first())) by {
            assert(forall|k: int| 0 <= k < ls.drop_first().len()
                ==> #[trigger] ls.drop_first()[k] == ls[k + 1]);
        }
        lemma_links_of_format(s, j, ls.drop_first());
        assert(spec_links(s, i) == (s.len() as int, seq![ls[0]] + ls.drop_first()));
        assert(seq![ls[0]] + ls.drop_first() =~= ls);
    }
}

/// The grammar round-trip law: rendering an
/// ordered edge list into the literal section syntax, under any section
/// number, and re-parsing the rendering yields exactly that edge list
/// back, order preserved, as the single section of the scan.
pub proof fn lemma_format_parse_round_trip(n: int, ls: Seq<(Cell, Cell)>)
    requires
        n >= 0,
        links_bounded(ls),
    ensures
        spec_output(spec_format_section(n, ls), 0)
            == Some((spec_format_section(n, ls).len() as int, seq![ls])),
{
    let s = spec_format_section(n, ls);
    let tag = seq![45u8, 45u8, 45u8, 32u8, 80u8, 97u8, 116u8, 104u8, 32u8];
    let dn = dec_bytes(n);
    let tail = seq![32u8, 45u8, 45u8, 45u8, 10u8];
    let body = spec_format_links(ls);
    assert(s =~= tag + (dn + (tail + body)));
    assert(bytes_at(s, 0, s)) by {
        assert(s.subrange(0, s.len() as int) =~= s);
    }
    lemma_bytes_at_concat(s, 0, tag, dn + (tail + body));
    lemma_bytes_at_index(s, 0, tag, 0);
    lemma_bytes_at_index(s, 0, tag, 1);
    lemma_bytes_at_index(s, 0, tag, 2);
    lemma_bytes_at_index(s, 0, tag, 3);
    lemma_bytes_at_index(s, 0, tag, 4);
    lemma_bytes_at_index(s, 0, tag, 5);
    lemma_bytes_at_index(s, 0, tag, 6);
    lemma_bytes_at_index(s, 0, tag, 7);
    lemma_bytes_at_index(s, 0, tag, 8);
    assert(header_tag_at(s, 0));
    assert(find_header(s, 0) == Some(0int));
    lemma_bytes_at_concat(s, 9, dn, tail + body);
    let e = 9 + dn.len() as int;
    lemma_bytes_at_concat(s, e, tail, body);
    lemma_bytes_at_index(s, e, tail, 0);
    lemma_bytes_at_index(s, e, tail, 1);
    lemma_bytes_at_index(s, e, tail, 2);
    lemma_bytes_at_index(s, e, tail, 3);
    lemma_bytes_at_index(s, e, tail, 4);
    // Header line: no leading terminator or spaces, digits end at the
    // blank before the closing dashes.
    assert(opt_line_end(s, 0) == 0);
    assert(space_end(s, 0) == 0);
    lemma_dec_bytes_digits(n);
    assert forall|k: int| 9 <= k < e implies is_digit(#[trigger] s[k]) by {
        lemma_bytes_at_index(s, 9, dn, k - 9);
    }
    lemma_digits_end_of_run(s, 9, e);
    assert(spec_path_header(s, 0) == Some(e + 5));
    lemma_links_of_format(s, e + 5, ls);
    assert(spec_path_block(s, 0) == Some((s.len() as int, ls)));
    assert(find_header(s, s.len() as int) is None);
    assert(spec_output(s, s.len() as int)
        == Some((s.len() as int, Seq::<Seq<(Cell, Cell)>>::empty())));
    assert(seq![ls] + Seq::<Seq<(Cell, Cell)>>::empty() =~= seq![ls]);
}

} // verus!
