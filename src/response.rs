//! The response parser: status line, header block and body out of the text
//! that a peer sent before it closed the connection.

use vstd::prelude::*;

use crate::text::{
    chars_of, is_white, lossy_of, lossy_text, lower_of, lowercase, string_of, trim_of, trimmed,
    white_of,
};
use crate::HttpError;

verus! {

/// Whether the blank-line separator `\r\n\r\n` starts at `i`.
pub open spec fn sep_at(s: Seq<char>, i: int) -> bool {
    &&& 0 <= i
    &&& i + 4 <= s.len()
    &&& s[i] == '\r'
    &&& s[i + 1] == '\n'
    &&& s[i + 2] == '\r'
    &&& s[i + 3] == '\n'
}

/// The first separator at or after `i`, or `s.len()` where there is none.
pub open spec fn sep_from(s: Seq<char>, i: int) -> int
    decreases s.len() - i,
{
    if i < 0 || i + 4 > s.len() {
        s.len() as int
    } else if sep_at(s, i) {
        i
    } else {
        sep_from(s, i + 1)
    }
}

/// The header block: everything before the first separator.
pub open spec fn head_of(s: Seq<char>) -> Seq<char> {
    s.subrange(0, sep_from(s, 0))
}

/// The body: everything after the first separator, absent where that is empty.
pub open spec fn body_of(s: Seq<char>) -> Option<Seq<char>> {
    let k = sep_from(s, 0);
    if k + 4 < s.len() {
        Some(s.subrange(k + 4, s.len() as int))
    } else {
        None
    }
}

/// A line without the carriage return that ended it.
pub open spec fn drop_cr(l: Seq<char>) -> Seq<char> {
    if l.len() > 0 && l.last() == '\r' {
        l.drop_last()
    } else {
        l
    }
}

/// The lines of `s` from position `i` on, where the current line began at `start`:
/// lines end at `\n` (with a `\r` before it dropped), and a last line without
/// an ending counts where it is not empty.
pub open spec fn lines_from(s: Seq<char>, i: int, start: int) -> Seq<Seq<char>>
    decreases s.len() - i,
{
    if i >= s.len() {
        if start < s.len() {
            seq![s.subrange(start, s.len() as int)]
        } else {
            seq![]
        }
    } else if s[i] == '\n' {
        seq![drop_cr(s.subrange(start, i))] + lines_from(s, i + 1, i + 1)
    } else {
        lines_from(s, i + 1, start)
    }
}

/// The lines of a text.
pub open spec fn lines(s: Seq<char>) -> Seq<Seq<char>> {
    lines_from(s, 0, 0)
}

/// The first position at or after `i` that holds `c`, or `s.len()`.
pub open spec fn index_from(s: Seq<char>, c: char, i: int) -> int
    decreases s.len() - i,
{
    if i < 0 || i >= s.len() {
        s.len() as int
    } else if s[i] == c {
        i
    } else {
        index_from(s, c, i + 1)
    }
}

/// The first non-whitespace position at or after `i`, or `s.len()`.
pub open spec fn skip_white(s: Seq<char>, i: int) -> int
    decreases s.len() - i,
{
    if i < 0 || i >= s.len() {
        s.len() as int
    } else if white_of(s[i]) {
        skip_white(s, i + 1)
    } else {
        i
    }
}

/// The first whitespace position at or after `i`, or `s.len()`.
pub open spec fn word_end(s: Seq<char>, i: int) -> int
    decreases s.len() - i,
{
    if i < 0 || i >= s.len() {
        s.len() as int
    } else if white_of(s[i]) {
        i
    } else {
        word_end(s, i + 1)
    }
}

/// The second whitespace-delimited word of a line, if it has one.
pub open spec fn second_word(s: Seq<char>) -> Option<Seq<char>> {
    let e0 = word_end(s, skip_white(s, 0));
    let a1 = skip_white(s, e0);
    if a1 < s.len() {
        Some(s.subrange(a1, word_end(s, a1)))
    } else {
        None
    }
}

/// An ASCII decimal digit.
pub open spec fn is_digit(c: char) -> bool {
    '0' <= c <= '9'
}

/// The value of a run of decimal digits.
pub open spec fn digits_value(s: Seq<char>) -> nat
    decreases s.len(),
{
    if s.len() == 0 {
        0
    } else {
        digits_value(s.drop_last()) * 10 + (s.last() as nat - '0' as nat) as nat
    }
}

/// A status code, read as any non-negative integer that the machine holds:
/// an optional `+`, then at least one digit.
pub open spec fn code_of(s: Seq<char>) -> Option<u64> {
    digits_code(unsigned_part(s))
}

/// A text without the `+` sign that it may start with.
pub open spec fn unsigned_part(s: Seq<char>) -> Seq<char> {
    if s.len() > 0 && s[0] == '+' {
        s.drop_first()
    } else {
        s
    }
}

/// A run of at least one digit whose value fits in `u64`, read.
pub open spec fn digits_code(d: Seq<char>) -> Option<u64> {
    if d.len() > 0 && (forall|i: int| 0 <= i < d.len() ==> is_digit(#[trigger] d[i]))
        && digits_value(d) <= u64::MAX {
        Some(digits_value(d) as u64)
    } else {
        None
    }
}

/// The status code of a response text, where its status line has one.
pub open spec fn status_of(s: Seq<char>) -> Option<u64> {
    let ls = lines(head_of(s));
    if ls.len() == 0 {
        None
    } else {
        match second_word(ls[0]) {
            Some(w) => code_of(w),
            None => None,
        }
    }
}

/// The header that a line holds: the name before its first colon, trimmed and
/// lower-cased, and the trimmed value after it.
pub open spec fn header_entry(l: Seq<char>) -> Option<(Seq<char>, Seq<char>)> {
    let k = index_from(l, ':', 0);
    if k < l.len() {
        Some((lower_of(trim_of(l.subrange(0, k))), trim_of(l.subrange(k + 1, l.len() as int))))
    } else {
        None
    }
}

/// The headers of a run of header lines: a later line overrides an earlier one.
pub open spec fn header_map(ls: Seq<Seq<char>>) -> Map<Seq<char>, Seq<char>>
    decreases ls.len(),
{
    if ls.len() == 0 {
        Map::empty()
    } else {
        let m = header_map(ls.drop_last());
        match header_entry(ls.last()) {
            Some(e) => m.insert(e.0, e.1),
            None => m,
        }
    }
}

/// The headers of a response text.
pub open spec fn headers_of(s: Seq<char>) -> Map<Seq<char>, Seq<char>> {
    let ls = lines(head_of(s));
    header_map(ls.subrange(1, ls.len() as int))
}

/// The name-to-value map that a list of header pairs stands for: a later pair
/// overrides an earlier one.
pub open spec fn headers_map(v: Seq<(String, String)>) -> Map<Seq<char>, Seq<char>>
    decreases v.len(),
{
    if v.len() == 0 {
        Map::empty()
    } else {
        headers_map(v.drop_last()).insert(v.last().0@, v.last().1@)
    }
}

/// No two pairs share a name.
pub open spec fn names_unique(v: Seq<(String, String)>) -> bool {
    forall|i: int, j: int| 0 <= i < j < v.len() ==> v[i].0@ != v[j].0@
}

/// The text that an optional string holds, if any.
pub open spec fn opt_view(o: Option<String>) -> Option<Seq<char>> {
    match o {
        Some(s) => Some(s@),
        None => None,
    }
}

} // verus!

verus! {

/// A parsed response: its status code, its headers (names lower-cased, values
/// trimmed) and its body, absent where nothing followed the header block.
#[derive(Debug, Clone)]
pub struct Response {
    pub status: u64,
    pub headers: Vec<(String, String)>,
    pub body: Option<String>,
}

/// A name is in the map of a list of pairs exactly where some pair has it.
proof fn lemma_headers_map_dom(v: Seq<(String, String)>, k: Seq<char>)
    ensures
        headers_map(v).contains_key(k) <==> exists|j: int| 0 <= j < v.len() && v[j].0@ == k,
    decreases v.len(),
{
    if v.len() > 0 {
        lemma_headers_map_dom(v.drop_last(), k);
        if headers_map(v.drop_last()).contains_key(k) {
            let j = choose|j: int| 0 <= j < v.drop_last().len() && v.drop_last()[j].0@ == k;
            assert(v[j].0@ == k);
        }
        if exists|j: int| 0 <= j < v.len() && v[j].0@ == k {
            let j = choose|j: int| 0 <= j < v.len() && v[j].0@ == k;
            if j < v.len() - 1 {
                assert(v.drop_last()[j].0@ == k);
            }
        }
    }
}

/// The value of a name is that of the last pair that has it.
proof fn lemma_headers_map_last(v: Seq<(String, String)>, j: int)
    requires
        0 <= j < v.len(),
        forall|i: int| j < i < v.len() ==> v[i].0@ != v[j].0@,
    ensures
        headers_map(v).contains_key(v[j].0@),
        headers_map(v)[v[j].0@] == v[j].1@,
    decreases v.len(),
{
    if j < v.len() - 1 {
        lemma_headers_map_last(v.drop_last(), j);
        assert(v.drop_last()[j] == v[j]);
    }
}

/// Replacing the value of a pair whose name no other pair has sets that name.
proof fn lemma_headers_map_update(v: Seq<(String, String)>, j: int, e: (String, String))
    requires
        0 <= j < v.len(),
        names_unique(v),
        e.0@ == v[j].0@,
    ensures
        headers_map(v.update(j, e)) == headers_map(v).insert(e.0@, e.1@),
        names_unique(v.update(j, e)),
{
    let w = v.update(j, e);
    assert forall|k: Seq<char>| #[trigger] headers_map(w).contains_key(k) <==> headers_map(
        v,
    ).insert(e.0@, e.1@).contains_key(k) by {
        lemma_headers_map_dom(v, k);
        lemma_headers_map_dom(w, k);
        if exists|i: int| 0 <= i < v.len() && v[i].0@ == k {
            let i = choose|i: int| 0 <= i < v.len() && v[i].0@ == k;
            assert(w[i].0@ == k);
        }
        if exists|i: int| 0 <= i < w.len() && w[i].0@ == k {
            let i = choose|i: int| 0 <= i < w.len() && w[i].0@ == k;
            assert(v[i].0@ == k);
        }
    }
    assert forall|k: Seq<char>| #[trigger] headers_map(w).contains_key(k) implies headers_map(
        w,
    )[k] == headers_map(v).insert(e.0@, e.1@)[k] by {
        lemma_headers_map_dom(w, k);
        let i = choose|i: int| 0 <= i < w.len() && w[i].0@ == k;
        assert(v[i].0@ == k);
        lemma_headers_map_last(w, i);
        if i != j {
            lemma_headers_map_last(v, i);
        }
    }
    assert(headers_map(w) =~= headers_map(v).insert(e.0@, e.1@));
}

} // verus!

verus! {

/// The position of the first blank-line separator in `cs`, or its length.
fn find_sep(cs: &Vec<char>) -> (r: usize)
    ensures
        r == sep_from(cs@, 0),
        r <= cs.len(),
        r < cs.len() ==> r + 4 <= cs.len(),
{
    let mut i: usize = 0;
    while i < cs.len() && cs.len() - i >= 4
        invariant
            i <= cs.len(),
            sep_from(cs@, 0) == sep_from(cs@, i as int),
        decreases cs.len() - i,
    {
        if cs[i] == '\r' && cs[i + 1] == '\n' && cs[i + 2] == '\r' && cs[i + 3] == '\n' {
            return i;
        }
        i = i + 1;
    }
    cs.len()
}

/// The position of the first `c` in `cs[from..to]`, or `to`.
fn find_char(cs: &Vec<char>, c: char, from: usize, to: usize) -> (r: usize)
    requires
        from <= to <= cs.len(),
    ensures
        from <= r <= to,
        r == from + index_from(cs@.subrange(from as int, to as int), c, 0),
{
    let ghost l = cs@.subrange(from as int, to as int);
    let mut i: usize = from;
    while i < to
        invariant
            from <= i <= to <= cs.len(),
            l == cs@.subrange(from as int, to as int),
            index_from(l, c, 0) == index_from(l, c, i - from),
        decreases to - i,
    {
        if cs[i] == c {
            return i;
        }
        i = i + 1;
    }
    i
}

/// The bounds of each line of `cs[0..end]`.
fn line_bounds(cs: &Vec<char>, end: usize) -> (r: Vec<(usize, usize)>)
    requires
        end <= cs.len(),
    ensures
        r@.len() == lines(cs@.subrange(0, end as int)).len(),
        forall|j: int| 0 <= j < r@.len() ==> r@[j].0 <= r@[j].1 && r@[j].1 <= end,
        forall|j: int|
            0 <= j < r@.len() ==> cs@.subrange(r@[j].0 as int, r@[j].1 as int) == lines(
                cs@.subrange(0, end as int),
            )[j],
{
    let ghost h = cs@.subrange(0, end as int);
    let ghost mut done: Seq<Seq<char>> = seq![];
    let mut r: Vec<(usize, usize)> = Vec::new();
    let mut i: usize = 0;
    let mut start: usize = 0;
    while i < end
        invariant
            start <= i <= end <= cs.len(),
            h == cs@.subrange(0, end as int),
            lines(h) == done + lines_from(h, i as int, start as int),
            done.len() == r@.len(),
            forall|j: int| 0 <= j < r@.len() ==> r@[j].0 <= r@[j].1 && r@[j].1 <= end,
            forall|j: int|
                0 <= j < r@.len() ==> cs@.subrange(r@[j].0 as int, r@[j].1 as int) == done[j],
        decreases end - i,
    {
        if cs[i] == '\n' {
            let e: usize = if i > start && cs[i - 1] == '\r' {
                i - 1
            } else {
                i
            };
            let ghost old_r = r@;
            let ghost old_done = done;
            proof {
                let l = h.subrange(start as int, i as int);
                assert(cs@.subrange(start as int, e as int) =~= drop_cr(l));
                let rest = lines_from(h, i + 1, i + 1);
                assert(lines_from(h, i as int, start as int) == seq![drop_cr(l)] + rest);
                assert(done + (seq![drop_cr(l)] + rest) =~= done.push(drop_cr(l)) + rest);
                done = done.push(drop_cr(l));
            }
            r.push((start, e));
            assert forall|j: int| 0 <= j < r@.len() implies r@[j].0 <= r@[j].1 && r@[j].1 <= end
                && cs@.subrange(r@[j].0 as int, r@[j].1 as int) == done[j] by {
                if j < old_r.len() {
                    assert(r@[j] == old_r[j]);
                    assert(done[j] == old_done[j]);
                }
            }
            start = i + 1;
        }
        i = i + 1;
    }
    if start < end {
        proof {
            assert(cs@.subrange(start as int, end as int) =~= h.subrange(start as int, end as int));
            assert(done + seq![h.subrange(start as int, end as int)] =~= done.push(
                h.subrange(start as int, end as int),
            ));
        }
        let ghost old_r = r@;
        r.push((start, end));
        assert forall|j: int| 0 <= j < old_r.len() implies r@[j] == old_r[j] by {}
        proof {
            done = done.push(h.subrange(start as int, end as int));
        }
    } else {
        assert(done + seq![] =~= done);
    }
    assert(lines(h) == done);
    r
}

/// The bounds of the second whitespace-delimited word of `cs[from..to]`.
fn second_word_bounds(cs: &Vec<char>, from: usize, to: usize) -> (r: Option<(usize, usize)>)
    requires
        from <= to <= cs.len(),
    ensures
        match second_word(cs@.subrange(from as int, to as int)) {
            None => r is None,
            Some(w) => r matches Some(b) && from <= b.0 <= b.1 <= to && cs@.subrange(
                b.0 as int,
                b.1 as int,
            ) == w,
        },
{
    let ghost l = cs@.subrange(from as int, to as int);
    let mut i: usize = from;
    // skip leading whitespace
    while i < to && is_white(cs[i])
        invariant
            from <= i <= to <= cs.len(),
            l == cs@.subrange(from as int, to as int),
            skip_white(l, 0) == skip_white(l, i - from),
        decreases to - i,
    {
        i = i + 1;
    }
    assert(skip_white(l, 0) == i - from);
    // the first word
    while i < to && !is_white(cs[i])
        invariant
            from <= i <= to <= cs.len(),
            l == cs@.subrange(from as int, to as int),
            word_end(l, skip_white(l, 0)) == word_end(l, i - from),
        decreases to - i,
    {
        i = i + 1;
    }
    assert(word_end(l, skip_white(l, 0)) == i - from);
    let ghost e0 = i - from;
    while i < to && is_white(cs[i])
        invariant
            from <= i <= to <= cs.len(),
            l == cs@.subrange(from as int, to as int),
            skip_white(l, e0) == skip_white(l, i - from),
        decreases to - i,
    {
        i = i + 1;
    }
    assert(skip_white(l, e0) == i - from);
    if i >= to {
        return None;
    }
    let a = i;
    while i < to && !is_white(cs[i])
        invariant
            a <= i <= to <= cs.len(),
            from <= a,
            l == cs@.subrange(from as int, to as int),
            word_end(l, a - from) == word_end(l, i - from),
        decreases to - i,
    {
        i = i + 1;
    }
    assert(word_end(l, a - from) == i - from);
    assert(cs@.subrange(a as int, i as int) =~= l.subrange(a - from, i - from));
    Some((a, i))
}

/// Each prefix of a run of digits is worth no more than the whole run.
proof fn lemma_digits_value_prefix(d: Seq<char>, k: int)
    requires
        0 <= k <= d.len(),
    ensures
        digits_value(d.subrange(0, k)) <= digits_value(d),
    decreases d.len() - k,
{
    if k < d.len() {
        lemma_digits_value_prefix(d, k + 1);
        assert(d.subrange(0, k + 1).drop_last() =~= d.subrange(0, k));
    } else {
        assert(d.subrange(0, k) =~= d);
    }
}

/// Reads `cs[from..to]` as a status code.
fn parse_code(cs: &Vec<char>, from: usize, to: usize) -> (r: Option<u64>)
    requires
        from <= to <= cs.len(),
    ensures
        r == code_of(cs@.subrange(from as int, to as int)),
{
    let ghost s = cs@.subrange(from as int, to as int);
    let mut i: usize = from;
    if i < to && cs[i] == '+' {
        i = i + 1;
    }
    let ghost d = cs@.subrange(i as int, to as int);
    assert(d =~= unsigned_part(s));
    if i >= to {
        return None;
    }
    let start = i;
    let mut v: u64 = 0;
    while i < to
        invariant
            from <= start <= i <= to <= cs.len(),
            d == cs@.subrange(start as int, to as int),
            d == unsigned_part(s),
            s == cs@.subrange(from as int, to as int),
            v as nat == digits_value(d.subrange(0, i - start)),
            forall|j: int| 0 <= j < i - start ==> is_digit(#[trigger] d[j]),
        decreases to - i,
    {
        let c = cs[i];
        assert(d[i - start] == c);
        if !('0' <= c && c <= '9') {
            assert(!is_digit(d[i - start]));
            assert(!(forall|j: int| 0 <= j < d.len() ==> is_digit(#[trigger] d[j])));
            assert(code_of(s) is None);
            return None;
        }
        proof {
            assert(d.subrange(0, i - start + 1).drop_last() =~= d.subrange(0, i - start));
            assert(d.subrange(0, i - start + 1).last() == c);
        }
        let dg: u64 = (c as u32 - '0' as u32) as u64;
        if v > 1844674407370955161 || (v == 1844674407370955161 && dg > 5) {
            proof {
                lemma_digits_value_prefix(d, i - start + 1);
                assert(code_of(s) is None);
            }
            return None;
        }
        v = v * 10 + dg;
        i = i + 1;
    }
    assert(d.subrange(0, i - start) =~= d);
    Some(v)
}

} // verus!

verus! {

/// Sets `name` to `value` in a list of pairs whose names are unique.
fn set_header(headers: &mut Vec<(String, String)>, name: String, value: String)
    requires
        names_unique(old(headers)@),
    ensures
        names_unique(final(headers)@),
        headers_map(final(headers)@) == headers_map(old(headers)@).insert(name@, value@),
{
    let mut i: usize = 0;
    while i < headers.len()
        invariant
            i <= headers.len(),
            headers@ == old(headers)@,
            names_unique(headers@),
            forall|j: int| 0 <= j < i ==> headers@[j].0@ != name@,
        decreases headers.len() - i,
    {
        if headers[i].0 == name {
            proof {
                lemma_headers_map_update(headers@, i as int, (name, value));
            }
            headers.set(i, (name, value));
            return;
        }
        i = i + 1;
    }
    let ghost before = headers@;
    headers.push((name, value));
    assert(headers@.drop_last() =~= before);
}

impl Response {
    /// No header name occurs twice.
    pub open spec fn wf(&self) -> bool {
        names_unique(self.headers@)
    }

    /// Parses the text of a response: the status code is the second word of
    /// its first line, each later line of the header block with a colon is a
    /// header, and the body is what follows the first blank line.
    pub fn parse(response: &str) -> (r: Result<Response, HttpError>)
        ensures
            r is Ok <==> status_of(response@) is Some,
            r matches Ok(resp) ==> {
                &&& resp.status == status_of(response@)->0
                &&& headers_map(resp.headers@) == headers_of(response@)
                &&& opt_view(resp.body) == body_of(response@)
                &&& resp.wf()
            },
            r matches Err(e) ==> e is ResponseParseError,
    {
        let cs = chars_of(response);
        let k = find_sep(&cs);
        let ghost s = response@;
        let ghost h = cs@.subrange(0, k as int);
        assert(h == head_of(s));
        let body = if k < cs.len() && cs.len() - k > 4 {
            Some(string_of(&cs, k + 4, cs.len()))
        } else {
            None
        };
        let ls = line_bounds(&cs, k);
        if ls.len() == 0 {
            return Err(HttpError::ResponseParseError("Missing status line".to_string()));
        }
        let (a, b) = ls[0];
        let status = match second_word_bounds(&cs, a, b) {
            None => {
                return Err(HttpError::ResponseParseError("Invalid status line format".to_string()));
            },
            Some((x, y)) => match parse_code(&cs, x, y) {
                None => {
                    return Err(
                        HttpError::ResponseParseError("Failed to parse status code".to_string()),
                    );
                },
                Some(st) => st,
            },
        };
        let ghost ll = lines(h);
        let mut headers: Vec<(String, String)> = Vec::new();
        let mut j: usize = 1;
        assert(ll.subrange(1, 1) =~= Seq::<Seq<char>>::empty());
        while j < ls.len()
            invariant
                1 <= j <= ls.len(),
                k <= cs.len(),
                h == cs@.subrange(0, k as int),
                ll == lines(h),
                ls@.len() == ll.len(),
                forall|m: int| 0 <= m < ls@.len() ==> ls@[m].0 <= ls@[m].1 && ls@[m].1 <= k,
                forall|m: int|
                    0 <= m < ls@.len() ==> cs@.subrange(ls@[m].0 as int, ls@[m].1 as int)
                        == ll[m],
                names_unique(headers@),
                headers_map(headers@) == header_map(ll.subrange(1, j as int)),
            decreases ls.len() - j,
        {
            let (a, b) = ls[j];
            let c = find_char(&cs, ':', a, b);
            let ghost l = cs@.subrange(a as int, b as int);
            assert(l == ll[j as int]);
            if c < b {
                let name = string_of(&cs, a, c);
                let value = string_of(&cs, c + 1, b);
                let key = lowercase(trimmed(name.as_str()));
                let val = trimmed(value.as_str()).to_owned();
                assert(l.subrange(0, c - a) =~= name@);
                assert(l.subrange(c - a + 1, l.len() as int) =~= value@);
                set_header(&mut headers, key, val);
            }
            assert(ll.subrange(1, j + 1).drop_last() =~= ll.subrange(1, j as int));
            j = j + 1;
        }
        assert(body_of(s) == opt_view(body));
        Ok(Response { status, headers, body })
    }

    /// Whether the status code is in the success range 200 to 299.
    pub fn is_success(&self) -> (r: bool)
        ensures
            r == (200 <= self.status < 300),
    {
        200 <= self.status && self.status < 300
    }

    /// The value of a header, by a name matched without regard to case: the
    /// name is lower-cased and looked up in the parsed headers.
    pub fn header(&self, name: &str) -> (r: Option<&String>)
        ensures
            r is None <==> !headers_map(self.headers@).contains_key(lower_of(name@)),
            r matches Some(v) ==> v@ == headers_map(self.headers@)[lower_of(name@)],
    {
        let key = lowercase(name);
        let mut i: usize = self.headers.len();
        while i > 0
            invariant
                i <= self.headers.len(),
                key@ == lower_of(name@),
                forall|j: int| i <= j < self.headers@.len() ==> self.headers@[j].0@ != key@,
            decreases i,
        {
            if self.headers[i - 1].0 == key {
                proof {
                    lemma_headers_map_last(self.headers@, i - 1);
                }
                return Some(&self.headers[i - 1].1);
            }
            i = i - 1;
        }
        proof {
            lemma_headers_map_dom(self.headers@, key@);
        }
        None
    }

    /// Decodes the bytes that a peer sent (invalid sequences replaced) and
    /// parses them; a failure is a parse error.
    pub fn from_bytes(data: &[u8]) -> (r: Result<Response, HttpError>)
        ensures
            r is Ok <==> status_of(lossy_of(data@)) is Some,
            r matches Ok(resp) ==> {
                &&& resp.status == status_of(lossy_of(data@))->0
                &&& headers_map(resp.headers@) == headers_of(lossy_of(data@))
                &&& opt_view(resp.body) == body_of(lossy_of(data@))
                &&& resp.wf()
            },
            r matches Err(e) ==> e is ResponseParseError,
    {
        let text = lossy_text(data);
        Response::parse(text.as_str())
    }
}

} // verus!

verus! {

/// Every line feed in `s` is followed, within `s`, by something other than a
/// carriage return; so no blank-line separator can start inside `s`.
pub open spec fn feeds_closed(s: Seq<char>) -> bool {
    forall|p: int| 0 <= p < s.len() && #[trigger] s[p] == '\n' ==> p + 1 < s.len() && s[p + 1] != '\r'
}

/// Text with no line feed is closed in that sense.
pub proof fn lemma_no_feed_closed(s: Seq<char>)
    requires
        forall|p: int| 0 <= p < s.len() ==> #[trigger] s[p] != '\n',
    ensures
        feeds_closed(s),
{
}

/// Joining two closed texts gives a closed text.
pub proof fn lemma_feeds_closed_concat(a: Seq<char>, b: Seq<char>)
    requires
        feeds_closed(a),
        feeds_closed(b),
    ensures
        feeds_closed(a + b),
{
    let s = a + b;
    assert forall|p: int| 0 <= p < s.len() && #[trigger] s[p] == '\n' implies p + 1 < s.len()
        && s[p + 1] != '\r' by {
        if p < a.len() {
            assert(a[p] == '\n');
        } else {
            assert(b[p - a.len()] == '\n');
        }
    }
}

/// Scanning from `j` finds the separator at `m` where none starts in between.
proof fn lemma_sep_from_scan(s: Seq<char>, j: int, m: int)
    requires
        0 <= j <= m,
        sep_at(s, m),
        forall|i: int| j <= i < m ==> !sep_at(s, i),
    ensures
        sep_from(s, j) == m,
    decreases m - j,
{
    if j < m {
        lemma_sep_from_scan(s, j + 1, m);
    }
}

/// In a closed text followed by a blank line, the first separator is the one
/// right after the text: the header block is the text and the body the rest.
pub proof fn lemma_first_sep(head: Seq<char>, rest: Seq<char>)
    requires
        feeds_closed(head),
    ensures
        sep_from(head + "\r\n\r\n"@ + rest, 0) == head.len(),
        head_of(head + "\r\n\r\n"@ + rest) == head,
        body_of(head + "\r\n\r\n"@ + rest) == (if rest.len() > 0 {
            Some(rest)
        } else {
            None::<Seq<char>>
        }),
{
    reveal_strlit("\r\n\r\n");
    let s = head + "\r\n\r\n"@ + rest;
    let n = head.len() as int;
    assert(s[n] == '\r' && s[n + 1] == '\n' && s[n + 2] == '\r' && s[n + 3] == '\n');
    assert forall|i: int| 0 <= i < n implies !sep_at(s, i) by {
        if sep_at(s, i) {
            if i + 1 < n {
                assert(head[i + 1] == '\n');
                assert(s[i + 2] == head[i + 2] || i + 2 == n);
            }
        }
    }
    lemma_sep_from_scan(s, 0, n);
    assert(s.subrange(0, n) =~= head);
    assert(s.subrange(n + 4, s.len() as int) =~= rest);
}

} // verus!

verus! {

/// Lines are not cut where no line feed stands.
proof fn lemma_lines_skip(s: Seq<char>, i: int, j: int, start: int)
    requires
        0 <= i <= j <= s.len(),
        forall|k: int| i <= k < j ==> s[k] != '\n',
    ensures
        lines_from(s, i, start) == lines_from(s, j, start),
    decreases j - i,
{
    if i < j {
        lemma_lines_skip(s, i + 1, j, start);
    }
}

/// The lines of a text after a prefix are those of the rest.
proof fn lemma_lines_shift(a: Seq<char>, b: Seq<char>, i: int, st: int)
    requires
        0 <= st <= i <= b.len(),
    ensures
        lines_from(a + b, a.len() + i, a.len() + st) == lines_from(b, i, st),
    decreases b.len() - i,
{
    let s = a + b;
    let n = a.len() as int;
    if i < b.len() {
        assert(s[n + i] == b[i]);
        if b[i] == '\n' {
            lemma_lines_shift(a, b, i + 1, i + 1);
            assert(s.subrange(n + st, n + i) =~= b.subrange(st, i));
        } else {
            lemma_lines_shift(a, b, i + 1, st);
        }
    } else {
        assert(s.subrange(n + st, s.len() as int) =~= b.subrange(st, b.len() as int));
    }
}

/// A line ended by `\r\n` is the first line, and the rest are the lines after it.
pub proof fn lemma_lines_cons(x: Seq<char>, y: Seq<char>)
    requires
        forall|k: int| 0 <= k < x.len() ==> x[k] != '\n',
    ensures
        lines(x + "\r\n"@ + y) == seq![x] + lines(y),
{
    reveal_strlit("\r\n");
    let a = x + "\r\n"@;
    let s = a + y;
    let n = x.len() as int;
    assert(s[n] == '\r' && s[n + 1] == '\n');
    lemma_lines_skip(s, 0, n + 1, 0);
    assert(drop_cr(s.subrange(0, n + 1)) =~= x);
    lemma_lines_shift(a, y, 0, 0);
}

/// A text without line feeds is one line, where it is not empty.
pub proof fn lemma_lines_single(x: Seq<char>)
    requires
        x.len() > 0,
        forall|k: int| 0 <= k < x.len() ==> x[k] != '\n',
    ensures
        lines(x) == seq![x],
{
    lemma_lines_skip(x, 0, x.len() as int, 0);
    assert(x.subrange(0, x.len() as int) =~= x);
}

/// The header line of a name and a value: the name, a colon, the value.
pub open spec fn header_line(h: (Seq<char>, Seq<char>)) -> Seq<char> {
    h.0 + ":"@ + h.1
}

/// Header lines, each after a line break.
pub open spec fn header_block(hs: Seq<(Seq<char>, Seq<char>)>) -> Seq<char>
    decreases hs.len(),
{
    if hs.len() == 0 {
        Seq::empty()
    } else {
        "\r\n"@ + header_line(hs[0]) + header_block(hs.drop_first())
    }
}

/// A status line: the version, the code's digits, the reason phrase.
pub open spec fn status_line(code: Seq<char>, reason: Seq<char>) -> Seq<char> {
    "HTTP/1.1 "@ + code + " "@ + reason
}

/// The digits of a status code: at least one, with a value that `u64` holds
/// (leading zeros allowed).
pub open spec fn code_digits(code: Seq<char>) -> bool {
    &&& code.len() > 0
    &&& forall|i: int| 0 <= i < code.len() ==> is_digit(#[trigger] code[i])
    &&& digits_value(code) <= u64::MAX
}

/// The text of a response with this status, these headers and this body.
pub open spec fn response_text(
    code: Seq<char>,
    reason: Seq<char>,
    hs: Seq<(Seq<char>, Seq<char>)>,
    body: Seq<char>,
) -> Seq<char> {
    status_line(code, reason) + header_block(hs) + "\r\n\r\n"@ + body
}

/// The headers that name-value pairs stand for once names are trimmed and
/// lower-cased and values trimmed; a later pair overrides an earlier one.
pub open spec fn pairs_map(hs: Seq<(Seq<char>, Seq<char>)>) -> Map<Seq<char>, Seq<char>>
    decreases hs.len(),
{
    if hs.len() == 0 {
        Map::empty()
    } else {
        pairs_map(hs.drop_last()).insert(lower_of(trim_of(hs.last().0)), trim_of(hs.last().1))
    }
}

/// A text that stays on one line.
pub open spec fn one_line(s: Seq<char>) -> bool {
    forall|k: int| 0 <= k < s.len() ==> s[k] != '\r' && s[k] != '\n'
}

/// A header that its line can carry: name and value each on one line, and
/// no colon in the name.
pub open spec fn carried_header(h: (Seq<char>, Seq<char>)) -> bool {
    &&& one_line(h.0)
    &&& one_line(h.1)
    &&& forall|k: int| 0 <= k < h.0.len() ==> h.0[k] != ':'
}

/// A carried header's line is one non-empty line that parses back to the header.
proof fn lemma_header_line_facts(h: (Seq<char>, Seq<char>))
    requires
        carried_header(h),
    ensures
        header_line(h).len() > 0,
        header_line(h)[0] != '\r',
        forall|k: int| 0 <= k < header_line(h).len() ==> header_line(h)[k] != '\n',
        header_entry(header_line(h)) == Some((lower_of(trim_of(h.0)), trim_of(h.1))),
{
    reveal_strlit(":");
    let l = header_line(h);
    let n = h.0.len() as int;
    assert(l[n] == ':');
    assert forall|k: int| 0 <= k < l.len() implies l[k] != '\n' by {
        if k < n {
            assert(l[k] == h.0[k]);
        } else if k > n {
            assert(l[k] == h.1[k - n - 1]);
        }
    }
    if n > 0 {
        assert(l[0] == h.0[0]);
    }
    lemma_index_from_scan(l, ':', 0, n);
    assert(l.subrange(0, n) =~= h.0);
    assert(l.subrange(n + 1, l.len() as int) =~= h.1);
}

/// Scanning for `c` from `i` finds it at `m` where it is not in between.
proof fn lemma_index_from_scan(s: Seq<char>, c: char, i: int, m: int)
    requires
        0 <= i <= m < s.len(),
        s[m] == c,
        forall|k: int| i <= k < m ==> s[k] != c,
    ensures
        index_from(s, c, i) == m,
    decreases m - i,
{
    if i < m {
        lemma_index_from_scan(s, c, i + 1, m);
    }
}

/// The lines of a line followed by a header block: that line, then one line
/// per header.
proof fn lemma_block_lines(l: Seq<char>, hs: Seq<(Seq<char>, Seq<char>)>)
    requires
        l.len() > 0,
        forall|k: int| 0 <= k < l.len() ==> l[k] != '\n',
        forall|i: int| 0 <= i < hs.len() ==> carried_header(#[trigger] hs[i]),
    ensures
        lines(l + header_block(hs)) == seq![l] + hs.map_values(|h: (Seq<char>, Seq<char>)| header_line(h)),
    decreases hs.len(),
{
    if hs.len() == 0 {
        assert(l + header_block(hs) =~= l);
        lemma_lines_single(l);
        assert(hs.map_values(|h: (Seq<char>, Seq<char>)| header_line(h)) =~= Seq::<Seq<char>>::empty());
        assert(seq![l] + Seq::<Seq<char>>::empty() =~= seq![l]);
    } else {
        let rest = hs.drop_first();
        let l0 = header_line(hs[0]);
        lemma_header_line_facts(hs[0]);
        assert forall|i: int| 0 <= i < rest.len() implies carried_header(#[trigger] rest[i]) by {
            assert(rest[i] == hs[i + 1]);
        }
        lemma_block_lines(l0, rest);
        assert(l + header_block(hs) =~= l + "\r\n"@ + (l0 + header_block(rest)));
        lemma_lines_cons(l, l0 + header_block(rest));
        assert(seq![l0] + rest.map_values(|h: (Seq<char>, Seq<char>)| header_line(h))
            =~= hs.map_values(|h: (Seq<char>, Seq<char>)| header_line(h)));
        assert(seq![l] + (seq![l0] + rest.map_values(|h: (Seq<char>, Seq<char>)| header_line(h)))
            =~= seq![l] + hs.map_values(|h: (Seq<char>, Seq<char>)| header_line(h)));
    }
}

/// A header block is closed: each of its line feeds is followed by a header.
proof fn lemma_block_closed(hs: Seq<(Seq<char>, Seq<char>)>)
    requires
        forall|i: int| 0 <= i < hs.len() ==> carried_header(#[trigger] hs[i]),
    ensures
        feeds_closed(header_block(hs)),
    decreases hs.len(),
{
    reveal_strlit("\r\n");
    if hs.len() > 0 {
        let rest = hs.drop_first();
        let l0 = header_line(hs[0]);
        lemma_header_line_facts(hs[0]);
        assert forall|i: int| 0 <= i < rest.len() implies carried_header(#[trigger] rest[i]) by {
            assert(rest[i] == hs[i + 1]);
        }
        lemma_block_closed(rest);
        let f = "\r\n"@ + l0;
        assert forall|p: int| 0 <= p < f.len() && #[trigger] f[p] == '\n' implies p + 1 < f.len()
            && f[p + 1] != '\r' by {
            if p >= 2 {
                assert(f[p] == l0[p - 2]);
            }
        }
        lemma_feeds_closed_concat(f, header_block(rest));
    }
}

/// The header lines of name-value pairs give the headers of the pairs.
proof fn lemma_header_map_pairs(hs: Seq<(Seq<char>, Seq<char>)>)
    requires
        forall|i: int| 0 <= i < hs.len() ==> carried_header(#[trigger] hs[i]),
    ensures
        header_map(hs.map_values(|h: (Seq<char>, Seq<char>)| header_line(h))) == pairs_map(hs),
    decreases hs.len(),
{
    let ls = hs.map_values(|h: (Seq<char>, Seq<char>)| header_line(h));
    if hs.len() > 0 {
        let init = hs.drop_last();
        assert forall|i: int| 0 <= i < init.len() implies carried_header(#[trigger] init[i]) by {
            assert(init[i] == hs[i]);
        }
        lemma_header_map_pairs(init);
        assert(ls.drop_last() =~= init.map_values(|h: (Seq<char>, Seq<char>)| header_line(h)));
        lemma_header_line_facts(hs.last());
    }
}

/// Skipping whitespace from `i` stops at `m` where everything in between is
/// whitespace and `m` is not.
proof fn lemma_skip_white_scan(s: Seq<char>, i: int, m: int)
    requires
        0 <= i <= m <= s.len(),
        forall|k: int| i <= k < m ==> white_of(s[k]),
        m < s.len() ==> !white_of(s[m]),
    ensures
        skip_white(s, i) == m,
    decreases m - i,
{
    if i < m {
        lemma_skip_white_scan(s, i + 1, m);
    }
}

/// A word from `i` ends at `m` where nothing in between is whitespace and `m` is.
proof fn lemma_word_end_scan(s: Seq<char>, i: int, m: int)
    requires
        0 <= i <= m <= s.len(),
        forall|k: int| i <= k < m ==> !white_of(s[k]),
        m < s.len() ==> white_of(s[m]),
    ensures
        word_end(s, i) == m,
    decreases m - i,
{
    if i < m {
        lemma_word_end_scan(s, i + 1, m);
    }
}

/// The status line gives its code back.
proof fn lemma_status_line(code: Seq<char>, reason: Seq<char>)
    requires
        code_digits(code),
    ensures
        code_of(second_word(status_line(code, reason))->0) == Some(digits_value(code) as u64),
        second_word(status_line(code, reason)) is Some,
        status_line(code, reason).len() > 0,
        one_line(reason) ==> forall|k: int|
            0 <= k < status_line(code, reason).len() ==> status_line(code, reason)[k] != '\n',
{
    reveal_strlit("HTTP/1.1 ");
    reveal_strlit(" ");
    let d = code;
    let s = status_line(code, reason);
    let n = d.len() as int;
    assert forall|k: int| 0 <= k < n implies s[9 + k] == d[k] && !white_of(#[trigger] d[k]) by {
        assert(is_digit(d[k]));
    }
    assert(s[0] == 'H');
    lemma_skip_white_scan(s, 0, 0);
    assert forall|k: int| 0 <= k < 8 implies !white_of(s[k]) by {}
    assert(s[8] == ' ');
    lemma_word_end_scan(s, 0, 8);
    assert(s[9] == d[0]);
    lemma_skip_white_scan(s, 8, 9);
    assert(s[9 + n] == ' ');
    assert forall|k: int| 9 <= k < 9 + n implies !white_of(s[k]) by {
        assert(s[k] == d[k - 9]);
    }
    lemma_word_end_scan(s, 9, 9 + n);
    assert(s.subrange(9, 9 + n) =~= d);
    assert(unsigned_part(d) == d);
    if one_line(reason) {
        assert forall|k: int| 0 <= k < s.len() implies s[k] != '\n' by {
            if 9 <= k < 9 + n {
                assert(s[k] == d[k - 9]);
            } else if k > 9 + n {
                assert(s[k] == reason[k - 10 - n]);
            }
        }
    }
}

/// Parsing a well-formed response text gives back exactly what it encodes:
/// the status code, the headers with names trimmed and lower-cased and
/// values trimmed (a later duplicate winning), and the body, absent where it
/// is empty.
pub proof fn lemma_parse_recovers(
    code: Seq<char>,
    reason: Seq<char>,
    hs: Seq<(Seq<char>, Seq<char>)>,
    body: Seq<char>,
)
    requires
        code_digits(code),
        one_line(reason),
        forall|i: int| 0 <= i < hs.len() ==> carried_header(#[trigger] hs[i]),
    ensures
        status_of(response_text(code, reason, hs, body)) == Some(digits_value(code) as u64),
        headers_of(response_text(code, reason, hs, body)) == pairs_map(hs),
        body_of(response_text(code, reason, hs, body)) == (if body.len() > 0 {
            Some(body)
        } else {
            None::<Seq<char>>
        }),
{
    let st = status_line(code, reason);
    let head = st + header_block(hs);
    lemma_status_line(code, reason);
    lemma_no_feed_closed(st);
    lemma_block_closed(hs);
    lemma_feeds_closed_concat(st, header_block(hs));
    lemma_first_sep(head, body);
    lemma_block_lines(st, hs);
    let ls = lines(head);
    let hl = hs.map_values(|h: (Seq<char>, Seq<char>)| header_line(h));
    assert(ls[0] == st);
    assert(ls.subrange(1, ls.len() as int) =~= hl);
    lemma_header_map_pairs(hs);
}

} // verus!
