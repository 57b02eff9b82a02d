//! Reading single fields back from the text of a run's `meta.toml`, line by line: a scalar
//! written as `key = value`, or one entry of an array written one entry per line between
//! `key = [` and `]`. A field that is missing or does not parse reads as zero (or `false`).

use vstd::prelude::*;
use crate::share_code::{all_digits, digits_value, parse_u32, spec_parse_u32, trim_text, trimmed};

verus! {

/// Position of the first `'\n'` in `s`, or its length.
pub open spec fn first_newline(s: Seq<char>) -> int
    decreases s.len(),
{
    if s.len() == 0 {
        0
    } else if s[0] == '\n' {
        0
    } else {
        1 + first_newline(s.drop_first())
    }
}

pub proof fn lemma_first_newline(s: Seq<char>)
    ensures
        0 <= first_newline(s) <= s.len(),
        first_newline(s) < s.len() ==> s[first_newline(s)] == '\n',
        forall|k: int| 0 <= k < first_newline(s) ==> #[trigger] s[k] != '\n',
    decreases s.len(),
{
    if s.len() > 0 && s[0] != '\n' {
        lemma_first_newline(s.drop_first());
        assert forall|k: int| 0 <= k < first_newline(s) implies #[trigger] s[k] != '\n' by {
            if k > 0 {
                assert(s[k] == s.drop_first()[k - 1]);
            }
        }
    }
}

/// The first line of `s`: up to its first `'\n'`, without a `'\r'` right before that `'\n'`.
pub open spec fn line_of(s: Seq<char>) -> Seq<char> {
    let k = first_newline(s);
    if 0 < k < s.len() && s[k - 1] == '\r' {
        s.subrange(0, k - 1)
    } else {
        s.subrange(0, k)
    }
}

/// What follows the first line of `s` and its `'\n'`.
pub open spec fn after_line(s: Seq<char>) -> Seq<char> {
    let k = first_newline(s);
    if k < s.len() {
        s.subrange(k + 1, s.len() as int)
    } else {
        Seq::<char>::empty()
    }
}

/// The lines of `s` as `str::lines` gives them: no empty line after a final `'\n'`.
pub open spec fn text_lines(s: Seq<char>) -> Seq<Seq<char>>
    decreases s.len(),
{
    if s.len() == 0 {
        Seq::<Seq<char>>::empty()
    } else {
        proof {
            lemma_first_newline(s);
        }
        seq![line_of(s)] + text_lines(after_line(s))
    }
}

/// What `usize`'s `from_str` reads from `s`: an optional `+` and at least one decimal digit,
/// within `usize`.
pub open spec fn spec_parse_usize(s: Seq<char>) -> Option<usize> {
    let d = if s.len() > 0 && s[0] == '+' { s.drop_first() } else { s };
    if d.len() > 0 && all_digits(d) && digits_value(d) <= usize::MAX {
        Some(digits_value(d) as usize)
    } else {
        None
    }
}

/// What `bool`'s `from_str` reads from `s`.
pub open spec fn spec_parse_bool(s: Seq<char>) -> Option<bool> {
    if s == "true"@ {
        Some(true)
    } else if s == "false"@ {
        Some(false)
    } else {
        None
    }
}

/// The value after `prefix` on the first line that starts with it and whose rest reads as a
/// `usize`.
pub open spec fn first_usize_field(lines: Seq<Seq<char>>, prefix: Seq<char>) -> Option<usize>
    decreases lines.len(),
{
    if lines.len() == 0 {
        None
    } else {
        let l = lines[0];
        let v = if prefix.is_prefix_of(l) { spec_parse_usize(l.subrange(prefix.len() as int, l.len() as int)) } else { None };
        match v {
            Some(x) => Some(x),
            None => first_usize_field(lines.drop_first(), prefix),
        }
    }
}

/// The value after `prefix` on the first line that starts with it and whose rest reads as a
/// `bool`.
pub open spec fn first_bool_field(lines: Seq<Seq<char>>, prefix: Seq<char>) -> Option<bool>
    decreases lines.len(),
{
    if lines.len() == 0 {
        None
    } else {
        let l = lines[0];
        let v = if prefix.is_prefix_of(l) { spec_parse_bool(l.subrange(prefix.len() as int, l.len() as int)) } else { None };
        match v {
            Some(x) => Some(x),
            None => first_bool_field(lines.drop_first(), prefix),
        }
    }
}

/// `s` without its trailing commas.
pub open spec fn strip_commas(s: Seq<char>) -> Seq<char>
    decreases s.len(),
{
    if s.len() > 0 && s.last() == ',' {
        strip_commas(s.drop_last())
    } else {
        s
    }
}

/// Entries read from `lines` for the array whose opening line is `header`: once a line trims to
/// `header` (again and again, if it repeats), each following line trimmed and without trailing
/// commas that reads as a `u32`, until a line that trims to `]`.
pub open spec fn array_entries(lines: Seq<Seq<char>>, header: Seq<char>, in_table: bool) -> Seq<u32>
    decreases lines.len(),
{
    if lines.len() == 0 {
        Seq::<u32>::empty()
    } else {
        let t = trimmed(lines[0]);
        let rest = lines.drop_first();
        if t == header {
            array_entries(rest, header, true)
        } else if in_table {
            if t == "]"@ {
                Seq::<u32>::empty()
            } else {
                let here = match spec_parse_u32(strip_commas(t)) {
                    Some(v) => seq![v],
                    None => Seq::<u32>::empty(),
                };
                here + array_entries(rest, header, true)
            }
        } else {
            array_entries(rest, header, false)
        }
    }
}

/// Whether `a` and `b` hold the same characters.
fn str_eq(a: &str, b: &str) -> (same: bool)
    ensures
        same == (a@ == b@),
{
    let n = a.unicode_len();
    if n != b.unicode_len() {
        return false;
    }
    let mut i: usize = 0;
    while i < n
        invariant
            n == a@.len(),
            n == b@.len(),
            i <= n,
            forall|k: int| 0 <= k < i ==> a@[k] == b@[k],
        decreases n - i,
    {
        if a.get_char(i) != b.get_char(i) {
            return false;
        }
        i += 1;
    }
    assert(a@ =~= b@);
    true
}

/// Whether `s` starts with `prefix`.
fn starts_with(s: &str, prefix: &str) -> (yes: bool)
    ensures
        yes == prefix@.is_prefix_of(s@),
{
    let n = prefix.unicode_len();
    if n > s.unicode_len() {
        return false;
    }
    let mut i: usize = 0;
    while i < n
        invariant
            n == prefix@.len(),
            n <= s@.len(),
            i <= n,
            forall|k: int| 0 <= k < i ==> prefix@[k] == s@[k],
        decreases n - i,
    {
        if prefix.get_char(i) != s.get_char(i) {
            return false;
        }
        i += 1;
    }
    true
}

/// Decimal `usize` as `str::parse::<usize>` reads it.
pub fn parse_usize(s: &str) -> (v: Option<usize>)
    ensures
        v == spec_parse_usize(s@),
{
    let n = s.unicode_len();
    let start: usize = if n > 0 && s.get_char(0) == '+' { 1 } else { 0 };
    let ghost d = if s@.len() > 0 && s@[0] == '+' { s@.drop_first() } else { s@ };
    assert(d == s@.subrange(start as int, n as int));
    if start == n {
        return None;
    }
    let mut value: u128 = 0;
    let mut i: usize = start;
    while i < n
        invariant
            n == s@.len(),
            start <= i <= n,
            d == s@.subrange(start as int, n as int),
            d == (if s@.len() > 0 && s@[0] == '+' { s@.drop_first() } else { s@ }),
            all_digits(s@.subrange(start as int, i as int)),
            value == digits_value(s@.subrange(start as int, i as int)),
            value <= usize::MAX,
        decreases n - i,
    {
        let c = s.get_char(i);
        let ghost t = s@.subrange(start as int, i + 1);
        assert(t.drop_last() == s@.subrange(start as int, i as int));
        if !('0' <= c && c <= '9') {
            proof {
                assert(d[i - start] == c);
                assert(!all_digits(d));
            }
            return None;
        }
        assert(all_digits(t));
        assert(t.last() == c);
        assert(usize::MAX <= u64::MAX);
        let digit = (c as u32 - '0' as u32) as u128;
        let next = value * 10 + digit;
        assert(next == digits_value(t));
        if next > usize::MAX as u128 {
            proof {
                if all_digits(d) {
                    lemma_digits_value_mono(d, i + 1 - start);
                    assert(d.subrange(0, i + 1 - start) == t);
                }
            }
            return None;
        }
        value = next;
        i += 1;
    }
    assert(s@.subrange(start as int, n as int) == d);
    Some(value as usize)
}

proof fn lemma_digits_value_nonneg(s: Seq<char>)
    requires
        all_digits(s),
    ensures
        digits_value(s) >= 0,
    decreases s.len(),
{
    if s.len() > 0 {
        lemma_digits_value_nonneg(s.drop_last());
    }
}

proof fn lemma_digits_value_mono(s: Seq<char>, k: int)
    requires
        all_digits(s),
        0 <= k <= s.len(),
    ensures
        digits_value(s.subrange(0, k)) <= digits_value(s),
    decreases s.len() - k,
{
    if k < s.len() {
        lemma_digits_value_mono(s, k + 1);
        let t = s.subrange(0, k + 1);
        assert(t.drop_last() == s.subrange(0, k));
        lemma_digits_value_nonneg(s.subrange(0, k));
        assert(all_digits(t));
    } else {
        assert(s.subrange(0, k) == s);
    }
}

/// `bool` as `str::parse::<bool>` reads it.
fn parse_bool(s: &str) -> (v: Option<bool>)
    ensures
        v == spec_parse_bool(s@),
{
    if str_eq(s, "true") {
        Some(true)
    } else if str_eq(s, "false") {
        Some(false)
    } else {
        None
    }
}

/// Where the line starting at `start` ends (its `'\n'` or the end of `text`).
fn line_end(text: &str, start: usize) -> (end: usize)
    requires
        start <= text@.len(),
    ensures
        end == start + first_newline(text@.subrange(start as int, text@.len() as int)),
{
    let n = text.unicode_len();
    let mut j: usize = start;
    while j < n && text.get_char(j) != '\n'
        invariant
            n == text@.len(),
            start <= j <= n,
            first_newline(text@.subrange(start as int, n as int)) == (j - start) + first_newline(text@.subrange(j as int, n as int)),
        decreases n - j,
    {
        proof {
            let u = text@.subrange(j as int, n as int);
            assert(u.drop_first() == text@.subrange(j + 1, n as int));
        }
        j += 1;
    }
    proof {
        let u = text@.subrange(j as int, n as int);
        if j < n {
            assert(u[0] == text@[j as int]);
        }
    }
    j
}

/// The line starting at `start` and where the next one starts.
fn next_line(text: &str, start: usize) -> (r: (&str, usize))
    requires
        start < text@.len(),
    ensures
        r.0@ == line_of(text@.subrange(start as int, text@.len() as int)),
        start < r.1 <= text@.len(),
        text@.subrange(r.1 as int, text@.len() as int) == after_line(text@.subrange(start as int, text@.len() as int)),
{
    let n = text.unicode_len();
    let ghost rest = text@.subrange(start as int, n as int);
    let end = line_end(text, start);
    proof {
        lemma_first_newline(rest);
    }
    let cut = if end < n && end > start && text.get_char(end - 1) == '\r' { end - 1 } else { end };
    proof {
        if end < n && end > start {
            assert(rest[end - start - 1] == text@[end - 1]);
        }
        assert(rest.subrange(0, cut - start) == text@.subrange(start as int, cut as int));
    }
    let line = text.substring_char(start, cut);
    let next = if end < n { end + 1 } else { n };
    proof {
        if end < n {
            assert(rest.subrange(end - start + 1, rest.len() as int) == text@.subrange(next as int, n as int));
        } else {
            assert(text@.subrange(next as int, n as int) == Seq::<char>::empty());
        }
    }
    (line, next)
}

fn key_prefix(key: &str) -> (p: String)
    ensures
        p@ == key@ + " = "@,
{
    let mut p = String::from_str(key);
    p.append(" = ");
    p
}

/// The `usize` written as `key = value` on the first line of `text` that has one, or zero.
pub fn meta_field_usize(text: &str, key: &str) -> (v: usize)
    ensures
        v == match first_usize_field(text_lines(text@), key@ + " = "@) {
            Some(x) => x,
            None => 0,
        },
{
    let prefix = key_prefix(key);
    let n = text.unicode_len();
    let mut pos: usize = 0;
    assert(text@.subrange(0, n as int) == text@);
    while pos < n
        invariant
            n == text@.len(),
            pos <= n,
            prefix@ == key@ + " = "@,
            first_usize_field(text_lines(text@), prefix@) == first_usize_field(text_lines(text@.subrange(pos as int, n as int)), prefix@),
        decreases n - pos,
    {
        let ghost rest = text@.subrange(pos as int, n as int);
        let (line, next) = next_line(text, pos);
        proof {
            assert(text_lines(rest) == seq![line_of(rest)] + text_lines(after_line(rest)));
            assert((seq![line_of(rest)] + text_lines(after_line(rest)))[0] == line_of(rest));
            assert((seq![line_of(rest)] + text_lines(after_line(rest))).drop_first() == text_lines(after_line(rest)));
        }
        if starts_with(line, prefix.as_str()) {
            let m = line.unicode_len();
            let p = prefix.as_str().unicode_len();
            let value_text = line.substring_char(p, m);
            if let Some(v) = parse_usize(value_text) {
                return v;
            }
        }
        pos = next;
    }
    assert(text@.subrange(pos as int, n as int) == Seq::<char>::empty());
    0
}

/// The `bool` written as `key = value` on the first line of `text` that has one, or `false`.
pub fn meta_field_bool(text: &str, key: &str) -> (v: bool)
    ensures
        v == match first_bool_field(text_lines(text@), key@ + " = "@) {
            Some(x) => x,
            None => false,
        },
{
    let prefix = key_prefix(key);
    let n = text.unicode_len();
    let mut pos: usize = 0;
    assert(text@.subrange(0, n as int) == text@);
    while pos < n
        invariant
            n == text@.len(),
            pos <= n,
            prefix@ == key@ + " = "@,
            first_bool_field(text_lines(text@), prefix@) == first_bool_field(text_lines(text@.subrange(pos as int, n as int)), prefix@),
        decreases n - pos,
    {
        let ghost rest = text@.subrange(pos as int, n as int);
        let (line, next) = next_line(text, pos);
        proof {
            assert(text_lines(rest) == seq![line_of(rest)] + text_lines(after_line(rest)));
            assert((seq![line_of(rest)] + text_lines(after_line(rest)))[0] == line_of(rest));
            assert((seq![line_of(rest)] + text_lines(after_line(rest))).drop_first() == text_lines(after_line(rest)));
        }
        if starts_with(line, prefix.as_str()) {
            let m = line.unicode_len();
            let p = prefix.as_str().unicode_len();
            let value_text = line.substring_char(p, m);
            if let Some(v) = parse_bool(value_text) {
                return v;
            }
        }
        pos = next;
    }
    assert(text@.subrange(pos as int, n as int) == Seq::<char>::empty());
    false
}

/// `s` without its trailing commas.
fn trim_commas(s: &str) -> (t: &str)
    ensures
        t@ == strip_commas(s@),
{
    let n = s.unicode_len();
    let mut j: usize = n;
    assert(s@.subrange(0, n as int) == s@);
    while j > 0 && s.get_char(j - 1) == ','
        invariant
            n == s@.len(),
            j <= n,
            strip_commas(s@) == strip_commas(s@.subrange(0, j as int)),
        decreases j,
    {
        proof {
            let u = s@.subrange(0, j as int);
            assert(u.drop_last() == s@.subrange(0, j - 1));
            assert(u.last() == s@[j - 1]);
        }
        j -= 1;
    }
    proof {
        let u = s@.subrange(0, j as int);
        if j > 0 {
            assert(u.last() == s@[j - 1]);
        }
    }
    s.substring_char(0, j)
}

/// Entry `index` of the array `table = [` … `]` in `text`, or zero.
pub fn meta_array_u32(text: &str, table: &str, index: usize) -> (v: u32)
    ensures
        ({
            let entries = array_entries(text_lines(text@), table@ + " = ["@, false);
            v == if index < entries.len() { entries[index as int] } else { 0 }
        }),
{
    let mut header = String::from_str(table);
    header.append(" = [");
    let ghost h = header@;
    let n = text.unicode_len();
    let mut pos: usize = 0;
    let mut in_table = false;
    let mut values: Vec<u32> = Vec::new();
    assert(text@.subrange(0, n as int) == text@);
    proof {
        reveal_strlit("]");
    }
    while pos < n
        invariant
            n == text@.len(),
            pos <= n,
            h == table@ + " = ["@,
            header@ == h,
            array_entries(text_lines(text@), h, false) == values@ + array_entries(text_lines(text@.subrange(pos as int, n as int)), h, in_table),
        decreases n - pos,
    {
        let ghost rest = text@.subrange(pos as int, n as int);
        let (line, next) = next_line(text, pos);
        let ghost lines = text_lines(rest);
        proof {
            assert(lines == seq![line_of(rest)] + text_lines(after_line(rest)));
            assert(lines[0] == line_of(rest));
            assert(lines.drop_first() == text_lines(after_line(rest)));
        }
        let t = trim_text(line);
        if str_eq(t, header.as_str()) {
            in_table = true;
            pos = next;
        } else if in_table {
            if str_eq(t, "]") {
                proof {
                    assert(array_entries(lines, h, true) == Seq::<u32>::empty());
                    assert(text@.subrange(n as int, n as int) == Seq::<char>::empty());
                }
                pos = n;
            } else {
                let ghost before = values@;
                match parse_u32(trim_commas(t)) {
                    Some(v) => {
                        values.push(v);
                        proof {
                            assert(before + (seq![v] + array_entries(text_lines(after_line(rest)), h, true)) == values@ + array_entries(text_lines(after_line(rest)), h, true));
                        }
                    },
                    None => {
                        proof {
                            assert(Seq::<u32>::empty() + array_entries(text_lines(after_line(rest)), h, true) == array_entries(text_lines(after_line(rest)), h, true));
                        }
                    },
                }
                pos = next;
            }
        } else {
            pos = next;
        }
    }
    proof {
        if pos >= n {
            assert(text@.subrange(pos as int, n as int) == Seq::<char>::empty());
            assert(values@ + Seq::<u32>::empty() == values@);
        }
    }
    if index < values.len() {
        values[index]
    } else {
        0
    }
}

} // verus!
