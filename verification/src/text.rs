//! Text building blocks shared by the commands: characters of a string,
//! decimal numbers, joining, the line model of `str::lines`, line truncation.
use vstd::prelude::*;

verus! {

/// Appends one character to a string: std's `String::push`.
/// The contract claims that the string afterwards is the old string with
/// `c` at its end, which is what std documents for `push`.
#[verifier::external_body]
pub(crate) fn push_char(s: &mut String, c: char)
    ensures
        final(s)@ == old(s)@.push(c),
{
    s.push(c);
}

/// The characters of `s`, in order.
pub fn to_chars(s: &str) -> (v: Vec<char>)
    ensures
        v@ == s@,
{
    let mut v: Vec<char> = Vec::new();
    for c in it: s.chars()
        invariant
            it.seq() == s@,
            v@ == it.seq().take(it.index() as int),
    {
        v.push(c);
    }
    v
}

/// Appends the characters `v[from..to]` to `s`.
pub(crate) fn push_range(s: &mut String, v: &Vec<char>, from: usize, to: usize)
    requires
        from <= to <= v.len(),
    ensures
        final(s)@ == old(s)@ + v@.subrange(from as int, to as int),
{
    let mut i = from;
    while i < to
        invariant
            from <= i <= to <= v.len(),
            s@ == old(s)@ + v@.subrange(from as int, i as int),
        decreases to - i,
    {
        push_char(s, v[i]);
        assert(v@.subrange(from as int, i + 1) =~= v@.subrange(from as int, i as int).push(v@[i as int]));
        i = i + 1;
    }
}

/// Appends all characters of `v` to `s`.
pub(crate) fn push_all(s: &mut String, v: &Vec<char>)
    ensures
        final(s)@ == old(s)@ + v@,
{
    push_range(s, v, 0, v.len());
    assert(v@.subrange(0, v@.len() as int) =~= v@);
}

/// Whether the characters `v` spell exactly the string `lit`.
pub(crate) fn chars_eq_str(v: &[char], lit: &str) -> (r: bool)
    ensures
        r == (v@ == lit@),
{
    let n = lit.unicode_len();
    if n != v.len() {
        return false;
    }
    let mut i: usize = 0;
    while i < n
        invariant
            n == lit@.len(),
            n == v@.len(),
            i <= n,
            forall|k: int| 0 <= k < i ==> v@[k] == lit@[k],
        decreases n - i,
    {
        if v[i] != lit.get_char(i) {
            return false;
        }
        i = i + 1;
    }
    assert(v@ =~= lit@);
    true
}

/// Whether the character `c` occurs in `v`.
pub(crate) fn chars_contain(v: &[char], c: char) -> (r: bool)
    ensures
        r == v@.contains(c),
{
    let mut i: usize = 0;
    while i < v.len()
        invariant
            i <= v@.len(),
            forall|k: int| 0 <= k < i ==> v@[k] != c,
        decreases v.len() - i,
    {
        if v[i] == c {
            assert(v@[i as int] == c);
            return true;
        }
        i = i + 1;
    }
    false
}

/// The decimal digit character for `d` (`0 <= d < 10`).
pub open spec fn digit_char(d: int) -> char {
    ((48 + d) as u8) as char
}

/// The decimal notation of `n`, without leading zeros.
pub open spec fn decimal(n: nat) -> Seq<char>
    decreases n,
{
    if n < 10 {
        seq![digit_char(n as int)]
    } else {
        decimal(n / 10).push(digit_char((n % 10) as int))
    }
}

/// Appends the decimal notation of `n` to `s`.
pub fn push_decimal(s: &mut String, n: u128)
    ensures
        final(s)@ == old(s)@ + decimal(n as nat),
    decreases n,
{
    let ghost s0 = s@;
    if n >= 10 {
        push_decimal(s, n / 10);
    }
    let d: u8 = (n % 10) as u8;
    push_char(s, (48u8 + d) as char);
    assert(s@ =~= s0 + decimal(n as nat));
}

/// `parts` joined with `sep` between consecutive parts.
pub open spec fn join(parts: Seq<Seq<char>>, sep: Seq<char>) -> Seq<char>
    decreases parts.len(),
{
    if parts.len() == 0 {
        Seq::empty()
    } else if parts.len() == 1 {
        parts[0]
    } else {
        join(parts.drop_last(), sep) + sep + parts.last()
    }
}

/// A line's text without the `'\r'` of a `"\r\n"` ending.
pub open spec fn strip_cr(l: Seq<char>) -> Seq<char> {
    if l.len() > 0 && l.last() == '\r' {
        l.drop_last()
    } else {
        l
    }
}

/// Reading `s` from the left: the lines ended by `'\n'` so far (each without
/// its ending), and the text after the last `'\n'`.
pub open spec fn scan_lines(s: Seq<char>) -> (Seq<Seq<char>>, Seq<char>)
    decreases s.len(),
{
    if s.len() == 0 {
        (Seq::empty(), Seq::empty())
    } else {
        let prev = scan_lines(s.drop_last());
        if s.last() == '\n' {
            (prev.0.push(strip_cr(prev.1)), Seq::empty())
        } else {
            (prev.0, prev.1.push(s.last()))
        }
    }
}

/// The lines of `s` as std's `str::lines` yields them: split at `'\n'`,
/// a `'\r'` just before a `'\n'` removed, and no empty last line after a
/// final `'\n'`.
pub open spec fn lines_of(s: Seq<char>) -> Seq<Seq<char>> {
    let sc = scan_lines(s);
    if sc.1.len() == 0 {
        sc.0
    } else {
        sc.0.push(sc.1)
    }
}

/// The result of `truncate_lines(s, max)`.
pub open spec fn truncated_text(s: Seq<char>, max: nat) -> Seq<char> {
    let ls = lines_of(s);
    if ls.len() <= max {
        s
    } else {
        join(ls.take(max as int), "\n"@) + "\n... ("@ + decimal((ls.len() - max) as nat)
            + " lines truncated)"@
    }
}

/// Joining one more part adds the separator and the part.
pub proof fn lemma_join_push(parts: Seq<Seq<char>>, l: Seq<char>, sep: Seq<char>)
    ensures
        join(parts.push(l), sep) == if parts.len() == 0 {
            l
        } else {
            join(parts, sep) + sep + l
        },
{
    assert(parts.push(l).drop_last() =~= parts);
}

/// Keeps the first `max` lines of `s`; when there are more, the kept lines
/// are joined with `'\n'` and a note of how many were left out follows.
/// A text of at most `max` lines comes back unchanged.
pub fn truncate_lines(s: &str, max: usize) -> (r: String)
    ensures
        r@ == truncated_text(s@, max as nat),
        lines_of(s@).len() <= max ==> r@ == s@,
{
    let v = to_chars(s);
    let mut out = String::new();
    let mut count: usize = 0;
    let mut start: usize = 0;
    let mut i: usize = 0;
    while i < v.len()
        invariant
            v@ == s@,
            start <= i <= v@.len(),
            scan_lines(v@.take(i as int)).0.len() == count,
            scan_lines(v@.take(i as int)).1 == v@.subrange(start as int, i as int),
            count <= start,
            out@ == join(
                scan_lines(v@.take(i as int)).0.take(
                    if count <= max {
                        count as int
                    } else {
                        max as int
                    },
                ),
                "\n"@,
            ),
        decreases v.len() - i,
    {
        let ghost prev = scan_lines(v@.take(i as int));
        assert(v@.take(i + 1).drop_last() =~= v@.take(i as int));
        if v[i] == '\n' {
            let ghost line = strip_cr(prev.1);
            let end = if i > start && v[i - 1] == '\r' {
                i - 1
            } else {
                i
            };
            assert(v@.subrange(start as int, end as int) =~= line);
            if count < max {
                proof {
                    lemma_join_push(prev.0, line, "\n"@);
                    assert(prev.0.push(line).take(count + 1) =~= prev.0.take(count as int).push(
                        line,
                    ));
                    assert(prev.0.take(count as int) =~= prev.0);
                }
                if count > 0 {
                    out.append("\n");
                }
                push_range(&mut out, &v, start, end);
                proof {
                    lemma_join_push(prev.0.take(count as int), line, "\n"@);
                }
            } else {
                assert(prev.0.push(line).take(max as int) =~= prev.0.take(max as int));
            }
            count = count + 1;
            start = i + 1;
        } else {
            assert(v@.subrange(start as int, i + 1) =~= prev.1.push(v@[i as int]));
        }
        i = i + 1;
    }
    assert(v@.take(v@.len() as int) =~= v@);
    let ghost sc = scan_lines(v@);
    let total: usize = if start < v.len() {
        count + 1
    } else {
        count
    };
    if total <= max {
        return s.to_owned();
    }
    // more lines than `max`: `out` holds the first `max` of them
    if start < v.len() {
        assert(sc.0.push(sc.1).take(max as int) =~= sc.0.take(max as int));
    }
    out.append("\n... (");
    push_decimal(&mut out, (total - max) as u128);
    out.append(" lines truncated)");
    out
}

/// Output never longer than the raw text: `filtered` unless it has more
/// bytes than `raw`, then `raw`.
pub fn never_worse<'a>(raw: &'a str, filtered: &'a str) -> (r: &'a str)
    ensures
        r@ == (if filtered.len() <= raw.len() {
            filtered@
        } else {
            raw@
        }),
        r.len() <= raw.len(),
{
    if filtered.len() <= raw.len() {
        filtered
    } else {
        raw
    }
}

} // verus!
