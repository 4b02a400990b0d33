//! Line, word, byte and character counts, the flag letters that pick which
//! of them are shown, and the text shown for one file or for several.
use vstd::prelude::*;
use crate::text::{decimal, join, lemma_join_push, push_decimal, to_chars};

verus! {

/// Which counts are shown.
#[derive(Debug, Clone, Copy, PartialEq, Eq, Structural)]
pub enum WcMode {
    Full,
    Lines,
    Words,
    Bytes,
    Chars,
    Mixed,
}

/// The four counts of a text.
#[derive(Debug, Clone, Copy)]
pub struct Counts {
    pub lines: usize,
    pub words: usize,
    pub bytes: usize,
    pub chars: usize,
}

/// A file named on the command line, with its counts when it could be read.
pub struct FileCount {
    pub name: String,
    pub counts: Option<Counts>,
}

/// One of the letters that select a count: `l`, `w`, `c`, `m`.
pub open spec fn is_mode_letter(c: char) -> bool {
    c == 'l' || c == 'w' || c == 'c' || c == 'm'
}

/// The count-selecting letters of `s`, in order.
pub open spec fn mode_letters_in(s: Seq<char>) -> Seq<char>
    decreases s.len(),
{
    if s.len() == 0 {
        Seq::empty()
    } else if is_mode_letter(s.last()) {
        mode_letters_in(s.drop_last()).push(s.last())
    } else {
        mode_letters_in(s.drop_last())
    }
}

/// Whether an argument is a flag: it begins with `-`.
pub open spec fn is_flag(a: Seq<char>) -> bool {
    a.len() > 0 && a[0] == '-'
}

/// The count-selecting letters after the leading `-` of every flag, in order.
pub open spec fn mode_letters(args: Seq<Seq<char>>) -> Seq<char>
    decreases args.len(),
{
    if args.len() == 0 {
        Seq::empty()
    } else {
        mode_letters(args.drop_last()) + if is_flag(args.last()) {
            mode_letters_in(args.last().drop_first())
        } else {
            Seq::empty()
        }
    }
}

/// The mode the arguments select: all counts when no letter is given,
/// the one count a single letter names, and lines, words and bytes when
/// two or more letters are given (a letter given twice counts twice).
pub open spec fn mode_of(args: Seq<Seq<char>>) -> WcMode {
    let ls = mode_letters(args);
    if ls.len() == 0 {
        WcMode::Full
    } else if ls.len() > 1 {
        WcMode::Mixed
    } else if ls[0] == 'l' {
        WcMode::Lines
    } else if ls[0] == 'w' {
        WcMode::Words
    } else if ls[0] == 'c' {
        WcMode::Bytes
    } else {
        WcMode::Chars
    }
}

/// The views of a list of strings.
pub open spec fn views(args: Seq<String>) -> Seq<Seq<char>> {
    args.map_values(|a: String| a@)
}

/// The mode that the flags among `args` select.
pub fn detect_mode(args: &[String]) -> (m: WcMode)
    ensures
        m == mode_of(views(args@)),
{
    // `seen` counts the letters up to two; `first` is the first of them
    let mut seen: usize = 0;
    let mut first: char = 'l';
    let mut k: usize = 0;
    while k < args.len()
        invariant
            k <= args@.len(),
            seen == if mode_letters(views(args@.take(k as int))).len() < 2 {
                mode_letters(views(args@.take(k as int))).len()
            } else {
                2
            },
            seen >= 1 ==> first == mode_letters(views(args@.take(k as int)))[0],
        decreases args.len() - k,
    {
        let ghost before = mode_letters(views(args@.take(k as int)));
        assert(views(args@.take(k + 1)).drop_last() =~= views(args@.take(k as int)));
        assert(views(args@.take(k + 1)).last() == args@[k as int]@);
        let v = to_chars(args[k].as_str());
        if v.len() > 0 && v[0] == '-' {
            let mut j: usize = 1;
            while j < v.len()
                invariant
                    1 <= j <= v@.len(),
                    v@.len() > 0,
                    seen == if (before + mode_letters_in(v@.drop_first().take(j - 1))).len() < 2 {
                        (before + mode_letters_in(v@.drop_first().take(j - 1))).len()
                    } else {
                        2
                    },
                    seen >= 1 ==> first == (before + mode_letters_in(
                        v@.drop_first().take(j - 1),
                    ))[0],
                decreases v.len() - j,
            {
                let ghost cur = mode_letters_in(v@.drop_first().take(j - 1));
                assert(v@.drop_first().take(j as int).drop_last() =~= v@.drop_first().take(
                    j - 1,
                ));
                let c = v[j];
                if c == 'l' || c == 'w' || c == 'c' || c == 'm' {
                    assert((before + cur.push(c)) =~= (before + cur).push(c));
                    if seen == 0 {
                        first = c;
                    }
                    if seen < 2 {
                        seen = seen + 1;
                    }
                }
                j = j + 1;
            }
            assert(v@.drop_first().take(v@.len() - 1) =~= v@.drop_first());
        } else {
            assert(before + Seq::<char>::empty() =~= before);
        }
        k = k + 1;
    }
    assert(args@.take(args@.len() as int) =~= args@);
    if seen == 0 {
        WcMode::Full
    } else if seen > 1 {
        WcMode::Mixed
    } else if first == 'l' {
        WcMode::Lines
    } else if first == 'w' {
        WcMode::Words
    } else if first == 'c' {
        WcMode::Bytes
    } else {
        WcMode::Chars
    }
}

/// Unicode's White_Space characters, which `char::is_whitespace` tests for.
pub open spec fn is_space(c: char) -> bool {
    ('\u{9}' <= c && c <= '\u{d}') || c == ' ' || c == '\u{85}' || c == '\u{a0}' || c
        == '\u{1680}' || ('\u{2000}' <= c && c <= '\u{200a}') || c == '\u{2028}' || c
        == '\u{2029}' || c == '\u{202f}' || c == '\u{205f}' || c == '\u{3000}'
}

/// Whether `c` is a Unicode White_Space character.
pub fn is_whitespace(c: char) -> (r: bool)
    ensures
        r == is_space(c),
{
    ('\u{9}' <= c && c <= '\u{d}') || c == ' ' || c == '\u{85}' || c == '\u{a0}' || c
        == '\u{1680}' || ('\u{2000}' <= c && c <= '\u{200a}') || c == '\u{2028}' || c
        == '\u{2029}' || c == '\u{202f}' || c == '\u{205f}' || c == '\u{3000}'
}

/// The number of `'\n'` characters in `s`.
pub open spec fn newline_count(s: Seq<char>) -> nat
    decreases s.len(),
{
    if s.len() == 0 {
        0
    } else {
        newline_count(s.drop_last()) + if s.last() == '\n' {
            1nat
        } else {
            0nat
        }
    }
}

/// The number of words of `s`: maximal runs of characters that are not
/// white space.
pub open spec fn word_count(s: Seq<char>) -> nat
    decreases s.len(),
{
    if s.len() == 0 {
        0
    } else {
        word_count(s.drop_last()) + if !is_space(s.last()) && (s.len() == 1 || is_space(
            s[s.len() - 2],
        )) {
            1nat
        } else {
            0nat
        }
    }
}

/// Counts the lines (`'\n'` characters), words, bytes (of the UTF-8
/// encoding) and characters of `content`.
pub fn count_content(content: &str) -> (c: Counts)
    ensures
        c.lines == newline_count(content@),
        c.words == word_count(content@),
        c.bytes == vstd::utf8::encode_utf8(content@).len(),
        c.chars == content@.len(),
        c.lines <= c.chars,
        c.words <= c.chars,
        c.chars <= c.bytes,
{
    proof {
        lemma_counts_within_chars(content@);
        lemma_chars_within_bytes(content@);
    }
    let v = to_chars(content);
    let mut lines: usize = 0;
    let mut words: usize = 0;
    let mut prev_space = true;
    let mut i: usize = 0;
    while i < v.len()
        invariant
            i <= v@.len(),
            lines == newline_count(v@.take(i as int)),
            words == word_count(v@.take(i as int)),
            lines <= i,
            words <= i,
            prev_space == (i == 0 || is_space(v@[i - 1])),
        decreases v.len() - i,
    {
        assert(v@.take(i + 1).drop_last() =~= v@.take(i as int));
        let c = v[i];
        if c == '\n' {
            lines = lines + 1;
        }
        let sp = is_whitespace(c);
        if !sp && prev_space {
            words = words + 1;
        }
        prev_space = sp;
        i = i + 1;
    }
    assert(v@.take(v@.len() as int) =~= v@);
    let bytes = content.as_bytes().len();
    Counts { lines, words, bytes, chars: v.len() }
}

/// The text shown for one set of counts.
pub open spec fn counts_text(c: Counts, mode: WcMode) -> Seq<char> {
    match mode {
        WcMode::Lines => decimal(c.lines as nat),
        WcMode::Words => decimal(c.words as nat),
        WcMode::Bytes => decimal(c.bytes as nat),
        WcMode::Chars => decimal(c.chars as nat),
        WcMode::Full => decimal(c.lines as nat) + "L "@ + decimal(c.words as nat) + "W "@
            + decimal(c.bytes as nat) + "B"@,
        WcMode::Mixed => decimal(c.lines as nat) + " "@ + decimal(c.words as nat) + " "@
            + decimal(c.bytes as nat),
    }
}

/// Appends the text of `counts` in `mode`.
fn push_counts(out: &mut String, counts: &Counts, mode: &WcMode)
    ensures
        final(out)@ == old(out)@ + counts_text(*counts, *mode),
{
    let ghost o = out@;
    match mode {
        WcMode::Lines => push_decimal(out, counts.lines as u128),
        WcMode::Words => push_decimal(out, counts.words as u128),
        WcMode::Bytes => push_decimal(out, counts.bytes as u128),
        WcMode::Chars => push_decimal(out, counts.chars as u128),
        WcMode::Full => {
            push_decimal(out, counts.lines as u128);
            out.append("L ");
            push_decimal(out, counts.words as u128);
            out.append("W ");
            push_decimal(out, counts.bytes as u128);
            out.append("B");
        },
        WcMode::Mixed => {
            push_decimal(out, counts.lines as u128);
            out.append(" ");
            push_decimal(out, counts.words as u128);
            out.append(" ");
            push_decimal(out, counts.bytes as u128);
        },
    }
    assert(out@ =~= o + counts_text(*counts, *mode));
}

/// The counts of a single input, as `mode` selects them.
pub fn format_counts_single(counts: &Counts, mode: &WcMode) -> (r: String)
    ensures
        r@ == counts_text(*counts, *mode),
{
    let mut out = String::new();
    push_counts(&mut out, counts, mode);
    assert(out@ =~= counts_text(*counts, *mode));
    out
}

/// The line shown for one file: its counts, a space, its name.
pub open spec fn file_line(name: Seq<char>, c: Counts, mode: WcMode) -> Seq<char> {
    counts_text(c, mode) + " "@ + name
}

/// The last line of a multi-file report: `Σ` and the totals.
pub open spec fn total_line(total: Counts, mode: WcMode) -> Seq<char> {
    "Σ "@ + counts_text(total, mode)
}

/// The lines of a multi-file report: one per file, then the totals.
pub open spec fn multi_lines(rows: Seq<(Seq<char>, Counts)>, total: Counts, mode: WcMode) -> Seq<
    Seq<char>,
> {
    rows.map_values(|r: (Seq<char>, Counts)| file_line(r.0, r.1, mode)).push(
        total_line(total, mode),
    )
}

/// The rows of a list of (name, counts) pairs, names by their views.
pub open spec fn row_views(rows: Seq<(String, Counts)>) -> Seq<(Seq<char>, Counts)> {
    rows.map_values(|r: (String, Counts)| (r.0@, r.1))
}

/// A report over several files: a line per file, then the totals line,
/// joined with `'\n'`.
pub fn format_counts_multi(all_counts: &[(String, Counts)], total: &Counts, mode: &WcMode) -> (r:
    String)
    ensures
        r@ == join(multi_lines(row_views(all_counts@), *total, *mode), "\n"@),
{
    let ghost lines = multi_lines(row_views(all_counts@), *total, *mode);
    let mut out = String::new();
    let mut i: usize = 0;
    while i < all_counts.len()
        invariant
            i <= all_counts@.len(),
            lines == multi_lines(row_views(all_counts@), *total, *mode),
            out@ == join(lines.take(i as int), "\n"@),
        decreases all_counts.len() - i,
    {
        let ghost line = file_line(all_counts@[i as int].0@, all_counts@[i as int].1, *mode);
        assert(lines[i as int] == line);
        assert(lines.take(i + 1) =~= lines.take(i as int).push(line));
        proof {
            lemma_join_push(lines.take(i as int), line, "\n"@);
        }
        if i > 0 {
            out.append("\n");
        }
        let (name, counts) = &all_counts[i];
        push_counts(&mut out, counts, mode);
        out.append(" ");
        out.append(name.as_str());
        assert(out@ =~= join(lines.take(i + 1), "\n"@));
        i = i + 1;
    }
    let n = all_counts.len();
    assert(lines.take(n + 1) =~= lines.take(n as int).push(total_line(*total, *mode)));
    assert(lines.take(n + 1) =~= lines);
    proof {
        lemma_join_push(lines.take(n as int), total_line(*total, *mode), "\n"@);
    }
    if n > 0 {
        out.append("\n");
    }
    out.append("Σ ");
    push_counts(&mut out, total, mode);
    assert(out@ =~= join(lines, "\n"@));
    out
}

/// A path separator: `/` or `\\`.
pub open spec fn is_sep(c: char) -> bool {
    c == '/' || c == '\\'
}

/// Whether `s` begins with `p`.
pub open spec fn starts_with(s: Seq<char>, p: Seq<char>) -> bool {
    p.len() <= s.len() && s.take(p.len() as int) == p
}

/// Whether every one of `paths` begins with `p`.
pub open spec fn all_start_with(paths: Seq<Seq<char>>, p: Seq<char>) -> bool {
    forall|i: int| 0 <= i < paths.len() ==> starts_with(#[trigger] paths[i], p)
}

/// The longest of the first `n` characters' prefixes of `first` that ends
/// with a separator and begins every one of `paths`; empty when none does.
pub open spec fn sep_prefix(first: Seq<char>, paths: Seq<Seq<char>>, n: nat) -> Seq<char>
    decreases n,
{
    if n == 0 {
        Seq::empty()
    } else if n <= first.len() && is_sep(first[n - 1]) && all_start_with(paths, first.take(n as int)) {
        first.take(n as int)
    } else {
        sep_prefix(first, paths, (n - 1) as nat)
    }
}

/// The directory prefix shared by all paths: the longest prefix of the
/// first path that ends with a separator and begins every path; empty for
/// fewer than two paths or when there is none.
pub open spec fn common_prefix(paths: Seq<Seq<char>>) -> Seq<char> {
    if paths.len() <= 1 {
        Seq::empty()
    } else {
        sep_prefix(paths[0], paths, paths[0].len())
    }
}

/// The views of a list of string slices.
pub open spec fn str_views(paths: Seq<&str>) -> Seq<Seq<char>> {
    paths.map_values(|p: &str| p@)
}

proof fn lemma_sep_prefix_common(first: Seq<char>, paths: Seq<Seq<char>>, n: nat)
    ensures
        all_start_with(paths, sep_prefix(first, paths, n)),
        sep_prefix(first, paths, n).len() == 0 || is_sep(sep_prefix(first, paths, n).last()),
        sep_prefix(first, paths, n).len() <= n,
        starts_with(first, sep_prefix(first, paths, n)),
    decreases n,
{
    if n == 0 {
        assert forall|i: int| 0 <= i < paths.len() implies starts_with(
            #[trigger] paths[i],
            Seq::<char>::empty(),
        ) by {
            assert(paths[i].take(0) =~= Seq::<char>::empty());
        }
        assert(first.take(0) =~= Seq::<char>::empty());
    } else if n <= first.len() && is_sep(first[n - 1]) && all_start_with(
        paths,
        first.take(n as int),
    ) {
        assert(first.take(n as int).take(n as int) =~= first.take(n as int));
    } else {
        lemma_sep_prefix_common(first, paths, (n - 1) as nat);
    }
}

/// The shared prefix begins every path, and it is empty or ends with a
/// separator; with the prefix put back in front, each shortened name is
/// the path again.
pub proof fn lemma_common_prefix_begins_every_path(paths: Seq<Seq<char>>)
    ensures
        all_start_with(paths, common_prefix(paths)),
        common_prefix(paths).len() == 0 || is_sep(common_prefix(paths).last()),
        forall|i: int|
            0 <= i < paths.len() ==> common_prefix(paths) + (#[trigger] paths[i]).skip(
                common_prefix(paths).len() as int,
            ) == paths[i],
{
    if paths.len() <= 1 {
        assert forall|i: int| 0 <= i < paths.len() implies starts_with(
            #[trigger] paths[i],
            Seq::<char>::empty(),
        ) by {
            assert(paths[i].take(0) =~= Seq::<char>::empty());
        }
    } else {
        lemma_sep_prefix_common(paths[0], paths, paths[0].len());
    }
    let p = common_prefix(paths);
    assert forall|i: int| 0 <= i < paths.len() implies p + (#[trigger] paths[i]).skip(
        p.len() as int,
    ) == paths[i] by {
        assert(starts_with(paths[i], p));
        assert(p + paths[i].skip(p.len() as int) =~= paths[i]);
    }
}

/// The views of a list of character vectors.
pub open spec fn vec_views(v: Seq<Vec<char>>) -> Seq<Seq<char>> {
    v.map_values(|c: Vec<char>| c@)
}

/// The names in a list of (name, counts) pairs.
pub open spec fn file_names(files: Seq<(Seq<char>, Option<Counts>)>) -> Seq<Seq<char>> {
    files.map_values(|f: (Seq<char>, Option<Counts>)| f.0)
}

/// Whether every path in `chars` begins with the first `n` characters of `first`.
fn all_begin_with(chars: &Vec<Vec<char>>, first: &Vec<char>, n: usize) -> (r: bool)
    requires
        n <= first@.len(),
    ensures
        r == all_start_with(vec_views(chars@), first@.take(n as int)),
{
    let ghost ps = vec_views(chars@);
    let ghost p = first@.take(n as int);
    let mut j: usize = 0;
    while j < chars.len()
        invariant
            j <= chars@.len(),
            n <= first@.len(),
            ps == vec_views(chars@),
            p == first@.take(n as int),
            forall|i: int| 0 <= i < j ==> starts_with(#[trigger] ps[i], p),
        decreases chars.len() - j,
    {
        let path = &chars[j];
        assert(ps[j as int] == path@);
        if path.len() < n {
            assert(!starts_with(ps[j as int], p));
            return false;
        }
        let mut k: usize = 0;
        while k < n
            invariant
                k <= n <= path@.len(),
                n <= first@.len(),
                p == first@.take(n as int),
                j < chars@.len(),
                ps == vec_views(chars@),
                ps[j as int] == path@,
                forall|m: int| 0 <= m < k ==> path@[m] == first@[m],
            decreases n - k,
        {
            if path[k] != first[k] {
                assert(path@.take(n as int)[k as int] != p[k as int]);
                assert(!starts_with(ps[j as int], p));
                return false;
            }
            k = k + 1;
        }
        assert(path@.take(n as int) =~= p);
        j = j + 1;
    }
    true
}

/// The directory prefix that all `paths` share, to be left out of the
/// names shown: the longest prefix of the first path that ends with `/`
/// or `\\` and begins every path. Empty for fewer than two paths or when
/// no such prefix exists.
pub fn find_common_prefix(paths: &[&str]) -> (r: String)
    ensures
        r@ == common_prefix(str_views(paths@)),
{
    if paths.len() <= 1 {
        return String::new();
    }
    let ghost ps = str_views(paths@);
    let mut chars: Vec<Vec<char>> = Vec::new();
    let mut i: usize = 0;
    while i < paths.len()
        invariant
            i <= paths@.len(),
            ps == str_views(paths@),
            chars@.len() == i,
            forall|j: int| 0 <= j < i ==> (#[trigger] chars@[j])@ == ps[j],
        decreases paths.len() - i,
    {
        chars.push(to_chars(paths[i]));
        i = i + 1;
    }
    assert(vec_views(chars@) =~= ps);
    let first = &chars[0];
    let mut n = first.len();
    while n > 0
        invariant
            n <= first@.len(),
            first@ == ps[0],
            ps.len() > 1,
            ps == vec_views(chars@),
            ps == str_views(paths@),
            sep_prefix(ps[0], ps, ps[0].len()) == sep_prefix(ps[0], ps, n as nat),
        decreases n,
    {
        let c = first[n - 1];
        if (c == '/' || c == '\\') && all_begin_with(&chars, first, n) {
            let mut out = String::new();
            crate::text::push_range(&mut out, first, 0, n);
            assert(first@.subrange(0, n as int) =~= first@.take(n as int));
            assert(is_sep(ps[0][n - 1]));
            assert(sep_prefix(ps[0], ps, n as nat) == first@.take(n as int));
            assert(out@ =~= first@.take(n as int));
            return out;
        }
        n = n - 1;
    }
    String::new()
}

/// A name with `prefix` left out when it begins with it.
pub open spec fn strip_prefix(name: Seq<char>, prefix: Seq<char>) -> Seq<char> {
    if starts_with(name, prefix) {
        name.skip(prefix.len() as int)
    } else {
        name
    }
}

/// The names and counts of the files in a list.
pub open spec fn file_views(files: Seq<FileCount>) -> Seq<(Seq<char>, Option<Counts>)> {
    files.map_values(|f: FileCount| (f.name@, f.counts))
}

/// The rows shown for the files that could be read, in order, each name
/// with `prefix` left out.
pub open spec fn report_rows(files: Seq<(Seq<char>, Option<Counts>)>, prefix: Seq<char>) -> Seq<
    (Seq<char>, Counts),
>
    decreases files.len(),
{
    if files.len() == 0 {
        Seq::empty()
    } else {
        let rest = report_rows(files.drop_last(), prefix);
        match files.last().1 {
            Some(c) => rest.push((strip_prefix(files.last().0, prefix), c)),
            None => rest,
        }
    }
}

/// The sums of the counts of the files that could be read:
/// (lines, words, bytes, chars).
pub open spec fn count_sums(files: Seq<(Seq<char>, Option<Counts>)>) -> (nat, nat, nat, nat)
    decreases files.len(),
{
    if files.len() == 0 {
        (0, 0, 0, 0)
    } else {
        let s = count_sums(files.drop_last());
        match files.last().1 {
            Some(c) => (
                s.0 + c.lines as nat,
                s.1 + c.words as nat,
                s.2 + c.bytes as nat,
                s.3 + c.chars as nat,
            ),
            None => s,
        }
    }
}

/// Whether the sums of the counts fit in a `usize`.
pub open spec fn sums_fit(files: Seq<(Seq<char>, Option<Counts>)>) -> bool {
    let s = count_sums(files);
    s.0 <= usize::MAX && s.1 <= usize::MAX && s.2 <= usize::MAX && s.3 <= usize::MAX
}

/// The sums as counts.
pub open spec fn sums_as_counts(files: Seq<(Seq<char>, Option<Counts>)>) -> Counts {
    let s = count_sums(files);
    Counts { lines: s.0 as usize, words: s.1 as usize, bytes: s.2 as usize, chars: s.3 as usize }
}

proof fn lemma_sums_grow(files: Seq<(Seq<char>, Option<Counts>)>, k: int)
    requires
        0 <= k <= files.len(),
    ensures
        count_sums(files.take(k)).0 <= count_sums(files).0,
        count_sums(files.take(k)).1 <= count_sums(files).1,
        count_sums(files.take(k)).2 <= count_sums(files).2,
        count_sums(files.take(k)).3 <= count_sums(files).3,
    decreases files.len() - k,
{
    if k < files.len() {
        lemma_sums_grow(files, k + 1);
        assert(files.take(k + 1).drop_last() =~= files.take(k));
    } else {
        assert(files.take(k) =~= files);
    }
}

/// The report for the files named on the command line. For one file its
/// counts alone, or `None` when it could not be read. For several, a line
/// per readable file with the shared directory prefix left out of its
/// name, then the sums; unreadable files are left out.
pub fn count_files(files: &[FileCount], mode: &WcMode) -> (r: Option<String>)
    requires
        files@.len() != 1 ==> sums_fit(file_views(files@)),
    ensures
        files@.len() == 1 ==> (r is Some <==> files@[0].counts is Some),
        files@.len() == 1 && r is Some ==> r->0@ == counts_text(files@[0].counts->0, *mode),
        files@.len() != 1 ==> r is Some && r->0@ == join(
            multi_lines(
                report_rows(
                    file_views(files@),
                    common_prefix(file_names(file_views(files@))),
                ),
                sums_as_counts(file_views(files@)),
                *mode,
            ),
            "\n"@,
        ),
{
    if files.len() == 1 {
        return match &files[0].counts {
            Some(c) => Some(format_counts_single(c, mode)),
            None => None,
        };
    }
    let ghost fv = file_views(files@);
    let ghost names = file_names(fv);
    let mut name_strs: Vec<&str> = Vec::new();
    let mut i: usize = 0;
    while i < files.len()
        invariant
            i <= files@.len(),
            fv == file_views(files@),
            names == file_names(fv),
            name_strs@.len() == i,
            forall|j: int| 0 <= j < i ==> (#[trigger] name_strs@[j])@ == names[j],
        decreases files.len() - i,
    {
        name_strs.push(files[i].name.as_str());
        i = i + 1;
    }
    assert(str_views(name_strs@) =~= names);
    let prefix = find_common_prefix(name_strs.as_slice());
    let ghost pre = prefix@;
    proof {
        lemma_common_prefix_begins_every_path(names);
    }
    let plen = to_chars(prefix.as_str()).len();
    let mut rows: Vec<(String, Counts)> = Vec::new();
    let mut total = Counts { lines: 0, words: 0, bytes: 0, chars: 0 };
    let mut i: usize = 0;
    while i < files.len()
        invariant
            i <= files@.len(),
            files@.len() != 1,
            fv == file_views(files@),
            names == file_names(fv),
            sums_fit(fv),
            pre == common_prefix(names),
            plen == pre.len(),
            all_start_with(names, pre),
            row_views(rows@) == report_rows(fv.take(i as int), pre),
            total.lines == count_sums(fv.take(i as int)).0,
            total.words == count_sums(fv.take(i as int)).1,
            total.bytes == count_sums(fv.take(i as int)).2,
            total.chars == count_sums(fv.take(i as int)).3,
        decreases files.len() - i,
    {
        assert(fv.take(i + 1).drop_last() =~= fv.take(i as int));
        assert(fv.take(i + 1).last() == fv[i as int]);
        proof {
            lemma_sums_grow(fv, i + 1);
        }
        match &files[i].counts {
            Some(c) => {
                let name = to_chars(files[i].name.as_str());
                assert(names[i as int] == name@);
                assert(starts_with(names[i as int], pre));
                let mut shown = String::new();
                crate::text::push_range(&mut shown, &name, plen, name.len());
                assert(name@.subrange(plen as int, name@.len() as int) =~= name@.skip(plen as int));
                rows.push((shown, *c));
                total.lines = total.lines + c.lines;
                total.words = total.words + c.words;
                total.bytes = total.bytes + c.bytes;
                total.chars = total.chars + c.chars;
                assert(row_views(rows@) =~= report_rows(fv.take(i + 1), pre));
            },
            None => {
                assert(row_views(rows@) =~= report_rows(fv.take(i + 1), pre));
            },
        }
        i = i + 1;
    }
    assert(fv.take(files@.len() as int) =~= fv);
    Some(format_counts_multi(rows.as_slice(), &total, mode))
}

/// The line count of two texts put together is the sum of their line counts.
pub proof fn lemma_newlines_add_up(a: Seq<char>, b: Seq<char>)
    ensures
        newline_count(a + b) == newline_count(a) + newline_count(b),
    decreases b.len(),
{
    if b.len() == 0 {
        assert(a + b =~= a);
    } else {
        lemma_newlines_add_up(a, b.drop_last());
        assert((a + b).drop_last() =~= a + b.drop_last());
    }
}

/// The words of two texts put together are the words of each, less one
/// when a word runs across the seam.
pub proof fn lemma_words_add_up(a: Seq<char>, b: Seq<char>)
    ensures
        word_count(a + b) + (if a.len() > 0 && b.len() > 0 && !is_space(a.last()) && !is_space(
            b[0],
        ) {
            1nat
        } else {
            0nat
        }) == word_count(a) + word_count(b),
    decreases b.len(),
{
    if b.len() == 0 {
        assert(a + b =~= a);
    } else {
        lemma_words_add_up(a, b.drop_last());
        assert((a + b).drop_last() =~= a + b.drop_last());
        if b.len() == 1 {
            assert(b.drop_last() =~= Seq::<char>::empty());
            assert(a + b.drop_last() =~= a);
        } else {
            assert((a + b)[(a + b).len() - 2] == b[b.len() - 2]);
            assert(b.drop_last()[0] == b[0]);
        }
    }
}

/// The UTF-8 encoding of two texts put together is the encoding of the
/// first followed by that of the second.
pub proof fn lemma_encoding_joins(a: Seq<char>, b: Seq<char>)
    ensures
        vstd::utf8::encode_utf8(a + b) == vstd::utf8::encode_utf8(a) + vstd::utf8::encode_utf8(b),
    decreases a.len(),
{
    if a.len() == 0 {
        assert(a + b =~= b);
        assert(vstd::utf8::encode_utf8(a) =~= Seq::<u8>::empty());
        assert(Seq::<u8>::empty() + vstd::utf8::encode_utf8(b) =~= vstd::utf8::encode_utf8(b));
    } else {
        lemma_encoding_joins(a.drop_first(), b);
        assert((a + b)[0] == a[0]);
        assert((a + b).drop_first() =~= a.drop_first() + b);
        assert(vstd::utf8::encode_utf8(a + b) =~= vstd::utf8::encode_utf8(a) + vstd::utf8::encode_utf8(b));
    }
}

/// The counts of two texts put together: lines, bytes and characters add
/// up, and words add up less one when a word runs across the seam.
pub proof fn lemma_counts_add_up(a: Seq<char>, b: Seq<char>)
    ensures
        newline_count(a + b) == newline_count(a) + newline_count(b),
        word_count(a + b) + (if a.len() > 0 && b.len() > 0 && !is_space(a.last()) && !is_space(
            b[0],
        ) {
            1nat
        } else {
            0nat
        }) == word_count(a) + word_count(b),
        vstd::utf8::encode_utf8(a + b).len() == vstd::utf8::encode_utf8(a).len()
            + vstd::utf8::encode_utf8(b).len(),
        (a + b).len() == a.len() + b.len(),
{
    lemma_newlines_add_up(a, b);
    lemma_words_add_up(a, b);
    lemma_encoding_joins(a, b);
}

/// The line count of a text is the number of its `'\n'` characters and
/// nothing else.
pub proof fn lemma_lines_are_newlines(s: Seq<char>)
    ensures
        newline_count(s) == s.filter(|c: char| c == '\n').len(),
    decreases s.len(),
{
    reveal(Seq::filter);
    if s.len() > 0 {
        lemma_lines_are_newlines(s.drop_last());
    }
}

/// The mode depends on the flags alone: dropping, adding or moving
/// arguments that are not flags leaves it as it is.
pub proof fn lemma_mode_from_flags_alone(args: Seq<Seq<char>>)
    ensures
        mode_of(args) == mode_of(args.filter(|a: Seq<char>| is_flag(a))),
{
    lemma_letters_from_flags_alone(args);
}

proof fn lemma_letters_from_flags_alone(args: Seq<Seq<char>>)
    ensures
        mode_letters(args) == mode_letters(args.filter(|a: Seq<char>| is_flag(a))),
    decreases args.len(),
{
    reveal(Seq::filter);
    if args.len() > 0 {
        let f = |a: Seq<char>| is_flag(a);
        lemma_letters_from_flags_alone(args.drop_last());
        let sub = args.drop_last().filter(f);
        if is_flag(args.last()) {
            assert(args.filter(f) == sub.push(args.last()));
            assert(sub.push(args.last()).drop_last() =~= sub);
        } else {
            assert(args.filter(f) == sub);
            assert(mode_letters(args) =~= mode_letters(args.drop_last()));
        }
    }
}

/// The sums over one file are its own counts field by field, nothing when
/// it could not be read.
pub proof fn lemma_sums_of_one(name: Seq<char>, c: Counts)
    ensures
        count_sums(seq![(name, Some(c))]) == (c.lines as nat, c.words as nat, c.bytes as nat, c.chars as nat),
        count_sums(seq![(name, None::<Counts>)]) == (0nat, 0nat, 0nat, 0nat),
{
    let e = Seq::<(Seq<char>, Option<Counts>)>::empty();
    assert(count_sums(e) == (0nat, 0nat, 0nat, 0nat));
    let one = seq![(name, Some(c))];
    assert(one.drop_last() =~= e);
    assert(one.last() == (name, Some(c)));
    let none = seq![(name, None::<Counts>)];
    assert(none.drop_last() =~= e);
    assert(none.last() == (name, None::<Counts>));
}

/// The sums over two lists of files put together are the sums over each,
/// added field by field.
pub proof fn lemma_sums_add_up(a: Seq<(Seq<char>, Option<Counts>)>, b: Seq<(Seq<char>, Option<Counts>)>)
    ensures
        count_sums(a + b).0 == count_sums(a).0 + count_sums(b).0,
        count_sums(a + b).1 == count_sums(a).1 + count_sums(b).1,
        count_sums(a + b).2 == count_sums(a).2 + count_sums(b).2,
        count_sums(a + b).3 == count_sums(a).3 + count_sums(b).3,
    decreases b.len(),
{
    if b.len() == 0 {
        assert(a + b =~= a);
    } else {
        lemma_sums_add_up(a, b.drop_last());
        assert((a + b).drop_last() =~= a + b.drop_last());
        assert((a + b).last() == b.last());
    }
}


/// A text has no more lines, and no more words, than characters.
pub proof fn lemma_counts_within_chars(s: Seq<char>)
    ensures
        newline_count(s) <= s.len(),
        word_count(s) <= s.len(),
    decreases s.len(),
{
    if s.len() > 0 {
        lemma_counts_within_chars(s.drop_last());
    }
}

/// A text has at least as many bytes in UTF-8 as it has characters.
pub proof fn lemma_chars_within_bytes(s: Seq<char>)
    ensures
        s.len() <= vstd::utf8::encode_utf8(s).len(),
    decreases s.len(),
{
    if s.len() > 0 {
        lemma_chars_within_bytes(s.drop_first());
        assert(vstd::utf8::encode_scalar(s[0] as u32).len() >= 1);
    }
}

proof fn lemma_sep_prefix_longest(first: Seq<char>, paths: Seq<Seq<char>>, n: nat, m: nat)
    requires
        sep_prefix(first, paths, n).len() < m <= n,
        m <= first.len(),
    ensures
        !(is_sep(first[m - 1]) && all_start_with(paths, first.take(m as int))),
    decreases n,
{
    if n > 0 {
        if n <= first.len() && is_sep(first[n - 1]) && all_start_with(paths, first.take(n as int)) {
            assert(sep_prefix(first, paths, n).len() == n);
        } else if m < n {
            lemma_sep_prefix_longest(first, paths, (n - 1) as nat, m);
        }
    }
}

/// No longer prefix of the first path that ends with a separator begins
/// every path: the shared prefix is the longest one.
pub proof fn lemma_common_prefix_longest(paths: Seq<Seq<char>>, m: nat)
    requires
        paths.len() > 1,
        common_prefix(paths).len() < m <= paths[0].len(),
    ensures
        !(is_sep(paths[0][m - 1]) && all_start_with(paths, paths[0].take(m as int))),
{
    lemma_sep_prefix_longest(paths[0], paths, paths[0].len(), m);
}

} // verus!
