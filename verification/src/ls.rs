//! Compact directory listing: sizes in human units, the type and permission
//! columns, which entries are shown, their order, and the summary line.
use vstd::prelude::*;
use crate::sort::{
    chars_le, index_order, insert_pos, insertion_sort, key_views, lemma_index_order_total,
    lemma_insertion_sort_members, lemma_insertion_sort_sorted, sort_indices, total_preorder, SortKey,
};
pub use crate::text::truncate_lines;
use crate::text::{
    chars_eq_str, decimal, digit_char, join, lemma_join_push, push_all, push_char, push_decimal,
    to_chars,
};

verus! {

/// `a / d` rounded to the nearest integer, ties to the even one.
pub open spec fn round_half_even(a: nat, d: nat) -> nat
    recommends
        d > 0,
{
    let q = a / d;
    let r = a % d;
    if 2 * r > d || (2 * r == d && q % 2 == 1) {
        q + 1
    } else {
        q
    }
}

/// The distance between neighbouring `f64` values near `b` (`b < 2^64`):
/// an `f64` keeps 53 significant bits.
pub open spec fn f64_spacing(b: nat) -> nat {
    if b < 0x20_0000_0000_0000 {
        1
    } else if b < 0x40_0000_0000_0000 {
        2
    } else if b < 0x80_0000_0000_0000 {
        4
    } else if b < 0x100_0000_0000_0000 {
        8
    } else if b < 0x200_0000_0000_0000 {
        16
    } else if b < 0x400_0000_0000_0000 {
        32
    } else if b < 0x800_0000_0000_0000 {
        64
    } else if b < 0x1000_0000_0000_0000 {
        128
    } else if b < 0x2000_0000_0000_0000 {
        256
    } else if b < 0x4000_0000_0000_0000 {
        512
    } else if b < 0x8000_0000_0000_0000 {
        1024
    } else {
        2048
    }
}

/// The value of `b as f64`: `b` rounded to the nearest `f64`, ties to even.
pub open spec fn f64_value(b: nat) -> nat {
    round_half_even(b, f64_spacing(b)) * f64_spacing(b)
}

/// A count of tenths written with one decimal: `t / 10`, a dot, `t % 10`.
pub open spec fn tenths_text(t: nat) -> Seq<char> {
    decimal(t / 10) + "."@ + seq![digit_char((t % 10) as int)]
}

/// The size `human_size` shows: mebibytes from 1 MiB on and kibibytes from
/// 1 KiB on, each with one decimal rounded half to even as std's `{:.1}`
/// rounds the `f64` quotient; bytes below that.
pub open spec fn human_size_text(bytes: u64) -> Seq<char> {
    if bytes >= 1048576 {
        tenths_text(round_half_even(f64_value(bytes as nat) * 10, 1048576)) + "M"@
    } else if bytes >= 1024 {
        tenths_text(round_half_even(bytes as nat * 10, 1024)) + "K"@
    } else {
        decimal(bytes as nat) + "B"@
    }
}

fn round_half_even_exec(a: u128, d: u128) -> (r: u128)
    requires
        0 < d <= 0x1_0000_0000,
        a < 0x1_0000_0000_0000_0000_0000_0000,
    ensures
        r == round_half_even(a as nat, d as nat),
        r <= a / d + 1,
{
    let q = a / d;
    let r = a % d;
    if 2 * r > d || (2 * r == d && q % 2 == 1) {
        q + 1
    } else {
        q
    }
}

fn f64_spacing_exec(b: u64) -> (sp: u128)
    ensures
        sp == f64_spacing(b as nat),
        1 <= sp <= 2048,
{
    if b < 0x20_0000_0000_0000 {
        1
    } else if b < 0x40_0000_0000_0000 {
        2
    } else if b < 0x80_0000_0000_0000 {
        4
    } else if b < 0x100_0000_0000_0000 {
        8
    } else if b < 0x200_0000_0000_0000 {
        16
    } else if b < 0x400_0000_0000_0000 {
        32
    } else if b < 0x800_0000_0000_0000 {
        64
    } else if b < 0x1000_0000_0000_0000 {
        128
    } else if b < 0x2000_0000_0000_0000 {
        256
    } else if b < 0x4000_0000_0000_0000 {
        512
    } else if b < 0x8000_0000_0000_0000 {
        1024
    } else {
        2048
    }
}

/// Appends `t` tenths written with one decimal.
fn push_tenths(s: &mut String, t: u128)
    ensures
        final(s)@ == old(s)@ + tenths_text(t as nat),
{
    let ghost s0 = s@;
    push_decimal(s, t / 10);
    s.append(".");
    let d: u8 = (t % 10) as u8;
    push_char(s, (48u8 + d) as char);
    assert(s@ =~= s0 + tenths_text(t as nat));
}

/// A file size for people: `500B`, `1.2K`, `2.4M`.
pub fn human_size(bytes: u64) -> (r: String)
    ensures
        r@ == human_size_text(bytes),
{
    let mut s = String::new();
    if bytes >= 1048576 {
        let b = bytes as u128;
        let sp = f64_spacing_exec(bytes);
        let q = round_half_even_exec(b, sp);
        assert(q * sp <= b + sp) by (nonlinear_arith)
            requires
                q <= b / sp + 1,
                sp >= 1,
        {
            assert((b / sp) * sp <= b);
        }
        let v = q * sp;
        let t = round_half_even_exec(v * 10, 1048576);
        push_tenths(&mut s, t);
        s.append("M");
    } else if bytes >= 1024 {
        let t = round_half_even_exec(bytes as u128 * 10, 1024);
        push_tenths(&mut s, t);
        s.append("K");
    } else {
        push_decimal(&mut s, bytes as u128);
        s.append("B");
    }
    assert(s@ =~= human_size_text(bytes));
    s
}

/// Directories and files that listings leave out unless asked to show all.
pub const NOISE_DIRS: [&'static str; 7] = ["node_modules", ".git", "target", "__pycache__", ".next", "dist", "build"];

/// Whether `name` is one of `NOISE_DIRS`.
pub open spec fn is_noise(name: Seq<char>) -> bool {
    exists|i: int| 0 <= i < 7 && name == (#[trigger] NOISE_DIRS@[i])@
}

/// Whether a listing shows an entry called `name`: always when showing
/// all, else when the name neither begins with `.` nor is a noise name.
pub open spec fn is_shown(name: Seq<char>, show_all: bool) -> bool {
    show_all || (!(name.len() > 0 && name[0] == '.') && !is_noise(name))
}

/// Whether the characters `name` spell one of `NOISE_DIRS`.
pub fn is_noise_name(name: &[char]) -> (r: bool)
    ensures
        r == is_noise(name@),
{
    let mut i: usize = 0;
    while i < 7
        invariant
            i <= 7,
            forall|j: int| 0 <= j < i ==> name@ != (#[trigger] NOISE_DIRS@[j])@,
        decreases 7 - i,
    {
        if chars_eq_str(name, NOISE_DIRS[i]) {
            assert(name@ == NOISE_DIRS@[i as int]@);
            return true;
        }
        i = i + 1;
    }
    false
}

/// Whether an entry called `name` is shown (see `is_shown`).
pub fn is_visible(name: &str, show_all: bool) -> (r: bool)
    ensures
        r == is_shown(name@, show_all),
{
    if show_all {
        return true;
    }
    let v = to_chars(name);
    if v.len() > 0 && v[0] == '.' {
        return false;
    }
    !is_noise_name(v.as_slice())
}

/// Entries a listing leaves out by configuration: directories whose name
/// matches one of `dirs`, other entries whose name matches one of `files`.
/// A pattern is a name in which `*` stands for any run of characters.
pub struct IgnoreRules {
    pub dirs: Vec<String>,
    pub files: Vec<String>,
}

/// Rules that leave nothing out.
pub fn no_ignore_rules() -> (r: IgnoreRules)
    ensures
        r.dirs@.len() == 0,
        r.files@.len() == 0,
{
    IgnoreRules { dirs: Vec::new(), files: Vec::new() }
}

/// Whether `s` from position `j` on matches `p` from position `i` on, where
/// `*` in `p` matches any run of characters (the empty one too) and every
/// other character matches itself.
pub open spec fn glob_at(p: Seq<char>, s: Seq<char>, i: int, j: int) -> bool
    decreases p.len() - i, s.len() - j,
{
    if i >= p.len() {
        j >= s.len()
    } else if p[i] == '*' {
        glob_at(p, s, i + 1, j) || (j < s.len() && glob_at(p, s, i, j + 1))
    } else {
        j < s.len() && s[j] == p[i] && glob_at(p, s, i + 1, j + 1)
    }
}

/// Whether the name `s` matches the pattern `p`.
pub open spec fn glob_match(p: Seq<char>, s: Seq<char>) -> bool {
    glob_at(p, s, 0, 0)
}

/// Whether `name` matches one of `patterns`.
pub open spec fn matches_any(patterns: Seq<String>, name: Seq<char>) -> bool {
    exists|i: int| 0 <= i < patterns.len() && glob_match((#[trigger] patterns[i])@, name)
}

/// Whether the rules leave an entry out.
pub open spec fn is_ignored(e: LsEntry, rules: IgnoreRules) -> bool {
    if e.is_dir {
        matches_any(rules.dirs@, e.name@)
    } else {
        matches_any(rules.files@, e.name@)
    }
}

/// Whether a listing shows entry `e`: when showing all, always; else when
/// its name neither begins with `.` nor is a noise name, and the rules do
/// not leave it out.
pub open spec fn is_listed(e: LsEntry, show_all: bool, rules: IgnoreRules) -> bool {
    show_all || (is_shown(e.name@, false) && !is_ignored(e, rules))
}

/// Whether the name `s` matches the pattern `p` (see `glob_match`).
pub fn glob_matches(p: &Vec<char>, s: &Vec<char>) -> (r: bool)
    ensures
        r == glob_match(p@, s@),
{
    let m = s.len();
    // `next[j]` tells whether `s[j..]` matches `p[i..]`
    let mut next: Vec<bool> = Vec::new();
    let mut j: usize = 0;
    while j < m
        invariant
            m == s@.len(),
            j <= m,
            next@.len() == j,
            forall|k: int| 0 <= k < j ==> #[trigger] next@[k] == glob_at(p@, s@, p@.len() as int, k),
        decreases m - j,
    {
        next.push(false);
        j = j + 1;
    }
    next.push(true);
    let mut i = p.len();
    while i > 0
        invariant
            m == s@.len(),
            i <= p@.len(),
            next@.len() == m + 1,
            forall|k: int| 0 <= k <= m ==> #[trigger] next@[k] == glob_at(p@, s@, i as int, k),
        decreases i,
    {
        let c = p[i - 1];
        let mut cur: Vec<bool> = Vec::new();
        let mut k: usize = 0;
        while k < m
            invariant
                k <= m,
                cur@.len() == k,
            decreases m - k,
        {
            cur.push(false);
            k = k + 1;
        }
        cur.push(false);
        let mut j = cur.len();
        while j > 0
            invariant
                m == s@.len(),
                0 < i <= p@.len(),
                c == p@[i - 1],
                j <= m + 1,
                cur@.len() == m + 1,
                next@.len() == m + 1,
                forall|k: int| 0 <= k <= m ==> #[trigger] next@[k] == glob_at(p@, s@, i as int, k),
                forall|k: int| j <= k <= m ==> #[trigger] cur@[k] == glob_at(p@, s@, i - 1, k),
            decreases j,
        {
            let jj = j - 1;
            let v = if c == '*' {
                next[jj] || (jj < m && cur[jj + 1])
            } else {
                jj < m && s[jj] == c && next[jj + 1]
            };
            cur.set(jj, v);
            j = jj;
        }
        next = cur;
        i = i - 1;
    }
    next[0]
}

/// Whether `name` matches one of `patterns`.
fn matches_one_of(patterns: &Vec<Vec<char>>, name: &Vec<char>, Ghost(ps): Ghost<Seq<String>>) -> (r: bool)
    requires
        patterns@.len() == ps.len(),
        forall|i: int| 0 <= i < ps.len() ==> (#[trigger] patterns@[i])@ == ps[i]@,
    ensures
        r == matches_any(ps, name@),
{
    let mut i: usize = 0;
    while i < patterns.len()
        invariant
            i <= patterns@.len(),
            patterns@.len() == ps.len(),
            forall|k: int| 0 <= k < ps.len() ==> (#[trigger] patterns@[k])@ == ps[k]@,
            forall|k: int| 0 <= k < i ==> !glob_match((#[trigger] ps[k])@, name@),
        decreases patterns.len() - i,
    {
        if glob_matches(&patterns[i], name) {
            assert(glob_match(ps[i as int]@, name@));
            return true;
        }
        i = i + 1;
    }
    false
}

/// The characters of each of `v`.
fn all_chars(v: &Vec<String>) -> (r: Vec<Vec<char>>)
    ensures
        r@.len() == v@.len(),
        forall|i: int| 0 <= i < v@.len() ==> (#[trigger] r@[i])@ == v@[i]@,
{
    let mut r: Vec<Vec<char>> = Vec::new();
    let mut i: usize = 0;
    while i < v.len()
        invariant
            i <= v@.len(),
            r@.len() == i,
            forall|k: int| 0 <= k < i ==> (#[trigger] r@[k])@ == v@[k]@,
        decreases v.len() - i,
    {
        r.push(to_chars(v[i].as_str()));
        i = i + 1;
    }
    r
}

/// What a listing knows of a directory entry.
pub struct LsEntry {
    pub name: String,
    pub is_dir: bool,
    pub is_symlink: bool,
    pub readonly: bool,
    pub size: u64,
}

/// The type column: `d` for a directory, `l` for a symbolic link, `-` else.
pub fn get_file_type_char(is_dir: bool, is_symlink: bool) -> (c: char)
    ensures
        c == if is_dir {
            'd'
        } else if is_symlink {
            'l'
        } else {
            '-'
        },
{
    if is_dir {
        'd'
    } else if is_symlink {
        'l'
    } else {
        '-'
    }
}

/// The permission column of the long format.
pub open spec fn perms_text(is_dir: bool, readonly: bool) -> Seq<char> {
    if is_dir {
        "755"@
    } else if readonly {
        "444"@
    } else {
        "644"@
    }
}

/// The octal permissions shown in the long format: `755` for directories,
/// `444` for read-only files, `644` for other files.
pub fn get_perms_octal(is_dir: bool, readonly: bool) -> (r: Option<String>)
    ensures
        r is Some,
        r->0@ == perms_text(is_dir, readonly),
{
    if is_dir {
        Some("755".to_owned())
    } else if readonly {
        Some("444".to_owned())
    } else {
        Some("644".to_owned())
    }
}

/// The indices of the first `n` entries that are listed (see `is_listed`)
/// and are directories (`dirs`) or not, in order.
pub open spec fn shown_indices(es: Seq<LsEntry>, show_all: bool, rules: IgnoreRules, dirs: bool, n: nat) -> Seq<usize>
    decreases n,
{
    if n == 0 {
        Seq::empty()
    } else {
        let rest = shown_indices(es, show_all, rules, dirs, (n - 1) as nat);
        if is_listed(es[n - 1], show_all, rules) && es[n - 1].is_dir == dirs {
            rest.push((n - 1) as usize)
        } else {
            rest
        }
    }
}

/// Entries keyed by name.
pub open spec fn name_keys(es: Seq<LsEntry>) -> Seq<(nat, Seq<char>)> {
    es.map_values(|e: LsEntry| (0nat, e.name@))
}

/// The shown directories (`dirs`) or files, ordered by name.
pub open spec fn sorted_shown(es: Seq<LsEntry>, show_all: bool, rules: IgnoreRules, dirs: bool) -> Seq<usize> {
    insertion_sort(shown_indices(es, show_all, rules, dirs, es.len()), index_order(name_keys(es)))
}

/// The permissions and two spaces that begin a line of the long format.
pub open spec fn long_prefix(e: LsEntry, show_long: bool) -> Seq<char> {
    if show_long {
        perms_text(e.is_dir, e.readonly) + "  "@
    } else {
        Seq::empty()
    }
}

/// The line of a directory: its name and `/`.
pub open spec fn dir_line(e: LsEntry, show_long: bool) -> Seq<char> {
    long_prefix(e, show_long) + e.name@ + "/\n"@
}

/// The line of a file: its name, two spaces and its size.
pub open spec fn file_line(e: LsEntry, show_long: bool) -> Seq<char> {
    long_prefix(e, show_long) + e.name@ + "  "@ + human_size_text(e.size) + "\n"@
}

/// The lines of the entries at `idx`, in that order.
pub open spec fn entry_lines(es: Seq<LsEntry>, idx: Seq<usize>, show_long: bool, dirs: bool) -> Seq<
    char,
>
    decreases idx.len(),
{
    if idx.len() == 0 {
        Seq::empty()
    } else {
        entry_lines(es, idx.drop_last(), show_long, dirs) + if dirs {
            dir_line(es[idx.last() as int], show_long)
        } else {
            file_line(es[idx.last() as int], show_long)
        }
    }
}

/// The listing: shown directories by name, then shown files by name, or
/// `(empty)` when nothing is shown.
pub open spec fn listing_text(es: Seq<LsEntry>, show_all: bool, rules: IgnoreRules, show_long: bool) -> Seq<char> {
    let d = sorted_shown(es, show_all, rules, true);
    let f = sorted_shown(es, show_all, rules, false);
    if d.len() == 0 && f.len() == 0 {
        "(empty)\n"@
    } else {
        entry_lines(es, d, show_long, true) + entry_lines(es, f, show_long, false)
    }
}

/// The index of the last `.` in `s`, or -1.
pub open spec fn last_dot(s: Seq<char>) -> int
    decreases s.len(),
{
    if s.len() == 0 {
        -1
    } else if s.last() == '.' {
        s.len() - 1
    } else {
        last_dot(s.drop_last())
    }
}

/// The extension of a file name: from its last `.` on, or `no ext`.
pub open spec fn ext_of(name: Seq<char>) -> Seq<char> {
    if last_dot(name) >= 0 {
        name.skip(last_dot(name))
    } else {
        "no ext"@
    }
}

/// The position of `e` in a tally, searching from the end, or -1.
pub open spec fn tally_find(t: Seq<(Seq<char>, nat)>, e: Seq<char>) -> int
    decreases t.len(),
{
    if t.len() == 0 {
        -1
    } else if t.last().0 == e {
        t.len() - 1
    } else {
        tally_find(t.drop_last(), e)
    }
}

/// Each distinct extension with how often it occurs, in order of first
/// occurrence.
pub open spec fn tally(exts: Seq<Seq<char>>) -> Seq<(Seq<char>, nat)>
    decreases exts.len(),
{
    if exts.len() == 0 {
        Seq::empty()
    } else {
        let t = tally(exts.drop_last());
        let p = tally_find(t, exts.last());
        if p >= 0 {
            t.update(p, (exts.last(), t[p].1 + 1))
        } else {
            t.push((exts.last(), 1nat))
        }
    }
}

/// The extensions of the entries at `idx`, in that order.
pub open spec fn exts_at(es: Seq<LsEntry>, idx: Seq<usize>) -> Seq<Seq<char>> {
    idx.map_values(|i: usize| ext_of(es[i as int].name@))
}

/// Tally positions ordered by count, the most frequent first.
pub open spec fn count_order(t: Seq<(Seq<char>, nat)>) -> spec_fn(usize, usize) -> bool {
    |i: usize, j: usize| t[i as int].1 >= t[j as int].1
}

/// `0, 1, ..., n - 1`.
pub open spec fn upto(n: nat) -> Seq<usize> {
    Seq::new(n, |i: int| i as usize)
}

/// How many extensions the summary names at the default truncation level.
pub const MAX_EXT_SUMMARY: usize = 5;

/// How many of `n` ranked extensions the summary names under `cap`.
pub open spec fn named_count(n: nat, cap: Option<usize>) -> nat {
    match cap {
        Some(c) => if n <= c {
            n
        } else {
            c as nat
        },
        None => n,
    }
}

/// One extension in the summary: its count, a space, the extension.
pub open spec fn ext_part(t: (Seq<char>, nat)) -> Seq<char> {
    decimal(t.1) + " "@ + t.0
}

/// The extensions of the summary, most frequent first, ties in order of
/// first occurrence among the files sorted by name.
pub open spec fn ext_ranking(es: Seq<LsEntry>, show_all: bool, rules: IgnoreRules) -> Seq<(Seq<char>, nat)> {
    let t = tally(exts_at(es, sorted_shown(es, show_all, rules, false)));
    ranked_entries(insertion_sort(upto(t.len()), count_order(t)), t)
}

/// The tally entries at the positions `order`, in that order.
pub open spec fn ranked_entries(order: Seq<usize>, t: Seq<(Seq<char>, nat)>) -> Seq<(Seq<char>, nat)> {
    order.map_values(|k: usize| t[k as int])
}

/// The summary texts of tally entries.
pub open spec fn ext_parts(ranked: Seq<(Seq<char>, nat)>) -> Seq<Seq<char>> {
    ranked.map_values(|t: (Seq<char>, nat)| ext_part(t))
}

/// The extension part of the summary: ` (` the first ranked extensions,
/// as many as `cap` allows, joined with `, `, then `, +N more` when some are
/// left out, `)`.
pub open spec fn ext_summary(ranked: Seq<(Seq<char>, nat)>, cap: Option<usize>) -> Seq<char> {
    if ranked.len() == 0 {
        Seq::empty()
    } else {
        let n = named_count(ranked.len(), cap);
        " ("@ + join(ext_parts(ranked.take(n as int)), ", "@) + (
        if ranked.len() > n {
            ", +"@ + decimal((ranked.len() - n) as nat) + " more"@
        } else {
            Seq::empty()
        }) + ")"@
    }
}

/// The summary: how many files and directories are shown, then the
/// extensions; nothing when nothing is shown.
pub open spec fn summary_text(es: Seq<LsEntry>, show_all: bool, rules: IgnoreRules, cap: Option<usize>) -> Seq<char> {
    let d = sorted_shown(es, show_all, rules, true);
    let f = sorted_shown(es, show_all, rules, false);
    if d.len() == 0 && f.len() == 0 {
        Seq::empty()
    } else {
        "\nSummary: "@ + decimal(f.len()) + " files, "@ + decimal(d.len()) + " dirs"@
            + ext_summary(ext_ranking(es, show_all, rules), cap) + "\n"@
    }
}

proof fn lemma_entry_keys(keys: Seq<SortKey>, es: Seq<LsEntry>)
    requires
        key_views(keys) == name_keys(es),
    ensures
        keys.len() == es.len(),
        forall|i: int| 0 <= i < keys.len() ==> (#[trigger] keys[i]).name@ == es[i].name@,
{
    assert(key_views(keys).len() == keys.len());
    assert forall|i: int| 0 <= i < keys.len() implies (#[trigger] keys[i]).name@ == es[i].name@ by {
        assert(key_views(keys)[i] == name_keys(es)[i]);
    }
}

/// The sort keys of the entries: rank 0 and the name.
fn entry_keys(entries: &[LsEntry]) -> (keys: Vec<SortKey>)
    ensures
        key_views(keys@) == name_keys(entries@),
{
    let mut keys: Vec<SortKey> = Vec::new();
    let mut i: usize = 0;
    while i < entries.len()
        invariant
            i <= entries@.len(),
            keys@.len() == i,
            forall|j: int|
                0 <= j < i ==> (#[trigger] keys@[j]).rank == 0 && keys@[j].name@
                    == entries@[j].name@,
        decreases entries.len() - i,
    {
        keys.push(SortKey { rank: 0, name: to_chars(entries[i].name.as_str()) });
        i = i + 1;
    }
    assert(key_views(keys@) =~= name_keys(entries@));
    keys
}

/// The indices of the shown directories (`dirs`) or files, in order.
fn shown_of_kind(
    entries: &[LsEntry],
    keys: &Vec<SortKey>,
    show_all: bool,
    rules: &IgnoreRules,
    dir_patterns: &Vec<Vec<char>>,
    file_patterns: &Vec<Vec<char>>,
    dirs: bool,
) -> (r: Vec<usize>)
    requires
        key_views(keys@) == name_keys(entries@),
        dir_patterns@.len() == rules.dirs@.len(),
        forall|i: int| 0 <= i < rules.dirs@.len() ==> (#[trigger] dir_patterns@[i])@ == rules.dirs@[i]@,
        file_patterns@.len() == rules.files@.len(),
        forall|i: int| 0 <= i < rules.files@.len() ==> (#[trigger] file_patterns@[i])@ == rules.files@[i]@,
    ensures
        r@ == shown_indices(entries@, show_all, *rules, dirs, entries@.len()),
        forall|k: int| 0 <= k < r@.len() ==> (#[trigger] r@[k]) < entries@.len(),
{
    proof {
        lemma_entry_keys(keys@, entries@);
    }
    let mut r: Vec<usize> = Vec::new();
    let mut i: usize = 0;
    while i < entries.len()
        invariant
            i <= entries@.len(),
            keys@.len() == entries@.len(),
            forall|j: int| 0 <= j < keys@.len() ==> (#[trigger] keys@[j]).name@ == entries@[j].name@,
            dir_patterns@.len() == rules.dirs@.len(),
            forall|j: int| 0 <= j < rules.dirs@.len() ==> (#[trigger] dir_patterns@[j])@ == rules.dirs@[j]@,
            file_patterns@.len() == rules.files@.len(),
            forall|j: int| 0 <= j < rules.files@.len() ==> (#[trigger] file_patterns@[j])@ == rules.files@[j]@,
            r@ == shown_indices(entries@, show_all, *rules, dirs, i as nat),
            forall|k: int| 0 <= k < r@.len() ==> (#[trigger] r@[k]) < i,
        decreases entries.len() - i,
    {
        let name = &keys[i].name;
        let is_dir = get_file_type_char(entries[i].is_dir, entries[i].is_symlink) == 'd';
        let listed = show_all || (!(name.len() > 0 && name[0] == '.') && !is_noise_name(
            name.as_slice(),
        ) && !(if is_dir {
            matches_one_of(dir_patterns, name, Ghost(rules.dirs@))
        } else {
            matches_one_of(file_patterns, name, Ghost(rules.files@))
        }));
        if listed && is_dir == dirs {
            r.push(i);
        }
        i = i + 1;
    }
    r
}

/// Appends the lines of the entries at `idx`.
fn push_entry_lines(out: &mut String, entries: &[LsEntry], idx: &Vec<usize>, show_long: bool, dirs: bool)
    requires
        forall|k: int| 0 <= k < idx@.len() ==> (#[trigger] idx@[k]) < entries@.len(),
    ensures
        final(out)@ == old(out)@ + entry_lines(entries@, idx@, show_long, dirs),
{
    let ghost o = out@;
    let mut k: usize = 0;
    assert(idx@.take(0) =~= Seq::<usize>::empty());
    while k < idx.len()
        invariant
            k <= idx@.len(),
            forall|m: int| 0 <= m < idx@.len() ==> (#[trigger] idx@[m]) < entries@.len(),
            out@ == o + entry_lines(entries@, idx@.take(k as int), show_long, dirs),
        decreases idx.len() - k,
    {
        let e = &entries[idx[k]];
        assert(idx@.take(k + 1).drop_last() =~= idx@.take(k as int));
        if show_long {
            match get_perms_octal(e.is_dir, e.readonly) {
                Some(octal) => {
                    out.append(octal.as_str());
                },
                None => {},
            }
            out.append("  ");
        }
        out.append(e.name.as_str());
        if dirs {
            out.append("/\n");
        } else {
            out.append("  ");
            let size = human_size(e.size);
            out.append(size.as_str());
            out.append("\n");
        }
        assert(out@ =~= o + entry_lines(entries@, idx@.take(k + 1), show_long, dirs));
        k = k + 1;
    }
    assert(idx@.take(idx@.len() as int) =~= idx@);
}

/// Whether two character sequences are equal.
fn chars_eq(a: &Vec<char>, b: &Vec<char>) -> (r: bool)
    ensures
        r == (a@ == b@),
{
    if a.len() != b.len() {
        return false;
    }
    let mut i: usize = 0;
    while i < a.len()
        invariant
            i <= a@.len(),
            a@.len() == b@.len(),
            forall|k: int| 0 <= k < i ==> a@[k] == b@[k],
        decreases a.len() - i,
    {
        if a[i] != b[i] {
            return false;
        }
        i = i + 1;
    }
    assert(a@ =~= b@);
    true
}

/// The extension of a file name (see `ext_of`).
fn ext_chars(name: &Vec<char>) -> (r: Vec<char>)
    ensures
        r@ == ext_of(name@),
{
    let mut j = name.len();
    assert(name@.take(j as int) =~= name@);
    while j > 0 && name[j - 1] != '.'
        invariant
            j <= name@.len(),
            last_dot(name@) == last_dot(name@.take(j as int)),
        decreases j,
    {
        assert(name@.take(j as int).drop_last() =~= name@.take(j - 1));
        j = j - 1;
    }
    if j > 0 {
        assert(name@.take(j as int).last() == name@[j - 1]);
        let mut r: Vec<char> = Vec::new();
        let mut k = j - 1;
        while k < name.len()
            invariant
                0 < j <= k + 1,
                k <= name@.len(),
                r@ == name@.subrange(j - 1, k as int),
            decreases name.len() - k,
        {
            r.push(name[k]);
            assert(name@.subrange(j - 1, k + 1) =~= name@.subrange(j - 1, k as int).push(
                name@[k as int],
            ));
            k = k + 1;
        }
        assert(r@ =~= name@.skip(j - 1));
        r
    } else {
        assert(name@.take(0) =~= Seq::<char>::empty());
        to_chars("no ext")
    }
}

/// A tally held as names and counts side by side.
pub open spec fn tally_views(names: Seq<Vec<char>>, counts: Seq<usize>) -> Seq<(Seq<char>, nat)> {
    Seq::new(names.len(), |i: int| (names[i]@, counts[i] as nat))
}

/// The extensions of the files at `files`, with how often each occurs.
fn ext_tally(entries: &[LsEntry], keys: &Vec<SortKey>, files: &Vec<usize>) -> (r: (
    Vec<Vec<char>>,
    Vec<usize>,
))
    requires
        key_views(keys@) == name_keys(entries@),
        forall|k: int| 0 <= k < files@.len() ==> (#[trigger] files@[k]) < entries@.len(),
    ensures
        r.0@.len() == r.1@.len(),
        tally_views(r.0@, r.1@) == tally(exts_at(entries@, files@)),
{
    let ghost exts = exts_at(entries@, files@);
    proof {
        lemma_entry_keys(keys@, entries@);
    }
    let mut names: Vec<Vec<char>> = Vec::new();
    let mut counts: Vec<usize> = Vec::new();
    let mut k: usize = 0;
    while k < files.len()
        invariant
            k <= files@.len(),
            keys@.len() == entries@.len(),
            forall|j: int| 0 <= j < keys@.len() ==> (#[trigger] keys@[j]).name@ == entries@[j].name@,
            forall|m: int| 0 <= m < files@.len() ==> (#[trigger] files@[m]) < entries@.len(),
            exts == exts_at(entries@, files@),
            names@.len() == counts@.len(),
            forall|m: int| 0 <= m < counts@.len() ==> (#[trigger] counts@[m]) <= k,
            tally_views(names@, counts@) == tally(exts.take(k as int)),
        decreases files.len() - k,
    {
        let ghost tv = tally_views(names@, counts@);
        let e = ext_chars(&keys[files[k]].name);
        assert(e@ == exts[k as int]);
        assert(exts.take(k + 1).drop_last() =~= exts.take(k as int));
        let mut j = names.len();
        assert(tv.take(j as int) =~= tv);
        while j > 0 && !chars_eq(&names[j - 1], &e)
            invariant
                j <= names@.len(),
                tv == tally_views(names@, counts@),
                tally_find(tv, e@) == tally_find(tv.take(j as int), e@),
            decreases j,
        {
            assert(tv.take(j as int).drop_last() =~= tv.take(j - 1));
            j = j - 1;
        }
        if j > 0 {
            assert(tv.take(j as int).last() == tv[j - 1]);
            let c = counts[j - 1];
            counts.set(j - 1, c + 1);
            assert(tally_views(names@, counts@) =~= tv.update(j - 1, (e@, tv[j - 1].1 + 1)));
        } else {
            assert(tv.take(0) =~= Seq::<(Seq<char>, nat)>::empty());
            names.push(e);
            counts.push(1);
            assert(tally_views(names@, counts@) =~= tv.push((e@, 1nat)));
        }
        k = k + 1;
    }
    assert(exts.take(files@.len() as int) =~= exts);
    (names, counts)
}

/// Tally positions ordered by count, the most frequent first, ties in
/// tally order.
fn sort_by_count(counts: &Vec<usize>, Ghost(t): Ghost<Seq<(Seq<char>, nat)>>) -> (r: Vec<usize>)
    requires
        t.len() == counts@.len(),
        forall|i: int| 0 <= i < t.len() ==> (#[trigger] t[i]).1 == counts@[i],
    ensures
        r@ == insertion_sort(upto(t.len()), count_order(t)),
        forall|k: int| 0 <= k < r@.len() ==> (#[trigger] r@[k]) < t.len(),
{
    let ghost le = count_order(t);
    let ghost idx = upto(t.len());
    let mut out: Vec<usize> = Vec::new();
    let mut k: usize = 0;
    while k < counts.len()
        invariant
            k <= counts@.len(),
            t.len() == counts@.len(),
            forall|i: int| 0 <= i < t.len() ==> (#[trigger] t[i]).1 == counts@[i],
            le == count_order(t),
            idx == upto(t.len()),
            forall|m: int| 0 <= m < out@.len() ==> (#[trigger] out@[m]) < t.len(),
            out@ == insertion_sort(idx.take(k as int), le),
        decreases counts.len() - k,
    {
        let mut p: usize = 0;
        assert(out@.skip(0) =~= out@);
        while p < out.len() && counts[out[p]] >= counts[k]
            invariant
                p <= out@.len(),
                k < counts@.len(),
                t.len() == counts@.len(),
                forall|i: int| 0 <= i < t.len() ==> (#[trigger] t[i]).1 == counts@[i],
                le == count_order(t),
                forall|m: int| 0 <= m < out@.len() ==> (#[trigger] out@[m]) < t.len(),
                insert_pos(out@, k, le) == p + insert_pos(out@.skip(p as int), k, le),
            decreases out.len() - p,
        {
            assert(out@.skip(p as int).drop_first() =~= out@.skip(p + 1));
            assert(out@.skip(p as int)[0] == out@[p as int]);
            p = p + 1;
        }
        if p < out.len() {
            assert(out@.skip(p as int)[0] == out@[p as int]);
        }
        assert(idx.take(k + 1).drop_last() =~= idx.take(k as int));
        assert(idx.take(k + 1).last() == k);
        out.insert(p, k);
        k = k + 1;
    }
    assert(idx.take(counts@.len() as int) =~= idx);
    out
}

/// Appends the extension part of the summary for the tally `names` and
/// `counts` ranked by `order`.
fn push_ext_summary(
    out: &mut String,
    names: &Vec<Vec<char>>,
    counts: &Vec<usize>,
    order: &Vec<usize>,
    cap: Option<usize>,
    Ghost(t): Ghost<Seq<(Seq<char>, nat)>>,
)
    requires
        t == tally_views(names@, counts@),
        names@.len() == counts@.len(),
        forall|k: int| 0 <= k < order@.len() ==> (#[trigger] order@[k]) < t.len(),
    ensures
        final(out)@ == old(out)@ + ext_summary(ranked_entries(order@, t), cap),
{
    let ghost o = out@;
    let ghost ranked = ranked_entries(order@, t);
    let ghost parts = ext_parts(ranked);
    if order.len() == 0 {
        assert(out@ =~= o + ext_summary(ranked, cap));
        return;
    }
    out.append(" (");
    let n: usize = match cap {
        Some(c) => if order.len() <= c {
            order.len()
        } else {
            c
        },
        None => order.len(),
    };
    let mut k: usize = 0;
    assert(parts.take(0) =~= Seq::<Seq<char>>::empty());
    while k < n
        invariant
            k <= n <= order@.len(),
            t == tally_views(names@, counts@),
            names@.len() == counts@.len(),
            forall|m: int| 0 <= m < order@.len() ==> (#[trigger] order@[m]) < t.len(),
            ranked == ranked_entries(order@, t),
            parts == ext_parts(ranked),
            out@ == o + " ("@ + join(parts.take(k as int), ", "@),
        decreases n - k,
    {
        let i = order[k];
        assert(parts[k as int] == ext_part(t[i as int]));
        assert(parts.take(k + 1) =~= parts.take(k as int).push(parts[k as int]));
        proof {
            lemma_join_push(parts.take(k as int), parts[k as int], ", "@);
        }
        if k > 0 {
            out.append(", ");
        }
        push_decimal(out, counts[i] as u128);
        out.append(" ");
        push_all(out, &names[i]);
        assert(out@ =~= o + " ("@ + join(parts.take(k + 1), ", "@));
        k = k + 1;
    }
    assert(ext_parts(ranked.take(n as int)) =~= parts.take(n as int));
    if order.len() > n {
        out.append(", +");
        push_decimal(out, (order.len() - n) as u128);
        out.append(" more");
    }
    out.append(")");
    assert(out@ =~= o + ext_summary(ranked, cap));
}

/// The listing and the summary of one directory's entries. Unless
/// `show_all`, entries whose name begins with `.` or is a noise name, and
/// entries the ignore rules leave out, are not listed; directories come
/// first, then files, each by name; `show_long` puts the octal permissions
/// in front. The summary names at most `ext_cap` extensions (all for
/// `None`). Nothing listed gives `(empty)` and no summary.
pub fn compact_dir(
    entries: &[LsEntry],
    show_all: bool,
    show_long: bool,
    rules: &IgnoreRules,
    ext_cap: Option<usize>,
) -> (r: (String, String))
    ensures
        r.0@ == listing_text(entries@, show_all, *rules, show_long),
        r.1@ == summary_text(entries@, show_all, *rules, ext_cap),
{
    let keys = entry_keys(entries);
    proof {
        lemma_entry_keys(keys@, entries@);
    }
    let dir_patterns = all_chars(&rules.dirs);
    let file_patterns = all_chars(&rules.files);
    let dirs0 = shown_of_kind(entries, &keys, show_all, rules, &dir_patterns, &file_patterns, true);
    let files0 = shown_of_kind(entries, &keys, show_all, rules, &dir_patterns, &file_patterns, false);
    let dirs = sort_indices(&dirs0, &keys);
    let files = sort_indices(&files0, &keys);
    if dirs.len() == 0 && files.len() == 0 {
        return ("(empty)\n".to_owned(), String::new());
    }
    let mut listing = String::new();
    push_entry_lines(&mut listing, entries, &dirs, show_long, true);
    push_entry_lines(&mut listing, entries, &files, show_long, false);
    let mut summary = String::new();
    summary.append("\nSummary: ");
    push_decimal(&mut summary, files.len() as u128);
    summary.append(" files, ");
    push_decimal(&mut summary, dirs.len() as u128);
    summary.append(" dirs");
    let (names, counts) = ext_tally(entries, &keys, &files);
    let ghost t = tally_views(names@, counts@);
    assert forall|i: int| 0 <= i < t.len() implies (#[trigger] t[i]).1 == counts@[i] by {}
    let order = sort_by_count(&counts, Ghost(t));
    push_ext_summary(&mut summary, &names, &counts, &order, ext_cap, Ghost(t));
    summary.append("\n");
    assert(listing@ =~= listing_text(entries@, show_all, *rules, show_long));
    assert(summary@ =~= summary_text(entries@, show_all, *rules, ext_cap));
    (listing, summary)
}

proof fn lemma_shown_indices(es: Seq<LsEntry>, show_all: bool, rules: IgnoreRules, dirs: bool, n: nat)
    requires
        n <= es.len(),
        es.len() <= usize::MAX,
    ensures
        forall|i: int|
            0 <= i < shown_indices(es, show_all, rules, dirs, n).len() ==> (#[trigger] shown_indices(
                es,
                show_all,
                rules,
                dirs,
                n,
            )[i]) < n,
        forall|k: int|
            0 <= k < n ==> (shown_indices(es, show_all, rules, dirs, n).contains(k as usize) <==> (
            is_listed(es[k], show_all, rules) && es[k].is_dir == dirs)),
    decreases n,
{
    if n > 0 {
        let r = shown_indices(es, show_all, rules, dirs, (n - 1) as nat);
        lemma_shown_indices(es, show_all, rules, dirs, (n - 1) as nat);
        let c = shown_indices(es, show_all, rules, dirs, n);
        assert forall|k: int| 0 <= k < n implies (c.contains(k as usize) <==> (is_listed(
            es[k],
            show_all,
            rules,
        ) && es[k].is_dir == dirs)) by {
            if is_listed(es[n - 1], show_all, rules) && es[n - 1].is_dir == dirs {
                assert(c == r.push((n - 1) as usize));
                if k == n - 1 {
                    assert(c[r.len() as int] == k as usize);
                } else if c.contains(k as usize) {
                    let j = choose|j: int| 0 <= j < c.len() && c[j] == k as usize;
                    if j < r.len() {
                        assert(r[j] == k as usize);
                    }
                } else if r.contains(k as usize) {
                    let j = choose|j: int| 0 <= j < r.len() && r[j] == k as usize;
                    assert(c[j] == k as usize);
                }
            }
        }
    }
}

/// An entry is listed exactly when all are shown, or when its name neither
/// begins with `.` nor is a noise name and matches none of the ignore
/// patterns for its kind. Directories are listed among the directories,
/// everything else among the files.
pub proof fn lemma_listed_iff_shown(es: Seq<LsEntry>, show_all: bool, rules: IgnoreRules, k: int)
    requires
        0 <= k < es.len(),
        es.len() <= usize::MAX,
    ensures
        sorted_shown(es, show_all, rules, es[k].is_dir).contains(k as usize) <==> (show_all || (
        is_shown(es[k].name@, false) && !(if es[k].is_dir {
            matches_any(rules.dirs@, es[k].name@)
        } else {
            matches_any(rules.files@, es[k].name@)
        }))),
        !sorted_shown(es, show_all, rules, !es[k].is_dir).contains(k as usize),
{
    lemma_shown_indices(es, show_all, rules, es[k].is_dir, es.len());
    lemma_shown_indices(es, show_all, rules, !es[k].is_dir, es.len());
    lemma_insertion_sort_members(
        shown_indices(es, show_all, rules, es[k].is_dir, es.len()),
        index_order(name_keys(es)),
    );
    lemma_insertion_sort_members(
        shown_indices(es, show_all, rules, !es[k].is_dir, es.len()),
        index_order(name_keys(es)),
    );
}

/// Without `show_all`, exactly the names that begin with `.` and the noise
/// names are hidden; every other name is shown, whatever it looks like.
pub proof fn lemma_hidden_names(name: Seq<char>)
    ensures
        is_shown(name, false) <==> ((name.len() == 0 || name[0] != '.') && !is_noise(name)),
        is_shown(name, true),
{
}

/// Without `show_all`, an entry whose name does not begin with `.`, is no
/// noise name and matches no ignore pattern of its kind is listed, among
/// the directories or the files as it is one.
pub proof fn lemma_plain_names_are_listed(es: Seq<LsEntry>, rules: IgnoreRules, k: int)
    requires
        0 <= k < es.len(),
        es.len() <= usize::MAX,
        es[k].name@.len() == 0 || es[k].name@[0] != '.',
        !is_noise(es[k].name@),
        es[k].is_dir ==> !matches_any(rules.dirs@, es[k].name@),
        !es[k].is_dir ==> !matches_any(rules.files@, es[k].name@),
    ensures
        sorted_shown(es, false, rules, es[k].is_dir).contains(k as usize),
{
    lemma_listed_iff_shown(es, false, rules, k);
}

/// Without `show_all`, an entry whose name begins with `.` or is a noise
/// name is not listed.
pub proof fn lemma_hidden_names_are_not_listed(es: Seq<LsEntry>, rules: IgnoreRules, k: int, dirs: bool)
    requires
        0 <= k < es.len(),
        es.len() <= usize::MAX,
        (es[k].name@.len() > 0 && es[k].name@[0] == '.') || is_noise(es[k].name@),
    ensures
        !sorted_shown(es, false, rules, dirs).contains(k as usize),
{
    lemma_listed_iff_shown(es, false, rules, k);
}

/// The listed directories, and the listed files, come in name order.
pub proof fn lemma_listing_in_name_order(es: Seq<LsEntry>, show_all: bool, rules: IgnoreRules, dirs: bool)
    requires
        es.len() <= usize::MAX,
    ensures
        forall|i: int, j: int|
            0 <= i < j < sorted_shown(es, show_all, rules, dirs).len() ==> chars_le(
                es[sorted_shown(es, show_all, rules, dirs)[i] as int].name@,
                es[sorted_shown(es, show_all, rules, dirs)[j] as int].name@,
            ),
{
    let idx = shown_indices(es, show_all, rules, dirs, es.len());
    let le = index_order(name_keys(es));
    let d = sorted_shown(es, show_all, rules, dirs);
    lemma_index_order_total(name_keys(es));
    lemma_insertion_sort_sorted(idx, le);
    lemma_shown_indices(es, show_all, rules, dirs, es.len());
    lemma_insertion_sort_members(idx, le);
    assert forall|i: int, j: int| 0 <= i < j < d.len() implies chars_le(
        es[d[i] as int].name@,
        es[d[j] as int].name@,
    ) by {
        assert(le(d[i], d[j]));
        assert(idx.contains(d[i]));
        assert(idx.contains(d[j]));
        let a = choose|m: int| 0 <= m < idx.len() && idx[m] == d[i];
        let b = choose|m: int| 0 <= m < idx.len() && idx[m] == d[j];
        assert(name_keys(es)[d[i] as int] == (0nat, es[d[i] as int].name@));
        assert(name_keys(es)[d[j] as int] == (0nat, es[d[j] as int].name@));
    }
}

/// The sum of the counts of a tally.
pub open spec fn tally_total(t: Seq<(Seq<char>, nat)>) -> nat
    decreases t.len(),
{
    if t.len() == 0 {
        0
    } else {
        tally_total(t.drop_last()) + t.last().1
    }
}

proof fn lemma_tally_total_bump(t: Seq<(Seq<char>, nat)>, p: int, e: Seq<char>)
    requires
        0 <= p < t.len(),
    ensures
        tally_total(t.update(p, (e, t[p].1 + 1))) == tally_total(t) + 1,
    decreases t.len(),
{
    let u = t.update(p, (e, t[p].1 + 1));
    if p == t.len() - 1 {
        assert(u.drop_last() =~= t.drop_last());
    } else {
        lemma_tally_total_bump(t.drop_last(), p, e);
        assert(u.drop_last() =~= t.drop_last().update(p, (e, t[p].1 + 1)));
    }
}

proof fn lemma_tally_find(t: Seq<(Seq<char>, nat)>, e: Seq<char>)
    ensures
        -1 <= tally_find(t, e) < t.len(),
    decreases t.len(),
{
    if t.len() > 0 && t.last().0 != e {
        lemma_tally_find(t.drop_last(), e);
    }
}

/// Each file is counted under exactly one extension: the counts of the
/// extension tally add up to the number of files.
pub proof fn lemma_tally_counts_every_file(exts: Seq<Seq<char>>)
    ensures
        tally_total(tally(exts)) == exts.len(),
    decreases exts.len(),
{
    if exts.len() > 0 {
        let t = tally(exts.drop_last());
        lemma_tally_counts_every_file(exts.drop_last());
        lemma_tally_find(t, exts.last());
        let p = tally_find(t, exts.last());
        if p >= 0 {
            lemma_tally_total_bump(t, p, exts.last());
        } else {
            assert(t.push((exts.last(), 1nat)).drop_last() =~= t);
        }
    }
}

/// The extension counts of the summary add up to the number of listed
/// files that the summary reports.
pub proof fn lemma_summary_counts_every_file(es: Seq<LsEntry>, show_all: bool, rules: IgnoreRules)
    ensures
        tally_total(tally(exts_at(es, sorted_shown(es, show_all, rules, false)))) == sorted_shown(es, show_all, rules,
            false,
        ).len(),
{
    lemma_tally_counts_every_file(exts_at(es, sorted_shown(es, show_all, rules, false)));
}

/// The summary ranks extensions by count, the most frequent first.
pub proof fn lemma_ranking_by_count(es: Seq<LsEntry>, show_all: bool, rules: IgnoreRules)
    ensures
        forall|i: int, j: int|
            0 <= i < j < ext_ranking(es, show_all, rules).len() ==> ext_ranking(es, show_all, rules)[i].1
                >= ext_ranking(es, show_all, rules)[j].1,
{
    let t = tally(exts_at(es, sorted_shown(es, show_all, rules, false)));
    let le = count_order(t);
    assert(total_preorder(le));
    let order = insertion_sort(upto(t.len()), le);
    lemma_insertion_sort_sorted(upto(t.len()), le);
    let r = ext_ranking(es, show_all, rules);
    assert forall|i: int, j: int| 0 <= i < j < r.len() implies r[i].1 >= r[j].1 by {
        assert(le(order[i], order[j]));
    }
}

} // verus!
