//! What the command lines of `ls`, `tree` and `wc` ask for, and the text
//! that is finally shown.
use vstd::prelude::*;
use crate::text::{
    chars_contain, chars_eq_str, lines_of, never_worse, to_chars, truncate_lines, truncated_text,
};
use crate::ls::named_count;
use crate::wc::{is_flag, views};
use vstd::utf8::encode_utf8;

verus! {

/// How many lines the listing and the tree show at most.
pub const DEFAULT_MAX_LINES: usize = 80;

/// Whether an argument is a short flag: it begins with `-` but not `--`.
pub open spec fn is_short_flag(a: Seq<char>) -> bool {
    is_flag(a) && !(a.len() > 1 && a[1] == '-')
}

/// Whether an argument asks `ls` to show all entries: a short flag with
/// an `a` in it, or `--all`.
pub open spec fn asks_all(a: Seq<char>) -> bool {
    (is_short_flag(a) && a.contains('a')) || a == "--all"@
}

/// Whether an argument asks `ls` for the long format: `--full-time`,
/// `--format=long`, `--format=verbose`, or a short flag with one of
/// `l`, `g`, `n`, `o` in it.
pub open spec fn asks_long(a: Seq<char>) -> bool {
    a == "--full-time"@ || a == "--format=long"@ || a == "--format=verbose"@ || (is_short_flag(a)
        && (a.contains('l') || a.contains('g') || a.contains('n') || a.contains('o')))
}

/// The arguments that do not begin with `-`, in order.
pub open spec fn positionals(args: Seq<Seq<char>>) -> Seq<Seq<char>>
    decreases args.len(),
{
    if args.len() == 0 {
        Seq::empty()
    } else if is_flag(args.last()) {
        positionals(args.drop_last())
    } else {
        positionals(args.drop_last()).push(args.last())
    }
}

/// The first argument that does not begin with `-`, else `.`.
pub open spec fn target_of(args: Seq<Seq<char>>) -> Seq<char> {
    let p = positionals(args);
    if p.len() == 0 {
        "."@
    } else {
        p[0]
    }
}

/// What `ls` was asked for.
pub struct LsOptions {
    pub show_all: bool,
    pub show_long: bool,
    pub target: String,
}

/// What `tree` was asked for.
pub struct TreeOptions {
    pub show_all: bool,
    pub target: String,
}

/// The arguments that do not begin with `-`, in order.
pub fn positional_args(args: &[String]) -> (r: Vec<String>)
    ensures
        views(r@) == positionals(views(args@)),
{
    let mut r: Vec<String> = Vec::new();
    let mut i: usize = 0;
    while i < args.len()
        invariant
            i <= args@.len(),
            views(r@) == positionals(views(args@.take(i as int))),
        decreases args.len() - i,
    {
        assert(views(args@.take(i + 1)).drop_last() =~= views(args@.take(i as int)));
        assert(views(args@.take(i + 1)).last() == args@[i as int]@);
        let v = to_chars(args[i].as_str());
        if !(v.len() > 0 && v[0] == '-') {
            r.push(args[i].clone());
            assert(views(r@) =~= positionals(views(args@.take(i as int))).push(args@[i as int]@));
        }
        i = i + 1;
    }
    assert(args@.take(args@.len() as int) =~= args@);
    r
}

/// The first argument that does not begin with `-`, else `.`.
fn target_arg(args: &[String]) -> (r: String)
    ensures
        r@ == target_of(views(args@)),
{
    let p = positional_args(args);
    if p.len() == 0 {
        ".".to_owned()
    } else {
        assert(views(p@)[0] == p@[0]@);
        p[0].clone()
    }
}

/// Whether an argument, as characters, is a short flag.
fn short_flag(v: &Vec<char>) -> (r: bool)
    ensures
        r == is_short_flag(v@),
{
    v.len() > 0 && v[0] == '-' && !(v.len() > 1 && v[1] == '-')
}

/// The options of `ls`: whether to show all entries, whether to use the
/// long format, and the directory to list.
pub fn parse_ls_args(args: &[String]) -> (o: LsOptions)
    ensures
        o.show_all == exists|i: int| 0 <= i < args@.len() && asks_all(#[trigger] args@[i]@),
        o.show_long == exists|i: int| 0 <= i < args@.len() && asks_long(#[trigger] args@[i]@),
        o.target@ == target_of(views(args@)),
{
    let mut show_all = false;
    let mut show_long = false;
    let mut i: usize = 0;
    while i < args.len()
        invariant
            i <= args@.len(),
            show_all == exists|j: int| 0 <= j < i && asks_all(#[trigger] args@[j]@),
            show_long == exists|j: int| 0 <= j < i && asks_long(#[trigger] args@[j]@),
        decreases args.len() - i,
    {
        let v = to_chars(args[i].as_str());
        let short = short_flag(&v);
        let all = (short && chars_contain(v.as_slice(), 'a')) || chars_eq_str(v.as_slice(), "--all");
        let long = chars_eq_str(v.as_slice(), "--full-time") || chars_eq_str(v.as_slice(), "--format=long")
            || chars_eq_str(v.as_slice(), "--format=verbose") || (short && (chars_contain(v.as_slice(), 'l')
            || chars_contain(v.as_slice(), 'g') || chars_contain(v.as_slice(), 'n') || chars_contain(v.as_slice(), 'o')));
        assert(all == asks_all(args@[i as int]@));
        assert(long == asks_long(args@[i as int]@));
        show_all = show_all || all;
        show_long = show_long || long;
        i = i + 1;
    }
    LsOptions { show_all, show_long, target: target_arg(args) }
}

/// The options of `tree`: whether to show all entries (`-a` or `--all`),
/// and the directory to show.
pub fn parse_tree_args(args: &[String]) -> (o: TreeOptions)
    ensures
        o.show_all == exists|i: int|
            0 <= i < args@.len() && (#[trigger] args@[i]@ == "-a"@ || args@[i]@ == "--all"@),
        o.target@ == target_of(views(args@)),
{
    let mut show_all = false;
    let mut i: usize = 0;
    while i < args.len()
        invariant
            i <= args@.len(),
            show_all == exists|j: int|
                0 <= j < i && (#[trigger] args@[j]@ == "-a"@ || args@[j]@ == "--all"@),
        decreases args.len() - i,
    {
        let v = to_chars(args[i].as_str());
        let all = chars_eq_str(v.as_slice(), "-a") || chars_eq_str(v.as_slice(), "--all");
        show_all = show_all || all;
        i = i + 1;
    }
    TreeOptions { show_all, target: target_arg(args) }
}

/// What `ls` prints before truncation: on a terminal the listing and the
/// summary, else the listing alone.
pub fn listing_output(entries: &str, summary: &str, is_tty: bool) -> (r: String)
    ensures
        r@ == if is_tty {
            entries@ + summary@
        } else {
            entries@
        },
{
    let mut out = entries.to_owned();
    if is_tty {
        out.append(summary);
    }
    out
}

/// The length in bytes of a text's UTF-8 encoding, as `str::len` gives it.
pub open spec fn byte_len(s: Seq<char>) -> usize {
    encode_utf8(s).len() as usize
}

/// The text shown for `output`: its first `DEFAULT_MAX_LINES` lines with a
/// note of the rest, unless that would be longer than `output` itself.
pub fn shown_text(output: &str) -> (r: String)
    ensures
        r@ == if byte_len(truncated_text(output@, DEFAULT_MAX_LINES as nat)) <= byte_len(output@) {
            truncated_text(output@, DEFAULT_MAX_LINES as nat)
        } else {
            output@
        },
        lines_of(output@).len() <= DEFAULT_MAX_LINES ==> r@ == output@,
        byte_len(r@) <= byte_len(output@),
{
    let trunk = truncate_lines(output, DEFAULT_MAX_LINES);
    let shown = never_worse(output, trunk.as_str());
    shown.to_owned()
}

/// The reduction shown in verbose mode, in percent: `100 - shown * 100 / raw`,
/// or 0 for an empty output.
pub fn reduction_percent(raw_len: usize, shown_len: usize) -> (r: usize)
    requires
        shown_len <= raw_len,
        shown_len * 100 <= usize::MAX,
    ensures
        raw_len == 0 ==> r == 0,
        raw_len > 0 ==> r == 100 - (shown_len * 100) / (raw_len as int),
        r <= 100,
{
    if raw_len > 0 {
        let q = shown_len * 100 / raw_len;
        assert(q <= 100) by (nonlinear_arith)
            requires
                q == (shown_len * 100) as int / (raw_len as int),
                shown_len <= raw_len,
                raw_len > 0,
        {
            assert(shown_len * 100 <= raw_len * 100);
        }
        100 - q
    } else {
        0
    }
}

/// How strongly item caps ("show N, +M more") are applied.
#[derive(Debug, Clone, Copy, PartialEq, Eq, Structural)]
pub enum TruncateLevel {
    Off,
    Light,
    Reasonable,
    High,
}

/// The level a name stands for: `none`, `light`, `reasonable` or `high`.
pub open spec fn level_named(name: Seq<char>) -> Option<TruncateLevel> {
    if name == "none"@ {
        Some(TruncateLevel::Off)
    } else if name == "light"@ {
        Some(TruncateLevel::Light)
    } else if name == "reasonable"@ {
        Some(TruncateLevel::Reasonable)
    } else if name == "high"@ {
        Some(TruncateLevel::High)
    } else {
        None
    }
}

/// The level that `name` stands for, `None` for any other text.
pub fn parse_truncate_level(name: &str) -> (r: Option<TruncateLevel>)
    ensures
        r == level_named(name@),
{
    let v = to_chars(name);
    if chars_eq_str(v.as_slice(), "none") {
        Some(TruncateLevel::Off)
    } else if chars_eq_str(v.as_slice(), "light") {
        Some(TruncateLevel::Light)
    } else if chars_eq_str(v.as_slice(), "reasonable") {
        Some(TruncateLevel::Reasonable)
    } else if chars_eq_str(v.as_slice(), "high") {
        Some(TruncateLevel::High)
    } else {
        None
    }
}

/// A cap of `base` items scaled by the level: no cap when off, twice as
/// many when light, `base` itself when reasonable, half (rounded down) when
/// high.
pub open spec fn level_cap(level: TruncateLevel, base: usize) -> Option<usize> {
    match level {
        TruncateLevel::Off => None,
        TruncateLevel::Light => Some((base * 2) as usize),
        TruncateLevel::Reasonable => Some(base),
        TruncateLevel::High => Some(base / 2),
    }
}

/// How much a level compresses: off least, high most.
pub open spec fn compression(level: TruncateLevel) -> nat {
    match level {
        TruncateLevel::Off => 0,
        TruncateLevel::Light => 1,
        TruncateLevel::Reasonable => 2,
        TruncateLevel::High => 3,
    }
}

/// A command's cap of `base` items scaled by the level (see `level_cap`).
pub fn scaled_cap(level: TruncateLevel, base: usize) -> (r: Option<usize>)
    requires
        base * 2 <= usize::MAX,
    ensures
        r == level_cap(level, base),
{
    match level {
        TruncateLevel::Off => None,
        TruncateLevel::Light => Some(base * 2),
        TruncateLevel::Reasonable => Some(base),
        TruncateLevel::High => Some(base / 2),
    }
}

/// A higher truncate level never lets the summary of a listing name more
/// extensions: of `n` ranked extensions and a command cap of `base`, the
/// more compressing level names at most as many.
pub proof fn lemma_higher_level_names_fewer(a: TruncateLevel, b: TruncateLevel, base: usize, n: nat)
    requires
        compression(a) <= compression(b),
        base * 2 <= usize::MAX,
    ensures
        named_count(n, level_cap(b, base)) <= named_count(n, level_cap(a, base)),
{
}

} // verus!
