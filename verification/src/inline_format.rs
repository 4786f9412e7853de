//! Applying an inline format (bold, italic, code, link, heading, list) to the
//! Markdown source of a block, with the selection given in UTF-16 offsets.

use vstd::prelude::*;
use crate::text::{
    char_index_at_utf16, chars_at_utf16, lemma_chars_at_utf16_defined, lemma_chars_at_utf16_is,
    lemma_prefix_lens_strict, lemma_utf16_len_concat, parse_usize, push_all, push_range, push_str,
    spec_parse_usize, str_chars, str_is, string_from_chars, utf16_len,
};

verus! {

/// Characters before the selection start: the prefix at UTF-16 offset
/// `start` (taken as a 32-bit offset), or 0 when that offset is not between
/// characters.
pub open spec fn sel_start(s: Seq<char>, start: usize) -> int {
    match chars_at_utf16(s, (start as u32) as int) {
        Some(k) => k,
        None => 0,
    }
}

/// Characters before the selection end: the prefix at UTF-16 offset `end`
/// (as a 32-bit offset), the whole text when that offset is not between
/// characters, and never before the selection start.
pub open spec fn sel_end(s: Seq<char>, start: usize, end: usize) -> int {
    let e = match chars_at_utf16(s, (end as u32) as int) {
        Some(k) => k,
        None => s.len() as int,
    };
    if e < sel_start(s, start) {
        sel_start(s, start)
    } else {
        e
    }
}

/// The selection `b..e` is directly enclosed by `**` on both sides.
pub open spec fn enclosed_in_bold(s: Seq<char>, b: int, e: int) -> bool {
    &&& b >= 2
    &&& s[b - 2] == '*'
    &&& s[b - 1] == '*'
    &&& e + 2 <= s.len()
    &&& s[e] == '*'
    &&& s[e + 1] == '*'
}

/// `h` is the number of leading `#` characters of `s`.
pub open spec fn is_hash_run(s: Seq<char>, h: int) -> bool {
    &&& 0 <= h <= s.len()
    &&& forall|i: int| 0 <= i < h ==> s[i] == '#'
    &&& (h == s.len() || s[h] != '#')
}

/// The number of leading `#` characters of `s`.
pub open spec fn leading_hashes(s: Seq<char>) -> int {
    choose|h: int| is_hash_run(s, h)
}

/// Length of an existing heading prefix (`#`s followed by a space), or 0.
pub open spec fn heading_prefix_len(s: Seq<char>) -> int {
    let h = leading_hashes(s);
    if h < s.len() && s[h] == ' ' {
        h + 1
    } else {
        0
    }
}

/// The heading level asked for: the parsed meta value, 1 when absent or not a
/// number.
pub open spec fn requested_level(meta: Option<Seq<char>>) -> int {
    match meta {
        Some(m) => match spec_parse_usize(m) {
            Some(v) => v as int,
            None => 1,
        },
        None => 1,
    }
}

pub open spec fn hash_run(n: int) -> Seq<char> {
    Seq::new(n as nat, |i: int| '#')
}

pub open spec fn sat_sub(a: int, b: int) -> int {
    if a >= b {
        a - b
    } else {
        0
    }
}

/// `md[..b] + open + md[b..e] + close + md[e..]`.
pub open spec fn wrapped(md: Seq<char>, b: int, e: int, open: Seq<char>, close: Seq<char>) -> Seq<char> {
    md.take(b) + open + md.subrange(b, e) + close + md.skip(e)
}

/// Bold on the selection `b..e`: an enclosing `**` pair is removed (caret two
/// units back, not below 0), otherwise the selection is wrapped in `**` (caret
/// two units on).
pub open spec fn bold_edit(md: Seq<char>, b: int, e: int, end: int) -> (Seq<char>, int) {
    if enclosed_in_bold(md, b, e) {
        (md.take(b - 2) + md.subrange(b, e) + md.skip(e + 2), sat_sub(end, 2))
    } else {
        (wrapped(md, b, e, seq!['*', '*'], seq!['*', '*']), end + 2)
    }
}

/// Heading of `level`: an existing heading prefix of the same level is
/// removed, one of another level is replaced, and text without one gets it;
/// the caret moves with the prefix.
pub open spec fn heading_edit(md: Seq<char>, level: int, end: int) -> (Seq<char>, int) {
    let p = heading_prefix_len(md);
    if p > 0 && leading_hashes(md) == level {
        (md.skip(p), sat_sub(end, p))
    } else if p > 0 {
        (hash_run(level) + seq![' '] + md.skip(p), sat_sub(end, p) + level + 1)
    } else {
        (hash_run(level) + seq![' '] + md, end + level + 1)
    }
}

pub open spec fn link_close(url: Option<Seq<char>>) -> Seq<char> {
    let u = match url {
        Some(u) => u,
        None => Seq::empty(),
    };
    seq![']', '('] + u + seq![')']
}

/// The new Markdown text and caret offset after applying `action` to the
/// selection `start..end` (UTF-16 offsets) of `md`.
pub open spec fn spec_apply_inline(
    md: Seq<char>,
    action: Seq<char>,
    start: usize,
    end: usize,
    meta: Option<Seq<char>>,
) -> (Seq<char>, int) {
    let b = sel_start(md, start);
    let e = sel_end(md, start, end);
    if action == "bold"@ {
        bold_edit(md, b, e, end as int)
    } else if action == "italic"@ {
        (wrapped(md, b, e, seq!['*'], seq!['*']), end + 1)
    } else if action == "code"@ {
        (wrapped(md, b, e, seq!['`'], seq!['`']), end + 1)
    } else if action == "link"@ {
        (wrapped(md, b, e, seq!['['], link_close(meta)), end as int)
    } else if action == "heading"@ {
        heading_edit(md, requested_level(meta), end as int)
    } else if action == "list"@ {
        (seq!['-', ' '] + md, end + 2)
    } else {
        (md, end as int)
    }
}

pub open spec fn opt_str(o: Option<&str>) -> Option<Seq<char>> {
    match o {
        Some(s) => Some(s@),
        None => None,
    }
}

fn leading_hash_count(md: &Vec<char>) -> (h: usize)
    ensures
        h == leading_hashes(md@),
{
    let mut h: usize = 0;
    while h < md.len() && md[h] == '#'
        invariant
            h <= md.len(),
            forall|i: int| 0 <= i < h ==> md@[i] == '#',
        decreases md.len() - h,
    {
        h = h + 1;
    }
    proof {
        assert(is_hash_run(md@, h as int));
        let c = leading_hashes(md@);
        if c < h {
            assert(md@[c] == '#');
        } else if c > h {
            assert(md@[h as int] == '#');
        }
    }
    h
}

pub fn push_char_n(out: &mut Vec<char>, c: char, n: usize)
    ensures
        final(out)@ == old(out)@ + Seq::new(n as nat, |i: int| c),
{
    let mut i: usize = 0;
    while i < n
        invariant
            i <= n,
            out@ == old(out)@ + Seq::new(i as nat, |j: int| c),
        decreases n - i,
    {
        out.push(c);
        i = i + 1;
        assert(Seq::new(i as nat, |j: int| c) =~= Seq::new((i - 1) as nat, |j: int| c).push(c));
    }
}

/// `md[..b] + open + md[b..e] + close + md[e..]`.
fn wrap_selection(md: &Vec<char>, b: usize, e: usize, open: &Vec<char>, close: &Vec<char>) -> (out: Vec<char>)
    requires
        b <= e <= md.len(),
    ensures
        out@ == wrapped(md@, b as int, e as int, open@, close@),
{
    let mut out: Vec<char> = Vec::new();
    push_range(&mut out, md, 0, b);
    push_all(&mut out, open);
    push_range(&mut out, md, b, e);
    push_all(&mut out, close);
    push_range(&mut out, md, e, md.len());
    assert(md@.subrange(0, b as int) =~= md@.take(b as int));
    assert(md@.subrange(e as int, md@.len() as int) =~= md@.skip(e as int));
    out
}

fn bold_selection(md: &Vec<char>, b: usize, e: usize, end: usize) -> (res: (Vec<char>, usize))
    requires
        b <= e <= md.len(),
        bold_edit(md@, b as int, e as int, end as int).1 <= usize::MAX,
    ensures
        res.0@ == bold_edit(md@, b as int, e as int, end as int).0,
        res.1 == bold_edit(md@, b as int, e as int, end as int).1,
{
    let enclosed = b >= 2 && md[b - 2] == '*' && md[b - 1] == '*' && md.len() >= 2 && e
        <= md.len() - 2 && md[e] == '*' && md[e + 1] == '*';
    if enclosed {
        let mut out: Vec<char> = Vec::new();
        push_range(&mut out, md, 0, b - 2);
        push_range(&mut out, md, b, e);
        push_range(&mut out, md, e + 2, md.len());
        assert(md@.subrange(0, b - 2) =~= md@.take(b - 2));
        assert(md@.subrange(e + 2, md@.len() as int) =~= md@.skip(e + 2));
        let caret = if end >= 2 {
            end - 2
        } else {
            0
        };
        (out, caret)
    } else {
        let mut stars: Vec<char> = Vec::new();
        stars.push('*');
        stars.push('*');
        assert(stars@ =~= seq!['*', '*']);
        (wrap_selection(md, b, e, &stars, &stars), end + 2)
    }
}

fn heading_selection(md: &Vec<char>, level: usize, end: usize) -> (res: (Vec<char>, usize))
    requires
        heading_edit(md@, level as int, end as int).1 <= usize::MAX,
    ensures
        res.0@ == heading_edit(md@, level as int, end as int).0,
        res.1 == heading_edit(md@, level as int, end as int).1,
{
    let h = leading_hash_count(md);
    let p: usize = if h < md.len() && md[h] == ' ' {
        h + 1
    } else {
        0
    };
    assert(p == heading_prefix_len(md@));
    let mut out: Vec<char> = Vec::new();
    assert(md@.subrange(p as int, md@.len() as int) =~= md@.skip(p as int));
    if p > 0 && h == level {
        push_range(&mut out, md, p, md.len());
        let caret = if end >= p {
            end - p
        } else {
            0
        };
        (out, caret)
    } else {
        push_char_n(&mut out, '#', level);
        out.push(' ');
        assert(Seq::new(level as nat, |i: int| '#') =~= hash_run(level as int));
        if p > 0 {
            push_range(&mut out, md, p, md.len());
            let caret = (if end >= p {
                end - p
            } else {
                0
            }) + level + 1;
            (out, caret)
        } else {
            push_all(&mut out, md);
            (out, end + level + 1)
        }
    }
}

/// The selection as character positions.
fn selection_bounds(md: &Vec<char>, selection_start: usize, selection_end: usize) -> (r: (usize, usize))
    ensures
        r.0 == sel_start(md@, selection_start),
        r.1 == sel_end(md@, selection_start, selection_end),
        r.0 <= r.1 <= md.len(),
{
    let b: usize = match char_index_at_utf16(md, selection_start as u32) {
        Some(k) => k,
        None => 0,
    };
    let mut e: usize = match char_index_at_utf16(md, selection_end as u32) {
        Some(k) => k,
        None => md.len(),
    };
    if e < b {
        e = b;
    }
    (b, e)
}

/// Applies an inline format to the selection of a block's Markdown and returns
/// the new Markdown with the new caret offset.
///
/// The selection is given in UTF-16 offsets and taken by characters. `bold`
/// toggles: a selection directly enclosed by `**` characters is unwrapped. `heading`
/// toggles the same level, replaces another level, or adds a prefix; `list`
/// prepends `- `; an unknown action leaves the text unchanged.
pub fn apply_inline_decoration(
    markdown: &str,
    action_type: &str,
    selection_start: usize,
    selection_end: usize,
    meta_value: Option<&str>,
) -> (res: (String, usize))
    requires
        spec_apply_inline(
            markdown@,
            action_type@,
            selection_start,
            selection_end,
            opt_str(meta_value),
        ).1 <= usize::MAX,
    ensures
        res.0@ == spec_apply_inline(
            markdown@,
            action_type@,
            selection_start,
            selection_end,
            opt_str(meta_value),
        ).0,
        res.1 == spec_apply_inline(
            markdown@,
            action_type@,
            selection_start,
            selection_end,
            opt_str(meta_value),
        ).1,
{
    let md = str_chars(markdown);
    let ghost s = markdown@;
    let (b, e) = selection_bounds(&md, selection_start, selection_end);
    proof {
        reveal_strlit("**");
        reveal_strlit("*");
        reveal_strlit("`");
        reveal_strlit("[");
        reveal_strlit("](");
        reveal_strlit(")");
        reveal_strlit("- ");
    }
    if str_is(action_type, "bold") {
        let (out, caret) = bold_selection(&md, b, e, selection_end);
        (string_from_chars(&out), caret)
    } else if str_is(action_type, "italic") {
        let star = str_chars("*");
        let out = wrap_selection(&md, b, e, &star, &star);
        (string_from_chars(&out), selection_end + 1)
    } else if str_is(action_type, "code") {
        let tick = str_chars("`");
        let out = wrap_selection(&md, b, e, &tick, &tick);
        (string_from_chars(&out), selection_end + 1)
    } else if str_is(action_type, "link") {
        let open = str_chars("[");
        let mut close = str_chars("](");
        match meta_value {
            Some(u) => push_str(&mut close, u),
            None => {},
        }
        push_str(&mut close, ")");
        assert(close@ =~= link_close(opt_str(meta_value)));
        let out = wrap_selection(&md, b, e, &open, &close);
        (string_from_chars(&out), selection_end)
    } else if str_is(action_type, "heading") {
        let level: usize = match meta_value {
            Some(m) => match parse_usize(m) {
                Some(v) => v,
                None => 1,
            },
            None => 1,
        };
        let (out, caret) = heading_selection(&md, level, selection_end);
        (string_from_chars(&out), caret)
    } else if str_is(action_type, "list") {
        let mut out = str_chars("- ");
        push_all(&mut out, &md);
        (string_from_chars(&out), selection_end + 2)
    } else {
        (string_from_chars(&md), selection_end)
    }
}


/// Whether applying the format is defined: the new caret fits in `usize`.
pub fn inline_decoration_defined(
    markdown: &str,
    action_type: &str,
    selection_start: usize,
    selection_end: usize,
    meta_value: Option<&str>,
) -> (r: bool)
    ensures
        r == (spec_apply_inline(
            markdown@,
            action_type@,
            selection_start,
            selection_end,
            opt_str(meta_value),
        ).1 <= usize::MAX),
{
    let md = str_chars(markdown);
    let ghost s = markdown@;
    let (b, e) = selection_bounds(&md, selection_start, selection_end);
    let end = selection_end as u128;
    let caret: u128;
    if str_is(action_type, "bold") {
        let enclosed = b >= 2 && md[b - 2] == '*' && md[b - 1] == '*' && md.len() >= 2 && e
            <= md.len() - 2 && md[e] == '*' && md[e + 1] == '*';
        caret = if enclosed {
            if end >= 2 {
                end - 2
            } else {
                0
            }
        } else {
            end + 2
        };
    } else if str_is(action_type, "italic") || str_is(action_type, "code") {
        caret = end + 1;
    } else if str_is(action_type, "link") {
        caret = end;
    } else if str_is(action_type, "heading") {
        let level: usize = match meta_value {
            Some(m) => match parse_usize(m) {
                Some(v) => v,
                None => 1,
            },
            None => 1,
        };
        let h = leading_hash_count(&md);
        let p: usize = if h < md.len() && md[h] == ' ' {
            h + 1
        } else {
            0
        };
        assert(p == heading_prefix_len(s));
        let rest = if end >= p as u128 {
            end - p as u128
        } else {
            0
        };
        caret = if p > 0 && h == level {
            rest
        } else if p > 0 {
            rest + level as u128 + 1
        } else {
            end + level as u128 + 1
        };
    } else if str_is(action_type, "list") {
        caret = end + 2;
    } else {
        caret = end;
    }
    caret <= usize::MAX as u128
}

// ─── Laws ────────────────────────────────────────────────────────────────────

/// Bold toggles: making a selection bold and then applying bold again to the
/// shifted selection (two UTF-16 units further on each side) gives back the
/// starting text and caret.
pub proof fn law_bold_toggles(md: Seq<char>, start: usize, end: usize, meta: Option<Seq<char>>)
    requires
        chars_at_utf16(md, start as int) is Some,
        chars_at_utf16(md, end as int) is Some,
        start <= end,
        end + 2 <= u32::MAX,
        !enclosed_in_bold(md, sel_start(md, start), sel_end(md, start, end)),
    ensures
        ({
            let first = spec_apply_inline(md, "bold"@, start, end, meta);
            spec_apply_inline(first.0, "bold"@, (start + 2) as usize, (end + 2) as usize, meta) == (
            md,
            end as int,
            )
        }),
{
    lemma_chars_at_utf16_defined(md, start as int);
    lemma_chars_at_utf16_defined(md, end as int);
    let b = chars_at_utf16(md, start as int)->0;
    let e = chars_at_utf16(md, end as int)->0;
    assert(utf16_len(md.take(b)) == start);
    assert(utf16_len(md.take(e)) == end);
    if e < b {
        lemma_prefix_lens_strict(md, e, b);
    }
    assert(sel_start(md, start) == b);
    assert(sel_end(md, start, end) == e);
    let stars = seq!['*', '*'];
    let mid = md.subrange(b, e);
    let md2 = md.take(b) + stars + mid + stars + md.skip(e);
    assert(spec_apply_inline(md, "bold"@, start, end, meta).0 == md2);
    assert(utf16_len(stars) == 2) by {
        reveal_with_fuel(utf16_len, 3);
        assert(stars.drop_last() =~= seq!['*']);
        assert(stars.drop_last().drop_last() =~= Seq::<char>::empty());
    }
    assert(md2.take(b + 2) =~= md.take(b) + stars);
    lemma_utf16_len_concat(md.take(b), stars);
    lemma_chars_at_utf16_is(md2, start + 2, b + 2);
    assert(md.take(e) =~= md.take(b) + mid);
    lemma_utf16_len_concat(md.take(b), mid);
    assert(md2.take(e + 2) =~= (md.take(b) + stars) + mid);
    lemma_utf16_len_concat(md.take(b) + stars, mid);
    lemma_chars_at_utf16_is(md2, end + 2, e + 2);
    assert(((start + 2) as usize) as u32 == start + 2);
    assert(((end + 2) as usize) as u32 == end + 2);
    assert(sel_start(md2, (start + 2) as usize) == b + 2);
    assert(sel_end(md2, (start + 2) as usize, (end + 2) as usize) == e + 2);
    assert(enclosed_in_bold(md2, b + 2, e + 2));
    assert(md2.take(b) + md2.subrange(b + 2, e + 2) + md2.skip(e + 4) =~= md);
}

/// A heading toggles: adding a heading prefix of some level to text without
/// one, then applying the same heading level again, gives back the text and
/// the caret.
pub proof fn law_heading_toggles(md: Seq<char>, start: usize, end: usize, meta: Option<Seq<char>>)
    requires
        heading_prefix_len(md) == 0,
        end + requested_level(meta) + 1 <= usize::MAX,
    ensures
        ({
            let first = spec_apply_inline(md, "heading"@, start, end, meta);
            spec_apply_inline(first.0, "heading"@, start, first.1 as usize, meta) == (md, end as int)
        }),
{
    reveal_strlit("bold");
    reveal_strlit("italic");
    reveal_strlit("code");
    reveal_strlit("link");
    reveal_strlit("heading");
    assert("heading"@[0] != "bold"@[0]);
    assert("heading"@[0] != "italic"@[0]);
    assert("heading"@[0] != "code"@[0]);
    assert("heading"@[0] != "link"@[0]);
    let level = requested_level(meta);
    let md2 = hash_run(level) + seq![' '] + md;
    assert(spec_apply_inline(md, "heading"@, start, end, meta).0 == md2);
    assert(is_hash_run(md2, level));
    let c = leading_hashes(md2);
    if c < level {
        assert(md2[c] == '#');
    } else if c > level {
        assert(md2[level] == '#');
    }
    assert(leading_hashes(md2) == level);
    assert(heading_prefix_len(md2) == level + 1);
    assert(md2.skip(level + 1) =~= md);
}

} // verus!
