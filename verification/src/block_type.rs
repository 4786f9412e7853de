//! Classifying a block of Markdown source into a [`BlockType`].

use vstd::prelude::*;
use crate::ast::{BlockKind, BlockType};
use crate::inline_format::{hash_run, is_hash_run, leading_hashes};
use crate::text::str_chars;

verus! {

/// Unicode `White_Space` characters (what `char::is_whitespace` accepts).
pub open spec fn is_ws(c: char) -> bool {
    let v = c as u32;
    (0x09 <= v <= 0x0d) || v == 0x20 || v == 0x85 || v == 0xa0 || v == 0x1680 || (0x2000 <= v
        <= 0x200a) || v == 0x2028 || v == 0x2029 || v == 0x202f || v == 0x205f || v == 0x3000
}

pub fn char_is_ws(c: char) -> (r: bool)
    ensures
        r == is_ws(c),
{
    let v = c as u32;
    (0x09 <= v && v <= 0x0d) || v == 0x20 || v == 0x85 || v == 0xa0 || v == 0x1680 || (0x2000 <= v
        && v <= 0x200a) || v == 0x2028 || v == 0x2029 || v == 0x202f || v == 0x205f || v == 0x3000
}

/// `a` leading characters of `s` are whitespace and the next one is not.
pub open spec fn is_ws_lead(s: Seq<char>, a: int) -> bool {
    &&& 0 <= a <= s.len()
    &&& forall|i: int| 0 <= i < a ==> is_ws(#[trigger] s[i])
    &&& (a == s.len() || !is_ws(s[a]))
}

/// `z` trailing characters of `s` are whitespace and the one before is not.
pub open spec fn is_ws_trail(s: Seq<char>, z: int) -> bool {
    &&& 0 <= z <= s.len()
    &&& forall|i: int| s.len() - z <= i < s.len() ==> is_ws(#[trigger] s[i])
    &&& (z == s.len() || !is_ws(s[s.len() - z - 1]))
}

/// `s` without leading and trailing whitespace (what `str::trim` returns).
pub open spec fn trim(s: Seq<char>) -> Seq<char> {
    let a = choose|a: int| is_ws_lead(s, a);
    let r = s.skip(a);
    let z = choose|z: int| is_ws_trail(r, z);
    r.take(r.len() - z)
}

/// The heading level written at the start of a block: the number of leading
/// `#` when they are followed by a space or end the text, otherwise 0.
pub open spec fn written_level(s: Seq<char>) -> int {
    let h = leading_hashes(s);
    if h == s.len() || s[h] == ' ' {
        h
    } else {
        0
    }
}

/// The block type that a block's Markdown source denotes.
pub open spec fn spec_derive_block_type(s: Seq<char>) -> BlockKind {
    let t = trim(s);
    if "$$"@.is_prefix_of(t) && "$$"@.is_suffix_of(t) && t.len() >= 4 {
        BlockKind::MathBlock
    } else if "```mermaid"@.is_prefix_of(t) && "```"@.is_suffix_of(t) {
        BlockKind::Mermaid
    } else if "```typst"@.is_prefix_of(t) && "```"@.is_suffix_of(t) {
        BlockKind::Typst
    } else if "```"@.is_prefix_of(t) && "```"@.is_suffix_of(t) {
        BlockKind::CodeBlock { language: Seq::empty() }
    } else if 1 <= written_level(s) <= 6 {
        BlockKind::Heading { level: written_level(s) as u8 }
    } else if "- "@.is_prefix_of(s) || "* "@.is_prefix_of(s) || "+ "@.is_prefix_of(s) {
        BlockKind::List { list_type: "unordered"@, indent_level: 0, parent_list_id: None }
    } else {
        BlockKind::Paragraph
    }
}

/// Whether `pat` is a prefix of `v[lo..hi]`.
pub fn range_starts_with(v: &Vec<char>, lo: usize, hi: usize, pat: &str) -> (r: bool)
    requires
        lo <= hi <= v.len(),
    ensures
        r == pat@.is_prefix_of(v@.subrange(lo as int, hi as int)),
{
    let p = str_chars(pat);
    if p.len() > hi - lo {
        return false;
    }
    let mut i: usize = 0;
    while i < p.len()
        invariant
            p@ == pat@,
            p.len() <= hi - lo,
            lo <= hi <= v.len(),
            i <= p.len(),
            forall|j: int| 0 <= j < i ==> p@[j] == v@[lo + j],
        decreases p.len() - i,
    {
        if p[i] != v[lo + i] {
            assert(v@.subrange(lo as int, hi as int).subrange(0, p@.len() as int)[i as int]
                != p@[i as int]);
            return false;
        }
        i = i + 1;
    }
    assert(p@ =~= v@.subrange(lo as int, hi as int).subrange(0, p@.len() as int));
    true
}

/// Whether `pat` is a suffix of `v[lo..hi]`.
pub fn range_ends_with(v: &Vec<char>, lo: usize, hi: usize, pat: &str) -> (r: bool)
    requires
        lo <= hi <= v.len(),
    ensures
        r == pat@.is_suffix_of(v@.subrange(lo as int, hi as int)),
{
    let p = str_chars(pat);
    if p.len() > hi - lo {
        return false;
    }
    let start = hi - p.len();
    let mut i: usize = 0;
    while i < p.len()
        invariant
            p@ == pat@,
            p.len() <= hi - lo,
            start == hi - p.len(),
            lo <= hi <= v.len(),
            i <= p.len(),
            forall|j: int| 0 <= j < i ==> p@[j] == v@[start + j],
        decreases p.len() - i,
    {
        if p[i] != v[start + i] {
            let ghost t = v@.subrange(lo as int, hi as int);
            assert(t.subrange(t.len() - p@.len(), t.len() as int)[i as int] != p@[i as int]);
            return false;
        }
        i = i + 1;
    }
    let ghost t = v@.subrange(lo as int, hi as int);
    assert(p@ =~= t.subrange(t.len() - p@.len(), t.len() as int));
    true
}

/// Bounds `lo..hi` of `s` with surrounding whitespace removed.
pub fn trim_bounds(s: &Vec<char>) -> (r: (usize, usize))
    ensures
        r.0 <= r.1 <= s.len(),
        s@.subrange(r.0 as int, r.1 as int) == trim(s@),
{
    let mut a: usize = 0;
    while a < s.len() && char_is_ws(s[a])
        invariant
            a <= s.len(),
            forall|i: int| 0 <= i < a ==> is_ws(#[trigger] s@[i]),
        decreases s.len() - a,
    {
        a = a + 1;
    }
    let mut b: usize = s.len();
    while b > a && char_is_ws(s[b - 1])
        invariant
            a <= b <= s.len(),
            forall|i: int| b <= i < s.len() ==> is_ws(#[trigger] s@[i]),
        decreases b,
    {
        b = b - 1;
    }
    proof {
        assert(is_ws_lead(s@, a as int));
        let ca = choose|x: int| is_ws_lead(s@, x);
        if ca < a {
            assert(is_ws(s@[ca]));
        } else if ca > a {
            assert(is_ws(s@[a as int]));
        }
        let r = s@.skip(a as int);
        let z = (s.len() - b) as int;
        assert(is_ws_trail(r, z)) by {
            assert forall|i: int| r.len() - z <= i < r.len() implies is_ws(#[trigger] r[i]) by {
                assert(r[i] == s@[a + i]);
            }
            if z < r.len() {
                assert(r[r.len() - z - 1] == s@[b - 1]);
            }
        }
        let cz = choose|x: int| is_ws_trail(r, x);
        if cz < z {
            assert(is_ws(r[r.len() - cz - 1]));
        } else if cz > z {
            assert(is_ws(r[r.len() - z - 1]));
        }
        assert(s@.subrange(a as int, b as int) =~= r.take(r.len() - z));
    }
    (a, b)
}

/// Determines the block type from a block's Markdown source.
pub fn derive_block_type(markdown: &str) -> (r: BlockType)
    ensures
        r@ == spec_derive_block_type(markdown@),
{
    let s = str_chars(markdown);
    let (lo, hi) = trim_bounds(&s);
    proof {
        reveal_strlit("unordered");
    }
    if range_starts_with(&s, lo, hi, "$$") && range_ends_with(&s, lo, hi, "$$") && hi - lo >= 4 {
        return BlockType::MathBlock;
    }
    if range_starts_with(&s, lo, hi, "```mermaid") && range_ends_with(&s, lo, hi, "```") {
        return BlockType::Mermaid;
    }
    if range_starts_with(&s, lo, hi, "```typst") && range_ends_with(&s, lo, hi, "```") {
        return BlockType::Typst;
    }
    if range_starts_with(&s, lo, hi, "```") && range_ends_with(&s, lo, hi, "```") {
        return BlockType::CodeBlock { language: String::new() };
    }
    let mut h: usize = 0;
    while h < s.len() && s[h] == '#'
        invariant
            h <= s.len(),
            forall|i: int| 0 <= i < h ==> s@[i] == '#',
        decreases s.len() - h,
    {
        h = h + 1;
    }
    proof {
        assert(is_hash_run(s@, h as int));
        let c = leading_hashes(s@);
        if c < h {
            assert(s@[c] == '#');
        } else if c > h {
            assert(s@[h as int] == '#');
        }
    }
    let level: usize = if h == s.len() || s[h] == ' ' {
        h
    } else {
        0
    };
    if level > 0 && level <= 6 {
        return BlockType::Heading { level: level as u8 };
    }
    let n = s.len();
    if range_starts_with(&s, 0, n, "- ") || range_starts_with(&s, 0, n, "* ")
        || range_starts_with(&s, 0, n, "+ ") {
        proof {
            assert(s@.subrange(0, n as int) =~= s@);
        }
        return BlockType::List {
            list_type: String::from_str("unordered"),
            indent_level: 0,
            parent_list_id: None,
        };
    }
    assert(s@.subrange(0, n as int) =~= s@);
    BlockType::Paragraph
}

/// Every text has a count of trailing whitespace.
proof fn lemma_ws_trail_exists(r: Seq<char>)
    ensures
        exists|z: int| is_ws_trail(r, z),
    decreases r.len(),
{
    if r.len() == 0 {
        assert(is_ws_trail(r, 0));
    } else if !is_ws(r[r.len() - 1]) {
        assert(is_ws_trail(r, 0));
    } else {
        let d = r.drop_last();
        lemma_ws_trail_exists(d);
        let z = choose|z: int| is_ws_trail(d, z);
        assert forall|i: int| r.len() - (z + 1) <= i < r.len() implies is_ws(#[trigger] r[i]) by {
            if i < r.len() - 1 {
                assert(r[i] == d[i]);
            }
        }
        if z + 1 < r.len() {
            assert(r[r.len() - (z + 1) - 1] == d[d.len() - z - 1]);
        }
        assert(is_ws_trail(r, z + 1));
    }
}

/// A text that starts with a character other than whitespace keeps that
/// character first when trimmed.
pub proof fn lemma_trim_keeps_first(s: Seq<char>)
    requires
        s.len() > 0,
        !is_ws(s[0]),
    ensures
        trim(s).len() > 0,
        trim(s)[0] == s[0],
{
    assert(is_ws_lead(s, 0));
    let a = choose|a: int| is_ws_lead(s, a);
    if a > 0 {
        assert(is_ws(s[0]));
    }
    assert(a == 0);
    let r = s.skip(a);
    assert(r =~= s);
    lemma_ws_trail_exists(r);
    let z = choose|z: int| is_ws_trail(r, z);
    if z == r.len() {
        assert(is_ws(r[0]));
    }
}

/// A heading of any level from 1 to 6 is read back: `n` `#` characters, a
/// space and any text are classified as a heading of level `n`.
pub proof fn law_heading_classified(n: int, text: Seq<char>)
    requires
        1 <= n <= 6,
    ensures
        spec_derive_block_type(hash_run(n) + seq![' '] + text) == (BlockKind::Heading { level: n as u8 }),
{
    let s = hash_run(n) + seq![' '] + text;
    assert(s[0] == '#');
    assert(s[n] == ' ');
    lemma_trim_keeps_first(s);
    let t = trim(s);
    reveal_strlit("$$");
    reveal_strlit("```mermaid");
    reveal_strlit("```typst");
    reveal_strlit("```");
    assert(!"$$"@.is_prefix_of(t)) by {
        if "$$"@.is_prefix_of(t) {
            assert(t[0] == "$$"@[0]);
        }
    }
    assert(!"```mermaid"@.is_prefix_of(t)) by {
        if "```mermaid"@.is_prefix_of(t) {
            assert(t[0] == "```mermaid"@[0]);
        }
    }
    assert(!"```typst"@.is_prefix_of(t)) by {
        if "```typst"@.is_prefix_of(t) {
            assert(t[0] == "```typst"@[0]);
        }
    }
    assert(!"```"@.is_prefix_of(t)) by {
        if "```"@.is_prefix_of(t) {
            assert(t[0] == "```"@[0]);
        }
    }
    assert(is_hash_run(s, n));
    let c = leading_hashes(s);
    if c < n {
        assert(s[c] == '#');
    } else if c > n {
        assert(s[n] == '#');
    }
    assert(written_level(s) == n);
}

/// Seven or more `#` before a space make no heading: such a text is a
/// paragraph.
pub proof fn law_too_deep_heading_is_paragraph(n: int, text: Seq<char>)
    requires
        n >= 7,
    ensures
        spec_derive_block_type(hash_run(n) + seq![' '] + text) == BlockKind::Paragraph,
{
    let s = hash_run(n) + seq![' '] + text;
    assert(s[0] == '#');
    assert(s[n] == ' ');
    lemma_trim_keeps_first(s);
    let t = trim(s);
    reveal_strlit("$$");
    reveal_strlit("```mermaid");
    reveal_strlit("```typst");
    reveal_strlit("```");
    reveal_strlit("- ");
    reveal_strlit("* ");
    reveal_strlit("+ ");
    assert(!"$$"@.is_prefix_of(t)) by {
        if "$$"@.is_prefix_of(t) {
            assert(t[0] == "$$"@[0]);
        }
    }
    assert(!"```mermaid"@.is_prefix_of(t)) by {
        if "```mermaid"@.is_prefix_of(t) {
            assert(t[0] == "```mermaid"@[0]);
        }
    }
    assert(!"```typst"@.is_prefix_of(t)) by {
        if "```typst"@.is_prefix_of(t) {
            assert(t[0] == "```typst"@[0]);
        }
    }
    assert(!"```"@.is_prefix_of(t)) by {
        if "```"@.is_prefix_of(t) {
            assert(t[0] == "```"@[0]);
        }
    }
    assert(!"- "@.is_prefix_of(s)) by {
        if "- "@.is_prefix_of(s) {
            assert(s[0] == "- "@[0]);
        }
    }
    assert(!"* "@.is_prefix_of(s)) by {
        if "* "@.is_prefix_of(s) {
            assert(s[0] == "* "@[0]);
        }
    }
    assert(!"+ "@.is_prefix_of(s)) by {
        if "+ "@.is_prefix_of(s) {
            assert(s[0] == "+ "@[0]);
        }
    }
    assert(is_hash_run(s, n));
    let c = leading_hashes(s);
    if c < n {
        assert(s[c] == '#');
    } else if c > n {
        assert(s[n] == '#');
    }
    assert(written_level(s) == n);
}

/// A text that starts with `- ` and holds no fence is an unordered list.
pub proof fn law_dash_is_list(text: Seq<char>)
    ensures
        spec_derive_block_type(seq!['-', ' '] + text) == (BlockKind::List {
            list_type: "unordered"@,
            indent_level: 0,
            parent_list_id: None,
        }),
{
    let s = seq!['-', ' '] + text;
    lemma_trim_keeps_first(s);
    let t = trim(s);
    reveal_strlit("$$");
    reveal_strlit("```mermaid");
    reveal_strlit("```typst");
    reveal_strlit("```");
    reveal_strlit("- ");
    assert(!"$$"@.is_prefix_of(t)) by {
        if "$$"@.is_prefix_of(t) {
            assert(t[0] == "$$"@[0]);
        }
    }
    assert(!"```mermaid"@.is_prefix_of(t)) by {
        if "```mermaid"@.is_prefix_of(t) {
            assert(t[0] == "```mermaid"@[0]);
        }
    }
    assert(!"```typst"@.is_prefix_of(t)) by {
        if "```typst"@.is_prefix_of(t) {
            assert(t[0] == "```typst"@[0]);
        }
    }
    assert(!"```"@.is_prefix_of(t)) by {
        if "```"@.is_prefix_of(t) {
            assert(t[0] == "```"@[0]);
        }
    }
    assert(is_hash_run(s, 0));
    let c = leading_hashes(s);
    if c > 0 {
        assert(s[0] == '#');
    }
    assert(written_level(s) == 0);
    assert("- "@.is_prefix_of(s)) by {
        assert(s.subrange(0, 2) =~= "- "@);
    }
}

} // verus!
