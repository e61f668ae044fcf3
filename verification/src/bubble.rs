//! The speech/thought bubble: greedy word-wrap of the message, border
//! decoration, padding to a uniform width, and the top and bottom rules.
//!
//! The layout is modelled by spec functions over `Seq<char>`:
//! `wrap_lines` gives the wrapped content lines, `bubble_lines` the decorated
//! and padded block, and `bubble_text` the final newline-joined text that
//! `make_bubble` returns.

use vstd::prelude::*;

verus! {

use crate::text::{chars_of, copy_range, join_lines, push_all, views};

/// A run of `n` copies of `c`.
pub open spec fn fill(c: char, n: nat) -> Seq<char> {
    Seq::new(n, |i: int| c)
}

/// A run of `n` spaces.
pub open spec fn spaces(n: nat) -> Seq<char> {
    fill(' ', n)
}

/// The greedy cut search: scanning from window position `k` leftwards, the
/// first window boundary that lands just after a space, or `width` if the
/// whole window is spaceless (the hard-break fallback).
pub open spec fn scan_cut(s: Seq<char>, k: nat, width: nat) -> nat
    decreases k,
{
    if k == 0 {
        width
    } else if s[k as int - 1] == ' ' {
        k
    } else {
        scan_cut(s, (k - 1) as nat, width)
    }
}

/// Where the next wrapped line of `s` ends: at the last space inside the
/// first `width` characters, or exactly at `width` when that window holds
/// no space at all.
pub open spec fn cut_len(s: Seq<char>, width: nat) -> nat {
    scan_cut(s, width, width)
}

pub proof fn lemma_scan_cut_bounds(s: Seq<char>, k: nat, width: nat)
    ensures
        1 <= width && k <= width ==> 1 <= scan_cut(s, k, width) <= width,
    decreases k,
{
    if k > 0 && s[k as int - 1] != ' ' {
        lemma_scan_cut_bounds(s, (k - 1) as nat, width);
    }
}

/// The wrapped content lines: while more than `width` characters remain, a
/// line of `cut_len` characters (its trailing space included) is taken off
/// the front; the final remainder is the last line.
pub open spec fn wrap_lines(s: Seq<char>, width: nat) -> Seq<Seq<char>>
    decreases s.len(),
        when width >= 1
{
    if s.len() <= width {
        seq![s]
    } else {
        proof {
            lemma_scan_cut_bounds(s, width, width);
        }
        let c = cut_len(s, width) as int;
        seq![s.subrange(0, c)] + wrap_lines(s.skip(c), width)
    }
}

/// The content lines of the bubble: the wrapped message, or the whole
/// message as one line when wrapping is off.
pub open spec fn message_lines(s: Seq<char>, width: nat, wrap: bool) -> Seq<Seq<char>> {
    if wrap {
        wrap_lines(s, width)
    } else {
        seq![s]
    }
}

/// The left border glyph of content line `i` out of `n`: parentheses for a
/// thought bubble; otherwise an angle bracket for a lone line, and slashes,
/// pipes and backslashes down the left side of a taller bubble.
pub open spec fn left_glyph(think: bool, i: int, n: int) -> char {
    if think {
        '('
    } else if n == 1 {
        '<'
    } else if i == 0 {
        '/'
    } else if i == n - 1 {
        '\\'
    } else {
        '|'
    }
}

/// The right border glyph of content line `i` out of `n`.
pub open spec fn right_glyph(think: bool, i: int, n: int) -> char {
    if think {
        ')'
    } else if n == 1 {
        '>'
    } else if i == 0 {
        '\\'
    } else if i == n - 1 {
        '/'
    } else {
        '|'
    }
}

/// The length of the longest content line.
pub open spec fn max_len(ls: Seq<Seq<char>>) -> nat
    decreases ls.len(),
{
    if ls.len() == 0 {
        0
    } else {
        let m = max_len(ls.drop_last());
        if ls.last().len() > m {
            ls.last().len()
        } else {
            m
        }
    }
}

pub proof fn lemma_max_len_ge(ls: Seq<Seq<char>>, i: int)
    requires
        0 <= i < ls.len(),
    ensures
        ls[i].len() <= max_len(ls),
    decreases ls.len(),
{
    if i < ls.len() - 1 {
        lemma_max_len_ge(ls.drop_last(), i);
        assert(ls.drop_last()[i] == ls[i]);
    }
}

pub proof fn lemma_max_len_le(ls: Seq<Seq<char>>, b: nat)
    requires
        forall|i: int| 0 <= i < ls.len() ==> #[trigger] ls[i].len() <= b,
    ensures
        max_len(ls) <= b,
    decreases ls.len(),
{
    if ls.len() > 0 {
        assert forall|i: int| 0 <= i < ls.drop_last().len() implies #[trigger] ls.drop_last()[
            i
        ].len() <= b by {
            assert(ls.drop_last()[i] == ls[i]);
        }
        lemma_max_len_le(ls.drop_last(), b);
        assert(ls.last() == ls[ls.len() - 1]);
    }
}

/// Content line `i` of `n`, bordered and padded: left glyph, one space, the
/// line, one space plus padding out to the longest line, right glyph.
pub open spec fn boxed_line(l: Seq<char>, m: nat, think: bool, i: int, n: int) -> Seq<char> {
    seq![left_glyph(think, i, n), ' '] + l + spaces((m - l.len() + 1) as nat) + seq![
        right_glyph(think, i, n),
    ]
}

/// A top or bottom rule: one leading space, then fill characters across the
/// content width.
pub open spec fn rule_line(c: char, m: nat) -> Seq<char> {
    seq![' '] + fill(c, (m + 2) as nat)
}

/// The length every decorated content line ends up with: the longest wrapped
/// line plus two border glyphs and two spaces.
pub open spec fn longest_line(ls: Seq<Seq<char>>) -> nat {
    max_len(ls) + 4
}

/// The finished bubble, line by line: top rule, decorated and padded content
/// lines, bottom rule.
pub open spec fn bubble_lines(ls: Seq<Seq<char>>, think: bool) -> Seq<Seq<char>> {
    let m = max_len(ls);
    seq![rule_line('_', m)] + Seq::new(ls.len(), |i: int| boxed_line(ls[i], m, think, i, ls.len() as int))
        + seq![rule_line('-', m)]
}

/// The bubble as one text: its lines joined with newlines.
pub open spec fn bubble_text(s: Seq<char>, width: nat, think: bool, wrap: bool) -> Seq<char> {
    join_lines(bubble_lines(message_lines(s, width, wrap), think))
}

/// With wrapping on, every produced content line stays within `width`
/// characters: a cut at a space never passes the window, and a spaceless
/// window is hard-broken at exactly `width`, so no run of characters can
/// force a longer line or a non-terminating search.
pub proof fn lemma_wrapped_width(s: Seq<char>, width: nat, i: int)
    requires
        width >= 1,
        0 <= i < wrap_lines(s, width).len(),
    ensures
        wrap_lines(s, width)[i].len() <= width,
    decreases s.len(),
{
    if s.len() > width {
        lemma_scan_cut_bounds(s, width, width);
        let c = cut_len(s, width) as int;
        if i > 0 {
            lemma_wrapped_width(s.skip(c), width, i - 1);
        }
    }
}

/// No wrapped line is longer than the message itself.
pub proof fn lemma_wrapped_le_message(s: Seq<char>, width: nat, i: int)
    requires
        width >= 1,
        0 <= i < wrap_lines(s, width).len(),
    ensures
        wrap_lines(s, width)[i].len() <= s.len(),
    decreases s.len(),
{
    if s.len() > width {
        lemma_scan_cut_bounds(s, width, width);
        let c = cut_len(s, width) as int;
        if i > 0 {
            lemma_wrapped_le_message(s.skip(c), width, i - 1);
        }
    }
}

/// The concatenation of a line list.
pub open spec fn concat_all(ls: Seq<Seq<char>>) -> Seq<char>
    decreases ls.len(),
{
    if ls.len() == 0 {
        Seq::empty()
    } else {
        ls.first() + concat_all(ls.drop_first())
    }
}

/// Wrapping loses nothing: the wrapped lines, concatenated back in order,
/// are exactly the message.
pub proof fn lemma_wrap_preserves_text(s: Seq<char>, width: nat)
    requires
        width >= 1,
    ensures
        concat_all(wrap_lines(s, width)) == s,
    decreases s.len(),
{
    if s.len() <= width {
        assert(wrap_lines(s, width) == seq![s]);
        assert(seq![s].drop_first() =~= Seq::<Seq<char>>::empty());
        assert(concat_all(seq![s]) == s + concat_all(seq![s].drop_first()));
        assert(s + Seq::<char>::empty() =~= s);
    } else {
        lemma_scan_cut_bounds(s, width, width);
        let c = cut_len(s, width) as int;
        lemma_wrap_preserves_text(s.skip(c), width);
        let w = wrap_lines(s, width);
        assert(w == seq![s.subrange(0, c)] + wrap_lines(s.skip(c), width));
        assert(w.first() == s.subrange(0, c));
        assert(w.drop_first() =~= wrap_lines(s.skip(c), width));
        assert(s.subrange(0, c) + s.skip(c) =~= s);
    }
}

/// Padding invariant: every content line of the finished bubble has one and
/// the same length, the longest wrapped line plus four.
pub proof fn lemma_uniform_content_width(ls: Seq<Seq<char>>, think: bool, i: int)
    requires
        1 <= i < bubble_lines(ls, think).len() - 1,
    ensures
        bubble_lines(ls, think)[i].len() == longest_line(ls),
{
    let m = max_len(ls);
    let n = ls.len() as int;
    lemma_max_len_ge(ls, i - 1);
    assert(bubble_lines(ls, think)[i] == boxed_line(ls[i - 1], m, think, i - 1, n));
    assert(boxed_line(ls[i - 1], m, think, i - 1, n).len() == m + 4);
}

/// With wrapping on, every content line of the bubble, borders and padding
/// included, stays within `width + 4` columns: two border glyphs and two
/// spaces beyond the wrapped text.
pub proof fn lemma_content_within_width(s: Seq<char>, width: nat, think: bool, i: int)
    requires
        width >= 1,
        1 <= i < bubble_lines(wrap_lines(s, width), think).len() - 1,
    ensures
        bubble_lines(wrap_lines(s, width), think)[i].len() <= width + 4,
{
    let ls = wrap_lines(s, width);
    assert forall|k: int| 0 <= k < ls.len() implies #[trigger] ls[k].len() <= width by {
        lemma_wrapped_width(s, width, k);
    }
    lemma_max_len_le(ls, width);
    lemma_uniform_content_width(ls, think, i);
}

/// Border-rule invariant: the top and bottom lines are exactly one leading
/// space followed by `longest_line - 2` fill characters (underscores above,
/// dashes below), so each rule is one character shorter than a content line.
pub proof fn lemma_rule_shape(ls: Seq<Seq<char>>, think: bool)
    ensures
        bubble_lines(ls, think).first() == seq![' '] + fill('_', (longest_line(ls) - 2) as nat),
        bubble_lines(ls, think).last() == seq![' '] + fill('-', (longest_line(ls) - 2) as nat),
        bubble_lines(ls, think).first().len() == longest_line(ls) - 1,
        bubble_lines(ls, think).last().len() == longest_line(ls) - 1,
{
    let m = max_len(ls);
    assert(bubble_lines(ls, think).first() == rule_line('_', m));
    assert(bubble_lines(ls, think).last() == rule_line('-', m));
    assert((m + 2) as nat == (longest_line(ls) - 2) as nat);
}

/// Finds the cut for the line that starts at `index`: the position of the
/// greedy window's last space, or `width` when the window holds none.
fn find_cut(cs: &Vec<char>, index: usize, width: usize) -> (cut: usize)
    requires
        1 <= width,
        index + width < cs@.len(),
    ensures
        cut == cut_len(cs@.skip(index as int), width as nat),
        1 <= cut <= width,
{
    let ghost suffix = cs@.skip(index as int);
    proof {
        assert(cs@.len() == cs.len());
    }
    let mut k: usize = width;
    while k > 0 && cs[index + k - 1] != ' '
        invariant
            k <= width,
            1 <= width,
            index + width < cs@.len(),
            cs@.len() <= usize::MAX,
            suffix == cs@.skip(index as int),
            scan_cut(suffix, k as nat, width as nat) == cut_len(suffix, width as nat),
        decreases k,
    {
        proof {
            assert(suffix[k as int - 1] == cs@[index + k - 1]);
        }
        k = k - 1;
    }
    proof {
        lemma_scan_cut_bounds(suffix, width as nat, width as nat);
        if k > 0 {
            assert(suffix[k as int - 1] == cs@[index + k - 1]);
        }
    }
    if k == 0 {
        width
    } else {
        k
    }
}

/// Wraps the message into its content lines.
fn wrap_message(cs: &Vec<char>, width: usize, wrap: bool) -> (lines: Vec<Vec<char>>)
    requires
        1 <= width,
    ensures
        views(lines@) == message_lines(cs@, width as nat, wrap),
        lines@.len() >= 1,
{
    let mut lines: Vec<Vec<char>> = Vec::new();
    let mut index: usize = 0;
    proof {
        assert(views(lines@) =~= Seq::<Seq<char>>::empty());
        assert(cs@.skip(0) =~= cs@);
        assert(views(lines@) + wrap_lines(cs@, width as nat) =~= wrap_lines(cs@, width as nat));
    }
    if wrap {
        while cs.len() - index > width
            invariant
                1 <= width,
                index <= cs@.len(),
                wrap_lines(cs@, width as nat) == views(lines@) + wrap_lines(
                    cs@.skip(index as int),
                    width as nat,
                ),
            decreases cs@.len() - index,
        {
            let cut = find_cut(cs, index, width);
            let line = copy_range(cs, index, index + cut);
            let ghost prev = views(lines@);
            lines.push(line);
            proof {
                let s1 = cs@.skip(index as int);
                assert(s1.len() > width);
                let c = cut_len(s1, width as nat) as int;
                assert(wrap_lines(s1, width as nat) == seq![s1.subrange(0, c)] + wrap_lines(
                    s1.skip(c),
                    width as nat,
                ));
                assert(s1.subrange(0, c) =~= cs@.subrange(index as int, index + cut));
                assert(s1.skip(c) =~= cs@.skip(index + cut));
                assert(views(lines@) =~= prev.push(line@));
                assert(prev + wrap_lines(s1, width as nat) =~= prev.push(line@) + wrap_lines(
                    cs@.skip(index + cut),
                    width as nat,
                ));
            }
            index = index + cut;
        }
    }
    let ghost prev = views(lines@);
    let last = copy_range(cs, index, cs.len());
    lines.push(last);
    proof {
        let rest = cs@.skip(index as int);
        assert(last@ =~= rest);
        assert(views(lines@) =~= prev.push(rest));
        if wrap {
            assert(rest.len() <= width);
            assert(wrap_lines(rest, width as nat) == seq![rest]);
            assert(prev + wrap_lines(rest, width as nat) =~= prev.push(rest));
        } else {
            assert(prev =~= Seq::<Seq<char>>::empty());
            assert(rest =~= cs@);
            assert(views(lines@) =~= seq![cs@]);
        }
    }
    lines
}

/// Builds one bordered, padded content line.
fn build_boxed(li: &Vec<char>, m: usize, think: bool, i: usize, n: usize) -> (r: Vec<char>)
    requires
        li@.len() <= m,
        m + 4 <= usize::MAX,
        i < n,
    ensures
        r@ == boxed_line(li@, m as nat, think, i as int, n as int),
{
    let mut r: Vec<char> = Vec::new();
    let lg = if think {
        '('
    } else if n == 1 {
        '<'
    } else if i == 0 {
        '/'
    } else if i + 1 == n {
        '\\'
    } else {
        '|'
    };
    r.push(lg);
    r.push(' ');
    proof {
        assert(r@ =~= seq![lg, ' ']);
        assert(lg == left_glyph(think, i as int, n as int));
    }
    push_all(&mut r, li);
    let pad = m - li.len() + 1;
    let mut j: usize = 0;
    while j < pad
        invariant
            j <= pad,
            r@ == seq![left_glyph(think, i as int, n as int), ' '] + li@ + spaces(j as nat),
        decreases pad - j,
    {
        r.push(' ');
        j = j + 1;
        proof {
            assert(spaces(j as nat) =~= spaces((j - 1) as nat).push(' '));
            assert(seq![left_glyph(think, i as int, n as int), ' '] + li@ + spaces(j as nat)
                =~= (seq![left_glyph(think, i as int, n as int), ' '] + li@ + spaces(
                (j - 1) as nat,
            )).push(' '));
        }
    }
    let rg = if think {
        ')'
    } else if n == 1 {
        '>'
    } else if i == 0 {
        '\\'
    } else if i + 1 == n {
        '/'
    } else {
        '|'
    };
    r.push(rg);
    proof {
        assert(rg == right_glyph(think, i as int, n as int));
        assert(r@ =~= boxed_line(li@, m as nat, think, i as int, n as int));
    }
    r
}

/// Builds a top or bottom rule for content width `m`.
fn build_rule(c: char, m: usize) -> (r: Vec<char>)
    requires
        m + 2 <= usize::MAX,
    ensures
        r@ == rule_line(c, m as nat),
{
    let mut r: Vec<char> = Vec::new();
    r.push(' ');
    let mut j: usize = 0;
    while j < m + 2
        invariant
            j <= m + 2,
            m + 2 <= usize::MAX,
            r@ == seq![' '] + fill(c, j as nat),
        decreases m + 2 - j,
    {
        r.push(c);
        j = j + 1;
        proof {
            assert(fill(c, j as nat) =~= fill(c, (j - 1) as nat).push(c));
            assert(seq![' '] + fill(c, j as nat) =~= (seq![' '] + fill(c, (j - 1) as nat)).push(
                c,
            ));
        }
    }
    r
}

/// Renders the bubble around `msg`: the message is wrapped to `width` (when
/// `wrap` is on), bordered in speech or thought style, padded to a uniform
/// width, and framed by the top and bottom rules.
pub fn make_bubble(msg: &str, width: usize, think: bool, wrap: bool) -> (r: Vec<char>)
    requires
        1 <= width,
        msg@.len() + 4 <= usize::MAX,
    ensures
        r@ == bubble_text(msg@, width as nat, think, wrap),
{
    let cs = chars_of(msg);
    let lines = wrap_message(&cs, width, wrap);
    let ghost ml = views(lines@);
    proof {
        assert forall|k: int| 0 <= k < ml.len() implies #[trigger] ml[k].len() <= cs@.len() by {
            if wrap {
                lemma_wrapped_le_message(cs@, width as nat, k);
            }
        }
    }
    let mut m: usize = 0;
    let mut i: usize = 0;
    while i < lines.len()
        invariant
            i <= lines@.len(),
            ml == views(lines@),
            m as nat == max_len(ml.take(i as int)),
            m <= cs@.len(),
            forall|k: int| 0 <= k < ml.len() ==> #[trigger] ml[k].len() <= cs@.len(),
        decreases lines@.len() - i,
    {
        let ll = lines[i].len();
        if ll > m {
            m = ll;
        }
        i = i + 1;
        proof {
            assert(ml.take(i as int).drop_last() =~= ml.take(i - 1));
            assert(ml.take(i as int).last() == ml[i - 1]);
            assert(ml[i - 1] == lines@[i - 1]@);
        }
    }
    proof {
        assert(ml.take(ml.len() as int) =~= ml);
        assert(m as nat == max_len(ml));
        assert forall|k: int| 0 <= k < ml.len() implies #[trigger] ml[k].len() <= m as nat by {
            lemma_max_len_ge(ml, k);
        }
    }
    let n = lines.len();
    let ghost bls = bubble_lines(ml, think);
    proof {
        assert(bls.len() == n + 2);
        assert(bls[0] == rule_line('_', m as nat));
    }
    let mut out = build_rule('_', m);
    proof {
        assert(bls.take(1) =~= seq![rule_line('_', m as nat)]);
        assert(out@ == join_lines(bls.take(1)));
    }
    let mut i: usize = 0;
    while i < n
        invariant
            i <= n,
            n == lines@.len(),
            1 <= n,
            ml == views(lines@),
            m as nat == max_len(ml),
            m + 4 <= usize::MAX,
            forall|k: int| 0 <= k < ml.len() ==> #[trigger] ml[k].len() <= m as nat,
            bls == bubble_lines(ml, think),
            out@ == join_lines(bls.take(1 + i as int)),
        decreases n - i,
    {
        proof {
            assert(ml[i as int] == lines@[i as int]@);
        }
        let boxed = build_boxed(&lines[i], m, think, i, n);
        out.push('\n');
        push_all(&mut out, &boxed);
        proof {
            assert(bls[1 + i as int] == boxed_line(ml[i as int], m as nat, think, i as int, n as int));
            assert(bls.take(2 + i as int).drop_last() =~= bls.take(1 + i as int));
            assert(bls.take(2 + i as int).last() == bls[1 + i as int]);
            assert(out@ =~= join_lines(bls.take(1 + i as int)) + seq!['\n'] + bls[1 + i as int]);
            assert(out@ == join_lines(bls.take(2 + i as int)));
        }
        i = i + 1;
    }
    let rule = build_rule('-', m);
    out.push('\n');
    push_all(&mut out, &rule);
    proof {
        assert(bls[n as int + 1] == rule_line('-', m as nat));
        assert(bls.take(n as int + 2) =~= bls);
        assert(bls.drop_last() =~= bls.take(1 + n as int));
        assert(bls.last() == bls[n as int + 1]);
        assert(out@ =~= join_lines(bls.take(1 + n as int)) + seq!['\n'] + bls[n as int + 1]);
        assert(out@ == join_lines(bls));
        assert(ml == message_lines(msg@, width as nat, wrap));
    }
    out
}

} // verus!
