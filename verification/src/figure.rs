//! The figure template engine: comment lines and everything at or past the
//! end-of-content marker are dropped, trailing whitespace is trimmed, and the
//! placeholder tokens `$eyes`, `$thoughts` and `$tongue` are replaced by the
//! supplied glyph strings while the escape pairs `\\` and `\@` become a
//! literal backslash and at-sign.
//!
//! Substitution and unescaping happen in a single left-to-right pass, so a
//! substituted glyph value is never itself re-read as a placeholder or as an
//! escape sequence.

use vstd::prelude::*;

verus! {

use crate::text::{
    chars_of,
    copy_range,
    first_occ,
    token_at,
    join_lines,
    lemma_first_occ_bounds,
    lemma_first_occ_is,
    lemma_join_concat,
    push_all,
    views,
};

/// Whitespace that end-trimming removes: the characters with the Unicode
/// White_Space property.
pub open spec fn is_ws(c: char) -> bool {
    c == ' ' || c == '\t' || c == '\n' || c == '\r' || c == '\u{000B}' || c == '\u{000C}'
        || c == '\u{0085}' || c == '\u{00A0}' || c == '\u{1680}' || c == '\u{2000}'
        || c == '\u{2001}' || c == '\u{2002}' || c == '\u{2003}' || c == '\u{2004}'
        || c == '\u{2005}' || c == '\u{2006}' || c == '\u{2007}' || c == '\u{2008}'
        || c == '\u{2009}' || c == '\u{200A}' || c == '\u{2028}' || c == '\u{2029}'
        || c == '\u{202F}' || c == '\u{205F}' || c == '\u{3000}'
}

/// `s` with its trailing whitespace removed.
pub open spec fn trim_end(s: Seq<char>) -> Seq<char>
    decreases s.len(),
{
    if s.len() == 0 {
        s
    } else if is_ws(s.last()) {
        trim_end(s.drop_last())
    } else {
        s
    }
}

/// `s` cut at every newline; the separators themselves are dropped, and a
/// trailing newline yields a final empty line.
pub open spec fn split_lines(s: Seq<char>) -> Seq<Seq<char>>
    decreases s.len(),
{
    proof {
        lemma_first_occ_bounds(s, '\n');
    }
    let i = first_occ(s, '\n') as int;
    if i == s.len() {
        seq![s]
    } else {
        seq![s.take(i)] + split_lines(s.skip(i + 1))
    }
}

/// The end-of-content marker token.
pub open spec fn marker() -> Seq<char> {
    seq!['E', 'O', 'C']
}

/// Whether the line opens with the comment prefix.
pub open spec fn starts_comment(l: Seq<char>) -> bool {
    l.len() >= 2 && l[0] == '#' && l[1] == '#'
}

/// Whether the line holds the end-of-content marker anywhere.
pub open spec fn has_marker(l: Seq<char>) -> bool {
    exists|i: int| 0 <= i && i + 3 <= l.len() && (#[trigger] l.subrange(i, i + 3)) == marker()
}

/// Whether a line is plain body text: neither a comment line nor a line
/// holding the end-of-content marker.
pub open spec fn keeps(l: Seq<char>) -> bool {
    !starts_comment(l) && !has_marker(l)
}

/// The lines before the first end-marker line: a line holding the marker
/// terminates the figure body, and it and everything after it are discarded.
pub open spec fn before_marker(ls: Seq<Seq<char>>) -> Seq<Seq<char>>
    decreases ls.len(),
{
    if ls.len() == 0 {
        ls
    } else if has_marker(ls.first()) {
        Seq::empty()
    } else {
        seq![ls.first()] + before_marker(ls.drop_first())
    }
}

/// The body lines with comment lines dropped.
pub open spec fn comment_filter(ls: Seq<Seq<char>>) -> Seq<Seq<char>> {
    ls.filter(|l: Seq<char>| !starts_comment(l))
}

/// The lines that survive stripping, in order: the body up to the first
/// end-marker line, with comment lines dropped.
pub open spec fn keep_filter(ls: Seq<Seq<char>>) -> Seq<Seq<char>> {
    comment_filter(before_marker(ls))
}

/// The stripped template: the body up to the first end-marker line, comment
/// lines dropped, the rest rejoined with newlines, and trailing whitespace
/// trimmed from the result.
pub open spec fn stripped(s: Seq<char>) -> Seq<char> {
    trim_end(join_lines(keep_filter(split_lines(s))))
}

pub open spec fn eyes_token() -> Seq<char> {
    seq!['$', 'e', 'y', 'e', 's']
}

pub open spec fn thoughts_token() -> Seq<char> {
    seq!['$', 't', 'h', 'o', 'u', 'g', 'h', 't', 's']
}

pub open spec fn tongue_token() -> Seq<char> {
    seq!['$', 't', 'o', 'n', 'g', 'u', 'e']
}

pub open spec fn esc_backslash() -> Seq<char> {
    seq!['\\', '\\']
}

pub open spec fn esc_at() -> Seq<char> {
    seq!['\\', '@']
}

/// One left-to-right pass over the stripped template: each placeholder token
/// becomes its glyph string, each escape pair becomes its literal character,
/// and every other character is copied through. Glyph strings enter the
/// output whole and are never re-scanned.
pub open spec fn subst(t: Seq<char>, th: Seq<char>, ey: Seq<char>, tg: Seq<char>) -> Seq<char>
    decreases t.len(),
{
    if t.len() == 0 {
        t
    } else if eyes_token().is_prefix_of(t) {
        ey + subst(t.skip(5), th, ey, tg)
    } else if thoughts_token().is_prefix_of(t) {
        th + subst(t.skip(9), th, ey, tg)
    } else if tongue_token().is_prefix_of(t) {
        tg + subst(t.skip(7), th, ey, tg)
    } else if esc_backslash().is_prefix_of(t) {
        seq!['\\'] + subst(t.skip(2), th, ey, tg)
    } else if esc_at().is_prefix_of(t) {
        seq!['@'] + subst(t.skip(2), th, ey, tg)
    } else {
        seq![t[0]] + subst(t.skip(1), th, ey, tg)
    }
}

/// The rendered figure: the template stripped, then substituted.
pub open spec fn figure_text(t: Seq<char>, th: Seq<char>, ey: Seq<char>, tg: Seq<char>) -> Seq<
    char,
> {
    subst(stripped(t), th, ey, tg)
}

/// Splitting never yields an empty line list.
pub proof fn lemma_split_nonempty(t: Seq<char>)
    ensures
        split_lines(t).len() >= 1,
{
    lemma_first_occ_bounds(t, '\n');
}

/// Rejoining the split of a text gives the text back.
pub proof fn lemma_join_split(t: Seq<char>)
    ensures
        join_lines(split_lines(t)) == t,
    decreases t.len(),
{
    lemma_first_occ_bounds(t, '\n');
    let i = first_occ(t, '\n') as int;
    if i < t.len() {
        lemma_join_split(t.skip(i + 1));
        lemma_split_nonempty(t.skip(i + 1));
        lemma_join_concat(seq![t.take(i)], split_lines(t.skip(i + 1)));
        assert(join_lines(seq![t.take(i)]) == t.take(i));
        assert(t.take(i) + seq!['\n'] + t.skip(i + 1) =~= t);
    }
}

/// Truncation stops exactly at the first marker line: a scan that saw no
/// marker in the first `k` lines and a marker at line `k` (or ran out) has
/// found the body.
pub proof fn lemma_before_marker_prefix(ls: Seq<Seq<char>>, k: int)
    requires
        0 <= k <= ls.len(),
        forall|m: int| 0 <= m < k ==> !has_marker(#[trigger] ls[m]),
        k < ls.len() ==> has_marker(ls[k]),
    ensures
        before_marker(ls) == ls.take(k),
    decreases ls.len(),
{
    if ls.len() == 0 {
        assert(ls.take(k) =~= ls);
    } else if k == 0 {
        assert(ls.take(0) =~= Seq::<Seq<char>>::empty());
    } else {
        let t = ls.drop_first();
        assert(!has_marker(ls[0]));
        assert forall|m: int| 0 <= m < k - 1 implies !has_marker(#[trigger] t[m]) by {
            assert(t[m] == ls[m + 1]);
        }
        if k - 1 < t.len() {
            assert(t[k - 1] == ls[k]);
        }
        lemma_before_marker_prefix(t, k - 1);
        assert(seq![ls.first()] + t.take(k - 1) =~= ls.take(k));
    }
}

/// A line list with no comment line is left whole by the comment filter.
pub proof fn lemma_comment_filter_all(ls: Seq<Seq<char>>)
    requires
        forall|i: int| 0 <= i < ls.len() ==> !starts_comment(#[trigger] ls[i]),
    ensures
        comment_filter(ls) == ls,
    decreases ls.len(),
{
    reveal(Seq::filter);
    if ls.len() > 0 {
        assert forall|i: int| 0 <= i < ls.drop_last().len() implies !starts_comment(
            #[trigger] ls.drop_last()[i],
        ) by {
            assert(ls.drop_last()[i] == ls[i]);
        }
        lemma_comment_filter_all(ls.drop_last());
        assert(!starts_comment(ls.last()));
        assert(comment_filter(ls) == comment_filter(ls.drop_last()).push(ls.last()));
        assert(ls.drop_last().push(ls.last()) =~= ls);
    }
}

/// Whether a template is already stripped: none of its lines opens with the
/// comment prefix or holds the end-of-content marker.
pub open spec fn fully_stripped(t: Seq<char>) -> bool {
    forall|i: int| 0 <= i < split_lines(t).len() ==> keeps(#[trigger] split_lines(t)[i])
}

/// Idempotence of stripping: an already-stripped template — no comment
/// lines, no end-marker lines, no trailing whitespace — passes the stripping
/// stage unchanged, so reformatting it yields exactly its substitution, the
/// same output the first pass produced.
pub proof fn lemma_strip_idempotent(t: Seq<char>, th: Seq<char>, ey: Seq<char>, tg: Seq<char>)
    requires
        fully_stripped(t),
        trim_end(t) == t,
    ensures
        stripped(t) == t,
        figure_text(t, th, ey, tg) == subst(t, th, ey, tg),
{
    let ls = split_lines(t);
    lemma_before_marker_prefix(ls, ls.len() as int);
    assert(ls.take(ls.len() as int) =~= ls);
    lemma_comment_filter_all(ls);
    lemma_join_split(t);
}

/// Glyph strings are substituted verbatim: a template that is exactly one
/// placeholder renders to exactly the supplied glyph, whatever backslashes
/// or at-signs the glyph itself holds, and each escape pair renders to its
/// single literal character.
pub proof fn lemma_glyph_verbatim(th: Seq<char>, ey: Seq<char>, tg: Seq<char>)
    ensures
        subst(eyes_token(), th, ey, tg) == ey,
        subst(thoughts_token(), th, ey, tg) == th,
        subst(tongue_token(), th, ey, tg) == tg,
        subst(esc_backslash(), th, ey, tg) == seq!['\\'],
        subst(esc_at(), th, ey, tg) == seq!['@'],
{
    assert(eyes_token().is_prefix_of(eyes_token())) by {
        assert(eyes_token().subrange(0, 5) =~= eyes_token());
    }
    assert(eyes_token().skip(5) =~= Seq::<char>::empty());
    assert(ey + subst(eyes_token().skip(5), th, ey, tg) =~= ey);

    assert(!eyes_token().is_prefix_of(thoughts_token())) by {
        if eyes_token().is_prefix_of(thoughts_token()) {
            assert(eyes_token()[1] == thoughts_token().subrange(0, 5)[1]);
            assert(false);
        }
    }
    assert(thoughts_token().is_prefix_of(thoughts_token())) by {
        assert(thoughts_token().subrange(0, 9) =~= thoughts_token());
    }
    assert(thoughts_token().skip(9) =~= Seq::<char>::empty());
    assert(th + subst(thoughts_token().skip(9), th, ey, tg) =~= th);

    assert(!eyes_token().is_prefix_of(tongue_token())) by {
        if eyes_token().is_prefix_of(tongue_token()) {
            assert(eyes_token()[1] == tongue_token().subrange(0, 5)[1]);
            assert(false);
        }
    }
    assert(!thoughts_token().is_prefix_of(tongue_token()));
    assert(tongue_token().is_prefix_of(tongue_token())) by {
        assert(tongue_token().subrange(0, 7) =~= tongue_token());
    }
    assert(tongue_token().skip(7) =~= Seq::<char>::empty());
    assert(tg + subst(tongue_token().skip(7), th, ey, tg) =~= tg);

    assert(esc_backslash().is_prefix_of(esc_backslash())) by {
        assert(esc_backslash().subrange(0, 2) =~= esc_backslash());
    }
    assert(esc_backslash().skip(2) =~= Seq::<char>::empty());
    assert(seq!['\\'] + subst(esc_backslash().skip(2), th, ey, tg) =~= seq!['\\']);

    assert(!esc_backslash().is_prefix_of(esc_at())) by {
        if esc_backslash().is_prefix_of(esc_at()) {
            assert(esc_backslash()[1] == esc_at().subrange(0, 2)[1]);
            assert(false);
        }
    }
    assert(esc_at().is_prefix_of(esc_at())) by {
        assert(esc_at().subrange(0, 2) =~= esc_at());
    }
    assert(esc_at().skip(2) =~= Seq::<char>::empty());
    assert(seq!['@'] + subst(esc_at().skip(2), th, ey, tg) =~= seq!['@']);
}

fn is_ws_char(c: char) -> (b: bool)
    ensures
        b == is_ws(c),
{
    c == ' ' || c == '\t' || c == '\n' || c == '\r' || c == '\u{000B}' || c == '\u{000C}'
        || c == '\u{0085}' || c == '\u{00A0}' || c == '\u{1680}' || c == '\u{2000}'
        || c == '\u{2001}' || c == '\u{2002}' || c == '\u{2003}' || c == '\u{2004}'
        || c == '\u{2005}' || c == '\u{2006}' || c == '\u{2007}' || c == '\u{2008}'
        || c == '\u{2009}' || c == '\u{200A}' || c == '\u{2028}' || c == '\u{2029}'
        || c == '\u{202F}' || c == '\u{205F}' || c == '\u{3000}'
}

/// Splits the template text at newlines.
fn split_into_lines(cs: &Vec<char>) -> (lines: Vec<Vec<char>>)
    ensures
        views(lines@) == split_lines(cs@),
{
    let mut lines: Vec<Vec<char>> = Vec::new();
    let mut pos: usize = 0;
    proof {
        assert(cs@.len() == cs.len());
        assert(views(lines@) =~= Seq::<Seq<char>>::empty());
        assert(cs@.skip(0) =~= cs@);
        assert(views(lines@) + split_lines(cs@) =~= split_lines(cs@));
    }
    loop
        invariant_except_break
            pos <= cs@.len(),
            cs@.len() <= usize::MAX,
            split_lines(cs@) == views(lines@) + split_lines(cs@.skip(pos as int)),
        ensures
            views(lines@) == split_lines(cs@),
        decreases cs@.len() - pos,
    {
        let mut j: usize = pos;
        while j < cs.len() && cs[j] != '\n'
            invariant
                pos <= j <= cs@.len(),
                cs@.len() <= usize::MAX,
                forall|m: int| pos <= m < j ==> cs@[m] != '\n',
            decreases cs@.len() - j,
        {
            j = j + 1;
        }
        let ghost s1 = cs@.skip(pos as int);
        let ghost k = (j - pos) as nat;
        proof {
            assert forall|m: int| 0 <= m < k implies s1[m] != '\n' by {
                assert(s1[m] == cs@[pos + m]);
            }
            if j < cs.len() {
                assert(s1[k as int] == cs@[j as int]);
            }
            lemma_first_occ_is(s1, '\n', k);
        }
        let line = copy_range(cs, pos, j);
        let ghost prev = views(lines@);
        lines.push(line);
        proof {
            assert(views(lines@) =~= prev.push(line@));
        }
        if j == cs.len() {
            proof {
                assert(line@ =~= s1);
                assert(split_lines(s1) == seq![s1]);
                assert(prev + seq![s1] =~= prev.push(s1));
            }
            break ;
        }
        pos = j + 1;
        proof {
            assert(split_lines(s1) == seq![s1.take(k as int)] + split_lines(s1.skip(k as int + 1)));
            assert(s1.take(k as int) =~= line@);
            assert(s1.skip(k as int + 1) =~= cs@.skip(pos as int));
            assert(prev + (seq![line@] + split_lines(cs@.skip(pos as int))) =~= prev.push(line@)
                + split_lines(cs@.skip(pos as int)));
        }
    }
    lines
}

/// Whether the line opens with the comment prefix.
fn starts_comment_exec(l: &Vec<char>) -> (b: bool)
    ensures
        b == starts_comment(l@),
{
    l.len() >= 2 && l[0] == '#' && l[1] == '#'
}

/// Whether the line holds the end-of-content marker anywhere.
fn has_marker_exec(l: &Vec<char>) -> (b: bool)
    ensures
        b == has_marker(l@),
{
    if l.len() < 3 {
        proof {
            if has_marker(l@) {
                let w = choose|w: int| 0 <= w && w + 3 <= l@.len() && (#[trigger] l@.subrange(w, w + 3))
                    == marker();
                assert(false);
            }
        }
        return false;
    }
    let mut i: usize = 0;
    while i <= l.len() - 3
        invariant
            3 <= l@.len() <= usize::MAX,
            i <= l@.len(),
            forall|m: int| 0 <= m < i ==> (#[trigger] l@.subrange(m, m + 3)) != marker(),
        decreases l@.len() - i,
    {
        if l[i] == 'E' && l[i + 1] == 'O' && l[i + 2] == 'C' {
            proof {
                assert(l@.subrange(i as int, i as int + 3) =~= marker());
            }
            return true;
        }
        proof {
            if l@.subrange(i as int, i as int + 3) == marker() {
                assert(l@[i as int] == l@.subrange(i as int, i as int + 3)[0]);
                assert(l@[i as int + 1] == l@.subrange(i as int, i as int + 3)[1]);
                assert(l@[i as int + 2] == l@.subrange(i as int, i as int + 3)[2]);
                assert(false);
            }
        }
        i = i + 1;
    }
    proof {
        if has_marker(l@) {
            let w = choose|w: int| 0 <= w && w + 3 <= l@.len() && (#[trigger] l@.subrange(w, w + 3))
                == marker();
            assert(w < i);
            assert(false);
        }
    }
    false
}

/// Keeps the lines that survive stripping, in order: stops at the first
/// end-marker line and drops comment lines.
fn filter_kept(lines: &Vec<Vec<char>>) -> (kept: Vec<Vec<char>>)
    ensures
        views(kept@) == keep_filter(views(lines@)),
{
    let ghost lv = views(lines@);
    let mut kept: Vec<Vec<char>> = Vec::new();
    let mut i: usize = 0;
    proof {
        reveal(Seq::filter);
        assert(lv.take(0) =~= Seq::<Seq<char>>::empty());
        assert(views(kept@) =~= comment_filter(lv.take(0)));
    }
    loop
        invariant_except_break
            i <= lv.len(),
            lv == views(lines@),
            forall|m: int| 0 <= m < i ==> !has_marker(#[trigger] lv[m]),
            views(kept@) == comment_filter(lv.take(i as int)),
        ensures
            views(kept@) == keep_filter(views(lines@)),
        decreases lv.len() - i,
    {
        if i == lines.len() {
            proof {
                lemma_before_marker_prefix(lv, i as int);
                assert(lv.take(i as int) =~= lv);
            }
            break ;
        }
        let marked = has_marker_exec(&lines[i]);
        if marked {
            proof {
                lemma_before_marker_prefix(lv, i as int);
            }
            break ;
        }
        let commented = starts_comment_exec(&lines[i]);
        if !commented {
            let ghost prev = views(kept@);
            let c = copy_range(&lines[i], 0, lines[i].len());
            proof {
                assert(c@ =~= lv[i as int]);
            }
            kept.push(c);
            proof {
                assert(views(kept@) =~= prev.push(lv[i as int]));
            }
        }
        i = i + 1;
        proof {
            reveal(Seq::filter);
            assert(lv.take(i as int).drop_last() =~= lv.take(i - 1));
            assert(lv.take(i as int).last() == lv[i - 1]);
            assert(lv[i - 1] == lines@[i - 1]@);
            if !starts_comment(lv[i - 1]) {
                assert(comment_filter(lv.take(i as int)) == comment_filter(lv.take(i - 1)).push(
                    lv[i - 1],
                ));
            } else {
                assert(comment_filter(lv.take(i as int)) == comment_filter(lv.take(i - 1)));
            }
        }
    }
    kept
}

/// Joins lines with single newlines.
fn join_with_newlines(lines: &Vec<Vec<char>>) -> (r: Vec<char>)
    ensures
        r@ == join_lines(views(lines@)),
{
    let mut r: Vec<char> = Vec::new();
    let mut i: usize = 0;
    while i < lines.len()
        invariant
            i <= lines@.len(),
            r@ == join_lines(views(lines@).take(i as int)),
        decreases lines@.len() - i,
    {
        if i > 0 {
            r.push('\n');
        }
        push_all(&mut r, &lines[i]);
        i = i + 1;
        proof {
            let lv = views(lines@);
            assert(lv.take(i as int).drop_last() =~= lv.take(i - 1));
            assert(lv.take(i as int).last() == lv[i - 1]);
            assert(lv[i - 1] == lines@[i - 1]@);
            if i == 1 {
                assert(r@ =~= lv[0]);
            } else {
                assert(r@ =~= join_lines(lv.take(i - 1)) + seq!['\n'] + lv[i - 1]);
            }
        }
    }
    proof {
        assert(views(lines@).take(lines@.len() as int) =~= views(lines@));
    }
    r
}

/// Removes trailing whitespace.
fn trim_trailing(v: &Vec<char>) -> (r: Vec<char>)
    ensures
        r@ == trim_end(v@),
{
    let mut e: usize = v.len();
    proof {
        assert(v@.take(v@.len() as int) =~= v@);
    }
    while e > 0 && is_ws_char(v[e - 1])
        invariant
            e <= v@.len(),
            trim_end(v@) == trim_end(v@.take(e as int)),
        decreases e,
    {
        proof {
            assert(v@.take(e as int).last() == v@[e - 1]);
            assert(v@.take(e as int).drop_last() =~= v@.take(e - 1));
        }
        e = e - 1;
    }
    proof {
        if e > 0 {
            assert(v@.take(e as int).last() == v@[e - 1]);
            assert(trim_end(v@.take(e as int)) == v@.take(e as int));
        }
    }
    copy_range(v, 0, e)
}

/// Runs the single substitution-and-unescape pass.
fn substitute(t: &Vec<char>, th: &Vec<char>, ey: &Vec<char>, tg: &Vec<char>) -> (r: Vec<char>)
    ensures
        r@ == subst(t@, th@, ey@, tg@),
{
    let p_eyes = chars_of("$eyes");
    let p_thoughts = chars_of("$thoughts");
    let p_tongue = chars_of("$tongue");
    proof {
        reveal_strlit("$eyes");
        reveal_strlit("$thoughts");
        reveal_strlit("$tongue");
        assert(p_eyes@ =~= eyes_token());
        assert(p_thoughts@ =~= thoughts_token());
        assert(p_tongue@ =~= tongue_token());
    }
    let mut p_bs: Vec<char> = Vec::new();
    p_bs.push('\\');
    p_bs.push('\\');
    let mut p_at: Vec<char> = Vec::new();
    p_at.push('\\');
    p_at.push('@');
    proof {
        assert(p_bs@ =~= esc_backslash());
        assert(p_at@ =~= esc_at());
    }
    let mut out: Vec<char> = Vec::new();
    let mut pos: usize = 0;
    proof {
        assert(t@.skip(0) =~= t@);
        assert(out@ + subst(t@, th@, ey@, tg@) =~= subst(t@, th@, ey@, tg@));
    }
    while pos < t.len()
        invariant
            pos <= t@.len(),
            subst(t@, th@, ey@, tg@) == out@ + subst(t@.skip(pos as int), th@, ey@, tg@),
            p_eyes@ == eyes_token(),
            p_thoughts@ == thoughts_token(),
            p_tongue@ == tongue_token(),
            p_bs@ == esc_backslash(),
            p_at@ == esc_at(),
        decreases t@.len() - pos,
    {
        let ghost s1 = t@.skip(pos as int);
        let ghost prev = out@;
        if token_at(t, pos, &p_eyes) {
            push_all(&mut out, ey);
            pos = pos + 5;
            proof {
                assert(subst(s1, th@, ey@, tg@) == ey@ + subst(s1.skip(5), th@, ey@, tg@));
                assert(s1.skip(5) =~= t@.skip(pos as int));
                assert(prev + (ey@ + subst(t@.skip(pos as int), th@, ey@, tg@)) =~= (prev + ey@)
                    + subst(t@.skip(pos as int), th@, ey@, tg@));
            }
        } else if token_at(t, pos, &p_thoughts) {
            push_all(&mut out, th);
            pos = pos + 9;
            proof {
                assert(subst(s1, th@, ey@, tg@) == th@ + subst(s1.skip(9), th@, ey@, tg@));
                assert(s1.skip(9) =~= t@.skip(pos as int));
                assert(prev + (th@ + subst(t@.skip(pos as int), th@, ey@, tg@)) =~= (prev + th@)
                    + subst(t@.skip(pos as int), th@, ey@, tg@));
            }
        } else if token_at(t, pos, &p_tongue) {
            push_all(&mut out, tg);
            pos = pos + 7;
            proof {
                assert(subst(s1, th@, ey@, tg@) == tg@ + subst(s1.skip(7), th@, ey@, tg@));
                assert(s1.skip(7) =~= t@.skip(pos as int));
                assert(prev + (tg@ + subst(t@.skip(pos as int), th@, ey@, tg@)) =~= (prev + tg@)
                    + subst(t@.skip(pos as int), th@, ey@, tg@));
            }
        } else if token_at(t, pos, &p_bs) {
            out.push('\\');
            pos = pos + 2;
            proof {
                assert(subst(s1, th@, ey@, tg@) == seq!['\\'] + subst(s1.skip(2), th@, ey@, tg@));
                assert(s1.skip(2) =~= t@.skip(pos as int));
                assert(prev + (seq!['\\'] + subst(t@.skip(pos as int), th@, ey@, tg@))
                    =~= prev.push('\\') + subst(t@.skip(pos as int), th@, ey@, tg@));
            }
        } else if token_at(t, pos, &p_at) {
            out.push('@');
            pos = pos + 2;
            proof {
                assert(subst(s1, th@, ey@, tg@) == seq!['@'] + subst(s1.skip(2), th@, ey@, tg@));
                assert(s1.skip(2) =~= t@.skip(pos as int));
                assert(prev + (seq!['@'] + subst(t@.skip(pos as int), th@, ey@, tg@))
                    =~= prev.push('@') + subst(t@.skip(pos as int), th@, ey@, tg@));
            }
        } else {
            let c = t[pos];
            out.push(c);
            pos = pos + 1;
            proof {
                assert(s1[0] == c);
                assert(subst(s1, th@, ey@, tg@) == seq![c] + subst(s1.skip(1), th@, ey@, tg@));
                assert(s1.skip(1) =~= t@.skip(pos as int));
                assert(prev + (seq![c] + subst(t@.skip(pos as int), th@, ey@, tg@)) =~= prev.push(
                    c,
                ) + subst(t@.skip(pos as int), th@, ey@, tg@));
            }
        }
    }
    proof {
        assert(t@.skip(pos as int) =~= Seq::<char>::empty());
        assert(subst(t@.skip(pos as int), th@, ey@, tg@) == Seq::<char>::empty());
        assert(out@ + Seq::<char>::empty() =~= out@);
    }
    out
}

/// Renders the figure: strips comment and marker lines from the template,
/// trims trailing whitespace, and substitutes the thought-link, eye and
/// tongue glyphs while unescaping the template's escape pairs.
pub fn format_animal(template: &str, thoughts: &str, eyes: &str, tongue: &str) -> (r: Vec<char>)
    ensures
        r@ == figure_text(template@, thoughts@, eyes@, tongue@),
{
    let cs = chars_of(template);
    let lines = split_into_lines(&cs);
    let kept = filter_kept(&lines);
    let joined = join_with_newlines(&kept);
    let trimmed = trim_trailing(&joined);
    let th = chars_of(thoughts);
    let ey = chars_of(eyes);
    let tg = chars_of(tongue);
    substitute(&trimmed, &th, &ey, &tg)
}

} // verus!
