//! Node label text: HTML and DOT escaping, and greedy word wrapping.

use vstd::prelude::*;

use crate::text::{char_vecs, extend_chars, extend_str, is_whitespace, is_ws, starts_with};

verus! {

/// Wrap threshold: graphviz never wraps labels itself, so lines longer
/// than this many chars break at word boundaries server-side.
pub const WRAP_COLS: usize = 30;

/// HTML escaping of one character (text and attribute values).
pub open spec fn html_escape_char(c: char) -> Seq<char> {
    if c == '&' {
        "&amp;"@
    } else if c == '<' {
        "&lt;"@
    } else if c == '>' {
        "&gt;"@
    } else if c == '"' {
        "&quot;"@
    } else {
        seq![c]
    }
}

/// Escape for HTML text and attribute values: `&`, `<`, `>` and `"`
/// become entities, everything else stays.
pub open spec fn html_escape(s: Seq<char>) -> Seq<char>
    decreases s.len(),
{
    if s.len() == 0 {
        Seq::<char>::empty()
    } else {
        html_escape(s.drop_last()) + html_escape_char(s.last())
    }
}

/// Escaping of one character of a DOT double-quoted label that travels
/// inside a `<pre>` block: backslash and quote are backslash-escaped for
/// DOT, `&`, `<`, `>` become HTML entities.
pub open spec fn dot_escape_char(c: char) -> Seq<char> {
    if c == '\\' {
        "\\\\"@
    } else if c == '"' {
        "\\\""@
    } else if c == '&' {
        "&amp;"@
    } else if c == '<' {
        "&lt;"@
    } else if c == '>' {
        "&gt;"@
    } else {
        seq![c]
    }
}

pub open spec fn dot_escape(s: Seq<char>) -> Seq<char>
    decreases s.len(),
{
    if s.len() == 0 {
        Seq::<char>::empty()
    } else {
        dot_escape(s.drop_last()) + dot_escape_char(s.last())
    }
}

/// Scanning state while splitting at whitespace: finished words and the
/// word in progress.
pub open spec fn words_state(s: Seq<char>) -> (Seq<Seq<char>>, Seq<char>)
    decreases s.len(),
{
    if s.len() == 0 {
        (Seq::<Seq<char>>::empty(), Seq::<char>::empty())
    } else {
        let (done, cur) = words_state(s.drop_last());
        if is_ws(s.last()) {
            if cur.len() > 0 {
                (done.push(cur), Seq::<char>::empty())
            } else {
                (done, cur)
            }
        } else {
            (done, cur.push(s.last()))
        }
    }
}

/// The maximal runs of non-whitespace characters of `s`, in order
/// (`str::split_whitespace`).
pub open spec fn words(s: Seq<char>) -> Seq<Seq<char>> {
    let (done, cur) = words_state(s);
    if cur.len() > 0 {
        done.push(cur)
    } else {
        done
    }
}

/// Greedy wrapping state after placing the given words: finished lines
/// and the line in progress. A word goes on the current line, after one
/// space, unless the line is non-empty and the word would push it past
/// `cols` characters; then it starts a new line.
pub open spec fn wrap_state(ws: Seq<Seq<char>>, cols: nat) -> (Seq<Seq<char>>, Seq<char>)
    decreases ws.len(),
{
    if ws.len() == 0 {
        (Seq::<Seq<char>>::empty(), Seq::<char>::empty())
    } else {
        let (lines, line) = wrap_state(ws.drop_last(), cols);
        let w = ws.last();
        if line.len() > 0 && line.len() + 1 + w.len() > cols {
            (lines.push(line), w)
        } else if line.len() > 0 {
            (lines, line.push(' ') + w)
        } else {
            (lines, line + w)
        }
    }
}

/// Greedy word wrap at `cols` characters. Words longer than a whole
/// line stand alone unbroken; runs of whitespace collapse to one space;
/// there is always at least one line.
pub open spec fn wrap_lines(s: Seq<char>, cols: nat) -> Seq<Seq<char>> {
    let (lines, line) = wrap_state(words(s), cols);
    if line.len() > 0 || lines.len() == 0 {
        lines.push(line)
    } else {
        lines
    }
}

/// `parts` joined with `sep` between consecutive parts.
pub open spec fn join_with(parts: Seq<Seq<char>>, sep: Seq<char>) -> Seq<char>
    decreases parts.len(),
{
    if parts.len() == 0 {
        Seq::<char>::empty()
    } else if parts.len() == 1 {
        parts[0]
    } else {
        join_with(parts.drop_last(), sep) + sep + parts.last()
    }
}

/// Each line DOT-escaped.
pub open spec fn dot_lines(lines: Seq<Seq<char>>) -> Seq<Seq<char>>
    decreases lines.len(),
{
    if lines.len() == 0 {
        Seq::<Seq<char>>::empty()
    } else {
        dot_lines(lines.drop_last()).push(dot_escape(lines.last()))
    }
}

/// Each line HTML-escaped.
pub open spec fn html_lines(lines: Seq<Seq<char>>) -> Seq<Seq<char>>
    decreases lines.len(),
{
    if lines.len() == 0 {
        Seq::<Seq<char>>::empty()
    } else {
        html_lines(lines.drop_last()).push(html_escape(lines.last()))
    }
}

/// A DOT double-quoted label inside a `<pre>` block: wrapped first, on
/// the raw text, then each line escaped, lines joined by a literal `\n`
/// (backslash, `n`), the DOT newline escape.
pub open spec fn dot_label(s: Seq<char>) -> Seq<char> {
    join_with(dot_lines(wrap_lines(s, WRAP_COLS as nat)), "\\n"@)
}

/// HTML escaping leaves no `<`, `>` or `"` in the text, so escaped
/// content can neither open a tag nor close an attribute value.
pub proof fn law_html_escape_has_no_markup(s: Seq<char>)
    ensures
        !html_escape(s).contains('<'),
        !html_escape(s).contains('>'),
        !html_escape(s).contains('"'),
    decreases s.len(),
{
    if s.len() > 0 {
        law_html_escape_has_no_markup(s.drop_last());
        reveal_strlit("&amp;");
        reveal_strlit("&lt;");
        reveal_strlit("&gt;");
        reveal_strlit("&quot;");
        let a = html_escape(s.drop_last());
        let b = html_escape_char(s.last());
        assert(!b.contains('<') && !b.contains('>') && !b.contains('"')) by {
            if b.contains('<') || b.contains('>') || b.contains('"') {
                let k = choose|k: int| 0 <= k < b.len() && (b[k] == '<' || b[k] == '>' || b[k] == '"');
            }
        }
        assert forall|c: char| (c == '<' || c == '>' || c == '"') implies !(a + b).contains(c) by {
            if (a + b).contains(c) {
                let k = choose|k: int| 0 <= k < (a + b).len() && (a + b)[k] == c;
                if k < a.len() {
                    assert(a[k] == c);
                } else {
                    assert(b[k - a.len()] == c);
                }
            }
        }
    }
}

proof fn lemma_words_nonempty(s: Seq<char>)
    ensures
        forall|k: int| 0 <= k < words(s).len() ==> #[trigger] words(s)[k].len() > 0,
        forall|k: int| 0 <= k < words_state(s).0.len() ==> #[trigger] words_state(s).0[k].len() > 0,
    decreases s.len(),
{
    if s.len() > 0 {
        lemma_words_nonempty(s.drop_last());
        let (done, cur) = words_state(s.drop_last());
        let (done2, cur2) = words_state(s);
        assert forall|k: int| 0 <= k < done2.len() implies #[trigger] done2[k].len() > 0 by {
            if k < done.len() {
                assert(done2[k] == done[k]);
            }
        }
    }
    let (d, c) = words_state(s);
    assert forall|k: int| 0 <= k < words(s).len() implies #[trigger] words(s)[k].len() > 0 by {
        if k < d.len() {
            assert(words(s)[k] == d[k]);
        }
    }
}

proof fn lemma_contains_prefix<A>(ws: Seq<A>, x: A)
    requires
        ws.len() > 0,
        ws.drop_last().contains(x),
    ensures
        ws.contains(x),
{
    let i = choose|i: int| 0 <= i < ws.drop_last().len() && ws.drop_last()[i] == x;
    assert(ws[i] == x);
}

/// Each line of the wrapping state fits, or is one of the words.
proof fn lemma_wrap_state_fits(ws: Seq<Seq<char>>, cols: nat)
    ensures
        forall|k: int|
            0 <= k < wrap_state(ws, cols).0.len() ==> #[trigger] wrap_state(ws, cols).0[k].len() <= cols
                || ws.contains(wrap_state(ws, cols).0[k]),
        wrap_state(ws, cols).1.len() <= cols || ws.contains(wrap_state(ws, cols).1),
    decreases ws.len(),
{
    if ws.len() > 0 {
        let prev = ws.drop_last();
        lemma_wrap_state_fits(prev, cols);
        let (lines, line) = wrap_state(prev, cols);
        let (lines2, line2) = wrap_state(ws, cols);
        let w = ws.last();
        assert(ws.contains(w)) by {
            assert(ws[ws.len() - 1] == w);
        }
        assert forall|k: int| 0 <= k < lines2.len() implies #[trigger] lines2[k].len() <= cols || ws.contains(
            lines2[k],
        ) by {
            if k < lines.len() {
                assert(lines2[k] == lines[k]);
                if !(lines[k].len() <= cols) {
                    lemma_contains_prefix(ws, lines[k]);
                }
            } else {
                assert(lines2[k] == line);
                if !(line.len() <= cols) {
                    lemma_contains_prefix(ws, line);
                }
            }
        }
    }
}

/// The words of the wrapping state, joined by single spaces, are the
/// words placed so far.
proof fn lemma_wrap_state_words(ws: Seq<Seq<char>>, cols: nat)
    requires
        forall|k: int| 0 <= k < ws.len() ==> #[trigger] ws[k].len() > 0,
    ensures
        ws.len() == 0 ==> wrap_state(ws, cols).0.len() == 0 && wrap_state(ws, cols).1.len() == 0,
        ws.len() > 0 ==> wrap_state(ws, cols).1.len() > 0 && join_with(
            wrap_state(ws, cols).0.push(wrap_state(ws, cols).1),
            " "@,
        ) == join_with(ws, " "@),
    decreases ws.len(),
{
    if ws.len() > 0 {
        let prev = ws.drop_last();
        lemma_wrap_state_words(prev, cols);
        let (lines, line) = wrap_state(prev, cols);
        let w = ws.last();
        assert(w.len() > 0) by {
            assert(ws[ws.len() - 1] == w);
        }
        reveal_strlit(" ");
        assert(" "@ =~= seq![' ']);
        if prev.len() == 0 {
            assert(join_with(ws, " "@) == w);
            assert(lines.push(line + w) =~= seq![w]);
        } else if line.len() > 0 && line.len() + 1 + w.len() > cols {
            let all = lines.push(line).push(w);
            assert(all.drop_last() =~= lines.push(line));
            assert(join_with(all, " "@) == join_with(lines.push(line), " "@) + " "@ + w);
        } else {
            let joined = line.push(' ') + w;
            let all = lines.push(joined);
            if lines.len() == 0 {
                assert(lines.push(line) =~= seq![line]);
                assert(all =~= seq![joined]);
                assert(joined =~= line + " "@ + w);
            } else {
                assert(all.drop_last() =~= lines);
                assert(lines.push(line).drop_last() =~= lines);
                assert(join_with(all, " "@) =~= join_with(lines, " "@) + " "@ + line + " "@ + w);
            }
        }
    }
}

/// Every wrapped line fits in `cols` characters, unless it is a single
/// word of the text that is longer than that: long words stand alone,
/// unbroken.
pub proof fn law_wrapped_lines_fit(s: Seq<char>, cols: nat)
    ensures
        forall|k: int|
            0 <= k < wrap_lines(s, cols).len() ==> #[trigger] wrap_lines(s, cols)[k].len() <= cols
                || words(s).contains(wrap_lines(s, cols)[k]),
{
    lemma_wrap_state_fits(words(s), cols);
    let (lines, line) = wrap_state(words(s), cols);
    assert forall|k: int| 0 <= k < wrap_lines(s, cols).len() implies #[trigger] wrap_lines(s, cols)[k].len()
        <= cols || words(s).contains(wrap_lines(s, cols)[k]) by {
        if k < lines.len() {
            assert(wrap_lines(s, cols)[k] == lines[k]);
        } else {
            assert(wrap_lines(s, cols)[k] == line);
        }
    }
}

proof fn lemma_wrap_state_greedy(ws: Seq<Seq<char>>, cols: nat)
    requires
        forall|k: int| 0 <= k < ws.len() ==> #[trigger] ws[k].len() > 0,
    ensures
        ({
            let (lines, line) = wrap_state(ws, cols);
            &&& forall|k: int|
                0 <= k < lines.len() - 1 ==> #[trigger] lines[k].len() + 1 + lines[k + 1].len() > cols
            &&& lines.len() > 0 ==> lines.last().len() + 1 + line.len() > cols
            &&& ws.len() > 0 ==> line.len() > 0
        }),
    decreases ws.len(),
{
    if ws.len() > 0 {
        let prev = ws.drop_last();
        assert forall|k: int| 0 <= k < prev.len() implies #[trigger] prev[k].len() > 0 by {
            assert(prev[k] == ws[k]);
        }
        lemma_wrap_state_greedy(prev, cols);
        let (lines, line) = wrap_state(prev, cols);
        let (lines2, line2) = wrap_state(ws, cols);
        let w = ws.last();
        assert(w.len() > 0) by {
            assert(ws[ws.len() - 1] == w);
        }
        assert forall|k: int| 0 <= k < lines2.len() - 1 implies #[trigger] lines2[k].len() + 1 + lines2[k + 1].len()
            > cols by {
            if k + 1 < lines.len() {
                assert(lines2[k] == lines[k] && lines2[k + 1] == lines[k + 1]);
            } else {
                assert(lines2 == lines.push(line));
                assert(lines2[k] == lines.last() && lines2[k + 1] == line);
            }
        }
    }
}

/// Wrapping is greedy: no two consecutive lines would fit together on
/// one line of `cols` characters, so no line breaks earlier than it
/// must.
pub proof fn law_wrap_is_greedy(s: Seq<char>, cols: nat)
    ensures
        forall|k: int|
            0 <= k < wrap_lines(s, cols).len() - 1 ==> #[trigger] wrap_lines(s, cols)[k].len() + 1 + wrap_lines(
                s,
                cols,
            )[k + 1].len() > cols,
{
    lemma_words_nonempty(s);
    lemma_wrap_state_greedy(words(s), cols);
    let (lines, line) = wrap_state(words(s), cols);
    if lines.len() > 0 {
        assert(words(s).len() > 0) by {
            if words(s).len() == 0 {
                assert(wrap_state(words(s), cols).0.len() == 0);
            }
        }
    }
    let wl = wrap_lines(s, cols);
    assert forall|k: int| 0 <= k < wl.len() - 1 implies #[trigger] wl[k].len() + 1 + wl[k + 1].len() > cols by {
        if k + 1 < lines.len() {
            assert(wl[k] == lines[k] && wl[k + 1] == lines[k + 1]);
        } else {
            assert(wl == lines.push(line));
            assert(wl[k] == lines.last() && wl[k + 1] == line);
        }
    }
}

/// Wrapping loses no word and adds none: the lines joined by single
/// spaces are the words of the text joined by single spaces.
pub proof fn law_wrap_keeps_words(s: Seq<char>, cols: nat)
    ensures
        join_with(wrap_lines(s, cols), " "@) == join_with(words(s), " "@),
{
    lemma_words_nonempty(s);
    lemma_wrap_state_words(words(s), cols);
    let (lines, line) = wrap_state(words(s), cols);
    if words(s).len() == 0 {
        assert(lines.push(line) =~= seq![line]);
        assert(line =~= Seq::<char>::empty());
    }
}

/// Decoding of the four entities that HTML escaping produces, left to
/// right: `&amp;`, `&lt;`, `&gt;` and `&quot;` become `&`, `<`, `>` and
/// `"`; every other character stays.
pub open spec fn html_unescape(t: Seq<char>) -> Seq<char>
    decreases t.len(),
{
    if t.len() == 0 {
        Seq::<char>::empty()
    } else if starts_with(t, seq!['&', 'a', 'm', 'p', ';']) {
        seq!['&'] + html_unescape(t.skip(5))
    } else if starts_with(t, seq!['&', 'l', 't', ';']) {
        seq!['<'] + html_unescape(t.skip(4))
    } else if starts_with(t, seq!['&', 'g', 't', ';']) {
        seq!['>'] + html_unescape(t.skip(4))
    } else if starts_with(t, seq!['&', 'q', 'u', 'o', 't', ';']) {
        seq!['"'] + html_unescape(t.skip(6))
    } else {
        seq![t[0]] + html_unescape(t.skip(1))
    }
}

/// At position `i` of `t` begins one of the four entities.
pub open spec fn entity_at(t: Seq<char>, i: int) -> bool {
    let rest = t.skip(i);
    starts_with(rest, seq!['&', 'a', 'm', 'p', ';']) || starts_with(rest, seq!['&', 'l', 't', ';']) || starts_with(rest, seq!['&', 'g', 't', ';']) || starts_with(
        rest,
        seq!['&', 'q', 'u', 'o', 't', ';'],
    )
}

proof fn lemma_entity_strings()
    ensures
        "&amp;"@ =~= seq!['&', 'a', 'm', 'p', ';'],
        "&lt;"@ =~= seq!['&', 'l', 't', ';'],
        "&gt;"@ =~= seq!['&', 'g', 't', ';'],
        "&quot;"@ =~= seq!['&', 'q', 'u', 'o', 't', ';'],
{
    reveal_strlit("&amp;");
    reveal_strlit("&lt;");
    reveal_strlit("&gt;");
    reveal_strlit("&quot;");
}

/// Escaping splits at the front as well: the first character's escape,
/// then the rest's.
proof fn lemma_html_escape_front(s: Seq<char>)
    requires
        s.len() > 0,
    ensures
        html_escape(s) == html_escape_char(s[0]) + html_escape(s.drop_first()),
    decreases s.len(),
{
    if s.len() == 1 {
        assert(s.drop_last() =~= Seq::<char>::empty());
        assert(s.drop_first() =~= Seq::<char>::empty());
        assert(html_escape(s.drop_last()) == Seq::<char>::empty());
        assert(html_escape(s.drop_first()) == Seq::<char>::empty());
        assert(s.last() == s[0]);
        assert(html_escape(s) =~= html_escape_char(s[0]) + html_escape(s.drop_first()));
    } else {
        lemma_html_escape_front(s.drop_last());
        assert(s.drop_last().drop_first() =~= s.drop_first().drop_last());
        assert(s.drop_first().last() == s.last());
        assert(html_escape(s) =~= html_escape_char(s[0]) + html_escape(s.drop_first()));
    }
}

/// Decoding one escaped character in front of any text.
proof fn lemma_unescape_char(c: char, rest: Seq<char>)
    ensures
        html_unescape(html_escape_char(c) + rest) == seq![c] + html_unescape(rest),
{
    lemma_entity_strings();
    let t = html_escape_char(c) + rest;
    let e = html_escape_char(c);
    assert(t.skip(e.len() as int) =~= rest);
    if c == '&' {
        assert(t.subrange(0, 5) =~= "&amp;"@);
    } else if c == '<' {
        assert(t.subrange(0, 4) =~= "&lt;"@);
        assert(!starts_with(t, "&amp;"@));
    } else if c == '>' {
        assert(t.subrange(0, 4) =~= "&gt;"@);
        assert(!starts_with(t, "&amp;"@));
        assert(!starts_with(t, "&lt;"@));
    } else if c == '"' {
        assert(t.subrange(0, 6) =~= "&quot;"@);
        assert(!starts_with(t, "&amp;"@));
        assert(!starts_with(t, "&lt;"@));
        assert(!starts_with(t, "&gt;"@));
    } else {
        assert(t[0] == c);
        if starts_with(t, "&amp;"@) {
            assert(t.subrange(0, 5)[0] == '&');
        }
        if starts_with(t, "&lt;"@) {
            assert(t.subrange(0, 4)[0] == '&');
        }
        if starts_with(t, "&gt;"@) {
            assert(t.subrange(0, 4)[0] == '&');
        }
        if starts_with(t, "&quot;"@) {
            assert(t.subrange(0, 6)[0] == '&');
        }
    }
}

/// Every `&` in an escaping begins one of the four entities, at the
/// front of one character's escape.
proof fn lemma_ampersands_start_entities(s: Seq<char>)
    ensures
        forall|i: int| 0 <= i < html_escape(s).len() && html_escape(s)[i] == '&' ==> #[trigger] entity_at(html_escape(s), i),
    decreases s.len(),
{
    if s.len() > 0 {
        lemma_entity_strings();
        lemma_html_escape_front(s);
        lemma_ampersands_start_entities(s.drop_first());
        let e = html_escape_char(s[0]);
        let r = html_escape(s.drop_first());
        let t = e + r;
        assert forall|i: int| 0 <= i < t.len() && t[i] == '&' implies #[trigger] entity_at(t, i) by {
            if i < e.len() {
                if s[0] == '&' || s[0] == '<' || s[0] == '>' || s[0] == '"' {
                    assert(i == 0);
                    assert(t.skip(0) =~= t);
                    assert(t.subrange(0, e.len() as int) =~= e);
                } else {
                    assert(e[i] == s[0]);
                }
            } else {
                let j = i - e.len();
                assert(r[j] == t[i]);
                assert(entity_at(r, j));
                assert(t.skip(i) =~= r.skip(j));
            }
        }
    }
}

/// Decoding an escaping gives back the text.
proof fn lemma_unescape_escape(s: Seq<char>)
    ensures
        html_unescape(html_escape(s)) == s,
    decreases s.len(),
{
    if s.len() == 0 {
    } else {
        lemma_html_escape_front(s);
        lemma_unescape_escape(s.drop_first());
        lemma_unescape_char(s[0], html_escape(s.drop_first()));
        assert(seq![s[0]] + s.drop_first() =~= s);
    }
}

/// HTML escaping loses nothing and leaves no stray `&`: every `&` of the
/// escaped text begins one of `&amp;`, `&lt;`, `&gt;`, `&quot;`, and
/// decoding those entities left to right gives back the text.
pub proof fn law_html_escape_round_trips(s: Seq<char>)
    ensures
        forall|i: int| 0 <= i < html_escape(s).len() && html_escape(s)[i] == '&' ==> #[trigger] entity_at(html_escape(s), i),
        html_unescape(html_escape(s)) == s,
{
    lemma_ampersands_start_entities(s);
    lemma_unescape_escape(s);
}

/// Decoding of a DOT label line as the client sees it, left to right:
/// `\\` and `\"` become `\` and `"`, `&amp;`, `&lt;`, `&gt;` become `&`,
/// `<`, `>`; every other character stays.
pub open spec fn dot_unescape(t: Seq<char>) -> Seq<char>
    decreases t.len(),
{
    if t.len() == 0 {
        Seq::<char>::empty()
    } else if starts_with(t, seq!['\\', '\\']) {
        seq!['\\'] + dot_unescape(t.skip(2))
    } else if starts_with(t, seq!['\\', '"']) {
        seq!['"'] + dot_unescape(t.skip(2))
    } else if starts_with(t, seq!['&', 'a', 'm', 'p', ';']) {
        seq!['&'] + dot_unescape(t.skip(5))
    } else if starts_with(t, seq!['&', 'l', 't', ';']) {
        seq!['<'] + dot_unescape(t.skip(4))
    } else if starts_with(t, seq!['&', 'g', 't', ';']) {
        seq!['>'] + dot_unescape(t.skip(4))
    } else {
        seq![t[0]] + dot_unescape(t.skip(1))
    }
}

proof fn lemma_dot_escape_front(s: Seq<char>)
    requires
        s.len() > 0,
    ensures
        dot_escape(s) == dot_escape_char(s[0]) + dot_escape(s.drop_first()),
    decreases s.len(),
{
    if s.len() == 1 {
        assert(s.drop_last() =~= Seq::<char>::empty());
        assert(s.drop_first() =~= Seq::<char>::empty());
        assert(dot_escape(s.drop_last()) == Seq::<char>::empty());
        assert(dot_escape(s.drop_first()) == Seq::<char>::empty());
        assert(s.last() == s[0]);
        assert(dot_escape(s) =~= dot_escape_char(s[0]) + dot_escape(s.drop_first()));
    } else {
        lemma_dot_escape_front(s.drop_last());
        assert(s.drop_last().drop_first() =~= s.drop_first().drop_last());
        assert(s.drop_first().last() == s.last());
        assert(dot_escape(s) =~= dot_escape_char(s[0]) + dot_escape(s.drop_first()));
    }
}

proof fn lemma_dot_unescape_char(c: char, rest: Seq<char>)
    ensures
        dot_unescape(dot_escape_char(c) + rest) == seq![c] + dot_unescape(rest),
{
    lemma_entity_strings();
    reveal_strlit("\\\\");
    reveal_strlit("\\\"");
    let t = dot_escape_char(c) + rest;
    let e = dot_escape_char(c);
    assert(t.skip(e.len() as int) =~= rest);
    if c == '\\' {
        assert(e =~= seq!['\\', '\\']);
        assert(t.subrange(0, 2) =~= seq!['\\', '\\']);
    } else if c == '"' {
        assert(e =~= seq!['\\', '"']);
        assert(t.subrange(0, 2) =~= seq!['\\', '"']);
        assert(t.subrange(0, 2)[1] != '\\');
    } else if c == '&' {
        assert(t.subrange(0, 5) =~= seq!['&', 'a', 'm', 'p', ';']);
        assert(t.subrange(0, 2)[0] != '\\');
    } else if c == '<' {
        assert(t.subrange(0, 4) =~= seq!['&', 'l', 't', ';']);
        assert(t.subrange(0, 2)[0] != '\\');
        if t.len() >= 5 {
            assert(t.subrange(0, 5)[1] != 'a');
        }
    } else if c == '>' {
        assert(t.subrange(0, 4) =~= seq!['&', 'g', 't', ';']);
        assert(t.subrange(0, 2)[0] != '\\');
        if t.len() >= 5 {
            assert(t.subrange(0, 5)[1] != 'a');
        }
        assert(t.subrange(0, 4)[1] != 'l');
    } else {
        assert(t[0] == c);
        if t.len() >= 2 {
            assert(t.subrange(0, 2)[0] == c);
        }
        if t.len() >= 4 {
            assert(t.subrange(0, 4)[0] == c);
        }
        if t.len() >= 5 {
            assert(t.subrange(0, 5)[0] == c);
        }
    }
}

/// DOT label escaping loses nothing: decoding the escapes (`\\`, `\"`)
/// and entities (`&amp;`, `&lt;`, `&gt;`) of `dot_escape(s)` left to
/// right gives back `s`.
pub proof fn law_dot_escape_round_trips(s: Seq<char>)
    ensures
        dot_unescape(dot_escape(s)) == s,
    decreases s.len(),
{
    if s.len() > 0 {
        lemma_dot_escape_front(s);
        law_dot_escape_round_trips(s.drop_first());
        lemma_dot_unescape_char(s[0], dot_escape(s.drop_first()));
        assert(seq![s[0]] + s.drop_first() =~= s);
    }
}

/// Appends the HTML escaping of `s` to `out`.
pub fn push_html_escaped(out: &mut Vec<char>, s: &[char])
    ensures
        final(out)@ == old(out)@ + html_escape(s@),
{
    let mut i: usize = 0;
    while i < s.len()
        invariant
            i <= s@.len(),
            out@ == old(out)@ + html_escape(s@.take(i as int)),
        decreases s@.len() - i,
    {
        let c = s[i];
        let ghost before = out@;
        if c == '&' {
            extend_str(out, "&amp;");
        } else if c == '<' {
            extend_str(out, "&lt;");
        } else if c == '>' {
            extend_str(out, "&gt;");
        } else if c == '"' {
            extend_str(out, "&quot;");
        } else {
            out.push(c);
            assert(out@ == before + seq![c]);
        }
        assert(s@.take(i + 1).drop_last() == s@.take(i as int));
        assert(out@ == before + html_escape_char(c));
        i = i + 1;
    }
    assert(s@.take(s@.len() as int) == s@);
}

/// Appends the DOT label escaping of `s` to `out`.
pub fn push_dot_escaped(out: &mut Vec<char>, s: &[char])
    ensures
        final(out)@ == old(out)@ + dot_escape(s@),
{
    let mut i: usize = 0;
    while i < s.len()
        invariant
            i <= s@.len(),
            out@ == old(out)@ + dot_escape(s@.take(i as int)),
        decreases s@.len() - i,
    {
        let c = s[i];
        let ghost before = out@;
        if c == '\\' {
            extend_str(out, "\\\\");
        } else if c == '"' {
            extend_str(out, "\\\"");
        } else if c == '&' {
            extend_str(out, "&amp;");
        } else if c == '<' {
            extend_str(out, "&lt;");
        } else if c == '>' {
            extend_str(out, "&gt;");
        } else {
            out.push(c);
            assert(out@ == before + seq![c]);
        }
        assert(s@.take(i + 1).drop_last() == s@.take(i as int));
        assert(out@ == before + dot_escape_char(c));
        i = i + 1;
    }
    assert(s@.take(s@.len() as int) == s@);
}

/// The whitespace-separated words of `s`.
pub fn split_words(s: &[char]) -> (r: Vec<Vec<char>>)
    ensures
        char_vecs(r@) == words(s@),
{
    let mut done: Vec<Vec<char>> = Vec::new();
    let mut cur: Vec<char> = Vec::new();
    let mut i: usize = 0;
    assert(s@.take(0) =~= Seq::<char>::empty());
    while i < s.len()
        invariant
            i <= s@.len(),
            (char_vecs(done@), cur@) == words_state(s@.take(i as int)),
        decreases s@.len() - i,
    {
        let c = s[i];
        assert(s@.take(i + 1).drop_last() == s@.take(i as int));
        assert(s@.take(i + 1).last() == c);
        let ghost d0 = char_vecs(done@);
        if is_whitespace(c) {
            if cur.len() > 0 {
                let mut w: Vec<char> = Vec::new();
                std::mem::swap(&mut w, &mut cur);
                done.push(w);
                assert(char_vecs(done@) =~= d0.push(done@.last()@));
            }
        } else {
            cur.push(c);
        }
        i = i + 1;
    }
    assert(s@.take(s@.len() as int) == s@);
    if cur.len() > 0 {
        let ghost d0 = char_vecs(done@);
        done.push(cur);
        assert(char_vecs(done@) =~= d0.push(done@.last()@));
    }
    done
}

/// Greedy word wrap at `cols` characters.
pub fn wrap_chars(s: &[char], cols: usize) -> (r: Vec<Vec<char>>)
    ensures
        char_vecs(r@) == wrap_lines(s@, cols as nat),
{
    let ws = split_words(s);
    let ghost wv = char_vecs(ws@);
    let mut lines: Vec<Vec<char>> = Vec::new();
    let mut line: Vec<char> = Vec::new();
    let mut i: usize = 0;
    assert(wv.take(0) =~= Seq::<Seq<char>>::empty());
    while i < ws.len()
        invariant
            i <= ws@.len(),
            wv == char_vecs(ws@),
            (char_vecs(lines@), line@) == wrap_state(wv.take(i as int), cols as nat),
        decreases ws@.len() - i,
    {
        let word = &ws[i];
        assert(wv.take(i + 1).drop_last() == wv.take(i as int));
        assert(wv.take(i + 1).last() == word@);
        let ghost l0 = char_vecs(lines@);
        let ghost line0 = line@;
        if line.len() > 0 && (line.len() as u128) + 1 + (word.len() as u128) > (cols as u128) {
            let mut full: Vec<char> = Vec::new();
            std::mem::swap(&mut full, &mut line);
            lines.push(full);
            assert(char_vecs(lines@) =~= l0.push(line0));
            extend_chars(&mut line, word.as_slice());
            assert(line@ =~= word@);
        } else if line.len() > 0 {
            line.push(' ');
            extend_chars(&mut line, word.as_slice());
        } else {
            extend_chars(&mut line, word.as_slice());
        }
        i = i + 1;
    }
    assert(wv.take(ws@.len() as int) == wv);
    if line.len() > 0 || lines.len() == 0 {
        let ghost l0 = char_vecs(lines@);
        lines.push(line);
        assert(char_vecs(lines@) =~= l0.push(lines@.last()@));
    }
    lines
}

/// Appends the DOT label of `s` (see `dot_label`) to `out`.
pub fn push_dot_label(out: &mut Vec<char>, s: &[char])
    ensures
        final(out)@ == old(out)@ + dot_label(s@),
{
    let lines = wrap_chars(s, WRAP_COLS);
    let ghost lv = char_vecs(lines@);
    let mut i: usize = 0;
    while i < lines.len()
        invariant
            i <= lines@.len(),
            lv == char_vecs(lines@),
            out@ == old(out)@ + join_with(dot_lines(lv.take(i as int)), "\\n"@),
        decreases lines@.len() - i,
    {
        let ghost before = out@;
        assert(lv.take(i + 1).drop_last() == lv.take(i as int));
        assert(lv.take(i + 1).last() == lines@[i as int]@);
        let ghost dl = dot_lines(lv.take(i + 1));
        assert(dl == dot_lines(lv.take(i as int)).push(dot_escape(lines@[i as int]@)));
        assert(dl.drop_last() == dot_lines(lv.take(i as int)));
        if i > 0 {
            extend_str(out, "\\n");
        }
        push_dot_escaped(out, lines[i].as_slice());
        if i == 0 {
            assert(dl.len() == 1);
        }
        i = i + 1;
    }
    assert(lv.take(lines@.len() as int) == lv);
}

/// Appends the lines of the wrapped `s`, each HTML-escaped, joined by
/// `sep`, to `out`.
pub fn push_html_lines(out: &mut Vec<char>, s: &[char], sep: &str)
    ensures
        final(out)@ == old(out)@ + join_with(html_lines(wrap_lines(s@, WRAP_COLS as nat)), sep@),
{
    let lines = wrap_chars(s, WRAP_COLS);
    let ghost lv = char_vecs(lines@);
    let mut i: usize = 0;
    while i < lines.len()
        invariant
            i <= lines@.len(),
            lv == char_vecs(lines@),
            out@ == old(out)@ + join_with(html_lines(lv.take(i as int)), sep@),
        decreases lines@.len() - i,
    {
        assert(lv.take(i + 1).drop_last() == lv.take(i as int));
        assert(lv.take(i + 1).last() == lines@[i as int]@);
        let ghost hl = html_lines(lv.take(i + 1));
        assert(hl == html_lines(lv.take(i as int)).push(html_escape(lines@[i as int]@)));
        assert(hl.drop_last() == html_lines(lv.take(i as int)));
        if i > 0 {
            extend_str(out, sep);
        }
        push_html_escaped(out, lines[i].as_slice());
        if i == 0 {
            assert(hl.len() == 1);
        }
        i = i + 1;
    }
    assert(lv.take(lines@.len() as int) == lv);
}

} // verus!
