use vstd::prelude::*;

verus! {

/// The Unicode `White_Space` property, the set of characters that
/// `char::is_whitespace` accepts and on which `split_whitespace` breaks.
pub open spec fn is_white_space(c: char) -> bool {
    let u = c as u32;
    ||| 0x9 <= u <= 0xd
    ||| u == 0x20
    ||| u == 0x85
    ||| u == 0xa0
    ||| u == 0x1680
    ||| 0x2000 <= u <= 0x200a
    ||| u == 0x2028
    ||| u == 0x2029
    ||| u == 0x202f
    ||| u == 0x205f
    ||| u == 0x3000
}

/// Whether `c` is a white-space character.
pub fn is_whitespace(c: char) -> (b: bool)
    ensures
        b == is_white_space(c),
{
    let u = c as u32;
    (0x9 <= u && u <= 0xd) || u == 0x20 || u == 0x85 || u == 0xa0 || u == 0x1680 || (0x2000
        <= u && u <= 0x200a) || u == 0x2028 || u == 0x2029 || u == 0x202f || u == 0x205f || u
        == 0x3000
}


/// The separator predicate of `split_whitespace`.
pub open spec fn white_space() -> spec_fn(char) -> bool {
    |c: char| is_white_space(c)
}

/// The separator predicate of `lines`.
pub open spec fn newline() -> spec_fn(char) -> bool {
    |c: char| c == '\n'
}

/// The pieces of `s` between separators: `k` separators give `k + 1`
/// pieces, some of which may be empty (as `str::split` does).
pub open spec fn split_on(s: Seq<char>, sep: spec_fn(char) -> bool) -> Seq<Seq<char>>
    decreases s.len(),
{
    if s.len() == 0 {
        seq![Seq::<char>::empty()]
    } else {
        let prev = split_on(s.drop_last(), sep);
        if sep(s.last()) {
            prev.push(Seq::<char>::empty())
        } else {
            prev.update(prev.len() - 1, prev.last().push(s.last()))
        }
    }
}

/// Keeps the words that hold at least one character.
pub open spec fn nonempty_word() -> spec_fn(Seq<char>) -> bool {
    |w: Seq<char>| w.len() > 0
}

/// Keeps the lines that hold at least one word.
pub open spec fn nonempty_line() -> spec_fn(Seq<Seq<char>>) -> bool {
    |l: Seq<Seq<char>>| l.len() > 0
}

/// The words of a line, as `split_whitespace` gives them.
pub open spec fn line_words(line: Seq<char>) -> Seq<Seq<char>> {
    split_on(line, white_space()).filter(nonempty_word())
}

/// The words of each line of `text` that holds any, line by line.
pub open spec fn tokenized(text: Seq<char>) -> Seq<Seq<Seq<char>>> {
    split_on(text, newline()).map_values(|l: Seq<char>| line_words(l)).filter(nonempty_line())
}

proof fn lemma_split_on_nonempty(s: Seq<char>, sep: spec_fn(char) -> bool)
    ensures
        split_on(s, sep).len() >= 1,
    decreases s.len(),
{
    if s.len() > 0 {
        lemma_split_on_nonempty(s.drop_last(), sep);
    }
}

proof fn lemma_split_on_push(s: Seq<char>, sep: spec_fn(char) -> bool, c: char)
    ensures
        split_on(s.push(c), sep) == (if sep(c) {
            split_on(s, sep).push(Seq::<char>::empty())
        } else {
            split_on(s, sep).update(
                split_on(s, sep).len() - 1,
                split_on(s, sep).last().push(c),
            )
        }),
{
    assert(s.push(c).drop_last() =~= s);
}

proof fn lemma_split_on_unbroken(s: Seq<char>, sep: spec_fn(char) -> bool)
    requires
        forall|k: int| 0 <= k < s.len() ==> !sep(#[trigger] s[k]),
    ensures
        split_on(s, sep) == seq![s],
    decreases s.len(),
{
    if s.len() == 0 {
        assert(s =~= Seq::<char>::empty());
        assert(seq![Seq::<char>::empty()] =~= seq![s]);
    } else {
        let t = s.drop_last();
        assert forall|k: int| 0 <= k < t.len() implies !sep(#[trigger] t[k]) by {
            assert(t[k] == s[k]);
        }
        lemma_split_on_unbroken(t, sep);
        assert(!sep(s[s.len() - 1]));
        assert(t.push(s.last()) =~= s);
        assert(seq![t].update(0, t.push(s.last())) =~= seq![s]);
    }
}

proof fn lemma_split_on_at_separator(
    a: Seq<char>,
    c: char,
    b: Seq<char>,
    sep: spec_fn(char) -> bool,
)
    requires
        sep(c),
    ensures
        split_on(a.push(c) + b, sep) == split_on(a, sep) + split_on(b, sep),
    decreases b.len(),
{
    if b.len() == 0 {
        assert(a.push(c) + b =~= a.push(c));
        lemma_split_on_push(a, sep, c);
        assert(split_on(b, sep) =~= seq![Seq::<char>::empty()]);
        assert(split_on(a, sep).push(Seq::<char>::empty()) =~= split_on(a, sep) + seq![
            Seq::<char>::empty(),
        ]);
    } else {
        let b1 = b.drop_last();
        let d = b.last();
        lemma_split_on_at_separator(a, c, b1, sep);
        assert(a.push(c) + b =~= (a.push(c) + b1).push(d));
        assert(b =~= b1.push(d));
        lemma_split_on_push(a.push(c) + b1, sep, d);
        lemma_split_on_push(b1, sep, d);
        lemma_split_on_nonempty(b1, sep);
        let x = split_on(a, sep);
        let y = split_on(b1, sep);
        if sep(d) {
            assert((x + y).push(Seq::<char>::empty()) =~= x + y.push(Seq::<char>::empty()));
        } else {
            assert((x + y).update((x + y).len() - 1, (x + y).last().push(d)) =~= x + y.update(
                y.len() - 1,
                y.last().push(d),
            ));
        }
    }
}

proof fn lemma_line_words_unbroken(s: Seq<char>)
    requires
        s.len() > 0,
        forall|k: int| 0 <= k < s.len() ==> !is_white_space(#[trigger] s[k]),
    ensures
        line_words(s) == seq![s],
{
    lemma_split_on_unbroken(s, white_space());
    assert(seq![s] =~= Seq::<Seq<char>>::empty().push(s));
    Seq::<Seq<char>>::empty().lemma_filter_push(s, nonempty_word());
    assert(Seq::<Seq<char>>::empty().filter(nonempty_word()) =~= Seq::<Seq<char>>::empty()) by {
        reveal(Seq::filter);
    }
}

proof fn lemma_line_words_at_white_space(a: Seq<char>, c: char, b: Seq<char>)
    requires
        is_white_space(c),
    ensures
        line_words(a.push(c) + b) == line_words(a) + line_words(b),
{
    lemma_split_on_at_separator(a, c, b, white_space());
    Seq::filter_distributes_over_add(
        split_on(a, white_space()),
        split_on(b, white_space()),
        nonempty_word(),
    );
}

proof fn lemma_tokenized_one_line(s: Seq<char>)
    requires
        forall|k: int| 0 <= k < s.len() ==> #[trigger] s[k] != '\n',
    ensures
        tokenized(s) == (if line_words(s).len() > 0 {
            seq![line_words(s)]
        } else {
            Seq::<Seq<Seq<char>>>::empty()
        }),
{
    lemma_split_on_unbroken(s, newline());
    let f = |l: Seq<char>| line_words(l);
    assert(seq![s].map_values(f) =~= Seq::<Seq<Seq<char>>>::empty().push(line_words(s)));
    Seq::<Seq<Seq<char>>>::empty().lemma_filter_push(line_words(s), nonempty_line());
    assert(Seq::<Seq<Seq<char>>>::empty().filter(nonempty_line()) =~= Seq::<
        Seq<Seq<char>>,
    >::empty()) by {
        reveal(Seq::filter);
    }
    assert(Seq::<Seq<Seq<char>>>::empty().push(line_words(s)) =~= seq![line_words(s)]);
}

/// An empty text has no lines.
pub proof fn lemma_tokenized_empty()
    ensures
        tokenized(Seq::<char>::empty()) == Seq::<Seq<Seq<char>>>::empty(),
{
    reveal_with_fuel(Seq::filter, 2);
    assert(split_on(Seq::<char>::empty(), white_space()).filter(nonempty_word()) =~= Seq::<
        Seq<char>,
    >::empty());
    lemma_tokenized_one_line(Seq::<char>::empty());
}

/// A run of characters none of which is white space is one line of one word:
/// itself, every character kept.
pub proof fn lemma_tokenized_single_word(s: Seq<char>)
    requires
        s.len() > 0,
        forall|k: int| 0 <= k < s.len() ==> !is_white_space(#[trigger] s[k]),
    ensures
        tokenized(s) == seq![seq![s]],
{
    assert forall|k: int| 0 <= k < s.len() implies #[trigger] s[k] != '\n' by {
        assert(!is_white_space(s[k]));
    }
    lemma_tokenized_one_line(s);
    lemma_line_words_unbroken(s);
}

/// A `'\n'` ends a line: the lines of the text before it come first, then
/// those of the text after it.
pub proof fn lemma_tokenized_at_newline(a: Seq<char>, b: Seq<char>)
    ensures
        tokenized(a.push('\n') + b) == tokenized(a) + tokenized(b),
{
    lemma_split_on_at_separator(a, '\n', b, newline());
    let f = |l: Seq<char>| line_words(l);
    let x = split_on(a, newline());
    let y = split_on(b, newline());
    assert((x + y).map_values(f) =~= x.map_values(f) + y.map_values(f));
    Seq::filter_distributes_over_add(x.map_values(f), y.map_values(f), nonempty_line());
}

/// Within a line (a text with no `'\n'`), a white-space character ends a
/// word and nothing else: the words before it and the words after it form
/// the line, in order.
pub proof fn lemma_tokenized_at_white_space(a: Seq<char>, c: char, b: Seq<char>)
    requires
        is_white_space(c),
        c != '\n',
        forall|k: int| 0 <= k < a.len() ==> #[trigger] a[k] != '\n',
        forall|k: int| 0 <= k < b.len() ==> #[trigger] b[k] != '\n',
    ensures
        tokenized(a.push(c) + b) == (if tokenized(a).len() == 0 {
            tokenized(b)
        } else if tokenized(b).len() == 0 {
            tokenized(a)
        } else {
            seq![tokenized(a)[0] + tokenized(b)[0]]
        }),
{
    let s = a.push(c) + b;
    assert forall|k: int| 0 <= k < s.len() implies #[trigger] s[k] != '\n' by {
        if k < a.len() {
            assert(s[k] == a[k]);
        } else if k > a.len() {
            assert(s[k] == b[k - a.len() - 1]);
        }
    }
    lemma_tokenized_one_line(a);
    lemma_tokenized_one_line(b);
    lemma_tokenized_one_line(s);
    lemma_line_words_at_white_space(a, c, b);
    if line_words(a).len() == 0 {
        assert(line_words(a) + line_words(b) =~= line_words(b));
    } else if line_words(b).len() == 0 {
        assert(line_words(a) + line_words(b) =~= line_words(a));
    }
}

#[verifier::external_body]
fn push_char(s: &mut String, c: char)
    ensures
        final(s)@ == old(s)@.push(c),
{
    s.push(c);
}

proof fn lemma_filter_last<A>(s: Seq<A>, pred: spec_fn(A) -> bool)
    requires
        s.len() > 0,
    ensures
        s.filter(pred) == (if pred(s.last()) {
            s.drop_last().filter(pred).push(s.last())
        } else {
            s.drop_last().filter(pred)
        }),
{
    assert(s =~= s.drop_last().push(s.last()));
    s.drop_last().lemma_filter_push(s.last(), pred);
}

/// The words of the line that `split` holds last, with `word` (the piece
/// after the last separator) added where it is not empty.
proof fn lemma_close_word(pieces: Seq<Seq<char>>)
    requires
        pieces.len() > 0,
    ensures
        pieces.filter(nonempty_word()) == (if pieces.last().len() > 0 {
            pieces.drop_last().filter(nonempty_word()).push(pieces.last())
        } else {
            pieces.drop_last().filter(nonempty_word())
        }),
{
    lemma_filter_last(pieces, nonempty_word());
}

/// Splits `input` into lines and each line into its white-space separated
/// words, leaving out the lines that hold no word.
pub fn tokenize(input: &str) -> (lines: Vec<Vec<String>>)
    ensures
        lines.deep_view() == tokenized(input@),
{
    let mut lines: Vec<Vec<String>> = Vec::new();
    let mut line: Vec<String> = Vec::new();
    let mut word = String::new();
    let ghost text = input@;
    proof {
        broadcast use vstd::string::axiom_spec_iter;

        assert(text.take(0) =~= Seq::<char>::empty());
        assert(lines.deep_view() =~= Seq::<Seq<Seq<char>>>::empty());
        assert(line.deep_view() =~= Seq::<Seq<char>>::empty());
        reveal_with_fuel(Seq::filter, 1);
    }
    for c in it: input.chars()
        invariant
            it.seq() == text,
            lines.deep_view() == split_on(text.take(it.index()), newline()).drop_last().map_values(
                |l: Seq<char>| line_words(l),
            ).filter(nonempty_line()),
            line.deep_view() == split_on(
                split_on(text.take(it.index()), newline()).last(),
                white_space(),
            ).drop_last().filter(nonempty_word()),
            word@ == split_on(
                split_on(text.take(it.index()), newline()).last(),
                white_space(),
            ).last(),
    {
        let ghost p = text.take(it.index());
        let ghost ls = split_on(p, newline());
        let ghost ws = split_on(ls.last(), white_space());
        let ghost old_lines = lines.deep_view();
        let ghost old_line = line.deep_view();
        proof {
            assert(text.take(it.index() + 1) =~= p.push(c));
            lemma_split_on_push(p, newline(), c);
            lemma_split_on_nonempty(p, newline());
            lemma_split_on_nonempty(ls.last(), white_space());
            lemma_split_on_push(ls.last(), white_space(), c);
            lemma_close_word(ws);
        }
        if c == '\n' {
            if !word.as_str().is_empty() {
                line.push(word);
                word = String::new();
                assert(line.deep_view() =~= old_line.push(ws.last()));
            }
            let ghost closed = line.deep_view();
            assert(closed == line_words(ls.last()));
            if line.len() > 0 {
                lines.push(line);
                line = Vec::new();
                assert(lines.deep_view() =~= old_lines.push(closed));
            }
            proof {
                let f = |l: Seq<char>| line_words(l);
                let ls2 = ls.push(Seq::<char>::empty());
                assert(ls2.drop_last() =~= ls);
                assert(ls =~= ls.drop_last().push(ls.last()));
                assert(ls.map_values(f) =~= ls.drop_last().map_values(f).push(f(ls.last())));
                ls.drop_last().map_values(f).lemma_filter_push(f(ls.last()), nonempty_line());
                assert(split_on(Seq::<char>::empty(), white_space()) =~= seq![Seq::<char>::empty()]);
                assert(seq![Seq::<char>::empty()].drop_last() =~= Seq::<Seq<char>>::empty());
                reveal_with_fuel(Seq::filter, 1);
                assert(line.deep_view() =~= Seq::<Seq<char>>::empty());
            }
        } else if is_whitespace(c) {
            if !word.as_str().is_empty() {
                line.push(word);
                word = String::new();
                assert(line.deep_view() =~= old_line.push(ws.last()));
            }
            proof {
                let ls2 = ls.update(ls.len() - 1, ls.last().push(c));
                assert(ls2.drop_last() =~= ls.drop_last());
                assert(ws.push(Seq::<char>::empty()).drop_last() =~= ws);
            }
        } else {
            push_char(&mut word, c);
            proof {
                let ls2 = ls.update(ls.len() - 1, ls.last().push(c));
                assert(ls2.drop_last() =~= ls.drop_last());
                assert(ws.update(ws.len() - 1, ws.last().push(c)).drop_last() =~= ws.drop_last());
            }
        }
    }
    let ghost ls = split_on(text, newline());
    let ghost ws = split_on(ls.last(), white_space());
    let ghost old_lines = lines.deep_view();
    let ghost old_line = line.deep_view();
    proof {
        assert(text.take(text.len() as int) =~= text);
        lemma_split_on_nonempty(text, newline());
        lemma_split_on_nonempty(ls.last(), white_space());
        lemma_close_word(ws);
    }
    if !word.as_str().is_empty() {
        line.push(word);
        assert(line.deep_view() =~= old_line.push(ws.last()));
    }
    let ghost closed = line.deep_view();
    assert(closed == line_words(ls.last()));
    if line.len() > 0 {
        lines.push(line);
        assert(lines.deep_view() =~= old_lines.push(closed));
    }
    proof {
        let f = |l: Seq<char>| line_words(l);
        assert(ls =~= ls.drop_last().push(ls.last()));
        assert(ls.map_values(f) =~= ls.drop_last().map_values(f).push(f(ls.last())));
        ls.drop_last().map_values(f).lemma_filter_push(f(ls.last()), nonempty_line());
    }
    lines
}

proof fn lemma_pieces_avoid_separator(s: Seq<char>, sep: spec_fn(char) -> bool, k: int, t: int)
    requires
        0 <= k < split_on(s, sep).len(),
        0 <= t < split_on(s, sep)[k].len(),
    ensures
        !sep(split_on(s, sep)[k][t]),
    decreases s.len(),
{
    if s.len() > 0 {
        let prev = split_on(s.drop_last(), sep);
        lemma_split_on_nonempty(s.drop_last(), sep);
        if sep(s.last()) {
            if k < prev.len() {
                lemma_pieces_avoid_separator(s.drop_last(), sep, k, t);
            }
        } else {
            if k < prev.len() - 1 {
                lemma_pieces_avoid_separator(s.drop_last(), sep, k, t);
            } else if t < prev.last().len() {
                lemma_pieces_avoid_separator(s.drop_last(), sep, k, t);
            }
        }
    }
}

/// Each line that `tokenize` gives holds at least one word, and each word is
/// a non-empty run of characters none of which is white space.
pub proof fn lemma_tokens_are_words(text: Seq<char>, i: int, j: int)
    requires
        0 <= i < tokenized(text).len(),
    ensures
        tokenized(text)[i].len() > 0,
        0 <= j < tokenized(text)[i].len() ==> tokenized(text)[i][j].len() > 0,
        0 <= j < tokenized(text)[i].len() ==> forall|t: int|
            0 <= t < tokenized(text)[i][j].len() ==> !is_white_space(#[trigger] tokenized(text)[i][j][t]),
{
    let f = |l: Seq<char>| line_words(l);
    let lines = split_on(text, newline()).map_values(f);
    let line = tokenized(text)[i];
    lines.lemma_filter_pred(nonempty_line(), i);
    if 0 <= j < line.len() {
        assert(tokenized(text).contains(line));
        lines.lemma_filter_contains_rev(nonempty_line(), line);
        let k = choose|k: int| 0 <= k < lines.len() && lines[k] == line;
        let l = split_on(text, newline())[k];
        assert(line == line_words(l));
        let pieces = split_on(l, white_space());
        let word = line[j];
        pieces.lemma_filter_pred(nonempty_word(), j);
        assert(line.contains(word));
        pieces.lemma_filter_contains_rev(nonempty_word(), word);
        let q = choose|q: int| 0 <= q < pieces.len() && pieces[q] == word;
        assert forall|t: int| 0 <= t < word.len() implies !is_white_space(#[trigger] word[t]) by {
            lemma_pieces_avoid_separator(l, white_space(), q, t);
        }
    }
}

/// Parses the text of an input file: each line that holds any word, as the
/// list of its white-space separated words.
pub fn parse_input(text: &str) -> (lines: Vec<Vec<String>>)
    ensures
        lines.deep_view() == tokenized(text@),
{
    tokenize(text)
}

} // verus!
