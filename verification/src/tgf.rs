//! The grammar of the Trivial Graph Format, on sequences of characters.
//!
//! A text is a run of vertex lines, a line that holds only `#`, and a run
//! of edge lines. A vertex line is an id and a value, an edge line is two
//! ids and a value; the fields of a line are its whitespace-separated
//! words, the last field taking every word that is left.

use vstd::prelude::*;

verus! {

/// The line that keeps vertices from edges.
pub open spec fn separator() -> Seq<char> {
    seq!['#']
}

/// Whether `c` separates words: a space, a tab, a line feed, a form feed or a carriage return.
pub open spec fn is_blank(c: char) -> bool {
    c == ' ' || c == '\t' || c == '\n' || c == '\x0C' || c == '\r'
}

/// Whether `c` ends a line.
pub open spec fn is_newline(c: char) -> bool {
    c == '\n'
}

/// The stretches of `text` between the characters that `cut` holds of.
/// There is one more stretch than there are such characters; a stretch may be empty.
pub open spec fn pieces(text: Seq<char>, cut: spec_fn(char) -> bool) -> Seq<Seq<char>>
    decreases text.len(),
{
    if text.len() == 0 {
        seq![Seq::<char>::empty()]
    } else {
        let before = pieces(text.drop_last(), cut);
        if cut(text.last()) {
            before.push(Seq::<char>::empty())
        } else {
            before.drop_last().push(before.last().push(text.last()))
        }
    }
}

/// `line` without the carriage return at its end, if it has one there.
pub open spec fn without_return(line: Seq<char>) -> Seq<char> {
    if line.len() > 0 && line.last() == '\r' {
        line.drop_last()
    } else {
        line
    }
}

/// The lines of `text`. A line ends with a line feed, or with a carriage
/// return and a line feed; neither belongs to the line. What follows the
/// last line feed is a line too, unless it is empty.
pub open spec fn lines_of(text: Seq<char>) -> Seq<Seq<char>> {
    let stretches = pieces(text, |c: char| is_newline(c));
    let ended = stretches.drop_last().map_values(|line: Seq<char>| without_return(line));
    if stretches.last().len() == 0 {
        ended
    } else {
        ended.push(stretches.last())
    }
}

/// The words of `line`: its longest stretches without a blank.
pub open spec fn words_of(line: Seq<char>) -> Seq<Seq<char>> {
    pieces(line, |c: char| is_blank(c)).filter(|word: Seq<char>| word.len() > 0)
}

/// The `words` in a row, with one space between neighbours.
pub open spec fn joined(words: Seq<Seq<char>>) -> Seq<char>
    decreases words.len(),
{
    if words.len() == 0 {
        Seq::<char>::empty()
    } else if words.len() == 1 {
        words[0]
    } else {
        joined(words.drop_last()).push(' ') + words.last()
    }
}

/// The `n` fields of `line`: its first `n - 1` words, then the words
/// that are left, joined. `None` where the line has fewer than `n` words.
pub open spec fn fields_of(line: Seq<char>, n: int) -> Option<Seq<Seq<char>>> {
    let words = words_of(line);
    if words.len() < n {
        None
    } else {
        Some(words.take(n - 1).push(joined(words.skip(n - 1))))
    }
}

/// Whether `text` begins and ends with a double quote, two characters at least.
pub open spec fn is_quoted(text: Seq<char>) -> bool {
    text.len() >= 2 && text.first() == '"' && text.last() == '"'
}

/// `text` without the double quotes around it; `text` itself where it is not quoted.
pub open spec fn unquoted(text: Seq<char>) -> Seq<char> {
    if is_quoted(text) {
        text.subrange(1, text.len() - 1)
    } else {
        text
    }
}

/// Whether `text` holds a blank.
pub open spec fn has_blank(text: Seq<char>) -> bool {
    exists|i: int| 0 <= i < text.len() && is_blank(#[trigger] text[i])
}

/// `text` as a field of a line: in double quotes where it holds a blank
/// and is not quoted yet, as it is otherwise.
pub open spec fn quoted(text: Seq<char>) -> Seq<char> {
    if has_blank(text) && !is_quoted(text) {
        seq!['"'] + text + seq!['"']
    } else {
        text
    }
}

/// A vertex line: the id and the value, each as a field, a space between them.
pub open spec fn vertex_line(id: Seq<char>, value: Seq<char>) -> Seq<char> {
    quoted(id).push(' ') + quoted(value)
}

/// An edge line: the two ids and the value, each as a field, a space between neighbours.
pub open spec fn edge_line(from: Seq<char>, to: Seq<char>, value: Seq<char>) -> Seq<char> {
    quoted(from).push(' ') + quoted(to).push(' ') + quoted(value)
}

/// The vertex lines of `vertices`, each ended by a line feed.
pub open spec fn vertex_block(vertices: Seq<(Seq<char>, Seq<char>)>) -> Seq<char>
    decreases vertices.len(),
{
    if vertices.len() == 0 {
        Seq::<char>::empty()
    } else {
        vertex_block(vertices.drop_last()) + vertex_line(
            vertices.last().0,
            vertices.last().1,
        ).push('\n')
    }
}

/// The edge lines of `edges`, each ended by a line feed.
pub open spec fn edge_block(edges: Seq<(Seq<char>, Seq<char>, Seq<char>)>) -> Seq<char>
    decreases edges.len(),
{
    if edges.len() == 0 {
        Seq::<char>::empty()
    } else {
        edge_block(edges.drop_last()) + edge_line(
            edges.last().0,
            edges.last().1,
            edges.last().2,
        ).push('\n')
    }
}

/// The text of a graph: its vertex lines, the separator line, its edge lines.
pub open spec fn document(
    vertices: Seq<(Seq<char>, Seq<char>)>,
    edges: Seq<(Seq<char>, Seq<char>, Seq<char>)>,
) -> Seq<char> {
    vertex_block(vertices) + separator().push('\n') + edge_block(edges)
}

/// The views of `rows`.
pub open spec fn views(rows: Seq<Vec<char>>) -> Seq<Seq<char>> {
    rows.map_values(|row: Vec<char>| row@)
}

/// Whether `c` separates words.
pub fn is_blank_char(c: char) -> (blank: bool)
    ensures
        blank == is_blank(c),
{
    c == ' ' || c == '\t' || c == '\n' || c == '\x0C' || c == '\r'
}

/// Splits `text` into its lines.
pub fn split_lines(text: &Vec<char>) -> (lines: Vec<Vec<char>>)
    ensures
        views(lines@) == lines_of(text@),
{
    let ghost cut = |c: char| is_newline(c);
    let ghost strip = |line: Seq<char>| without_return(line);
    let ghost raw: Seq<Seq<char>> = Seq::empty();
    let mut lines: Vec<Vec<char>> = Vec::new();
    let mut current: Vec<char> = Vec::new();
    let mut i: usize = 0;
    proof {
        assert(text@.take(0) =~= Seq::<char>::empty());
        assert(pieces(text@.take(0), cut) =~= raw.push(current@));
        assert(views(lines@) =~= raw.map_values(strip));
    }
    while i < text.len()
        invariant
            0 <= i <= text.len(),
            cut == |c: char| is_newline(c),
            strip == |line: Seq<char>| without_return(line),
            pieces(text@.take(i as int), cut) == raw.push(current@),
            views(lines@) == raw.map_values(strip),
        decreases text.len() - i,
    {
        let c = text[i];
        let ghost so_far = text@.take(i as int);
        let ghost held = current@;
        proof {
            assert(text@.take(i + 1).drop_last() =~= so_far);
            assert(text@.take(i + 1).last() == c);
            assert(raw.push(held).drop_last() =~= raw);
        }
        if c == '\n' {
            if current.len() > 0 && current[current.len() - 1] == '\r' {
                current.pop();
            }
            assert(current@ == without_return(held));
            let ghost rows = lines@;
            lines.push(current);
            current = Vec::new();
            proof {
                assert(views(lines@) =~= views(rows).push(without_return(held)));
                assert(raw.push(held).map_values(strip) =~= raw.map_values(strip).push(
                    without_return(held),
                ));
                raw = raw.push(held);
                assert(pieces(text@.take(i + 1), cut) =~= raw.push(current@));
            }
        } else {
            current.push(c);
            proof {
                assert(pieces(text@.take(i + 1), cut) =~= raw.push(current@));
            }
        }
        i += 1;
    }
    proof {
        assert(text@.take(i as int) =~= text@);
        assert(raw.push(current@).drop_last() =~= raw);
    }
    if current.len() > 0 {
        let ghost rows = lines@;
        lines.push(current);
        proof {
            assert(views(lines@) =~= views(rows).push(current@));
        }
    }
    lines
}

/// Splits `line` into its words.
pub fn split_words(line: &Vec<char>) -> (words: Vec<Vec<char>>)
    ensures
        views(words@) == words_of(line@),
{
    let ghost cut = |c: char| is_blank(c);
    let ghost full = |word: Seq<char>| word.len() > 0;
    let ghost raw: Seq<Seq<char>> = Seq::empty();
    let mut words: Vec<Vec<char>> = Vec::new();
    let mut current: Vec<char> = Vec::new();
    let mut i: usize = 0;
    proof {
        reveal(Seq::filter);
        assert(line@.take(0) =~= Seq::<char>::empty());
        assert(pieces(line@.take(0), cut) =~= raw.push(current@));
        assert(views(words@) =~= raw.filter(full));
    }
    while i < line.len()
        invariant
            0 <= i <= line.len(),
            cut == |c: char| is_blank(c),
            full == |word: Seq<char>| word.len() > 0,
            pieces(line@.take(i as int), cut) == raw.push(current@),
            views(words@) == raw.filter(full),
        decreases line.len() - i,
    {
        let c = line[i];
        let ghost held = current@;
        proof {
            assert(line@.take(i + 1).drop_last() =~= line@.take(i as int));
            assert(line@.take(i + 1).last() == c);
            assert(raw.push(held).drop_last() =~= raw);
            raw.lemma_filter_push(held, full);
        }
        if is_blank_char(c) {
            if current.len() > 0 {
                let ghost rows = words@;
                words.push(current);
                proof {
                    assert(views(words@) =~= views(rows).push(held));
                }
            }
            current = Vec::new();
            proof {
                raw = raw.push(held);
                assert(pieces(line@.take(i + 1), cut) =~= raw.push(current@));
            }
        } else {
            current.push(c);
            proof {
                assert(pieces(line@.take(i + 1), cut) =~= raw.push(current@));
            }
        }
        i += 1;
    }
    proof {
        assert(line@.take(i as int) =~= line@);
        raw.lemma_filter_push(current@, full);
    }
    if current.len() > 0 {
        let ghost rows = words@;
        words.push(current);
        proof {
            assert(views(words@) =~= views(rows).push(current@));
        }
    }
    words
}

/// Appends the characters of `more` to `text`.
fn append_chars(text: &mut Vec<char>, more: &Vec<char>)
    ensures
        final(text)@ == old(text)@ + more@,
{
    let mut i: usize = 0;
    while i < more.len()
        invariant
            0 <= i <= more.len(),
            text@ == old(text)@ + more@.take(i as int),
        decreases more.len() - i,
    {
        text.push(more[i]);
        proof {
            assert(more@.take(i + 1) =~= more@.take(i as int).push(more@[i as int]));
        }
        i += 1;
    }
    proof {
        assert(more@.take(i as int) =~= more@);
    }
}

/// Joins the words of `words` from position `from` on, with one space between neighbours.
pub fn join_words(words: &Vec<Vec<char>>, from: usize) -> (text: Vec<char>)
    requires
        from <= words.len(),
    ensures
        text@ == joined(views(words@).skip(from as int)),
{
    let ghost rest = views(words@).skip(from as int);
    let mut text: Vec<char> = Vec::new();
    let mut i: usize = from;
    proof {
        assert(rest.take(0) =~= Seq::<Seq<char>>::empty());
    }
    while i < words.len()
        invariant
            from <= i <= words.len(),
            rest == views(words@).skip(from as int),
            text@ == joined(rest.take(i - from)),
        decreases words.len() - i,
    {
        proof {
            let next = rest.take(i - from + 1);
            assert(next.drop_last() =~= rest.take(i - from));
            assert(next.last() == words@[i as int]@);
            if i > from {
                assert(next.len() > 1);
            } else {
                assert(next.len() == 1);
                assert(next[0] == words@[i as int]@);
            }
        }
        if i > from {
            text.push(' ');
        }
        append_chars(&mut text, &words[i]);
        i += 1;
    }
    proof {
        assert(rest.take(i - from) =~= rest);
    }
    text
}

/// Splits `line` into `n` fields. `None` where the line has fewer than `n` words.
/// With more than `n` words, the last field holds the words from the
/// `n`-th on, a space between neighbours, quoted or not.
pub fn split_line_into_vec_with_len(line: &Vec<char>, n: usize) -> (fields: Option<Vec<Vec<char>>>)
    requires
        n >= 1,
    ensures
        match fields {
            Some(list) => fields_of(line@, n as int) == Some(views(list@)),
            None => fields_of(line@, n as int).is_none(),
        },
{
    let mut words = split_words(line);
    if words.len() < n {
        return None;
    }
    let ghost all = views(words@);
    let last = join_words(&words, n - 1);
    words.truncate(n - 1);
    proof {
        assert(views(words@) =~= all.take(n - 1));
    }
    let ghost head = words@;
    words.push(last);
    proof {
        assert(views(words@) =~= views(head).push(last@));
    }
    Some(words)
}

/// `text` without the double quotes around it. A text that does not both
/// begin and end with a double quote, or is a lone double quote, is copied as it is.
pub fn delete_quotes(text: &Vec<char>) -> (bare: Vec<char>)
    ensures
        bare@ == unquoted(text@),
{
    let quoted = text.len() >= 2 && text[0] == '"' && text[text.len() - 1] == '"';
    let (from, to) = if quoted {
        (1, text.len() - 1)
    } else {
        (0, text.len())
    };
    let mut bare: Vec<char> = Vec::new();
    let mut i: usize = from;
    while i < to
        invariant
            from <= i <= to <= text.len(),
            bare@ == text@.subrange(from as int, i as int),
        decreases to - i,
    {
        bare.push(text[i]);
        proof {
            assert(text@.subrange(from as int, i + 1) =~= text@.subrange(from as int, i as int).push(
                text@[i as int],
            ));
        }
        i += 1;
    }
    proof {
        assert(text@.subrange(0, text@.len() as int) =~= text@);
    }
    bare
}

/// Whether `text` holds a blank.
pub fn contains_blank(text: &Vec<char>) -> (found: bool)
    ensures
        found == has_blank(text@),
{
    let mut i: usize = 0;
    while i < text.len()
        invariant
            0 <= i <= text.len(),
            forall|j: int| 0 <= j < i ==> !is_blank(#[trigger] text@[j]),
        decreases text.len() - i,
    {
        if is_blank_char(text[i]) {
            return true;
        }
        i += 1;
    }
    false
}

/// `text` as a field of a line: put in double quotes where it holds a blank and is not quoted yet.
pub fn quote(text: &Vec<char>) -> (field: Vec<char>)
    ensures
        field@ == quoted(text@),
{
    let wrapped = text.len() >= 2 && text[0] == '"' && text[text.len() - 1] == '"';
    let mut field: Vec<char> = Vec::new();
    if contains_blank(text) && !wrapped {
        field.push('"');
        append_chars(&mut field, text);
        field.push('"');
        proof {
            assert(field@ =~= seq!['"'] + text@ + seq!['"']);
        }
    } else {
        append_chars(&mut field, text);
        proof {
            assert(field@ =~= text@);
        }
    }
    field
}

/// Appends the vertex line of `id` and `value` to `text`, and a line feed.
pub fn push_vertex_line(text: &mut Vec<char>, id: &Vec<char>, value: &Vec<char>)
    ensures
        final(text)@ == old(text)@ + vertex_line(id@, value@).push('\n'),
{
    let first = quote(id);
    let second = quote(value);
    append_chars(text, &first);
    text.push(' ');
    append_chars(text, &second);
    text.push('\n');
    proof {
        assert(text@ =~= old(text)@ + vertex_line(id@, value@).push('\n'));
    }
}

/// Appends the edge line of `from`, `to` and `value` to `text`, and a line feed.
pub fn push_edge_line(text: &mut Vec<char>, from: &Vec<char>, to: &Vec<char>, value: &Vec<char>)
    ensures
        final(text)@ == old(text)@ + edge_line(from@, to@, value@).push('\n'),
{
    let first = quote(from);
    let second = quote(to);
    let third = quote(value);
    append_chars(text, &first);
    text.push(' ');
    append_chars(text, &second);
    text.push(' ');
    append_chars(text, &third);
    text.push('\n');
    proof {
        assert(text@ =~= old(text)@ + edge_line(from@, to@, value@).push('\n'));
    }
}

/// Appends the separator line to `text`, and a line feed.
pub fn push_separator(text: &mut Vec<char>)
    ensures
        final(text)@ == old(text)@ + separator().push('\n'),
{
    text.push('#');
    text.push('\n');
    proof {
        assert(text@ =~= old(text)@ + separator().push('\n'));
    }
}

/// Whether `i` is the position of the first separator line among `lines`.
pub open spec fn is_separator_at(lines: Seq<Seq<char>>, i: int) -> bool {
    &&& 0 <= i < lines.len()
    &&& lines[i] == separator()
    &&& forall|j: int| 0 <= j < i ==> #[trigger] lines[j] != separator()
}

/// Whether one of `lines` is a separator line.
pub open spec fn has_separator(lines: Seq<Seq<char>>) -> bool {
    exists|i: int| 0 <= i < lines.len() && #[trigger] lines[i] == separator()
}

/// The position of the first separator line among `lines`, where there is one.
pub open spec fn separator_of(lines: Seq<Seq<char>>) -> int {
    choose|i: int| is_separator_at(lines, i)
}

/// The first separator line is where the first separator line is found.
pub proof fn lemma_first_separator(lines: Seq<Seq<char>>, i: int)
    requires
        is_separator_at(lines, i),
    ensures
        has_separator(lines),
        separator_of(lines) == i,
{
    let found = separator_of(lines);
    assert(is_separator_at(lines, found));
    if found < i {
        assert(lines[found] != separator());
    }
    if i < found {
        assert(lines[i] != separator());
    }
}

/// The number of fields of line `i` where the separator is line `separator`:
/// two before the separator, three after it.
pub open spec fn fields_needed(separator: int, i: int) -> int {
    if i < separator {
        2
    } else {
        3
    }
}

/// Whether line `i` of `lines` is a data line with too few words.
pub open spec fn is_malformed_at(lines: Seq<Seq<char>>, separator: int, i: int) -> bool {
    &&& 0 <= i < lines.len()
    &&& i != separator
    &&& fields_of(lines[i], fields_needed(separator, i)) is None
}

/// The position of the first data line where the separator is line `separator`.
pub open spec fn first_data_line(separator: int) -> int {
    if separator == 0 {
        1
    } else {
        0
    }
}

/// The position of the first separator line among `lines`, if there is one.
pub fn find_separator(lines: &Vec<Vec<char>>) -> (position: Option<usize>)
    ensures
        match position {
            Some(i) => is_separator_at(views(lines@), i as int),
            None => !has_separator(views(lines@)),
        },
{
    let mut i: usize = 0;
    while i < lines.len()
        invariant
            0 <= i <= lines.len(),
            forall|j: int| 0 <= j < i ==> #[trigger] views(lines@)[j] != separator(),
        decreases lines.len() - i,
    {
        let line = &lines[i];
        if line.len() == 1 && line[0] == '#' {
            proof {
                assert(views(lines@)[i as int] =~= separator());
            }
            return Some(i);
        }
        proof {
            assert(views(lines@)[i as int] == line@);
            assert(line@ != separator()) by {
                if line@ == separator() {
                    assert(line@.len() == 1 && line@[0] == '#');
                }
            }
        }
        i += 1;
    }
    None
}

} // verus!
