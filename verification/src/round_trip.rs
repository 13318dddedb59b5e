//! Reading back what was written: the lines and fields of a written text
//! are the lines and fields it was written from.

use vstd::prelude::*;
use crate::tgf::pieces;
use crate::tgf::is_blank;
use crate::tgf::is_newline;
use crate::tgf::has_blank;
use crate::tgf::words_of;
use crate::tgf::joined;
use crate::tgf::lines_of;
use crate::tgf::without_return;
use crate::tgf::fields_of;
use crate::tgf::is_quoted;
use crate::tgf::quoted;
use crate::tgf::unquoted;
use crate::tgf::separator;
use crate::tgf::vertex_line;
use crate::tgf::edge_line;
use crate::tgf::vertex_block;
use crate::tgf::edge_block;
use crate::tgf::document;
use crate::tgf::is_separator_at;
use crate::tgf::separator_of;
use crate::tgf::lemma_first_separator;
use crate::tgf::is_malformed_at;

verus! {

/// A text has at least one stretch.
proof fn lemma_pieces_some(text: Seq<char>, cut: spec_fn(char) -> bool)
    ensures
        pieces(text, cut).len() >= 1,
    decreases text.len(),
{
    if text.len() > 0 {
        lemma_pieces_some(text.drop_last(), cut);
    }
}

/// No stretch holds a character that cuts.
proof fn lemma_pieces_hold_no_cut(text: Seq<char>, cut: spec_fn(char) -> bool)
    ensures
        forall|k: int, i: int|
            0 <= k < pieces(text, cut).len() && 0 <= i < pieces(text, cut)[k].len() ==> !cut(
                #[trigger] pieces(text, cut)[k][i],
            ),
    decreases text.len(),
{
    if text.len() > 0 {
        lemma_pieces_some(text.drop_last(), cut);
        lemma_pieces_hold_no_cut(text.drop_last(), cut);
    }
}

/// A text without a character that cuts is its own single stretch.
proof fn lemma_pieces_of_plain(text: Seq<char>, cut: spec_fn(char) -> bool)
    requires
        forall|i: int| 0 <= i < text.len() ==> !cut(#[trigger] text[i]),
    ensures
        pieces(text, cut) == seq![text],
    decreases text.len(),
{
    if text.len() > 0 {
        lemma_pieces_of_plain(text.drop_last(), cut);
        assert(text.drop_last().push(text.last()) =~= text);
        assert(seq![text.drop_last()].drop_last().push(text) =~= seq![text]);
    } else {
        assert(text =~= Seq::<char>::empty());
    }
}

/// The stretches of two texts in a row: those of the first, the last of
/// them continued by the first stretch of the second, then the other
/// stretches of the second.
proof fn lemma_pieces_of_sum(a: Seq<char>, b: Seq<char>, cut: spec_fn(char) -> bool)
    ensures
        pieces(a + b, cut) == pieces(a, cut).drop_last().push(
            pieces(a, cut).last() + pieces(b, cut).first(),
        ) + pieces(b, cut).drop_first(),
    decreases b.len(),
{
    lemma_pieces_some(a, cut);
    lemma_pieces_some(b, cut);
    let left = pieces(a, cut);
    if b.len() == 0 {
        assert(a + b =~= a);
        assert(left.last() + pieces(b, cut).first() =~= left.last());
        assert(left.drop_last().push(left.last()) + pieces(b, cut).drop_first() =~= left);
    } else {
        let shorter = b.drop_last();
        lemma_pieces_of_sum(a, shorter, cut);
        lemma_pieces_some(shorter, cut);
        assert((a + b).drop_last() =~= a + shorter);
        assert((a + b).last() == b.last());
        let whole = pieces(a + shorter, cut);
        let right = pieces(shorter, cut);
        if cut(b.last()) {
            assert(pieces(a + b, cut) =~= left.drop_last().push(left.last() + pieces(b, cut).first())
                + pieces(b, cut).drop_first());
        } else {
            if right.len() == 1 {
                assert(pieces(b, cut) =~= seq![right.last().push(b.last())]);
                assert(left.last() + right.first().push(b.last()) =~= (left.last()
                    + right.first()).push(b.last()));
                assert(pieces(a + b, cut) =~= left.drop_last().push(
                    left.last() + pieces(b, cut).first(),
                ) + pieces(b, cut).drop_first());
            } else {
                assert(pieces(a + b, cut) =~= left.drop_last().push(
                    left.last() + pieces(b, cut).first(),
                ) + pieces(b, cut).drop_first());
            }
        }
    }
}

/// The text of `lines`: each line, then a line feed.
pub open spec fn lines_text(lines: Seq<Seq<char>>) -> Seq<char>
    decreases lines.len(),
{
    if lines.len() == 0 {
        Seq::<char>::empty()
    } else {
        lines_text(lines.drop_last()) + lines.last().push('\n')
    }
}

/// Whether `line` can be written as a line and read back: it holds no line
/// feed and does not end with a carriage return.
pub open spec fn is_line(line: Seq<char>) -> bool {
    &&& forall|i: int| 0 <= i < line.len() ==> !is_newline(#[trigger] line[i])
    &&& line.len() > 0 ==> line.last() != '\r'
}

/// The text of two runs of lines is the text of the first, then the text of the second.
proof fn lemma_lines_text_of_sum(a: Seq<Seq<char>>, b: Seq<Seq<char>>)
    ensures
        lines_text(a + b) == lines_text(a) + lines_text(b),
    decreases b.len(),
{
    if b.len() == 0 {
        assert(a + b =~= a);
        assert(lines_text(a) + lines_text(b) =~= lines_text(a));
    } else {
        lemma_lines_text_of_sum(a, b.drop_last());
        assert((a + b).drop_last() =~= a + b.drop_last());
        assert((a + b).last() == b.last());
        assert(lines_text(a + b) =~= lines_text(a) + lines_text(b));
    }
}

/// The stretches between the line feeds of a text of lines are the lines, then an empty stretch.
proof fn lemma_pieces_of_lines_text(lines: Seq<Seq<char>>)
    requires
        forall|k: int| 0 <= k < lines.len() ==> is_line(#[trigger] lines[k]),
    ensures
        pieces(lines_text(lines), |c: char| is_newline(c)) == lines.push(Seq::<char>::empty()),
    decreases lines.len(),
{
    let cut = |c: char| is_newline(c);
    if lines.len() == 0 {
        assert(pieces(lines_text(lines), cut) =~= lines.push(Seq::<char>::empty()));
    } else {
        let before = lines.drop_last();
        let line = lines.last();
        assert forall|k: int| 0 <= k < before.len() implies is_line(#[trigger] before[k]) by {
            assert(before[k] == lines[k]);
        }
        lemma_pieces_of_lines_text(before);
        assert(is_line(line));
        lemma_pieces_of_plain(line, cut);
        let ended = line.push('\n');
        assert(ended.drop_last() =~= line);
        assert(pieces(ended, cut) =~= seq![line, Seq::<char>::empty()]);
        lemma_pieces_of_sum(lines_text(before), ended, cut);
        let left = pieces(lines_text(before), cut);
        assert(left.last() + pieces(ended, cut).first() =~= line);
        assert(left.drop_last() =~= before);
        assert(before.push(line) =~= lines);
        assert(pieces(ended, cut).drop_first() =~= seq![Seq::<char>::empty()]);
        assert(lines + seq![Seq::<char>::empty()] =~= lines.push(Seq::<char>::empty()));
    }
}

/// A text of lines reads back as the lines.
pub proof fn lemma_lines_read_back(lines: Seq<Seq<char>>)
    requires
        forall|k: int| 0 <= k < lines.len() ==> is_line(#[trigger] lines[k]),
    ensures
        lines_of(lines_text(lines)) == lines,
{
    lemma_pieces_of_lines_text(lines);
    let stretches = pieces(lines_text(lines), |c: char| is_newline(c));
    assert(stretches.drop_last() =~= lines);
    assert forall|k: int| 0 <= k < lines.len() implies without_return(#[trigger] lines[k])
        == lines[k] by {
        assert(is_line(lines[k]));
    }
    assert(lines.map_values(|line: Seq<char>| without_return(line)) =~= lines);
}

/// Whether `text` is one word: not empty, and without a blank.
pub open spec fn is_word(text: Seq<char>) -> bool {
    text.len() > 0 && !has_blank(text)
}

/// Whether `text` is words with one space between neighbours, one word at least.
pub open spec fn is_tidy(text: Seq<char>) -> bool {
    words_of(text).len() >= 1 && joined(words_of(text)) == text
}

/// Taking the quotes off a field gives what taking them off its text gives.
pub proof fn lemma_unquoted_of_quoted(text: Seq<char>)
    ensures
        unquoted(quoted(text)) == unquoted(text),
{
    if has_blank(text) && !is_quoted(text) {
        let field = seq!['"'] + text + seq!['"'];
        assert(field.first() == '"' && field.last() == '"');
        assert(field.subrange(1, field.len() - 1) =~= text);
    }
}

/// A word is its own field.
proof fn lemma_quoted_word(text: Seq<char>)
    requires
        !has_blank(text),
    ensures
        quoted(text) == text,
{
}

/// Every word of a text is a word.
proof fn lemma_words_are_words(text: Seq<char>)
    ensures
        forall|k: int| 0 <= k < words_of(text).len() ==> is_word(#[trigger] words_of(text)[k]),
{
    let cut = |c: char| is_blank(c);
    let full = |word: Seq<char>| word.len() > 0;
    let stretches = pieces(text, cut);
    lemma_pieces_hold_no_cut(text, cut);
    assert forall|k: int| 0 <= k < words_of(text).len() implies is_word(
        #[trigger] words_of(text)[k],
    ) by {
        let word = stretches.filter(full)[k];
        stretches.lemma_filter_pred(full, k);
        assert(stretches.filter(full).contains(word));
        stretches.lemma_filter_contains_rev(full, word);
        let at = choose|at: int| 0 <= at < stretches.len() && stretches[at] == word;
        assert forall|i: int| 0 <= i < word.len() implies !is_blank(#[trigger] word[i]) by {
            assert(!cut(stretches[at][i]));
        }
    }
}

/// The words of a word, a space and a text are the word, then the words of the text.
proof fn lemma_words_after_word(word: Seq<char>, rest: Seq<char>)
    requires
        is_word(word),
    ensures
        words_of(word.push(' ') + rest) == seq![word] + words_of(rest),
{
    let cut = |c: char| is_blank(c);
    let full = |word: Seq<char>| word.len() > 0;
    let head = word.push(' ');
    assert forall|i: int| 0 <= i < word.len() implies !cut(#[trigger] word[i]) by {}
    lemma_pieces_of_plain(word, cut);
    assert(head.drop_last() =~= word);
    assert(pieces(head, cut) =~= seq![word, Seq::<char>::empty()]);
    lemma_pieces_some(rest, cut);
    lemma_pieces_of_sum(head, rest, cut);
    let right = pieces(rest, cut);
    assert(Seq::<char>::empty() + right.first() =~= right.first());
    assert(pieces(head + rest, cut) =~= seq![word] + right);
    Seq::filter_distributes_over_add(seq![word], right, full);
    assert(seq![word].filter(full) =~= seq![word]) by {
        Seq::<Seq<char>>::empty().lemma_filter_push(word, full);
        reveal(Seq::filter);
        assert(Seq::<Seq<char>>::empty().push(word) =~= seq![word]);
        assert(Seq::<Seq<char>>::empty().filter(full) =~= Seq::<Seq<char>>::empty());
    }
}

/// A vertex line of a word and a tidy text has the two as its fields.
pub proof fn lemma_fields_of_two(first: Seq<char>, last: Seq<char>)
    requires
        is_word(first),
        is_tidy(last),
    ensures
        fields_of(first.push(' ') + last, 2) == Some(seq![first, last]),
{
    lemma_words_after_word(first, last);
    let words = seq![first] + words_of(last);
    assert(words.skip(1) =~= words_of(last));
    assert(words.take(1).push(last) =~= seq![first, last]);
}

/// An edge line of two words and a tidy text has the three as its fields.
pub proof fn lemma_fields_of_three(first: Seq<char>, second: Seq<char>, last: Seq<char>)
    requires
        is_word(first),
        is_word(second),
        is_tidy(last),
    ensures
        fields_of(first.push(' ') + second.push(' ') + last, 3) == Some(seq![first, second, last]),
{
    let tail = second.push(' ') + last;
    lemma_words_after_word(second, last);
    lemma_words_after_word(first, tail);
    assert(first.push(' ') + second.push(' ') + last =~= first.push(' ') + tail);
    let words = seq![first] + (seq![second] + words_of(last));
    assert(words.skip(2) =~= words_of(last));
    assert(words.take(2).push(last) =~= seq![first, second, last]);
}

/// Words joined hold spaces and characters that are no blanks, and end with one that is none.
proof fn lemma_joined_is_line(words: Seq<Seq<char>>)
    requires
        words.len() >= 1,
        forall|k: int| 0 <= k < words.len() ==> is_word(#[trigger] words[k]),
    ensures
        joined(words).len() > 0,
        !is_blank(joined(words).last()),
        forall|i: int|
            0 <= i < joined(words).len() ==> (#[trigger] joined(words)[i]) == ' ' || !is_blank(
                joined(words)[i],
            ),
    decreases words.len(),
{
    let last = words.last();
    assert(is_word(last));
    assert forall|i: int| 0 <= i < last.len() implies !is_blank(#[trigger] last[i]) by {}
    if words.len() > 1 {
        let before = words.drop_last();
        assert forall|k: int| 0 <= k < before.len() implies is_word(#[trigger] before[k]) by {
            assert(before[k] == words[k]);
        }
        lemma_joined_is_line(before);
        let text = joined(before).push(' ') + last;
        assert(joined(words) == text);
        assert forall|i: int| 0 <= i < text.len() implies (#[trigger] text[i]) == ' ' || !is_blank(
            text[i],
        ) by {
            if i < joined(before).len() {
                assert(text[i] == joined(before)[i]);
            } else if i > joined(before).len() {
                assert(text[i] == last[i - joined(before).len() - 1]);
            }
        }
        assert(text.last() == last.last());
    }
}

/// A tidy text can be written as the end of a line.
proof fn lemma_tidy_is_line(text: Seq<char>)
    requires
        is_tidy(text),
    ensures
        text.len() > 0,
        is_line(text),
{
    lemma_words_are_words(text);
    lemma_joined_is_line(words_of(text));
    assert forall|i: int| 0 <= i < text.len() implies !is_newline(#[trigger] text[i]) by {
        assert(text[i] == ' ' || !is_blank(text[i]));
    }
}

/// The vertex lines of `vertices`.
pub open spec fn vertex_lines(vertices: Seq<(Seq<char>, Seq<char>)>) -> Seq<Seq<char>> {
    vertices.map_values(|vertex: (Seq<char>, Seq<char>)| vertex_line(vertex.0, vertex.1))
}

/// The edge lines of `edges`.
pub open spec fn edge_lines(edges: Seq<(Seq<char>, Seq<char>, Seq<char>)>) -> Seq<Seq<char>> {
    edges.map_values(|edge: (Seq<char>, Seq<char>, Seq<char>)| edge_line(edge.0, edge.1, edge.2))
}

/// The lines of the text of a graph: vertex lines, the separator line, edge lines.
pub open spec fn document_lines(
    vertices: Seq<(Seq<char>, Seq<char>)>,
    edges: Seq<(Seq<char>, Seq<char>, Seq<char>)>,
) -> Seq<Seq<char>> {
    vertex_lines(vertices).push(separator()) + edge_lines(edges)
}

/// Whether the texts of `vertices` and `edges` can be read back from the
/// lines they are written to: each id is a word, and each value, as a
/// field, is words with one space between neighbours.
pub open spec fn reads_back(
    vertices: Seq<(Seq<char>, Seq<char>)>,
    edges: Seq<(Seq<char>, Seq<char>, Seq<char>)>,
) -> bool {
    &&& forall|i: int|
        0 <= i < vertices.len() ==> is_word((#[trigger] vertices[i]).0) && is_tidy(
            quoted(vertices[i].1),
        )
    &&& forall|j: int|
        0 <= j < edges.len() ==> is_word((#[trigger] edges[j]).0) && is_word(edges[j].1)
            && is_tidy(quoted(edges[j].2))
}

/// The vertex lines in a row are the text of the vertex lines.
proof fn lemma_vertex_block_is_lines(vertices: Seq<(Seq<char>, Seq<char>)>)
    ensures
        vertex_block(vertices) == lines_text(vertex_lines(vertices)),
    decreases vertices.len(),
{
    if vertices.len() > 0 {
        lemma_vertex_block_is_lines(vertices.drop_last());
        assert(vertex_lines(vertices).drop_last() =~= vertex_lines(vertices.drop_last()));
    }
}

/// The edge lines in a row are the text of the edge lines.
proof fn lemma_edge_block_is_lines(edges: Seq<(Seq<char>, Seq<char>, Seq<char>)>)
    ensures
        edge_block(edges) == lines_text(edge_lines(edges)),
    decreases edges.len(),
{
    if edges.len() > 0 {
        lemma_edge_block_is_lines(edges.drop_last());
        assert(edge_lines(edges).drop_last() =~= edge_lines(edges.drop_last()));
    }
}

/// The text of a graph is the text of its lines.
proof fn lemma_document_is_lines(
    vertices: Seq<(Seq<char>, Seq<char>)>,
    edges: Seq<(Seq<char>, Seq<char>, Seq<char>)>,
)
    ensures
        document(vertices, edges) == lines_text(document_lines(vertices, edges)),
{
    lemma_vertex_block_is_lines(vertices);
    lemma_edge_block_is_lines(edges);
    let head = vertex_lines(vertices).push(separator());
    assert(head.drop_last() =~= vertex_lines(vertices));
    assert(lines_text(head) == vertex_block(vertices) + separator().push('\n'));
    lemma_lines_text_of_sum(head, edge_lines(edges));
}

/// A written text reads back. Where the ids are words and the values, as
/// fields, are tidy, the lines of the text of a graph are the lines it was
/// written from: the separator is found after the vertex lines, no line has
/// too few words, and each line has the fields that were written, the last
/// one in its quotes.
pub proof fn lemma_document_reads_back(
    vertices: Seq<(Seq<char>, Seq<char>)>,
    edges: Seq<(Seq<char>, Seq<char>, Seq<char>)>,
)
    requires
        reads_back(vertices, edges),
    ensures
        lines_of(document(vertices, edges)) == document_lines(vertices, edges),
        is_separator_at(lines_of(document(vertices, edges)), vertices.len() as int),
        separator_of(lines_of(document(vertices, edges))) == vertices.len(),
        forall|i: int|
            !#[trigger] is_malformed_at(
                lines_of(document(vertices, edges)),
                vertices.len() as int,
                i,
            ),
        forall|i: int|
            0 <= i < vertices.len() ==> fields_of(
                #[trigger] lines_of(document(vertices, edges))[i],
                2,
            ) == Some(seq![vertices[i].0, quoted(vertices[i].1)]),
        forall|j: int|
            0 <= j < edges.len() ==> fields_of(
                #[trigger] lines_of(document(vertices, edges))[vertices.len() + 1 + j],
                3,
            ) == Some(seq![edges[j].0, edges[j].1, quoted(edges[j].2)]),
{
    let lines = document_lines(vertices, edges);
    let count = vertices.len() as int;
    assert(lines.len() == count + 1 + edges.len());
    assert(lines[count] == separator());
    assert forall|i: int| 0 <= i < count implies {
        &&& is_line(#[trigger] lines[i])
        &&& lines[i] != separator()
        &&& fields_of(lines[i], 2) == Some(seq![vertices[i].0, quoted(vertices[i].1)])
    } by {
        let id = vertices[i].0;
        let value = quoted(vertices[i].1);
        assert(is_word(id) && is_tidy(value));
        assert(lines[i] == vertex_line(vertices[i].0, vertices[i].1));
        lemma_quoted_word(id);
        lemma_tidy_is_line(value);
        lemma_fields_of_two(id, value);
        let line = id.push(' ') + value;
        assert(line.len() >= 2);
        assert forall|k: int| 0 <= k < line.len() implies !is_newline(#[trigger] line[k]) by {
            if k < id.len() {
                assert(line[k] == id[k]);
                assert(!is_blank(id[k]));
            } else if k > id.len() {
                assert(line[k] == value[k - id.len() - 1]);
            }
        }
        assert(line.last() == value.last());
    }
    assert forall|j: int| 0 <= j < edges.len() implies {
        &&& is_line(#[trigger] lines[count + 1 + j])
        &&& fields_of(lines[count + 1 + j], 3) == Some(
            seq![edges[j].0, edges[j].1, quoted(edges[j].2)],
        )
    } by {
        let from = edges[j].0;
        let to = edges[j].1;
        let value = quoted(edges[j].2);
        assert(is_word(from) && is_word(to) && is_tidy(value));
        assert(lines[count + 1 + j] == edge_line(edges[j].0, edges[j].1, edges[j].2));
        lemma_quoted_word(from);
        lemma_quoted_word(to);
        lemma_tidy_is_line(value);
        lemma_fields_of_three(from, to, value);
        let line = from.push(' ') + to.push(' ') + value;
        assert forall|k: int| 0 <= k < line.len() implies !is_newline(#[trigger] line[k]) by {
            if k < from.len() {
                assert(line[k] == from[k]);
                assert(!is_blank(from[k]));
            } else if from.len() < k && k < from.len() + 1 + to.len() {
                assert(line[k] == to[k - from.len() - 1]);
                assert(!is_blank(to[k - from.len() - 1]));
            } else if k > from.len() + 1 + to.len() {
                assert(line[k] == value[k - from.len() - to.len() - 2]);
            }
        }
        assert(line.last() == value.last());
    }
    assert(is_line(separator()));
    assert forall|k: int| 0 <= k < lines.len() implies is_line(#[trigger] lines[k]) by {
        if k < count {
        } else if k > count {
            assert(lines[count + 1 + (k - count - 1)] == lines[k]);
        }
    }
    lemma_document_is_lines(vertices, edges);
    lemma_lines_read_back(lines);
    lemma_first_separator(lines, count);
    assert forall|i: int| !#[trigger] is_malformed_at(lines, count, i) by {
        if 0 <= i < lines.len() && i > count {
            assert(lines[count + 1 + (i - count - 1)] == lines[i]);
        }
    }
}

} // verus!
