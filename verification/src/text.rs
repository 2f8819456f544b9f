use vstd::prelude::*;
use vstd::string::StringExecFns;

verus! {

/// The index of the first line feed of `text`, or the length of `text`
/// where it has none.
pub open spec fn first_break(text: Seq<char>) -> nat
    decreases text.len(),
{
    if text.len() == 0 {
        0
    } else if text[0] == '\n' {
        0
    } else {
        first_break(text.drop_first()) + 1
    }
}

/// The line of `text` that ends with the line feed at `at`, without the
/// carriage return that may stand before the line feed.
pub open spec fn line_before(text: Seq<char>, at: int) -> Seq<char> {
    if at > 0 && text[at - 1] == '\r' {
        text.subrange(0, at - 1)
    } else {
        text.subrange(0, at)
    }
}

/// The lines of `text`. A line ends with a line feed, or with a carriage
/// return and a line feed, which do not belong to it, or with the text;
/// nothing follows the last line feed of a text that ends with one.
pub open spec fn lines_of(text: Seq<char>) -> Seq<Seq<char>>
    decreases text.len(),
{
    if text.len() == 0 {
        Seq::empty()
    } else if first_break(text) >= text.len() {
        seq![text]
    } else {
        seq![line_before(text, first_break(text) as int)] + lines_of(
            text.subrange(first_break(text) as int + 1, text.len() as int),
        )
    }
}

/// The first line of `text` as far as its first line feed, or all of
/// `text` where it has none.
pub open spec fn summary_of(text: Seq<char>) -> Seq<char> {
    text.subrange(0, first_break(text) as int)
}

/// `lines` with a line feed between each two.
pub open spec fn joined(lines: Seq<Seq<char>>) -> Seq<char>
    decreases lines.len(),
{
    if lines.len() == 0 {
        Seq::empty()
    } else if lines.len() == 1 {
        lines[0]
    } else {
        joined(lines.drop_last()) + seq!['\n'] + lines.last()
    }
}

/// The first `limit` of `lines`, or all of them where there are fewer.
pub open spec fn leading(lines: Seq<Seq<char>>, limit: nat) -> Seq<Seq<char>> {
    if lines.len() <= limit {
        lines
    } else {
        lines.take(limit as int)
    }
}

/// What each of `lines` holds.
pub open spec fn texts_of(lines: Seq<String>) -> Seq<Seq<char>> {
    Seq::new(lines.len(), |i: int| lines[i]@)
}

/// Where `first_break` points: at the first line feed, or behind the text.
pub proof fn lemma_first_break(text: Seq<char>)
    ensures
        first_break(text) <= text.len(),
        first_break(text) < text.len() ==> text[first_break(text) as int] == '\n',
        forall|i: int| 0 <= i < first_break(text) ==> text[i] != '\n',
    decreases text.len(),
{
    if text.len() > 0 && text[0] != '\n' {
        let rest = text.drop_first();
        lemma_first_break(rest);
        assert forall|i: int| 0 <= i < first_break(text) implies text[i] != '\n' by {
            if i > 0 {
                assert(rest[i - 1] == text[i]);
            }
        }
        if first_break(text) < text.len() {
            assert(rest[first_break(rest) as int] == text[first_break(rest) as int + 1]);
        }
    }
}

/// A line feed, or the end of the text, with no line feed before it is
/// where `first_break` points.
proof fn lemma_first_break_is(text: Seq<char>, at: int)
    requires
        0 <= at <= text.len(),
        at < text.len() ==> text[at] == '\n',
        forall|i: int| 0 <= i < at ==> text[i] != '\n',
    ensures
        first_break(text) == at,
{
    lemma_first_break(text);
    let found = first_break(text) as int;
    if found < at {
        assert(text[found] != '\n');
    } else if found > at {
        assert(text[at] != '\n');
    }
}

/// The place of the first line feed of `text`, or its length, and
/// whether a carriage return stands before that place.
fn find_break(text: &str) -> (found: (usize, bool))
    ensures
        found.0 == first_break(text@),
        found.0 <= text@.len(),
        found.1 == (found.0 > 0 && text@[found.0 - 1] == '\r'),
{
    let len = text.unicode_len();
    let mut at: usize = 0;
    let mut after_return = false;
    for c in it: text.chars()
        invariant
            len == text@.len(),
            at == it.index(),
            it.seq() == text@,
            forall|i: int| 0 <= i < at ==> text@[i] != '\n',
            after_return == (at > 0 && text@[at - 1] == '\r'),
    {
        if c == '\n' {
            proof {
                lemma_first_break_is(text@, at as int);
            }
            return (at, after_return);
        }
        after_return = c == '\r';
        at += 1;
    }
    proof {
        lemma_first_break_is(text@, at as int);
    }
    (at, after_return)
}

/// The first line of `text`, as far as its first line feed.
pub fn summary(text: &str) -> (line: String)
    ensures
        line@ == summary_of(text@),
{
    let (at, _) = find_break(text);
    String::from_str(text.substring_char(0, at))
}

/// The first `limit` lines of `text`, or all of them where it has fewer.
pub fn leading_lines(text: &str, limit: usize) -> (lines: Vec<String>)
    ensures
        texts_of(lines@) == leading(lines_of(text@), limit as nat),
{
    let total = text.unicode_len();
    let mut lines: Vec<String> = Vec::new();
    let mut pos: usize = 0;
    assert(texts_of(lines@) =~= Seq::<Seq<char>>::empty());
    assert(text@.subrange(0, total as int) =~= text@);
    while pos < total && lines.len() < limit
        invariant
            pos <= total,
            total == text@.len(),
            lines.len() <= limit,
            texts_of(lines@) + lines_of(text@.subrange(pos as int, total as int)) == lines_of(
                text@,
            ),
        decreases total - pos,
    {
        let rest = text.substring_char(pos, total);
        let (at, after_return) = find_break(rest);
        let end = if at < total - pos && after_return {
            at - 1
        } else {
            at
        };
        let line = String::from_str(rest.substring_char(0, end));
        let ghost before = texts_of(lines@);
        lines.push(line);
        proof {
            assert(texts_of(lines@) =~= before.push(line@));
            if at < total - pos {
                assert(line@ == line_before(rest@, at as int));
                assert(rest@.subrange(at + 1, rest@.len() as int) =~= text@.subrange(
                    pos + at + 1,
                    total as int,
                ));
                assert(before.push(line@) + lines_of(
                    text@.subrange(pos + at + 1, total as int),
                ) =~= before + (seq![line@] + lines_of(
                    text@.subrange(pos + at + 1, total as int),
                )));
            } else {
                assert(rest@.subrange(0, end as int) =~= rest@);
                assert(text@.subrange(total as int, total as int) =~= Seq::<char>::empty());
                assert(before.push(line@) + Seq::<Seq<char>>::empty() =~= before + seq![line@]);
            }
        }
        if at < total - pos {
            pos = pos + at + 1;
        } else {
            pos = total;
        }
    }
    proof {
        let rest = lines_of(text@.subrange(pos as int, total as int));
        let all = lines_of(text@);
        assert(all.len() == lines.len() + rest.len());
        if pos >= total {
            assert(rest.len() == 0);
            assert(texts_of(lines@) =~= all);
        } else {
            assert(texts_of(lines@) =~= all.take(limit as int));
        }
    }
    lines
}

/// `lines` with a line feed between each two.
pub fn join_lines(lines: &Vec<String>) -> (text: String)
    ensures
        text@ == joined(texts_of(lines@)),
{
    let mut text = String::new();
    let mut i: usize = 0;
    assert(texts_of(lines@).take(0) =~= Seq::<Seq<char>>::empty());
    while i < lines.len()
        invariant
            i <= lines.len(),
            text@ == joined(texts_of(lines@).take(i as int)),
        decreases lines.len() - i,
    {
        proof {
            let upto = texts_of(lines@).take(i + 1);
            assert(upto.drop_last() =~= texts_of(lines@).take(i as int));
            assert(upto.last() == lines@[i as int]@);
            reveal_strlit("\n");
            assert("\n"@ =~= seq!['\n']);
            if i == 0 {
                assert(Seq::<char>::empty() + lines@[0]@ =~= lines@[0]@);
                assert(upto[0] == lines@[0]@);
            }
        }
        if i > 0 {
            text.append("\n");
        }
        text.append(lines[i].as_str());
        i += 1;
    }
    assert(texts_of(lines@).take(i as int) =~= texts_of(lines@));
    text
}

} // verus!
