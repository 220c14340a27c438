//! Lines of text, and the property that each of them writes.
use vstd::prelude::*;

use crate::model::{RecurrenceSpec, RecurrenceView};
use crate::text;

verus! {

/// A line without the carriage return before its end.
pub open spec fn without_return(line: Seq<char>) -> Seq<char> {
    if line.len() > 0 && line.last() == '\r' {
        line.drop_last()
    } else {
        line
    }
}

/// The lines of the pieces between line feeds: a carriage return before a line feed belongs to the
/// line's end, and a last line that is empty is none.
pub open spec fn lines_of(pieces: Seq<Seq<char>>) -> Seq<Seq<char>> {
    let last = pieces.len() - 1;
    let ended = Seq::new(last as nat, |i: int| without_return(pieces[i]));
    if pieces[last].len() == 0 {
        ended
    } else {
        ended.push(pieces[last])
    }
}

/// The lines of a text.
pub open spec fn lines(s: Seq<char>) -> Seq<Seq<char>> {
    lines_of(text::split(s, '\n'))
}

/// The lines of a text.
pub fn split_lines(s: &Vec<char>) -> (r: Vec<Vec<char>>)
    ensures
        text::char_views(r@) == lines(s@),
{
    let mut pieces = text::split_chars(s, '\n');
    let ghost all = text::char_views(pieces@);
    let ghost ended = Seq::new((all.len() - 1) as nat, |i: int| without_return(all[i]));
    let mut out: Vec<Vec<char>> = Vec::new();
    let last: usize = pieces.len() - 1;
    for i in 0..last
        invariant
            last == pieces@.len() - 1,
            all == text::char_views(pieces@),
            ended == Seq::new((all.len() - 1) as nat, |i: int| without_return(all[i])),
            text::char_views(out@) == ended.take(i as int),
    {
        let piece = &pieces[i];
        let ghost before = out@;
        let n: usize = piece.len();
        let line = if n > 0 && piece[n - 1] == '\r' {
            text::slice(piece, 0, n - 1)
        } else {
            text::slice(piece, 0, n)
        };
        assert(line@ =~= without_return(piece@));
        out.push(line);
        assert(text::char_views(out@) =~= text::char_views(before).push(line@));
        assert(ended.take(i + 1) =~= ended.take(i as int).push(line@));
    }
    assert(ended.take(last as int) =~= ended);
    let ghost before = out@;
    if pieces[last].len() > 0 {
        let n: usize = pieces[last].len();
        let line = text::slice(&pieces[last], 0, n);
        assert(line@ =~= all[last as int]);
        out.push(line);
        assert(text::char_views(out@) =~= text::char_views(before).push(line@));
    }
    out
}

/// The lines that were joined by line feeds come back, where none holds a line feed or ends in a
/// carriage return, and the last is not empty.
pub proof fn lemma_lines_of_join(parts: Seq<Seq<char>>)
    requires
        forall|i: int|
            0 <= i < parts.len() ==> !(#[trigger] parts[i]).contains('\n') && without_return(parts[i])
                == parts[i],
        parts.len() > 0 ==> parts.last().len() > 0,
    ensures
        lines(text::join(parts, seq!['\n'])) == parts,
{
    if parts.len() == 0 {
        let s = text::join(parts, seq!['\n']);
        assert(s == Seq::<char>::empty());
        assert(text::split(s, '\n') == seq![s]);
        assert(lines(s) =~= parts);
    } else {
        text::lemma_split_of_join(parts, '\n');
        assert(lines_of(parts) =~= parts);
    }
}

// ---------------------------------------------------------------------------------------------
// Properties
// ---------------------------------------------------------------------------------------------

/// The name of the property that a line writes, in capitals: what stands before the first colon,
/// without any parameters. None where there is no colon.
pub open spec fn property_name(line: Seq<char>) -> Option<Seq<char>> {
    match text::split_once(line, ':') {
        Some((key, _)) => Some(text::upper(text::split(key, ';')[0])),
        None => None,
    }
}

/// The name of the property that a line writes, in capitals.
pub fn name_of_property(line: &Vec<char>) -> (r: Option<Vec<char>>)
    ensures
        match r {
            Some(name) => property_name(line@) == Some(name@),
            None => property_name(line@) is None,
        },
{
    match text::split_chars_once(line, ':') {
        Some((key, _)) => {
            let parts = text::split_chars(&key, ';');
            assert(text::char_views(parts@)[0] == parts@[0]@);
            Some(text::upper_chars(&parts[0]))
        },
        None => None,
    }
}

/// Whether a line writes the property with a name.
pub open spec fn writes(name: Seq<char>) -> spec_fn(Seq<char>) -> bool {
    |line: Seq<char>| property_name(line) == Some(name)
}

/// The recurrence properties among lines.
pub open spec fn recurrence_of(lines: Seq<Seq<char>>) -> RecurrenceView {
    RecurrenceView {
        rrule: lines.filter(writes("RRULE"@)),
        rdate: lines.filter(writes("RDATE"@)),
        exdate: lines.filter(writes("EXDATE"@)),
    }
}

/// One more item at the end of a list that is filtered.
pub proof fn lemma_filter_push<A>(s: Seq<A>, x: A, p: spec_fn(A) -> bool)
    ensures
        s.push(x).filter(p) == if p(x) {
            s.filter(p).push(x)
        } else {
            s.filter(p)
        },
{
    reveal(Seq::filter);
    assert(s.push(x).drop_last() =~= s);
}

/// The recurrence properties among lines.
pub fn collect_recurrence(lines: &Vec<Vec<char>>) -> (r: RecurrenceSpec)
    ensures
        r@ == recurrence_of(text::char_views(lines@)),
{
    let ghost all = text::char_views(lines@);
    let mut rrule: Vec<String> = Vec::new();
    let mut rdate: Vec<String> = Vec::new();
    let mut exdate: Vec<String> = Vec::new();
    proof {
        reveal(Seq::filter);
        reveal_strlit("RRULE");
        reveal_strlit("RDATE");
        reveal_strlit("EXDATE");
        assert("RRULE"@.len() == 5 && "RDATE"@.len() == 5 && "EXDATE"@.len() == 6);
        assert("RRULE"@[1] != "RDATE"@[1]);
        assert(text::views(rrule@) =~= all.take(0).filter(writes("RRULE"@)));
        assert(text::views(rdate@) =~= all.take(0).filter(writes("RDATE"@)));
        assert(text::views(exdate@) =~= all.take(0).filter(writes("EXDATE"@)));
    }
    for i in 0..lines.len()
        invariant
            all == text::char_views(lines@),
            "RRULE"@ != "RDATE"@,
            "RRULE"@ != "EXDATE"@,
            "RDATE"@ != "EXDATE"@,
            text::views(rrule@) == all.take(i as int).filter(writes("RRULE"@)),
            text::views(rdate@) == all.take(i as int).filter(writes("RDATE"@)),
            text::views(exdate@) == all.take(i as int).filter(writes("EXDATE"@)),
    {
        let line = &lines[i];
        let ghost (rules, dates, exceptions) = (rrule@, rdate@, exdate@);
        proof {
            assert(all.take(i + 1) =~= all.take(i as int).push(line@));
            lemma_filter_push(all.take(i as int), line@, writes("RRULE"@));
            lemma_filter_push(all.take(i as int), line@, writes("RDATE"@));
            lemma_filter_push(all.take(i as int), line@, writes("EXDATE"@));
        }
        if let Some(name) = name_of_property(line) {
            let written = text::string_of(line);
            if text::chars_are(&name, "RRULE") {
                rrule.push(written);
                assert(text::views(rrule@) =~= text::views(rules).push(line@));
            } else if text::chars_are(&name, "RDATE") {
                rdate.push(written);
                assert(text::views(rdate@) =~= text::views(dates).push(line@));
            } else if text::chars_are(&name, "EXDATE") {
                exdate.push(written);
                assert(text::views(exdate@) =~= text::views(exceptions).push(line@));
            }
        }
    }
    assert(all.take(all.len() as int) =~= all);
    RecurrenceSpec { rrule, rdate, exdate }
}

/// Whether all lines of a list write the property with a name.
pub open spec fn all_write(lines: Seq<Seq<char>>, name: Seq<char>) -> bool {
    forall|i: int| 0 <= i < lines.len() ==> property_name(#[trigger] lines[i]) == Some(name)
}

/// Filtering lines that all write one property keeps all or none of them.
pub proof fn lemma_filter_written(lines: Seq<Seq<char>>, name: Seq<char>, wanted: Seq<char>)
    requires
        all_write(lines, name),
    ensures
        lines.filter(writes(wanted)) == if name == wanted {
            lines
        } else {
            seq![]
        },
    decreases lines.len(),
{
    reveal(Seq::filter);
    if lines.len() > 0 {
        let before = lines.drop_last();
        assert forall|i: int| 0 <= i < before.len() implies property_name(#[trigger] before[i])
            == Some(name) by {
            assert(before[i] == lines[i]);
        }
        lemma_filter_written(before, name, wanted);
        assert(property_name(lines[lines.len() - 1]) == Some(name));
        assert(lines =~= before.push(lines.last()));
    } else {
        assert(lines =~= seq![]);
    }
}

/// Lines of rules, dates and exceptions, one list after the other, are told apart again.
pub proof fn lemma_recurrence_of(recurrence: RecurrenceView)
    requires
        all_write(recurrence.rrule, "RRULE"@),
        all_write(recurrence.rdate, "RDATE"@),
        all_write(recurrence.exdate, "EXDATE"@),
    ensures
        recurrence_of(recurrence.rrule + recurrence.rdate + recurrence.exdate) == recurrence,
{
    reveal_strlit("RRULE");
    reveal_strlit("RDATE");
    reveal_strlit("EXDATE");
    assert("RRULE"@[1] != "RDATE"@[1]);
    assert("RRULE"@.len() != "EXDATE"@.len());
    assert("RDATE"@.len() != "EXDATE"@.len());
    let (a, b, c) = (recurrence.rrule, recurrence.rdate, recurrence.exdate);
    lemma_filter_concat(a, b, c, "RRULE"@);
    lemma_filter_concat(a, b, c, "RDATE"@);
    lemma_filter_concat(a, b, c, "EXDATE"@);
    lemma_filter_written(a, "RRULE"@, "RRULE"@);
    lemma_filter_written(a, "RRULE"@, "RDATE"@);
    lemma_filter_written(a, "RRULE"@, "EXDATE"@);
    lemma_filter_written(b, "RDATE"@, "RRULE"@);
    lemma_filter_written(b, "RDATE"@, "RDATE"@);
    lemma_filter_written(b, "RDATE"@, "EXDATE"@);
    lemma_filter_written(c, "EXDATE"@, "RRULE"@);
    lemma_filter_written(c, "EXDATE"@, "RDATE"@);
    lemma_filter_written(c, "EXDATE"@, "EXDATE"@);
    assert(recurrence_of(a + b + c) =~= recurrence);
}

proof fn lemma_filter_concat(
    a: Seq<Seq<char>>,
    b: Seq<Seq<char>>,
    c: Seq<Seq<char>>,
    name: Seq<char>,
)
    ensures
        (a + b + c).filter(writes(name)) == a.filter(writes(name)) + b.filter(writes(name))
            + c.filter(writes(name)),
{
    Seq::filter_distributes_over_add(a + b, c, writes(name));
    Seq::filter_distributes_over_add(a, b, writes(name));
}

/// A text is read line by line: lines that hold no break are read back from a text where each ends with
/// one, with or without a return before it.
pub proof fn law_lines_end_with_breaks(line: Seq<char>, rest: Seq<char>)
    requires
        !line.contains('\n'),
        line.len() == 0 || line.last() != '\r',
    ensures
        lines(line + "\n"@ + rest) == seq![line] + lines(rest),
        lines(line + "\r\n"@ + rest) == seq![line] + lines(rest),
        lines(Seq::empty()) == Seq::<Seq<char>>::empty(),
        line.len() > 0 ==> lines(line) == seq![line],
{
    reveal_strlit("\n");
    reveal_strlit("\r\n");
    lemma_split_first(line, rest);
    let ended = line.push('\r');
    assert(!ended.contains('\n')) by {
        if ended.contains('\n') {
            let k = choose|k: int| 0 <= k < ended.len() && ended[k] == '\n';
            if k < line.len() {
                assert(line[k] == '\n');
                assert(line.contains('\n'));
            }
        }
    }
    lemma_split_first(ended, rest);
    assert(line + "\n"@ + rest =~= line + seq!['\n'] + rest);
    assert(line + "\r\n"@ + rest =~= ended + seq!['\n'] + rest);
    let pieces = text::split(rest, '\n');
    text::lemma_split(rest, '\n');
    lemma_lines_of_first(line, pieces);
    lemma_lines_of_first(ended, pieces);
    assert(without_return(ended) =~= line);
    lemma_split_none(Seq::empty());
    assert(lines(Seq::empty()) =~= Seq::<Seq<char>>::empty());
    lemma_split_none(line);
    if line.len() > 0 {
        assert(lines(line) =~= seq![line]);
    }
}

/// A text without breaks is one piece.
proof fn lemma_split_none(line: Seq<char>)
    requires
        !line.contains('\n'),
    ensures
        text::split(line, '\n') == seq![line],
{
    text::lemma_index_of_char(line, '\n');
    let at = text::index_of_char(line, '\n');
    if 0 <= at < line.len() {
        assert(line[at] == '\n');
    }
}

/// A text begins with the piece before its first break.
proof fn lemma_split_first(line: Seq<char>, rest: Seq<char>)
    requires
        !line.contains('\n'),
    ensures
        text::split(line + seq!['\n'] + rest, '\n') == seq![line] + text::split(rest, '\n'),
{
    let whole = line + seq!['\n'] + rest;
    let at = line.len() as int;
    assert forall|k: int| 0 <= k < at implies whole[k] != '\n' by {
        assert(whole[k] == line[k]);
        assert(line.contains(line[k]));
    }
    text::lemma_index_of_char_unique(whole, '\n', at);
    assert(whole.take(at) =~= line);
    assert(whole.skip(at + 1) =~= rest);
}

/// A first piece that ends with a break is a first line.
proof fn lemma_lines_of_first(piece: Seq<char>, pieces: Seq<Seq<char>>)
    requires
        pieces.len() > 0,
    ensures
        lines_of(seq![piece] + pieces) == seq![without_return(piece)] + lines_of(pieces),
{
    let all = seq![piece] + pieces;
    let out = lines_of(all);
    let rest = lines_of(pieces);
    assert(all[all.len() - 1] == pieces[pieces.len() - 1]);
    assert forall|i: int| 0 <= i < out.len() implies out[i] == (seq![without_return(piece)] + rest)[i] by {
        if 0 < i < all.len() - 1 {
            assert(all[i] == pieces[i - 1]);
        }
    }
    assert(out =~= seq![without_return(piece)] + rest);
}

/// The name of a property is what stands before its value and its parameters, in capital letters.
pub proof fn law_name_of_a_property(name: Seq<char>, parameters: Seq<char>, value: Seq<char>)
    requires
        !name.contains(':'),
        !name.contains(';'),
        !parameters.contains(':'),
    ensures
        property_name(name + ":"@ + value) == Some(text::upper(name)),
        property_name(name + ";"@ + parameters + ":"@ + value) == Some(text::upper(name)),
        property_name(name) is None,
{
    reveal_strlit(":");
    reveal_strlit(";");
    let plain = name + ":"@ + value;
    let at = name.len() as int;
    assert forall|k: int| 0 <= k < at implies plain[k] != ':' by {
        assert(plain[k] == name[k]);
        assert(name.contains(name[k]));
    }
    text::lemma_index_of_char_unique(plain, ':', at);
    assert(plain.take(at) =~= name);
    text::lemma_index_of_char(name, ';');
    let key = name + ";"@ + parameters;
    let whole = key + ":"@ + value;
    let end = key.len() as int;
    assert forall|k: int| 0 <= k < end implies whole[k] != ':' by {
        assert(whole[k] == key[k]);
        if k < at {
            assert(key[k] == name[k]);
            assert(name.contains(name[k]));
        } else if k > at {
            assert(key[k] == parameters[k - at - 1]);
            assert(parameters.contains(parameters[k - at - 1]));
        }
    }
    text::lemma_index_of_char_unique(whole, ':', end);
    assert(whole.take(end) =~= key);
    assert forall|k: int| 0 <= k < at implies key[k] != ';' by {
        assert(key[k] == name[k]);
        assert(name.contains(name[k]));
    }
    text::lemma_index_of_char_unique(key, ';', at);
    assert(key.take(at) =~= name);
    let found = text::index_of_char(name, ';');
    if 0 <= found < name.len() {
        assert(name[found] == ';');
    }
    assert(text::split(name, ';')[0] =~= name);
    text::lemma_index_of_char(name, ':');
    let colon = text::index_of_char(name, ':');
    if 0 <= colon < name.len() {
        assert(name[colon] == ':');
    }
}

/// The lines of a recurrence are sorted by their names: rules, added dates and left out dates; others
/// are not kept.
pub proof fn law_lines_of_a_recurrence(lines: Seq<Seq<char>>, line: Seq<char>)
    ensures
        recurrence_of(lines).rrule.contains(line) <==> lines.contains(line) && property_name(line) == Some(
            "RRULE"@,
        ),
        recurrence_of(lines).rdate.contains(line) <==> lines.contains(line) && property_name(line) == Some(
            "RDATE"@,
        ),
        recurrence_of(lines).exdate.contains(line) <==> lines.contains(line) && property_name(line)
            == Some("EXDATE"@),
{
    lemma_lines_that_write(lines, line, "RRULE"@);
    lemma_lines_that_write(lines, line, "RDATE"@);
    lemma_lines_that_write(lines, line, "EXDATE"@);
}

/// A line is kept where it has the name.
proof fn lemma_lines_that_write(lines: Seq<Seq<char>>, line: Seq<char>, name: Seq<char>)
    ensures
        lines.filter(writes(name)).contains(line) <==> lines.contains(line) && property_name(line) == Some(
            name,
        ),
{
    let kept = lines.filter(writes(name));
    if kept.contains(line) {
        lines.lemma_filter_contains_rev(writes(name), line);
        let k = choose|k: int| 0 <= k < kept.len() && kept[k] == line;
        lines.lemma_filter_pred(writes(name), k);
    }
    if lines.contains(line) && property_name(line) == Some(name) {
        let i = choose|i: int| 0 <= i < lines.len() && lines[i] == line;
        lines.lemma_filter_contains(writes(name), i);
    }
}

} // verus!
