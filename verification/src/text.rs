//! Text as sequences of characters.
use vstd::prelude::*;

verus! {

/// `String::push` appends one character to the text.
pub assume_specification[ String::push ](s: &mut String, c: char)
    ensures
        final(s)@ == old(s)@.push(c),
;

// ---------------------------------------------------------------------------------------------
// Between text and characters
// ---------------------------------------------------------------------------------------------

/// The contents of each text of a list.
pub open spec fn views(texts: Seq<String>) -> Seq<Seq<char>> {
    Seq::new(texts.len(), |i: int| texts[i]@)
}

/// The contents of each list of characters of a list.
pub open spec fn char_views(parts: Seq<Vec<char>>) -> Seq<Seq<char>> {
    Seq::new(parts.len(), |i: int| parts[i]@)
}

/// The characters of `s`, in order.
pub fn chars_of(s: &str) -> (r: Vec<char>)
    ensures
        r@ == s@,
{
    let mut out: Vec<char> = Vec::new();
    for c in it: s.chars()
        invariant
            it.seq() == s@,
            out@ == s@.take(it.index()),
    {
        out.push(c);
        proof {
            assert(s@.take(it.index() + 1) =~= s@.take(it.index()).push(s@[it.index()]));
        }
    }
    proof {
        assert(s@.take(s@.len() as int) =~= s@);
    }
    out
}

/// The text made of the characters `v`.
pub fn string_of(v: &Vec<char>) -> (r: String)
    ensures
        r@ == v@,
{
    let mut out = String::new();
    for i in 0..v.len()
        invariant
            out@ == v@.take(i as int),
    {
        out.push(v[i]);
        proof {
            assert(v@.take(i + 1) =~= v@.take(i as int).push(v@[i as int]));
        }
    }
    proof {
        assert(v@.take(v@.len() as int) =~= v@);
    }
    out
}

/// The characters `from..to` of `v`.
pub fn slice(v: &Vec<char>, from: usize, to: usize) -> (r: Vec<char>)
    requires
        from <= to <= v@.len(),
    ensures
        r@ == v@.subrange(from as int, to as int),
{
    let mut out: Vec<char> = Vec::new();
    let mut i: usize = from;
    while i < to
        invariant
            from <= i <= to <= v@.len(),
            out@ == v@.subrange(from as int, i as int),
        decreases to - i,
    {
        out.push(v[i]);
        proof {
            assert(v@.subrange(from as int, i + 1) =~= v@.subrange(from as int, i as int).push(
                v@[i as int],
            ));
        }
        i += 1;
    }
    out
}

/// Whether two lists of characters are the same.
pub fn same_chars(a: &Vec<char>, b: &Vec<char>) -> (r: bool)
    ensures
        r == (a@ == b@),
{
    if a.len() != b.len() {
        return false;
    }
    for i in 0..a.len()
        invariant
            a@.len() == b@.len(),
            forall|k: int| 0 <= k < i ==> a@[k] == b@[k],
    {
        if a[i] != b[i] {
            return false;
        }
    }
    assert(a@ =~= b@);
    true
}

/// Whether two texts are the same.
pub fn same_text(a: &str, b: &str) -> (r: bool)
    ensures
        r == (a@ == b@),
{
    same_chars(&chars_of(a), &chars_of(b))
}

/// Whether the characters of `a` are those of `b`.
pub fn chars_are(a: &Vec<char>, b: &str) -> (r: bool)
    ensures
        r == (a@ == b@),
{
    same_chars(a, &chars_of(b))
}

/// `a` followed by `b`.
pub fn joined(a: &str, b: &str) -> (r: String)
    ensures
        r@ == a@ + b@,
{
    let mut out = a.to_owned();
    out.append(b);
    out
}

/// A copy of a list of texts.
pub fn copy_texts(texts: &Vec<String>) -> (r: Vec<String>)
    ensures
        r@ == texts@,
{
    let mut out: Vec<String> = Vec::new();
    for i in 0..texts.len()
        invariant
            out@ == texts@.take(i as int),
    {
        out.push(texts[i].clone());
        proof {
            assert(texts@.take(i + 1) =~= texts@.take(i as int).push(texts@[i as int]));
        }
    }
    proof {
        assert(texts@.take(texts@.len() as int) =~= texts@);
    }
    out
}

/// Whether two lists hold the same texts in the same order.
pub fn same_texts(a: &Vec<String>, b: &Vec<String>) -> (r: bool)
    ensures
        r == (views(a@) == views(b@)),
{
    if a.len() != b.len() {
        proof {
            assert(views(a@).len() != views(b@).len());
        }
        return false;
    }
    for i in 0..a.len()
        invariant
            a@.len() == b@.len(),
            forall|k: int| 0 <= k < i ==> a@[k]@ == b@[k]@,
    {
        if !same_text(a[i].as_str(), b[i].as_str()) {
            proof {
                assert(views(a@)[i as int] != views(b@)[i as int]);
            }
            return false;
        }
    }
    assert(views(a@) =~= views(b@));
    true
}

// ---------------------------------------------------------------------------------------------
// Characters
// ---------------------------------------------------------------------------------------------

/// Whether `c` has Unicode's White_Space property.
pub open spec fn is_white(c: char) -> bool {
    let n = c as u32;
    9 <= n <= 13 || n == 0x20 || n == 0x85 || n == 0xa0 || n == 0x1680 || 0x2000 <= n <= 0x200a
        || n == 0x2028 || n == 0x2029 || n == 0x202f || n == 0x205f || n == 0x3000
}

/// Whether `c` has Unicode's White_Space property.
pub fn white(c: char) -> (r: bool)
    ensures
        r == is_white(c),
{
    let n: u32 = c as u32;
    (9 <= n && n <= 13) || n == 0x20 || n == 0x85 || n == 0xa0 || n == 0x1680 || (0x2000 <= n && n
        <= 0x200a) || n == 0x2028 || n == 0x2029 || n == 0x202f || n == 0x205f || n == 0x3000
}

/// Whether `c` is one of `0` to `9`.
pub open spec fn is_digit(c: char) -> bool {
    '0' <= c <= '9'
}

/// Whether `c` is a hexadecimal digit.
pub open spec fn is_hex_digit(c: char) -> bool {
    ('0' <= c <= '9') || ('a' <= c <= 'f') || ('A' <= c <= 'F')
}

/// Whether `c` is a hexadecimal digit.
pub fn hex_digit(c: char) -> (r: bool)
    ensures
        r == is_hex_digit(c),
{
    ('0' <= c && c <= '9') || ('a' <= c && c <= 'f') || ('A' <= c && c <= 'F')
}

/// `c` with an ASCII capital letter made small.
pub open spec fn lower_char(c: char) -> char {
    if 'A' <= c <= 'Z' {
        (c as u8 + 32) as char
    } else {
        c
    }
}

/// `c` with a small ASCII letter made capital.
pub open spec fn upper_char(c: char) -> char {
    if 'a' <= c <= 'z' {
        (c as u8 - 32) as char
    } else {
        c
    }
}

/// `c` with an ASCII capital letter made small.
pub fn to_lower(c: char) -> (r: char)
    ensures
        r == lower_char(c),
{
    if 'A' <= c && c <= 'Z' {
        (c as u8 + 32) as char
    } else {
        c
    }
}

/// `c` with a small ASCII letter made capital.
pub fn to_upper(c: char) -> (r: char)
    ensures
        r == upper_char(c),
{
    if 'a' <= c && c <= 'z' {
        (c as u8 - 32) as char
    } else {
        c
    }
}

/// `s` with its ASCII letters made small.
pub open spec fn lower(s: Seq<char>) -> Seq<char> {
    Seq::new(s.len(), |i: int| lower_char(s[i]))
}

/// `s` with its ASCII letters made capital.
pub open spec fn upper(s: Seq<char>) -> Seq<char> {
    Seq::new(s.len(), |i: int| upper_char(s[i]))
}

/// `s` with its ASCII letters made small.
pub fn lower_chars(s: &Vec<char>) -> (r: Vec<char>)
    ensures
        r@ == lower(s@),
{
    let mut out: Vec<char> = Vec::new();
    for i in 0..s.len()
        invariant
            out@ == lower(s@.take(i as int)),
    {
        out.push(to_lower(s[i]));
        assert(out@ =~= lower(s@.take(i + 1)));
    }
    assert(s@.take(s@.len() as int) =~= s@);
    out
}

/// `s` with its ASCII letters made capital.
pub fn upper_chars(s: &Vec<char>) -> (r: Vec<char>)
    ensures
        r@ == upper(s@),
{
    let mut out: Vec<char> = Vec::new();
    for i in 0..s.len()
        invariant
            out@ == upper(s@.take(i as int)),
    {
        out.push(to_upper(s[i]));
        assert(out@ =~= upper(s@.take(i + 1)));
    }
    assert(s@.take(s@.len() as int) =~= s@);
    out
}

/// Whether `a` and `b` differ at most in the case of ASCII letters.
pub fn same_ignoring_case(a: &Vec<char>, b: &str) -> (r: bool)
    ensures
        r == (lower(a@) == lower(b@)),
{
    same_chars(&lower_chars(a), &lower_chars(&chars_of(b)))
}

/// Two texts that agree without regard to case agree in capital letters.
pub proof fn lemma_same_case(a: Seq<char>, b: Seq<char>)
    ensures
        lower(a) == lower(b) <==> upper(a) == upper(b),
{
    if lower(a) == lower(b) {
        assert(a.len() == lower(a).len() && b.len() == lower(b).len());
        assert forall|i: int| 0 <= i < a.len() implies upper(a)[i] == upper(b)[i] by {
            assert(lower(a)[i] == lower(b)[i]);
        }
        assert(upper(a) =~= upper(b));
    }
    if upper(a) == upper(b) {
        assert(a.len() == upper(a).len() && b.len() == upper(b).len());
        assert forall|i: int| 0 <= i < a.len() implies lower(a)[i] == lower(b)[i] by {
            assert(upper(a)[i] == upper(b)[i]);
        }
        assert(lower(a) =~= lower(b));
    }
}

/// Number of bytes of a character in UTF-8.
pub open spec fn char_bytes(c: char) -> int {
    if (c as u32) < 0x80 {
        1
    } else if (c as u32) < 0x800 {
        2
    } else if (c as u32) < 0x10000 {
        3
    } else {
        4
    }
}

/// Number of bytes of a text in UTF-8.
pub open spec fn byte_length(s: Seq<char>) -> int
    decreases s.len(),
{
    if s.len() == 0 {
        0
    } else {
        byte_length(s.drop_last()) + char_bytes(s.last())
    }
}

proof fn lemma_byte_length_grows(s: Seq<char>, n: int)
    requires
        0 <= n <= s.len(),
    ensures
        0 <= byte_length(s.take(n)) <= byte_length(s),
    decreases s.len(),
{
    if n == s.len() {
        assert(s.take(n) =~= s);
        if s.len() > 0 {
            lemma_byte_length_grows(s.drop_last(), n - 1);
        }
    } else {
        lemma_byte_length_grows(s.drop_last(), n);
        assert(s.drop_last().take(n) =~= s.take(n));
    }
}

/// Whether a text has `n` bytes in UTF-8.
pub fn has_byte_length(s: &Vec<char>, n: usize) -> (r: bool)
    requires
        n < 1000,
    ensures
        r == (byte_length(s@) == n),
{
    let mut total: usize = 0;
    assert(s@.take(0) =~= seq![]);
    for i in 0..s.len()
        invariant
            n < 1000,
            total <= n,
            total == byte_length(s@.take(i as int)),
    {
        let c: u32 = s[i] as u32;
        let bytes: usize = if c < 0x80 {
            1
        } else if c < 0x800 {
            2
        } else if c < 0x10000 {
            3
        } else {
            4
        };
        proof {
            assert(s@.take(i + 1).drop_last() =~= s@.take(i as int));
            assert(s@.take(i + 1).last() == s@[i as int]);
            lemma_byte_length_grows(s@, i + 1);
        }
        total += bytes;
        if total > n {
            return false;
        }
    }
    assert(s@.take(s@.len() as int) =~= s@);
    total == n
}

// ---------------------------------------------------------------------------------------------
// Trimming
// ---------------------------------------------------------------------------------------------

/// `s` without its leading white space.
pub open spec fn trimmed_start(s: Seq<char>) -> Seq<char>
    decreases s.len(),
{
    if s.len() > 0 && is_white(s[0]) {
        trimmed_start(s.drop_first())
    } else {
        s
    }
}

/// `s` without its trailing white space.
pub open spec fn trimmed_end(s: Seq<char>) -> Seq<char>
    decreases s.len(),
{
    if s.len() > 0 && is_white(s.last()) {
        trimmed_end(s.drop_last())
    } else {
        s
    }
}

/// `s` without the white space around it.
pub open spec fn trimmed(s: Seq<char>) -> Seq<char> {
    trimmed_end(trimmed_start(s))
}

/// The characters of `s` without the white space around them.
pub fn trim_chars(s: &Vec<char>) -> (r: Vec<char>)
    ensures
        r@ == trimmed(s@),
{
    let mut from: usize = 0;
    assert(s@.skip(0) =~= s@);
    while from < s.len() && white(s[from])
        invariant
            from <= s@.len(),
            trimmed_start(s@) == trimmed_start(s@.skip(from as int)),
        decreases s@.len() - from,
    {
        proof {
            assert(s@.skip(from as int).drop_first() =~= s@.skip(from + 1));
        }
        from += 1;
    }
    let mut to: usize = s.len();
    let ghost inner = s@.skip(from as int);
    assert(trimmed_start(s@) == inner);
    assert(inner.take(inner.len() as int) =~= inner);
    while to > from && white(s[to - 1])
        invariant
            from <= to <= s@.len(),
            inner == s@.skip(from as int),
            trimmed_end(inner) == trimmed_end(inner.take(to - from)),
        decreases to,
    {
        proof {
            assert(inner.take(to - from).drop_last() =~= inner.take(to - from - 1));
        }
        to -= 1;
    }
    assert(inner.take(to - from) =~= s@.subrange(from as int, to as int));
    slice(s, from, to)
}

/// `s` without the white space around it.
pub fn trim(s: &str) -> (r: String)
    ensures
        r@ == trimmed(s@),
{
    string_of(&trim_chars(&chars_of(s)))
}

/// What is left after trimming has no white space at either end, and trimming it again changes
/// nothing.
pub proof fn lemma_trimmed(s: Seq<char>)
    ensures
        trimmed(trimmed(s)) == trimmed(s),
        trimmed(s).len() > 0 ==> !is_white(trimmed(s)[0]) && !is_white(trimmed(s).last()),
        trimmed(s).len() <= s.len(),
{
    lemma_trimmed_start(s);
    lemma_trimmed_end(trimmed_start(s));
}

proof fn lemma_trimmed_start(s: Seq<char>)
    ensures
        trimmed_start(s).len() > 0 ==> !is_white(trimmed_start(s)[0]),
        trimmed_start(s).len() <= s.len(),
    decreases s.len(),
{
    if s.len() > 0 && is_white(s[0]) {
        lemma_trimmed_start(s.drop_first());
    }
}

proof fn lemma_trimmed_end(s: Seq<char>)
    ensures
        trimmed_end(s).len() > 0 ==> !is_white(trimmed_end(s).last()) && trimmed_end(s)[0] == s[0],
        trimmed_end(s).len() <= s.len(),
    decreases s.len(),
{
    if s.len() > 0 && is_white(s.last()) {
        lemma_trimmed_end(s.drop_last());
    }
}

// ---------------------------------------------------------------------------------------------
// Splitting and joining
// ---------------------------------------------------------------------------------------------

/// Position of the first `c` in `s`, or the length of `s`.
pub open spec fn index_of_char(s: Seq<char>, c: char) -> int
    decreases s.len(),
{
    if s.len() == 0 || s[0] == c {
        0
    } else {
        1 + index_of_char(s.drop_first(), c)
    }
}

/// The pieces of `s` between the characters `sep`; one piece where there is none.
pub open spec fn split(s: Seq<char>, sep: char) -> Seq<Seq<char>>
    decreases s.len(),
{
    let at = index_of_char(s, sep);
    if 0 <= at < s.len() {
        seq![s.take(at)] + split(s.skip(at + 1), sep)
    } else {
        seq![s]
    }
}

/// The pieces with `sep` between them.
pub open spec fn join(parts: Seq<Seq<char>>, sep: Seq<char>) -> Seq<char>
    decreases parts.len(),
{
    if parts.len() == 0 {
        Seq::empty()
    } else if parts.len() == 1 {
        parts[0]
    } else {
        parts[0] + sep + join(parts.drop_first(), sep)
    }
}

/// What comes before and after the first `sep`, where there is one.
pub open spec fn split_once(s: Seq<char>, sep: char) -> Option<(Seq<char>, Seq<char>)> {
    let at = index_of_char(s, sep);
    if 0 <= at < s.len() {
        Some((s.take(at), s.skip(at + 1)))
    } else {
        None
    }
}

/// The first occurrence: nothing before it is `c`, and it is `c` where it is inside.
pub proof fn lemma_index_of_char(s: Seq<char>, c: char)
    ensures
        0 <= index_of_char(s, c) <= s.len(),
        index_of_char(s, c) < s.len() ==> s[index_of_char(s, c)] == c,
        forall|i: int| 0 <= i < index_of_char(s, c) ==> s[i] != c,
    decreases s.len(),
{
    if s.len() > 0 && s[0] != c {
        lemma_index_of_char(s.drop_first(), c);
        assert forall|i: int| 0 <= i < index_of_char(s, c) implies s[i] != c by {
            if i > 0 {
                assert(s[i] == s.drop_first()[i - 1]);
            }
        }
    }
}

/// The position is determined by what lies before it.
pub proof fn lemma_index_of_char_unique(s: Seq<char>, c: char, at: int)
    requires
        0 <= at <= s.len(),
        at < s.len() ==> s[at] == c,
        forall|i: int| 0 <= i < at ==> s[i] != c,
    ensures
        index_of_char(s, c) == at,
{
    lemma_index_of_char(s, c);
}

/// Position of the first `c` at or after the start, or the length.
pub fn find_char(s: &Vec<char>, c: char) -> (r: usize)
    ensures
        r == index_of_char(s@, c),
        r <= s@.len(),
{
    let mut i: usize = 0;
    while i < s.len()
        invariant
            i <= s@.len(),
            forall|k: int| 0 <= k < i ==> s@[k] != c,
        decreases s@.len() - i,
    {
        if s[i] == c {
            proof {
                lemma_index_of_char_unique(s@, c, i as int);
            }
            return i;
        }
        i += 1;
    }
    proof {
        lemma_index_of_char_unique(s@, c, i as int);
    }
    i
}

/// What comes before and after the first `sep`, where there is one.
pub fn split_chars_once(s: &Vec<char>, sep: char) -> (r: Option<(Vec<char>, Vec<char>)>)
    ensures
        match r {
            Some(pair) => split_once(s@, sep) == Some((pair.0@, pair.1@)),
            None => split_once(s@, sep) is None,
        },
{
    let at: usize = find_char(s, sep);
    if at < s.len() {
        let before = slice(s, 0, at);
        let after = slice(s, at + 1, s.len());
        assert(before@ =~= s@.take(at as int));
        assert(after@ =~= s@.skip(at + 1));
        Some((before, after))
    } else {
        None
    }
}

/// The pieces between the characters `sep`.
pub fn split_chars(s: &Vec<char>, sep: char) -> (r: Vec<Vec<char>>)
    ensures
        char_views(r@) == split(s@, sep),
        r@.len() > 0,
{
    let mut parts: Vec<Vec<char>> = Vec::new();
    let mut rest: Vec<char> = slice(s, 0, s.len());
    assert(s@.subrange(0, s@.len() as int) =~= s@);
    assert(char_views(parts@) + split(rest@, sep) =~= split(s@, sep));
    loop
        invariant_except_break
            char_views(parts@) + split(rest@, sep) == split(s@, sep),
        ensures
            char_views(parts@) == split(s@, sep),
            parts@.len() > 0,
        decreases rest@.len(),
    {
        let ghost before = char_views(parts@);
        match split_chars_once(&rest, sep) {
            Some((piece, tail)) => {
                proof {
                    assert(split(rest@, sep) == seq![piece@] + split(tail@, sep));
                }
                parts.push(piece);
                proof {
                    assert(char_views(parts@) =~= before.push(piece@));
                    assert(before.push(piece@) + split(tail@, sep) =~= before + (seq![piece@]
                        + split(tail@, sep)));
                }
                rest = tail;
            },
            None => {
                proof {
                    assert(split(rest@, sep) == seq![rest@]);
                }
                parts.push(rest);
                proof {
                    assert(char_views(parts@) =~= before + split(rest@, sep));
                }
                break;
            },
        }
    }
    parts
}

/// A list has at least one piece, and no piece holds the separator.
pub proof fn lemma_split(s: Seq<char>, sep: char)
    ensures
        split(s, sep).len() >= 1,
        forall|i: int|
            #![trigger split(s, sep)[i]]
            0 <= i < split(s, sep).len() ==> !split(s, sep)[i].contains(sep),
    decreases s.len(),
{
    let at = index_of_char(s, sep);
    lemma_index_of_char(s, sep);
    if at < s.len() {
        lemma_split(s.skip(at + 1), sep);
        assert forall|i: int|
            #![trigger split(s, sep)[i]]
            0 <= i < split(s, sep).len() implies !split(s, sep)[i].contains(sep) by {
            if i > 0 {
                assert(split(s, sep)[i] == split(s.skip(at + 1), sep)[i - 1]);
            }
        }
    }
}

/// Splitting what was joined gives the pieces back, where no piece holds the separator.
pub proof fn lemma_split_of_join(parts: Seq<Seq<char>>, sep: char)
    requires
        parts.len() >= 1,
        forall|i: int| #![trigger parts[i]] 0 <= i < parts.len() ==> !parts[i].contains(sep),
    ensures
        split(join(parts, seq![sep]), sep) == parts,
    decreases parts.len(),
{
    let s = join(parts, seq![sep]);
    let head = parts[0];
    if parts.len() == 1 {
        assert forall|i: int| 0 <= i < s.len() implies s[i] != sep by {
            assert(head.contains(head[i]));
        }
        lemma_index_of_char_unique(s, sep, s.len() as int);
        assert(seq![s] =~= parts);
    } else {
        let tail = parts.drop_first();
        assert forall|i: int| #![trigger tail[i]] 0 <= i < tail.len() implies !tail[i].contains(
            sep,
        ) by {
            assert(tail[i] == parts[i + 1]);
        }
        lemma_split_of_join(tail, sep);
        let rest = join(tail, seq![sep]);
        assert(s == head + seq![sep] + rest);
        assert forall|i: int| 0 <= i < head.len() implies s[i] != sep by {
            assert(head.contains(head[i]));
            assert(s[i] == head[i]);
        }
        lemma_index_of_char_unique(s, sep, head.len() as int);
        assert(s.take(head.len() as int) =~= head);
        assert(s.skip(head.len() as int + 1) =~= rest);
        assert(seq![head] + tail =~= parts);
    }
}

/// Joining the pieces gives the text back.
pub proof fn lemma_join_of_split(s: Seq<char>, sep: char)
    ensures
        join(split(s, sep), seq![sep]) == s,
    decreases s.len(),
{
    let at = index_of_char(s, sep);
    lemma_index_of_char(s, sep);
    if at < s.len() {
        let rest = s.skip(at + 1);
        lemma_join_of_split(rest, sep);
        lemma_split(rest, sep);
        let parts = split(s, sep);
        assert(parts.drop_first() =~= split(rest, sep));
        assert(parts[0] == s.take(at));
        assert(parts[0] + seq![sep] + rest =~= s);
    } else {
        assert(join(seq![s], seq![sep]) == s);
    }
}

/// One more piece at the end of a joined list.
pub proof fn lemma_join_push(parts: Seq<Seq<char>>, sep: Seq<char>, last: Seq<char>)
    requires
        parts.len() >= 1,
    ensures
        join(parts.push(last), sep) == join(parts, sep) + sep + last,
    decreases parts.len(),
{
    let more = parts.push(last);
    if parts.len() == 1 {
        assert(more.drop_first() =~= seq![last]);
        assert(join(seq![last], sep) == last);
    } else {
        lemma_join_push(parts.drop_first(), sep, last);
        assert(more.drop_first() =~= parts.drop_first().push(last));
        assert(join(more, sep) =~= parts[0] + sep + (join(parts.drop_first(), sep) + sep + last));
        assert(join(parts, sep) + sep + last =~= parts[0] + sep + (join(parts.drop_first(), sep)
            + sep + last));
    }
}

/// The texts with `sep` between them.
pub fn join_texts(parts: &Vec<String>, sep: &str) -> (r: String)
    ensures
        r@ == join(views(parts@), sep@),
{
    let mut out = String::new();
    for i in 0..parts.len()
        invariant
            out@ == join(views(parts@.take(i as int)), sep@),
    {
        proof {
            assert(views(parts@.take(i + 1)) =~= views(parts@.take(i as int)).push(
                parts@[i as int]@,
            ));
            if i > 0 {
                lemma_join_push(views(parts@.take(i as int)), sep@, parts@[i as int]@);
            } else {
                assert(views(parts@.take(1)) =~= seq![parts@[0]@]);
            }
        }
        if i > 0 {
            out.append(sep);
        }
        out.append(parts[i].as_str());
        assert(out@ =~= join(views(parts@.take(i + 1)), sep@));
    }
    assert(parts@.take(parts@.len() as int) =~= parts@);
    out
}

/// Whether `s` begins with `prefix`.
pub open spec fn starts_with(s: Seq<char>, prefix: Seq<char>) -> bool {
    s.len() >= prefix.len() && s.take(prefix.len() as int) == prefix
}

/// What follows `prefix` at the start of `s`, where `s` begins with it.
pub fn strip_prefix(s: &Vec<char>, prefix: &str) -> (r: Option<Vec<char>>)
    ensures
        match r {
            Some(rest) => starts_with(s@, prefix@) && rest@ == s@.skip(prefix@.len() as int),
            None => !starts_with(s@, prefix@),
        },
{
    let p = chars_of(prefix);
    if s.len() < p.len() {
        return None;
    }
    let head = slice(s, 0, p.len());
    assert(head@ =~= s@.take(p@.len() as int));
    if same_chars(&head, &p) {
        let rest = slice(s, p.len(), s.len());
        assert(rest@ =~= s@.skip(p@.len() as int));
        Some(rest)
    } else {
        None
    }
}

// ---------------------------------------------------------------------------------------------
// Numbers
// ---------------------------------------------------------------------------------------------

/// Whether `s` is digits only, and not empty.
pub open spec fn is_number(s: Seq<char>) -> bool {
    s.len() > 0 && forall|i: int| 0 <= i < s.len() ==> is_digit(#[trigger] s[i])
}

/// The value of a row of digits.
pub open spec fn number_value(s: Seq<char>) -> int
    decreases s.len(),
{
    if s.len() == 0 {
        0
    } else {
        10 * number_value(s.drop_last()) + (s.last() as int - '0' as int)
    }
}

/// The number that `s` writes, an optional plus sign before its digits, where it is at most `max`.
pub open spec fn parsed_number(s: Seq<char>, max: int) -> Option<int> {
    let digits = if s.len() > 0 && s[0] == '+' {
        s.drop_first()
    } else {
        s
    };
    digits_within(digits, max)
}

/// The number that a row of digits writes, where it is at most `max`.
pub open spec fn digits_within(digits: Seq<char>, max: int) -> Option<int> {
    if is_number(digits) && number_value(digits) <= max {
        Some(number_value(digits))
    } else {
        None
    }
}

/// The first digits of a number are not more than the number.
pub proof fn lemma_number_value_grows(s: Seq<char>, i: int)
    requires
        0 <= i <= s.len(),
        forall|k: int| 0 <= k < s.len() ==> is_digit(#[trigger] s[k]),
    ensures
        0 <= number_value(s.take(i)) <= number_value(s),
    decreases s.len(),
{
    if i == s.len() {
        assert(s.take(i) =~= s);
        if s.len() > 0 {
            lemma_number_value_grows(s.drop_last(), i - 1);
        }
    } else {
        lemma_number_value_grows(s.drop_last(), i);
        assert(s.drop_last().take(i) =~= s.take(i));
    }
}

/// The number that `s` writes, where it is at most `max`.
pub fn parse_number(s: &Vec<char>, max: u64) -> (r: Option<u64>)
    requires
        max <= 0x7fff_ffff_ffff_ffff,
    ensures
        match r {
            Some(n) => parsed_number(s@, max as int) == Some(n as int),
            None => parsed_number(s@, max as int) is None,
        },
        r is Some ==> r->0 <= max,
{
    let from: usize = if s.len() > 0 && s[0] == '+' {
        1
    } else {
        0
    };
    let ghost digits = s@.skip(from as int);
    proof {
        if from == 1 {
            assert(digits =~= s@.drop_first());
        } else {
            assert(digits =~= s@);
        }
    }
    if from == s.len() {
        return None;
    }
    let mut value: u64 = 0;
    let mut i: usize = from;
    assert(digits.take(0) =~= seq![]);
    while i < s.len()
        invariant
            from <= i <= s@.len(),
            digits == s@.skip(from as int),
            parsed_number(s@, max as int) == digits_within(digits, max as int),
            digits.len() > 0,
            max <= 0x7fff_ffff_ffff_ffff,
            value <= max,
            value == number_value(digits.take(i - from)),
            forall|k: int| 0 <= k < i - from ==> is_digit(#[trigger] digits[k]),
        decreases s@.len() - i,
    {
        let c: char = s[i];
        assert(digits[i - from] == c);
        if c < '0' || c > '9' {
            assert(!is_digit(digits[i - from]));
            return None;
        }
        let d: u64 = c as u64 - '0' as u64;
        proof {
            assert(digits.take(i - from + 1).drop_last() =~= digits.take(i - from));
            assert(digits.take(i - from + 1).last() == c);
            assert(number_value(digits.take(i - from + 1)) == 10 * value + d);
        }
        if value > max / 10 || d > max - value * 10 {
            proof {
                lemma_too_large(digits, i - from + 1, max as int);
            }
            return None;
        }
        value = value * 10 + d;
        i += 1;
    }
    assert(digits.take(digits.len() as int) =~= digits);
    Some(value)
}

/// A row of digits that is too large stays so when more digits follow.
proof fn lemma_too_large(digits: Seq<char>, n: int, max: int)
    requires
        0 <= n <= digits.len(),
        number_value(digits.take(n)) > max,
    ensures
        digits_within(digits, max) is None,
{
    if is_number(digits) {
        lemma_number_value_grows(digits, n);
    }
}

/// The digit with value `n`.
pub open spec fn digit_char(n: int) -> char {
    ('0' as u8 + n) as char
}

/// `n` written in decimal.
pub open spec fn decimal(n: nat) -> Seq<char>
    decreases n,
{
    if n < 10 {
        seq![digit_char(n as int)]
    } else {
        decimal(n / 10).push(digit_char(n as int % 10))
    }
}

/// `n` written in decimal with a minus sign where it is negative.
pub open spec fn signed_decimal(n: int) -> Seq<char> {
    if n < 0 {
        seq!['-'] + decimal((-n) as nat)
    } else {
        decimal(n as nat)
    }
}

/// `n` written with at least two digits.
pub open spec fn two_digits(n: int) -> Seq<char> {
    seq![digit_char(n / 10), digit_char(n % 10)]
}

/// What is written in decimal reads back.
pub proof fn lemma_decimal(n: nat)
    ensures
        is_number(decimal(n)),
        number_value(decimal(n)) == n,
    decreases n,
{
    if n >= 10 {
        lemma_decimal(n / 10);
        let s = decimal(n);
        assert(s.drop_last() =~= decimal(n / 10));
        assert(s.last() == digit_char(n as int % 10));
        assert forall|i: int| 0 <= i < s.len() implies is_digit(#[trigger] s[i]) by {
            if i < s.len() - 1 {
                assert(s[i] == decimal(n / 10)[i]);
            }
        }
    } else {
        let s = decimal(n);
        assert(s.drop_last() =~= Seq::<char>::empty());
        assert(number_value(Seq::<char>::empty()) == 0);
    }
}

/// What is written in decimal parses back.
pub proof fn lemma_parsed_decimal(n: nat, max: int)
    requires
        n <= max,
    ensures
        parsed_number(decimal(n), max) == Some(n as int),
{
    lemma_decimal(n);
    assert(is_digit(decimal(n)[0]));
}

/// The digit with value `n`.
pub fn digit(n: u64) -> (r: char)
    requires
        n < 10,
    ensures
        r == digit_char(n as int),
{
    ('0' as u8 + n as u8) as char
}

/// `n` written in decimal.
pub fn decimal_chars(n: u64) -> (r: Vec<char>)
    ensures
        r@ == decimal(n as nat),
    decreases n,
{
    if n < 10 {
        let mut out: Vec<char> = Vec::new();
        out.push(digit(n));
        assert(out@ =~= seq![digit_char(n as int)]);
        out
    } else {
        let mut out = decimal_chars(n / 10);
        out.push(digit(n % 10));
        out
    }
}

/// `n` written in decimal.
pub fn decimal_text(n: u64) -> (r: String)
    ensures
        r@ == decimal(n as nat),
{
    string_of(&decimal_chars(n))
}

/// `n` written in decimal with a minus sign where it is negative.
pub fn signed_decimal_text(n: i64) -> (r: String)
    ensures
        r@ == signed_decimal(n as int),
{
    if n < 0 {
        let magnitude: u64 = if n == i64::MIN {
            0x8000_0000_0000_0000
        } else {
            (-n) as u64
        };
        let mut out = String::new();
        out.push('-');
        out.append(decimal_text(magnitude).as_str());
        assert(out@ =~= signed_decimal(n as int));
        out
    } else {
        decimal_text(n as u64)
    }
}

/// `n` written with two digits.
pub fn two_digit_text(n: u32) -> (r: String)
    requires
        n < 100,
    ensures
        r@ == two_digits(n as int),
{
    let mut out = String::new();
    out.push(digit((n / 10) as u64));
    out.push(digit((n % 10) as u64));
    assert(out@ =~= two_digits(n as int));
    out
}

// ---------------------------------------------------------------------------------------------
// Order
// ---------------------------------------------------------------------------------------------

/// Whether `a` comes before `b` in the order of code points.
pub open spec fn text_before(a: Seq<char>, b: Seq<char>) -> bool
    decreases a.len(),
{
    if b.len() == 0 {
        false
    } else if a.len() == 0 {
        true
    } else if a[0] != b[0] {
        a[0] < b[0]
    } else {
        text_before(a.drop_first(), b.drop_first())
    }
}

/// The order of texts is total: of two different texts one comes before the other.
pub proof fn lemma_text_order(a: Seq<char>, b: Seq<char>)
    ensures
        a != b ==> (text_before(a, b) || text_before(b, a)),
        !(text_before(a, b) && text_before(b, a)),
        a == b ==> !text_before(a, b),
    decreases a.len(),
{
    if a.len() > 0 && b.len() > 0 && a[0] == b[0] {
        lemma_text_order(a.drop_first(), b.drop_first());
        if a.drop_first() == b.drop_first() {
            assert(a =~= seq![a[0]] + a.drop_first());
            assert(b =~= seq![b[0]] + b.drop_first());
        }
    } else if a.len() == 0 && b.len() == 0 {
        assert(a =~= b);
    }
}

/// The order of texts is transitive.
pub proof fn lemma_text_order_transitive(a: Seq<char>, b: Seq<char>, c: Seq<char>)
    requires
        text_before(a, b),
        text_before(b, c) || b == c,
    ensures
        text_before(a, c),
    decreases a.len(),
{
    if a.len() > 0 && b.len() > 0 && c.len() > 0 && a[0] == b[0] && b[0] == c[0] {
        if b == c {
        } else {
            lemma_text_order_transitive(a.drop_first(), b.drop_first(), c.drop_first());
        }
    }
}

/// Whether `a` comes before `b` in the order of code points, which is the order of their bytes.
pub fn text_less(a: &str, b: &str) -> (r: bool)
    ensures
        r == text_before(a@, b@),
{
    let left = chars_of(a);
    let right = chars_of(b);
    let mut i: usize = 0;
    assert(a@.skip(0) =~= a@);
    assert(b@.skip(0) =~= b@);
    loop
        invariant
            left@ == a@,
            right@ == b@,
            i <= a@.len(),
            i <= b@.len(),
            text_before(a@, b@) == text_before(a@.skip(i as int), b@.skip(i as int)),
        decreases a@.len() - i,
    {
        if i >= right.len() {
            return false;
        }
        if i >= left.len() {
            return true;
        }
        if left[i] != right[i] {
            return left[i] < right[i];
        }
        proof {
            assert(a@.skip(i as int).drop_first() =~= a@.skip(i + 1));
            assert(b@.skip(i as int).drop_first() =~= b@.skip(i + 1));
        }
        i += 1;
    }
}

/// Trimming takes away white space at both ends and nothing else: what is left is a part of the text
/// in one piece, what was before and after it is white, and it neither begins nor ends so. A text of
/// white space alone leaves nothing.
pub proof fn law_trimmed(s: Seq<char>) -> (at: (int, int))
    ensures
        0 <= at.0 <= at.1 <= s.len(),
        trimmed(s) == s.subrange(at.0, at.1),
        forall|i: int| 0 <= i < at.0 || at.1 <= i < s.len() ==> is_white(#[trigger] s[i]),
        trimmed(s).len() > 0 ==> !is_white(trimmed(s)[0]) && !is_white(trimmed(s).last()),
        trimmed(s).len() == 0 <==> forall|i: int| 0 <= i < s.len() ==> is_white(#[trigger] s[i]),
{
    let from = lemma_trimmed_start_at(s);
    let inner = s.skip(from);
    let to = lemma_trimmed_end_at(inner);
    lemma_trimmed(s);
    assert(trimmed(s) =~= s.subrange(from, from + to));
    assert forall|i: int| 0 <= i < from || from + to <= i < s.len() implies is_white(#[trigger] s[i]) by {
        if i >= from {
            assert(inner[i - from] == s[i]);
        }
    }
    if trimmed(s).len() > 0 {
        assert(s[from] == trimmed(s)[0]);
    }
    (from, from + to)
}

proof fn lemma_trimmed_start_at(s: Seq<char>) -> (from: int)
    ensures
        0 <= from <= s.len(),
        trimmed_start(s) == s.skip(from),
        forall|i: int| 0 <= i < from ==> is_white(#[trigger] s[i]),
    decreases s.len(),
{
    if s.len() > 0 && is_white(s[0]) {
        let rest = s.drop_first();
        let from = lemma_trimmed_start_at(rest);
        assert(rest.skip(from) =~= s.skip(from + 1));
        assert forall|i: int| 0 <= i < from + 1 implies is_white(#[trigger] s[i]) by {
            if i > 0 {
                assert(rest[i - 1] == s[i]);
            }
        }
        from + 1
    } else {
        assert(s.skip(0) =~= s);
        0
    }
}

proof fn lemma_trimmed_end_at(s: Seq<char>) -> (to: int)
    ensures
        0 <= to <= s.len(),
        trimmed_end(s) == s.take(to),
        forall|i: int| to <= i < s.len() ==> is_white(#[trigger] s[i]),
    decreases s.len(),
{
    if s.len() > 0 && is_white(s.last()) {
        let rest = s.drop_last();
        let to = lemma_trimmed_end_at(rest);
        assert(rest.take(to) =~= s.take(to));
        assert forall|i: int| to <= i < s.len() implies is_white(#[trigger] s[i]) by {
            if i < rest.len() {
                assert(rest[i] == s[i]);
            }
        }
        to
    } else {
        assert(s.take(s.len() as int) =~= s);
        s.len() as int
    }
}

/// Changing the case of a text changes ASCII letters alone, each to its counterpart.
pub proof fn law_case_of_letters(s: Seq<char>, i: int)
    requires
        0 <= i < s.len(),
    ensures
        upper(s).len() == s.len(),
        lower(s).len() == s.len(),
        'a' <= s[i] <= 'z' ==> upper(s)[i] as int == s[i] as int - 32,
        !('a' <= s[i] <= 'z') ==> upper(s)[i] == s[i],
        'A' <= s[i] <= 'Z' ==> lower(s)[i] as int == s[i] as int + 32,
        !('A' <= s[i] <= 'Z') ==> lower(s)[i] == s[i],
{
}

/// Two texts are compared character by character: where they begin alike, what follows decides.
pub proof fn law_order_of_texts(a: Seq<char>, b: Seq<char>, c: Seq<char>, d: Seq<char>)
    requires
        a.len() == b.len(),
    ensures
        text_before(a + c, b + d) <==> text_before(a, b) || (a == b && text_before(c, d)),
        a.len() > 0 && a[0] < b[0] ==> text_before(a, b),
        c.len() > 0 ==> text_before(a, a + c),
    decreases a.len(),
{
    if a.len() == 0 {
        assert(a + c =~= c);
        assert(b + d =~= d);
        assert(a =~= b);
        assert(a =~= Seq::<char>::empty());
    } else {
        let x = a.drop_first();
        let y = b.drop_first();
        law_order_of_texts(x, y, c, d);
        assert((a + c).drop_first() =~= x + c);
        assert((b + d).drop_first() =~= y + d);
        assert((a + c)[0] == a[0]);
        assert((b + d)[0] == b[0]);
        if a[0] == b[0] && x == y {
            assert(a =~= seq![a[0]] + x);
            assert(b =~= seq![b[0]] + y);
        }
    }
}

/// Numbers that are written with two digits are in the order of the numbers.
pub proof fn law_order_of_two_digits(a: int, b: int)
    requires
        0 <= a <= 99,
        0 <= b <= 99,
    ensures
        text_before(two_digits(a), two_digits(b)) <==> a < b,
        two_digits(a) == two_digits(b) <==> a == b,
        two_digits(a).len() == 2,
        is_number(two_digits(a)),
        number_value(two_digits(a)) == a,
{
    let (s, t) = (two_digits(a), two_digits(b));
    assert(s.drop_first() =~= seq![digit_char(a % 10)]);
    assert(t.drop_first() =~= seq![digit_char(b % 10)]);
    assert(s.drop_first().drop_first() =~= seq![]);
    assert(t.drop_first().drop_first() =~= seq![]);
    assert(s[0] == digit_char(a / 10) && s[1] == digit_char(a % 10));
    assert(t[0] == digit_char(b / 10) && t[1] == digit_char(b % 10));
    assert(digit_char(a / 10) as int == '0' as int + a / 10);
    assert(digit_char(b / 10) as int == '0' as int + b / 10);
    assert(digit_char(a % 10) as int == '0' as int + a % 10);
    assert(digit_char(b % 10) as int == '0' as int + b % 10);
    assert(text_before(s.drop_first(), t.drop_first()) <==> a % 10 < b % 10) by {
        assert(s.drop_first()[0] == digit_char(a % 10));
        assert(t.drop_first()[0] == digit_char(b % 10));
        assert(!text_before(s.drop_first().drop_first(), t.drop_first().drop_first()));
    }
    assert(s.drop_last() =~= seq![s[0]]);
    assert(seq![s[0]].drop_last() =~= seq![]);
    assert(number_value(seq![s[0]].drop_last()) == 0);
    assert(number_value(seq![s[0]]) == a / 10);
}

/// A digit is written as itself.
pub proof fn law_written_digits(n: int)
    requires
        0 <= n < 10,
    ensures
        digit_char(n) == "0123456789"@[n],
        is_digit(digit_char(n)),
{
    reveal_strlit("0123456789");
}

/// A text begins with another where it is that text and something more.
pub proof fn law_beginnings_of_texts(s: Seq<char>, prefix: Seq<char>)
    ensures
        starts_with(prefix + s, prefix),
        starts_with(s, prefix) ==> s == prefix + s.skip(prefix.len() as int),
{
    assert((prefix + s).take(prefix.len() as int) =~= prefix);
    if starts_with(s, prefix) {
        assert(s =~= s.take(prefix.len() as int) + s.skip(prefix.len() as int));
    }
}

/// A text is cut in two at the first of its separators, or not at all where it has none.
pub proof fn law_cut_in_two(key: Seq<char>, value: Seq<char>, sep: char)
    requires
        !key.contains(sep),
    ensures
        split_once(key.push(sep) + value, sep) == Some((key, value)),
        split_once(key, sep) is None,
{
    let whole = key.push(sep) + value;
    let at = key.len() as int;
    assert forall|k: int| 0 <= k < at implies whole[k] != sep by {
        assert(whole[k] == key[k]);
        assert(key.contains(key[k]));
    }
    lemma_index_of_char_unique(whole, sep, at);
    assert(whole.take(at) =~= key);
    assert(whole.skip(at + 1) =~= value);
    lemma_index_of_char(key, sep);
    let found = index_of_char(key, sep);
    if 0 <= found < key.len() {
        assert(key[found] == sep);
    }
}

} // verus!
