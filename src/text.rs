use vstd::prelude::*;
use vstd::string::*;

verus! {

/// The character that writes the decimal digit `d`.
pub open spec fn digit_char(d: nat) -> char {
    if d == 0 { '0' }
    else if d == 1 { '1' }
    else if d == 2 { '2' }
    else if d == 3 { '3' }
    else if d == 4 { '4' }
    else if d == 5 { '5' }
    else if d == 6 { '6' }
    else if d == 7 { '7' }
    else if d == 8 { '8' }
    else { '9' }
}

/// The decimal writing of `n`, without leading zeros.
pub open spec fn decimal(n: nat) -> Seq<char>
    decreases n,
{
    if n < 10 {
        seq![digit_char(n)]
    } else {
        decimal(n / 10).push(digit_char(n % 10))
    }
}

/// How one character is written inside a single-quoted literal.
pub open spec fn escape_char(c: char) -> Seq<char> {
    if c == '\\' {
        seq!['\\', '\\']
    } else if c == '"' {
        seq!['\\', '"']
    } else if c == '\'' {
        seq!['\\', '\'']
    } else {
        seq![c]
    }
}

/// `s` with every backslash, double quote and single quote preceded by a backslash.
pub open spec fn escape(s: Seq<char>) -> Seq<char>
    decreases s.len(),
{
    if s.len() == 0 {
        Seq::empty()
    } else {
        escape(s.drop_last()) + escape_char(s.last())
    }
}

/// Reads an escaped literal back: a backslash stands for the character after it.
pub open spec fn unescape(s: Seq<char>) -> Seq<char>
    decreases s.len(),
{
    if s.len() == 0 {
        Seq::empty()
    } else if s[0] == '\\' && s.len() >= 2 {
        seq![s[1]] + unescape(s.skip(2))
    } else {
        seq![s[0]] + unescape(s.skip(1))
    }
}

/// Relies on String::push: the character is added at the end.
#[verifier::external_body]
pub(crate) fn push_char(s: &mut String, c: char)
    ensures
        final(s)@ == old(s)@.push(c),
{
    s.push(c)
}

/// Whether two strings hold the same characters.
pub fn same_chars(a: &str, b: &str) -> (r: bool)
    ensures
        r == (a@ == b@),
{
    let n = a.unicode_len();
    if n != b.unicode_len() {
        return false;
    }
    let mut i: usize = 0;
    while i < n
        invariant
            n == a@.len(),
            n == b@.len(),
            i <= n,
            forall|j: int| 0 <= j < i ==> a@[j] == b@[j],
        decreases n - i,
    {
        if a.get_char(i) != b.get_char(i) {
            return false;
        }
        i = i + 1;
    }
    assert(a@ =~= b@);
    true
}

/// Whether `s` begins with the characters of `prefix`.
pub fn starts_with(s: &str, prefix: &str) -> (r: bool)
    ensures
        r == (prefix@.len() <= s@.len() && s@.subrange(0, prefix@.len() as int) == prefix@),
{
    let n = prefix.unicode_len();
    if n > s.unicode_len() {
        return false;
    }
    let mut i: usize = 0;
    while i < n
        invariant
            n == prefix@.len(),
            n <= s@.len(),
            i <= n,
            forall|j: int| 0 <= j < i ==> s@[j] == prefix@[j],
        decreases n - i,
    {
        if s.get_char(i) != prefix.get_char(i) {
            return false;
        }
        i = i + 1;
    }
    assert(s@.subrange(0, n as int) =~= prefix@);
    true
}

fn digit(d: u64) -> (c: char)
    requires
        d < 10,
    ensures
        c == digit_char(d as nat),
{
    if d == 0 { '0' }
    else if d == 1 { '1' }
    else if d == 2 { '2' }
    else if d == 3 { '3' }
    else if d == 4 { '4' }
    else if d == 5 { '5' }
    else if d == 6 { '6' }
    else if d == 7 { '7' }
    else if d == 8 { '8' }
    else { '9' }
}

/// Writes `n` in decimal at the end of `s`.
pub fn push_decimal(s: &mut String, n: u64)
    ensures
        final(s)@ == old(s)@ + decimal(n as nat),
    decreases n,
{
    if n >= 10 {
        push_decimal(s, n / 10);
    }
    push_char(s, digit(n % 10));
    assert(final(s)@ =~= old(s)@ + decimal(n as nat));
}

/// Writes `t` at the end of `s` with its backslashes and quotes escaped.
pub fn push_escaped(s: &mut String, t: &str)
    ensures
        final(s)@ == old(s)@ + escape(t@),
{
    let n = t.unicode_len();
    let mut i: usize = 0;
    while i < n
        invariant
            n == t@.len(),
            i <= n,
            s@ == old(s)@ + escape(t@.subrange(0, i as int)),
        decreases n - i,
    {
        let c = t.get_char(i);
        proof {
            assert(t@.subrange(0, i + 1).drop_last() =~= t@.subrange(0, i as int));
        }
        if c == '\\' || c == '"' || c == '\'' {
            push_char(s, '\\');
        }
        push_char(s, c);
        assert(s@ =~= old(s)@ + escape(t@.subrange(0, i + 1)));
        i = i + 1;
    }
    assert(t@.subrange(0, n as int) =~= t@);
}

proof fn lemma_escape_front(s: Seq<char>)
    requires
        s.len() > 0,
    ensures
        escape(s) == escape_char(s[0]) + escape(s.skip(1)),
    decreases s.len(),
{
    if s.len() == 1 {
        assert(s.skip(1) =~= Seq::<char>::empty());
        assert(s.drop_last() =~= Seq::<char>::empty());
        assert(escape(s) =~= escape_char(s[0]) + escape(s.skip(1)));
    } else {
        lemma_escape_front(s.drop_last());
        assert(s.drop_last().skip(1) =~= s.skip(1).drop_last());
        assert(s.skip(1).last() == s.last());
        assert(escape(s) =~= escape_char(s[0]) + escape(s.skip(1)));
    }
}

/// Escaping can be undone: reading each backslash as "the next character
/// stands for itself" gives back the text that was escaped.
pub proof fn lemma_escape_round_trip(s: Seq<char>)
    ensures
        unescape(escape(s)) == s,
    decreases s.len(),
{
    if s.len() == 0 {
        assert(escape(s) =~= Seq::<char>::empty());
    } else {
        lemma_escape_front(s);
        lemma_escape_round_trip(s.skip(1));
        let e = escape(s);
        let c = s[0];
        if c == '\\' || c == '"' || c == '\'' {
            assert(e[0] == '\\' && e[1] == c);
            assert(e.skip(2) =~= escape(s.skip(1)));
        } else {
            assert(e[0] == c);
            assert(e.skip(1) =~= escape(s.skip(1)));
        }
        assert(unescape(e) =~= s);
    }
}

/// `s` with each backslash-`c` pair, found left to right without overlap,
/// replaced by `c`.
pub open spec fn unescape_one(s: Seq<char>, c: char) -> Seq<char>
    decreases s.len(),
{
    if s.len() == 0 {
        s
    } else if s.len() >= 2 && s[0] == '\\' && s[1] == c {
        seq![c] + unescape_one(s.skip(2), c)
    } else {
        seq![s[0]] + unescape_one(s.skip(1), c)
    }
}

spec fn single_quotes_undone(c: char) -> Seq<char> {
    if c == '\'' { seq![c] } else { escape_char(c) }
}

spec fn quotes_undone(c: char) -> Seq<char> {
    if c == '\\' { seq!['\\', '\\'] } else { seq![c] }
}

spec fn encode_with(s: Seq<char>, single: bool) -> Seq<char>
    decreases s.len(),
{
    if s.len() == 0 {
        s
    } else {
        (if single { single_quotes_undone(s[0]) } else { quotes_undone(s[0]) }) + encode_with(
            s.skip(1),
            single,
        )
    }
}

proof fn lemma_escape_first(s: Seq<char>)
    requires
        s.len() > 0,
    ensures
        escape(s).len() > 0,
        escape(s)[0] != '\'',
{
    lemma_escape_front(s);
}

proof fn lemma_undo_single_quotes(s: Seq<char>)
    ensures
        unescape_one(escape(s), '\'') == encode_with(s, true),
    decreases s.len(),
{
    if s.len() == 0 {
        assert(escape(s) =~= Seq::<char>::empty());
    } else {
        lemma_escape_front(s);
        lemma_undo_single_quotes(s.skip(1));
        let rest = escape(s.skip(1));
        let e = escape(s);
        let c = s[0];
        if s.skip(1).len() > 0 {
            lemma_escape_first(s.skip(1));
        } else {
            assert(rest =~= Seq::<char>::empty());
        }
        if c == '\'' {
            assert(e.skip(2) =~= rest);
        } else if c == '\\' || c == '"' {
            assert(e.skip(1).skip(1) =~= rest);
            assert(e.skip(1)[0] == c);
            assert(unescape_one(e.skip(1), '\'') == seq![c] + unescape_one(rest, '\''));
        } else {
            assert(e.skip(1) =~= rest);
        }
        assert(unescape_one(e, '\'') =~= encode_with(s, true));
    }
}

proof fn lemma_encode_first(s: Seq<char>, single: bool)
    requires
        s.len() > 0,
    ensures
        encode_with(s, single).len() > 0,
        single ==> encode_with(s, single)[0] != '"',
        encode_with(s, single)[0] == '\\' ==> s[0] == '\\' || (single && s[0] == '"'),
{
}

proof fn lemma_undo_double_quotes(s: Seq<char>)
    ensures
        unescape_one(encode_with(s, true), '"') == encode_with(s, false),
    decreases s.len(),
{
    if s.len() > 0 {
        lemma_undo_double_quotes(s.skip(1));
        let rest = encode_with(s.skip(1), true);
        let e = encode_with(s, true);
        let c = s[0];
        if s.skip(1).len() > 0 {
            lemma_encode_first(s.skip(1), true);
        } else {
            assert(rest =~= Seq::<char>::empty());
        }
        if c == '"' {
            assert(e.skip(2) =~= rest);
        } else if c == '\\' {
            assert(e.skip(1).skip(1) =~= rest);
            assert(e.skip(1)[0] == c);
            assert(unescape_one(e.skip(1), '"') == seq![c] + unescape_one(rest, '"'));
        } else {
            assert(e.skip(1) =~= rest);
        }
        assert(unescape_one(e, '"') =~= encode_with(s, false));
    }
}

proof fn lemma_undo_backslashes(s: Seq<char>)
    ensures
        unescape_one(encode_with(s, false), '\\') == s,
    decreases s.len(),
{
    if s.len() > 0 {
        lemma_undo_backslashes(s.skip(1));
        let rest = encode_with(s.skip(1), false);
        let e = encode_with(s, false);
        let c = s[0];
        if c == '\\' {
            assert(e.skip(2) =~= rest);
        } else {
            assert(e.skip(1) =~= rest);
        }
        assert(unescape_one(e, '\\') =~= s);
    }
}

/// Undoing the escapes one kind at a time, in the reverse order of escaping
/// (single quotes, then double quotes, then backslashes), each pass replacing
/// backslash-pairs left to right, gives back the text that was escaped.
pub proof fn lemma_escape_undone_in_reverse_order(s: Seq<char>)
    ensures
        unescape_one(unescape_one(unescape_one(escape(s), '\''), '"'), '\\') == s,
{
    lemma_undo_single_quotes(s);
    lemma_undo_double_quotes(s);
    lemma_undo_backslashes(s);
}

}
