//! Character-level scanning: splitting text into lines and fields, and
//! trimming whitespace, with exact specifications over `Seq<char>`.

use vstd::prelude::*;
use vstd::string::*;

verus! {

/// Characters with the Unicode `White_Space` property, the set that
/// `str::trim` removes at both ends.
pub open spec fn is_space(c: char) -> bool {
    ||| c as u32 == 0x20
    ||| (0x09 <= c as u32 && c as u32 <= 0x0d)
    ||| c as u32 == 0x85
    ||| c as u32 == 0xa0
    ||| c as u32 == 0x1680
    ||| (0x2000 <= c as u32 && c as u32 <= 0x200a)
    ||| c as u32 == 0x2028
    ||| c as u32 == 0x2029
    ||| c as u32 == 0x202f
    ||| c as u32 == 0x205f
    ||| c as u32 == 0x3000
}

/// Whether `c` is one of the characters that trimming removes.
pub fn is_space_char(c: char) -> (b: bool)
    ensures
        b == is_space(c),
{
    let u = c as u32;
    u == 0x20 || (0x09 <= u && u <= 0x0d) || u == 0x85 || u == 0xa0 || u == 0x1680 || (0x2000 <= u
        && u <= 0x200a) || u == 0x2028 || u == 0x2029 || u == 0x202f || u == 0x205f || u == 0x3000
}

/// The views of a sequence of owned strings.
pub open spec fn views_of(ss: Seq<String>) -> Seq<Seq<char>> {
    ss.map_values(|x: String| x@)
}

/// Appending a string appends its view.
pub proof fn lemma_views_push(ss: Seq<String>, x: String)
    ensures
        views_of(ss.push(x)) == views_of(ss).push(x@),
{
    assert(views_of(ss.push(x)) =~~= views_of(ss).push(x@));
}

/// Splitting a character sequence at every occurrence of `sep`, as
/// `str::split` does: the result always has one more token than there
/// are separators, and splitting an empty sequence gives one empty token.
pub open spec fn split_on(s: Seq<char>, sep: char) -> Seq<Seq<char>>
    decreases s.len(),
{
    if s.len() == 0 {
        seq![Seq::<char>::empty()]
    } else if s[0] == sep {
        seq![Seq::<char>::empty()] + split_on(s.drop_first(), sep)
    } else {
        let rest = split_on(s.drop_first(), sep);
        seq![seq![s[0]] + rest[0]] + rest.drop_first()
    }
}

/// A split always yields at least one token.
pub proof fn lemma_split_len(s: Seq<char>, sep: char)
    ensures
        split_on(s, sep).len() >= 1,
    decreases s.len(),
{
    if s.len() == 0 {
    } else {
        lemma_split_len(s.drop_first(), sep);
    }
}

/// Splitting a sequence that holds no separator yields that sequence alone.
pub proof fn lemma_split_no_sep(s: Seq<char>, sep: char)
    requires
        forall|i: int| 0 <= i < s.len() ==> s[i] != sep,
    ensures
        split_on(s, sep) == seq![s],
    decreases s.len(),
{
    if s.len() == 0 {
        assert(s =~= Seq::<char>::empty());
        assert(split_on(s, sep) =~~= seq![s]);
    } else {
        lemma_split_no_sep(s.drop_first(), sep);
        let rest = split_on(s.drop_first(), sep);
        assert(rest == seq![s.drop_first()]);
        assert(seq![s[0]] + rest[0] =~= s);
        assert(rest.drop_first() =~~= Seq::<Seq<char>>::empty());
        assert(split_on(s, sep) =~~= seq![s]);
    }
}

/// Splitting off a first separator-free token: the first token of the split
/// is that token, and the rest is the split of what follows the separator.
pub proof fn lemma_split_first_sep(a: Seq<char>, b: Seq<char>, sep: char)
    requires
        forall|i: int| 0 <= i < a.len() ==> a[i] != sep,
    ensures
        split_on(a + seq![sep] + b, sep) == seq![a] + split_on(b, sep),
    decreases a.len(),
{
    let s = a + seq![sep] + b;
    if a.len() == 0 {
        assert(s[0] == sep);
        assert(s.drop_first() =~= b);
        assert(a =~= Seq::<char>::empty());
        assert(split_on(s, sep) =~~= seq![a] + split_on(b, sep));
    } else {
        assert(s[0] == a[0]);
        assert(s[0] != sep);
        assert(s.drop_first() =~= a.drop_first() + seq![sep] + b);
        lemma_split_first_sep(a.drop_first(), b, sep);
        let rest = split_on(s.drop_first(), sep);
        assert(rest == seq![a.drop_first()] + split_on(b, sep));
        lemma_split_len(b, sep);
        assert(rest[0] == a.drop_first());
        assert(seq![s[0]] + rest[0] =~= a);
        assert(rest.drop_first() =~~= split_on(b, sep));
        assert(split_on(s, sep) =~~= seq![a] + split_on(b, sep));
    }
}

/// A token with a trailing carriage return loses it; any other stays as it is.
pub open spec fn strip_cr(t: Seq<char>) -> Seq<char> {
    if t.len() > 0 && t[t.len() - 1] == '\r' {
        t.drop_last()
    } else {
        t
    }
}

/// Appending a token appends its stripped form under the line map.
pub proof fn lemma_strip_map_push(a: Seq<Seq<char>>, x: Seq<char>)
    ensures
        (a.push(x)).map_values(|t: Seq<char>| strip_cr(t)) == a.map_values(
            |t: Seq<char>| strip_cr(t),
        ).push(strip_cr(x)),
{
    assert((a.push(x)).map_values(|t: Seq<char>| strip_cr(t)) =~~= a.map_values(
        |t: Seq<char>| strip_cr(t),
    ).push(strip_cr(x)));
}

/// The lines of a text, as `str::lines` yields them: split at `'\n'`, a
/// carriage return directly before a line feed is dropped, and a final line
/// ending opens no further line.
pub open spec fn spec_lines(s: Seq<char>) -> Seq<Seq<char>> {
    let p = split_on(s, '\n');
    let main = p.drop_last().map_values(|t: Seq<char>| strip_cr(t));
    if p.last().len() == 0 {
        main
    } else {
        main + seq![p.last()]
    }
}

/// A split with a single token is the split of a separator-free sequence,
/// and that token is the sequence itself.
pub proof fn lemma_split_single(s: Seq<char>, sep: char)
    requires
        split_on(s, sep).len() == 1,
    ensures
        split_on(s, sep)[0] == s,
    decreases s.len(),
{
    if s.len() == 0 {
        assert(split_on(s, sep)[0] =~= s);
    } else if s[0] == sep {
        lemma_split_len(s.drop_first(), sep);
        assert(false);
    } else {
        let rest = split_on(s.drop_first(), sep);
        lemma_split_len(s.drop_first(), sep);
        assert(rest.drop_first().len() == 0);
        lemma_split_single(s.drop_first(), sep);
        assert(split_on(s, sep)[0] == seq![s[0]] + rest[0]);
        assert(seq![s[0]] + s.drop_first() =~= s);
    }
}

/// A non-empty text has at least one line.
pub proof fn lemma_lines_nonempty(s: Seq<char>)
    requires
        s.len() > 0,
    ensures
        spec_lines(s).len() >= 1,
{
    let p = split_on(s, '\n');
    lemma_split_len(s, '\n');
    if p.last().len() == 0 && p.len() == 1 {
        lemma_split_single(s, '\n');
    }
}

/// Split a text into its lines, as `str::lines` does.
pub fn split_lines(text: &str) -> (lines: Vec<String>)
    ensures
        views_of(lines@) == spec_lines(text@),
{
    let n = text.unicode_len();
    let ghost p = split_on(text@, '\n');
    let ghost mut done: Seq<Seq<char>> = Seq::empty();
    let mut lines: Vec<String> = Vec::new();
    let mut start: usize = 0;
    let mut i: usize = 0;
    proof {
        assert(text@.subrange(0, n as int) =~= text@);
        assert(Seq::<Seq<char>>::empty() + p =~~= p);
    }
    while i < n
        invariant
            n == text@.len(),
            start <= i <= n,
            forall|j: int| start <= j < i ==> text@[j] != '\n',
            p == split_on(text@, '\n'),
            p == done + split_on(text@.subrange(start as int, n as int), '\n'),
            views_of(lines@) == done.map_values(|t: Seq<char>| strip_cr(t)),
        decreases n - i,
    {
        let c = text.get_char(i);
        if c == '\n' {
            let end: usize = if i > start && text.get_char(i - 1) == '\r' {
                i - 1
            } else {
                i
            };
            let piece = text.substring_char(start, end);
            proof {
                let tok = text@.subrange(start as int, i as int);
                let after = text@.subrange(i as int + 1, n as int);
                assert(text@.subrange(start as int, n as int) =~= tok + seq!['\n'] + after);
                lemma_split_first_sep(tok, after, '\n');
                assert(done + (seq![tok] + split_on(after, '\n')) =~~= done.push(tok) + split_on(
                    after,
                    '\n',
                ));
                // the pushed piece is the token with its trailing '\r' stripped
                if i > start && text@[i as int - 1] == '\r' {
                    assert(tok[tok.len() - 1] == '\r');
                    assert(piece@ =~= strip_cr(tok));
                } else if i == start {
                    assert(tok.len() == 0);
                    assert(piece@ =~= strip_cr(tok));
                } else {
                    assert(tok[tok.len() - 1] != '\r');
                    assert(piece@ =~= strip_cr(tok));
                }
            }
            let owned = String::from_str(piece);
            proof {
                lemma_views_push(lines@, owned);
                lemma_strip_map_push(done, text@.subrange(start as int, i as int));
            }
            lines.push(owned);
            proof {
                done = done.push(text@.subrange(start as int, i as int));
            }
            start = i + 1;
        }
        i += 1;
    }
    proof {
        let tok = text@.subrange(start as int, n as int);
        lemma_split_no_sep(tok, '\n');
        assert(p == done + seq![tok]);
        assert(p.last() == tok);
        assert(p.drop_last() =~~= done);
    }
    if start < n {
        let piece = text.substring_char(start, n);
        let owned = String::from_str(piece);
        proof {
            assert(p.last().len() > 0);
            lemma_views_push(lines@, owned);
            assert(views_of(lines@).push(owned@) =~~= spec_lines(text@));
        }
        lines.push(owned);
    } else {
        proof {
            let tok = text@.subrange(start as int, n as int);
            assert(tok.len() == 0);
            assert(p.last().len() == 0);
            assert(views_of(lines@) =~~= spec_lines(text@));
        }
    }
    lines
}

/// Split a line into its comma-separated fields, as `str::split(',')` does.
pub fn split_fields(line: &str) -> (fields: Vec<String>)
    ensures
        views_of(fields@) == split_on(line@, ','),
{
    let n = line.unicode_len();
    let ghost p = split_on(line@, ',');
    let ghost mut done: Seq<Seq<char>> = Seq::empty();
    let mut fields: Vec<String> = Vec::new();
    let mut start: usize = 0;
    let mut i: usize = 0;
    proof {
        assert(line@.subrange(0, n as int) =~= line@);
        assert(Seq::<Seq<char>>::empty() + p =~~= p);
    }
    while i < n
        invariant
            n == line@.len(),
            start <= i <= n,
            forall|j: int| start <= j < i ==> line@[j] != ',',
            p == split_on(line@, ','),
            p == done + split_on(line@.subrange(start as int, n as int), ','),
            views_of(fields@) == done,
        decreases n - i,
    {
        let c = line.get_char(i);
        if c == ',' {
            let piece = line.substring_char(start, i);
            proof {
                let tok = line@.subrange(start as int, i as int);
                let after = line@.subrange(i as int + 1, n as int);
                assert(line@.subrange(start as int, n as int) =~= tok + seq![','] + after);
                lemma_split_first_sep(tok, after, ',');
                assert(done + (seq![tok] + split_on(after, ',')) =~~= done.push(tok) + split_on(
                    after,
                    ',',
                ));
            }
            let owned = String::from_str(piece);
            proof {
                lemma_views_push(fields@, owned);
            }
            fields.push(owned);
            proof {
                done = done.push(line@.subrange(start as int, i as int));
            }
            start = i + 1;
        }
        i += 1;
    }
    let piece = line.substring_char(start, n);
    let owned = String::from_str(piece);
    proof {
        let tok = line@.subrange(start as int, n as int);
        lemma_split_no_sep(tok, ',');
        assert(p == done + seq![tok]);
        lemma_views_push(fields@, owned);
        assert(views_of(fields@).push(tok) =~~= p);
    }
    fields.push(owned);
    fields
}

/// What is left of a sequence after dropping leading whitespace.
pub open spec fn trim_start(s: Seq<char>) -> Seq<char>
    decreases s.len(),
{
    if s.len() > 0 && is_space(s[0]) {
        trim_start(s.drop_first())
    } else {
        s
    }
}

/// What is left of a sequence after dropping trailing whitespace.
pub open spec fn trim_end(s: Seq<char>) -> Seq<char>
    decreases s.len(),
{
    if s.len() > 0 && is_space(s.last()) {
        trim_end(s.drop_last())
    } else {
        s
    }
}

/// A sequence with whitespace dropped at both ends, as `str::trim` leaves it.
pub open spec fn spec_trim(s: Seq<char>) -> Seq<char> {
    trim_end(trim_start(s))
}

/// Dropping leading whitespace keeps the suffix that starts at the first
/// non-whitespace character.
pub proof fn lemma_trim_start_at(s: Seq<char>, a: int)
    requires
        0 <= a <= s.len(),
        forall|j: int| 0 <= j < a ==> is_space(s[j]),
        a == s.len() || !is_space(s[a]),
    ensures
        trim_start(s) == s.subrange(a, s.len() as int),
    decreases a,
{
    if a == 0 {
        if s.len() > 0 && is_space(s[0]) {
            assert(false);
        }
        assert(s.subrange(0, s.len() as int) =~= s);
    } else {
        assert(is_space(s[0]));
        let t = s.drop_first();
        assert(forall|j: int| 0 <= j < a - 1 ==> is_space(#[trigger] t[j]));
        lemma_trim_start_at(t, a - 1);
        assert(t.subrange(a - 1, t.len() as int) =~= s.subrange(a, s.len() as int));
    }
}

/// Dropping trailing whitespace keeps the prefix that ends after the last
/// non-whitespace character.
pub proof fn lemma_trim_end_at(s: Seq<char>, b: int)
    requires
        0 <= b <= s.len(),
        forall|j: int| b <= j < s.len() ==> is_space(s[j]),
        b == 0 || !is_space(s[b - 1]),
    ensures
        trim_end(s) == s.subrange(0, b),
    decreases s.len(),
{
    if b == s.len() {
        if s.len() > 0 && is_space(s.last()) {
            assert(false);
        }
        assert(s.subrange(0, b) =~= s);
    } else {
        assert(is_space(s.last()));
        let t = s.drop_last();
        lemma_trim_end_at(t, b);
        assert(t.subrange(0, b) =~= s.subrange(0, b));
    }
}

/// Trim whitespace from both ends, as `str::trim` does.
pub fn trim_of(s: &str) -> (r: String)
    ensures
        r@ == spec_trim(s@),
{
    let n = s.unicode_len();
    let mut a: usize = 0;
    while a < n && is_space_char(s.get_char(a))
        invariant
            n == s@.len(),
            a <= n,
            forall|j: int| 0 <= j < a ==> is_space(s@[j]),
        decreases n - a,
    {
        a += 1;
    }
    if a == n {
        proof {
            lemma_trim_start_at(s@, n as int);
            assert(trim_start(s@).len() == 0);
            assert(spec_trim(s@) =~= Seq::<char>::empty());
        }
        return String::new();
    }
    let mut b: usize = n;
    while b > a + 1 && is_space_char(s.get_char(b - 1))
        invariant
            n == s@.len(),
            a < b <= n,
            a < n,
            !is_space(s@[a as int]),
            forall|j: int| b <= j < n ==> is_space(s@[j]),
        decreases b,
    {
        b -= 1;
    }
    let piece = s.substring_char(a, b);
    proof {
        lemma_trim_start_at(s@, a as int);
        let t = s@.subrange(a as int, n as int);
        assert(!is_space(t[0]));
        // b - 1 is the last non-whitespace position: either the loop stopped
        // on a non-whitespace character, or it came down to a + 1, and s[a]
        // is not whitespace
        assert(!is_space(s@[b as int - 1]));
        lemma_trim_end_at(t, b as int - a as int);
        assert(t.subrange(0, b as int - a as int) =~= s@.subrange(a as int, b as int));
        assert(piece@ == spec_trim(s@));
    }
    String::from_str(piece)
}

} // verus!
