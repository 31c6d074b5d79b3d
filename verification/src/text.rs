//! Character-level text helpers: whitespace trimming and splitting a
//! character sequence at a separator, with exact sequence-level models.

use vstd::prelude::*;

verus! {

/// A character with the Unicode `White_Space` property, the set that
/// `char::is_whitespace` recognises.
pub open spec fn is_space(c: char) -> bool {
    let u = c as u32;
    ||| u == 0x09
    ||| u == 0x0A
    ||| u == 0x0B
    ||| u == 0x0C
    ||| u == 0x0D
    ||| u == 0x20
    ||| u == 0x85
    ||| u == 0xA0
    ||| u == 0x1680
    ||| (0x2000 <= u && u <= 0x200A)
    ||| u == 0x2028
    ||| u == 0x2029
    ||| u == 0x202F
    ||| u == 0x205F
    ||| u == 0x3000
}

fn is_space_char(c: char) -> (r: bool)
    ensures
        r == is_space(c),
{
    let u = c as u32;
    u == 0x09 || u == 0x0A || u == 0x0B || u == 0x0C || u == 0x0D || u == 0x20 || u == 0x85
        || u == 0xA0 || u == 0x1680 || (0x2000 <= u && u <= 0x200A) || u == 0x2028 || u == 0x2029
        || u == 0x202F || u == 0x205F || u == 0x3000
}

/// The sequence with its leading whitespace removed.
pub open spec fn trim_front(s: Seq<char>) -> Seq<char>
    decreases s.len(),
{
    if s.len() > 0 && is_space(s[0]) {
        trim_front(s.skip(1))
    } else {
        s
    }
}

/// The sequence with its trailing whitespace removed.
pub open spec fn trim_back(s: Seq<char>) -> Seq<char>
    decreases s.len(),
{
    if s.len() > 0 && is_space(s[s.len() - 1]) {
        trim_back(s.take(s.len() - 1))
    } else {
        s
    }
}

/// The sequence with whitespace removed from both ends, as `str::trim`
/// leaves a line.
pub open spec fn trimmed(s: Seq<char>) -> Seq<char> {
    trim_back(trim_front(s))
}

proof fn lemma_trim_front_skip(s: Seq<char>, a: int)
    requires
        0 <= a <= s.len(),
        forall|k: int| 0 <= k < a ==> is_space(s[k]),
    ensures
        trim_front(s) == trim_front(s.skip(a)),
    decreases a,
{
    if a > 0 {
        assert(is_space(s[0]));
        lemma_trim_front_skip(s.skip(1), a - 1);
        assert(s.skip(1).skip(a - 1) =~= s.skip(a));
    } else {
        assert(s.skip(0) =~= s);
    }
}

proof fn lemma_trim_back_take(s: Seq<char>, b: int)
    requires
        0 <= b <= s.len(),
        forall|k: int| b <= k < s.len() ==> is_space(s[k]),
    ensures
        trim_back(s) == trim_back(s.take(b)),
    decreases s.len() - b,
{
    if b < s.len() {
        assert(is_space(s[s.len() - 1]));
        lemma_trim_back_take(s.take(s.len() - 1), b);
        assert(s.take(s.len() - 1).take(b) =~= s.take(b));
    } else {
        assert(s.take(b) =~= s);
    }
}

/// Remove leading and trailing whitespace from a character vector.
pub fn trim_chars(cs: &Vec<char>) -> (r: Vec<char>)
    ensures
        r@ == trimmed(cs@),
{
    let n = cs.len();
    let mut a: usize = 0;
    while a < n && is_space_char(cs[a])
        invariant
            a <= n,
            n == cs.len(),
            forall|k: int| 0 <= k < a ==> is_space(cs@[k]),
        decreases n - a,
    {
        a += 1;
    }
    let mut b: usize = n;
    while b > a && is_space_char(cs[b - 1])
        invariant
            a <= b <= n,
            n == cs.len(),
            forall|k: int| b <= k < n ==> is_space(cs@[k]),
        decreases b,
    {
        b -= 1;
    }
    let mut r: Vec<char> = Vec::new();
    let mut i: usize = a;
    while i < b
        invariant
            a <= i <= b <= n,
            n == cs.len(),
            r@ == cs@.subrange(a as int, i as int),
        decreases b - i,
    {
        r.push(cs[i]);
        assert(cs@.subrange(a as int, i + 1) =~= cs@.subrange(a as int, i as int).push(cs@[i as int]));
        i += 1;
    }
    proof {
        let t = cs@.skip(a as int);
        lemma_trim_front_skip(cs@, a as int);
        assert(trim_front(t) == t);
        assert(forall|k: int| b - a <= k < t.len() ==> is_space(#[trigger] t[k]));
        lemma_trim_back_take(t, b - a);
        let u = t.take(b - a);
        if b > a {
            assert(u[u.len() - 1] == cs@[b - 1]);
        }
        assert(trim_back(u) == u);
        assert(u =~= cs@.subrange(a as int, b as int));
    }
    r
}

/// The index of the first occurrence of `sep` in `s`, or `s.len()` when
/// `sep` does not occur.
pub open spec fn sep_at(s: Seq<char>, sep: char) -> int
    decreases s.len(),
{
    if s.len() == 0 {
        0
    } else if s[0] == sep {
        0
    } else {
        1 + sep_at(s.skip(1), sep)
    }
}

proof fn lemma_sep_at(s: Seq<char>, sep: char)
    ensures
        0 <= sep_at(s, sep) <= s.len(),
        forall|k: int| 0 <= k < sep_at(s, sep) ==> s[k] != sep,
        sep_at(s, sep) < s.len() ==> s[sep_at(s, sep)] == sep,
    decreases s.len(),
{
    if s.len() > 0 && s[0] != sep {
        lemma_sep_at(s.skip(1), sep);
        assert(forall|k: int| 0 <= k < sep_at(s.skip(1), sep) ==> s.skip(1)[k] != sep);
        assert forall|k: int| 0 <= k < sep_at(s, sep) implies s[k] != sep by {
            if k > 0 {
                assert(s.skip(1)[k - 1] != sep);
                assert(s.skip(1)[k - 1] == s[k]);
            }
        }
    }
}

/// The pieces of `s` between occurrences of `sep`, in order: one more
/// piece than there are separators, pieces themselves free of `sep`.
/// This is how `str::split` cuts a string at a separator character.
pub open spec fn split_at_seps(s: Seq<char>, sep: char) -> Seq<Seq<char>>
    decreases s.len(),
{
    let i = sep_at(s, sep);
    if 0 <= i < s.len() {
        seq![s.take(i)] + split_at_seps(s.skip(i + 1), sep)
    } else {
        seq![s]
    }
}

proof fn lemma_split_no_sep(s: Seq<char>, sep: char)
    requires
        forall|k: int| 0 <= k < s.len() ==> s[k] != sep,
    ensures
        split_at_seps(s, sep) == seq![s],
{
    lemma_sep_at(s, sep);
}

proof fn lemma_split_first(s: Seq<char>, sep: char, j: int)
    requires
        0 <= j < s.len(),
        s[j] == sep,
        forall|k: int| 0 <= k < j ==> s[k] != sep,
    ensures
        split_at_seps(s, sep) == seq![s.take(j)] + split_at_seps(s.skip(j + 1), sep),
{
    lemma_sep_at(s, sep);
    let i = sep_at(s, sep);
    if i < j {
        assert(s[i] == sep);
        assert(s[i] != sep);
    }
    if i > j {
        assert(s[j] != sep);
    }
    assert(i == j);
}

/// Every piece that `split_at_seps` yields is no longer than the input.
proof fn lemma_split_piece_len(s: Seq<char>, sep: char)
    ensures
        split_at_seps(s, sep).len() >= 1,
        forall|p: int|
            0 <= p < split_at_seps(s, sep).len() ==> (#[trigger] split_at_seps(s, sep)[p]).len()
                <= s.len(),
    decreases s.len(),
{
    lemma_sep_at(s, sep);
    let i = sep_at(s, sep);
    if 0 <= i < s.len() {
        lemma_split_piece_len(s.skip(i + 1), sep);
    }
}

/// Split a character vector at every occurrence of `sep`.
pub fn split_char(cs: &Vec<char>, sep: char) -> (r: Vec<Vec<char>>)
    ensures
        r.deep_view() == split_at_seps(cs@, sep),
{
    let mut r: Vec<Vec<char>> = Vec::new();
    let mut cur: Vec<char> = Vec::new();
    let ghost mut start: int = 0;
    let mut i: usize = 0;
    proof {
        assert(cs@.skip(0) =~= cs@);
        assert(r.deep_view() + split_at_seps(cs@, sep) =~= split_at_seps(cs@, sep));
    }
    while i < cs.len()
        invariant
            0 <= start <= i <= cs@.len(),
            cur@ == cs@.subrange(start, i as int),
            forall|k: int| start <= k < i ==> cs@[k] != sep,
            split_at_seps(cs@, sep) == r.deep_view() + split_at_seps(cs@.skip(start), sep),
        decreases cs@.len() - i,
    {
        let c = cs[i];
        if c == sep {
            proof {
                let t = cs@.skip(start);
                assert forall|k: int| 0 <= k < i - start implies t[k] != sep by {
                    assert(t[k] == cs@[start + k]);
                }
                assert(t[i - start] == sep);
                lemma_split_first(t, sep, i - start);
                assert(t.take(i - start) =~= cur@);
                assert(t.skip(i - start + 1) =~= cs@.skip(i + 1));
            }
            let ghost old_r = r.deep_view();
            let ghost piece = cur@;
            r.push(cur);
            proof {
                assert(r.deep_view() =~~= old_r.push(piece));
                assert(old_r.push(piece) + split_at_seps(cs@.skip(i + 1), sep) =~= old_r + (seq![
                    piece,
                ] + split_at_seps(cs@.skip(i + 1), sep)));
                start = i + 1;
            }
            cur = Vec::new();
            assert(cur@ =~= cs@.subrange(start, i + 1));
        } else {
            cur.push(c);
            assert(cur@ =~= cs@.subrange(start, i + 1));
        }
        i += 1;
    }
    proof {
        let t = cs@.skip(start);
        assert(cur@ =~= t);
        assert forall|k: int| 0 <= k < t.len() implies t[k] != sep by {
            assert(t[k] == cs@[start + k]);
        }
        lemma_split_no_sep(t, sep);
    }
    let ghost old_r = r.deep_view();
    let ghost piece = cur@;
    r.push(cur);
    proof {
        assert(r.deep_view() =~~= old_r.push(piece));
        assert(old_r.push(piece) =~= old_r + seq![piece]);
    }
    r
}

/// The lines of a text: the pieces between `'\n'` separators, without the
/// final empty piece that a trailing newline leaves.  Together with the
/// trimming every line undergoes afterwards, this cuts text exactly as
/// `str::lines` does, a trailing `'\r'` being whitespace.
pub open spec fn line_seqs(s: Seq<char>) -> Seq<Seq<char>> {
    let ps = split_at_seps(s, '\n');
    if ps.len() > 0 && ps.last().len() == 0 {
        ps.drop_last()
    } else {
        ps
    }
}

/// Cut a text into its lines.
pub fn split_lines(cs: &Vec<char>) -> (r: Vec<Vec<char>>)
    ensures
        r.deep_view() == line_seqs(cs@),
{
    let mut ps = split_char(cs, '\n');
    proof {
        lemma_split_piece_len(cs@, '\n');
        assert(ps.deep_view().len() == ps@.len());
    }
    if ps[ps.len() - 1].len() == 0 {
        let ghost old_ps = ps.deep_view();
        assert(old_ps.last().len() == 0);
        ps.pop();
        assert(ps.deep_view() =~~= old_ps.drop_last());
    }
    ps
}

/// Relies on `str::chars`: iterating a string slice yields exactly the
/// characters of its view, which `collect` gathers into a vector.
#[verifier::external_body]
pub(crate) fn chars_of(s: &str) -> (r: Vec<char>)
    ensures
        r@ == s@,
{
    s.chars().collect()
}

/// Relies on `FromIterator for String`: collecting characters builds the
/// string of exactly those characters, in order.
#[verifier::external_body]
pub(crate) fn string_of(cs: &Vec<char>) -> (r: String)
    ensures
        r@ == cs@,
{
    cs.iter().collect()
}

} // verus!
