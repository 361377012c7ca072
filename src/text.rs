//! Character-level building blocks: locating separators, splitting into
//! fields, reading and writing decimal numbers.
use vstd::prelude::*;
use vstd::string::*;

verus! {

/// `i` is the position of the first occurrence of `c` in `s`.
pub open spec fn is_first_index(s: Seq<char>, c: char, i: int) -> bool {
    &&& 0 <= i < s.len()
    &&& s[i] == c
    &&& forall|j: int| 0 <= j < i ==> s[j] != c
}

/// The text before the first `-`, or all of `s` when it has none.
pub open spec fn head_part(s: Seq<char>) -> Seq<char> {
    if exists|i: int| is_first_index(s, '-', i) {
        s.take(choose|i: int| is_first_index(s, '-', i))
    } else {
        s
    }
}

/// The text after the first `-` (further dashes included), or empty when
/// `s` has none.
pub open spec fn tail_part(s: Seq<char>) -> Seq<char> {
    if exists|i: int| is_first_index(s, '-', i) {
        s.skip((choose|i: int| is_first_index(s, '-', i)) + 1)
    } else {
        Seq::empty()
    }
}

/// The pieces of `s` between occurrences of `c`; one more piece than there
/// are separators, so the empty text gives one empty piece.
pub open spec fn split_on(s: Seq<char>, c: char) -> Seq<Seq<char>>
    decreases s.len(),
{
    if s.len() == 0 {
        seq![Seq::empty()]
    } else {
        let rest = split_on(s.drop_last(), c);
        if s.last() == c {
            rest.push(Seq::empty())
        } else {
            rest.update(rest.len() - 1, rest.last().push(s.last()))
        }
    }
}

/// Where piece `k` starts, given the separator positions `cuts`.
pub open spec fn piece_start(cuts: Seq<usize>, k: int) -> int {
    if k == 0 {
        0
    } else {
        cuts[k - 1] + 1
    }
}

/// Where piece `k` ends, given the separator positions `cuts` of a text of
/// length `n`.
pub open spec fn piece_end(cuts: Seq<usize>, k: int, n: int) -> int {
    if k < cuts.len() {
        cuts[k] as int
    } else {
        n
    }
}

pub open spec fn is_digit(c: char) -> bool {
    '0' <= c && c <= '9'
}

pub open spec fn all_digits(s: Seq<char>) -> bool {
    forall|i: int| 0 <= i < s.len() ==> is_digit(#[trigger] s[i])
}

/// The number that a run of decimal digits spells, most significant first.
pub open spec fn digits_value(s: Seq<char>) -> nat
    decreases s.len(),
{
    if s.len() == 0 {
        0
    } else {
        digits_value(s.drop_last()) * 10 + (s.last() as nat - '0' as nat) as nat
    }
}

/// A number's text without its optional leading `+`.
pub open spec fn unsigned_digits(s: Seq<char>) -> Seq<char> {
    if s.len() > 0 && s[0] == '+' {
        s.skip(1)
    } else {
        s
    }
}

/// The byte that `s` denotes as an unsigned decimal: an optional `+` and
/// then at least one digit, with a value of at most 255.
pub open spec fn u8_value(s: Seq<char>) -> Option<u8> {
    let d = unsigned_digits(s);
    if d.len() > 0 && all_digits(d) && digits_value(d) <= 255 {
        Some(digits_value(d) as u8)
    } else {
        None
    }
}

/// The decimal digit for `d < 10`.
pub open spec fn digit_char(d: nat) -> char {
    if d == 0 {
        '0'
    } else if d == 1 {
        '1'
    } else if d == 2 {
        '2'
    } else if d == 3 {
        '3'
    } else if d == 4 {
        '4'
    } else if d == 5 {
        '5'
    } else if d == 6 {
        '6'
    } else if d == 7 {
        '7'
    } else if d == 8 {
        '8'
    } else {
        '9'
    }
}

/// The shortest decimal text of `n`.
pub open spec fn decimal(n: nat) -> Seq<char>
    decreases n,
{
    if n < 10 {
        seq![digit_char(n)]
    } else {
        decimal(n / 10).push(digit_char(n % 10))
    }
}

/// The decimal text of `n` is a non-empty run of digits that spells `n`.
pub proof fn lemma_decimal_digits(n: nat)
    ensures
        decimal(n).len() > 0,
        all_digits(decimal(n)),
        digits_value(decimal(n)) == n,
    decreases n,
{
    lemma_digit_char(n % 10);
    if n >= 10 {
        lemma_decimal_digits(n / 10);
        assert(decimal(n).drop_last() =~= decimal(n / 10));
        assert(decimal(n).last() == digit_char(n % 10));
        assert(digits_value(decimal(n)) == (n / 10) * 10 + n % 10);
    } else {
        assert(decimal(n).drop_last() =~= Seq::<char>::empty());
        assert(digits_value(Seq::<char>::empty()) == 0);
        assert(digits_value(decimal(n)) == n % 10);
    }
}

/// `digit_char(d)` is the digit whose value is `d`.
pub proof fn lemma_digit_char(d: nat)
    requires
        d < 10,
    ensures
        is_digit(digit_char(d)),
        digit_char(d) as nat - '0' as nat == d,
{
}

/// Splitting `s` with `t` appended, where `t` holds no separator, extends
/// the last piece of `s` by `t`.
pub proof fn lemma_split_extend(s: Seq<char>, t: Seq<char>, c: char)
    requires
        forall|i: int| 0 <= i < t.len() ==> t[i] != c,
    ensures
        split_on(s + t, c) == split_on(s, c).update(
            split_on(s, c).len() - 1,
            split_on(s, c).last() + t,
        ),
        split_on(s + t, c).len() == split_on(s, c).len(),
    decreases t.len(),
{
    lemma_split_nonempty(s, c);
    let p = split_on(s, c);
    if t.len() == 0 {
        assert(s + t =~= s);
        assert(p.last() + t =~= p.last());
        assert(p.update(p.len() - 1, p.last() + t) =~= p);
    } else {
        let u = t.drop_last();
        lemma_split_extend(s, u, c);
        assert((s + t).drop_last() =~= s + u);
        assert((s + t).last() == t.last());
        assert((p.last() + u).push(t.last()) =~= p.last() + t);
        assert(split_on(s + t, c) =~= p.update(p.len() - 1, p.last() + t));
    }
}

/// Splitting always yields at least one piece.
pub proof fn lemma_split_nonempty(s: Seq<char>, c: char)
    ensures
        split_on(s, c).len() >= 1,
    decreases s.len(),
{
    if s.len() > 0 {
        lemma_split_nonempty(s.drop_last(), c);
    }
}

/// A separator at the end of `s` opens a new, empty piece.
pub proof fn lemma_split_separator(s: Seq<char>, c: char)
    ensures
        split_on(s.push(c), c) == split_on(s, c).push(Seq::empty()),
{
    assert(s.push(c).drop_last() =~= s);
}

/// What `str::trim` leaves of a text.
pub uninterp spec fn trimmed(s: Seq<char>) -> Seq<char>;

/// Relies on `str::trim`: the text without leading and trailing whitespace,
/// which depends on the characters alone.
#[verifier::external_body]
pub(crate) fn trim_text(s: &str) -> (r: &str)
    ensures
        r@ == trimmed(s@),
{
    s.trim()
}

/// Relies on `<u8 as FromStr>::from_str`: it accepts an optional `+`
/// followed by one or more ASCII digits whose value fits in a byte, and
/// fails on anything else.
#[verifier::external_body]
pub(crate) fn parse_u8(s: &str) -> (r: Result<u8, std::num::ParseIntError>)
    ensures
        r is Ok <==> u8_value(s@) is Some,
        r is Ok ==> u8_value(s@) == Some(r->Ok_0),
{
    s.parse::<u8>()
}

/// Relies on `String::push`: appends one character.
#[verifier::external_body]
pub(crate) fn push_char(s: &mut String, c: char)
    ensures
        final(s)@ == old(s)@.push(c),
{
    s.push(c)
}

fn digit(d: u8) -> (c: char)
    requires
        d < 10,
    ensures
        c == digit_char(d as nat),
{
    if d == 0 {
        '0'
    } else if d == 1 {
        '1'
    } else if d == 2 {
        '2'
    } else if d == 3 {
        '3'
    } else if d == 4 {
        '4'
    } else if d == 5 {
        '5'
    } else if d == 6 {
        '6'
    } else if d == 7 {
        '7'
    } else if d == 8 {
        '8'
    } else {
        '9'
    }
}

/// Appends the decimal text of `n`.
pub(crate) fn push_decimal(s: &mut String, n: u8)
    ensures
        final(s)@ == old(s)@ + decimal(n as nat),
{
    let ghost start = s@;
    if n >= 100 {
        push_char(s, digit(n / 100));
    }
    if n >= 10 {
        push_char(s, digit((n / 10) % 10));
    }
    push_char(s, digit(n % 10));
    proof {
        let m = n as nat;
        if m >= 100 {
            assert(decimal(m / 100) == seq![digit_char(m / 100)]);
            assert(decimal(m / 10) == decimal(m / 100).push(digit_char((m / 10) % 10)));
        } else if m >= 10 {
            assert(decimal(m / 10) == seq![digit_char(m / 10)]);
        }
        assert(s@ =~= start + decimal(m));
    }
}

/// Positions of every `c` in `s`, in increasing order, so that piece `k`
/// of `split_on(s@, c)` runs from `piece_start(cuts@, k)` to
/// `piece_end(cuts@, k, s@.len())`.
pub(crate) fn cut_points(s: &str, c: char) -> (cuts: Vec<usize>)
    ensures
        split_on(s@, c).len() == cuts@.len() + 1,
        forall|k: int|
            0 <= k <= cuts@.len() ==> 0 <= #[trigger] piece_start(cuts@, k) <= piece_end(
                cuts@,
                k,
                s@.len() as int,
            ) <= s@.len(),
        forall|k: int|
            0 <= k <= cuts@.len() ==> #[trigger] split_on(s@, c)[k] == s@.subrange(
                piece_start(cuts@, k),
                piece_end(cuts@, k, s@.len() as int),
            ),
{
    let n = s.unicode_len();
    let mut cuts: Vec<usize> = Vec::new();
    let mut i: usize = 0;
    proof {
        assert(s@.take(0) =~= Seq::<char>::empty());
        assert(s@.subrange(0, 0) =~= Seq::<char>::empty());
    }
    while i < n
        invariant
            n == s@.len(),
            i <= n,
            split_on(s@.take(i as int), c).len() == cuts@.len() + 1,
            forall|k: int|
                0 <= k <= cuts@.len() ==> 0 <= #[trigger] piece_start(cuts@, k) <= piece_end(
                    cuts@,
                    k,
                    i as int,
                ) <= i,
            forall|k: int|
                0 <= k <= cuts@.len() ==> #[trigger] split_on(s@.take(i as int), c)[k]
                    == s@.subrange(piece_start(cuts@, k), piece_end(cuts@, k, i as int)),
        decreases n - i,
    {
        let ch = s.get_char(i);
        let ghost old_cuts = cuts@;
        let ghost before = split_on(s@.take(i as int), c);
        proof {
            assert(s@.take(i + 1).drop_last() =~= s@.take(i as int));
        }
        if ch == c {
            cuts.push(i);
            proof {
                let after = split_on(s@.take(i + 1), c);
                assert(after == before.push(Seq::empty()));
                assert forall|k: int| 0 <= k <= cuts@.len() implies #[trigger] after[k]
                    == s@.subrange(piece_start(cuts@, k), piece_end(cuts@, k, i + 1)) by {
                    if k < old_cuts.len() {
                        assert(piece_start(cuts@, k) == piece_start(old_cuts, k));
                        assert(piece_end(cuts@, k, i + 1) == piece_end(old_cuts, k, i as int));
                    } else if k == old_cuts.len() {
                        assert(piece_start(cuts@, k) == piece_start(old_cuts, k));
                        assert(piece_end(cuts@, k, i + 1) == piece_end(old_cuts, k, i as int));
                    } else {
                        assert(s@.subrange(i + 1, i + 1) =~= Seq::<char>::empty());
                    }
                }
                assert forall|k: int| 0 <= k <= cuts@.len() implies 0 <= #[trigger] piece_start(cuts@, k)
                    <= piece_end(cuts@, k, i + 1) <= i + 1 by {
                    if k < old_cuts.len() {
                        assert(piece_start(cuts@, k) == piece_start(old_cuts, k));
                        assert(piece_end(cuts@, k, i + 1) == piece_end(old_cuts, k, i as int));
                    } else if k == old_cuts.len() {
                        assert(piece_start(cuts@, k) == piece_start(old_cuts, k));
                        assert(piece_end(cuts@, k, i as int) == i);
                    }
                }
            }
        } else {
            proof {
                let after = split_on(s@.take(i + 1), c);
                let last = old_cuts.len() as int;
                assert(after == before.update(last, before[last].push(ch)));
                assert forall|k: int| 0 <= k <= cuts@.len() implies #[trigger] after[k]
                    == s@.subrange(piece_start(cuts@, k), piece_end(cuts@, k, i + 1)) by {
                    if k == last {
                        assert(before[last] == s@.subrange(piece_start(cuts@, k), i as int));
                        assert(s@.subrange(piece_start(cuts@, k), i as int).push(ch)
                            =~= s@.subrange(piece_start(cuts@, k), i + 1));
                    } else {
                        assert(before[k] == s@.subrange(
                            piece_start(cuts@, k),
                            piece_end(cuts@, k, i as int),
                        ));
                    }
                }
                assert forall|k: int| 0 <= k <= cuts@.len() implies 0 <= #[trigger] piece_start(cuts@, k)
                    <= piece_end(cuts@, k, i + 1) <= i + 1 by {
                    assert(0 <= piece_start(cuts@, k) <= piece_end(cuts@, k, i as int) <= i);
                }
            }
        }
        i = i + 1;
    }
    proof {
        assert(s@.take(n as int) =~= s@);
    }
    cuts
}

} // verus!
