//! The version value: parsing, recency comparison and rendering.
use crate::text::{
    cut_points, decimal, piece_start, lemma_decimal_digits, lemma_split_extend,
    lemma_split_separator, digits_value, digit_char, head_part, is_digit, is_first_index, all_digits,
    parse_u8, push_char, push_decimal, split_on, tail_part, trim_text, trimmed, u8_value,
    unsigned_digits,
};
use vstd::prelude::*;
use vstd::string::*;

verus! {

/// The mathematical content of a [`Version`].
pub struct VersionModel {
    pub major: u8,
    pub minor: u8,
    pub patch: u8,
    pub suffix: Seq<char>,
}

/// A version number `major.minor.patch` with an optional free-text suffix;
/// an empty suffix marks a release build.
#[derive(Debug)]
pub struct Version {
    major: u8,
    minor: u8,
    patch: u8,
    suffix: String,
}

/// Why a text is not a version.
#[derive(Debug)]
pub enum ParseError {
    /// A numeric field is not a number from 0 to 255.
    IntError(std::num::ParseIntError),
    /// The part before the suffix has fewer than two or more than three
    /// dot-separated fields.
    LengthError,
}

impl View for Version {
    type V = VersionModel;

    closed spec fn view(&self) -> VersionModel {
        VersionModel {
            major: self.major,
            minor: self.minor,
            patch: self.patch,
            suffix: self.suffix@,
        }
    }
}

/// The dot-separated fields of the numeric part of `s`.
pub open spec fn fields_of(s: Seq<char>) -> Seq<Seq<char>> {
    split_on(head_part(s), '.')
}

/// The numeric part of `s` has two or three fields.
pub open spec fn length_ok(s: Seq<char>) -> bool {
    2 <= fields_of(s).len() <= 3
}

/// Every field of the numeric part of `s` is a number from 0 to 255.
pub open spec fn numbers_ok(s: Seq<char>) -> bool {
    let f = fields_of(s);
    &&& u8_value(f[0]) is Some
    &&& u8_value(f[1]) is Some
    &&& f.len() == 3 ==> u8_value(f[2]) is Some
}

/// The version that `s` spells, where `length_ok(s)` and `numbers_ok(s)`
/// hold; a missing patch is 0.
pub open spec fn parsed(s: Seq<char>) -> VersionModel {
    let f = fields_of(s);
    VersionModel {
        major: u8_value(f[0])->0,
        minor: u8_value(f[1])->0,
        patch: if f.len() == 3 {
            u8_value(f[2])->0
        } else {
            0
        },
        suffix: tail_part(s),
    }
}

/// A release build: the suffix is blank once trimmed.
pub open spec fn release_build(v: VersionModel) -> bool {
    trimmed(v.suffix).len() == 0
}

/// `a` is strictly more recent than `b`: a greater numeric triple, or the
/// same triple with `a` a release and `b` not.
pub open spec fn newer(a: VersionModel, b: VersionModel, a_release: bool, b_release: bool) -> bool {
    if a.major != b.major {
        a.major > b.major
    } else if a.minor != b.minor {
        a.minor > b.minor
    } else if a.patch != b.patch {
        a.patch > b.patch
    } else {
        a_release && !b_release
    }
}

/// `major.minor.patch` in decimal.
pub open spec fn numeric_text(v: VersionModel) -> Seq<char> {
    decimal(v.major as nat) + seq!['.'] + decimal(v.minor as nat) + seq!['.'] + decimal(
        v.patch as nat,
    )
}

/// The text of `v`: the numeric triple, followed by `-` and the suffix
/// unless `v` is a release.
pub open spec fn display_text(v: VersionModel, release: bool) -> Seq<char> {
    if release {
        numeric_text(v)
    } else {
        numeric_text(v) + seq!['-'] + v.suffix
    }
}

impl Version {
    /// Parses `MAJOR.MINOR[.PATCH][-SUFFIX]`. The text after the first `-`
    /// is the suffix, kept verbatim; the text before it must hold two or
    /// three dot-separated numbers from 0 to 255, and a missing patch is 0.
    pub fn build_string(version: &str) -> (r: Result<Version, ParseError>)
        ensures
            r is Ok <==> length_ok(version@) && numbers_ok(version@),
            (r matches Err(ParseError::LengthError)) <==> !length_ok(version@),
            r matches Ok(v) ==> v@ == parsed(version@),
    {
        let n = version.unicode_len();
        let mut d: usize = 0;
        while d < n && version.get_char(d) != '-'
            invariant
                n == version@.len(),
                d <= n,
                forall|j: int| 0 <= j < d ==> version@[j] != '-',
            decreases n - d,
        {
            d = d + 1;
        }
        let head: &str;
        let tail: &str;
        if d < n {
            head = version.substring_char(0, d);
            tail = version.substring_char(d + 1, n);
        } else {
            head = version;
            tail = "";
        }
        proof {
            reveal_strlit("");
            if d < n {
                assert(is_first_index(version@, '-', d as int));
                let i = choose|i: int| is_first_index(version@, '-', i);
                assert(i == d);
            } else {
                assert(!exists|i: int| is_first_index(version@, '-', i));
            }
            assert(head@ == head_part(version@));
            assert(tail@ =~= tail_part(version@));
        }
        let cuts = cut_points(head, '.');
        if cuts.len() < 1 || cuts.len() > 2 {
            return Err(ParseError::LengthError);
        }
        let m = head.unicode_len();
        let suffix = String::from_str(tail);
        proof {
            assert(piece_start(cuts@, 0) == 0);
            assert(piece_start(cuts@, 1) == cuts@[0] + 1);
            if cuts.len() == 2 {
                assert(piece_start(cuts@, 2) == cuts@[1] + 1);
            }
            assert(split_on(head@, '.')[0] == head@.subrange(0, cuts@[0] as int));
        }
        let major = match parse_u8(head.substring_char(0, cuts[0])) {
            Ok(x) => x,
            Err(e) => return Err(ParseError::IntError(e)),
        };
        let minor_end = if cuts.len() == 2 {
            cuts[1]
        } else {
            m
        };
        proof {
            assert(split_on(head@, '.')[1] == head@.subrange(cuts@[0] + 1, minor_end as int));
        }
        let minor = match parse_u8(head.substring_char(cuts[0] + 1, minor_end)) {
            Ok(x) => x,
            Err(e) => return Err(ParseError::IntError(e)),
        };
        let patch: u8;
        if cuts.len() == 2 {
            proof {
                assert(split_on(head@, '.')[2] == head@.subrange(cuts@[1] + 1, m as int));
            }
            patch = match parse_u8(head.substring_char(cuts[1] + 1, m)) {
                Ok(x) => x,
                Err(e) => return Err(ParseError::IntError(e)),
            };
        } else {
            patch = 0;
        }
        Ok(Version { major, minor, patch, suffix })
    }

    /// Whether this is a release build: its suffix is blank once trimmed.
    pub fn is_release(&self) -> (r: bool)
        ensures
            r == release_build(self@),
    {
        trim_text(self.suffix.as_str()).is_empty()
    }

    /// Whether `self` is strictly more recent than `other`, given whether
    /// each of them is a release build.
    pub fn newer_given(&self, other: &Version, self_release: bool, other_release: bool) -> (r:
        bool)
        ensures
            r == newer(self@, other@, self_release, other_release),
    {
        if self.major != other.major {
            self.major > other.major
        } else if self.minor != other.minor {
            self.minor > other.minor
        } else if self.patch != other.patch {
            self.patch > other.patch
        } else {
            self_release && !other_release
        }
    }

    /// Whether `self` is strictly more recent than `other`: a greater
    /// `(major, minor, patch)`, or the same triple with `self` a release
    /// and `other` not. This is no total order: two versions may each fail
    /// to be newer than the other.
    pub fn is_newer(&self, other: &Version) -> (r: bool)
        ensures
            r == newer(self@, other@, release_build(self@), release_build(other@)),
    {
        let a = self.is_release();
        let b = other.is_release();
        self.newer_given(other, a, b)
    }

    /// The text of this version, with the suffix left out when `release`.
    pub fn render(&self, release: bool) -> (r: String)
        ensures
            r@ == display_text(self@, release),
    {
        let mut s = String::new();
        push_decimal(&mut s, self.major);
        push_char(&mut s, '.');
        push_decimal(&mut s, self.minor);
        push_char(&mut s, '.');
        push_decimal(&mut s, self.patch);
        if !release {
            push_char(&mut s, '-');
            s.append(self.suffix.as_str());
        }
        proof {
            assert(s@ =~= display_text(self@, release));
        }
        s
    }

    /// `major.minor.patch`, followed by `-` and the verbatim suffix unless
    /// this is a release build.
    pub fn to_string(&self) -> (r: String)
        ensures
            r@ == display_text(self@, release_build(self@)),
    {
        let release = self.is_release();
        self.render(release)
    }

    pub fn major(&self) -> (r: u8)
        ensures
            r == self@.major,
    {
        self.major
    }

    pub fn minor(&self) -> (r: u8)
        ensures
            r == self@.minor,
    {
        self.minor
    }

    pub fn patch(&self) -> (r: u8)
        ensures
            r == self@.patch,
    {
        self.patch
    }

    /// The suffix exactly as it was parsed.
    pub fn suffix(&self) -> (r: &str)
        ensures
            r@ == self@.suffix,
    {
        self.suffix.as_str()
    }
}

/// The fields of a version's numeric text are the decimal texts of its
/// three numbers, and that text holds no `-`.
proof fn lemma_numeric_fields(v: VersionModel)
    ensures
        split_on(numeric_text(v), '.') == seq![
            decimal(v.major as nat),
            decimal(v.minor as nat),
            decimal(v.patch as nat),
        ],
        forall|i: int| 0 <= i < numeric_text(v).len() ==> numeric_text(v)[i] != '-',
        u8_value(decimal(v.major as nat)) == Some(v.major),
        u8_value(decimal(v.minor as nat)) == Some(v.minor),
        u8_value(decimal(v.patch as nat)) == Some(v.patch),
{
    let a = decimal(v.major as nat);
    let b = decimal(v.minor as nat);
    let c = decimal(v.patch as nat);
    lemma_decimal_digits(v.major as nat);
    lemma_decimal_digits(v.minor as nat);
    lemma_decimal_digits(v.patch as nat);
    assert(unsigned_digits(a) == a);
    assert(unsigned_digits(b) == b);
    assert(unsigned_digits(c) == c);
    assert forall|t: Seq<char>, i: int|
        all_digits(t) && 0 <= i < t.len() implies #[trigger] t[i] != '.' && t[i] != '-' by {
        assert(is_digit(t[i]));
    }
    let e = Seq::<char>::empty();
    assert(split_on(e, '.') == seq![e]);
    lemma_split_extend(e, a, '.');
    assert(e + a =~= a);
    assert(split_on(a, '.') =~= seq![a]);
    lemma_split_separator(a, '.');
    let n1 = a.push('.');
    lemma_split_extend(n1, b, '.');
    assert(split_on(n1 + b, '.') =~= seq![a, b]);
    lemma_split_separator(n1 + b, '.');
    let n3 = (n1 + b).push('.');
    lemma_split_extend(n3, c, '.');
    assert(numeric_text(v) =~= n3 + c);
    assert(split_on(n3 + c, '.') =~= seq![a, b, c]);
    assert forall|i: int| 0 <= i < numeric_text(v).len() implies numeric_text(v)[i] != '-' by {
        let t = numeric_text(v);
        if i < a.len() {
            assert(t[i] == a[i]);
        } else if i == a.len() {
            assert(t[i] == '.');
        } else if i < a.len() + 1 + b.len() {
            assert(t[i] == b[i - a.len() - 1]);
        } else if i == a.len() + 1 + b.len() {
            assert(t[i] == '.');
        } else {
            assert(t[i] == c[i - a.len() - 2 - b.len()]);
        }
    }
}

/// Parsing the text of `v`, rendered with or without its suffix, gives
/// back its numbers, and its suffix where that was rendered.
proof fn lemma_display_then_parse(v: VersionModel, release: bool)
    ensures
        length_ok(display_text(v, release)),
        numbers_ok(display_text(v, release)),
        parsed(display_text(v, release)) == (VersionModel {
            major: v.major,
            minor: v.minor,
            patch: v.patch,
            suffix: if release {
                Seq::empty()
            } else {
                v.suffix
            },
        }),
{
    lemma_numeric_fields(v);
    let n = numeric_text(v);
    let s = display_text(v, release);
    if release {
        assert(!exists|i: int| is_first_index(s, '-', i));
        assert(head_part(s) == n);
        assert(tail_part(s) == Seq::<char>::empty());
    } else {
        let k = n.len() as int;
        assert(s[k] == '-');
        assert(is_first_index(s, '-', k));
        let i = choose|i: int| is_first_index(s, '-', i);
        assert(i == k);
        assert(head_part(s) =~= n);
        assert(tail_part(s) =~= v.suffix);
    }
}

/// Rendering a version with `to_string` and parsing the text with
/// `build_string` gives back the same numbers and suffix; the one exception
/// is a suffix that is blank but not empty, which is left out of the text and
/// so comes back empty.
pub proof fn lemma_render_then_parse(v: Version)
    ensures
        length_ok(display_text(v@, release_build(v@))),
        numbers_ok(display_text(v@, release_build(v@))),
        release_build(v@) ==> parsed(display_text(v@, release_build(v@))) == (VersionModel {
            suffix: Seq::empty(),
            ..v@
        }),
        v@.suffix.len() == 0 || !release_build(v@) ==> parsed(
            display_text(v@, release_build(v@)),
        ) == v@,
{
    lemma_display_then_parse(v@, release_build(v@));
    if v@.suffix.len() == 0 {
        assert(v@.suffix =~= Seq::<char>::empty());
    }
}

} // verus!
