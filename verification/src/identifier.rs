//! Format identifiers and the version gate.
//!
//! Every file of a recording begins with a format identifier: a variant tag
//! and a semantic version, written as `<variant>/<major>.<minor>.<patch>`.
//! A reader decides with [`FormatIdentifier::can_read_version`] whether it
//! understands data written by another version.

use vstd::prelude::*;

use crate::wire::{
    dec_string, decode_string, enc_string, encode_str, DecodeFailure, SpecDec,
};

verus! {

/// The format variant used to encode a file.
///
/// A format variant distinguishes the different file formats of a recording:
/// the streaming format, the chunked format, and the chunked recording's
/// meta and callsites files.
#[derive(Debug, Clone, Copy, PartialEq, Eq, Structural)]
pub enum FormatVariant {
    /// The streaming variant. The string representation is `rfr-s`.
    RfrStreaming,
    /// The chunked variant. The string representation is `rfr-c`.
    RfrChunked,
    /// The chunked recording meta file. The string representation is `rfr-cm`.
    RfrChunkedMeta,
    /// The chunked recording callsites file. The string representation is
    /// `rfr-cc`.
    RfrChunkedCallsites,
}

impl FormatVariant {
    /// The string representation of a variant, as a character sequence.
    pub open spec fn chars_spec(&self) -> Seq<char> {
        match self {
            FormatVariant::RfrStreaming => seq!['r', 'f', 'r', '-', 's'],
            FormatVariant::RfrChunked => seq!['r', 'f', 'r', '-', 'c'],
            FormatVariant::RfrChunkedMeta => seq!['r', 'f', 'r', '-', 'c', 'm'],
            FormatVariant::RfrChunkedCallsites => seq!['r', 'f', 'r', '-', 'c', 'c'],
        }
    }

    /// The variant denoted by a character sequence, if any.
    pub open spec fn of_chars_spec(s: Seq<char>) -> Option<FormatVariant> {
        if s == FormatVariant::RfrStreaming.chars_spec() {
            Some(FormatVariant::RfrStreaming)
        } else if s == FormatVariant::RfrChunked.chars_spec() {
            Some(FormatVariant::RfrChunked)
        } else if s == FormatVariant::RfrChunkedMeta.chars_spec() {
            Some(FormatVariant::RfrChunkedMeta)
        } else if s == FormatVariant::RfrChunkedCallsites.chars_spec() {
            Some(FormatVariant::RfrChunkedCallsites)
        } else {
            None
        }
    }

    /// The string representation of this variant.
    pub fn as_str(&self) -> (r: &'static str)
        ensures
            r@ == self.chars_spec(),
    {
        match self {
            FormatVariant::RfrStreaming => {
                proof {
                    reveal_strlit("rfr-s");
                }
                "rfr-s"
            },
            FormatVariant::RfrChunked => {
                proof {
                    reveal_strlit("rfr-c");
                }
                "rfr-c"
            },
            FormatVariant::RfrChunkedMeta => {
                proof {
                    reveal_strlit("rfr-cm");
                }
                "rfr-cm"
            },
            FormatVariant::RfrChunkedCallsites => {
                proof {
                    reveal_strlit("rfr-cc");
                }
                "rfr-cc"
            },
        }
    }
}

/// Whether a character is a decimal digit.
pub open spec fn is_digit(c: char) -> bool {
    '0' <= c <= '9'
}

/// The numeric value of a decimal digit character.
pub open spec fn digit_val(c: char) -> nat {
    (c as u32 - 48) as nat
}

/// The decimal digit character for a value below ten.
pub open spec fn digit_char(d: nat) -> char {
    if d == 0 {
        '0'
    } else if d == 1 {
        '1'
    } else if d == 2 {
        '2'
    } else if d == 3 {
        '3'
    } else if d == 4 {
        '4'
    } else if d == 5 {
        '5'
    } else if d == 6 {
        '6'
    } else if d == 7 {
        '7'
    } else if d == 8 {
        '8'
    } else {
        '9'
    }
}

/// Whether every character of a sequence is a decimal digit.
pub open spec fn all_digits(s: Seq<char>) -> bool {
    forall|i: int| 0 <= i < s.len() ==> is_digit(#[trigger] s[i])
}

/// The numeric value of a sequence of decimal digit characters.
pub open spec fn dec_val(s: Seq<char>) -> nat
    decreases s.len(),
{
    if s.len() == 0 {
        0
    } else {
        dec_val(s.drop_last()) * 10 + digit_val(s.last())
    }
}

/// The canonical decimal rendering of a number, most significant digit
/// first and without leading zeros.
pub open spec fn dec_chars(n: nat) -> Seq<char>
    decreases n,
{
    if n < 10 {
        seq![digit_char(n)]
    } else {
        dec_chars(n / 10).push(digit_char(n % 10))
    }
}

/// The decimal rendering of a number consists of digits and reads back as
/// the same number.
pub proof fn lemma_dec_chars_val(n: nat)
    ensures
        dec_chars(n).len() >= 1,
        all_digits(dec_chars(n)),
        dec_val(dec_chars(n)) == n,
    decreases n,
{
    if n < 10 {
        assert(is_digit(digit_char(n)));
        assert(dec_chars(n).drop_last() =~= Seq::<char>::empty());
        assert(dec_val(Seq::<char>::empty()) == 0);
        assert(dec_chars(n).last() == digit_char(n));
        assert(dec_val(dec_chars(n)) == digit_val(digit_char(n)));
        assert(digit_val(digit_char(n)) == n);
    } else {
        lemma_dec_chars_val(n / 10);
        let s = dec_chars(n);
        assert(s.drop_last() =~= dec_chars(n / 10));
        assert(s.last() == digit_char(n % 10));
        assert(is_digit(digit_char((n % 10) as nat)));
        assert(digit_val(digit_char((n % 10) as nat)) == n % 10);
        assert(dec_val(s) == (n / 10) * 10 + n % 10);
        vstd::arithmetic::div_mod::lemma_fundamental_div_mod(n as int, 10);
        assert(forall|i: int|
            0 <= i < s.len() ==> is_digit(#[trigger] s[i])) by {
            assert(forall|i: int|
                0 <= i < s.len() - 1 ==> s[i] == dec_chars(n / 10)[i]);
        }
    }
}

/// Growing a digit string can only grow the number it denotes.
pub proof fn lemma_dec_val_extend_large(s: Seq<char>, k: int)
    requires
        0 <= k <= s.len(),
        dec_val(s.take(k)) > u32::MAX,
    ensures
        dec_val(s) > u32::MAX,
    decreases s.len() - k,
{
    if k < s.len() {
        let t = s.take(k + 1);
        assert(t.drop_last() =~= s.take(k));
        assert(dec_val(t) == dec_val(s.take(k)) * 10 + digit_val(t.last()));
        assert(dec_val(s.take(k)) * 10 >= dec_val(s.take(k))) by (nonlinear_arith);
        lemma_dec_val_extend_large(s, k + 1);
    } else {
        assert(s.take(k) =~= s);
    }
}

/// The format identifier: the variant and version of the file format.
///
/// The identifier is present at the beginning of all flight recording data.
/// Its string representation is `<variant>/<major>.<minor>.<patch>`; for
/// example, `rfr-s/0.1.2` is the streaming format at version `0.1.2`.
///
/// Versions follow semantic versioning: a change in the left-most non-zero
/// part of the version is a breaking change.
#[derive(Debug, Clone, Copy, PartialEq, Eq, Structural)]
pub struct FormatIdentifier {
    /// The format variant.
    pub variant: FormatVariant,
    /// The major part of the version.
    pub major: u32,
    /// The minor part of the version.
    pub minor: u32,
    /// The patch part of the version.
    pub patch: u32,
}

impl FormatIdentifier {
    /// The string representation of an identifier, as a character sequence.
    pub open spec fn chars_spec(&self) -> Seq<char> {
        self.variant.chars_spec() + seq!['/'] + dec_chars(self.major as nat) + seq!['.']
            + dec_chars(self.minor as nat) + seq!['.'] + dec_chars(self.patch as nat)
    }

    /// Render the string representation `<variant>/<major>.<minor>.<patch>`.
    pub fn to_string(&self) -> (r: String)
        ensures
            r@ == self.chars_spec(),
    {
        let mut out = String::new();
        out.append(self.variant.as_str());
        proof {
            reveal_strlit("/");
        }
        out.append("/");
        push_decimal(&mut out, self.major);
        proof {
            reveal_strlit(".");
        }
        out.append(".");
        push_decimal(&mut out, self.minor);
        out.append(".");
        push_decimal(&mut out, self.patch);
        proof {
            assert(out@ =~= self.chars_spec());
        }
        out
    }
}

/// Append one decimal digit character to a string.
fn push_digit(out: &mut String, d: u32)
    requires
        d < 10,
    ensures
        final(out)@ == old(out)@ + seq![digit_char(d as nat)],
{
    proof {
        reveal_strlit("0");
        reveal_strlit("1");
        reveal_strlit("2");
        reveal_strlit("3");
        reveal_strlit("4");
        reveal_strlit("5");
        reveal_strlit("6");
        reveal_strlit("7");
        reveal_strlit("8");
        reveal_strlit("9");
    }
    match d {
        0 => out.append("0"),
        1 => out.append("1"),
        2 => out.append("2"),
        3 => out.append("3"),
        4 => out.append("4"),
        5 => out.append("5"),
        6 => out.append("6"),
        7 => out.append("7"),
        8 => out.append("8"),
        _ => out.append("9"),
    }
    proof {
        assert(out@ =~= old(out)@ + seq![digit_char(d as nat)]);
    }
}

/// Append the decimal rendering of a number to a string.
pub fn push_decimal(out: &mut String, n: u32)
    ensures
        final(out)@ == old(out)@ + dec_chars(n as nat),
    decreases n,
{
    if n >= 10 {
        push_decimal(out, n / 10);
    }
    push_digit(out, n % 10);
    proof {
        assert(out@ =~= old(out)@ + dec_chars(n as nat));
    }
}

/// The number of occurrences of a character in a sequence.
pub open spec fn char_count(s: Seq<char>, c: char) -> nat
    decreases s.len(),
{
    if s.len() == 0 {
        0
    } else {
        char_count(s.drop_last(), c) + (if s.last() == c {
            1nat
        } else {
            0nat
        })
    }
}

/// The index of the first occurrence of a character in a sequence; the
/// length of the sequence when the character does not occur.
pub open spec fn idx_of(s: Seq<char>, c: char) -> int
    decreases s.len(),
{
    if s.len() == 0 {
        0
    } else if s[0] == c {
        0
    } else {
        1 + idx_of(s.drop_first(), c)
    }
}

/// Occurrence counts add up over concatenation.
pub proof fn lemma_char_count_concat(s1: Seq<char>, s2: Seq<char>, c: char)
    ensures
        char_count(s1 + s2, c) == char_count(s1, c) + char_count(s2, c),
    decreases s2.len(),
{
    if s2.len() == 0 {
        assert(s1 + s2 =~= s1);
    } else {
        assert((s1 + s2).drop_last() =~= s1 + s2.drop_last());
        assert((s1 + s2).last() == s2.last());
        lemma_char_count_concat(s1, s2.drop_last(), c);
    }
}

/// A sequence without the character has an occurrence count of zero.
pub proof fn lemma_char_count_zero(s: Seq<char>, c: char)
    requires
        forall|i: int| 0 <= i < s.len() ==> #[trigger] s[i] != c,
    ensures
        char_count(s, c) == 0,
    decreases s.len(),
{
    if s.len() > 0 {
        lemma_char_count_zero(s.drop_last(), c);
    }
}

/// A sequence with a single occurrence of the character has count one.
pub proof fn lemma_char_count_single(s: Seq<char>, c: char, i: int)
    requires
        0 <= i < s.len(),
        s[i] == c,
        forall|j: int| 0 <= j < s.len() && j != i ==> #[trigger] s[j] != c,
    ensures
        char_count(s, c) == 1,
    decreases s.len(),
{
    if i == s.len() - 1 {
        lemma_char_count_zero(s.drop_last(), c);
    } else {
        lemma_char_count_single(s.drop_last(), c, i);
    }
}

/// The first occurrence of a character is where nothing before it matches.
pub proof fn lemma_idx_of_first(s: Seq<char>, c: char, i: int)
    requires
        0 <= i < s.len(),
        s[i] == c,
        forall|j: int| 0 <= j < i ==> #[trigger] s[j] != c,
    ensures
        idx_of(s, c) == i,
    decreases i,
{
    if i > 0 {
        lemma_idx_of_first(s.drop_first(), c, i - 1);
    }
}

/// A version part is well-formed when it is a non-empty digit string whose
/// value fits in 32 bits.
pub open spec fn part_ok(x: Seq<char>) -> bool {
    x.len() >= 1 && all_digits(x) && dec_val(x) <= u32::MAX
}

/// The version denoted by the characters after the variant separator, if
/// they are well-formed: exactly two dots separating three decimal parts.
pub open spec fn version_of_chars(w: Seq<char>) -> Option<(u32, u32, u32)> {
    if char_count(w, '.') == 2 {
        let j1 = idx_of(w, '.');
        let a = w.take(j1);
        let rest = w.skip(j1 + 1);
        let j2 = idx_of(rest, '.');
        let b = rest.take(j2);
        let cpart = rest.skip(j2 + 1);
        if part_ok(a) && part_ok(b) && part_ok(cpart) {
            Some((dec_val(a) as u32, dec_val(b) as u32, dec_val(cpart) as u32))
        } else {
            None
        }
    } else {
        None
    }
}

/// The identifier denoted by a character sequence, if it is well-formed:
/// a known variant and a version, separated by a single slash.
pub open spec fn identifier_of_chars(s: Seq<char>) -> Option<FormatIdentifier> {
    if char_count(s, '/') == 1 {
        let i = idx_of(s, '/');
        match FormatVariant::of_chars_spec(s.take(i)) {
            Some(variant) => match version_of_chars(s.skip(i + 1)) {
                Some(version) => Some(
                    FormatIdentifier {
                        variant,
                        major: version.0,
                        minor: version.1,
                        patch: version.2,
                    },
                ),
                None => None,
            },
            None => None,
        }
    } else {
        None
    }
}

/// Error attempting to parse a [`FormatIdentifier`] from its string
/// representation.
#[derive(Debug, Clone, PartialEq, Eq)]
pub enum ParseFormatVersionError {
    /// The string representation did not have exactly two parts separated by
    /// a single `/` character.
    IncorrectParts,
    /// The variant (everything before the `/`) is unknown. The included
    /// string is the variant that could not be identified.
    UnknownVariant(String),
    /// The version part (everything after the `/`) is invalid. A valid
    /// version is `<major>.<minor>.<patch>` with each part a decimal
    /// integer. The included string is the version that could not be parsed.
    InvalidVersion(String),
}

impl FormatIdentifier {
    /// Attempt to parse a string containing a format identifier
    /// representation, `<variant>/<major>.<minor>.<patch>`.
    ///
    /// An input without exactly one `/` is rejected as having incorrect
    /// parts; an unrecognized variant or a malformed version is rejected
    /// with the offending substring.
    pub fn from_str(s: &str) -> (r: Result<FormatIdentifier, ParseFormatVersionError>)
        ensures
            match r {
                Ok(id) => identifier_of_chars(s@) == Some(id),
                Err(e) => identifier_of_chars(s@) is None && match e {
                    ParseFormatVersionError::IncorrectParts => char_count(s@, '/') != 1,
                    ParseFormatVersionError::UnknownVariant(v) => char_count(s@, '/') == 1 && v@
                        == s@.take(idx_of(s@, '/')) && FormatVariant::of_chars_spec(v@) is None,
                    ParseFormatVersionError::InvalidVersion(w) => char_count(s@, '/') == 1
                        && FormatVariant::of_chars_spec(s@.take(idx_of(s@, '/'))) is Some && w@
                        == s@.skip(idx_of(s@, '/') + 1) && version_of_chars(w@) is None,
                },
            },
    {
        let n = s.unicode_len();
        // find the single '/' separating the variant from the version
        let mut i: usize = 0;
        let mut slash: usize = 0;
        let mut slash_count: usize = 0;
        while i < n
            invariant
                n == s@.len(),
                0 <= i <= n,
                slash_count == char_count(s@.take(i as int), '/'),
                slash_count == 0 ==> (forall|j: int| 0 <= j < i ==> #[trigger] s@[j] != '/'),
                slash_count > 0 ==> slash < i && s@[slash as int] == '/' && (forall|j: int|
                    0 <= j < slash ==> #[trigger] s@[j] != '/'),
                slash_count <= i,
            decreases n - i,
        {
            let c = s.get_char(i);
            proof {
                assert(s@.take(i + 1).drop_last() =~= s@.take(i as int));
                assert(s@.take(i + 1).last() == s@[i as int]);
            }
            if c == '/' {
                if slash_count == 0 {
                    slash = i;
                }
                slash_count = slash_count + 1;
            }
            i = i + 1;
        }
        proof {
            assert(s@.take(n as int) =~= s@);
        }
        if slash_count != 1 {
            return Err(ParseFormatVersionError::IncorrectParts);
        }
        proof {
            lemma_idx_of_first(s@, '/', slash as int);
        }
        let variant = match variant_of_prefix(s, slash) {
            Some(v) => v,
            None => {
                let raw = s.substring_char(0, slash);
                return Err(ParseFormatVersionError::UnknownVariant(String::from_str(raw)));
            },
        };
        match parse_version(s, slash + 1, n) {
            Some(version) => {
                proof {
                    assert(s@.skip(slash + 1) =~= s@.subrange(slash + 1, n as int));
                }
                Ok(
                    FormatIdentifier {
                        variant,
                        major: version.0,
                        minor: version.1,
                        patch: version.2,
                    },
                )
            },
            None => {
                let raw = s.substring_char(slash + 1, n);
                proof {
                    assert(s@.skip(slash + 1) =~= s@.subrange(slash + 1, n as int));
                }
                Err(ParseFormatVersionError::InvalidVersion(String::from_str(raw)))
            },
        }
    }
}

/// Recognize the format variant written in the first `end` characters.
fn variant_of_prefix(s: &str, end: usize) -> (r: Option<FormatVariant>)
    requires
        end <= s@.len(),
    ensures
        r == FormatVariant::of_chars_spec(s@.take(end as int)),
{
    let ghost prefix = s@.take(end as int);
    if end == 5 {
        let c0 = s.get_char(0);
        let c1 = s.get_char(1);
        let c2 = s.get_char(2);
        let c3 = s.get_char(3);
        let c4 = s.get_char(4);
        if c0 == 'r' && c1 == 'f' && c2 == 'r' && c3 == '-' && c4 == 's' {
            proof {
                assert(prefix =~= FormatVariant::RfrStreaming.chars_spec());
            }
            Some(FormatVariant::RfrStreaming)
        } else if c0 == 'r' && c1 == 'f' && c2 == 'r' && c3 == '-' && c4 == 'c' {
            proof {
                assert(prefix =~= FormatVariant::RfrChunked.chars_spec());
            }
            Some(FormatVariant::RfrChunked)
        } else {
            proof {
                assert(prefix.len() == 5);
                assert(prefix[0] == c0 && prefix[1] == c1 && prefix[2] == c2 && prefix[3] == c3
                    && prefix[4] == c4);
                if prefix == FormatVariant::RfrStreaming.chars_spec() {
                    assert(prefix[0] == 'r' && prefix[1] == 'f' && prefix[2] == 'r' && prefix[3]
                        == '-' && prefix[4] == 's');
                }
                if prefix == FormatVariant::RfrChunked.chars_spec() {
                    assert(prefix[0] == 'r' && prefix[1] == 'f' && prefix[2] == 'r' && prefix[3]
                        == '-' && prefix[4] == 'c');
                }
                assert(FormatVariant::RfrChunkedMeta.chars_spec().len() == 6);
                assert(FormatVariant::RfrChunkedCallsites.chars_spec().len() == 6);
            }
            None
        }
    } else if end == 6 {
        let c0 = s.get_char(0);
        let c1 = s.get_char(1);
        let c2 = s.get_char(2);
        let c3 = s.get_char(3);
        let c4 = s.get_char(4);
        let c5 = s.get_char(5);
        if c0 == 'r' && c1 == 'f' && c2 == 'r' && c3 == '-' && c4 == 'c' && c5 == 'm' {
            proof {
                assert(prefix =~= FormatVariant::RfrChunkedMeta.chars_spec());
            }
            Some(FormatVariant::RfrChunkedMeta)
        } else if c0 == 'r' && c1 == 'f' && c2 == 'r' && c3 == '-' && c4 == 'c' && c5 == 'c' {
            proof {
                assert(prefix =~= FormatVariant::RfrChunkedCallsites.chars_spec());
            }
            Some(FormatVariant::RfrChunkedCallsites)
        } else {
            proof {
                assert(prefix.len() == 6);
                assert(prefix[0] == c0 && prefix[1] == c1 && prefix[2] == c2 && prefix[3] == c3
                    && prefix[4] == c4 && prefix[5] == c5);
                if prefix == FormatVariant::RfrChunkedMeta.chars_spec() {
                    assert(prefix[4] == 'c' && prefix[5] == 'm' && prefix[0] == 'r' && prefix[1]
                        == 'f' && prefix[2] == 'r' && prefix[3] == '-');
                }
                if prefix == FormatVariant::RfrChunkedCallsites.chars_spec() {
                    assert(prefix[4] == 'c' && prefix[5] == 'c' && prefix[0] == 'r' && prefix[1]
                        == 'f' && prefix[2] == 'r' && prefix[3] == '-');
                }
                assert(FormatVariant::RfrStreaming.chars_spec().len() == 5);
                assert(FormatVariant::RfrChunked.chars_spec().len() == 5);
            }
            None
        }
    } else {
        proof {
            assert(s@.take(end as int).len() == end);
            assert(FormatVariant::RfrStreaming.chars_spec().len() == 5);
            assert(FormatVariant::RfrChunked.chars_spec().len() == 5);
            assert(FormatVariant::RfrChunkedMeta.chars_spec().len() == 6);
            assert(FormatVariant::RfrChunkedCallsites.chars_spec().len() == 6);
        }
        None
    }
}

/// Parse the `<major>.<minor>.<patch>` version written between `from` and
/// `to`.
fn parse_version(s: &str, from: usize, to: usize) -> (r: Option<(u32, u32, u32)>)
    requires
        from <= to <= s@.len(),
    ensures
        r == version_of_chars(s@.subrange(from as int, to as int)),
{
    let ghost w = s@.subrange(from as int, to as int);
    // find the two '.' separators
    let mut i: usize = from;
    let mut d1: usize = 0;
    let mut d2: usize = 0;
    let mut dots: usize = 0;
    while i < to
        invariant
            from <= i <= to <= s@.len(),
            w == s@.subrange(from as int, to as int),
            dots == char_count(w.take(i - from), '.'),
            dots <= i - from,
            dots == 0 ==> (forall|j: int| from <= j < i ==> #[trigger] s@[j] != '.'),
            dots >= 1 ==> from <= d1 < i && s@[d1 as int] == '.' && (forall|j: int|
                from <= j < d1 ==> #[trigger] s@[j] != '.'),
            dots == 1 ==> (forall|j: int| d1 < j < i ==> #[trigger] s@[j] != '.'),
            dots >= 2 ==> d1 < d2 < i && s@[d2 as int] == '.' && (forall|j: int|
                d1 < j < d2 ==> #[trigger] s@[j] != '.'),
        decreases to - i,
    {
        let c = s.get_char(i);
        proof {
            assert(w.take(i + 1 - from).drop_last() =~= w.take(i - from));
            assert(w.take(i + 1 - from).last() == s@[i as int]);
        }
        if c == '.' {
            if dots == 0 {
                d1 = i;
            } else if dots == 1 {
                d2 = i;
            }
            dots = dots + 1;
        }
        i = i + 1;
    }
    proof {
        assert(w.take(to - from) =~= w);
    }
    if dots != 2 {
        return None;
    }
    proof {
        // the spec splits at the first dots of each remainder; the scan
        // found exactly those positions
        lemma_idx_of_first(w, '.', d1 - from);
        let rest = w.skip(d1 - from + 1);
        assert(rest =~= s@.subrange(d1 + 1, to as int));
        lemma_idx_of_first(rest, '.', d2 - d1 - 1);
        assert(w.take(d1 - from) =~= s@.subrange(from as int, d1 as int));
        assert(rest.take(d2 - d1 - 1) =~= s@.subrange(d1 + 1, d2 as int));
        assert(rest.skip(d2 - d1) =~= s@.subrange(d2 + 1, to as int));
    }
    let major = match parse_dec_part(s, from, d1) {
        Some(v) => v,
        None => {
            return None;
        },
    };
    let minor = match parse_dec_part(s, d1 + 1, d2) {
        Some(v) => v,
        None => {
            return None;
        },
    };
    let patch = match parse_dec_part(s, d2 + 1, to) {
        Some(v) => v,
        None => {
            return None;
        },
    };
    Some((major, minor, patch))
}

/// Parse a non-empty decimal number written between `from` and `to`.
fn parse_dec_part(s: &str, from: usize, to: usize) -> (r: Option<u32>)
    requires
        from <= to <= s@.len(),
    ensures
        match r {
            Some(v) => part_ok(s@.subrange(from as int, to as int)) && dec_val(
                s@.subrange(from as int, to as int)) == v,
            None => !part_ok(s@.subrange(from as int, to as int)),
        },
{
    let ghost part = s@.subrange(from as int, to as int);
    if from == to {
        proof {
            assert(part.len() == 0);
        }
        return None;
    }
    let mut i: usize = from;
    let mut acc: u64 = 0;
    let mut overflow: bool = false;
    while i < to
        invariant
            from <= i <= to <= s@.len(),
            part == s@.subrange(from as int, to as int),
            all_digits(part.take(i - from)),
            !overflow ==> acc == dec_val(part.take(i - from)) && acc <= u32::MAX,
            overflow ==> dec_val(part.take(i - from)) > u32::MAX,
        decreases to - i,
    {
        let c = s.get_char(i);
        proof {
            assert(part.take(i + 1 - from).drop_last() =~= part.take(i - from));
            assert(part.take(i + 1 - from).last() == s@[i as int]);
        }
        if c < '0' || c > '9' {
            proof {
                assert(part[i - from] == c);
                assert(!is_digit(part[i - from]));
            }
            return None;
        }
        let d: u32 = char_to_digit(c);
        if overflow {
            proof {
                assert(dec_val(part.take(i + 1 - from)) == dec_val(part.take(i - from)) * 10
                    + digit_val(c));
                assert(dec_val(part.take(i - from)) * 10 >= dec_val(part.take(i - from))) by (
                nonlinear_arith);
            }
        } else {
            acc = acc * 10 + d as u64;
            if acc > u32::MAX as u64 {
                overflow = true;
            }
        }
        i = i + 1;
    }
    proof {
        assert(part.take(to - from) =~= part);
    }
    if overflow {
        return None;
    }
    Some(acc as u32)
}

/// Whether a reader at version `reader` can read data written at version
/// `writer`.
///
/// Compatibility requires the same variant and major version. Before `1.0.0`
/// the minor version must also match, and before `0.1.0` the patch as well.
/// Beyond that, the reader's remaining version must be at least the
/// writer's.
pub open spec fn can_read_spec(reader: FormatIdentifier, writer: FormatIdentifier) -> bool {
    &&& reader.variant == writer.variant
    &&& reader.major == writer.major
    &&& (reader.major == 0 ==> reader.minor == writer.minor)
    &&& (reader.major == 0 && reader.minor == 0 ==> reader.patch == writer.patch)
    &&& (reader.minor > writer.minor || (reader.minor == writer.minor && reader.patch
        >= writer.patch))
}

impl FormatIdentifier {
    /// Returns whether or not the receiver can read data written by
    /// `version`.
    ///
    /// This applies an exact match on the variant and semantic versioning
    /// rules to determine the returned value. It does not check that file
    /// format specifications for those particular versions actually exist.
    pub fn can_read_version(&self, version: &FormatIdentifier) -> (r: bool)
        ensures
            r == can_read_spec(*self, *version),
    {
        let current = self;
        // Completely different format
        if current.variant != version.variant {
            return false;
        }
        // Different major version
        if current.major != version.major {
            return false;
        }
        // Pre 1.0.0
        if current.major == 0 {
            // Different minor in pre-1.0
            if current.minor != version.minor {
                return false;
            }
            // Pre 0.1.0
            if current.minor == 0 && current.patch != version.patch {
                return false;
            }
        }
        current.minor > version.minor || (current.minor == version.minor && current.patch
            >= version.patch)
    }
}

/// Every version can read data written by itself.
pub proof fn lemma_can_read_reflexive(id: FormatIdentifier)
    ensures
        can_read_spec(id, id),
{
}

/// No version can read data written under a different variant.
pub proof fn lemma_can_read_distinct_variants(reader: FormatIdentifier, writer: FormatIdentifier)
    requires
        reader.variant != writer.variant,
    ensures
        !can_read_spec(reader, writer),
{
}

/// A variant's own string representation is recognized as that variant, and
/// contains neither separator character.
proof fn lemma_variant_own_chars(v: FormatVariant)
    ensures
        FormatVariant::of_chars_spec(v.chars_spec()) == Some(v),
        forall|j: int|
            0 <= j < v.chars_spec().len() ==> #[trigger] v.chars_spec()[j] != '/'
                && v.chars_spec()[j] != '.',
{
    let s = v.chars_spec();
    let c1 = FormatVariant::RfrStreaming.chars_spec();
    let c2 = FormatVariant::RfrChunked.chars_spec();
    let c3 = FormatVariant::RfrChunkedMeta.chars_spec();
    let c4 = FormatVariant::RfrChunkedCallsites.chars_spec();
    assert(c1.len() == 5 && c2.len() == 5 && c3.len() == 6 && c4.len() == 6);
    assert(c1[4] == 's' && c2[4] == 'c');
    assert(c3[5] == 'm' && c4[5] == 'c');
    match v {
        FormatVariant::RfrStreaming => {
            if s == c2 {
                assert(s[4] == c2[4]);
            }
        },
        FormatVariant::RfrChunked => {
            if s == c1 {
                assert(s[4] == c1[4]);
            }
        },
        FormatVariant::RfrChunkedMeta => {
            if s == c4 {
                assert(s[5] == c4[5]);
            }
        },
        FormatVariant::RfrChunkedCallsites => {
            if s == c3 {
                assert(s[5] == c3[5]);
            }
        },
    }
}

/// A digit string contains neither separator character, so both separators
/// have an occurrence count of zero in it.
proof fn lemma_digits_no_sep(s: Seq<char>)
    requires
        all_digits(s),
    ensures
        char_count(s, '/') == 0,
        char_count(s, '.') == 0,
        forall|j: int| 0 <= j < s.len() ==> #[trigger] s[j] != '/' && s[j] != '.',
{
    assert forall|j: int| 0 <= j < s.len() implies #[trigger] s[j] != '/' && s[j] != '.' by {
        assert(is_digit(s[j]));
    }
    lemma_char_count_zero(s, '/');
    lemma_char_count_zero(s, '.');
}

/// Rendering a format identifier to its string representation and parsing
/// that representation yields the identifier again.
///
/// This is the round-trip law joining [`FormatIdentifier::to_string`] and
/// [`FormatIdentifier::from_str`]: the first returns exactly
/// `id.chars_spec()`, and the second accepts exactly the strings for which
/// [`identifier_of_chars`] is `Some`.
pub proof fn lemma_identifier_round_trip(id: FormatIdentifier)
    ensures
        identifier_of_chars(id.chars_spec()) == Some(id),
{
    let v = id.variant.chars_spec();
    let ma = dec_chars(id.major as nat);
    let mi = dec_chars(id.minor as nat);
    let pa = dec_chars(id.patch as nat);
    let s = id.chars_spec();
    let slash = seq!['/'];
    let dot = seq!['.'];
    lemma_variant_own_chars(id.variant);
    lemma_dec_chars_val(id.major as nat);
    lemma_dec_chars_val(id.minor as nat);
    lemma_dec_chars_val(id.patch as nat);
    lemma_digits_no_sep(ma);
    lemma_digits_no_sep(mi);
    lemma_digits_no_sep(pa);
    lemma_char_count_zero(v, '/');
    assert(char_count(Seq::<char>::empty(), '/') == 0);
    assert(char_count(Seq::<char>::empty(), '.') == 0);
    assert(char_count(slash, '/') == 1) by {
        assert(slash.drop_last() =~= Seq::<char>::empty());
        assert(char_count(Seq::<char>::empty(), '/') == 0);
    }
    assert(char_count(dot, '/') == 0) by {
        assert(dot.drop_last() =~= Seq::<char>::empty());
        assert(char_count(Seq::<char>::empty(), '/') == 0);
    }
    assert(char_count(slash, '.') == 0) by {
        assert(slash.drop_last() =~= Seq::<char>::empty());
        assert(char_count(Seq::<char>::empty(), '.') == 0);
    }
    assert(char_count(dot, '.') == 1) by {
        assert(dot.drop_last() =~= Seq::<char>::empty());
        assert(char_count(Seq::<char>::empty(), '.') == 0);
    }
    // exactly one slash, right after the variant
    lemma_char_count_concat(v, slash, '/');
    lemma_char_count_concat(v + slash, ma, '/');
    lemma_char_count_concat(v + slash + ma, dot, '/');
    lemma_char_count_concat(v + slash + ma + dot, mi, '/');
    lemma_char_count_concat(v + slash + ma + dot + mi, dot, '/');
    lemma_char_count_concat(v + slash + ma + dot + mi + dot, pa, '/');
    assert(char_count(s, '/') == 1);
    let vl = v.len() as int;
    assert(s[vl] == '/');
    assert(forall|j: int| 0 <= j < vl ==> s[j] == v[j]);
    lemma_idx_of_first(s, '/', vl);
    assert(s.take(vl) =~= v);
    let w = s.skip(vl + 1);
    assert(w =~= ma + dot + mi + dot + pa);
    // exactly two dots in the version, delimiting the three parts
    lemma_char_count_concat(ma, dot, '.');
    lemma_char_count_concat(ma + dot, mi, '.');
    lemma_char_count_concat(ma + dot + mi, dot, '.');
    lemma_char_count_concat(ma + dot + mi + dot, pa, '.');
    assert(char_count(w, '.') == 2);
    let al = ma.len() as int;
    assert(w[al] == '.');
    assert(forall|j: int| 0 <= j < al ==> w[j] == ma[j]);
    lemma_idx_of_first(w, '.', al);
    assert(w.take(al) =~= ma);
    let rest = w.skip(al + 1);
    assert(rest =~= mi + dot + pa);
    let bl = mi.len() as int;
    assert(rest[bl] == '.');
    assert(forall|j: int| 0 <= j < bl ==> rest[j] == mi[j]);
    lemma_idx_of_first(rest, '.', bl);
    assert(rest.take(bl) =~= mi);
    assert(rest.skip(bl + 1) =~= pa);
    assert(part_ok(ma) && dec_val(ma) == id.major);
    assert(part_ok(mi) && dec_val(mi) == id.minor);
    assert(part_ok(pa) && dec_val(pa) == id.patch);
    assert(version_of_chars(w) == Some((id.major, id.minor, id.patch)));
}

/// The numeric value of a digit character.
fn char_to_digit(c: char) -> (d: u32)
    requires
        is_digit(c),
    ensures
        d == digit_val(c),
        d < 10,
{
    proof {
        vstd::utf8::char_u32_cast(c, c as u32);
    }
    (c as u32) - 48
}

/// Powers of ten.
pub open spec fn pow10(k: nat) -> nat
    decreases k,
{
    if k == 0 {
        1
    } else {
        10 * pow10((k - 1) as nat)
    }
}

/// A number below `pow10(k)` renders in at most `k` digits.
pub proof fn lemma_dec_chars_len(n: nat, k: nat)
    requires
        k >= 1,
        n < pow10(k),
    ensures
        1 <= dec_chars(n).len() <= k,
    decreases n,
{
    if n < 10 {
    } else {
        assert(k >= 2) by {
            assert(pow10(0) == 1);
            assert(pow10(1) == 10);
        }
        assert(n / 10 < pow10((k - 1) as nat)) by {
            assert(pow10(k) == 10 * pow10((k - 1) as nat));
            vstd::arithmetic::div_mod::lemma_multiply_divide_lt(n as int, 10,
                pow10((k - 1) as nat) as int);
        }
        lemma_dec_chars_len(n / 10, (k - 1) as nat);
    }
}

/// An identifier's string representation is a short ASCII string.
pub proof fn lemma_identifier_chars_ascii(id: FormatIdentifier)
    ensures
        vstd::utf8::is_ascii_chars(id.chars_spec()),
        id.chars_spec().len() <= 39,
        vstd::utf8::encode_utf8(id.chars_spec()).len() == id.chars_spec().len(),
{
    let s = id.chars_spec();
    let v = id.variant.chars_spec();
    let ma = dec_chars(id.major as nat);
    let mi = dec_chars(id.minor as nat);
    let pa = dec_chars(id.patch as nat);
    assert(pow10(0) == 1);
    assert(pow10(1) == 10);
    assert(pow10(2) == 100);
    assert(pow10(3) == 1000);
    assert(pow10(4) == 10000);
    assert(pow10(5) == 100000);
    assert(pow10(6) == 1000000);
    assert(pow10(7) == 10000000);
    assert(pow10(8) == 100000000);
    assert(pow10(9) == 1000000000);
    assert(pow10(10) == 10000000000);
    lemma_dec_chars_len(id.major as nat, 10);
    lemma_dec_chars_len(id.minor as nat, 10);
    lemma_dec_chars_len(id.patch as nat, 10);
    lemma_dec_chars_val(id.major as nat);
    lemma_dec_chars_val(id.minor as nat);
    lemma_dec_chars_val(id.patch as nat);
    assert(v.len() <= 6);
    assert forall|i: int| 0 <= i < s.len() implies '\0' <= #[trigger] s[i] <= '\u{7f}' by {
        let vl = v.len() as int;
        let al = ma.len() as int;
        let bl = mi.len() as int;
        if i < vl {
            assert(s[i] == v[i]);
            assert('\0' <= v[i] <= '\u{7f}');
        } else if i == vl {
            assert(s[i] == '/');
        } else if i < vl + 1 + al {
            assert(s[i] == ma[i - vl - 1]);
            assert(is_digit(ma[i - vl - 1]));
        } else if i == vl + 1 + al {
            assert(s[i] == '.');
        } else if i < vl + 1 + al + 1 + bl {
            assert(s[i] == mi[i - vl - al - 2]);
            assert(is_digit(mi[i - vl - al - 2]));
        } else if i == vl + 1 + al + 1 + bl {
            assert(s[i] == '.');
        } else {
            assert(s[i] == pa[i - vl - al - bl - 3]);
            assert(is_digit(pa[i - vl - al - bl - 3]));
        }
    }
    vstd::utf8::is_ascii_chars_encode_utf8(s);
}

/// The encoding of a format identifier: its string representation as a
/// length-prefixed string.
pub open spec fn enc_format_identifier(id: FormatIdentifier) -> Seq<u8> {
    enc_string(id.chars_spec())
}

/// Decode a format identifier: a length-prefixed string holding a
/// well-formed representation.
pub open spec fn dec_format_identifier(s: Seq<u8>) -> SpecDec<FormatIdentifier> {
    match dec_string(s) {
        SpecDec::Val(cs, n) => match identifier_of_chars(cs) {
            Some(id) => SpecDec::Val(id, n),
            None => SpecDec::Bad,
        },
        SpecDec::More => SpecDec::More,
        SpecDec::Bad => SpecDec::Bad,
    }
}

/// Append the encoding of a format identifier to the output.
pub fn encode_format_identifier(out: &mut Vec<u8>, id: &FormatIdentifier)
    ensures
        final(out)@ == old(out)@ + enc_format_identifier(*id),
{
    let s = id.to_string();
    encode_str(out, s.as_str());
}

/// Error attempting to read a [`FormatIdentifier`] from the front of a
/// file.
#[derive(Debug)]
pub enum ReadFormatIdentifierError {
    /// The bytes do not hold a complete length-prefixed string.
    ReadFailed(DecodeFailure),
    /// The string is not a well-formed identifier representation.
    FormatIdentifierInvalid(ParseFormatVersionError),
}

impl FormatIdentifier {
    /// Decode a format identifier from `bytes` at `pos`, returning it with
    /// the position just after it.
    pub fn decode_from(bytes: &Vec<u8>, pos: usize) -> (r: Result<
        (FormatIdentifier, usize),
        ReadFormatIdentifierError,
    >)
        requires
            pos <= bytes@.len(),
        ensures
            match r {
                Ok((id, next)) => dec_format_identifier(bytes@.skip(pos as int)) == SpecDec::Val(
                    id,
                    next - pos,
                ) && pos <= next <= bytes@.len(),
                Err(_) => !(dec_format_identifier(bytes@.skip(pos as int)) is Val),
            },
    {
        match decode_string(bytes, pos) {
            Ok((raw, next)) => match FormatIdentifier::from_str(raw.as_str()) {
                Ok(id) => Ok((id, next)),
                Err(e) => Err(ReadFormatIdentifierError::FormatIdentifierInvalid(e)),
            },
            Err(e) => Err(ReadFormatIdentifierError::ReadFailed(e)),
        }
    }

    /// Attempt to read a format identifier from the front of a file's
    /// bytes.
    pub fn try_from_io(bytes: &Vec<u8>) -> (r: Result<FormatIdentifier, ReadFormatIdentifierError>)
        ensures
            match r {
                Ok(id) => dec_format_identifier(bytes@) matches SpecDec::Val(v, n) && v == id,
                Err(_) => !(dec_format_identifier(bytes@) is Val),
            },
    {
        proof {
            assert(bytes@.skip(0) =~= bytes@);
        }
        match FormatIdentifier::decode_from(bytes, 0) {
            Ok((id, _)) => Ok(id),
            Err(e) => Err(e),
        }
    }
}

/// The round-trip law for format identifiers on the wire: decoding an
/// encoded identifier, followed by anything, yields the identifier.
pub proof fn lemma_format_identifier_wire_round_trip(id: FormatIdentifier, rest: Seq<u8>)
    ensures
        dec_format_identifier(enc_format_identifier(id) + rest) == SpecDec::Val(
            id,
            enc_format_identifier(id).len() as int,
        ),
{
    lemma_identifier_chars_ascii(id);
    crate::wire::lemma_string_round_trip(id.chars_spec(), rest);
    lemma_identifier_round_trip(id);
}

} // verus!
