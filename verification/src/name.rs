//! Derivation of the extraction name: the filesystem-safe directory
//! name a container is unpacked into, normalized from its title (or
//! file name) with the remote identifier appended.

use vstd::prelude::*;

verus! {

/// What `str::to_lowercase` returns: a function of the characters alone.
pub uninterp spec fn unicode_lower(s: Seq<char>) -> Seq<char>;

/// What `char::is_alphanumeric` returns: a function of the character alone.
pub uninterp spec fn unicode_alphanumeric(c: char) -> bool;

/// Relies on `str::to_lowercase`: the result depends on the characters
/// alone, and an empty string stays empty.
#[verifier::external_body]
pub fn lowercase(s: &str) -> (r: String)
    ensures
        r@ == unicode_lower(s@),
        s@.len() == 0 ==> r@.len() == 0,
{
    s.to_lowercase()
}

/// What `char::is_alphanumeric` returns for `c`, together with the one
/// classification the normalization's shape rests on: the underscore is
/// connector punctuation, neither alphabetic nor numeric, so it is not
/// alphanumeric.
pub open spec fn spec_alphanumeric_result(c: char, r: bool) -> bool {
    &&& r == unicode_alphanumeric(c)
    &&& !unicode_alphanumeric('_')
}

/// Relies on `char::is_alphanumeric`: the result depends on the
/// character alone, and the underscore is not alphanumeric.
#[verifier::external_body]
pub fn char_is_alphanumeric(c: char) -> (r: bool)
    ensures
        r == unicode_alphanumeric(c),
        spec_alphanumeric_result(c, r),
{
    c.is_alphanumeric()
}

/// Relies on `String`'s `FromIterator`: collecting characters yields the
/// string of exactly those characters.
#[verifier::external_body]
pub fn chars_to_string(v: &Vec<char>) -> (r: String)
    ensures
        r@ == v@,
{
    v.iter().collect()
}

/// One left-to-right pass of the normalization automaton over `s`,
/// starting at `i` with the output built so far and whether the last
/// pushed character was a separator: alphanumeric characters are kept,
/// and each maximal run of other characters becomes one underscore,
/// except at the very start.
pub open spec fn spec_norm_rec(s: Seq<char>, i: int, acc: Seq<char>, underscored: bool) -> (
    Seq<char>,
    bool,
)
    decreases s.len() - i when 0 <= i <= s.len()
{
    if i >= s.len() {
        (acc, underscored)
    } else if unicode_alphanumeric(s[i]) {
        spec_norm_rec(s, i + 1, acc.push(s[i]), false)
    } else if !underscored && i != 0 {
        spec_norm_rec(s, i + 1, acc.push('_'), true)
    } else {
        spec_norm_rec(s, i + 1, acc, underscored)
    }
}

/// The normalized form of `s`, with the flag telling whether it ends in
/// a just-produced separator.
pub open spec fn spec_normalized(s: Seq<char>) -> (Seq<char>, bool) {
    spec_norm_rec(s, 0, Seq::empty(), false)
}

/// The decimal digits of `n`.
pub open spec fn spec_dec_digits(n: nat) -> Seq<char>
    decreases n,
{
    if n < 10 {
        seq![spec_digit_char(n % 10)]
    } else {
        spec_dec_digits(n / 10).push(spec_digit_char(n % 10))
    }
}

/// The character for one decimal digit.
pub open spec fn spec_digit_char(d: nat) -> char {
    if d == 0 { '0' } else if d == 1 { '1' } else if d == 2 { '2' } else if d == 3 { '3' }
    else if d == 4 { '4' } else if d == 5 { '5' } else if d == 6 { '6' } else if d == 7 { '7' }
    else if d == 8 { '8' } else { '9' }
}

/// The character for one decimal digit.
pub fn digit_char(d: u64) -> (r: char)
    requires
        d < 10,
    ensures
        r == spec_digit_char(d as nat),
{
    if d == 0 { '0' } else if d == 1 { '1' } else if d == 2 { '2' } else if d == 3 { '3' }
    else if d == 4 { '4' } else if d == 5 { '5' } else if d == 6 { '6' } else if d == 7 { '7' }
    else if d == 8 { '8' } else { '9' }
}

/// The extraction name derived from a name source and an optional
/// remote identifier: the normalized source, then the identifier's
/// digits joined by exactly one separator; with no identifier, a
/// trailing separator is dropped.
pub open spec fn spec_extracted_name(source: Seq<char>, id: Option<u64>) -> Seq<char> {
    let (base, underscored) = spec_normalized(source);
    match id {
        Some(n) => if underscored {
            base + spec_dec_digits(n as nat)
        } else {
            base.push('_') + spec_dec_digits(n as nat)
        },
        None => if underscored {
            base.subrange(0, base.len() - 1)
        } else {
            base
        },
    }
}


/// No doubled separator anywhere in a name.
pub open spec fn spec_no_doubled_separator(name: Seq<char>) -> bool {
    forall|k: int| 0 <= k < name.len() - 1 ==> !((#[trigger] name[k]) == '_' && name[k + 1] == '_')
}

/// The normalization automaton keeps its output clean: no doubled
/// separator, and the separator-at-end flag tells exactly whether the
/// output ends in one.
proof fn lemma_norm_rec_shape(s: Seq<char>, i: int, acc: Seq<char>, underscored: bool)
    requires
        !unicode_alphanumeric('_'),
        0 <= i <= s.len(),
        spec_no_doubled_separator(acc),
        underscored ==> acc.len() > 0 && acc.last() == '_',
        !underscored ==> acc.len() == 0 || acc.last() != '_',
    ensures
        ({
            let r = spec_norm_rec(s, i, acc, underscored);
            &&& spec_no_doubled_separator(r.0)
            &&& r.1 ==> r.0.len() > 0 && r.0.last() == '_'
            &&& !r.1 ==> r.0.len() == 0 || r.0.last() != '_'
        }),
    decreases s.len() - i,
{
    if i < s.len() {
        if unicode_alphanumeric(s[i]) {
            let acc2 = acc.push(s[i]);
            assert(s[i] != '_');
            assert forall|k: int| 0 <= k < acc2.len() - 1 implies !((#[trigger] acc2[k]) == '_'
                && acc2[k + 1] == '_') by {
                if k < acc.len() - 1 {
                    assert(acc2[k] == acc[k] && acc2[k + 1] == acc[k + 1]);
                } else {
                    assert(acc2[k + 1] == s[i]);
                }
            }
            lemma_norm_rec_shape(s, i + 1, acc2, false);
        } else if !underscored && i != 0 {
            let acc2 = acc.push('_');
            assert forall|k: int| 0 <= k < acc2.len() - 1 implies !((#[trigger] acc2[k]) == '_'
                && acc2[k + 1] == '_') by {
                if k < acc.len() - 1 {
                    assert(acc2[k] == acc[k] && acc2[k + 1] == acc[k + 1]);
                } else {
                    assert(acc2[k] == acc.last());
                }
            }
            lemma_norm_rec_shape(s, i + 1, acc2, true);
        } else {
            lemma_norm_rec_shape(s, i + 1, acc, underscored);
        }
    }
}

/// The decimal digits of a number: at least one character, none of them
/// a separator.
proof fn lemma_dec_digits_shape(n: nat)
    ensures
        spec_dec_digits(n).len() > 0,
        forall|k: int| 0 <= k < spec_dec_digits(n).len() ==> (#[trigger] spec_dec_digits(n)[k])
            != '_',
    decreases n,
{
    if n >= 10 {
        lemma_dec_digits_shape(n / 10);
        assert forall|k: int| 0 <= k < spec_dec_digits(n).len() implies (
        #[trigger] spec_dec_digits(n)[k]) != '_' by {
            if k < spec_dec_digits(n).len() - 1 {
                assert(spec_dec_digits(n)[k] == spec_dec_digits(n / 10)[k]);
            }
        }
    }
}

/// Extraction names are clean: a run of non-alphanumerics never yields
/// two separators in a row, a name derived without an identifier never
/// ends in a separator, and one derived with an identifier ends in the
/// identifier's last digit.  The one premise is exactly what the
/// alphanumeric predicate's trusted contract states: the underscore is
/// not alphanumeric.
pub proof fn lemma_extracted_name_shape(source: Seq<char>, id: Option<u64>)
    requires
        !unicode_alphanumeric('_'),
    ensures
        ({
            let name = spec_extracted_name(source, id);
            &&& spec_no_doubled_separator(name)
            &&& id is None ==> name.len() == 0 || name.last() != '_'
            &&& id is Some ==> name.len() > 0 && name.last() != '_'
        }),
{
    lemma_norm_rec_shape(source, 0, Seq::empty(), false);
    let base = spec_normalized(source).0;
    let underscored = spec_normalized(source).1;
    let name = spec_extracted_name(source, id);
    match id {
        Some(n) => {
            lemma_dec_digits_shape(n as nat);
            let digits = spec_dec_digits(n as nat);
            let joined = if underscored {
                base
            } else {
                base.push('_')
            };
            assert(name == joined + digits);
            assert(joined.len() > 0 ==> joined.last() == '_' || joined.last() != '_');
            assert forall|k: int| 0 <= k < name.len() - 1 implies !((#[trigger] name[k]) == '_'
                && name[k + 1] == '_') by {
                if k + 1 < joined.len() {
                    assert(name[k] == joined[k] && name[k + 1] == joined[k + 1]);
                    if underscored {
                    } else {
                        if k < base.len() - 1 {
                            assert(joined[k] == base[k] && joined[k + 1] == base[k + 1]);
                        } else {
                            assert(joined[k] == base.last());
                        }
                    }
                } else {
                    assert(name[k + 1] == digits[k + 1 - joined.len()]);
                }
            }
            assert(name.last() == digits.last());
        },
        None => {
            if underscored {
                assert(name =~= base.subrange(0, base.len() - 1));
                assert forall|k: int| 0 <= k < name.len() - 1 implies !((#[trigger] name[k])
                    == '_' && name[k + 1] == '_') by {
                    assert(name[k] == base[k] && name[k + 1] == base[k + 1]);
                }
                if name.len() > 0 {
                    // The dropped separator was not preceded by another.
                    assert(base[base.len() - 2] != '_' || base[base.len() - 1] != '_');
                    assert(name.last() == base[base.len() - 2]);
                }
            }
        },
    }
}

/// Normalizes a (pre-lowercased) name source: alphanumeric characters
/// are kept; each inner run of other characters collapses to one
/// underscore.  Also returns whether the result ends in a separator
/// produced from such a run.
pub fn normalize_source(s: &str) -> (r: (Vec<char>, bool))
    ensures
        (r.0@, r.1) == spec_normalized(s@),
        r.1 ==> r.0@.len() > 0 && r.0@.last() == '_',
{
    let n = s.unicode_len();
    let mut acc: Vec<char> = Vec::new();
    let mut underscored = false;
    let mut i: usize = 0;
    while i < n
        invariant
            0 <= i <= n,
            n == s@.len(),
            spec_normalized(s@) == spec_norm_rec(s@, i as int, acc@, underscored),
            underscored ==> acc@.len() > 0 && acc@.last() == '_',
        decreases n - i,
    {
        let c = s.get_char(i);
        if char_is_alphanumeric(c) {
            acc.push(c);
            underscored = false;
        } else if !underscored && i != 0 {
            acc.push('_');
            underscored = true;
        }
        i = i + 1;
    }
    (acc, underscored)
}

/// The decimal digits of `n`, most significant first.
pub fn dec_digits(n: u64) -> (r: Vec<char>)
    ensures
        r@ == spec_dec_digits(n as nat),
{
    let mut rev: Vec<char> = Vec::new();
    let mut m: u64 = n;
    loop
        invariant_except_break
            spec_dec_digits(n as nat) == spec_dec_digits(m as nat) + rev@.reverse(),
        ensures
            spec_dec_digits(n as nat) == rev@.reverse(),
        decreases m,
    {
        let d = m % 10;
        let ghost m0 = m as nat;
        let ghost rev0 = rev@;
        let c = digit_char(d);
        rev.push(c);
        m = m / 10;
        if m == 0 {
            proof {
                assert(spec_dec_digits(m0) =~= seq![spec_digit_char(m0 % 10)]);
                assert(rev@.reverse() =~= seq![spec_digit_char(m0 % 10)] + rev0.reverse());
                assert(spec_dec_digits(n as nat) =~= rev@.reverse());
            }
            break;
        }
        proof {
            assert(spec_dec_digits(m0) =~= spec_dec_digits(m0 / 10).push(spec_digit_char(m0 % 10)));
            assert(rev@.reverse() =~= seq![spec_digit_char(m0 % 10)] + rev0.reverse());
            assert(spec_dec_digits(m0) + rev0.reverse() =~= spec_dec_digits(m0 / 10)
                + rev@.reverse());
        }
    }
    let mut out: Vec<char> = Vec::new();
    let mut i: usize = rev.len();
    while i > 0
        invariant
            i <= rev@.len(),
            out@ =~= rev@.subrange(i as int, rev@.len() as int).reverse(),
        decreases i,
    {
        i = i - 1;
        out.push(rev[i]);
        proof {
            assert(rev@.subrange(i as int, rev@.len() as int).reverse() =~= rev@.subrange(
                i + 1,
                rev@.len() as int,
            ).reverse().push(rev@[i as int]));
        }
    }
    proof {
        assert(rev@.subrange(0, rev@.len() as int) =~= rev@);
        assert(out@ =~= spec_dec_digits(n as nat));
    }
    out
}

/// Derives the extraction name from a lowercased name source and an
/// optional remote identifier.
pub fn derive_extracted_name(source: &str, id: Option<u64>) -> (r: String)
    ensures
        r@ == spec_extracted_name(source@, id),
{
    let (mut acc, underscored) = normalize_source(source);
    match id {
        Some(n) => {
            if !underscored {
                acc.push('_');
            }
            let mut digits = dec_digits(n);
            let ghost acc0 = acc@;
            acc.append(&mut digits);
            proof {
                assert(acc@ == acc0 + spec_dec_digits(n as nat));
            }
        },
        None => {
            if underscored {
                let ghost acc0 = acc@;
                acc.pop();
                proof {
                    assert(acc@ =~= acc0.subrange(0, acc0.len() - 1));
                }
            }
        },
    }
    chars_to_string(&acc)
}

} // verus!
