//! Character-level text utilities shared by the adapters: trimming,
//! whitespace tokenization, line splitting, and `/`-qualified name handling.

use vstd::prelude::*;
use vstd::string::*;

verus! {

/// The whitespace characters this library recognizes when trimming and
/// splitting tokens (the ASCII whitespace set).
pub open spec fn is_space(c: char) -> bool {
    c == ' ' || c == '\t' || c == '\n' || c == '\r' || c == '\x0b' || c == '\x0c'
}

pub fn is_space_exec(c: char) -> (r: bool)
    ensures
        r == is_space(c),
{
    c == ' ' || c == '\t' || c == '\n' || c == '\r' || c == '\x0b' || c == '\x0c'
}

/// The characters of a string slice, in order.
pub fn chars_of(s: &str) -> (r: Vec<char>)
    ensures
        r@ == s@,
{
    let n: usize = s.unicode_len();
    let mut v: Vec<char> = Vec::new();
    let mut i: usize = 0;
    while i < n
        invariant
            n == s@.len(),
            i <= n,
            v@ == s@.take(i as int),
        decreases n - i,
    {
        let c = s.get_char(i);
        v.push(c);
        proof {
            assert(v@ =~= s@.take(i + 1 as int));
        }
        i += 1;
    }
    proof {
        assert(v@ =~= s@);
    }
    v
}

/// Relies on `String: FromIterator<char>`: collecting characters yields a
/// string holding exactly those characters in order.
#[verifier::external_body]
pub fn string_from_chars(v: &[char]) -> (r: String)
    ensures
        r@ == v@,
{
    v.iter().collect()
}

pub fn eq_chars(a: &[char], b: &[char]) -> (r: bool)
    ensures
        r == (a@ == b@),
{
    if a.len() != b.len() {
        return false;
    }
    let n = a.len();
    let mut i: usize = 0;
    while i < n
        invariant
            n == a@.len() == b@.len(),
            i <= n,
            forall|k: int| 0 <= k < i ==> a@[k] == b@[k],
        decreases n - i,
    {
        if a[i] != b[i] {
            return false;
        }
        i += 1;
    }
    proof {
        assert(a@ =~= b@);
    }
    true
}

pub fn copy_range(a: &[char], from: usize, to: usize) -> (r: Vec<char>)
    requires
        from <= to <= a@.len(),
    ensures
        r@ == a@.subrange(from as int, to as int),
{
    let mut v: Vec<char> = Vec::new();
    let mut i: usize = from;
    while i < to
        invariant
            from <= i <= to <= a@.len(),
            v@ == a@.subrange(from as int, i as int),
        decreases to - i,
    {
        v.push(a[i]);
        proof {
            assert(v@ =~= a@.subrange(from as int, i + 1 as int));
        }
        i += 1;
    }
    v
}

pub fn copy_chars(a: &[char]) -> (r: Vec<char>)
    ensures
        r@ == a@,
{
    let r = copy_range(a, 0, a.len());
    proof {
        assert(a@.subrange(0, a@.len() as int) =~= a@);
    }
    r
}

pub open spec fn trim_start_rec(s: Seq<char>) -> Seq<char>
    decreases s.len(),
{
    if s.len() > 0 && is_space(s[0]) {
        trim_start_rec(s.drop_first())
    } else {
        s
    }
}

pub open spec fn trim_end_rec(s: Seq<char>) -> Seq<char>
    decreases s.len(),
{
    if s.len() > 0 && is_space(s.last()) {
        trim_end_rec(s.drop_last())
    } else {
        s
    }
}

/// A sequence with its leading and trailing whitespace removed.
pub open spec fn spec_trim(s: Seq<char>) -> Seq<char> {
    trim_end_rec(trim_start_rec(s))
}

pub fn trim_chars(v: &[char]) -> (r: Vec<char>)
    ensures
        r@ == spec_trim(v@),
{
    let n = v.len();
    let mut a: usize = 0;
    proof {
        assert(v@.skip(0) =~= v@);
    }
    while a < n && is_space_exec(v[a])
        invariant
            a <= n,
            n == v@.len(),
            trim_start_rec(v@) == trim_start_rec(v@.skip(a as int)),
        decreases n - a,
    {
        proof {
            assert(v@.skip(a as int).drop_first() =~= v@.skip(a + 1 as int));
        }
        a += 1;
    }
    proof {
        if a == n {
            assert(v@.skip(a as int) =~= Seq::<char>::empty());
        }
        assert(trim_start_rec(v@) == v@.skip(a as int));
        assert(v@.skip(a as int) =~= v@.subrange(a as int, n as int));
    }
    let mut b: usize = n;
    while b > a && is_space_exec(v[b - 1])
        invariant
            a <= b <= n,
            n == v@.len(),
            trim_end_rec(v@.subrange(a as int, n as int)) == trim_end_rec(
                v@.subrange(a as int, b as int),
            ),
        decreases b,
    {
        proof {
            assert(v@.subrange(a as int, b as int).drop_last() =~= v@.subrange(
                a as int,
                b - 1 as int,
            ));
        }
        b -= 1;
    }
    proof {
        assert(trim_end_rec(v@.subrange(a as int, b as int)) == v@.subrange(a as int, b as int));
    }
    copy_range(v, a, b)
}

/// The number of characters before the first newline (the whole length if
/// there is none).
pub open spec fn line_break(s: Seq<char>) -> nat
    decreases s.len(),
{
    if s.len() == 0 {
        0
    } else if s[0] == '\n' {
        0
    } else {
        1 + line_break(s.drop_first())
    }
}

pub proof fn lemma_line_break_props(s: Seq<char>)
    ensures
        line_break(s) <= s.len(),
        line_break(s) < s.len() ==> s[line_break(s) as int] == '\n',
        forall|i: int| 0 <= i < line_break(s) ==> s[i] != '\n',
    decreases s.len(),
{
    if s.len() > 0 && s[0] != '\n' {
        lemma_line_break_props(s.drop_first());
        assert forall|i: int| 0 <= i < line_break(s) implies s[i] != '\n' by {
            if i > 0 {
                assert(s.drop_first()[i - 1] == s[i]);
            }
        }
    }
}

pub open spec fn strip_cr(l: Seq<char>) -> Seq<char> {
    if l.len() > 0 && l.last() == '\r' {
        l.drop_last()
    } else {
        l
    }
}

/// The lines of a text, split at newlines; a trailing `\r` on each line is
/// dropped, and a final newline does not open an empty last line.
pub open spec fn spec_lines(s: Seq<char>) -> Seq<Seq<char>>
    decreases s.len(),
    via spec_lines_decreases
{
    if s.len() == 0 {
        Seq::empty()
    } else {
        let k = line_break(s);
        if k == s.len() {
            seq![strip_cr(s)]
        } else {
            seq![strip_cr(s.take(k as int))] + spec_lines(s.skip(k as int + 1))
        }
    }
}

#[via_fn]
proof fn spec_lines_decreases(s: Seq<char>) {
    lemma_line_break_props(s);
}

/// Splits a string into its lines, as `str::lines` does.
pub fn split_str_lines(s: &str) -> (r: Vec<&str>)
    ensures
        r@.map_values(|l: &str| l@) == spec_lines(s@),
{
    let n: usize = s.unicode_len();
    let mut out: Vec<&str> = Vec::new();
    let mut i: usize = 0;
    proof {
        assert(s@.skip(0) =~= s@);
        assert(out@.map_values(|l: &str| l@) =~= Seq::<Seq<char>>::empty());
        assert(Seq::<Seq<char>>::empty() + spec_lines(s@) =~= spec_lines(s@));
    }
    while i < n
        invariant
            i <= n,
            n == s@.len(),
            out@.map_values(|l: &str| l@) + spec_lines(s@.skip(i as int)) =~= spec_lines(s@),
        decreases n - i,
    {
        let ghost suffix = s@.skip(i as int);
        let mut j: usize = i;
        while j < n && s.get_char(j) != '\n'
            invariant
                i <= j <= n,
                n == s@.len(),
                forall|k: int| i <= k < j ==> s@[k] != '\n',
            decreases n - j,
        {
            j += 1;
        }
        proof {
            lemma_line_break_props(suffix);
            assert forall|k: int| 0 <= k < j - i implies suffix[k] != '\n' by {
                assert(suffix[k] == s@[i + k]);
            }
            if j < n {
                assert(suffix[j - i] == s@[j as int]);
            }
            assert(line_break(suffix) == j - i);
        }
        let end: usize = if j > i && s.get_char(j - 1) == '\r' {
            j - 1
        } else {
            j
        };
        let piece = s.substring_char(i, end);
        out.push(piece);
        proof {
            if j == n {
                assert(strip_cr(suffix) =~= s@.subrange(i as int, end as int));
                assert(out@.map_values(|l: &str| l@) =~= out@.map_values(|l: &str| l@).drop_last()
                    + seq![piece@]);
                assert(spec_lines(s@.skip(n as int)) =~= Seq::<Seq<char>>::empty());
                assert(s@.skip(n as int) =~= Seq::<char>::empty());
            } else {
                assert(strip_cr(suffix.take(j - i)) =~= s@.subrange(i as int, end as int));
                assert(suffix.skip(j - i + 1) =~= s@.skip(j + 1 as int));
                assert(out@.map_values(|l: &str| l@) =~= out@.map_values(|l: &str| l@).drop_last()
                    + seq![piece@]);
            }
        }
        i = if j < n {
            j + 1
        } else {
            n
        };
    }
    proof {
        assert(s@.skip(n as int) =~= Seq::<char>::empty());
        assert(out@.map_values(|l: &str| l@) =~= spec_lines(s@));
    }
    out
}

/// The length of the maximal run of non-whitespace characters at the front.
pub open spec fn token_end(s: Seq<char>) -> nat
    decreases s.len(),
{
    if s.len() == 0 || is_space(s[0]) {
        0
    } else {
        1 + token_end(s.drop_first())
    }
}

pub proof fn lemma_token_end_props(s: Seq<char>)
    ensures
        token_end(s) <= s.len(),
        token_end(s) < s.len() ==> is_space(s[token_end(s) as int]),
        forall|i: int| 0 <= i < token_end(s) ==> !is_space(s[i]),
    decreases s.len(),
{
    if s.len() > 0 && !is_space(s[0]) {
        lemma_token_end_props(s.drop_first());
        assert forall|i: int| 0 <= i < token_end(s) implies !is_space(s[i]) by {
            if i > 0 {
                assert(s.drop_first()[i - 1] == s[i]);
            }
        }
    }
}

/// The whitespace-separated tokens of a sequence, in order.
pub open spec fn spec_tokens(s: Seq<char>) -> Seq<Seq<char>>
    decreases s.len(),
    via spec_tokens_decreases
{
    if s.len() == 0 {
        Seq::empty()
    } else if is_space(s[0]) {
        spec_tokens(s.drop_first())
    } else {
        let k = token_end(s);
        seq![s.take(k as int)] + spec_tokens(s.skip(k as int))
    }
}

#[via_fn]
proof fn spec_tokens_decreases(s: Seq<char>) {
    lemma_token_end_props(s);
}

pub fn tokenize(v: &[char]) -> (r: Vec<Vec<char>>)
    ensures
        r@.map_values(|t: Vec<char>| t@) == spec_tokens(v@),
{
    let n = v.len();
    let mut out: Vec<Vec<char>> = Vec::new();
    let mut i: usize = 0;
    proof {
        assert(v@.skip(0) =~= v@);
        assert(out@.map_values(|t: Vec<char>| t@) =~= Seq::<Seq<char>>::empty());
        assert(Seq::<Seq<char>>::empty() + spec_tokens(v@) =~= spec_tokens(v@));
    }
    while i < n
        invariant
            i <= n,
            n == v@.len(),
            out@.map_values(|t: Vec<char>| t@) + spec_tokens(v@.skip(i as int)) =~= spec_tokens(
                v@,
            ),
        decreases n - i,
    {
        if is_space_exec(v[i]) {
            proof {
                assert(v@.skip(i as int).drop_first() =~= v@.skip(i + 1 as int));
            }
            i += 1;
        } else {
            let ghost suffix = v@.skip(i as int);
            let mut j: usize = i + 1;
            while j < n && !is_space_exec(v[j])
                invariant
                    i < j <= n,
                    n == v@.len(),
                    forall|k: int| i <= k < j ==> !is_space(v@[k]),
                decreases n - j,
            {
                j += 1;
            }
            proof {
                lemma_token_end_props(suffix);
                assert forall|k: int| 0 <= k < j - i implies !is_space(suffix[k]) by {
                    assert(suffix[k] == v@[i + k]);
                }
                if j < n {
                    assert(suffix[j - i] == v@[j as int]);
                }
                assert(token_end(suffix) == j - i);
            }
            let tok = copy_range(v, i, j);
            let ghost old_out = out@;
            out.push(tok);
            proof {
                assert(suffix.take(j - i) =~= v@.subrange(i as int, j as int));
                assert(suffix.skip(j - i) =~= v@.skip(j as int));
                assert(out@.map_values(|t: Vec<char>| t@) =~= old_out.map_values(
                    |t: Vec<char>| t@,
                ) + seq![tok@]);
            }
            i = j;
        }
    }
    proof {
        assert(v@.skip(n as int) =~= Seq::<char>::empty());
        assert(out@.map_values(|t2: Vec<char>| t2@) =~= spec_tokens(v@));
    }
    out
}

/// The number of characters before the first `/` (the whole length if there
/// is none).
pub open spec fn upto_slash(s: Seq<char>) -> nat
    decreases s.len(),
{
    if s.len() == 0 || s[0] == '/' {
        0
    } else {
        1 + upto_slash(s.drop_first())
    }
}

pub proof fn lemma_upto_slash_props(s: Seq<char>)
    ensures
        upto_slash(s) <= s.len(),
        upto_slash(s) < s.len() ==> s[upto_slash(s) as int] == '/',
        forall|i: int| 0 <= i < upto_slash(s) ==> s[i] != '/',
    decreases s.len(),
{
    if s.len() > 0 && s[0] != '/' {
        lemma_upto_slash_props(s.drop_first());
        assert forall|i: int| 0 <= i < upto_slash(s) implies s[i] != '/' by {
            if i > 0 {
                assert(s.drop_first()[i - 1] == s[i]);
            }
        }
    }
}

/// What follows the last `/` (the whole sequence if there is none).
pub open spec fn spec_pure(s: Seq<char>) -> Seq<char>
    decreases s.len(),
    via spec_pure_decreases
{
    let k = upto_slash(s);
    if k == s.len() {
        s
    } else {
        spec_pure(s.skip(k as int + 1))
    }
}

#[via_fn]
proof fn spec_pure_decreases(s: Seq<char>) {
    lemma_upto_slash_props(s);
}

/// What precedes the first `/` (the whole sequence if there is none).
pub open spec fn spec_family(s: Seq<char>) -> Seq<char> {
    s.take(upto_slash(s) as int)
}

pub proof fn lemma_pure_no_slash(s: Seq<char>)
    requires
        forall|i: int| 0 <= i < s.len() ==> s[i] != '/',
    ensures
        spec_pure(s) == s,
{
    lemma_upto_slash_props(s);
}

pub proof fn lemma_pure_after_last(s: Seq<char>, j: int)
    requires
        0 <= j < s.len(),
        s[j] == '/',
        forall|i: int| j < i < s.len() ==> s[i] != '/',
    ensures
        spec_pure(s) == s.skip(j + 1),
    decreases s.len(),
{
    lemma_upto_slash_props(s);
    let k = upto_slash(s) as int;
    assert(k <= j);
    if k == j {
        assert forall|i: int| 0 <= i < s.skip(j + 1).len() implies (#[trigger] s.skip(j + 1)[i])
            != '/' by {
            assert(s.skip(j + 1)[i] == s[j + 1 + i]);
        }
        lemma_pure_no_slash(s.skip(j + 1));
    } else {
        let s2 = s.skip(k + 1);
        assert(s2[j - k - 1] == s[j]);
        assert forall|i: int| j - k - 1 < i < s2.len() implies s2[i] != '/' by {
            assert(s2[i] == s[k + 1 + i]);
        }
        lemma_pure_after_last(s2, j - k - 1);
        assert(s2.skip(j - k) =~= s.skip(j + 1));
    }
}

/// The part of a possibly repository-qualified name after the last `/`.
pub fn pure_name(v: &[char]) -> (r: Vec<char>)
    ensures
        r@ == spec_pure(v@),
{
    let n = v.len();
    let mut j: usize = n;
    while j > 0
        invariant
            j <= n,
            n == v@.len(),
            forall|k: int| j <= k < n ==> v@[k] != '/',
        decreases j,
    {
        if v[j - 1] == '/' {
            proof {
                lemma_pure_after_last(v@, j - 1);
                assert(v@.skip(j as int) =~= v@.subrange(j as int, n as int));
            }
            return copy_range(v, j, n);
        }
        j -= 1;
    }
    proof {
        lemma_pure_no_slash(v@);
    }
    copy_chars(v)
}

/// The part of a provider tag before the first `/`.
pub fn family_of(v: &[char]) -> (r: Vec<char>)
    ensures
        r@ == spec_family(v@),
{
    let n = v.len();
    let mut j: usize = 0;
    while j < n && v[j] != '/'
        invariant
            j <= n,
            n == v@.len(),
            forall|k: int| 0 <= k < j ==> v@[k] != '/',
        decreases n - j,
    {
        j += 1;
    }
    proof {
        lemma_upto_slash_props(v@);
        assert(upto_slash(v@) == j);
    }
    copy_range(v, 0, j)
}

} // verus!
