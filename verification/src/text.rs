//! Plain-text building blocks shared by the record model, the codecs and
//! the presentation engine: character access into strings, decimal
//! formatting, whitespace splitting and joining.

use vstd::prelude::*;
use vstd::string::StrSliceExecFns;

verus! {

/// The views of a sequence of strings, as sequences of characters.
pub open spec fn str_views(v: Seq<String>) -> Seq<Seq<char>> {
    v.map_values(|s: String| s@)
}

/// Relies on String::push: appends exactly the given character.
#[verifier::external_body]
pub fn push_char(s: &mut String, c: char)
    ensures
        final(s)@ == old(s)@.push(c),
{
    s.push(c);
}

/// The characters of a string slice, in order.
pub fn str_chars(s: &str) -> (r: Vec<char>)
    ensures
        r@ == s@,
{
    let n = s.unicode_len();
    let mut v: Vec<char> = Vec::new();
    let mut i: usize = 0;
    while i < n
        invariant
            n == s@.len(),
            i <= n,
            v@ == s@.take(i as int),
        decreases n - i,
    {
        v.push(s.get_char(i));
        i = i + 1;
        proof {
            assert(v@ =~= s@.take(i as int));
        }
    }
    proof {
        assert(s@.take(n as int) =~= s@);
    }
    v
}

/// A string holding exactly the given characters.
pub fn string_from_chars(v: &Vec<char>) -> (r: String)
    ensures
        r@ == v@,
{
    let mut s = String::new();
    let mut i: usize = 0;
    while i < v.len()
        invariant
            i <= v@.len(),
            s@ == v@.take(i as int),
        decreases v@.len() - i,
    {
        push_char(&mut s, v[i]);
        i = i + 1;
        proof {
            assert(s@ =~= v@.take(i as int));
        }
    }
    proof {
        assert(v@.take(v@.len() as int) =~= v@);
    }
    s
}

/// The character for one decimal digit.
pub open spec fn digit_char(d: int) -> char
    recommends
        0 <= d < 10,
{
    ((48 + d) as u8) as char
}

/// Decimal digits of a non-negative integer, most significant first,
/// without a sign and without leading zeros (a lone zero for 0).
pub open spec fn spec_fmt_u64(n: int) -> Seq<char>
    recommends
        n >= 0,
    decreases n,
{
    if n < 10 {
        seq![digit_char(n)]
    } else {
        spec_fmt_u64(n / 10).push(digit_char(n % 10))
    }
}

/// Appends the decimal digits of `n` to `out`.
pub fn fmt_u64_into(n: u64, out: &mut String)
    ensures
        final(out)@ == old(out)@ + spec_fmt_u64(n as int),
    decreases n,
{
    if n >= 10 {
        fmt_u64_into(n / 10, out);
    }
    let d: u8 = (n % 10) as u8 + 48;
    push_char(out, d as char);
    proof {
        if n < 10 {
            assert(old(out)@ + spec_fmt_u64(n as int) =~= old(out)@.push(digit_char(n as int)));
        }
    }
}

/// Decimal rendering of a signed integer: a `-` sign before the digits
/// of the magnitude when negative.
pub open spec fn spec_fmt_i64(n: int) -> Seq<char> {
    if n >= 0 {
        spec_fmt_u64(n)
    } else {
        seq!['-'] + spec_fmt_u64(-n)
    }
}

/// Appends the decimal rendering of `n` to `out`.
pub fn fmt_i64_into(n: i64, out: &mut String)
    ensures
        final(out)@ == old(out)@ + spec_fmt_i64(n as int),
{
    if n >= 0 {
        fmt_u64_into(n as u64, out);
    } else {
        push_char(out, '-');
        let m: u64 = ((-(n + 1)) as u64) + 1;
        assert(m as int == -(n as int));
        fmt_u64_into(m, out);
        proof {
            assert(old(out)@.push('-') + spec_fmt_u64(m as int) =~= old(out)@ + spec_fmt_i64(
                n as int,
            ));
        }
    }
}

/// The whitespace characters on which a tags string is split.
pub open spec fn is_space(c: char) -> bool {
    c == ' ' || c == '\t' || c == '\n' || c == '\r'
}

/// Runtime test matching `is_space`.
pub fn is_space_char(c: char) -> (r: bool)
    ensures
        r == is_space(c),
{
    c == ' ' || c == '\t' || c == '\n' || c == '\r'
}

/// Length of the leading run of non-whitespace characters.
pub open spec fn token_len(s: Seq<char>) -> int
    decreases s.len(),
{
    if s.len() == 0 || is_space(s[0]) {
        0
    } else {
        1 + token_len(s.drop_first())
    }
}

/// The leading non-whitespace run is never longer than the sequence, and
/// is non-empty exactly when the sequence starts with a non-space.
pub proof fn lemma_token_len_bounds(s: Seq<char>)
    ensures
        0 <= token_len(s) <= s.len(),
        s.len() > 0 && !is_space(s[0]) ==> token_len(s) >= 1,
    decreases s.len(),
{
    if s.len() > 0 && !is_space(s[0]) {
        lemma_token_len_bounds(s.drop_first());
    }
}

/// Every character of the leading run is a non-space.
pub proof fn lemma_token_len_chars(s: Seq<char>)
    ensures
        forall|k: int| 0 <= k < token_len(s) ==> !is_space(s[k]),
    decreases s.len(),
{
    lemma_token_len_bounds(s);
    if s.len() > 0 && !is_space(s[0]) {
        lemma_token_len_chars(s.drop_first());
        assert forall|k: int| 0 <= k < token_len(s) implies !is_space(s[k]) by {
            if k > 0 {
                assert(s[k] == s.drop_first()[k - 1]);
            }
        }
    }
}

/// The words of a string: maximal runs of non-whitespace characters, in
/// order, with all whitespace dropped.
pub open spec fn split_ws(s: Seq<char>) -> Seq<Seq<char>>
    decreases s.len(),
    via split_ws_decreases
{
    if s.len() == 0 {
        Seq::empty()
    } else if is_space(s[0]) {
        split_ws(s.drop_first())
    } else {
        seq![s.take(token_len(s))] + split_ws(s.skip(token_len(s)))
    }
}

#[via_fn]
proof fn split_ws_decreases(s: Seq<char>) {
    lemma_token_len_bounds(s);
}

/// One word of a split tags string: non-empty, no whitespace inside.
pub open spec fn word_wf(w: Seq<char>) -> bool {
    w.len() > 0 && forall|j: int| 0 <= j < w.len() ==> !is_space(#[trigger] w[j])
}

/// Every entry of a word list is a well-formed word.
pub open spec fn all_words_wf(ws: Seq<Seq<char>>) -> bool {
    forall|k: int| 0 <= k < ws.len() ==> word_wf(#[trigger] ws[k])
}

/// Every word that `split_ws` yields is non-empty and free of
/// whitespace.
pub proof fn lemma_split_ws_wf(s: Seq<char>)
    ensures
        all_words_wf(split_ws(s)),
    decreases s.len(),
{
    lemma_token_len_bounds(s);
    if s.len() == 0 {
        assert(split_ws(s).len() == 0);
    } else if is_space(s[0]) {
        lemma_split_ws_wf(s.drop_first());
    } else {
        lemma_split_ws_wf(s.skip(token_len(s)));
        lemma_token_len_chars(s);
        let head = s.take(token_len(s));
        let rest = split_ws(s.skip(token_len(s)));
        assert(split_ws(s) == seq![head] + rest);
        assert forall|j: int| 0 <= j < head.len() implies !is_space(#[trigger] head[j]) by {
            assert(head[j] == s[j]);
        }
        assert(word_wf(head));
        assert forall|k: int| 0 <= k < split_ws(s).len() implies word_wf(
            #[trigger] split_ws(s)[k],
        ) by {
            if k == 0 {
                assert(split_ws(s)[k] == head);
            } else {
                assert(split_ws(s)[k] == rest[k - 1]);
            }
        }
    }
}

fn split_ws_rec(cs: &Vec<char>, i: usize, out: &mut Vec<String>)
    requires
        i <= cs@.len(),
    ensures
        str_views(final(out)@) == str_views(old(out)@) + split_ws(cs@.skip(i as int)),
    decreases cs@.len() - i,
{
    proof {
        lemma_token_len_bounds(cs@.skip(i as int));
    }
    if i >= cs.len() {
        proof {
            assert(str_views(out@) =~= str_views(out@) + split_ws(cs@.skip(i as int)));
        }
    } else if is_space_char(cs[i]) {
        proof {
            assert(cs@.skip(i as int).drop_first() =~= cs@.skip(i as int + 1));
        }
        split_ws_rec(cs, i + 1, out);
    } else {
        let ghost tl = token_len(cs@.skip(i as int));
        let mut j: usize = i;
        let mut tok = String::new();
        while j < cs.len() && !is_space_char(cs[j])
            invariant
                i <= j <= cs@.len(),
                tok@ == cs@.subrange(i as int, j as int),
                token_len(cs@.skip(i as int)) == (j - i) + token_len(cs@.skip(j as int)),
            decreases cs@.len() - j,
        {
            push_char(&mut tok, cs[j]);
            j = j + 1;
            proof {
                assert(tok@ =~= cs@.subrange(i as int, j as int));
                assert(cs@.skip(j as int - 1).drop_first() =~= cs@.skip(j as int));
            }
        }
        proof {
            assert(token_len(cs@.skip(j as int)) == 0);
            assert(tl == j - i);
            assert(cs@.skip(i as int).take(tl) =~= cs@.subrange(i as int, j as int));
            assert(cs@.skip(i as int).skip(tl) =~= cs@.skip(j as int));
        }
        out.push(tok);
        let ghost mid = out@;
        split_ws_rec(cs, j, out);
        proof {
            assert(str_views(mid) =~= str_views(old(out)@).push(cs@.subrange(i as int, j as int)));
            assert(str_views(old(out)@) + split_ws(cs@.skip(i as int)) =~= str_views(old(out)@)
                .push(cs@.subrange(i as int, j as int)) + split_ws(cs@.skip(j as int)));
        }
    }
}

/// Splits a whitespace-delimited tags string into its words.
pub fn split_tags(s: &str) -> (r: Vec<String>)
    ensures
        str_views(r@) == split_ws(s@),
{
    let cs = str_chars(s);
    let mut out: Vec<String> = Vec::new();
    split_ws_rec(&cs, 0, &mut out);
    proof {
        assert(cs@.skip(0) =~= cs@);
        assert(str_views(Seq::<String>::empty()) + split_ws(cs@) =~= split_ws(s@));
    }
    out
}

/// The parts joined with the separator between consecutive parts.
pub open spec fn spec_join(parts: Seq<Seq<char>>, sep: Seq<char>) -> Seq<char>
    decreases parts.len(),
{
    if parts.len() == 0 {
        Seq::empty()
    } else if parts.len() == 1 {
        parts[0]
    } else {
        parts[0] + sep + spec_join(parts.drop_first(), sep)
    }
}

/// Appending one more part extends the join by a separator and the part.
pub proof fn lemma_join_push(parts: Seq<Seq<char>>, sep: Seq<char>, x: Seq<char>)
    ensures
        spec_join(parts.push(x), sep) == if parts.len() == 0 {
            x
        } else {
            spec_join(parts, sep) + sep + x
        },
    decreases parts.len(),
{
    if parts.len() == 0 {
        assert(parts.push(x)[0] == x);
        assert(spec_join(parts.push(x), sep) == x);
    } else if parts.len() == 1 {
        assert(parts.push(x).len() == 2);
        assert(parts.push(x)[0] == parts[0]);
        assert(parts.push(x).drop_first() =~= seq![x]);
        assert(spec_join(seq![x], sep) == x);
        assert(spec_join(parts.push(x), sep) == parts[0] + sep + x);
        assert(spec_join(parts, sep) == parts[0]);
    } else {
        lemma_join_push(parts.drop_first(), sep, x);
        assert(parts.push(x).drop_first() =~= parts.drop_first().push(x));
        assert(spec_join(parts.push(x), sep) == parts[0] + sep + spec_join(
            parts.drop_first().push(x),
            sep,
        ));
        assert(parts[0] + sep + (spec_join(parts.drop_first(), sep) + sep + x) =~= spec_join(
            parts,
            sep,
        ) + sep + x);
    }
}

/// Joins the strings with the separator between consecutive entries.
pub fn join_strings(parts: &Vec<String>, sep: &str) -> (r: String)
    ensures
        r@ == spec_join(str_views(parts@), sep@),
{
    let mut out = String::new();
    let mut i: usize = 0;
    while i < parts.len()
        invariant
            i <= parts@.len(),
            out@ == spec_join(str_views(parts@.take(i as int)), sep@),
        decreases parts@.len() - i,
    {
        if i > 0 {
            out.append(sep);
        }
        out.append(parts[i].as_str());
        i = i + 1;
        proof {
            let prev = str_views(parts@.take(i - 1));
            assert(str_views(parts@.take(i as int)) =~= prev.push(parts@[i - 1]@));
            lemma_join_push(prev, sep@, parts@[i - 1]@);
            if prev.len() == 0 {
                assert(out@ =~= parts@[i - 1]@);
            }
        }
    }
    proof {
        assert(parts@.take(parts@.len() as int) =~= parts@);
    }
    out
}


/// Whether `c` is a decimal digit.
pub open spec fn is_digit(c: char) -> bool {
    48 <= c as u32 <= 57
}

/// The value of a decimal digit character.
pub open spec fn digit_val(c: char) -> int {
    c as u32 - 48
}

/// The number a digit string names, most significant digit first.
pub open spec fn fold10(s: Seq<char>) -> int
    decreases s.len(),
{
    if s.len() == 0 {
        0
    } else {
        fold10(s.drop_last()) * 10 + digit_val(s.last())
    }
}

/// Every character of a formatted number is a digit, the string is
/// non-empty, and it has no leading zero unless it is exactly `0`.
pub proof fn lemma_fmt_u64_shape(n: int)
    requires
        n >= 0,
    ensures
        spec_fmt_u64(n).len() >= 1,
        forall|k: int| 0 <= k < spec_fmt_u64(n).len() ==> is_digit(#[trigger] spec_fmt_u64(n)[k]),
        n > 0 ==> spec_fmt_u64(n)[0] != '0',
        n == 0 ==> spec_fmt_u64(n) == seq!['0'],
    decreases n,
{
    if n < 10 {
        assert(spec_fmt_u64(n) == seq![digit_char(n)]);
        assert(is_digit(digit_char(n))) by {
            assert(digit_char(n) as u32 == 48 + n);
        }
    } else {
        lemma_fmt_u64_shape(n / 10);
        let pre = spec_fmt_u64(n / 10);
        assert(spec_fmt_u64(n) == pre.push(digit_char(n % 10)));
        assert(is_digit(digit_char(n % 10))) by {
            assert(0 <= n % 10 < 10);
            assert(digit_char(n % 10) as u32 == 48 + n % 10);
        }
        assert forall|k: int| 0 <= k < spec_fmt_u64(n).len() implies is_digit(
            #[trigger] spec_fmt_u64(n)[k],
        ) by {
            if k < pre.len() {
                assert(spec_fmt_u64(n)[k] == pre[k]);
            }
        }
        assert(spec_fmt_u64(n)[0] == pre[0]);
    }
}

/// Parsing the decimal form of a number yields the number.
pub proof fn lemma_fold10_fmt_u64(n: int)
    requires
        n >= 0,
    ensures
        fold10(spec_fmt_u64(n)) == n,
    decreases n,
{
    assert(fold10(Seq::<char>::empty()) == 0);
    if n < 10 {
        assert(spec_fmt_u64(n) == seq![digit_char(n)]);
        assert(seq![digit_char(n)].drop_last() =~= Seq::<char>::empty());
        assert(seq![digit_char(n)].last() == digit_char(n));
        assert(digit_val(digit_char(n)) == n) by {
            assert(digit_char(n) as u32 == 48 + n);
        }
        assert(fold10(seq![digit_char(n)]) == fold10(Seq::<char>::empty()) * 10 + digit_val(
            digit_char(n),
        ));
    } else {
        lemma_fold10_fmt_u64(n / 10);
        let pre = spec_fmt_u64(n / 10);
        assert(spec_fmt_u64(n) == pre.push(digit_char(n % 10)));
        assert(pre.push(digit_char(n % 10)).drop_last() =~= pre);
        assert(pre.push(digit_char(n % 10)).last() == digit_char(n % 10));
        assert(digit_val(digit_char(n % 10)) == n % 10) by {
            assert(0 <= n % 10 < 10);
            assert(digit_char(n % 10) as u32 == 48 + n % 10);
        }
        assert(fold10(pre.push(digit_char(n % 10))) == fold10(pre) * 10 + digit_val(
            digit_char(n % 10),
        ));
        assert(fold10(spec_fmt_u64(n)) == (n / 10) * 10 + n % 10);
    }
}

/// Lowercasing of ASCII letters; other characters stay themselves.
pub open spec fn ascii_lower_char(c: char) -> char {
    if 65 <= c as u32 <= 90 {
        ((c as u32 + 32) as u8) as char
    } else {
        c
    }
}

/// The ASCII-lowercased form of a string.
pub open spec fn ascii_lower(s: Seq<char>) -> Seq<char> {
    s.map_values(|c: char| ascii_lower_char(c))
}

/// Lowercases the ASCII letters of a string, as language names are
/// normalized.
pub fn to_ascii_lowercase(s: &str) -> (r: String)
    ensures
        r@ == ascii_lower(s@),
{
    let cs = str_chars(s);
    let mut out = String::new();
    let mut i: usize = 0;
    while i < cs.len()
        invariant
            i <= cs@.len(),
            cs@ == s@,
            out@ == ascii_lower(s@).take(i as int),
        decreases cs@.len() - i,
    {
        let c = cs[i];
        let u = c as u32;
        let lc: char = if 65 <= u && u <= 90 {
            let b: u8 = (u + 32) as u8;
            b as char
        } else {
            c
        };
        assert(lc == ascii_lower_char(s@[i as int]));
        push_char(&mut out, lc);
        i = i + 1;
        proof {
            assert(out@ =~= ascii_lower(s@).take(i as int));
        }
    }
    proof {
        assert(ascii_lower(s@).take(s@.len() as int) =~= ascii_lower(s@));
    }
    out
}


/// A non-empty string of non-whitespace characters.
pub fn is_word(s: &str) -> (r: bool)
    ensures
        r == word_wf(s@),
{
    let n = s.unicode_len();
    if n == 0 {
        return false;
    }
    let mut i: usize = 0;
    while i < n
        invariant
            n == s@.len(),
            i <= n,
            forall|j: int| 0 <= j < i ==> !is_space(#[trigger] s@[j]),
        decreases n - i,
    {
        if is_space_char(s.get_char(i)) {
            return false;
        }
        i = i + 1;
    }
    true
}

} // verus!
