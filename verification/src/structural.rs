//! Streamed structural codec: the bulk export/import form. Encoding
//! appends one self-delimited record — a brace-delimited object with a
//! fixed field order — to an open stream, with no wrapping collection
//! marker. Decoding pulls one record at a time from a character stream
//! and yields per-record results, so one malformed record never
//! discards records already read.

use vstd::prelude::*;
use crate::snippet::{Snippet, SnippetModel};
use crate::time::{Timestamp, NANOS_PER_SEC};
use crate::text::{
    push_char, str_chars, str_views, spec_fmt_u64, spec_fmt_i64, fmt_u64_into, fmt_i64_into,
    is_digit, digit_val, digit_char, fold10, is_space, is_space_char, word_wf, all_words_wf,
    lemma_fmt_u64_shape, lemma_fold10_fmt_u64, is_word, string_from_chars,
};

verus! {

/// Why an import of one structural record failed; isolated to that
/// record.
#[derive(Clone, Copy, Debug, PartialEq, Eq, Structural)]
pub enum ImportError {
    /// The characters at this point are no record of the expected
    /// structure.
    Malformed,
}

// ---------------------------------------------------------------------
// The encoding, as a function of the model.
// ---------------------------------------------------------------------
/// The hexadecimal digit character for one value below sixteen.
pub open spec fn hex_char(d: int) -> char
    recommends
        0 <= d < 16,
{
    if d < 10 {
        digit_char(d)
    } else {
        ((87 + d) as u8) as char
    }
}

/// How one character is written inside a quoted string: quote and
/// backslash get a backslash, control characters become `\u00XX`,
/// everything else stands as itself.
pub open spec fn esc_char(c: char) -> Seq<char> {
    if c == '"' {
        seq!['\\', '"']
    } else if c == '\\' {
        seq!['\\', '\\']
    } else if (c as u32) < 32 {
        seq!['\\', 'u', '0', '0', hex_char((c as u32 / 16) as int), hex_char((c as u32 % 16) as int)]
    } else {
        seq![c]
    }
}

/// A string's characters, each written as `esc_char` says.
pub open spec fn js_escape(s: Seq<char>) -> Seq<char>
    decreases s.len(),
{
    if s.len() == 0 {
        Seq::empty()
    } else {
        esc_char(s[0]) + js_escape(s.drop_first())
    }
}

/// A quoted, escaped string.
pub open spec fn js_string(s: Seq<char>) -> Seq<char> {
    seq!['"'] + js_escape(s) + seq!['"']
}

/// The comma-separated items of the tag array.
pub open spec fn js_tags_items(ts: Seq<Seq<char>>) -> Seq<char>
    decreases ts.len(),
{
    if ts.len() == 0 {
        Seq::empty()
    } else if ts.len() == 1 {
        js_string(ts[0])
    } else {
        js_string(ts[0]) + seq![','] + js_tags_items(ts.drop_first())
    }
}

/// The tag array.
pub open spec fn js_tags(ts: Seq<Seq<char>>) -> Seq<char> {
    seq!['['] + js_tags_items(ts) + seq![']']
}

pub open spec fn lit_index() -> Seq<char> {
    seq!['{', '"', 'i', 'n', 'd', 'e', 'x', '"', ':']
}

pub open spec fn lit_description() -> Seq<char> {
    seq![',', '"', 'd', 'e', 's', 'c', 'r', 'i', 'p', 't', 'i', 'o', 'n', '"', ':']
}

pub open spec fn lit_language() -> Seq<char> {
    seq![',', '"', 'l', 'a', 'n', 'g', 'u', 'a', 'g', 'e', '"', ':']
}

pub open spec fn lit_code() -> Seq<char> {
    seq![',', '"', 'c', 'o', 'd', 'e', '"', ':']
}

pub open spec fn lit_extension() -> Seq<char> {
    seq![',', '"', 'e', 'x', 't', 'e', 'n', 's', 'i', 'o', 'n', '"', ':']
}

pub open spec fn lit_tags() -> Seq<char> {
    seq![',', '"', 't', 'a', 'g', 's', '"', ':']
}

pub open spec fn lit_date() -> Seq<char> {
    seq![',', '"', 'd', 'a', 't', 'e', '"', ':', '{', '"', 's', 'e', 'c', 's', '"', ':']
}

pub open spec fn lit_nanos() -> Seq<char> {
    seq![',', '"', 'n', 'a', 'n', 'o', 's', '"', ':']
}

pub open spec fn lit_updated() -> Seq<char> {
    seq![
        '}',
        ',',
        '"',
        'u',
        'p',
        'd',
        'a',
        't',
        'e',
        'd',
        '"',
        ':',
        '{',
        '"',
        's',
        'e',
        'c',
        's',
        '"',
        ':',
    ]
}

pub open spec fn lit_end() -> Seq<char> {
    seq!['}', '}']
}

/// The closing bracket of the tag array, as a one-character sequence.
pub open spec fn rbracket() -> Seq<char> {
    seq![']']
}

/// The string delimiter, as a one-character sequence.
pub open spec fn quote() -> Seq<char> {
    seq!['"']
}

/// The leading half of a record: index and the four string fields.
pub open spec fn spec_encode_head(m: SnippetModel) -> Seq<char> {
    lit_index() + spec_fmt_u64(m.index) + lit_description() + js_string(m.description)
        + lit_language() + js_string(m.language) + lit_code() + js_string(m.code) + lit_extension()
        + js_string(m.extension)
}

/// The trailing half of a record: tags, both timestamps, closing braces.
pub open spec fn spec_encode_tail(m: SnippetModel) -> Seq<char> {
    lit_tags() + js_tags(m.tags) + lit_date() + spec_fmt_i64(m.date.secs as int) + lit_nanos()
        + spec_fmt_u64(m.date.nanos as int) + lit_updated() + spec_fmt_i64(m.updated.secs as int)
        + lit_nanos() + spec_fmt_u64(m.updated.nanos as int) + lit_end()
}

/// One whole record, fields in fixed order.
pub open spec fn spec_structural_encode(m: SnippetModel) -> Seq<char> {
    spec_encode_head(m) + spec_encode_tail(m)
}

// ---------------------------------------------------------------------
// Executable encoder.
// ---------------------------------------------------------------------
fn append_chars(out: &mut String, cs: &Vec<char>)
    ensures
        final(out)@ == old(out)@ + cs@,
{
    let mut i: usize = 0;
    while i < cs.len()
        invariant
            i <= cs@.len(),
            out@ == old(out)@ + cs@.take(i as int),
        decreases cs@.len() - i,
    {
        push_char(out, cs[i]);
        i = i + 1;
        proof {
            assert(out@ =~= old(out)@ + cs@.take(i as int));
        }
    }
    proof {
        assert(old(out)@ + cs@.take(cs@.len() as int) =~= old(out)@ + cs@);
    }
}

/// Appending one more character extends the escaped form by its
/// escape.
proof fn lemma_js_escape_push(s: Seq<char>, c: char)
    ensures
        js_escape(s.push(c)) == js_escape(s) + esc_char(c),
    decreases s.len(),
{
    if s.len() == 0 {
        assert(s.push(c)[0] == c);
        assert(s.push(c).drop_first() =~= Seq::<char>::empty());
        assert(js_escape(Seq::<char>::empty()) == Seq::<char>::empty());
        assert(js_escape(s.push(c)) == esc_char(c) + Seq::<char>::empty());
        assert(esc_char(c) + Seq::<char>::empty() =~= Seq::<char>::empty() + esc_char(c));
    } else {
        lemma_js_escape_push(s.drop_first(), c);
        assert(s.push(c)[0] == s[0]);
        assert(s.push(c).drop_first() =~= s.drop_first().push(c));
        assert(js_escape(s.push(c)) == esc_char(s[0]) + (js_escape(s.drop_first()) + esc_char(
            c,
        )));
        assert(esc_char(s[0]) + (js_escape(s.drop_first()) + esc_char(c)) =~= js_escape(s)
            + esc_char(c));
    }
}

fn push_escaped(out: &mut String, s: &str)
    ensures
        final(out)@ == old(out)@ + js_escape(s@),
{
    let cs = str_chars(s);
    let mut i: usize = 0;
    while i < cs.len()
        invariant
            i <= cs@.len(),
            cs@ == s@,
            out@ == old(out)@ + js_escape(s@.take(i as int)),
        decreases cs@.len() - i,
    {
        let c = cs[i];
        let u = c as u32;
        if c == '"' {
            push_char(out, '\\');
            push_char(out, '"');
        } else if c == '\\' {
            push_char(out, '\\');
            push_char(out, '\\');
        } else if u < 32 {
            push_char(out, '\\');
            push_char(out, 'u');
            push_char(out, '0');
            push_char(out, '0');
            let hi = u / 16;
            let lo = u % 16;
            let hc: char = if hi < 10 {
                ((48 + hi) as u8) as char
            } else {
                ((87 + hi) as u8) as char
            };
            let lc: char = if lo < 10 {
                ((48 + lo) as u8) as char
            } else {
                ((87 + lo) as u8) as char
            };
            assert(hc == hex_char(u as int / 16));
            assert(lc == hex_char(u as int % 16));
            push_char(out, hc);
            push_char(out, lc);
        } else {
            push_char(out, c);
        }
        i = i + 1;
        proof {
            lemma_js_escape_push(s@.take(i - 1), s@[i - 1]);
            assert(s@.take(i as int) =~= s@.take(i - 1).push(s@[i - 1]));
            assert(out@ =~= old(out)@ + js_escape(s@.take(i as int)));
        }
    }
    proof {
        assert(s@.take(s@.len() as int) =~= s@);
    }
}

fn push_js_string(out: &mut String, s: &str)
    ensures
        final(out)@ == old(out)@ + js_string(s@),
{
    push_char(out, '"');
    push_escaped(out, s);
    push_char(out, '"');
    proof {
        assert(final(out)@ =~= old(out)@ + js_string(s@));
    }
}

impl Snippet {
    /// Encodes this snippet as one self-delimited structural record,
    /// ready to append to an export stream.
    pub fn structural_encode(&self) -> (r: String)
        ensures
            r@ == spec_structural_encode(self@),
    {
        let mut out = String::new();
        let l1: Vec<char> = vec!['{', '"', 'i', 'n', 'd', 'e', 'x', '"', ':'];
        append_chars(&mut out, &l1);
        proof {
            assert(l1@ =~= lit_index());
        }
        fmt_u64_into(self.index as u64, &mut out);
        let l2: Vec<char> = vec![
            ',',
            '"',
            'd',
            'e',
            's',
            'c',
            'r',
            'i',
            'p',
            't',
            'i',
            'o',
            'n',
            '"',
            ':',
        ];
        append_chars(&mut out, &l2);
        proof {
            assert(l2@ =~= lit_description());
        }
        push_js_string(&mut out, self.description.as_str());
        let l3: Vec<char> = vec![',', '"', 'l', 'a', 'n', 'g', 'u', 'a', 'g', 'e', '"', ':'];
        append_chars(&mut out, &l3);
        proof {
            assert(l3@ =~= lit_language());
        }
        push_js_string(&mut out, self.language.as_str());
        let l4: Vec<char> = vec![',', '"', 'c', 'o', 'd', 'e', '"', ':'];
        append_chars(&mut out, &l4);
        proof {
            assert(l4@ =~= lit_code());
        }
        push_js_string(&mut out, self.code.as_str());
        let l5: Vec<char> = vec![',', '"', 'e', 'x', 't', 'e', 'n', 's', 'i', 'o', 'n', '"', ':'];
        append_chars(&mut out, &l5);
        proof {
            assert(l5@ =~= lit_extension());
        }
        push_js_string(&mut out, self.extension.as_str());
        let l6: Vec<char> = vec![',', '"', 't', 'a', 'g', 's', '"', ':'];
        append_chars(&mut out, &l6);
        proof {
            assert(l6@ =~= lit_tags());
        }
        self.push_tags_array(&mut out);
        let l7: Vec<char> = vec![
            ',',
            '"',
            'd',
            'a',
            't',
            'e',
            '"',
            ':',
            '{',
            '"',
            's',
            'e',
            'c',
            's',
            '"',
            ':',
        ];
        append_chars(&mut out, &l7);
        proof {
            assert(l7@ =~= lit_date());
        }
        fmt_i64_into(self.date.secs, &mut out);
        let l8: Vec<char> = vec![',', '"', 'n', 'a', 'n', 'o', 's', '"', ':'];
        append_chars(&mut out, &l8);
        proof {
            assert(l8@ =~= lit_nanos());
        }
        fmt_u64_into(self.date.nanos as u64, &mut out);
        let l9: Vec<char> = vec![
            '}',
            ',',
            '"',
            'u',
            'p',
            'd',
            'a',
            't',
            'e',
            'd',
            '"',
            ':',
            '{',
            '"',
            's',
            'e',
            'c',
            's',
            '"',
            ':',
        ];
        append_chars(&mut out, &l9);
        proof {
            assert(l9@ =~= lit_updated());
        }
        fmt_i64_into(self.updated.secs, &mut out);
        let l10: Vec<char> = vec![',', '"', 'n', 'a', 'n', 'o', 's', '"', ':'];
        append_chars(&mut out, &l10);
        proof {
            assert(l10@ =~= lit_nanos());
        }
        fmt_u64_into(self.updated.nanos as u64, &mut out);
        let l11: Vec<char> = vec!['}', '}'];
        append_chars(&mut out, &l11);
        proof {
            assert(l11@ =~= lit_end());
            assert(out@ =~= spec_structural_encode(self@));
        }
        out
    }

    fn push_tags_array(&self, out: &mut String)
        ensures
            final(out)@ == old(out)@ + js_tags(str_views(self.tags@)),
    {
        let ghost ts = str_views(self.tags@);
        push_char(out, '[');
        let mut k: usize = 0;
        while k < self.tags.len()
            invariant
                k <= self.tags@.len(),
                ts == str_views(self.tags@),
                out@ == old(out)@.push('[') + js_tags_items_upto(ts, k as int),
            decreases self.tags@.len() - k,
        {
            if k > 0 {
                push_char(out, ',');
            }
            push_js_string(out, self.tags[k].as_str());
            k = k + 1;
            proof {
                lemma_js_tags_items_upto_step(ts, k as int);
                assert(out@ =~= old(out)@.push('[') + js_tags_items_upto(ts, k as int));
            }
        }
        push_char(out, ']');
        proof {
            lemma_js_tags_items_upto_all(ts);
            assert(final(out)@ =~= old(out)@ + js_tags(ts));
        }
    }
}

/// The first `k` items of the tag array, with their separators.
spec fn js_tags_items_upto(ts: Seq<Seq<char>>, k: int) -> Seq<char>
    decreases k,
{
    if k <= 0 {
        Seq::empty()
    } else if k == 1 {
        js_string(ts[0])
    } else {
        js_tags_items_upto(ts, k - 1) + seq![','] + js_string(ts[k - 1])
    }
}

proof fn lemma_js_tags_items_upto_step(ts: Seq<Seq<char>>, k: int)
    requires
        1 <= k <= ts.len(),
    ensures
        js_tags_items_upto(ts, k) == if k == 1 {
            js_string(ts[0])
        } else {
            js_tags_items_upto(ts, k - 1) + seq![','] + js_string(ts[k - 1])
        },
{
}

/// The prefix function agrees with `js_tags_items` on the whole list.
proof fn lemma_js_tags_items_upto_all(ts: Seq<Seq<char>>)
    ensures
        js_tags_items_upto(ts, ts.len() as int) == js_tags_items(ts),
    decreases ts.len(),
{
    if ts.len() > 1 {
        lemma_js_tags_items_upto_all(ts.drop_first());
        lemma_upto_shift(ts, ts.len() as int);
        assert(js_tags_items(ts) == js_string(ts[0]) + seq![','] + js_tags_items(
            ts.drop_first(),
        ));
    }
}

/// Dropping the first item shifts the prefix function by one.
proof fn lemma_upto_shift(ts: Seq<Seq<char>>, k: int)
    requires
        2 <= k <= ts.len(),
    ensures
        js_tags_items_upto(ts, k) == js_string(ts[0]) + seq![','] + js_tags_items_upto(
            ts.drop_first(),
            k - 1,
        ),
    decreases k,
{
    if k == 2 {
        assert(ts.drop_first()[0] == ts[1]);
        assert(js_tags_items_upto(ts, 1) == js_string(ts[0]));
        assert(js_tags_items_upto(ts.drop_first(), 1) == js_string(ts[1]));
        assert(js_tags_items_upto(ts, 2) == js_string(ts[0]) + seq![','] + js_string(ts[1]));
    } else {
        lemma_upto_shift(ts, k - 1);
        assert(ts.drop_first()[k - 2] == ts[k - 1]);
        assert(js_tags_items_upto(ts.drop_first(), k - 1) == js_tags_items_upto(
            ts.drop_first(),
            k - 2,
        ) + seq![','] + js_string(ts.drop_first()[k - 2]));
        assert(js_string(ts[0]) + seq![','] + (js_tags_items_upto(ts.drop_first(), k - 2)
            + seq![','] + js_string(ts[k - 1])) =~= (js_string(ts[0]) + seq![',']
            + js_tags_items_upto(ts.drop_first(), k - 2)) + seq![','] + js_string(ts[k - 1]));
    }
}


// ---------------------------------------------------------------------
// The decoding, as a function of the characters.
// ---------------------------------------------------------------------
/// Whether `c` is a lowercase hexadecimal digit.
pub open spec fn is_hex(c: char) -> bool {
    is_digit(c) || 97 <= c as u32 <= 102
}

/// The value of a lowercase hexadecimal digit.
pub open spec fn hex_val(c: char) -> int {
    if is_digit(c) {
        digit_val(c)
    } else {
        c as u32 - 87
    }
}

/// Reads an exact literal at `pos`.
pub open spec fn p_lit(b: Seq<char>, pos: int, lit: Seq<char>) -> Option<int> {
    if 0 <= pos && pos + lit.len() <= b.len() && b.subrange(pos, pos + lit.len()) == lit {
        Some(pos + lit.len())
    } else {
        None
    }
}

/// The length of the digit run starting at `pos`.
pub open spec fn digit_run(b: Seq<char>, pos: int) -> int
    decreases b.len() - pos,
{
    if 0 <= pos < b.len() && is_digit(b[pos]) {
        1 + digit_run(b, pos + 1)
    } else {
        0
    }
}

/// Reads a canonical unsigned decimal at `pos`: at least one digit, no
/// leading zero unless the number is zero, value within range.
pub open spec fn p_u64(b: Seq<char>, pos: int) -> Option<(u64, int)> {
    let k = digit_run(b, pos);
    if k < 1 {
        None
    } else if k > 1 && b[pos] == '0' {
        None
    } else {
        let v = fold10(b.subrange(pos, pos + k));
        if v > u64::MAX {
            None
        } else {
            Some((v as u64, pos + k))
        }
    }
}

/// The negative value a magnitude stands for.
pub open spec fn neg_of(mag: u64) -> i64 {
    (-(mag as int)) as i64
}

/// Reads a canonical signed decimal at `pos`.
pub open spec fn p_i64(b: Seq<char>, pos: int) -> Option<(i64, int)> {
    if 0 <= pos < b.len() && b[pos] == '-' {
        match p_u64(b, pos + 1) {
            Some((mag, q)) => if 1 <= mag <= (i64::MAX as u64) + 1 {
                Some((neg_of(mag), q))
            } else {
                None
            },
            None => None,
        }
    } else {
        match p_u64(b, pos) {
            Some((v, q)) => if v <= i64::MAX as u64 {
                Some((v as i64, q))
            } else {
                None
            },
            None => None,
        }
    }
}

/// Reads the characters of a quoted string after its opening quote,
/// undoing `esc_char`, up to and including the closing quote.
pub open spec fn p_str_chars(b: Seq<char>, pos: int) -> Option<(Seq<char>, int)>
    decreases b.len() - pos,
{
    if pos < 0 || pos >= b.len() {
        None
    } else if b[pos] == '"' {
        Some((Seq::empty(), pos + 1))
    } else if b[pos] == '\\' {
        if pos + 1 >= b.len() {
            None
        } else if b[pos + 1] == '"' || b[pos + 1] == '\\' {
            match p_str_chars(b, pos + 2) {
                Some((s, q)) => Some((seq![b[pos + 1]] + s, q)),
                None => None,
            }
        } else if b[pos + 1] == 'u' {
            if pos + 5 < b.len() && b[pos + 2] == '0' && b[pos + 3] == '0' && is_hex(b[pos + 4])
                && is_hex(b[pos + 5]) && hex_val(b[pos + 4]) * 16 + hex_val(b[pos + 5]) < 32 {
                let v = hex_val(b[pos + 4]) * 16 + hex_val(b[pos + 5]);
                match p_str_chars(b, pos + 6) {
                    Some((s, q)) => Some((seq![(v as u32) as char] + s, q)),
                    None => None,
                }
            } else {
                None
            }
        } else {
            None
        }
    } else if (b[pos] as u32) < 32 {
        None
    } else {
        match p_str_chars(b, pos + 1) {
            Some((s, q)) => Some((seq![b[pos]] + s, q)),
            None => None,
        }
    }
}

/// Reads a quoted string at `pos`.
pub open spec fn p_string(b: Seq<char>, pos: int) -> Option<(Seq<char>, int)> {
    if 0 <= pos < b.len() && b[pos] == '"' {
        p_str_chars(b, pos + 1)
    } else {
        None
    }
}

/// Reads the items of a non-empty tag array after its opening bracket,
/// up to and including the closing bracket.
pub open spec fn p_tags_items(b: Seq<char>, pos: int) -> Option<(Seq<Seq<char>>, int)>
    decreases b.len() - pos,
{
    match p_string(b, pos) {
        None => None,
        Some((s, q)) => if q <= pos || q >= b.len() {
            None
        } else if b[q] == ',' {
            match p_tags_items(b, q + 1) {
                Some((ss, r2)) => Some((seq![s] + ss, r2)),
                None => None,
            }
        } else if b[q] == ']' {
            Some((seq![s], q + 1))
        } else {
            None
        },
    }
}

/// Reads a tag array at `pos`.
pub open spec fn p_tags(b: Seq<char>, pos: int) -> Option<(Seq<Seq<char>>, int)> {
    if 0 <= pos < b.len() && b[pos] == '[' {
        if pos + 1 < b.len() && b[pos + 1] == ']' {
            Some((Seq::empty(), pos + 2))
        } else {
            p_tags_items(b, pos + 1)
        }
    } else {
        None
    }
}

/// Reads one whole record at `pos`. Exactly the character strings this
/// function accepts import; every accepted record is well formed.
pub open spec fn p_record(b: Seq<char>, pos: int) -> Option<(SnippetModel, int)> {
    match p_lit(b, pos, lit_index()) {
        None => None,
        Some(p1) => match p_u64(b, p1) {
            None => None,
            Some((idx, p2)) => if idx > usize::MAX as u64 {
                None
            } else {
                match p_lit(b, p2, lit_description()) {
                    None => None,
                    Some(p3) => match p_string(b, p3) {
                        None => None,
                        Some((description, p4)) => match p_lit(b, p4, lit_language()) {
                            None => None,
                            Some(p5) => match p_string(b, p5) {
                                None => None,
                                Some((language, p6)) => match p_lit(b, p6, lit_code()) {
                                    None => None,
                                    Some(p7) => match p_string(b, p7) {
                                        None => None,
                                        Some((code, p8)) => match p_lit(b, p8, lit_extension()) {
                                            None => None,
                                            Some(p9) => match p_string(b, p9) {
                                                None => None,
                                                Some((extension, p10)) => p_record_tail(
                                                    b,
                                                    p10,
                                                    idx,
                                                    description,
                                                    language,
                                                    code,
                                                    extension,
                                                ),
                                            },
                                        },
                                    },
                                },
                            },
                        },
                    },
                }
            },
        },
    }
}

/// The tail of a record: tags, both timestamps, and the closing
/// braces, then the well-formedness checks.
pub open spec fn p_record_tail(
    b: Seq<char>,
    pos: int,
    idx: u64,
    description: Seq<char>,
    language: Seq<char>,
    code: Seq<char>,
    extension: Seq<char>,
) -> Option<(SnippetModel, int)> {
    match p_lit(b, pos, lit_tags()) {
        None => None,
        Some(p1) => match p_tags(b, p1) {
            None => None,
            Some((tags, p2)) => match p_lit(b, p2, lit_date()) {
                None => None,
                Some(p3) => match p_i64(b, p3) {
                    None => None,
                    Some((dsecs, p4)) => match p_lit(b, p4, lit_nanos()) {
                        None => None,
                        Some(p5) => match p_u64(b, p5) {
                            None => None,
                            Some((dnanos, p6)) => match p_lit(b, p6, lit_updated()) {
                                None => None,
                                Some(p7) => match p_i64(b, p7) {
                                    None => None,
                                    Some((usecs, p8)) => match p_lit(b, p8, lit_nanos()) {
                                        None => None,
                                        Some(p9) => match p_u64(b, p9) {
                                            None => None,
                                            Some((unanos, p10)) => match p_lit(b, p10, lit_end()) {
                                                None => None,
                                                Some(p11) => {
                                                    if dnanos < NANOS_PER_SEC as u64 && unanos
                                                        < NANOS_PER_SEC as u64 && all_words_wf(
                                                        tags,
                                                    ) && (Timestamp {
                                                        secs: dsecs,
                                                        nanos: dnanos as u32,
                                                    }).spec_le(
                                                        Timestamp {
                                                            secs: usecs,
                                                            nanos: unanos as u32,
                                                        },
                                                    ) {
                                                        Some(
                                                            (
                                                                SnippetModel {
                                                                    index: idx as int,
                                                                    description,
                                                                    language,
                                                                    code,
                                                                    extension,
                                                                    tags,
                                                                    date: Timestamp {
                                                                        secs: dsecs,
                                                                        nanos: dnanos as u32,
                                                                    },
                                                                    updated: Timestamp {
                                                                        secs: usecs,
                                                                        nanos: unanos as u32,
                                                                    },
                                                                },
                                                                p11,
                                                            ),
                                                        )
                                                    } else {
                                                        None
                                                    }
                                                },
                                            },
                                        },
                                    },
                                },
                            },
                        },
                    },
                },
            },
        },
    }
}


// ---------------------------------------------------------------------
// Executable decoder.
// ---------------------------------------------------------------------
#[verifier::loop_isolation(false)]
fn rd_lit(b: &Vec<char>, pos: usize, lit: &Vec<char>) -> (r: Option<usize>)
    ensures
        match r {
            Some(q) => p_lit(b@, pos as int, lit@) == Some(q as int) && pos <= q <= b@.len(),
            None => p_lit(b@, pos as int, lit@).is_none(),
        },
{
    if pos > b.len() || lit.len() > b.len() - pos {
        return None;
    }
    let mut i: usize = 0;
    while i < lit.len()
        invariant
            i <= lit@.len(),
            b@.subrange(pos as int, pos + i) =~= lit@.take(i as int),
        decreases lit@.len() - i,
    {
        if b[pos + i] != lit[i] {
            proof {
                assert(b@.subrange(pos as int, pos + lit@.len())[i as int] != lit@[i as int]);
            }
            return None;
        }
        i = i + 1;
        proof {
            assert(b@.subrange(pos as int, pos + i) =~= lit@.take(i as int));
        }
    }
    proof {
        assert(lit@.take(lit@.len() as int) =~= lit@);
        assert(b@.subrange(pos as int, pos + lit@.len()) == lit@);
    }
    Some(pos + lit.len())
}

/// Extending an all-digit region keeps the fold at least as large.
proof fn lemma_fold10_nonneg(s: Seq<char>)
    requires
        forall|j: int| 0 <= j < s.len() ==> is_digit(#[trigger] s[j]),
    ensures
        fold10(s) >= 0,
    decreases s.len(),
{
    if s.len() > 0 {
        lemma_fold10_nonneg(s.drop_last());
    }
}

/// Once a digit prefix folds past the range, the whole run does.
proof fn lemma_fold10_monotonic(s: Seq<char>, i: int)
    requires
        forall|j: int| 0 <= j < s.len() ==> is_digit(#[trigger] s[j]),
        0 <= i <= s.len(),
    ensures
        fold10(s) >= fold10(s.subrange(0, i)),
    decreases s.len() - i,
{
    if i < s.len() {
        lemma_fold10_monotonic(s, i + 1);
        let a = s.subrange(0, i);
        let b2 = s.subrange(0, i + 1);
        assert(b2.drop_last() =~= a);
        assert(fold10(b2) == fold10(a) * 10 + digit_val(s[i]));
        lemma_fold10_nonneg(a);
        assert(fold10(b2) >= fold10(a)) by (nonlinear_arith)
            requires
                fold10(b2) == fold10(a) * 10 + digit_val(s[i]),
                fold10(a) >= 0,
                digit_val(s[i]) >= 0,
        ;
    } else {
        assert(s.subrange(0, i) =~= s);
    }
}

fn rd_u64_num(b: &Vec<char>, pos: usize) -> (r: Option<(u64, usize)>)
    requires
        pos <= b@.len(),
    ensures
        match r {
            Some((v, q)) => p_u64(b@, pos as int) == Some((v, q as int)) && pos < q <= b@.len(),
            None => p_u64(b@, pos as int).is_none(),
        },
{
    let mut j: usize = pos;
    loop
        invariant_except_break
            pos <= j <= b@.len(),
            digit_run(b@, pos as int) == (j - pos) + digit_run(b@, j as int),
            forall|t: int| pos <= t < j ==> is_digit(#[trigger] b@[t]),
        ensures
            pos <= j <= b@.len(),
            digit_run(b@, pos as int) == j - pos,
            forall|t: int| pos <= t < j ==> is_digit(#[trigger] b@[t]),
        decreases b@.len() - j,
    {
        if j >= b.len() {
            proof {
                assert(digit_run(b@, j as int) == 0);
            }
            break;
        }
        let u = b[j] as u32;
        if u < 48 || u > 57 {
            proof {
                assert(!is_digit(b@[j as int]));
                assert(digit_run(b@, j as int) == 0);
            }
            break;
        }
        proof {
            assert(is_digit(b@[j as int]));
        }
        j = j + 1;
    }
    let k = j - pos;
    if k < 1 {
        return None;
    }
    if k > 1 && b[pos] == '0' {
        return None;
    }
    let ghost digits = b@.subrange(pos as int, j as int);
    proof {
        assert(forall|t: int| 0 <= t < digits.len() ==> is_digit(#[trigger] digits[t]));
    }
    let mut acc: u64 = 0;
    let mut i: usize = pos;
    while i < j
        invariant
            pos <= i <= j <= b@.len(),
            forall|t: int| pos <= t < j ==> is_digit(#[trigger] b@[t]),
            digits == b@.subrange(pos as int, j as int),
            digit_run(b@, pos as int) == j - pos,
            j - pos >= 1,
            !(j - pos > 1 && b@[pos as int] == '0'),
            acc as int == fold10(b@.subrange(pos as int, i as int)),
        decreases j - i,
    {
        proof {
            assert(is_digit(b@[i as int]));
        }
        let d = (b[i] as u32 - 48) as u64;
        proof {
            assert(digit_val(b@[i as int]) == d);
            assert(b@.subrange(pos as int, i + 1).drop_last() =~= b@.subrange(
                pos as int,
                i as int,
            ));
        }
        if acc > (u64::MAX - d) / 10 {
            proof {
                let pre = b@.subrange(pos as int, i + 1);
                assert(fold10(pre) == acc * 10 + d);
                assert(acc * 10 + d > u64::MAX) by (nonlinear_arith)
                    requires
                        acc > (u64::MAX - d) / 10,
                        0 <= d <= 9,
                ;
                assert(pre =~= digits.subrange(0, i + 1 - pos));
                lemma_fold10_monotonic(digits, i + 1 - pos);
                assert(fold10(digits) > u64::MAX);
            }
            return None;
        }
        acc = acc * 10 + d;
        i = i + 1;
    }
    proof {
        assert(b@.subrange(pos as int, j as int) == digits);
    }
    Some((acc, j))
}

fn rd_i64_num(b: &Vec<char>, pos: usize) -> (r: Option<(i64, usize)>)
    requires
        pos <= b@.len(),
    ensures
        match r {
            Some((v, q)) => p_i64(b@, pos as int) == Some((v, q as int)) && pos < q <= b@.len(),
            None => p_i64(b@, pos as int).is_none(),
        },
{
    if pos < b.len() && b[pos] == '-' {
        match rd_u64_num(b, pos + 1) {
            Some((mag, q)) => {
                if 1 <= mag && mag <= (i64::MAX as u64) + 1 {
                    let v: i64 = if mag == (i64::MAX as u64) + 1 {
                        i64::MIN
                    } else {
                        -(mag as i64)
                    };
                    assert(v == neg_of(mag));
                    Some((v, q))
                } else {
                    None
                }
            },
            None => None,
        }
    } else {
        match rd_u64_num(b, pos) {
            Some((v, q)) => {
                if v <= i64::MAX as u64 {
                    Some((v as i64, q))
                } else {
                    None
                }
            },
            None => None,
        }
    }
}

#[verifier::loop_isolation(false)]
fn rd_string(b: &Vec<char>, pos: usize) -> (r: Option<(String, usize)>)
    requires
        pos <= b@.len(),
    ensures
        match r {
            Some((s, q)) => p_string(b@, pos as int) == Some((s@, q as int)) && pos < q
                <= b@.len(),
            None => p_string(b@, pos as int).is_none(),
        },
{
    if pos >= b.len() || b[pos] != '"' {
        return None;
    }
    let start = pos + 1;
    let mut cur: usize = start;
    let mut acc: Vec<char> = Vec::new();
    loop
        invariant
            start <= cur <= b@.len(),
            p_str_chars(b@, start as int) == (match p_str_chars(b@, cur as int) {
                Some((s, q)) => Some::<(Seq<char>, int)>((acc@ + s, q)),
                None => None::<(Seq<char>, int)>,
            }),
        decreases b@.len() - cur,
    {
        if cur >= b.len() {
            return None;
        }
        let c = b[cur];
        if c == '"' {
            let out = string_from_chars(&acc);
            proof {
                assert(acc@ + Seq::<char>::empty() =~= acc@);
            }
            return Some((out, cur + 1));
        }
        if c == '\\' {
            if cur + 1 >= b.len() {
                return None;
            }
            let e = b[cur + 1];
            if e == '"' || e == '\\' {
                let ghost before = acc@;
                acc.push(e);
                cur = cur + 2;
                proof {
                    assert forall|s2: Seq<char>| true implies before + (seq![e] + s2) =~= acc@
                        + s2 by {}
                }
            } else if e == 'u' {
                if b.len() - cur > 5 && b[cur + 2] == '0' && b[cur + 3] == '0' {
                    let h1 = b[cur + 4];
                    let h2 = b[cur + 5];
                    let u1 = h1 as u32;
                    let u2 = h2 as u32;
                    let ok1 = (48 <= u1 && u1 <= 57) || (97 <= u1 && u1 <= 102);
                    let ok2 = (48 <= u2 && u2 <= 57) || (97 <= u2 && u2 <= 102);
                    if ok1 && ok2 {
                        let v1: u32 = if u1 <= 57 {
                            u1 - 48
                        } else {
                            u1 - 87
                        };
                        let v2: u32 = if u2 <= 57 {
                            u2 - 48
                        } else {
                            u2 - 87
                        };
                        let v = v1 * 16 + v2;
                        proof {
                            assert(v1 == hex_val(h1));
                            assert(v2 == hex_val(h2));
                        }
                        if v < 32 {
                            let dc: char = (v as u8) as char;
                            proof {
                                assert(dc == ((hex_val(h1) * 16 + hex_val(h2)) as u32) as char);
                            }
                            let ghost before = acc@;
                            acc.push(dc);
                            cur = cur + 6;
                            proof {
                                assert forall|s2: Seq<char>| true implies before + (seq![dc] + s2)
                                    =~= acc@ + s2 by {}
                            }
                        } else {
                            return None;
                        }
                    } else {
                        return None;
                    }
                } else {
                    return None;
                }
            } else {
                return None;
            }
        } else if (c as u32) < 32 {
            return None;
        } else {
            let ghost before = acc@;
            acc.push(c);
            cur = cur + 1;
            proof {
                assert forall|s2: Seq<char>| true implies before + (seq![c] + s2) =~= acc@
                    + s2 by {}
            }
        }
    }
}

#[verifier::loop_isolation(false)]
fn rd_tags(b: &Vec<char>, pos: usize) -> (r: Option<(Vec<String>, usize)>)
    requires
        pos <= b@.len(),
    ensures
        match r {
            Some((ts, q)) => p_tags(b@, pos as int) == Some((str_views(ts@), q as int)) && pos < q
                <= b@.len(),
            None => p_tags(b@, pos as int).is_none(),
        },
{
    if pos >= b.len() || b[pos] != '[' {
        return None;
    }
    if pos + 1 < b.len() && b[pos + 1] == ']' {
        let empty_vec: Vec<String> = Vec::new();
        proof {
            assert(str_views(empty_vec@) =~= Seq::<Seq<char>>::empty());
        }
        return Some((empty_vec, pos + 2));
    }
    let start = pos + 1;
    let mut cur: usize = start;
    let mut acc: Vec<String> = Vec::new();
    loop
        invariant
            start <= cur <= b@.len(),
            p_tags_items(b@, start as int) == (match p_tags_items(b@, cur as int) {
                Some((ss, q)) => Some::<(Seq<Seq<char>>, int)>((str_views(acc@) + ss, q)),
                None => None::<(Seq<Seq<char>>, int)>,
            }),
        decreases b@.len() - cur,
    {
        match rd_string(b, cur) {
            None => {
                return None;
            },
            Some((s, q)) => {
                if q >= b.len() {
                    return None;
                }
                if b[q] == ',' {
                    let ghost before = str_views(acc@);
                    acc.push(s);
                    proof {
                        assert(str_views(acc@) =~= before.push(s@));
                        assert forall|ss: Seq<Seq<char>>| true implies before + (seq![s@] + ss)
                            =~= str_views(acc@) + ss by {}
                    }
                    cur = q + 1;
                } else if b[q] == ']' {
                    let ghost before = str_views(acc@);
                    acc.push(s);
                    proof {
                        assert(str_views(acc@) =~= before.push(s@));
                        assert(before + seq![s@] =~= str_views(acc@));
                    }
                    return Some((acc, q + 1));
                } else {
                    return None;
                }
            },
        }
    }
}


fn lit_vec_index() -> (r: Vec<char>)
    ensures
        r@ == lit_index(),
{
    let v: Vec<char> = vec!['{', '"', 'i', 'n', 'd', 'e', 'x', '"', ':'];
    proof {
        assert(v@ =~= lit_index());
    }
    v
}

fn lit_vec_description() -> (r: Vec<char>)
    ensures
        r@ == lit_description(),
{
    let v: Vec<char> = vec![',', '"', 'd', 'e', 's', 'c', 'r', 'i', 'p', 't', 'i', 'o', 'n', '"', ':'];
    proof {
        assert(v@ =~= lit_description());
    }
    v
}

fn lit_vec_language() -> (r: Vec<char>)
    ensures
        r@ == lit_language(),
{
    let v: Vec<char> = vec![',', '"', 'l', 'a', 'n', 'g', 'u', 'a', 'g', 'e', '"', ':'];
    proof {
        assert(v@ =~= lit_language());
    }
    v
}

fn lit_vec_code() -> (r: Vec<char>)
    ensures
        r@ == lit_code(),
{
    let v: Vec<char> = vec![',', '"', 'c', 'o', 'd', 'e', '"', ':'];
    proof {
        assert(v@ =~= lit_code());
    }
    v
}

fn lit_vec_extension() -> (r: Vec<char>)
    ensures
        r@ == lit_extension(),
{
    let v: Vec<char> = vec![',', '"', 'e', 'x', 't', 'e', 'n', 's', 'i', 'o', 'n', '"', ':'];
    proof {
        assert(v@ =~= lit_extension());
    }
    v
}

fn lit_vec_tags() -> (r: Vec<char>)
    ensures
        r@ == lit_tags(),
{
    let v: Vec<char> = vec![',', '"', 't', 'a', 'g', 's', '"', ':'];
    proof {
        assert(v@ =~= lit_tags());
    }
    v
}

fn lit_vec_date() -> (r: Vec<char>)
    ensures
        r@ == lit_date(),
{
    let v: Vec<char> = vec![',', '"', 'd', 'a', 't', 'e', '"', ':', '{', '"', 's', 'e', 'c', 's', '"', ':'];
    proof {
        assert(v@ =~= lit_date());
    }
    v
}

fn lit_vec_nanos() -> (r: Vec<char>)
    ensures
        r@ == lit_nanos(),
{
    let v: Vec<char> = vec![',', '"', 'n', 'a', 'n', 'o', 's', '"', ':'];
    proof {
        assert(v@ =~= lit_nanos());
    }
    v
}

fn lit_vec_updated() -> (r: Vec<char>)
    ensures
        r@ == lit_updated(),
{
    let v: Vec<char> = vec![
        '}',
        ',',
        '"',
        'u',
        'p',
        'd',
        'a',
        't',
        'e',
        'd',
        '"',
        ':',
        '{',
        '"',
        's',
        'e',
        'c',
        's',
        '"',
        ':',
    ];
    proof {
        assert(v@ =~= lit_updated());
    }
    v
}

fn lit_vec_end() -> (r: Vec<char>)
    ensures
        r@ == lit_end(),
{
    let v: Vec<char> = vec!['}', '}'];
    proof {
        assert(v@ =~= lit_end());
    }
    v
}

#[verifier::loop_isolation(false)]
fn rd_record(b: &Vec<char>, pos: usize) -> (r: Option<(Snippet, usize)>)
    requires
        pos <= b@.len(),
    ensures
        match r {
            Some((s, q)) => p_record(b@, pos as int) == Some((s@, q as int)) && pos < q
                <= b@.len() && s@.wf(),
            None => p_record(b@, pos as int).is_none(),
        },
{
    let p1 = match rd_lit(b, pos, &lit_vec_index()) {
        Some(p) => p,
        None => return None,
    };
    let (idx, p2) = match rd_u64_num(b, p1) {
        Some(v) => v,
        None => return None,
    };
    if idx > usize::MAX as u64 {
        return None;
    }
    let p3 = match rd_lit(b, p2, &lit_vec_description()) {
        Some(p) => p,
        None => return None,
    };
    let (description, p4) = match rd_string(b, p3) {
        Some(v) => v,
        None => return None,
    };
    let p5 = match rd_lit(b, p4, &lit_vec_language()) {
        Some(p) => p,
        None => return None,
    };
    let (language, p6) = match rd_string(b, p5) {
        Some(v) => v,
        None => return None,
    };
    let p7 = match rd_lit(b, p6, &lit_vec_code()) {
        Some(p) => p,
        None => return None,
    };
    let (code, p8) = match rd_string(b, p7) {
        Some(v) => v,
        None => return None,
    };
    let p9 = match rd_lit(b, p8, &lit_vec_extension()) {
        Some(p) => p,
        None => return None,
    };
    let (extension, p10) = match rd_string(b, p9) {
        Some(v) => v,
        None => return None,
    };
    let q1 = match rd_lit(b, p10, &lit_vec_tags()) {
        Some(p) => p,
        None => return None,
    };
    let (tags, q2) = match rd_tags(b, q1) {
        Some(v) => v,
        None => return None,
    };
    let q3 = match rd_lit(b, q2, &lit_vec_date()) {
        Some(p) => p,
        None => return None,
    };
    let (dsecs, q4) = match rd_i64_num(b, q3) {
        Some(v) => v,
        None => return None,
    };
    let q5 = match rd_lit(b, q4, &lit_vec_nanos()) {
        Some(p) => p,
        None => return None,
    };
    let (dnanos, q6) = match rd_u64_num(b, q5) {
        Some(v) => v,
        None => return None,
    };
    let q7 = match rd_lit(b, q6, &lit_vec_updated()) {
        Some(p) => p,
        None => return None,
    };
    let (usecs, q8) = match rd_i64_num(b, q7) {
        Some(v) => v,
        None => return None,
    };
    let q9 = match rd_lit(b, q8, &lit_vec_nanos()) {
        Some(p) => p,
        None => return None,
    };
    let (unanos, q10) = match rd_u64_num(b, q9) {
        Some(v) => v,
        None => return None,
    };
    let q11 = match rd_lit(b, q10, &lit_vec_end()) {
        Some(p) => p,
        None => return None,
    };
    if !(dnanos < NANOS_PER_SEC as u64 && unanos < NANOS_PER_SEC as u64) {
        return None;
    }
    let date = Timestamp { secs: dsecs, nanos: dnanos as u32 };
    let updated = Timestamp { secs: usecs, nanos: unanos as u32 };
    let ghost tags_v = str_views(tags@);
    let mut t: usize = 0;
    while t < tags.len()
        invariant
            t <= tags@.len(),
            forall|j: int| 0 <= j < t ==> word_wf(#[trigger] tags_v[j]),
        decreases tags@.len() - t,
    {
        if !is_word(tags[t].as_str()) {
            proof {
                assert(tags_v[t as int] == tags@[t as int]@);
            }
            return None;
        }
        proof {
            assert(tags_v[t as int] == tags@[t as int]@);
        }
        t = t + 1;
    }
    proof {
        assert(all_words_wf(tags_v));
    }
    if !date.le(&updated) {
        return None;
    }
    let s = Snippet {
        index: idx as usize,
        description,
        language,
        code,
        extension,
        tags,
        date,
        updated,
    };
    proof {
        assert(p_record(b@, pos as int) == Some((s@, q11 as int)));
    }
    Some((s, q11))
}

/// The index of the first non-whitespace character at or after `pos`.
pub open spec fn skip_ws_idx(b: Seq<char>, pos: int) -> int
    decreases b.len() - pos,
{
    if 0 <= pos < b.len() && is_space(b[pos]) {
        skip_ws_idx(b, pos + 1)
    } else {
        pos
    }
}

/// Pull-based reader over an export stream: each pull skips whitespace
/// between records, then reads one record or reports that record as
/// malformed, leaving records already returned untouched.
pub struct StructuralReader {
    /// The characters of the stream read so far.
    pub text: Vec<char>,
    /// The position of the next unread character.
    pub pos: usize,
}

impl StructuralReader {
    /// Whether the reader's position lies within its text.
    pub open spec fn wf(self) -> bool {
        self.pos <= self.text@.len()
    }

    /// A reader over the whole of `input`, positioned at its start.
    pub fn new(input: &str) -> (r: StructuralReader)
        ensures
            r.text@ == input@,
            r.pos == 0,
            r.wf(),
    {
        StructuralReader { text: str_chars(input), pos: 0 }
    }

    /// Pulls the next record. `None` when only whitespace remains; a
    /// value for each record that parses; the error for one that does
    /// not, after which the reader has skipped past that record (or
    /// one character, where no record shape is found) so the caller
    /// may abort or continue.
    #[verifier::loop_isolation(false)]
    pub fn next_record(&mut self) -> (r: Option<Result<Snippet, ImportError>>)
        requires
            old(self).wf(),
        ensures
            final(self).wf(),
            final(self).text == old(self).text,
            ({
                let b = old(self).text@;
                let start = skip_ws_idx(b, old(self).pos as int);
                match r {
                    None => start == b.len() && final(self).pos == b.len(),
                    Some(Ok(s)) => p_record(b, start) == Some((s@, final(self).pos as int))
                        && s@.wf(),
                    Some(Err(e)) => e == ImportError::Malformed && start < b.len() && p_record(
                        b,
                        start,
                    ).is_none() && start < final(self).pos <= b.len(),
                }
            }),
    {
        let ghost b = self.text@;
        let mut i: usize = self.pos;
        while i < self.text.len() && is_space_char(self.text[i])
            invariant
                self.pos <= i <= b.len(),
                skip_ws_idx(b, self.pos as int) == skip_ws_idx(b, i as int),
            decreases b.len() - i,
        {
            i = i + 1;
        }
        proof {
            assert(skip_ws_idx(b, i as int) == i as int);
        }
        let start = i;
        if start >= self.text.len() {
            self.pos = self.text.len();
            return None;
        }
        match rd_record(&self.text, start) {
            Some((s, q)) => {
                self.pos = q;
                Some(Ok(s))
            },
            None => {
                self.pos = self.skip_malformed(start);
                Some(Err(ImportError::Malformed))
            },
        }
    }

    /// Advances past one malformed record: over one balanced brace
    /// group when the record starts with a brace (quotes and escapes
    /// respected), else by one character.
    fn skip_malformed(&self, start: usize) -> (r: usize)
        requires
            start < self.text@.len(),
        ensures
            start < r <= self.text@.len(),
    {
        let n = self.text.len();
        if self.text[start] != '{' {
            return start + 1;
        }
        let mut depth: u64 = 0;
        let mut in_string: bool = false;
        let mut escaped: bool = false;
        let mut i: usize = start;
        while i < n
            invariant
                start <= i <= n,
                n == self.text@.len(),
            decreases n - i,
        {
            let c = self.text[i];
            if in_string {
                if escaped {
                    escaped = false;
                } else if c == '\\' {
                    escaped = true;
                } else if c == '"' {
                    in_string = false;
                }
            } else if c == '"' {
                in_string = true;
            } else if c == '{' {
                if depth < u64::MAX {
                    depth = depth + 1;
                }
            } else if c == '}' {
                if depth <= 1 {
                    return i + 1;
                }
                depth = depth - 1;
            }
            i = i + 1;
        }
        n
    }
}


// ---------------------------------------------------------------------
// Round trip: importing an exported record yields the record.
// ---------------------------------------------------------------------
/// A window of a window of `b` is a window of `b`.
proof fn lemma_cslice_of_slice(b: Seq<char>, pos: int, len: int, lo: int, hi: int)
    requires
        0 <= pos,
        pos + len <= b.len(),
        0 <= lo <= hi <= len,
    ensures
        b.subrange(pos, pos + len).subrange(lo, hi) == b.subrange(pos + lo, pos + hi),
{
    let s = b.subrange(pos, pos + len);
    assert forall|i: int| 0 <= i < hi - lo implies s.subrange(lo, hi)[i] == b.subrange(
        pos + lo,
        pos + hi,
    )[i] by {
        assert(s.subrange(lo, hi)[i] == s[lo + i]);
        assert(s[lo + i] == b[pos + (lo + i)]);
    }
    assert(s.subrange(lo, hi) =~= b.subrange(pos + lo, pos + hi));
}

proof fn lemma_p_lit_at(b: Seq<char>, pos: int, lit: Seq<char>)
    requires
        0 <= pos,
        pos + lit.len() <= b.len(),
        b.subrange(pos, pos + lit.len()) == lit,
    ensures
        p_lit(b, pos, lit) == Some(pos + lit.len() as int),
{
}

proof fn lemma_digit_run_region(b: Seq<char>, pos: int, len: int)
    requires
        0 <= pos,
        0 <= len,
        pos + len <= b.len(),
        forall|j: int| 0 <= j < len ==> is_digit(#[trigger] b[pos + j]),
        pos + len == b.len() || !is_digit(b[pos + len]),
    ensures
        digit_run(b, pos) == len,
    decreases len,
{
    if len == 0 {
    } else {
        assert(is_digit(b[pos + 0]));
        assert forall|j: int| 0 <= j < len - 1 implies is_digit(#[trigger] b[(pos + 1) + j]) by {
            assert(b[(pos + 1) + j] == b[pos + (j + 1)]);
        }
        lemma_digit_run_region(b, pos + 1, len - 1);
    }
}

proof fn lemma_p_u64_at(b: Seq<char>, pos: int, n: u64)
    requires
        0 <= pos,
        pos + spec_fmt_u64(n as int).len() <= b.len(),
        b.subrange(pos, pos + spec_fmt_u64(n as int).len()) == spec_fmt_u64(n as int),
        pos + spec_fmt_u64(n as int).len() == b.len() || !is_digit(
            b[pos + spec_fmt_u64(n as int).len()],
        ),
    ensures
        p_u64(b, pos) == Some((n, pos + spec_fmt_u64(n as int).len())),
{
    let f = spec_fmt_u64(n as int);
    let len = f.len() as int;
    lemma_fmt_u64_shape(n as int);
    assert forall|j: int| 0 <= j < len implies is_digit(#[trigger] b[pos + j]) by {
        assert(b.subrange(pos, pos + len)[j] == b[pos + j]);
        assert(f[j] == b[pos + j]);
    }
    lemma_digit_run_region(b, pos, len);
    assert(digit_run(b, pos) == len);
    lemma_fold10_fmt_u64(n as int);
    assert(b.subrange(pos, pos + len) == f);
    assert(fold10(b.subrange(pos, pos + len)) == n as int);
    if len > 1 {
        assert(n as int >= 10) by {
            if (n as int) < 10 {
                assert(f.len() == 1);
            }
        }
        assert(b[pos + 0] == f[0]);
        assert(b[pos] != '0');
    }
}

proof fn lemma_p_i64_at(b: Seq<char>, pos: int, x: i64)
    requires
        0 <= pos,
        pos + spec_fmt_i64(x as int).len() <= b.len(),
        b.subrange(pos, pos + spec_fmt_i64(x as int).len()) == spec_fmt_i64(x as int),
        pos + spec_fmt_i64(x as int).len() == b.len() || !is_digit(
            b[pos + spec_fmt_i64(x as int).len()],
        ),
    ensures
        p_i64(b, pos) == Some((x, pos + spec_fmt_i64(x as int).len())),
{
    let f = spec_fmt_i64(x as int);
    let len = f.len() as int;
    if x >= 0 {
        assert(f == spec_fmt_u64(x as int));
        lemma_fmt_u64_shape(x as int);
        assert(b[pos + 0] == f[0]) by {
            assert(b.subrange(pos, pos + len)[0] == b[pos + 0]);
        }
        assert(is_digit(b[pos]));
        assert(b[pos] != '-');
        lemma_p_u64_at(b, pos, x as u64);
        assert((x as u64) <= i64::MAX as u64);
        assert((x as u64) as i64 == x);
    } else {
        let mag_i = -(x as int);
        let mag: u64 = mag_i as u64;
        assert(f == seq!['-'] + spec_fmt_u64(mag as int));
        let g = spec_fmt_u64(mag as int);
        assert(b[pos + 0] == f[0]) by {
            assert(b.subrange(pos, pos + len)[0] == b[pos + 0]);
        }
        assert(b[pos] == '-');
        lemma_cslice_of_slice(b, pos, len, 1, len);
        assert(f.subrange(1, len) =~= g);
        assert(b.subrange(pos + 1, pos + len) == g);
        assert(pos + 1 + g.len() == pos + len);
        lemma_p_u64_at(b, pos + 1, mag);
        assert(1 <= mag <= (i64::MAX as u64) + 1);
        assert(neg_of(mag) == x);
    }
}

proof fn lemma_hex_char_val(d: int)
    requires
        0 <= d < 16,
    ensures
        is_hex(hex_char(d)),
        hex_val(hex_char(d)) == d,
{
    if d < 10 {
        assert(hex_char(d) as u32 == 48 + d);
    } else {
        assert(hex_char(d) as u32 == 87 + d);
    }
}

proof fn lemma_p_str_chars_at(b: Seq<char>, pos: int, s: Seq<char>)
    requires
        0 <= pos,
        pos + js_escape(s).len() + 1 <= b.len(),
        b.subrange(pos, pos + js_escape(s).len() + 1) == js_escape(s) + quote(),
    ensures
        p_str_chars(b, pos) == Some((s, pos + js_escape(s).len() + 1)),
    decreases s.len(),
{
    broadcast use vstd::utf8::char_u32_cast;

    let e = js_escape(s);
    let len = e.len() as int + 1;
    let region = e + seq!['"'];
    assert(quote() == seq!['"']);
    assert forall|j: int| 0 <= j < len implies b[pos + j] == region[j] by {
        assert(b.subrange(pos, pos + len)[j] == b[pos + j]);
    }
    if s.len() == 0 {
        assert(e == Seq::<char>::empty());
        assert(b[pos + 0] == region[0]);
        assert(region[0] == '"');
        assert(b[pos] == '"');
    } else {
        let c = s[0];
        let ec = esc_char(c);
        let rest = js_escape(s.drop_first());
        assert(e == ec + rest);
        let sub = pos + ec.len() as int;
        lemma_cslice_of_slice(b, pos, len, ec.len() as int, len);
        assert(region.subrange(ec.len() as int, len) =~= rest + seq!['"']);
        assert(b.subrange(sub, sub + rest.len() + 1) == rest + seq!['"']);
        lemma_p_str_chars_at(b, sub, s.drop_first());
        assert(ec.len() >= 1);
        assert forall|j: int| 0 <= j < ec.len() implies b[pos + j] == ec[j] by {
            assert(b[pos + j] == region[j]);
            assert(region[j] == e[j]);
            assert(e[j] == ec[j]);
        }
        if c == '"' {
            assert(ec[0] == '\\' && ec[1] == '"');
            assert(b[pos + 0] == '\\');
            assert(b[pos + 1] == '"');
            assert(seq![b[pos + 1]] + s.drop_first() =~= s);
        } else if c == '\\' {
            assert(ec[0] == '\\' && ec[1] == '\\');
            assert(b[pos + 0] == '\\');
            assert(b[pos + 1] == '\\');
            assert(seq![b[pos + 1]] + s.drop_first() =~= s);
        } else if (c as u32) < 32 {
            let hi = (c as u32 / 16) as int;
            let lo = (c as u32 % 16) as int;
            assert(ec == seq!['\\', 'u', '0', '0', hex_char(hi), hex_char(lo)]);
            assert(b[pos + 0] == '\\');
            assert(b[pos + 1] == 'u');
            assert(b[pos + 2] == '0');
            assert(b[pos + 3] == '0');
            assert(b[pos + 4] == hex_char(hi));
            assert(b[pos + 5] == hex_char(lo));
            lemma_hex_char_val(hi);
            lemma_hex_char_val(lo);
            assert(hex_val(b[pos + 4]) * 16 + hex_val(b[pos + 5]) == c as u32);
            assert(pos + 5 < b.len());
            vstd::utf8::char_u32_cast(c, c as u32);
            assert((c as u32) as char == c);
            assert(seq![((hex_val(b[pos + 4]) * 16 + hex_val(b[pos + 5])) as u32) as char]
                + s.drop_first() =~= s);
        } else {
            assert(ec == seq![c]);
            assert(ec[0] == c);
            assert(b[pos + 0] == c);
            assert(seq![b[pos]] + s.drop_first() =~= s);
        }
    }
}

proof fn lemma_p_string_at(b: Seq<char>, pos: int, s: Seq<char>)
    requires
        0 <= pos,
        pos + js_string(s).len() <= b.len(),
        b.subrange(pos, pos + js_string(s).len()) == js_string(s),
    ensures
        p_string(b, pos) == Some((s, pos + js_string(s).len())),
        js_string(s).len() >= 2,
{
    let e = js_escape(s);
    let len = js_string(s).len() as int;
    assert(len == e.len() + 2);
    assert(b[pos + 0] == js_string(s)[0]) by {
        assert(b.subrange(pos, pos + len)[0] == b[pos + 0]);
    }
    assert(b[pos] == '"');
    lemma_cslice_of_slice(b, pos, len, 1, len);
    assert(js_string(s).subrange(1, len) =~= e + seq!['"']);
    assert(b.subrange(pos + 1, pos + 1 + e.len() + 1) == e + seq!['"']);
    lemma_p_str_chars_at(b, pos + 1, s);
}

spec fn tags_items_region(ts: Seq<Seq<char>>, b: Seq<char>, pos: int) -> bool {
    &&& 0 <= pos
    &&& ts.len() >= 1
    &&& pos + js_tags_items(ts).len() + 1 <= b.len()
    &&& b.subrange(pos, pos + js_tags_items(ts).len() + 1) == js_tags_items(ts) + rbracket()
}

proof fn lemma_p_tags_items_at(b: Seq<char>, pos: int, ts: Seq<Seq<char>>)
    requires
        tags_items_region(ts, b, pos),
    ensures
        p_tags_items(b, pos) == (Some((ts, pos + js_tags_items(ts).len() + 1))),
    decreases ts.len(),
{
    let items = js_tags_items(ts);
    let len = items.len() as int + 1;
    let region = items + rbracket();
    assert forall|j: int| 0 <= j < len implies b[pos + j] == region[j] by {
        assert(b.subrange(pos, pos + len)[j] == b[pos + j]);
    }
    let s0 = js_string(ts[0]);
    if ts.len() == 1 {
        assert(items == s0);
        lemma_cslice_of_slice(b, pos, len, 0, s0.len() as int);
        assert(region.subrange(0, s0.len() as int) =~= s0);
        assert(b.subrange(pos, pos + s0.len()) == s0);
        lemma_p_string_at(b, pos, ts[0]);
        let q = pos + s0.len() as int;
        assert(b[q] == region[s0.len() as int]);
        assert(b[q] == rbracket()[0]);
        assert(rbracket()[0] == ']');
        assert(q > pos);
        assert(q < b.len());
        assert(seq![ts[0]] =~= ts);
    } else {
        assert(items == s0 + seq![','] + js_tags_items(ts.drop_first()));
        lemma_cslice_of_slice(b, pos, len, 0, s0.len() as int);
        assert(region.subrange(0, s0.len() as int) =~= s0);
        assert(b.subrange(pos, pos + s0.len()) == s0);
        lemma_p_string_at(b, pos, ts[0]);
        let q = pos + s0.len() as int;
        assert(b[q] == region[s0.len() as int]);
        assert(b[q] == ',');
        assert(q > pos);
        assert(q < b.len());
        let rest = js_tags_items(ts.drop_first());
        lemma_cslice_of_slice(b, pos, len, s0.len() as int + 1, len);
        assert(region.subrange(s0.len() as int + 1, len) =~= rest + rbracket());
        assert(b.subrange(q + 1, q + 1 + rest.len() + 1) == rest + rbracket());
        assert(tags_items_region(ts.drop_first(), b, q + 1));
        lemma_p_tags_items_at(b, q + 1, ts.drop_first());
        assert(seq![ts[0]] + ts.drop_first() =~= ts);
    }
}


spec fn tags_region(ts: Seq<Seq<char>>, b: Seq<char>, pos: int) -> bool {
    &&& 0 <= pos
    &&& pos + js_tags(ts).len() <= b.len()
    &&& b.subrange(pos, pos + js_tags(ts).len()) == js_tags(ts)
}
proof fn lemma_p_tags_at(b: Seq<char>, pos: int, ts: Seq<Seq<char>>)
    requires
        tags_region(ts, b, pos),
    ensures
        p_tags(b, pos) == (Some((ts, pos + 2 + js_tags_items(ts).len()))),
    decreases ts.len(),
{
    let whole = js_tags(ts);
    let len = whole.len() as int;
    let items = js_tags_items(ts);
    assert forall|j: int| 0 <= j < len implies b[pos + j] == whole[j] by {
        assert(b.subrange(pos, pos + len)[j] == b[pos + j]);
    }
    assert(b[pos + 0] == whole[0]);
    assert(whole[0] == '[');
    assert(b[pos] == '[');
    if ts.len() == 0 {
        assert(items == Seq::<char>::empty());
        assert(len == 2);
        assert(whole[1] == ']');
        assert(b[pos + 1] == ']');
        assert(ts =~= Seq::<Seq<char>>::empty());
    } else {
        assert(js_string(ts[0]).len() >= 2);
        if ts.len() == 1 {
            assert(items == js_string(ts[0]));
        } else {
            assert(items == js_string(ts[0]) + seq![','] + js_tags_items(ts.drop_first()));
        }
        assert(items[0] == js_string(ts[0])[0]);
        assert(items[0] == '"');
        assert(whole[1] == items[0]);
        assert(b[pos + 1] == whole[1]);
        assert(b[pos + 1] == items[0]);
        assert(b[pos + 1] != ']');
        lemma_cslice_of_slice(b, pos, len, 1, len);
        assert(whole.subrange(1, len) =~= items + rbracket());
        assert(b.subrange(pos + 1, pos + 1 + items.len() + 1) == items + rbracket());
        assert(tags_items_region(ts, b, pos + 1));
        lemma_p_tags_items_at(b, pos + 1, ts);
    }
}


spec fn tail_region(m: SnippetModel, b: Seq<char>, pos: int) -> bool {
    &&& 0 <= pos
    &&& pos + spec_encode_tail(m).len() <= b.len()
    &&& b.subrange(pos, pos + spec_encode_tail(m).len()) == spec_encode_tail(m)
}

#[verifier::rlimit(100)]
proof fn lemma_record_tail_at(b: Seq<char>, pos: int, m: SnippetModel, idx: u64)
    requires
        m.wf(),
        idx as int == m.index,
        tail_region(m, b, pos),
    ensures
        p_record_tail(b, pos, idx, m.description, m.language, m.code, m.extension) == (Some(
            (m, pos + spec_encode_tail(m).len()),
        )),
{
    let r = spec_encode_tail(m);
    let rl = r.len() as int;
    let e1 = lit_tags();
    let e2 = js_tags(m.tags);
    let e3 = lit_date();
    let e4 = spec_fmt_i64(m.date.secs as int);
    let e5 = lit_nanos();
    let e6 = spec_fmt_u64(m.date.nanos as int);
    let e7 = lit_updated();
    let e8 = spec_fmt_i64(m.updated.secs as int);
    let e9 = lit_nanos();
    let e10 = spec_fmt_u64(m.updated.nanos as int);
    let e11 = lit_end();
    let a1 = e1.len() as int;
    let a2 = a1 + e2.len();
    let a3 = a2 + e3.len();
    let a4 = a3 + e4.len();
    let a5 = a4 + e5.len();
    let a6 = a5 + e6.len();
    let a7 = a6 + e7.len();
    let a8 = a7 + e8.len();
    let a9 = a8 + e9.len();
    let a10 = a9 + e10.len();
    assert(rl == a10 + 2);
    lemma_cslice_of_slice(b, pos, rl, 0, a1);
    assert(r.subrange(0, a1) =~= e1);
    lemma_p_lit_at(b, pos, e1);
    lemma_cslice_of_slice(b, pos, rl, a1, a2);
    assert(r.subrange(a1, a2) =~= e2);
    assert(tags_region(m.tags, b, pos + a1));
    lemma_p_tags_at(b, pos + a1, m.tags);
    assert(e2.len() == 2 + js_tags_items(m.tags).len());
    lemma_cslice_of_slice(b, pos, rl, a2, a3);
    assert(r.subrange(a2, a3) =~= e3);
    lemma_p_lit_at(b, pos + a2, e3);
    lemma_cslice_of_slice(b, pos, rl, a3, a4);
    assert(r.subrange(a3, a4) =~= e4);
    lemma_cslice_of_slice(b, pos, rl, a4, a5);
    assert(r.subrange(a4, a5) =~= e5);
    assert(b.subrange(pos + a4, pos + a5) == e5);
    assert(b[pos + a4 + 0] == b.subrange(pos + a4, pos + a5)[0]);
    assert(b[pos + a4] == ',');
    assert(!is_digit(b[pos + a4]));
    lemma_p_i64_at(b, pos + a3, m.date.secs);
    lemma_p_lit_at(b, pos + a4, e5);
    lemma_cslice_of_slice(b, pos, rl, a5, a6);
    assert(r.subrange(a5, a6) =~= e6);
    lemma_cslice_of_slice(b, pos, rl, a6, a7);
    assert(r.subrange(a6, a7) =~= e7);
    assert(b.subrange(pos + a6, pos + a7) == e7);
    assert(b[pos + a6 + 0] == b.subrange(pos + a6, pos + a7)[0]);
    assert(b[pos + a6] == '}');
    assert(!is_digit(b[pos + a6]));
    lemma_p_u64_at(b, pos + a5, m.date.nanos as u64);
    lemma_p_lit_at(b, pos + a6, e7);
    lemma_cslice_of_slice(b, pos, rl, a7, a8);
    assert(r.subrange(a7, a8) =~= e8);
    lemma_cslice_of_slice(b, pos, rl, a8, a9);
    assert(r.subrange(a8, a9) =~= e9);
    assert(b.subrange(pos + a8, pos + a9) == e9);
    assert(b[pos + a8 + 0] == b.subrange(pos + a8, pos + a9)[0]);
    assert(b[pos + a8] == ',');
    assert(!is_digit(b[pos + a8]));
    lemma_p_i64_at(b, pos + a7, m.updated.secs);
    lemma_p_lit_at(b, pos + a8, e9);
    lemma_cslice_of_slice(b, pos, rl, a9, a10);
    assert(r.subrange(a9, a10) =~= e10);
    lemma_cslice_of_slice(b, pos, rl, a10, rl);
    assert(r.subrange(a10, rl) =~= e11);
    assert(b.subrange(pos + a10, pos + rl) == e11);
    assert(b[pos + a10 + 0] == b.subrange(pos + a10, pos + rl)[0]);
    assert(b[pos + a10] == '}');
    assert(!is_digit(b[pos + a10]));
    lemma_p_u64_at(b, pos + a9, m.updated.nanos as u64);
    lemma_p_lit_at(b, pos + a10, e11);
    assert((m.date.nanos as u64) < NANOS_PER_SEC as u64);
    assert((m.updated.nanos as u64) < NANOS_PER_SEC as u64);
    assert((Timestamp { secs: m.date.secs, nanos: (m.date.nanos as u64) as u32 }) == m.date);
    assert((Timestamp { secs: m.updated.secs, nanos: (m.updated.nanos as u64) as u32 })
        == m.updated);
    let built = SnippetModel {
        index: idx as int,
        description: m.description,
        language: m.language,
        code: m.code,
        extension: m.extension,
        tags: m.tags,
        date: Timestamp { secs: m.date.secs, nanos: (m.date.nanos as u64) as u32 },
        updated: Timestamp { secs: m.updated.secs, nanos: (m.updated.nanos as u64) as u32 },
    };
    assert(built =~= m);
}

pub open spec fn record_region(m: SnippetModel, b: Seq<char>, pos: int) -> bool {
    &&& 0 <= pos
    &&& pos + spec_structural_encode(m).len() <= b.len()
    &&& b.subrange(pos, pos + spec_structural_encode(m).len()) == spec_structural_encode(m)
}

spec fn head_region(m: SnippetModel, b: Seq<char>, pos: int) -> bool {
    &&& 0 <= pos
    &&& pos + spec_encode_head(m).len() <= b.len()
    &&& b.subrange(pos, pos + spec_encode_head(m).len()) == spec_encode_head(m)
    &&& pos + spec_encode_head(m).len() < b.len()
    &&& b[pos + spec_encode_head(m).len()] == ','
}

#[verifier::rlimit(100)]
proof fn lemma_record_head_at(b: Seq<char>, pos: int, m: SnippetModel)
    requires
        m.wf(),
        head_region(m, b, pos),
    ensures
        p_record(b, pos) == p_record_tail(
            b,
            pos + spec_encode_head(m).len(),
            m.index as u64,
            m.description,
            m.language,
            m.code,
            m.extension,
        ),
{
    let r = spec_encode_head(m);
    let rl = r.len() as int;
    let e1 = lit_index();
    let e2 = spec_fmt_u64(m.index);
    let e3 = lit_description();
    let e4 = js_string(m.description);
    let e5 = lit_language();
    let e6 = js_string(m.language);
    let e7 = lit_code();
    let e8 = js_string(m.code);
    let e9 = lit_extension();
    let e10 = js_string(m.extension);
    let a1 = e1.len() as int;
    let a2 = a1 + e2.len();
    let a3 = a2 + e3.len();
    let a4 = a3 + e4.len();
    let a5 = a4 + e5.len();
    let a6 = a5 + e6.len();
    let a7 = a6 + e7.len();
    let a8 = a7 + e8.len();
    let a9 = a8 + e9.len();
    let a10 = a9 + e10.len();
    assert(rl == a10);
    lemma_cslice_of_slice(b, pos, rl, 0, a1);
    assert(r.subrange(0, a1) =~= e1);
    lemma_p_lit_at(b, pos, e1);
    lemma_cslice_of_slice(b, pos, rl, a1, a2);
    assert(r.subrange(a1, a2) =~= e2);
    lemma_cslice_of_slice(b, pos, rl, a2, a3);
    assert(r.subrange(a2, a3) =~= e3);
    assert(b.subrange(pos + a2, pos + a3) == e3);
    assert(b[pos + a2 + 0] == b.subrange(pos + a2, pos + a3)[0]);
    assert(b[pos + a2] == ',');
    assert(!is_digit(b[pos + a2]));
    assert(0 <= m.index <= usize::MAX);
    assert(((m.index as u64) as int) == m.index);
    assert(spec_fmt_u64((m.index as u64) as int) == e2);
    lemma_p_u64_at(b, pos + a1, m.index as u64);
    lemma_p_lit_at(b, pos + a2, e3);
    lemma_cslice_of_slice(b, pos, rl, a3, a4);
    assert(r.subrange(a3, a4) =~= e4);
    lemma_p_string_at(b, pos + a3, m.description);
    lemma_cslice_of_slice(b, pos, rl, a4, a5);
    assert(r.subrange(a4, a5) =~= e5);
    lemma_p_lit_at(b, pos + a4, e5);
    lemma_cslice_of_slice(b, pos, rl, a5, a6);
    assert(r.subrange(a5, a6) =~= e6);
    lemma_p_string_at(b, pos + a5, m.language);
    lemma_cslice_of_slice(b, pos, rl, a6, a7);
    assert(r.subrange(a6, a7) =~= e7);
    lemma_p_lit_at(b, pos + a6, e7);
    lemma_cslice_of_slice(b, pos, rl, a7, a8);
    assert(r.subrange(a7, a8) =~= e8);
    lemma_p_string_at(b, pos + a7, m.code);
    lemma_cslice_of_slice(b, pos, rl, a8, a9);
    assert(r.subrange(a8, a9) =~= e9);
    lemma_p_lit_at(b, pos + a8, e9);
    lemma_cslice_of_slice(b, pos, rl, a9, a10);
    assert(r.subrange(a9, a10) =~= e10);
    lemma_p_string_at(b, pos + a9, m.extension);
    assert((m.index as u64) <= usize::MAX as u64);
}

/// Importing an exported record yields the record, field for field,
/// wherever it stands in a stream.
pub proof fn lemma_structural_round_trip_at(b: Seq<char>, pos: int, m: SnippetModel)
    requires
        m.wf(),
        record_region(m, b, pos),
    ensures
        p_record(b, pos) == (Some((m, pos + spec_structural_encode(m).len()))),
{
    let r = spec_structural_encode(m);
    let rl = r.len() as int;
    let head = spec_encode_head(m);
    let tail = spec_encode_tail(m);
    let hl = head.len() as int;
    assert(rl == hl + tail.len());
    lemma_cslice_of_slice(b, pos, rl, 0, hl);
    assert(r.subrange(0, hl) =~= head);
    lemma_cslice_of_slice(b, pos, rl, hl, rl);
    assert(r.subrange(hl, rl) =~= tail);
    assert(b.subrange(pos + hl, pos + rl) == tail);
    assert(b[pos + hl + 0] == b.subrange(pos + hl, pos + rl)[0]);
    assert(tail[0] == lit_tags()[0]);
    assert(b[pos + hl] == ',');
    assert(head_region(m, b, pos));
    lemma_record_head_at(b, pos, m);
    assert(tail_region(m, b, pos + hl));
    lemma_record_tail_at(b, pos + hl, m, m.index as u64);
}

/// Decoding an encoded record as a stream of its own yields the record.
pub proof fn lemma_structural_round_trip(m: SnippetModel)
    requires
        m.wf(),
    ensures
        p_record(spec_structural_encode(m), 0) == (Some(
            (m, spec_structural_encode(m).len() as int),
        )),
{
    let r = spec_structural_encode(m);
    assert(r.subrange(0, r.len() as int) =~= r);
    lemma_structural_round_trip_at(r, 0, m);
}

} // verus!
