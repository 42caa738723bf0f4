//! A pretty-printed JSON form for the extracted content, written and read
//! back by verified code.
//!
//! The exact text produced for a value is pinned down by the spec function
//! `json_of`; `to_json` produces it and `parse_pdf_content` reads it back.
//! Parsing the text produced for a value yields that value again: see
//! `lemma_json_round_trip`.
use crate::content::{Page, PageView, PdfContent, PdfContentView};
use vstd::prelude::*;

verus! {

// ---------------------------------------------------------------------------
// The text of a value, at the spec level.
// ---------------------------------------------------------------------------
/// The decimal digit for `d` (`d < 10`).
pub open spec fn digit_char(d: nat) -> char {
    (((48 + d) as u8) as char)
}

/// The lower-case hexadecimal digit for `d` (`d < 16`).
pub open spec fn hex_char(d: nat) -> char {
    if d < 10 {
        (((48 + d) as u8) as char)
    } else {
        (((87 + d) as u8) as char)
    }
}

/// The decimal digits of `n`, most significant first, without leading zeros.
pub open spec fn decimal(n: nat) -> Seq<char>
    decreases n,
{
    if n < 10 {
        seq![digit_char(n)]
    } else {
        decimal(n / 10) + seq![digit_char(n % 10)]
    }
}

/// Backspace, tab, line feed, form feed and carriage return have short
/// escapes of their own.
pub open spec fn has_short_escape(c: char) -> bool {
    c == '\u{8}' || c == '\t' || c == '\n' || c == '\u{c}' || c == '\r'
}

/// The letter of a short escape: `\b`, `\t`, `\n`, `\f` or `\r`.
pub open spec fn short_escape_letter(c: char) -> char {
    if c == '\u{8}' {
        'b'
    } else if c == '\t' {
        't'
    } else if c == '\n' {
        'n'
    } else if c == '\u{c}' {
        'f'
    } else {
        'r'
    }
}

/// The character a short escape letter stands for.
pub open spec fn short_escape_value(letter: char) -> char {
    if letter == 'b' {
        '\u{8}'
    } else if letter == 't' {
        '\t'
    } else if letter == 'n' {
        '\n'
    } else if letter == 'f' {
        '\u{c}'
    } else {
        '\r'
    }
}

/// How one character appears inside a JSON string: quote and backslash carry
/// a backslash escape, five control characters their short escapes, the other
/// control characters become `\u00XX`, everything else stands as itself.
pub open spec fn escape_char(c: char) -> Seq<char> {
    if c == '"' {
        seq!['\\', '"']
    } else if c == '\\' {
        seq!['\\', '\\']
    } else if has_short_escape(c) {
        seq!['\\', short_escape_letter(c)]
    } else if (c as u32) < 32 {
        seq![
            '\\',
            'u',
            '0',
            '0',
            hex_char(((c as u32) / 16) as nat),
            hex_char(((c as u32) % 16) as nat),
        ]
    } else {
        seq![c]
    }
}

/// The body of a JSON string: each character escaped as `escape_char` says.
pub open spec fn escape(s: Seq<char>) -> Seq<char>
    decreases s.len(),
{
    if s.len() == 0 {
        Seq::empty()
    } else {
        escape_char(s[0]) + escape(s.skip(1))
    }
}

/// The text of one page entry, indented for its place inside the array.
pub open spec fn json_of_page(p: PageView) -> Seq<char> {
    "    {\n      \"page_number\": "@ + decimal(p.page_number as nat) + seq![',']
        + "\n      \"content\": \""@ + escape(p.content) + seq!['"'] + "\n    }"@
}

/// The page entries joined by `,\n`.
pub open spec fn json_of_pages(ps: Seq<PageView>) -> Seq<char>
    decreases ps.len(),
{
    if ps.len() == 0 {
        Seq::empty()
    } else if ps.len() == 1 {
        json_of_page(ps[0])
    } else {
        json_of_page(ps[0]) + seq![',', '\n'] + json_of_pages(ps.skip(1))
    }
}

/// Everything up to and including the opening bracket of the page array.
pub open spec fn json_head(c: PdfContentView) -> Seq<char> {
    "{\n  \"file_name\": \""@ + escape(c.file_name) + seq!['"'] + ",\n  \"total_pages\": "@
        + decimal(c.total_pages) + seq![','] + "\n  \"pages\": ["@
}

/// The page array's inside and the closing of the document.
pub open spec fn json_tail(c: PdfContentView) -> Seq<char> {
    if c.pages.len() == 0 {
        seq![']'] + "\n}"@
    } else {
        seq!['\n'] + json_of_pages(c.pages) + seq!['\n'] + "  ]\n}"@
    }
}

/// The whole pretty-printed JSON document for a value.
pub open spec fn json_of(c: PdfContentView) -> Seq<char> {
    json_head(c) + json_tail(c)
}

// ---------------------------------------------------------------------------
// Producing the text.
// ---------------------------------------------------------------------------
/// Relies on `String::from_iter` over `char`s: the string collects exactly
/// the characters handed to it, in order.
#[verifier::external_body]
fn chars_to_string(v: Vec<char>) -> (r: String)
    ensures
        r@ == v@,
{
    String::from_iter(v.into_iter())
}

/// Appends the characters of a literal.
fn append_lit(out: &mut Vec<char>, lit: &str)
    ensures
        final(out)@ == old(out)@ + lit@,
{
    let n = lit.unicode_len();
    let mut i: usize = 0;
    while i < n
        invariant
            i <= n,
            n == lit@.len(),
            out@ == old(out)@ + lit@.take(i as int),
        decreases n - i,
    {
        let c = lit.get_char(i);
        out.push(c);
        proof {
            assert(lit@.take(i + 1) =~= lit@.take(i as int).push(lit@[i as int]));
            assert(out@ =~= old(out)@ + lit@.take(i + 1));
        }
        i = i + 1;
    }
    proof {
        assert(lit@.take(n as int) =~= lit@);
    }
}

/// The lower-case hexadecimal digit for `d`.
fn hex_digit(d: u32) -> (c: char)
    requires
        d < 16,
    ensures
        c == hex_char(d as nat),
{
    if d < 10 {
        ((48 + d) as u8) as char
    } else {
        ((87 + d) as u8) as char
    }
}

/// Appends the decimal digits of `n`.
fn append_decimal(out: &mut Vec<char>, n: u64)
    ensures
        final(out)@ == old(out)@ + decimal(n as nat),
    decreases n,
{
    if n < 10 {
        out.push(((48 + n as u32) as u8) as char);
    } else {
        append_decimal(out, n / 10);
        out.push(((48 + (n % 10) as u32) as u8) as char);
        proof {
            assert(out@ =~= old(out)@ + (decimal((n / 10) as nat) + seq![
                digit_char((n % 10) as nat),
            ]));
        }
    }
}

proof fn lemma_escape_snoc(s: Seq<char>, k: int)
    requires
        0 <= k < s.len(),
    ensures
        escape(s.take(k + 1)) == escape(s.take(k)) + escape_char(s[k]),
    decreases k,
{
    if k == 0 {
        let t = s.take(1);
        assert(t.len() == 1);
        assert(t[0] == s[0]);
        assert(t.skip(1) =~= Seq::<char>::empty());
        assert(escape(t) == escape_char(t[0]) + escape(t.skip(1)));
        assert(escape(Seq::<char>::empty()) == Seq::<char>::empty());
        assert(s.take(0) =~= Seq::<char>::empty());
        assert(escape(s.take(1)) =~= escape(s.take(0)) + escape_char(s[0]));
    } else {
        lemma_escape_snoc(s.skip(1), k - 1);
        assert(s.take(k + 1).skip(1) =~= s.skip(1).take(k));
        assert(s.take(k).skip(1) =~= s.skip(1).take(k - 1));
        assert(s.skip(1)[k - 1] == s[k]);
        assert(escape(s.take(k + 1)) == escape_char(s[0]) + escape(s.skip(1).take(k)));
        assert(escape(s.take(k)) == escape_char(s[0]) + escape(s.skip(1).take(k - 1)));
        assert(escape(s.take(k + 1)) =~= escape(s.take(k)) + escape_char(s[k]));
    }
}

/// Appends the escaped body of a JSON string.
fn append_escaped(out: &mut Vec<char>, s: &String)
    ensures
        final(out)@ == old(out)@ + escape(s@),
{
    let text = s.as_str();
    let n = text.unicode_len();
    let mut i: usize = 0;
    while i < n
        invariant
            i <= n,
            n == text@.len(),
            text@ == s@,
            out@ == old(out)@ + escape(s@.take(i as int)),
        decreases n - i,
    {
        let c = text.get_char(i);
        if c == '"' {
            out.push('\\');
            out.push('"');
        } else if c == '\\' {
            out.push('\\');
            out.push('\\');
        } else if c == '\u{8}' {
            out.push('\\');
            out.push('b');
        } else if c == '\t' {
            out.push('\\');
            out.push('t');
        } else if c == '\n' {
            out.push('\\');
            out.push('n');
        } else if c == '\u{c}' {
            out.push('\\');
            out.push('f');
        } else if c == '\r' {
            out.push('\\');
            out.push('r');
        } else if (c as u32) < 32 {
            let code = c as u32;
            out.push('\\');
            out.push('u');
            out.push('0');
            out.push('0');
            out.push(hex_digit(code / 16));
            out.push(hex_digit(code % 16));
        } else {
            out.push(c);
        }
        proof {
            lemma_escape_snoc(s@, i as int);
            assert(out@ =~= old(out)@ + escape(s@.take(i + 1)));
        }
        i = i + 1;
    }
    proof {
        assert(s@.take(n as int) =~= s@);
    }
}

/// Appends the text of one page entry.
fn append_page(out: &mut Vec<char>, p: &Page)
    ensures
        final(out)@ == old(out)@ + json_of_page(p@),
{
    append_lit(out, "    {\n      \"page_number\": ");
    append_decimal(out, p.page_number as u64);
    out.push(',');
    append_lit(out, "\n      \"content\": \"");
    append_escaped(out, &p.content);
    out.push('"');
    append_lit(out, "\n    }");
    proof {
        assert(out@ =~= old(out)@ + json_of_page(p@));
    }
}

proof fn lemma_json_of_pages_snoc(ps: Seq<PageView>, k: int)
    requires
        0 <= k < ps.len(),
    ensures
        k == 0 ==> json_of_pages(ps.take(1)) == json_of_page(ps[0]),
        k > 0 ==> json_of_pages(ps.take(k + 1)) == json_of_pages(ps.take(k)) + seq![',', '\n']
            + json_of_page(ps[k]),
    decreases k,
{
    if k == 0 {
        assert(ps.take(1) =~= seq![ps[0]]);
    } else {
        lemma_json_of_pages_snoc(ps.skip(1), k - 1);
        assert(ps.take(k + 1).skip(1) =~= ps.skip(1).take(k));
        assert(ps.take(k).skip(1) =~= ps.skip(1).take(k - 1));
        assert(ps.skip(1)[k - 1] == ps[k]);
        assert(ps.take(k + 1)[0] == ps[0]);
        assert(ps.take(k + 1).len() == k + 1);
        if k == 1 {
            assert(json_of_pages(ps.take(2)) == json_of_page(ps[0]) + seq![',', '\n']
                + json_of_pages(ps.skip(1).take(1)));
            assert(ps.take(1) =~= seq![ps[0]]);
            assert(json_of_pages(ps.take(k + 1)) =~= json_of_pages(ps.take(k)) + seq![',', '\n']
                + json_of_page(ps[k]));
        } else {
            assert(json_of_pages(ps.take(k + 1)) == json_of_page(ps[0]) + seq![',', '\n']
                + json_of_pages(ps.skip(1).take(k)));
            assert(json_of_pages(ps.take(k)) == json_of_page(ps[0]) + seq![',', '\n']
                + json_of_pages(ps.skip(1).take(k - 1)));
            assert(json_of_pages(ps.take(k + 1)) =~= json_of_pages(ps.take(k)) + seq![',', '\n']
                + json_of_page(ps[k]));
        }
    }
}

/// Renders a value as the pretty-printed JSON document that `json_of`
/// describes: the object's keys in schema order, one page entry per page.
pub fn to_json(c: &PdfContent) -> (r: String)
    ensures
        r@ == json_of(c@),
{
    let mut out: Vec<char> = Vec::new();
    append_lit(&mut out, "{\n  \"file_name\": \"");
    append_escaped(&mut out, &c.file_name);
    out.push('"');
    append_lit(&mut out, ",\n  \"total_pages\": ");
    append_decimal(&mut out, c.total_pages as u64);
    out.push(',');
    append_lit(&mut out, "\n  \"pages\": [");
    proof {
        assert(out@ =~= json_head(c@));
    }
    if c.pages.len() == 0 {
        out.push(']');
        append_lit(&mut out, "\n}");
        proof {
            assert(out@ =~= json_head(c@) + json_tail(c@));
        }
    } else {
        out.push('\n');
        let ghost pvs: Seq<PageView> = c@.pages;
        let mut i: usize = 0;
        while i < c.pages.len()
            invariant
                i <= c.pages.len(),
                pvs == c@.pages,
                pvs.len() == c.pages.len(),
                out@ == json_head(c@) + seq!['\n'] + json_of_pages(pvs.take(i as int)),
            decreases c.pages.len() - i,
        {
            if i > 0 {
                out.push(',');
                out.push('\n');
            }
            append_page(&mut out, &c.pages[i]);
            proof {
                lemma_json_of_pages_snoc(pvs, i as int);
                assert((&c.pages[i as int])@ == pvs[i as int]);
                assert(out@ =~= json_head(c@) + seq!['\n'] + json_of_pages(pvs.take(i + 1)));
            }
            i = i + 1;
        }
        out.push('\n');
        append_lit(&mut out, "  ]\n}");
        proof {
            assert(pvs.take(pvs.len() as int) =~= pvs);
            assert(out@ =~= json_head(c@) + json_tail(c@));
        }
    }
    chars_to_string(out)
}

// ---------------------------------------------------------------------------
// Reading the text back, at the spec level.
// ---------------------------------------------------------------------------
/// A decimal digit.
pub open spec fn is_digit(c: char) -> bool {
    48 <= (c as u32) && (c as u32) <= 57
}

/// The value of a decimal digit.
pub open spec fn digit_val(c: char) -> nat {
    (((c as u32) - 48)) as nat
}

/// A lower-case hexadecimal digit.
pub open spec fn is_hex_lower(c: char) -> bool {
    is_digit(c) || (97 <= (c as u32) && (c as u32) <= 102)
}

/// The value of a lower-case hexadecimal digit.
pub open spec fn hex_val(c: char) -> nat {
    if is_digit(c) {
        digit_val(c)
    } else {
        (((c as u32) - 87)) as nat
    }
}

/// Consumes the exact characters of `l` from the front of `s`.
pub open spec fn lit_parse(l: Seq<char>, s: Seq<char>) -> Option<Seq<char>> {
    if l.len() <= s.len() && s.take(l.len() as int) == l {
        Some(s.skip(l.len() as int))
    } else {
        None
    }
}

/// Consumes a run of digits, folding them onto `acc`; stops at the first
/// non-digit.
pub open spec fn number_run(s: Seq<char>, acc: nat) -> (nat, Seq<char>)
    decreases s.len(),
{
    if s.len() > 0 && is_digit(s[0]) {
        number_run(s.skip(1), acc * 10 + digit_val(s[0]))
    } else {
        (acc, s)
    }
}

/// Consumes a nonempty run of digits and yields its value.
pub open spec fn number_parse(s: Seq<char>) -> Option<(nat, Seq<char>)> {
    if s.len() > 0 && is_digit(s[0]) {
        Some(number_run(s, 0))
    } else {
        None
    }
}

/// Consumes a JSON string body up to and including its closing quote,
/// undoing the escapes that `escape_char` introduces. Raw control characters
/// and malformed escapes are refused.
pub open spec fn string_parse(s: Seq<char>) -> Option<(Seq<char>, Seq<char>)>
    decreases s.len(),
{
    if s.len() == 0 {
        None
    } else if s[0] == '"' {
        Some((Seq::empty(), s.skip(1)))
    } else if s[0] == '\\' {
        if s.len() >= 2 && (s[1] == '"' || s[1] == '\\') {
            match string_parse(s.skip(2)) {
                Some(tr) => Some((seq![s[1]] + tr.0, tr.1)),
                None => None,
            }
        } else if s.len() >= 2 && (s[1] == 'b' || s[1] == 't' || s[1] == 'n' || s[1] == 'f' || s[1]
            == 'r') {
            match string_parse(s.skip(2)) {
                Some(tr) => Some((seq![short_escape_value(s[1])] + tr.0, tr.1)),
                None => None,
            }
        } else if s.len() >= 6 && s[1] == 'u' && s[2] == '0' && s[3] == '0' && is_hex_lower(s[4])
            && is_hex_lower(s[5]) {
            match string_parse(s.skip(6)) {
                Some(tr) => Some(
                    (seq![(((hex_val(s[4]) * 16 + hex_val(s[5])) as u8) as char)] + tr.0, tr.1),
                ),
                None => None,
            }
        } else {
            None
        }
    } else if ((s[0] as u32) < 32) {
        None
    } else {
        match string_parse(s.skip(1)) {
            Some(tr) => Some((seq![s[0]] + tr.0, tr.1)),
            None => None,
        }
    }
}

/// Consumes one page entry.
pub open spec fn page_parse(s: Seq<char>) -> Option<(PageView, Seq<char>)> {
    match lit_parse("    {\n      \"page_number\": "@, s) {
        Some(s1) => match number_parse(s1) {
            Some((n, s2)) => if n <= u32::MAX {
                match lit_parse(seq![','] + "\n      \"content\": \""@, s2) {
                    Some(s3) => match string_parse(s3) {
                        Some((t, s4)) => match lit_parse("\n    }"@, s4) {
                            Some(s5) => Some(
                                (PageView { page_number: n as u32, content: t }, s5),
                            ),
                            None => None,
                        },
                        None => None,
                    },
                    None => None,
                }
            } else {
                None
            },
            None => None,
        },
        None => None,
    }
}

proof fn lemma_number_run_shrinks(s: Seq<char>, acc: nat)
    ensures
        number_run(s, acc).1.len() <= s.len(),
    decreases s.len(),
{
    if s.len() > 0 && is_digit(s[0]) {
        lemma_number_run_shrinks(s.skip(1), acc * 10 + digit_val(s[0]));
    }
}

proof fn lemma_string_parse_shrinks(s: Seq<char>)
    ensures
        string_parse(s) matches Some(tr) ==> tr.1.len() < s.len(),
    decreases s.len(),
{
    if s.len() == 0 {
    } else if s[0] == '"' {
    } else if s[0] == '\\' {
        if s.len() >= 2 && (s[1] == '"' || s[1] == '\\') {
            lemma_string_parse_shrinks(s.skip(2));
        } else if s.len() >= 2 && (s[1] == 'b' || s[1] == 't' || s[1] == 'n' || s[1] == 'f' || s[1]
            == 'r') {
            lemma_string_parse_shrinks(s.skip(2));
        } else if s.len() >= 6 && s[1] == 'u' && s[2] == '0' && s[3] == '0' && is_hex_lower(s[4])
            && is_hex_lower(s[5]) {
            lemma_string_parse_shrinks(s.skip(6));
        }
    } else {
        lemma_string_parse_shrinks(s.skip(1));
    }
}

proof fn lemma_page_parse_shrinks(s: Seq<char>)
    ensures
        page_parse(s) matches Some(pr) ==> pr.1.len() < s.len(),
{
    if let Some(s1) = lit_parse("    {\n      \"page_number\": "@, s) {
        assert(s1.len() <= s.len());
        if let Some((n, s2)) = number_parse(s1) {
            lemma_number_run_shrinks(s1, 0);
            assert(s2.len() <= s1.len());
            if n <= u32::MAX {
                if let Some(s3) = lit_parse(seq![','] + "\n      \"content\": \""@, s2) {
                    assert(s3.len() < s2.len());
                    lemma_string_parse_shrinks(s3);
                }
            }
        }
    }
}

/// Consumes one or more page entries joined by `,\n`.
pub open spec fn pages_parse(s: Seq<char>) -> Option<(Seq<PageView>, Seq<char>)>
    decreases s.len(),
    via pages_parse_decreases
{
    match page_parse(s) {
        Some((p, r)) => {
            if r.len() == 0 || r[0] != ',' {
                Some((seq![p], r))
            } else if r.len() >= 2 && r[1] == '\n' {
                match pages_parse(r.skip(2)) {
                    Some((more, r2)) => Some((seq![p] + more, r2)),
                    None => None,
                }
            } else {
                None
            }
        },
        None => None,
    }
}

#[via_fn]
proof fn pages_parse_decreases(s: Seq<char>) {
    lemma_page_parse_shrinks(s);
}

/// Reads a whole document: the object with its three keys in schema order,
/// nothing before or after it.
pub open spec fn content_parse(s: Seq<char>) -> Option<PdfContentView> {
    match lit_parse("{\n  \"file_name\": \""@, s) {
        Some(s1) => match string_parse(s1) {
            Some((name, s2)) => match lit_parse(",\n  \"total_pages\": "@, s2) {
                Some(s3) => match number_parse(s3) {
                    Some((total, s4)) => if total <= usize::MAX {
                        match lit_parse(seq![','] + "\n  \"pages\": ["@, s4) {
                            Some(s5) => if s5.len() > 0 && s5[0] == ']' {
                                match lit_parse(seq![']'] + "\n}"@, s5) {
                                    Some(s6) => if s6.len() == 0 {
                                        Some(
                                            PdfContentView {
                                                file_name: name,
                                                total_pages: total,
                                                pages: Seq::empty(),
                                            },
                                        )
                                    } else {
                                        None
                                    },
                                    None => None,
                                }
                            } else {
                                match lit_parse(seq!['\n'], s5) {
                                    Some(s6) => match pages_parse(s6) {
                                        Some((ps, s7)) => match lit_parse(
                                            seq!['\n'] + "  ]\n}"@,
                                            s7,
                                        ) {
                                            Some(s8) => if s8.len() == 0 {
                                                Some(
                                                    PdfContentView {
                                                        file_name: name,
                                                        total_pages: total,
                                                        pages: ps,
                                                    },
                                                )
                                            } else {
                                                None
                                            },
                                            None => None,
                                        },
                                        None => None,
                                    },
                                    None => None,
                                }
                            },
                            None => None,
                        }
                    } else {
                        None
                    },
                    None => None,
                },
                None => None,
            },
            None => None,
        },
        None => None,
    }
}

// ---------------------------------------------------------------------------
// Reading the text back.
// ---------------------------------------------------------------------------
/// One more than the largest value the number accumulator reports exactly;
/// every count the schema can hold lies below it.
const NUMBER_CAP: u128 = 0x1_0000_0000_0000_0000;

/// The characters of a string, one by one.
fn str_to_chars(s: &str) -> (r: Vec<char>)
    ensures
        r@ == s@,
{
    let n = s.unicode_len();
    let mut out: Vec<char> = Vec::new();
    let mut i: usize = 0;
    while i < n
        invariant
            i <= n,
            n == s@.len(),
            out@ == s@.take(i as int),
        decreases n - i,
    {
        out.push(s.get_char(i));
        proof {
            assert(out@ =~= s@.take(i + 1));
        }
        i = i + 1;
    }
    proof {
        assert(s@.take(n as int) =~= s@);
    }
    out
}

/// Consumes the characters of `lit` at position `i`, as `lit_parse` says.
fn eat_lit(s: &Vec<char>, i: usize, lit: &str) -> (r: Option<usize>)
    requires
        i <= s@.len(),
    ensures
        r matches Some(j) ==> i <= j <= s@.len() && lit_parse(lit@, s@.skip(i as int)) == Some(
            s@.skip(j as int),
        ),
        r is None ==> lit_parse(lit@, s@.skip(i as int)) is None,
{
    let m = lit.unicode_len();
    let n = s.len();
    if n - i < m {
        return None;
    }
    let mut k: usize = 0;
    while k < m
        invariant
            k <= m,
            i <= s@.len(),
            n == s@.len(),
            m == lit@.len(),
            s@.len() - i >= m,
            forall|t: int| 0 <= t < k ==> s@[i + t] == lit@[t],
        decreases m - k,
    {
        if s[i + k] != lit.get_char(k) {
            proof {
                let rest = s@.skip(i as int);
                assert(rest[k as int] == s@[i + k]);
                assert(lit_parse(lit@, rest) is None) by {
                    if lit@.len() <= rest.len() && rest.take(lit@.len() as int) == lit@ {
                        assert(rest.take(lit@.len() as int)[k as int] == lit@[k as int]);
                        assert(rest[k as int] == lit@[k as int]);
                    }
                }
            }
            return None;
        }
        k = k + 1;
    }
    let j = i + m;
    proof {
        let rest = s@.skip(i as int);
        assert(rest.take(m as int) =~= lit@);
        assert(rest.skip(m as int) =~= s@.skip(j as int));
    }
    Some(j)
}

/// Consumes a run of digits at position `i`, reporting its exact value when
/// it lies below `NUMBER_CAP` and `NUMBER_CAP` itself otherwise.
fn parse_number_at(s: &Vec<char>, i: usize) -> (r: Option<(u128, usize)>)
    requires
        i <= s@.len(),
    ensures
        r matches Some(vj) ==> {
            &&& i < vj.1 <= s@.len()
            &&& number_parse(s@.skip(i as int)) matches Some(nr) && nr.1 == s@.skip(vj.1 as int)
                && (nr.0 < NUMBER_CAP ==> vj.0 == nr.0) && (nr.0 >= NUMBER_CAP ==> vj.0
                == NUMBER_CAP)
        },
        r is None ==> number_parse(s@.skip(i as int)) is None,
{
    let n = s.len();
    if i >= n {
        return None;
    }
    let c0 = s[i];
    let code0 = c0 as u32;
    if !(48 <= code0 && code0 <= 57) {
        return None;
    }
    let mut j: usize = i;
    let mut acc: u128 = 0;
    let ghost mut v: nat = 0nat;
    proof {
        assert(s@.skip(i as int)[0] == s@[i as int]);
        assert(is_digit(s@[i as int]));
    }
    while j < n && is_digit_char(s[j])
        invariant
            i <= j <= n,
            n == s@.len(),
            number_run(s@.skip(i as int), 0) == number_run(s@.skip(j as int), v),
            v < NUMBER_CAP ==> acc == v,
            v >= NUMBER_CAP ==> acc == NUMBER_CAP,
            acc <= NUMBER_CAP,
            j == i ==> v == 0,
        decreases n - j,
    {
        let c = s[j];
        let code = c as u32;
        let d = (code - 48) as u128;
        let ghost v_old: nat = v;
        proof {
            v = v * 10 + digit_val(s@[j as int]);
            assert(s@.skip(j as int)[0] == s@[j as int]);
            assert(s@.skip(j as int).skip(1) =~= s@.skip(j + 1));
            assert(number_run(s@.skip(j as int), v_old) == number_run(s@.skip(j + 1), v));
        }
        let cand = acc * 10 + d;
        if cand > NUMBER_CAP {
            acc = NUMBER_CAP;
        } else {
            acc = cand;
        }
        j = j + 1;
    }
    proof {
        if j < n {
            assert(!is_digit(s@[j as int]));
        }
        assert(s@.skip(j as int).len() > 0 ==> s@.skip(j as int)[0] == s@[j as int]);
        assert(number_run(s@.skip(j as int), v) == (v, s@.skip(j as int)));
        assert(j > i);
    }
    Some((acc, j))
}

/// Whether a character is a decimal digit.
fn is_digit_char(c: char) -> (b: bool)
    ensures
        b == is_digit(c),
{
    let code = c as u32;
    48 <= code && code <= 57
}

/// The value of a lower-case hexadecimal digit.
fn hex_value(c: char) -> (d: u32)
    requires
        is_hex_lower(c),
    ensures
        d as nat == hex_val(c),
        d < 16,
{
    let code = c as u32;
    if code <= 57 {
        code - 48
    } else {
        code - 87
    }
}

/// Consumes a JSON string body at position `i`, as `string_parse` says.
fn parse_string_at(s: &Vec<char>, i: usize) -> (r: Option<(Vec<char>, usize)>)
    requires
        i <= s@.len(),
    ensures
        r matches Some(tj) ==> i < tj.1 <= s@.len() && string_parse(s@.skip(i as int)) == Some(
            (tj.0@, s@.skip(tj.1 as int)),
        ),
        r is None ==> string_parse(s@.skip(i as int)) is None,
    decreases s@.len() - i,
{
    let n = s.len();
    if i >= n {
        return None;
    }
    let ghost rest = s@.skip(i as int);
    proof {
        assert(rest[0] == s@[i as int]);
    }
    let c = s[i];
    if c == '"' {
        proof {
            assert(rest.skip(1) =~= s@.skip(i + 1));
        }
        let empty: Vec<char> = Vec::new();
        proof {
            assert(empty@ =~= Seq::<char>::empty());
        }
        return Some((empty, i + 1));
    }
    if c == '\\' {
        if n - i >= 2 && (s[i + 1] == '"' || s[i + 1] == '\\') {
            proof {
                assert(rest[1] == s@[i + 1]);
                assert(rest.skip(2) =~= s@.skip(i + 2));
            }
            match parse_string_at(s, i + 2) {
                Some((t, j)) => {
                    let mut t2 = t;
                    let e = s[i + 1];
                    t2.insert(0, e);
                    proof {
                        assert(t2@ =~= seq![s@[i + 1]] + t2@.skip(1));
                        assert(t2@.skip(1) =~= t@);
                    }
                    Some((t2, j))
                },
                None => None,
            }
        } else if n - i >= 2 && (s[i + 1] == 'b' || s[i + 1] == 't' || s[i + 1] == 'n' || s[i + 1]
            == 'f' || s[i + 1] == 'r') {
            proof {
                assert(rest[1] == s@[i + 1]);
                assert(rest.skip(2) =~= s@.skip(i + 2));
            }
            match parse_string_at(s, i + 2) {
                Some((t, j)) => {
                    let letter = s[i + 1];
                    let e: char = if letter == 'b' {
                        '\u{8}'
                    } else if letter == 't' {
                        '\t'
                    } else if letter == 'n' {
                        '\n'
                    } else if letter == 'f' {
                        '\u{c}'
                    } else {
                        '\r'
                    };
                    let mut t2 = t;
                    t2.insert(0, e);
                    proof {
                        assert(e == short_escape_value(rest[1]));
                        assert(t2@ =~= seq![e] + t2@.skip(1));
                        assert(t2@.skip(1) =~= t@);
                    }
                    Some((t2, j))
                },
                None => None,
            }
        } else if n - i >= 6 && s[i + 1] == 'u' && s[i + 2] == '0' && s[i + 3] == '0' && {
            let c4 = s[i + 4];
            let code4 = c4 as u32;
            (48 <= code4 && code4 <= 57) || (97 <= code4 && code4 <= 102)
        } && {
            let c5 = s[i + 5];
            let code5 = c5 as u32;
            (48 <= code5 && code5 <= 57) || (97 <= code5 && code5 <= 102)
        } {
            proof {
                assert(rest[1] == s@[i + 1]);
                assert(rest[2] == s@[i + 2]);
                assert(rest[3] == s@[i + 3]);
                assert(rest[4] == s@[i + 4]);
                assert(rest[5] == s@[i + 5]);
                assert(rest.skip(6) =~= s@.skip(i + 6));
            }
            match parse_string_at(s, i + 6) {
                Some((t, j)) => {
                    let hi = hex_value(s[i + 4]);
                    let lo = hex_value(s[i + 5]);
                    let code = hi * 16 + lo;
                    let e = (code as u8) as char;
                    let mut t2 = t;
                    t2.insert(0, e);
                    proof {
                        assert(t2@ =~= seq![e] + t2@.skip(1));
                        assert(t2@.skip(1) =~= t@);
                        assert(code as nat == hex_val(rest[4]) * 16 + hex_val(rest[5]));
                    }
                    Some((t2, j))
                },
                None => None,
            }
        } else {
            proof {
                if rest.len() >= 2 {
                    assert(rest[1] == s@[i + 1]);
                }
                if rest.len() >= 6 {
                    assert(rest[2] == s@[i + 2]);
                    assert(rest[3] == s@[i + 3]);
                    assert(rest[4] == s@[i + 4]);
                    assert(rest[5] == s@[i + 5]);
                }
            }
            None
        }
    } else if (c as u32) < 32 {
        None
    } else {
        proof {
            assert(rest.skip(1) =~= s@.skip(i + 1));
        }
        match parse_string_at(s, i + 1) {
            Some((t, j)) => {
                let mut t2 = t;
                t2.insert(0, c);
                proof {
                    assert(t2@ =~= seq![c] + t2@.skip(1));
                    assert(t2@.skip(1) =~= t@);
                }
                Some((t2, j))
            },
            None => None,
        }
    }
}

/// Consumes one page entry at position `i`, as `page_parse` says.
fn parse_page_at(s: &Vec<char>, i: usize) -> (r: Option<(Page, usize)>)
    requires
        i <= s@.len(),
    ensures
        r matches Some(pj) ==> i <= pj.1 <= s@.len() && page_parse(s@.skip(i as int)) == Some(
            (pj.0@, s@.skip(pj.1 as int)),
        ),
        r is None ==> page_parse(s@.skip(i as int)) is None,
{
    proof {
        reveal_strlit(",\n      \"content\": \"");
        reveal_strlit("\n      \"content\": \"");
        assert(",\n      \"content\": \""@ =~= seq![','] + "\n      \"content\": \""@);
    }
    let j1 = match eat_lit(s, i, "    {\n      \"page_number\": ") {
        Some(j) => j,
        None => {
            return None;
        },
    };
    let (v, j2) = match parse_number_at(s, j1) {
        Some(x) => x,
        None => {
            return None;
        },
    };
    if v > u32::MAX as u128 {
        return None;
    }
    let page_number = v as u32;
    let j3 = match eat_lit(s, j2, ",\n      \"content\": \"") {
        Some(j) => j,
        None => {
            return None;
        },
    };
    let (t, j4) = match parse_string_at(s, j3) {
        Some(x) => x,
        None => {
            return None;
        },
    };
    let j5 = match eat_lit(s, j4, "\n    }") {
        Some(j) => j,
        None => {
            return None;
        },
    };
    let content = chars_to_string(t);
    Some((Page { page_number, content }, j5))
}

/// Consumes one or more page entries joined by `,\n`, as `pages_parse` says.
fn parse_pages_at(s: &Vec<char>, i: usize) -> (r: Option<(Vec<Page>, usize)>)
    requires
        i <= s@.len(),
    ensures
        r matches Some(pj) ==> i <= pj.1 <= s@.len() && pages_parse(s@.skip(i as int)) == Some(
            (pj.0@.map_values(|p: Page| p@), s@.skip(pj.1 as int)),
        ),
        r is None ==> pages_parse(s@.skip(i as int)) is None,
    decreases s@.len() - i,
{
    let n = s.len();
    let (page, j) = match parse_page_at(s, i) {
        Some(x) => x,
        None => {
            return None;
        },
    };
    if j == n || s[j] != ',' {
        proof {
            if j < n {
                assert(s@.skip(j as int)[0] == s@[j as int]);
            }
        }
        let mut out: Vec<Page> = Vec::new();
        out.push(page);
        proof {
            assert(out@.map_values(|p: Page| p@) =~= seq![page@]);
        }
        return Some((out, j));
    }
    proof {
        assert(s@.skip(j as int)[0] == s@[j as int]);
    }
    if n - j >= 2 && s[j + 1] == '\n' {
        proof {
            assert(s@.skip(j as int)[1] == s@[j + 1]);
            assert(s@.skip(j as int).skip(2) =~= s@.skip(j + 2));
        }
        match parse_pages_at(s, j + 2) {
            Some((more, j2)) => {
                let ghost more_seq = more@;
                let ghost more_views = more@.map_values(|p: Page| p@);
                let mut out = more;
                out.insert(0, page);
                proof {
                    assert(out@ =~= seq![page] + more_seq);
                    assert(out@.map_values(|p: Page| p@) =~= seq![page@] + more_views);
                }
                Some((out, j2))
            },
            None => None,
        }
    } else {
        proof {
            if n - j >= 2 {
                assert(s@.skip(j as int)[1] == s@[j + 1]);
            }
            assert(s@.skip(j as int).len() == n - j);
        }
        None
    }
}

/// Reads a whole JSON document back into a value, as `content_parse` says:
/// the text must be exactly what `json_of` describes for some value, and that
/// value is returned.
pub fn parse_pdf_content(text: &str) -> (r: Option<PdfContent>)
    ensures
        r matches Some(c) ==> content_parse(text@) == Some(c@),
        r is None ==> content_parse(text@) is None,
{
    let s = str_to_chars(text);
    let n = s.len();
    proof {
        assert(s@.skip(0) =~= s@);
        reveal_strlit(",\n  \"pages\": [");
        reveal_strlit("\n  \"pages\": [");
        assert(",\n  \"pages\": ["@ =~= seq![','] + "\n  \"pages\": ["@);
    }
    let j1 = match eat_lit(&s, 0, "{\n  \"file_name\": \"") {
        Some(j) => j,
        None => {
            return None;
        },
    };
    let (name_chars, j2) = match parse_string_at(&s, j1) {
        Some(x) => x,
        None => {
            return None;
        },
    };
    let j3 = match eat_lit(&s, j2, ",\n  \"total_pages\": ") {
        Some(j) => j,
        None => {
            return None;
        },
    };
    let (tv, j4) = match parse_number_at(&s, j3) {
        Some(x) => x,
        None => {
            return None;
        },
    };
    if tv > usize::MAX as u128 {
        return None;
    }
    let total = tv as usize;
    let j5 = match eat_lit(&s, j4, ",\n  \"pages\": [") {
        Some(j) => j,
        None => {
            return None;
        },
    };
    let file_name = chars_to_string(name_chars);
    if j5 < n && s[j5] == ']' {
        proof {
            assert(s@.skip(j5 as int)[0] == s@[j5 as int]);
            reveal_strlit("]\n}");
            reveal_strlit("\n}");
            assert("]\n}"@ =~= seq![']'] + "\n}"@);
        }
        let j6 = match eat_lit(&s, j5, "]\n}") {
            Some(j) => j,
            None => {
                return None;
            },
        };
        if j6 == n {
            let c = PdfContent { file_name, total_pages: total, pages: Vec::new() };
            proof {
                assert(c@.pages =~= Seq::<PageView>::empty());
            }
            return Some(c);
        }
        proof {
            assert(s@.skip(j6 as int).len() == n - j6);
        }
        return None;
    }
    proof {
        if j5 < n {
            assert(s@.skip(j5 as int)[0] == s@[j5 as int]);
        }
        assert(s@.skip(j5 as int).len() == n - j5);
        reveal_strlit("\n");
        assert("\n"@ =~= seq!['\n']);
        reveal_strlit("\n  ]\n}");
        reveal_strlit("  ]\n}");
        assert("\n  ]\n}"@ =~= seq!['\n'] + "  ]\n}"@);
    }
    let j6 = match eat_lit(&s, j5, "\n") {
        Some(j) => j,
        None => {
            return None;
        },
    };
    let (pages, j7) = match parse_pages_at(&s, j6) {
        Some(x) => x,
        None => {
            return None;
        },
    };
    let j8 = match eat_lit(&s, j7, "\n  ]\n}") {
        Some(j) => j,
        None => {
            return None;
        },
    };
    if j8 == n {
        let c = PdfContent { file_name, total_pages: total, pages };
        return Some(c);
    }
    proof {
        assert(s@.skip(j8 as int).len() == n - j8);
    }
    None
}

// ---------------------------------------------------------------------------
// The round trip: parsing the produced text yields the value again.
// ---------------------------------------------------------------------------
proof fn lemma_lit_parse_rt(l: Seq<char>, rest: Seq<char>)
    ensures
        lit_parse(l, l + rest) == Some(rest),
{
    assert((l + rest).take(l.len() as int) =~= l);
    assert((l + rest).skip(l.len() as int) =~= rest);
}

proof fn lemma_decimal_digits(n: nat)
    ensures
        decimal(n).len() >= 1,
        forall|i: int| 0 <= i < decimal(n).len() ==> is_digit(#[trigger] decimal(n)[i]),
    decreases n,
{
    if n < 10 {
        assert(is_digit(digit_char(n)));
    } else {
        lemma_decimal_digits(n / 10);
        assert(is_digit(digit_char(n % 10)));
        assert forall|i: int| 0 <= i < decimal(n).len() implies is_digit(
            #[trigger] decimal(n)[i],
        ) by {
            if i < decimal(n / 10).len() {
                assert(decimal(n)[i] == decimal(n / 10)[i]);
            } else {
                assert(decimal(n)[i] == digit_char(n % 10));
            }
        }
    }
}

proof fn lemma_number_run_append(a: Seq<char>, b: Seq<char>, acc: nat)
    requires
        forall|i: int| 0 <= i < a.len() ==> is_digit(#[trigger] a[i]),
    ensures
        number_run(a + b, acc) == number_run(b, number_run(a, acc).0),
    decreases a.len(),
{
    if a.len() == 0 {
        assert(a + b =~= b);
    } else {
        assert((a + b)[0] == a[0]);
        assert((a + b).len() > 0);
        let acc2 = acc * 10 + digit_val(a[0]);
        assert((a + b).skip(1) =~= a.skip(1) + b);
        lemma_number_run_append(a.skip(1), b, acc2);
        assert(number_run(a + b, acc) == number_run(a.skip(1) + b, acc2));
        assert(number_run(a, acc) == number_run(a.skip(1), acc2));
    }
}

proof fn lemma_decimal_value(n: nat)
    ensures
        number_run(decimal(n), 0).0 == n,
        number_run(decimal(n), 0).1 == Seq::<char>::empty(),
    decreases n,
{
    if n < 10 {
        let d = decimal(n);
        assert(d == seq![digit_char(n)]);
        assert(d[0] == digit_char(n));
        assert(is_digit(d[0]));
        assert(digit_val(digit_char(n)) == n);
        assert(d.skip(1) =~= Seq::<char>::empty());
        assert(number_run(d, 0) == number_run(d.skip(1), 0 * 10 + n));
    } else {
        lemma_decimal_value(n / 10);
        lemma_decimal_digits(n / 10);
        let a = decimal(n / 10);
        let b = seq![digit_char(n % 10)];
        assert(decimal(n) == a + b);
        lemma_number_run_append(a, b, 0);
        assert(number_run(decimal(n), 0) == number_run(b, n / 10));
        assert(is_digit(b[0]));
        assert(digit_val(digit_char(n % 10)) == n % 10);
        assert(b.skip(1) =~= Seq::<char>::empty());
        assert(number_run(b, n / 10) == number_run(b.skip(1), (n / 10) * 10 + (n % 10)));
        assert((n / 10) * 10 + (n % 10) == n) by {
            vstd::arithmetic::div_mod::lemma_fundamental_div_mod(n as int, 10);
        }
    }
}

proof fn lemma_number_parse_rt(n: nat, rest: Seq<char>)
    requires
        rest.len() == 0 || !is_digit(rest[0]),
    ensures
        number_parse(decimal(n) + rest) == Some((n, rest)),
{
    lemma_decimal_digits(n);
    lemma_decimal_value(n);
    let s = decimal(n) + rest;
    assert(s[0] == decimal(n)[0]);
    assert(is_digit(s[0]));
    lemma_number_run_append(decimal(n), rest, 0);
    assert(number_run(s, 0) == number_run(rest, n));
    assert(number_run(rest, n) == (n, rest));
}

proof fn lemma_char_cast_rt(c: char)
    requires
        (c as u32) < 32,
    ensures
        (((c as u32) as u8) as char) == c,
{
}

proof fn lemma_hex_rt(d: nat)
    requires
        d < 16,
    ensures
        is_hex_lower(hex_char(d)),
        hex_val(hex_char(d)) == d,
{
}

proof fn lemma_string_parse_rt(t: Seq<char>, rest: Seq<char>)
    ensures
        string_parse(escape(t) + seq!['"'] + rest) == Some((t, rest)),
    decreases t.len(),
{
    let s = escape(t) + seq!['"'] + rest;
    if t.len() == 0 {
        assert(escape(t) == Seq::<char>::empty());
        assert(s =~= seq!['"'] + rest);
        assert(s[0] == '"');
        assert(s.skip(1) =~= rest);
        assert(t =~= Seq::<char>::empty());
    } else {
        let c = t[0];
        let t2 = t.skip(1);
        lemma_string_parse_rt(t2, rest);
        assert(escape(t) == escape_char(c) + escape(t2));
        let tail = escape(t2) + seq!['"'] + rest;
        assert(s =~= escape_char(c) + tail);
        if c == '"' {
            assert(escape_char(c) == seq!['\\', '"']);
            assert(s[0] == '\\' && s[1] == '"');
            assert(s.len() >= 2);
            assert(s.skip(2) =~= tail);
            assert(seq![s[1]] + t2 =~= t);
        } else if c == '\\' {
            assert(escape_char(c) == seq!['\\', '\\']);
            assert(s[0] == '\\' && s[1] == '\\');
            assert(s.len() >= 2);
            assert(s.skip(2) =~= tail);
            assert(seq![s[1]] + t2 =~= t);
        } else if has_short_escape(c) {
            let letter = short_escape_letter(c);
            assert(escape_char(c) == seq!['\\', letter]);
            assert(s[0] == '\\' && s[1] == letter);
            assert(s.len() >= 2);
            assert(letter == 'b' || letter == 't' || letter == 'n' || letter == 'f' || letter
                == 'r');
            assert(letter != '"' && letter != '\\');
            assert(s.skip(2) =~= tail);
            assert(short_escape_value(letter) == c);
            assert(seq![short_escape_value(s[1])] + t2 =~= t);
        } else if ((c as u32) < 32) {
            let code = c as u32;
            let hi = hex_char((code / 16) as nat);
            let lo = hex_char((code % 16) as nat);
            lemma_hex_rt((code / 16) as nat);
            lemma_hex_rt((code % 16) as nat);
            assert(escape_char(c) == seq!['\\', 'u', '0', '0', hi, lo]);
            assert(s[0] == '\\' && s[1] == 'u' && s[2] == '0' && s[3] == '0' && s[4] == hi && s[5]
                == lo);
            assert(s.len() >= 6);
            assert(s[1] != '"' && s[1] != '\\');
            assert(s.skip(6) =~= tail);
            assert(hex_val(s[4]) * 16 + hex_val(s[5]) == code) by {
                vstd::arithmetic::div_mod::lemma_fundamental_div_mod(code as int, 16);
            }
            lemma_char_cast_rt(c);
            assert((((c as u32) as u8) as char) == c);
            assert(((hex_val(s[4]) * 16 + hex_val(s[5])) as u8) == ((c as u32) as u8));
            assert((((hex_val(s[4]) * 16 + hex_val(s[5])) as u8) as char) == c);
            assert(seq![(((hex_val(s[4]) * 16 + hex_val(s[5])) as u8) as char)] + t2 =~= t);
        } else {
            assert(escape_char(c) == seq![c]);
            assert(s[0] == c);
            assert(s.skip(1) =~= tail);
            assert(seq![s[0]] + t2 =~= t);
        }
    }
}

proof fn lemma_page_parse_rt(p: PageView, rest: Seq<char>)
    ensures
        page_parse(json_of_page(p) + rest) == Some((p, rest)),
{
    let lit1 = "    {\n      \"page_number\": "@;
    let lit2 = seq![','] + "\n      \"content\": \""@;
    let lit3 = "\n    }"@;
    let s = json_of_page(p) + rest;
    let r3 = lit3 + rest;
    let r2 = escape(p.content) + seq!['"'] + r3;
    let r1 = lit2 + r2;
    let r0 = decimal(p.page_number as nat) + r1;
    assert(s =~= lit1 + r0);
    lemma_lit_parse_rt(lit1, r0);
    assert(r1[0] == ',');
    assert(!is_digit(','));
    lemma_number_parse_rt(p.page_number as nat, r1);
    assert(p.page_number as nat <= u32::MAX);
    lemma_lit_parse_rt(lit2, r2);
    assert(r2 =~= escape(p.content) + seq!['"'] + r3);
    lemma_string_parse_rt(p.content, r3);
    lemma_lit_parse_rt(lit3, rest);
    assert((p.page_number as nat) as u32 == p.page_number);
    assert(PageView { page_number: p.page_number, content: p.content } == p);
}

proof fn lemma_pages_parse_rt(ps: Seq<PageView>, rest: Seq<char>)
    requires
        ps.len() >= 1,
        rest.len() == 0 || rest[0] != ',',
    ensures
        pages_parse(json_of_pages(ps) + rest) == Some((ps, rest)),
    decreases ps.len(),
{
    if ps.len() == 1 {
        assert(json_of_pages(ps) == json_of_page(ps[0]));
        lemma_page_parse_rt(ps[0], rest);
        assert(seq![ps[0]] =~= ps);
    } else {
        let sep = seq![',', '\n'];
        let inner = json_of_pages(ps.skip(1)) + rest;
        let r = sep + inner;
        assert(json_of_pages(ps) + rest =~= json_of_page(ps[0]) + r);
        lemma_page_parse_rt(ps[0], r);
        assert(r[0] == ',');
        assert(r.len() >= 2);
        assert(r[1] == '\n');
        assert(r.skip(2) =~= inner);
        lemma_pages_parse_rt(ps.skip(1), rest);
        assert(seq![ps[0]] + ps.skip(1) =~= ps);
    }
}

/// The round trip: the JSON text produced for any schema value parses back to
/// exactly that value. Page counts beyond the machine's word are the one
/// exception a parser on this machine must refuse.
#[verifier::rlimit(60)]
pub proof fn lemma_json_round_trip(c: PdfContentView)
    requires
        c.total_pages <= usize::MAX,
    ensures
        content_parse(json_of(c)) == Some(c),
{
    let lit1 = "{\n  \"file_name\": \""@;
    let lit2 = ",\n  \"total_pages\": "@;
    let lit3 = seq![','] + "\n  \"pages\": ["@;
    let s = json_of(c);
    let tail = json_tail(c);
    let s4 = lit3 + tail;
    let s3 = decimal(c.total_pages) + s4;
    let s2 = lit2 + s3;
    let s1 = escape(c.file_name) + seq!['"'] + s2;
    assert(s =~= lit1 + s1);
    lemma_lit_parse_rt(lit1, s1);
    lemma_string_parse_rt(c.file_name, s2);
    lemma_lit_parse_rt(lit2, s3);
    assert(s4[0] == ',');
    assert(!is_digit(','));
    lemma_number_parse_rt(c.total_pages, s4);
    lemma_lit_parse_rt(lit3, tail);
    if c.pages.len() == 0 {
        let close = seq![']'] + "\n}"@;
        assert(tail == close);
        assert(tail[0] == ']');
        assert(tail =~= close + Seq::<char>::empty());
        lemma_lit_parse_rt(close, Seq::<char>::empty());
        assert(c.pages =~= Seq::<PageView>::empty());
        assert(content_parse(s) == Some(c));
    } else {
        let close = seq!['\n'] + "  ]\n}"@;
        let after = close + Seq::<char>::empty();
        assert(tail == seq!['\n'] + json_of_pages(c.pages) + seq!['\n'] + "  ]\n}"@);
        assert(tail[0] == '\n');
        assert(tail[0] != ']');
        let body = json_of_pages(c.pages) + after;
        assert(tail =~= seq!['\n'] + body);
        lemma_lit_parse_rt(seq!['\n'], body);
        assert(after.len() > 0 && after[0] == '\n');
        assert(after[0] != ',');
        lemma_pages_parse_rt(c.pages, after);
        assert(after =~= close + Seq::<char>::empty());
        lemma_lit_parse_rt(close, Seq::<char>::empty());
        assert(content_parse(s) == Some(c));
    }
}

} // verus!
