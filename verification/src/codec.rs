//! The store's durable text form: a canonical, pretty-printed JSON
//! document with one `passwords` object, plus the character-level helpers
//! the rest of the library shares.
//!
//! The emitter below produces exactly one document per store, and the
//! parser maps that document back to the store it came from; the round
//! trip is proved in this module.

use vstd::prelude::*;

use crate::model::{Password, PasswordView, StoreView, pairs_view, titles_unique};

verus! {

/// Relies on `String::from_iter` for `char`: the collected string holds
/// exactly the characters of the vector, in order.
#[verifier::external_body]
pub(crate) fn chars_to_string(v: &Vec<char>) -> (r: String)
    ensures
        r@ == v@,
{
    v.iter().collect()
}

/// The characters of `s`, as a vector.
pub(crate) fn to_chars(s: &str) -> (r: Vec<char>)
    ensures
        r@ == s@,
{
    let n = s.unicode_len();
    let mut v: Vec<char> = Vec::new();
    let mut i: usize = 0;
    while i < n
        invariant
            i <= n,
            n == s@.len(),
            v@ == s@.take(i as int),
        decreases n - i,
    {
        v.push(s.get_char(i));
        proof {
            assert(s@.take(i + 1 as int) =~= s@.take(i as int).push(s@[i as int]));
        }
        i = i + 1;
    }
    proof {
        assert(v@ =~= s@);
    }
    v
}

/// Append every character of `s` to `out`.
pub(crate) fn push_str_chars(out: &mut Vec<char>, s: &str)
    ensures
        final(out)@ == old(out)@ + s@,
{
    let n = s.unicode_len();
    let mut i: usize = 0;
    while i < n
        invariant
            i <= n,
            n == s@.len(),
            out@ == old(out)@ + s@.take(i as int),
        decreases n - i,
    {
        out.push(s.get_char(i));
        proof {
            assert(old(out)@ + s@.take(i + 1 as int) =~= (old(out)@ + s@.take(i as int)).push(
                s@[i as int],
            ));
        }
        i = i + 1;
    }
    proof {
        assert(old(out)@ + s@.take(n as int) =~= old(out)@ + s@);
    }
}

/// Character-for-character equality of two string slices.
pub(crate) fn str_eq(a: &str, b: &str) -> (r: bool)
    ensures
        r == (a@ == b@),
{
    let an = a.unicode_len();
    let bn = b.unicode_len();
    if an != bn {
        proof {
            assert(a@ != b@) by {
                if a@ == b@ {
                    assert(a@.len() == b@.len());
                }
            }
        }
        return false;
    }
    let mut i: usize = 0;
    while i < an
        invariant
            i <= an,
            an == a@.len(),
            bn == b@.len(),
            an == bn,
            forall|j: int| 0 <= j < i ==> a@[j] == b@[j],
        decreases an - i,
    {
        if a.get_char(i) != b.get_char(i) {
            return false;
        }
        i = i + 1;
    }
    proof {
        assert(a@ =~= b@);
    }
    true
}

/// The position of the first line break in `s`, or its length.
pub open spec fn nl_index(s: Seq<char>) -> int
    decreases s.len(),
{
    if s.len() == 0 {
        0
    } else if s[0] == '\n' {
        0
    } else {
        1 + nl_index(s.drop_first())
    }
}

/// `nl_index` is the first position holding a line break.
pub proof fn lemma_nl_index(s: Seq<char>)
    ensures
        0 <= nl_index(s) <= s.len(),
        nl_index(s) < s.len() ==> s[nl_index(s)] == '\n',
        forall|j: int| 0 <= j < nl_index(s) ==> s[j] != '\n',
    decreases s.len(),
{
    if s.len() > 0 && s[0] != '\n' {
        let rest = s.drop_first();
        lemma_nl_index(rest);
        assert(forall|j: int| 0 <= j < rest.len() ==> rest[j] == s[j + 1]);
        assert forall|j: int| 0 <= j < nl_index(s) implies s[j] != '\n' by {
            if j > 0 {
                assert(rest[j - 1] == s[j]);
            }
        }
    }
}

/// The first line of `s`: everything before the first line break, less a
/// trailing carriage return.
pub open spec fn spec_first_line(s: Seq<char>) -> Seq<char> {
    let line = s.take(nl_index(s));
    if line.len() > 0 && line.last() == '\r' {
        line.drop_last()
    } else {
        line
    }
}

/// The first line of a text.
pub fn first_line(s: &str) -> (r: String)
    ensures
        r@ == spec_first_line(s@),
{
    let n = s.unicode_len();
    let mut k: usize = 0;
    while k < n && s.get_char(k) != '\n'
        invariant
            k <= n,
            n == s@.len(),
            forall|j: int| 0 <= j < k ==> s@[j] != '\n',
        decreases n - k,
    {
        k = k + 1;
    }
    proof {
        lemma_nl_index(s@);
        let ni = nl_index(s@);
        if k < n {
            if ni < k {
                assert(s@[ni] != '\n');
            }
            if ni > k {
                assert(s@[k as int] != '\n');
            }
        } else {
            if ni < n {
                assert(s@[ni] != '\n');
            }
        }
        assert(ni == k);
    }
    let end = if k > 0 && s.get_char(k - 1) == '\r' {
        k - 1
    } else {
        k
    };
    proof {
        let line = s@.take(k as int);
        if k > 0 && s@[k - 1] == '\r' {
            assert(line.last() == s@[k - 1]);
            assert(line.drop_last() =~= s@.take(k - 1));
        }
        assert(spec_first_line(s@) =~= s@.take(end as int));
    }
    s.substring_char(0, end).to_owned()
}

// ---------------------------------------------------------------------
// String escaping, as the canonical document writes it.
// ---------------------------------------------------------------------
/// The hexadecimal digit character for `d`, lower case.
pub open spec fn hex_digit(d: u8) -> char {
    if d < 10 {
        ((48 + d) as u8) as char
    } else {
        ((87 + d) as u8) as char
    }
}

/// The decimal digit character for `d`.
pub open spec fn digit_char(d: u8) -> char {
    ((48 + d) as u8) as char
}

/// How one character is written inside a quoted string: quote and
/// backslash get a backslash escape, the five named control characters
/// their short forms, any other control character a `\u00..` form, and
/// everything else stands as itself.
pub open spec fn esc_char(c: char) -> Seq<char> {
    if c == '"' {
        seq!['\\', '"']
    } else if c == '\\' {
        seq!['\\', '\\']
    } else if c == '\u{8}' {
        seq!['\\', 'b']
    } else if c == '\t' {
        seq!['\\', 't']
    } else if c == '\n' {
        seq!['\\', 'n']
    } else if c == '\u{c}' {
        seq!['\\', 'f']
    } else if c == '\r' {
        seq!['\\', 'r']
    } else if (c as u32) < 32 {
        seq!['\\', 'u', '0', '0', hex_digit((c as u32 / 16) as u8), hex_digit((c as u32 % 16) as u8)]
    } else {
        seq![c]
    }
}

/// A whole string, escaped character by character.
pub open spec fn esc(s: Seq<char>) -> Seq<char>
    decreases s.len(),
{
    if s.len() == 0 {
        Seq::empty()
    } else {
        esc_char(s[0]) + esc(s.drop_first())
    }
}

/// Escaping one more character extends the escaped text on the right.
pub proof fn lemma_esc_push(s: Seq<char>, c: char)
    ensures
        esc(s.push(c)) == esc(s) + esc_char(c),
    decreases s.len(),
{
    if s.len() == 0 {
        assert(s.push(c).drop_first() =~= Seq::<char>::empty());
        assert(s.push(c)[0] == c);
        assert(esc(Seq::<char>::empty()) == Seq::<char>::empty());
        assert(esc(s.push(c)) == esc_char(c) + esc(Seq::<char>::empty()));
        assert(esc(s.push(c)) =~= esc(s) + esc_char(c));
    } else {
        assert(s.push(c).drop_first() =~= s.drop_first().push(c));
        lemma_esc_push(s.drop_first(), c);
        assert(esc(s.push(c)) =~= esc(s) + esc_char(c));
    }
}

/// The decimal rendering of a byte, without leading zeros.
pub open spec fn dec(n: u8) -> Seq<char> {
    if n < 10 {
        seq![digit_char(n)]
    } else if n < 100 {
        seq![digit_char(n / 10), digit_char(n % 10)]
    } else {
        seq![digit_char(n / 100), digit_char((n / 10) % 10), digit_char(n % 10)]
    }
}

fn hex_digit_e(d: u8) -> (c: char)
    requires
        d < 16,
    ensures
        c == hex_digit(d),
{
    if d < 10 {
        (48 + d) as char
    } else {
        (87 + d) as char
    }
}

fn digit_e(d: u8) -> (c: char)
    requires
        d < 10,
    ensures
        c == digit_char(d),
{
    (48 + d) as char
}

/// Append the escaped form of `s` to `out`.
fn push_escaped(out: &mut Vec<char>, s: &str)
    ensures
        final(out)@ == old(out)@ + esc(s@),
{
    let n = s.unicode_len();
    let mut i: usize = 0;
    while i < n
        invariant
            i <= n,
            n == s@.len(),
            out@ == old(out)@ + esc(s@.take(i as int)),
        decreases n - i,
    {
        let ghost mid = out@;
        let c = s.get_char(i);
        if c == '"' {
            out.push('\\');
            out.push('"');
        } else if c == '\\' {
            out.push('\\');
            out.push('\\');
        } else if c == '\u{8}' {
            out.push('\\');
            out.push('b');
        } else if c == '\t' {
            out.push('\\');
            out.push('t');
        } else if c == '\n' {
            out.push('\\');
            out.push('n');
        } else if c == '\u{c}' {
            out.push('\\');
            out.push('f');
        } else if c == '\r' {
            out.push('\\');
            out.push('r');
        } else if (c as u32) < 32 {
            let v = c as u32;
            out.push('\\');
            out.push('u');
            out.push('0');
            out.push('0');
            out.push(hex_digit_e((v / 16) as u8));
            out.push(hex_digit_e((v % 16) as u8));
        } else {
            out.push(c);
        }
        proof {
            assert(out@ =~= mid + esc_char(s@[i as int]));
            lemma_esc_push(s@.take(i as int), s@[i as int]);
            assert(s@.take(i + 1 as int) =~= s@.take(i as int).push(s@[i as int]));
            assert(out@ =~= old(out)@ + esc(s@.take(i + 1 as int)));
        }
        i = i + 1;
    }
    proof {
        assert(s@.take(n as int) =~= s@);
    }
}

/// Append the decimal rendering of `n` to `out`.
fn push_dec(out: &mut Vec<char>, n: u8)
    ensures
        final(out)@ == old(out)@ + dec(n),
{
    if n < 10 {
        out.push(digit_e(n));
    } else if n < 100 {
        out.push(digit_e(n / 10));
        out.push(digit_e(n % 10));
    } else {
        out.push(digit_e(n / 100));
        out.push(digit_e((n / 10) % 10));
        out.push(digit_e(n % 10));
    }
    proof {
        assert(out@ =~= old(out)@ + dec(n));
    }
}

// ---------------------------------------------------------------------
// The canonical document.
// ---------------------------------------------------------------------
pub open spec fn lit_head() -> Seq<char> {
    "{\n  \"passwords\": {"@
}

pub open spec fn lit_empty_close() -> Seq<char> {
    "}\n}"@
}

pub open spec fn lit_close() -> Seq<char> {
    "\n  }\n}"@
}

pub open spec fn lit_sep() -> Seq<char> {
    ",\n"@
}

pub open spec fn lit_nl() -> Seq<char> {
    "\n"@
}

pub open spec fn lit_e1() -> Seq<char> {
    "    \""@
}

pub open spec fn lit_e2() -> Seq<char> {
    "\": {\n      \"salt\": \""@
}

pub open spec fn lit_e3() -> Seq<char> {
    "\",\n      \"meat\": \""@
}

pub open spec fn lit_e4() -> Seq<char> {
    "\",\n      \"text\": \""@
}

pub open spec fn lit_e5() -> Seq<char> {
    "\",\n      \"format\": "@
}

pub open spec fn lit_e6() -> Seq<char> {
    "\n    }"@
}

/// One titled entry, as the canonical document writes it.
pub open spec fn canonical_entry(e: (Seq<char>, PasswordView)) -> Seq<char> {
    lit_e1() + esc(e.0) + lit_e2() + esc(e.1.salt) + lit_e3() + esc(e.1.meat) + lit_e4() + esc(
        e.1.text,
    ) + lit_e5() + dec(e.1.format) + lit_e6()
}

/// The entries of a store, separated by `,` and a line break.
pub open spec fn canonical_entries(v: StoreView) -> Seq<char>
    decreases v.len(),
{
    if v.len() == 0 {
        Seq::empty()
    } else if v.len() == 1 {
        canonical_entry(v[0])
    } else {
        canonical_entry(v[0]) + lit_sep() + canonical_entries(v.drop_first())
    }
}

/// The whole canonical document of a store.
pub open spec fn canonical_doc(v: StoreView) -> Seq<char> {
    if v.len() == 0 {
        lit_head() + lit_empty_close()
    } else {
        lit_head() + seq!['\n'] + canonical_entries(v) + lit_close()
    }
}

/// Writing one more entry extends the entry list, with a separator once
/// the list is non-empty.
pub proof fn lemma_entries_push(v: StoreView, e: (Seq<char>, PasswordView))
    ensures
        v.len() == 0 ==> canonical_entries(v.push(e)) == canonical_entry(e),
        v.len() > 0 ==> canonical_entries(v.push(e)) == canonical_entries(v) + lit_sep()
            + canonical_entry(e),
    decreases v.len(),
{
    if v.len() == 0 {
        assert(v.push(e)[0] == e);
        assert(canonical_entries(v.push(e)) == canonical_entry(e));
    } else {
        assert(v.push(e).drop_first() =~= v.drop_first().push(e));
        lemma_entries_push(v.drop_first(), e);
        if v.len() == 1 {
            assert(canonical_entries(v.push(e)) =~= canonical_entries(v) + lit_sep()
                + canonical_entry(e));
        } else {
            assert(canonical_entries(v.push(e)) =~= canonical_entries(v) + lit_sep()
                + canonical_entry(e));
        }
    }
}

// ---------------------------------------------------------------------
// The specification-level parser: what loading a document means.
// ---------------------------------------------------------------------
pub open spec fn is_digit(c: char) -> bool {
    48 <= c as u32 <= 57
}

pub open spec fn dval(c: char) -> int {
    c as int - 48
}

pub open spec fn is_hex(c: char) -> bool {
    is_digit(c) || (97 <= c as u32 <= 102)
}

pub open spec fn hval(c: char) -> int {
    if is_digit(c) {
        c as int - 48
    } else {
        c as int - 87
    }
}

pub open spec fn is_ws(c: char) -> bool {
    c == ' ' || c == '\n' || c == '\r' || c == '\t'
}

/// Only whitespace from `pos` to the end.
pub open spec fn all_ws(s: Seq<char>, pos: int) -> bool {
    forall|i: int| pos <= i < s.len() ==> is_ws(s[i])
}

/// Match the fixed text `lit` at `pos`: the position after it, or nothing.
pub open spec fn sp_lit(s: Seq<char>, pos: int, lit: Seq<char>) -> Option<int> {
    if 0 <= pos && pos + lit.len() <= s.len() && s.subrange(pos, pos + lit.len() as int) == lit {
        Some(pos + lit.len() as int)
    } else {
        None
    }
}

/// Prepend one parsed character to a string-parse outcome.
pub open spec fn sp_cons(c: char, r: Option<(Seq<char>, int)>) -> Option<(Seq<char>, int)> {
    match r {
        Some(tp) => Some((seq![c] + tp.0, tp.1)),
        None => None,
    }
}

/// Parse quoted-string content starting at `pos`, undoing the escapes the
/// emitter writes, up to but not including the closing quote: the content
/// and the quote's position, or nothing when the text ends first or holds
/// an escape the emitter never writes.
pub open spec fn sp_string(s: Seq<char>, pos: int) -> Option<(Seq<char>, int)>
    decreases s.len() - pos,
{
    if pos < 0 || pos >= s.len() {
        None
    } else {
        let c = s[pos];
        if c == '"' {
            Some((Seq::empty(), pos))
        } else if c == '\\' {
            if pos + 1 >= s.len() {
                None
            } else {
                let e = s[pos + 1];
                if e == '"' {
                    sp_cons('"', sp_string(s, pos + 2))
                } else if e == '\\' {
                    sp_cons('\\', sp_string(s, pos + 2))
                } else if e == 'b' {
                    sp_cons('\u{8}', sp_string(s, pos + 2))
                } else if e == 't' {
                    sp_cons('\t', sp_string(s, pos + 2))
                } else if e == 'n' {
                    sp_cons('\n', sp_string(s, pos + 2))
                } else if e == 'f' {
                    sp_cons('\u{c}', sp_string(s, pos + 2))
                } else if e == 'r' {
                    sp_cons('\r', sp_string(s, pos + 2))
                } else if e == 'u' {
                    if pos + 6 > s.len() {
                        None
                    } else if s[pos + 2] == '0' && s[pos + 3] == '0' && is_hex(s[pos + 4]) && is_hex(
                        s[pos + 5],
                    ) {
                        sp_cons(
                            ((hval(s[pos + 4]) * 16 + hval(s[pos + 5])) as u8) as char,
                            sp_string(s, pos + 6),
                        )
                    } else {
                        None
                    }
                } else {
                    None
                }
            }
        } else {
            sp_cons(c, sp_string(s, pos + 1))
        }
    }
}

/// Parse a decimal byte at `pos`: up to three digits, greedily, provided
/// the value fits in a byte.
pub open spec fn sp_u8(s: Seq<char>, pos: int) -> Option<(u8, int)> {
    if pos < 0 || pos >= s.len() || !is_digit(s[pos]) {
        None
    } else {
        let d0 = dval(s[pos]);
        if pos + 1 < s.len() && is_digit(s[pos + 1]) {
            let d1 = dval(s[pos + 1]);
            if pos + 2 < s.len() && is_digit(s[pos + 2]) {
                let d2 = dval(s[pos + 2]);
                if pos + 3 < s.len() && is_digit(s[pos + 3]) {
                    None
                } else if d0 * 100 + d1 * 10 + d2 <= 255 {
                    Some(((d0 * 100 + d1 * 10 + d2) as u8, pos + 3))
                } else {
                    None
                }
            } else {
                Some(((d0 * 10 + d1) as u8, pos + 2))
            }
        } else {
            Some((d0 as u8, pos + 1))
        }
    }
}

/// Parse one titled entry at `pos`.
pub open spec fn sp_entry(s: Seq<char>, pos: int) -> Option<((Seq<char>, PasswordView), int)> {
    match sp_lit(s, pos, lit_e1()) {
        None => None,
        Some(p1) => match sp_string(s, p1) {
            None => None,
            Some((title, p2)) => match sp_lit(s, p2, lit_e2()) {
                None => None,
                Some(p3) => match sp_string(s, p3) {
                    None => None,
                    Some((salt, p4)) => match sp_lit(s, p4, lit_e3()) {
                        None => None,
                        Some(p5) => match sp_string(s, p5) {
                            None => None,
                            Some((meat, p6)) => match sp_lit(s, p6, lit_e4()) {
                                None => None,
                                Some(p7) => match sp_string(s, p7) {
                                    None => None,
                                    Some((text, p8)) => match sp_lit(s, p8, lit_e5()) {
                                        None => None,
                                        Some(p9) => match sp_u8(s, p9) {
                                            None => None,
                                            Some((format, p10)) => match sp_lit(s, p10, lit_e6()) {
                                                None => None,
                                                Some(p11) => Some(
                                                    (
                                                        (
                                                            title,
                                                            PasswordView { salt, meat, text, format },
                                                        ),
                                                        p11,
                                                    ),
                                                ),
                                            },
                                        },
                                    },
                                },
                            },
                        },
                    },
                },
            },
        },
    }
}

/// Parse one or more entries separated by `,` and a line break.  `fuel`
/// only bounds the recursion; any value at least the entry count gives the
/// same answer.
pub open spec fn sp_entries(s: Seq<char>, pos: int, fuel: nat) -> Option<(StoreView, int)>
    decreases fuel,
{
    if fuel == 0 {
        None
    } else {
        match sp_entry(s, pos) {
            None => None,
            Some((e, p1)) => match sp_lit(s, p1, lit_sep()) {
                None => Some((seq![e], p1)),
                Some(p2) => match sp_entries(s, p2, (fuel - 1) as nat) {
                    None => None,
                    Some((rest, p3)) => Some((seq![e] + rest, p3)),
                },
            },
        }
    }
}

/// Parse a whole document: the store it describes, or nothing.  Trailing
/// whitespace is accepted; a document with a repeated title is refused.
pub open spec fn sp_doc(s: Seq<char>) -> Option<StoreView> {
    match sp_lit(s, 0, lit_head()) {
        None => None,
        Some(p1) => match sp_lit(s, p1, lit_empty_close()) {
            Some(p2) => if all_ws(s, p2) {
                Some(Seq::empty())
            } else {
                None
            },
            None => match sp_lit(s, p1, lit_nl()) {
                None => None,
                Some(p2) => match sp_entries(s, p2, s.len() as nat) {
                    None => None,
                    Some((es, p3)) => match sp_lit(s, p3, lit_close()) {
                        None => None,
                        Some(p4) => if all_ws(s, p4) && titles_unique(es) {
                            Some(es)
                        } else {
                            None
                        },
                    },
                },
            },
        },
    }
}

/// What loading a document yields: the store it describes, or the empty
/// store when it describes none.
pub open spec fn spec_load(s: Seq<char>) -> StoreView {
    match sp_doc(s) {
        Some(v) => v,
        None => Seq::empty(),
    }
}

/// A parsed document never repeats a title.
pub proof fn lemma_sp_doc_unique(s: Seq<char>)
    ensures
        sp_doc(s) is Some ==> titles_unique(sp_doc(s)->Some_0),
{
}

/// Append the canonical form of one titled entry to `out`.
pub(crate) fn emit_entry(out: &mut Vec<char>, title: &str, pw: &Password)
    ensures
        final(out)@ == old(out)@ + canonical_entry((title@, pw@)),
{
    push_str_chars(out, "    \"");
    push_escaped(out, title);
    push_str_chars(out, "\": {\n      \"salt\": \"");
    push_escaped(out, pw.salt.as_str());
    push_str_chars(out, "\",\n      \"meat\": \"");
    push_escaped(out, pw.meat.as_str());
    push_str_chars(out, "\",\n      \"text\": \"");
    push_escaped(out, pw.text.as_str());
    push_str_chars(out, "\",\n      \"format\": ");
    push_dec(out, pw.format);
    push_str_chars(out, "\n    }");
    proof {
        assert(out@ =~= old(out)@ + canonical_entry((title@, pw@)));
    }
}

// ---------------------------------------------------------------------
// The executable parser, step for step the specification parser.
// ---------------------------------------------------------------------
fn is_ws_e(c: char) -> (r: bool)
    ensures
        r == is_ws(c),
{
    c == ' ' || c == '\n' || c == '\r' || c == '\t'
}

fn is_digit_e(c: char) -> (r: bool)
    ensures
        r == is_digit(c),
{
    let v = c as u32;
    48 <= v && v <= 57
}

fn is_hex_e(c: char) -> (r: bool)
    ensures
        r == is_hex(c),
{
    let v = c as u32;
    (48 <= v && v <= 57) || (97 <= v && v <= 102)
}

fn dval_e(c: char) -> (r: u8)
    requires
        is_digit(c),
    ensures
        r as int == dval(c),
{
    ((c as u32) - 48) as u8
}

fn hval_e(c: char) -> (r: u8)
    requires
        is_hex(c),
    ensures
        r as int == hval(c),
{
    let v = c as u32;
    if v < 58 {
        (v - 48) as u8
    } else {
        (v - 87) as u8
    }
}

/// Match the fixed text `lit` at `pos`.
fn p_lit(s: &Vec<char>, pos: usize, lit: &str) -> (r: Option<usize>)
    requires
        pos <= s@.len(),
    ensures
        match r {
            Some(p) => sp_lit(s@, pos as int, lit@) == Some(p as int) && p <= s@.len(),
            None => sp_lit(s@, pos as int, lit@) is None,
        },
{
    let n = s.len();
    let ll = lit.unicode_len();
    if ll > n - pos {
        return None;
    }
    let mut k: usize = 0;
    while k < ll
        invariant
            k <= ll,
            ll == lit@.len(),
            n == s@.len(),
            pos + ll <= n,
            forall|j: int| 0 <= j < k ==> s@[pos + j] == lit@[j],
        decreases ll - k,
    {
        if s[pos + k] != lit.get_char(k) {
            proof {
                assert(s@.subrange(pos as int, pos + lit@.len() as int) != lit@) by {
                    if s@.subrange(pos as int, pos + lit@.len() as int) == lit@ {
                        assert(s@.subrange(pos as int, pos + lit@.len() as int)[k as int] == s@[pos
                            + k]);
                    }
                }
            }
            return None;
        }
        k = k + 1;
    }
    proof {
        assert(s@.subrange(pos as int, pos + lit@.len() as int) =~= lit@);
    }
    Some(pos + ll)
}

/// Parse quoted-string content at `pos`, up to the closing quote.
fn p_string(s: &Vec<char>, pos: usize) -> (r: Option<(Vec<char>, usize)>)
    requires
        pos <= s@.len(),
    ensures
        match r {
            Some(tp) => sp_string(s@, pos as int) == Some((tp.0@, tp.1 as int)) && tp.1
                <= s@.len(),
            None => sp_string(s@, pos as int) is None,
        },
{
    let n = s.len();
    let mut p = pos;
    let mut acc: Vec<char> = Vec::new();
    proof {
        if sp_string(s@, pos as int) is Some {
            let tp = sp_string(s@, pos as int)->Some_0;
            assert(Seq::<char>::empty() + tp.0 =~= tp.0);
        }
    }
    while p < n
        invariant
            pos <= p <= n,
            n == s@.len(),
            match sp_string(s@, p as int) {
                Some(tp) => sp_string(s@, pos as int) == Some((acc@ + tp.0, tp.1)),
                None => sp_string(s@, pos as int) is None,
            },
        decreases n - p,
    {
        let c = s[p];
        if c == '"' {
            proof {
                assert(acc@ + Seq::<char>::empty() =~= acc@);
            }
            return Some((acc, p));
        } else if c == '\\' {
            if p + 1 >= n {
                return None;
            }
            let e = s[p + 1];
            let ghost acc0 = acc@;
            if e == '"' {
                acc.push('"');
                proof {
                    lemma_p_string_step(s@, pos as int, p as int, p + 2, acc0, '"');
                }
                p = p + 2;
            } else if e == '\\' {
                acc.push('\\');
                proof {
                    lemma_p_string_step(s@, pos as int, p as int, p + 2, acc0, '\\');
                }
                p = p + 2;
            } else if e == 'b' {
                acc.push('\u{8}');
                proof {
                    lemma_p_string_step(s@, pos as int, p as int, p + 2, acc0, '\u{8}');
                }
                p = p + 2;
            } else if e == 't' {
                acc.push('\t');
                proof {
                    lemma_p_string_step(s@, pos as int, p as int, p + 2, acc0, '\t');
                }
                p = p + 2;
            } else if e == 'n' {
                acc.push('\n');
                proof {
                    lemma_p_string_step(s@, pos as int, p as int, p + 2, acc0, '\n');
                }
                p = p + 2;
            } else if e == 'f' {
                acc.push('\u{c}');
                proof {
                    lemma_p_string_step(s@, pos as int, p as int, p + 2, acc0, '\u{c}');
                }
                p = p + 2;
            } else if e == 'r' {
                acc.push('\r');
                proof {
                    lemma_p_string_step(s@, pos as int, p as int, p + 2, acc0, '\r');
                }
                p = p + 2;
            } else if e == 'u' {
                if n - p < 6 {
                    return None;
                }
                if s[p + 2] == '0' && s[p + 3] == '0' && is_hex_e(s[p + 4]) && is_hex_e(s[p + 5]) {
                    let v = hval_e(s[p + 4]) * 16 + hval_e(s[p + 5]);
                    acc.push(v as char);
                    proof {
                        lemma_p_string_step(s@, pos as int, p as int, p + 6, acc0, v as char);
                    }
                    p = p + 6;
                } else {
                    return None;
                }
            } else {
                return None;
            }
        } else {
            let ghost acc0 = acc@;
            acc.push(c);
            proof {
                lemma_p_string_step(s@, pos as int, p as int, p + 1, acc0, c);
            }
            p = p + 1;
        }
    }
    None
}

/// One step of string parsing: when the parse at `p` conses `c` onto the
/// parse at `q`, the accumulated content moves forward with it.
proof fn lemma_p_string_step(s: Seq<char>, pos: int, p: int, q: int, acc: Seq<char>, c: char)
    requires
        sp_string(s, p) == sp_cons(c, sp_string(s, q)),
        match sp_string(s, p) {
            Some(tp) => sp_string(s, pos) == Some((acc + tp.0, tp.1)),
            None => sp_string(s, pos) is None,
        },
    ensures
        match sp_string(s, q) {
            Some(tp) => sp_string(s, pos) == Some((acc.push(c) + tp.0, tp.1)),
            None => sp_string(s, pos) is None,
        },
{
    match sp_string(s, q) {
        Some(tp) => {
            assert(acc + (seq![c] + tp.0) =~= acc.push(c) + tp.0);
        },
        None => {
        },
    }
}

/// Parse a decimal byte at `pos`.
fn p_u8(s: &Vec<char>, pos: usize) -> (r: Option<(u8, usize)>)
    requires
        pos <= s@.len(),
    ensures
        match r {
            Some(tp) => sp_u8(s@, pos as int) == Some((tp.0, tp.1 as int)) && tp.1 <= s@.len(),
            None => sp_u8(s@, pos as int) is None,
        },
{
    let n = s.len();
    if pos >= n || !is_digit_e(s[pos]) {
        return None;
    }
    let d0 = dval_e(s[pos]) as u32;
    if pos + 1 < n && is_digit_e(s[pos + 1]) {
        let d1 = dval_e(s[pos + 1]) as u32;
        if pos + 2 < n && is_digit_e(s[pos + 2]) {
            let d2 = dval_e(s[pos + 2]) as u32;
            if pos + 3 < n && is_digit_e(s[pos + 3]) {
                None
            } else {
                let v = d0 * 100 + d1 * 10 + d2;
                if v <= 255 {
                    Some((v as u8, pos + 3))
                } else {
                    None
                }
            }
        } else {
            Some(((d0 * 10 + d1) as u8, pos + 2))
        }
    } else {
        Some((d0 as u8, pos + 1))
    }
}

/// Parse one titled entry at `pos`.
fn p_entry(s: &Vec<char>, pos: usize) -> (r: Option<((String, Password), usize)>)
    requires
        pos <= s@.len(),
    ensures
        match r {
            Some(tp) => sp_entry(s@, pos as int) == Some((((tp.0).0@, (tp.0).1@), tp.1 as int))
                && tp.1 <= s@.len(),
            None => sp_entry(s@, pos as int) is None,
        },
{
    let p1 = match p_lit(s, pos, "    \"") {
        Some(p) => p,
        None => {
            return None;
        },
    };
    let (title, p2) = match p_string(s, p1) {
        Some(tp) => tp,
        None => {
            return None;
        },
    };
    let p3 = match p_lit(s, p2, "\": {\n      \"salt\": \"") {
        Some(p) => p,
        None => {
            return None;
        },
    };
    let (salt, p4) = match p_string(s, p3) {
        Some(tp) => tp,
        None => {
            return None;
        },
    };
    let p5 = match p_lit(s, p4, "\",\n      \"meat\": \"") {
        Some(p) => p,
        None => {
            return None;
        },
    };
    let (meat, p6) = match p_string(s, p5) {
        Some(tp) => tp,
        None => {
            return None;
        },
    };
    let p7 = match p_lit(s, p6, "\",\n      \"text\": \"") {
        Some(p) => p,
        None => {
            return None;
        },
    };
    let (text, p8) = match p_string(s, p7) {
        Some(tp) => tp,
        None => {
            return None;
        },
    };
    let p9 = match p_lit(s, p8, "\",\n      \"format\": ") {
        Some(p) => p,
        None => {
            return None;
        },
    };
    let (format, p10) = match p_u8(s, p9) {
        Some(tp) => tp,
        None => {
            return None;
        },
    };
    let p11 = match p_lit(s, p10, "\n    }") {
        Some(p) => p,
        None => {
            return None;
        },
    };
    let pw = Password {
        salt: chars_to_string(&salt),
        meat: chars_to_string(&meat),
        text: chars_to_string(&text),
        format,
    };
    Some(((chars_to_string(&title), pw), p11))
}

/// Parse entries separated by `,` and a line break.
fn p_entries(s: &Vec<char>, pos: usize, fuel: usize) -> (r: Option<(Vec<(String, Password)>, usize)>)
    requires
        pos <= s@.len(),
    ensures
        match r {
            Some(tp) => sp_entries(s@, pos as int, fuel as nat) == Some(
                (pairs_view(tp.0@), tp.1 as int),
            ) && tp.1 <= s@.len(),
            None => sp_entries(s@, pos as int, fuel as nat) is None,
        },
    decreases fuel,
{
    if fuel == 0 {
        return None;
    }
    let (pair, p1) = match p_entry(s, pos) {
        Some(tp) => tp,
        None => {
            return None;
        },
    };
    let ghost e = ((pair.0)@, (pair.1)@);
    match p_lit(s, p1, ",\n") {
        None => {
            let mut items: Vec<(String, Password)> = Vec::new();
            items.push(pair);
            proof {
                assert(pairs_view(items@) =~= seq![e]);
            }
            Some((items, p1))
        },
        Some(p2) => {
            let (mut rest, p3) = match p_entries(s, p2, fuel - 1) {
                Some(tp) => tp,
                None => {
                    return None;
                },
            };
            let ghost rest0 = rest@;
            rest.insert(0, pair);
            proof {
                assert(pairs_view(rest@) =~= seq![e] + pairs_view(rest0));
            }
            Some((rest, p3))
        },
    }
}

/// Is everything from `pos` on whitespace?
fn all_ws_e(s: &Vec<char>, pos: usize) -> (r: bool)
    requires
        pos <= s@.len(),
    ensures
        r == all_ws(s@, pos as int),
{
    let n = s.len();
    let mut i = pos;
    while i < n
        invariant
            pos <= i <= n,
            n == s@.len(),
            forall|j: int| pos <= j < i ==> is_ws(s@[j]),
        decreases n - i,
    {
        if !is_ws_e(s[i]) {
            return false;
        }
        i = i + 1;
    }
    true
}

/// Does no title repeat among the parsed entries?
fn titles_unique_e(items: &Vec<(String, Password)>) -> (r: bool)
    ensures
        r == titles_unique(pairs_view(items@)),
{
    let n = items.len();
    let mut i: usize = 0;
    while i < n
        invariant
            i <= n,
            n == items@.len(),
            forall|a: int, b: int|
                0 <= a < b < items@.len() && a < i ==> pairs_view(items@)[a].0 != pairs_view(
                    items@,
                )[b].0,
        decreases n - i,
    {
        let mut j: usize = i + 1;
        while j < n
            invariant
                i < j <= n,
                n == items@.len(),
                forall|b: int|
                    i < b < j ==> pairs_view(items@)[i as int].0 != pairs_view(items@)[b].0,
            decreases n - j,
        {
            if str_eq(items[i].0.as_str(), items[j].0.as_str()) {
                proof {
                    assert(pairs_view(items@)[i as int].0 == pairs_view(items@)[j as int].0);
                    assert(!titles_unique(pairs_view(items@)));
                }
                return false;
            }
            j = j + 1;
        }
        i = i + 1;
    }
    true
}

// ---------------------------------------------------------------------
// The round trip: parsing what the emitter wrote gives the store back.
// ---------------------------------------------------------------------
/// A slice of a slice of `s` is the matching slice of `s`.
proof fn lemma_piece(s: Seq<char>, pos: int, a: Seq<char>, o: int, p: Seq<char>)
    requires
        0 <= pos,
        pos + a.len() <= s.len(),
        s.subrange(pos, pos + a.len() as int) == a,
        0 <= o,
        o + p.len() <= a.len(),
        a.subrange(o, o + p.len() as int) == p,
    ensures
        s.subrange(pos + o, pos + o + p.len() as int) == p,
{
    assert(s.subrange(pos + o, pos + o + p.len() as int) =~= p) by {
        assert forall|i: int| 0 <= i < p.len() implies s[pos + o + i] == p[i] by {
            assert(a[o + i] == s.subrange(pos, pos + a.len() as int)[o + i]);
            assert(p[i] == a.subrange(o, o + p.len() as int)[i]);
        }
    }
}

/// One character of a slice of `s`, read in `s` itself.
proof fn lemma_char_at(s: Seq<char>, pos: int, a: Seq<char>, j: int)
    requires
        0 <= pos,
        pos + a.len() <= s.len(),
        s.subrange(pos, pos + a.len() as int) == a,
        0 <= j < a.len(),
    ensures
        s[pos + j] == a[j],
{
    assert(a[j] == s.subrange(pos, pos + a.len() as int)[j]);
}

/// The hexadecimal digit characters parse back to their values.
proof fn lemma_hex_digit(d: u8)
    requires
        d < 16,
    ensures
        is_hex(hex_digit(d)),
        hval(hex_digit(d)) == d,
{
    if d < 10 {
        assert(hex_digit(d) as u32 == 48 + d);
    } else {
        assert(hex_digit(d) as u32 == 87 + d);
    }
}

/// The decimal digit characters parse back to their values.
proof fn lemma_digit_char(d: u8)
    requires
        d < 10,
    ensures
        is_digit(digit_char(d)),
        dval(digit_char(d)) == d,
{
    assert(digit_char(d) as u32 == 48 + d);
}

/// Parsing the escaped form of `t`, with the closing quote behind it,
/// yields `t` and stops at the quote.
proof fn lemma_sp_string_round(t: Seq<char>, s: Seq<char>, pos: int)
    requires
        0 <= pos,
        pos + esc(t).len() < s.len(),
        s.subrange(pos, pos + esc(t).len() as int) == esc(t),
        s[pos + esc(t).len()] == '"',
    ensures
        sp_string(s, pos) == Some((t, pos + esc(t).len() as int)),
    decreases t.len(),
{
    if t.len() == 0 {
        assert(esc(t).len() == 0);
        assert(s[pos] == '"');
    } else {
        let c = t[0];
        let t2 = t.drop_first();
        let ec = esc_char(c);
        let k = ec.len() as int;
        assert(esc(t) == ec + esc(t2));
        assert(s.subrange(pos + k, pos + k + esc(t2).len() as int) =~= esc(t2)) by {
            assert forall|i: int| 0 <= i < esc(t2).len() implies s[pos + k + i] == esc(t2)[i] by {
                lemma_char_at(s, pos, esc(t), k + i);
                assert(esc(t)[k + i] == esc(t2)[i]);
            }
        }
        assert(s[pos + k + esc(t2).len()] == '"');
        lemma_sp_string_round(t2, s, pos + k);
        assert(seq![c] + t2 =~= t);
        assert forall|j: int| 0 <= j < k implies s[pos + j] == ec[j] by {
            lemma_char_at(s, pos, esc(t), j);
            assert(esc(t)[j] == ec[j]);
        }
        lemma_char_at(s, pos, esc(t), 0);
        assert(s[pos] == ec[0]);
        if c == '"' {
            assert(s[pos] == '\\' && s[pos + 1] == '"');
            assert(sp_string(s, pos) == sp_cons(c, sp_string(s, pos + 2)));
        } else if c == '\\' {
            assert(s[pos] == '\\' && s[pos + 1] == '\\');
            assert(sp_string(s, pos) == sp_cons(c, sp_string(s, pos + 2)));
        } else if c == '\u{8}' {
            assert(s[pos] == '\\' && s[pos + 1] == 'b');
            assert(sp_string(s, pos) == sp_cons(c, sp_string(s, pos + 2)));
        } else if c == '\t' {
            assert(s[pos] == '\\' && s[pos + 1] == 't');
            assert(sp_string(s, pos) == sp_cons(c, sp_string(s, pos + 2)));
        } else if c == '\n' {
            assert(s[pos] == '\\' && s[pos + 1] == 'n');
            assert(sp_string(s, pos) == sp_cons(c, sp_string(s, pos + 2)));
        } else if c == '\u{c}' {
            assert(s[pos] == '\\' && s[pos + 1] == 'f');
            assert(sp_string(s, pos) == sp_cons(c, sp_string(s, pos + 2)));
        } else if c == '\r' {
            assert(s[pos] == '\\' && s[pos + 1] == 'r');
            assert(sp_string(s, pos) == sp_cons(c, sp_string(s, pos + 2)));
        } else if (c as u32) < 32 {
            let hi = (c as u32 / 16) as u8;
            let lo = (c as u32 % 16) as u8;
            lemma_hex_digit(hi);
            lemma_hex_digit(lo);
            assert(s[pos] == '\\' && s[pos + 1] == 'u' && s[pos + 2] == '0' && s[pos + 3] == '0');
            assert(s[pos + 4] == hex_digit(hi) && s[pos + 5] == hex_digit(lo));
            assert(hval(s[pos + 4]) * 16 + hval(s[pos + 5]) == c as u32);
            let v = hval(s[pos + 4]) * 16 + hval(s[pos + 5]);
            assert(0 <= v < 32);
            assert(v as u8 == v);
            assert((v as u8) as char as u32 == v);
            vstd::utf8::char_u32_cast(c, ((v as u8) as char) as u32);
            assert(((hval(s[pos + 4]) * 16 + hval(s[pos + 5])) as u8) as char == c);
            assert(sp_string(s, pos) == sp_cons(c, sp_string(s, pos + 6)));
        } else {
            assert(s[pos] == c);
            assert(sp_string(s, pos) == sp_cons(c, sp_string(s, pos + 1)));
        }
    }
}

/// Parsing the decimal form of `n`, with a non-digit behind it, yields
/// `n` and stops behind the last digit.
proof fn lemma_sp_u8_round(n: u8, s: Seq<char>, pos: int)
    requires
        0 <= pos,
        pos + dec(n).len() < s.len(),
        s.subrange(pos, pos + dec(n).len() as int) == dec(n),
        !is_digit(s[pos + dec(n).len()]),
    ensures
        sp_u8(s, pos) == Some((n, pos + dec(n).len() as int)),
{
    assert forall|i: int| 0 <= i < dec(n).len() implies s[pos + i] == dec(n)[i] by {
        assert(s.subrange(pos, pos + dec(n).len() as int)[i] == s[pos + i]);
    }
    lemma_char_at(s, pos, dec(n), 0);
    if n < 10 {
        lemma_digit_char(n);
        assert(s[pos] == digit_char(n));
    } else if n < 100 {
        lemma_digit_char(n / 10);
        lemma_digit_char(n % 10);
        lemma_char_at(s, pos, dec(n), 1);
        assert(s[pos] == digit_char(n / 10));
        assert(s[pos + 1] == digit_char(n % 10));
        assert(dval(s[pos]) * 10 + dval(s[pos + 1]) == n);
    } else {
        lemma_digit_char(n / 100);
        lemma_digit_char((n / 10) % 10);
        lemma_digit_char(n % 10);
        lemma_char_at(s, pos, dec(n), 1);
        lemma_char_at(s, pos, dec(n), 2);
        assert(s[pos] == digit_char(n / 100));
        assert(s[pos + 1] == digit_char((n / 10) % 10));
        assert(s[pos + 2] == digit_char(n % 10));
        assert(dval(s[pos]) * 100 + dval(s[pos + 1]) * 10 + dval(s[pos + 2]) == n) by {
            assert(n / 100 * 100 + (n / 10) % 10 * 10 + n % 10 == n) by (nonlinear_arith);
        }
    }
}

/// Parsing the canonical form of one entry yields that entry.
proof fn lemma_sp_entry_round(e: (Seq<char>, PasswordView), s: Seq<char>, pos: int)
    requires
        0 <= pos,
        pos + canonical_entry(e).len() <= s.len(),
        s.subrange(pos, pos + canonical_entry(e).len() as int) == canonical_entry(e),
    ensures
        sp_entry(s, pos) == Some((e, pos + canonical_entry(e).len() as int)),
{
    reveal_strlit("    \"");
    reveal_strlit("\": {\n      \"salt\": \"");
    reveal_strlit("\",\n      \"meat\": \"");
    reveal_strlit("\",\n      \"text\": \"");
    reveal_strlit("\",\n      \"format\": ");
    reveal_strlit("\n    }");
    let a = canonical_entry(e);
    let l1 = lit_e1();
    let e0 = esc(e.0);
    let l2 = lit_e2();
    let e1 = esc(e.1.salt);
    let l3 = lit_e3();
    let e2 = esc(e.1.meat);
    let l4 = lit_e4();
    let e3 = esc(e.1.text);
    let l5 = lit_e5();
    let d = dec(e.1.format);
    let l6 = lit_e6();
    let a1 = l1;
    let a2 = a1 + e0;
    let a3 = a2 + l2;
    let a4 = a3 + e1;
    let a5 = a4 + l3;
    let a6 = a5 + e2;
    let a7 = a6 + l4;
    let a8 = a7 + e3;
    let a9 = a8 + l5;
    let a10 = a9 + d;
    assert(a == a10 + l6);
    // Every stage is a prefix of the whole entry text.
    assert(a.subrange(0, a10.len() as int) =~= a10);
    assert(a10.subrange(0, a9.len() as int) =~= a9);
    lemma_piece(a, 0, a10, 0, a9);
    assert(a9.subrange(0, a8.len() as int) =~= a8);
    lemma_piece(a, 0, a9, 0, a8);
    assert(a8.subrange(0, a7.len() as int) =~= a7);
    lemma_piece(a, 0, a8, 0, a7);
    assert(a7.subrange(0, a6.len() as int) =~= a6);
    lemma_piece(a, 0, a7, 0, a6);
    assert(a6.subrange(0, a5.len() as int) =~= a5);
    lemma_piece(a, 0, a6, 0, a5);
    assert(a5.subrange(0, a4.len() as int) =~= a4);
    lemma_piece(a, 0, a5, 0, a4);
    assert(a4.subrange(0, a3.len() as int) =~= a3);
    lemma_piece(a, 0, a4, 0, a3);
    assert(a3.subrange(0, a2.len() as int) =~= a2);
    lemma_piece(a, 0, a3, 0, a2);
    assert(a2.subrange(0, a1.len() as int) =~= a1);
    lemma_piece(a, 0, a2, 0, a1);
    // Each piece, read inside the whole entry text, then inside `s`.
    assert(a.subrange(0, l1.len() as int) == l1);
    lemma_piece(s, pos, a, 0, l1);
    assert(a2.subrange(a1.len() as int, a2.len() as int) =~= e0);
    lemma_piece(a, 0, a2, a1.len() as int, e0);
    lemma_piece(s, pos, a, a1.len() as int, e0);
    assert(a3.subrange(a2.len() as int, a3.len() as int) =~= l2);
    lemma_piece(a, 0, a3, a2.len() as int, l2);
    lemma_piece(s, pos, a, a2.len() as int, l2);
    assert(a4.subrange(a3.len() as int, a4.len() as int) =~= e1);
    lemma_piece(a, 0, a4, a3.len() as int, e1);
    lemma_piece(s, pos, a, a3.len() as int, e1);
    assert(a5.subrange(a4.len() as int, a5.len() as int) =~= l3);
    lemma_piece(a, 0, a5, a4.len() as int, l3);
    lemma_piece(s, pos, a, a4.len() as int, l3);
    assert(a6.subrange(a5.len() as int, a6.len() as int) =~= e2);
    lemma_piece(a, 0, a6, a5.len() as int, e2);
    lemma_piece(s, pos, a, a5.len() as int, e2);
    assert(a7.subrange(a6.len() as int, a7.len() as int) =~= l4);
    lemma_piece(a, 0, a7, a6.len() as int, l4);
    lemma_piece(s, pos, a, a6.len() as int, l4);
    assert(a8.subrange(a7.len() as int, a8.len() as int) =~= e3);
    lemma_piece(a, 0, a8, a7.len() as int, e3);
    lemma_piece(s, pos, a, a7.len() as int, e3);
    assert(a9.subrange(a8.len() as int, a9.len() as int) =~= l5);
    lemma_piece(a, 0, a9, a8.len() as int, l5);
    lemma_piece(s, pos, a, a8.len() as int, l5);
    assert(a10.subrange(a9.len() as int, a10.len() as int) =~= d);
    lemma_piece(a, 0, a10, a9.len() as int, d);
    lemma_piece(s, pos, a, a9.len() as int, d);
    assert(a.subrange(a10.len() as int, a.len() as int) =~= l6);
    lemma_piece(s, pos, a, a10.len() as int, l6);
    // Walk the parser down the pieces.
    let q1 = pos + l1.len() as int;
    let q2 = q1 + e0.len() as int;
    let q3 = q2 + l2.len() as int;
    let q4 = q3 + e1.len() as int;
    let q5 = q4 + l3.len() as int;
    let q6 = q5 + e2.len() as int;
    let q7 = q6 + l4.len() as int;
    let q8 = q7 + e3.len() as int;
    let q9 = q8 + l5.len() as int;
    let q10 = q9 + d.len() as int;
    let q11 = q10 + l6.len() as int;
    assert(q11 == pos + a.len());
    assert(sp_lit(s, pos, l1) == Some(q1));
    lemma_char_at(s, q2, l2, 0);
    assert(s[q2] == '"');
    lemma_sp_string_round(e.0, s, q1);
    assert(sp_lit(s, q2, l2) == Some(q3));
    lemma_char_at(s, q4, l3, 0);
    assert(s[q4] == '"');
    lemma_sp_string_round(e.1.salt, s, q3);
    assert(sp_lit(s, q4, l3) == Some(q5));
    lemma_char_at(s, q6, l4, 0);
    assert(s[q6] == '"');
    lemma_sp_string_round(e.1.meat, s, q5);
    assert(sp_lit(s, q6, l4) == Some(q7));
    lemma_char_at(s, q8, l5, 0);
    assert(s[q8] == '"');
    lemma_sp_string_round(e.1.text, s, q7);
    assert(sp_lit(s, q8, l5) == Some(q9));
    lemma_char_at(s, q10, l6, 0);
    assert(s[q10] == '\n');
    assert(!is_digit('\n'));
    lemma_sp_u8_round(e.1.format, s, q9);
    assert(sp_lit(s, q10, l6) == Some(q11));
    assert(PasswordView {
        salt: e.1.salt,
        meat: e.1.meat,
        text: e.1.text,
        format: e.1.format,
    } == e.1);
    assert(sp_entry(s, pos) == Some((e, pos + canonical_entry(e).len() as int)));
}

/// An entry list is at least as long, in characters, as in entries.
proof fn lemma_entries_len(v: StoreView)
    ensures
        canonical_entries(v).len() >= v.len(),
    decreases v.len(),
{
    reveal_strlit("    \"");
    if v.len() == 0 {
    } else if v.len() == 1 {
        assert(canonical_entry(v[0]).len() >= lit_e1().len());
    } else {
        lemma_entries_len(v.drop_first());
        assert(canonical_entry(v[0]).len() >= lit_e1().len());
    }
}

/// Parsing the canonical form of an entry list, with no comma behind it,
/// yields exactly those entries.
proof fn lemma_sp_entries_round(v: StoreView, s: Seq<char>, pos: int, fuel: nat)
    requires
        v.len() >= 1,
        fuel >= v.len(),
        0 <= pos,
        pos + canonical_entries(v).len() <= s.len(),
        s.subrange(pos, pos + canonical_entries(v).len() as int) == canonical_entries(v),
        pos + canonical_entries(v).len() == s.len() || s[pos + canonical_entries(v).len()] != ',',
    ensures
        sp_entries(s, pos, fuel) == Some((v, pos + canonical_entries(v).len() as int)),
    decreases v.len(),
{
    reveal_strlit(",\n");
    let ce = canonical_entries(v);
    let ent = canonical_entry(v[0]);
    if v.len() == 1 {
        assert(ce == ent);
        lemma_sp_entry_round(v[0], s, pos);
        let p1 = pos + ent.len() as int;
        assert(sp_lit(s, p1, lit_sep()) is None) by {
            if 0 <= p1 && p1 + lit_sep().len() <= s.len() && s.subrange(
                p1,
                p1 + lit_sep().len() as int,
            ) == lit_sep() {
                assert(s.subrange(p1, p1 + lit_sep().len() as int)[0] == s[p1]);
                assert(lit_sep()[0] == ',');
            }
        }
        assert(seq![v[0]] =~= v);
        assert(sp_entries(s, pos, fuel) == Some((v, p1)));
    } else {
        let rest = v.drop_first();
        let b1 = ent;
        let b2 = b1 + lit_sep();
        let cer = canonical_entries(rest);
        assert(ce == b2 + cer);
        assert(ce.subrange(0, b2.len() as int) =~= b2);
        assert(b2.subrange(0, b1.len() as int) =~= b1);
        lemma_piece(ce, 0, b2, 0, b1);
        lemma_piece(s, pos, ce, 0, b1);
        assert(b2.subrange(b1.len() as int, b2.len() as int) =~= lit_sep());
        lemma_piece(ce, 0, b2, b1.len() as int, lit_sep());
        lemma_piece(s, pos, ce, b1.len() as int, lit_sep());
        assert(ce.subrange(b2.len() as int, ce.len() as int) =~= cer);
        lemma_piece(s, pos, ce, b2.len() as int, cer);
        lemma_sp_entry_round(v[0], s, pos);
        let p1 = pos + b1.len() as int;
        lemma_entries_len(rest);
        assert(sp_lit(s, p1, lit_sep()) == Some(p1 + 2));
        let p2 = p1 + 2;
        lemma_sp_entries_round(rest, s, p2, (fuel - 1) as nat);
        assert(seq![v[0]] + rest =~= v);
        assert(sp_entries(s, pos, fuel) == Some((v, pos + ce.len() as int)));
    }
}

/// Parsing the canonical document of a store with unique titles yields
/// that store.
proof fn lemma_sp_doc_round(v: StoreView)
    requires
        titles_unique(v),
    ensures
        sp_doc(canonical_doc(v)) == Some(v),
{
    reveal_strlit("{\n  \"passwords\": {");
    reveal_strlit("}\n}");
    reveal_strlit("\n  }\n}");
    reveal_strlit("\n");
    let s = canonical_doc(v);
    let head = lit_head();
    if v.len() == 0 {
        assert(s == head + lit_empty_close());
        assert(s.subrange(0, head.len() as int) =~= head);
        assert(sp_lit(s, 0, head) == Some(head.len() as int));
        let p1 = head.len() as int;
        assert(s.subrange(p1, p1 + lit_empty_close().len() as int) =~= lit_empty_close());
        assert(sp_lit(s, p1, lit_empty_close()) == Some(s.len() as int));
        assert(all_ws(s, s.len() as int));
        assert(v =~= Seq::<(Seq<char>, PasswordView)>::empty());
        assert(sp_doc(s) == Some(v));
    } else {
        let nl = seq!['\n'];
        let ce = canonical_entries(v);
        let close = lit_close();
        let c1 = head;
        let c2 = c1 + nl;
        let c3 = c2 + ce;
        assert(s == c3 + close);
        assert(s.subrange(0, c3.len() as int) =~= c3);
        assert(c3.subrange(0, c2.len() as int) =~= c2);
        lemma_piece(s, 0, c3, 0, c2);
        assert(c2.subrange(0, c1.len() as int) =~= c1);
        lemma_piece(s, 0, c2, 0, c1);
        assert(c2.subrange(c1.len() as int, c2.len() as int) =~= nl);
        lemma_piece(s, 0, c2, c1.len() as int, nl);
        assert(c3.subrange(c2.len() as int, c3.len() as int) =~= ce);
        lemma_piece(s, 0, c3, c2.len() as int, ce);
        assert(s.subrange(c3.len() as int, s.len() as int) =~= close);
        assert(sp_lit(s, 0, head) == Some(head.len() as int));
        let p1 = head.len() as int;
        lemma_char_at(s, p1, nl, 0);
        assert(s[p1] == '\n');
        assert(sp_lit(s, p1, lit_empty_close()) is None) by {
            if 0 <= p1 && p1 + lit_empty_close().len() <= s.len() && s.subrange(
                p1,
                p1 + lit_empty_close().len() as int,
            ) == lit_empty_close() {
                assert(s.subrange(p1, p1 + lit_empty_close().len() as int)[0] == s[p1]);
                assert(lit_empty_close()[0] == '}');
            }
        }
        assert(lit_nl() =~= nl);
        assert(sp_lit(s, p1, lit_nl()) == Some(p1 + 1));
        let p2 = p1 + 1;
        lemma_entries_len(v);
        let p3 = p2 + ce.len() as int;
        lemma_char_at(s, p3, close, 0);
        assert(s[p3] == '\n');
        lemma_sp_entries_round(v, s, p2, s.len() as nat);
        assert(sp_lit(s, p3, close) == Some(s.len() as int));
        assert(all_ws(s, s.len() as int));
        assert(sp_doc(s) == Some(v));
    }
}

/// The round trip of the store's durable form: loading what was
/// serialized gives the store back, for every store whose titles are
/// unique — and every store the library builds keeps them unique.
pub proof fn lemma_store_round_trip(v: StoreView)
    requires
        titles_unique(v),
    ensures
        spec_load(canonical_doc(v)) == v,
{
    lemma_sp_doc_round(v);
}

/// Parse a whole document into raw titled entries.
pub(crate) fn p_doc(s: &Vec<char>) -> (r: Option<Vec<(String, Password)>>)
    ensures
        match r {
            Some(items) => sp_doc(s@) == Some(pairs_view(items@)),
            None => sp_doc(s@) is None,
        },
{
    let n = s.len();
    let p1 = match p_lit(s, 0, "{\n  \"passwords\": {") {
        Some(p) => p,
        None => {
            return None;
        },
    };
    match p_lit(s, p1, "}\n}") {
        Some(p2) => {
            if all_ws_e(s, p2) {
                let items: Vec<(String, Password)> = Vec::new();
                proof {
                    assert(pairs_view(items@) =~= Seq::<(Seq<char>, PasswordView)>::empty());
                }
                Some(items)
            } else {
                None
            }
        },
        None => {
            let p2 = match p_lit(s, p1, "\n") {
                Some(p) => p,
                None => {
                    return None;
                },
            };
            let (items, p3) = match p_entries(s, p2, n) {
                Some(tp) => tp,
                None => {
                    return None;
                },
            };
            let p4 = match p_lit(s, p3, "\n  }\n}") {
                Some(p) => p,
                None => {
                    return None;
                },
            };
            if all_ws_e(s, p4) && titles_unique_e(&items) {
                Some(items)
            } else {
                None
            }
        },
    }
}

} // verus!
