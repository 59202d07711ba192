//! The core pipeline: tokenizer, recursive-descent parser, and evaluator.
//!
//! The mathematical model lives beside the executable code: `spec_tokenize`,
//! `spec_parse` and `spec_eval` say, over sequences and maps, exactly what
//! each entry point returns, and every executable function is proved against
//! its model.

use vstd::prelude::*;
use vstd::slice::slice_index_get;
use vstd::slice::slice_subrange;
use vstd::string::StrSliceExecFns;
use vstd::string::StringExecFns;

use crate::env::default_env;
use crate::env::Env;

verus! {

// ---------------------------------------------------------------------------
// Tokenizer
// ---------------------------------------------------------------------------

/// The characters on which atoms end: the Unicode `White_Space` set, as
/// `char::is_whitespace` documents it.
pub open spec fn is_space(c: char) -> bool {
    let u = c as u32;
    (0x09 <= u && u <= 0x0D) || u == 0x20 || u == 0x85 || u == 0xA0 || u == 0x1680 || (0x2000
        <= u && u <= 0x200A) || u == 0x2028 || u == 0x2029 || u == 0x202F || u == 0x205F || u
        == 0x3000
}

/// The two reserved punctuation characters, each a token of its own.
pub open spec fn is_paren(c: char) -> bool {
    c == '(' || c == ')'
}

/// A character that may stand inside an atom token.
pub open spec fn is_atom_char(c: char) -> bool {
    !is_space(c) && !is_paren(c)
}

/// Length of the maximal run of atom characters at the front of `s`.
pub open spec fn atom_len(s: Seq<char>) -> nat
    decreases s.len(),
{
    if s.len() == 0 || !is_atom_char(s[0]) {
        0
    } else {
        (1 + atom_len(s.drop_first())) as nat
    }
}

proof fn lemma_atom_len_le(s: Seq<char>)
    ensures
        atom_len(s) <= s.len(),
    decreases s.len(),
{
    if s.len() > 0 && is_atom_char(s[0]) {
        lemma_atom_len_le(s.drop_first());
    }
}

/// The token sequence of a text: each paren is its own one-character token,
/// and every maximal run of non-whitespace, non-paren characters is one atom.
pub open spec fn spec_tokenize(s: Seq<char>) -> Seq<Seq<char>>
    decreases s.len(),
    via spec_tokenize_decreases
{
    if s.len() == 0 {
        Seq::empty()
    } else if is_space(s[0]) {
        spec_tokenize(s.drop_first())
    } else if is_paren(s[0]) {
        seq![seq![s[0]]] + spec_tokenize(s.drop_first())
    } else {
        seq![s.subrange(0, atom_len(s) as int)] + spec_tokenize(s.skip(atom_len(s) as int))
    }
}

#[via_fn]
proof fn spec_tokenize_decreases(s: Seq<char>) {
    if s.len() > 0 && is_atom_char(s[0]) {
        lemma_atom_len_le(s);
    }
}

/// The texts of a sequence of tokens.
pub open spec fn token_views(ts: Seq<String>) -> Seq<Seq<char>> {
    ts.map_values(|t: String| t@)
}

fn is_space_char(c: char) -> (r: bool)
    ensures
        r == is_space(c),
{
    let u = c as u32;
    (0x09 <= u && u <= 0x0D) || u == 0x20 || u == 0x85 || u == 0xA0 || u == 0x1680 || (0x2000
        <= u && u <= 0x200A) || u == 0x2028 || u == 0x2029 || u == 0x202F || u == 0x205F || u
        == 0x3000
}

proof fn lemma_atom_len_run(t: Seq<char>, k: nat)
    requires
        k <= t.len(),
        forall|j: int| 0 <= j < k ==> is_atom_char(t[j]),
        k == t.len() || !is_atom_char(t[k as int]),
    ensures
        atom_len(t) == k,
    decreases k,
{
    if k > 0 {
        assert(is_atom_char(t[0]));
        assert(forall|j: int| 0 <= j < k - 1 ==> t.drop_first()[j] == t[j + 1]);
        lemma_atom_len_run(t.drop_first(), (k - 1) as nat);
    }
}

/// Splits a text into tokens: every `(` and `)` becomes its own token, and
/// every maximal run of other non-whitespace characters becomes one atom.
pub fn tokenize(i: String) -> (r: Vec<String>)
    ensures
        token_views(r@) == spec_tokenize(i@),
{
    let s: &str = i.as_str();
    let n: usize = s.unicode_len();
    let mut out: Vec<String> = Vec::new();
    let mut start: usize = 0;
    let mut idx: usize = 0;
    proof {
        assert(i@.skip(0) =~= i@);
        assert(token_views(out@) + spec_tokenize(i@) =~= spec_tokenize(i@));
    }
    while idx < n
        invariant
            start <= idx <= n,
            n == i@.len(),
            s@ == i@,
            forall|j: int| start <= j < idx ==> is_atom_char(i@[j]),
            spec_tokenize(i@) == token_views(out@) + spec_tokenize(i@.skip(start as int)),
        decreases n - idx,
    {
        let c = s.get_char(idx);
        let space = is_space_char(c);
        if space || c == '(' || c == ')' {
            proof {
                lemma_flush_atom(i@, start as int, idx as int, out@);
            }
            if start < idx {
                let tok = s.substring_char(start, idx).to_owned();
                proof {
                    assert(tok@ =~= i@.skip(start as int).subrange(0, idx - start));
                    lemma_token_views_push(out@, tok);
                }
                out.push(tok);
            }
            let ghost mid = out@;
            proof {
                assert(spec_tokenize(i@) == token_views(mid) + spec_tokenize(
                    i@.skip(idx as int),
                ));
            }
            if !space {
                let tok = s.substring_char(idx, idx + 1).to_owned();
                proof {
                    assert(tok@ =~= seq![i@[idx as int]]);
                    lemma_token_views_push(mid, tok);
                }
                out.push(tok);
            }
            proof {
                let t2 = i@.skip(idx as int);
                assert(t2[0] == i@[idx as int]);
                assert(t2.drop_first() =~= i@.skip(idx as int + 1));
                if !space {
                    assert(spec_tokenize(t2) == seq![seq![t2[0]]] + spec_tokenize(
                        t2.drop_first(),
                    ));
                    assert((token_views(mid) + seq![seq![t2[0]]]) + spec_tokenize(
                        t2.drop_first(),
                    ) =~= token_views(mid) + (seq![seq![t2[0]]] + spec_tokenize(
                        t2.drop_first(),
                    )));
                } else {
                    assert(spec_tokenize(t2) == spec_tokenize(t2.drop_first()));
                }
            }
            start = idx + 1;
        }
        idx += 1;
    }
    if start < n {
        let tok = s.substring_char(start, n).to_owned();
        proof {
            let t = i@.skip(start as int);
            lemma_atom_len_run(t, (n - start) as nat);
            assert(is_atom_char(t[0]));
            assert(t.subrange(0, (n - start) as int) =~= t);
            assert(t.skip((n - start) as int).len() == 0);
            assert(spec_tokenize(t) == seq![t] + spec_tokenize(t.skip((n - start) as int)));
            assert(tok@ =~= t);
            lemma_token_views_push(out@, tok);
            assert(token_views(out@) + (seq![t] + Seq::<Seq<char>>::empty()) =~= token_views(
                out@.push(tok),
            ));
        }
        out.push(tok);
    }
    proof {
        assert(i@.skip(start as int).len() == 0 ==> spec_tokenize(i@.skip(start as int))
            =~= Seq::<Seq<char>>::empty());
        assert(token_views(out@) + Seq::<Seq<char>>::empty() =~= token_views(out@));
    }
    out
}

/// When the characters `start .. idx` of `s` are atom characters and `s[idx]`
/// is not, the tokens of `s` from `start` on are the atom `s[start..idx]`
/// followed by the tokens from `idx` on.
proof fn lemma_flush_atom(s: Seq<char>, start: int, idx: int, done: Seq<String>)
    requires
        0 <= start <= idx < s.len(),
        forall|j: int| start <= j < idx ==> is_atom_char(s[j]),
        !is_atom_char(s[idx]),
        spec_tokenize(s) == token_views(done) + spec_tokenize(s.skip(start)),
    ensures
        idx > start ==> spec_tokenize(s) == (token_views(done) + seq![
            s.subrange(start, idx),
        ]) + spec_tokenize(s.skip(idx)),
        idx == start ==> spec_tokenize(s) == token_views(done) + spec_tokenize(s.skip(idx)),
{
    if idx > start {
        let t = s.skip(start);
        assert(forall|j: int| 0 <= j < idx - start ==> t[j] == s[start + j]);
        lemma_atom_len_run(t, (idx - start) as nat);
        assert(is_atom_char(t[0]));
        assert(spec_tokenize(t) == seq![t.subrange(0, idx - start)] + spec_tokenize(
            t.skip(idx - start),
        ));
        assert(t.subrange(0, idx - start) =~= s.subrange(start, idx));
        assert(t.skip(idx - start) =~= s.skip(idx));
        assert(token_views(done) + (seq![s.subrange(start, idx)] + spec_tokenize(s.skip(idx)))
            =~= (token_views(done) + seq![s.subrange(start, idx)]) + spec_tokenize(
            s.skip(idx),
        ));
    }
}

proof fn lemma_token_views_push(ts: Seq<String>, t: String)
    ensures
        token_views(ts.push(t)) =~= token_views(ts) + seq![t@],
{
}

// ---------------------------------------------------------------------------
// The expression model
// ---------------------------------------------------------------------------

/// The builtin procedures: the closed set of native callables that an
/// environment lookup can yield. A function value carries one of these
/// rather than a code pointer, so a new builtin is added by extending this
/// enum and `apply_builtin` and binding the new name in `Env::default`.
#[derive(Debug, Clone, Copy, PartialEq, Eq, Structural)]
pub enum Builtin {
    Add,
    Sub,
}

/// An expression, both as parsed syntax and as an evaluated result: a symbol,
/// a number (the bits of an IEEE 754 binary64 value), a list of
/// sub-expressions, or a builtin procedure.
#[derive(Debug, PartialEq)]
pub enum Expr {
    Symbol(String),
    Number(u64),
    List(Vec<Expr>),
    Fun(Builtin),
}

/// The single error kind: a parse or evaluation failure with a message.
#[derive(Debug, Clone, PartialEq)]
pub enum Error {
    ParseError(String),
}

/// The mathematical shape of an expression: `Expr` with every string a
/// `Seq<char>` and every vector a `Seq`.
pub enum SpecExpr {
    Symbol(Seq<char>),
    Number(u64),
    List(Seq<SpecExpr>),
    Fun(Builtin),
}

/// The model of an expression.
pub open spec fn spec_view(e: Expr) -> SpecExpr
    decreases e,
{
    match e {
        Expr::Symbol(s) => SpecExpr::Symbol(s@),
        Expr::Number(b) => SpecExpr::Number(b),
        Expr::List(l) => SpecExpr::List(view_exprs(l@)),
        Expr::Fun(b) => SpecExpr::Fun(b),
    }
}

/// The models of a sequence of expressions.
pub open spec fn view_exprs(l: Seq<Expr>) -> Seq<SpecExpr>
    decreases l,
{
    if l.len() == 0 {
        Seq::empty()
    } else {
        seq![spec_view(l[0])] + view_exprs(l.drop_first())
    }
}

impl View for Expr {
    type V = SpecExpr;

    open spec fn view(&self) -> SpecExpr {
        spec_view(*self)
    }
}

proof fn lemma_view_exprs_len(l: Seq<Expr>)
    ensures
        view_exprs(l).len() == l.len(),
        forall|i: int| 0 <= i < l.len() ==> view_exprs(l)[i] == spec_view(l[i]),
    decreases l.len(),
{
    if l.len() > 0 {
        lemma_view_exprs_len(l.drop_first());
    }
}

proof fn lemma_view_exprs_push(l: Seq<Expr>, e: Expr)
    ensures
        view_exprs(l.push(e)) =~= view_exprs(l) + seq![spec_view(e)],
{
    lemma_view_exprs_len(l.push(e));
    lemma_view_exprs_len(l);
    assert(l.push(e)[l.len() as int] == e);
    assert(forall|i: int| 0 <= i < l.len() ==> l.push(e)[i] == l[i]);
}

impl Expr {
    /// A deep copy whose model equals this expression's.
    #[verifier::loop_isolation(false)]
    pub fn duplicate(&self) -> (r: Expr)
        ensures
            r@ == self@,
        decreases self,
    {
        match self {
            Expr::Symbol(s) => Expr::Symbol(s.clone()),
            Expr::Number(b) => Expr::Number(*b),
            Expr::List(l) => {
                let mut v: Vec<Expr> = Vec::new();
                let mut k: usize = 0;
                while k < l.len()
                    invariant
                        k <= l@.len(),
                        v@.len() == k,
                        forall|j: int| 0 <= j < k ==> spec_view(#[trigger] v@[j]) == spec_view(
                            l@[j],
                        ),
                    decreases l@.len() - k,
                {
                    proof {
                        assert(*l == self->List_0);
                        assert(decreases_to!(*self => self->List_0));
                        assert(decreases_to!(*l => l@));
                        assert(decreases_to!(l@ => l@[k as int]));
                    }
                    let c = l[k].duplicate();
                    v.push(c);
                    k += 1;
                }
                proof {
                    lemma_view_exprs_pointwise(v@, l@);
                }
                Expr::List(v)
            },
            Expr::Fun(b) => Expr::Fun(*b),
        }
    }
}

proof fn lemma_view_exprs_pointwise(a: Seq<Expr>, b: Seq<Expr>)
    requires
        a.len() == b.len(),
        forall|j: int| 0 <= j < a.len() ==> spec_view(#[trigger] a[j]) == spec_view(b[j]),
    ensures
        view_exprs(a) == view_exprs(b),
    decreases a.len(),
{
    if a.len() > 0 {
        lemma_view_exprs_pointwise(a.drop_first(), b.drop_first());
        assert(view_exprs(a) =~= view_exprs(b));
    }
}

// ---------------------------------------------------------------------------
// Parser
// ---------------------------------------------------------------------------

/// The ASCII decimal digits.
pub open spec fn is_digit(c: char) -> bool {
    0x30 <= c as u32 && c as u32 <= 0x39
}

/// An ASCII letter folded to lower case; any other character unchanged.
pub open spec fn lower(c: char) -> int {
    let u = c as u32;
    if 0x41 <= u && u <= 0x5A {
        u + 0x20
    } else {
        u as int
    }
}

/// `b` spells `w`, ASCII case ignored.
pub open spec fn eq_ignore_case(b: Seq<char>, w: Seq<char>) -> bool {
    b.len() == w.len() && forall|i: int| 0 <= i < b.len() ==> lower(b[i]) == lower(w[i])
}

/// The text with one leading `+` or `-` removed, if any.
pub open spec fn strip_sign(s: Seq<char>) -> Seq<char> {
    if s.len() > 0 && (s[0] == '+' || s[0] == '-') {
        s.drop_first()
    } else {
        s
    }
}

/// The exponent part after `e`/`E`: an optional sign, then at least one
/// digit, and digits only.
pub open spec fn exp_tail(x: Seq<char>) -> bool {
    strip_sign(x).len() > 0 && forall|i: int|
        0 <= i < strip_sign(x).len() ==> is_digit(strip_sign(x)[i])
}

/// The number part of the `f64` literal grammar, read left to right: digits
/// with at most one dot and at least one digit, then an optional exponent.
pub open spec fn dec_tail(m: Seq<char>, seen_dot: bool, seen_digit: bool) -> bool
    decreases m.len(),
{
    if m.len() == 0 {
        seen_digit
    } else if is_digit(m[0]) {
        dec_tail(m.drop_first(), seen_dot, true)
    } else if m[0] == '.' && !seen_dot {
        dec_tail(m.drop_first(), true, seen_digit)
    } else if (m[0] == 'e' || m[0] == 'E') && seen_digit {
        exp_tail(m.drop_first())
    } else {
        false
    }
}

/// One of the special words of the `f64` literal grammar, case ignored.
pub open spec fn is_special_word(b: Seq<char>) -> bool {
    eq_ignore_case(b, "inf"@) || eq_ignore_case(b, "infinity"@) || eq_ignore_case(b, "nan"@)
}

/// Whether a text is a floating-point literal as `f64`'s `FromStr`
/// documents them: an optional sign, then `inf`, `infinity` or `nan` with
/// case ignored, or a decimal number (`Count '.'? Count? Exp?` or
/// `'.' Count Exp?`).
pub open spec fn is_f64_literal(s: Seq<char>) -> bool {
    is_special_word(strip_sign(s)) || dec_tail(strip_sign(s), false, false)
}

/// The binary64 bits a literal denotes: the fixed patterns of infinity and
/// the quiet NaN for the special words, with a `-` sign setting the sign
/// bit, and the software float parser's correctly rounded result for a
/// decimal number.
pub open spec fn f64_literal_bits(s: Seq<char>) -> u64 {
    let b = strip_sign(s);
    let neg = s.len() > 0 && s[0] == '-';
    if eq_ignore_case(b, "inf"@) || eq_ignore_case(b, "infinity"@) {
        if neg {
            0xFFF0000000000000u64
        } else {
            0x7FF0000000000000u64
        }
    } else if eq_ignore_case(b, "nan"@) {
        if neg {
            0xFFF8000000000000u64
        } else {
            0x7FF8000000000000u64
        }
    } else {
        float_of(s).unwrap()
    }
}

/// How an atom token reads: the bits of the binary64 value it denotes when
/// it is an `f64` literal, and nothing otherwise.
pub open spec fn atom_bits(s: Seq<char>) -> Option<u64> {
    if is_f64_literal(s) {
        Some(f64_literal_bits(s))
    } else {
        None
    }
}

/// What the parsing of a numeric literal by `rustc_apfloat` returns: the bits
/// of the binary64 value the text denotes, or nothing when the text is not
/// one of the literals it reads. A function of the characters alone.
pub uninterp spec fn float_of(s: Seq<char>) -> Option<u64>;

/// Relies on `rustc_apfloat::ieee::Double` (a software IEEE 754 binary64,
/// rounding to nearest even): which bits a literal denotes depend on the
/// characters alone, and its decimal reader accepts every string of the
/// decimal number grammar — digits with at most one dot and at least one
/// digit, then an optional signed exponent.
#[verifier::external_body]
pub(crate) fn parse_float_bits(t: &str) -> (r: Option<u64>)
    ensures
        r == float_of(t@),
        dec_tail(strip_sign(t@), false, false) ==> r is Some,
{
    match t.parse::<rustc_apfloat::ieee::Double>() {
        Ok(v) => Some(rustc_apfloat::Float::to_bits(v) as u64),
        Err(_) => None,
    }
}

fn lower_char(c: char) -> (r: u32)
    ensures
        r as int == lower(c),
{
    let u = c as u32;
    if 0x41 <= u && u <= 0x5A {
        u + 0x20
    } else {
        u
    }
}

/// Whether `s` from position `start` on spells `w`, ASCII case ignored.
fn eq_ignore_case_at(s: &str, start: usize, w: &str) -> (r: bool)
    requires
        start <= s@.len(),
    ensures
        r == eq_ignore_case(s@.skip(start as int), w@),
{
    let n = s.unicode_len();
    let m = w.unicode_len();
    if n - start != m {
        return false;
    }
    let mut i: usize = 0;
    while i < m
        invariant
            0 <= i <= m,
            m == w@.len(),
            n == s@.len(),
            start + m == n,
            forall|j: int| 0 <= j < i ==> lower(s@[start + j]) == lower(w@[j]),
        decreases m - i,
    {
        let a = lower_char(s.get_char(start + i));
        let b = lower_char(w.get_char(i));
        if a != b {
            proof {
                assert(s@.skip(start as int)[i as int] == s@[start + i]);
            }
            return false;
        }
        i += 1;
    }
    proof {
        assert forall|j: int| 0 <= j < m implies lower(s@.skip(start as int)[j]) == lower(
            w@[j],
        ) by {
            assert(s@.skip(start as int)[j] == s@[start + j]);
        }
    }
    true
}

/// Whether `s` from position `start` on is a decimal number of the literal
/// grammar.
#[verifier::loop_isolation(false)]
fn is_decimal_from(s: &str, start: usize) -> (r: bool)
    requires
        start <= s@.len(),
    ensures
        r == dec_tail(s@.skip(start as int), false, false),
{
    let n = s.unicode_len();
    let mut i: usize = start;
    let mut seen_digit = false;
    let mut seen_dot = false;
    loop
        invariant
            start <= i <= n,
            n == s@.len(),
            dec_tail(s@.skip(start as int), false, false) == dec_tail(
                s@.skip(i as int),
                seen_dot,
                seen_digit,
            ),
        decreases n - i,
    {
        if i >= n {
            proof {
                assert(s@.skip(i as int).len() == 0);
            }
            return seen_digit;
        }
        let c = s.get_char(i);
        let u = c as u32;
        proof {
            assert(s@.skip(i as int)[0] == s@[i as int]);
            assert(s@.skip(i as int).drop_first() =~= s@.skip(i as int + 1));
        }
        if 0x30 <= u && u <= 0x39 {
            seen_digit = true;
            i += 1;
        } else if c == '.' && !seen_dot {
            seen_dot = true;
            i += 1;
        } else if (c == 'e' || c == 'E') && seen_digit {
            let mut j: usize = i + 1;
            if j < n {
                let cj = s.get_char(j);
                if cj == '+' || cj == '-' {
                    j += 1;
                }
            }
            proof {
                assert(strip_sign(s@.skip(i as int + 1)) =~= s@.skip(j as int));
            }
            if j >= n {
                return false;
            }
            let mut k: usize = j;
            while k < n
                invariant
                    j <= k <= n,
                    j < n,
                    n == s@.len(),
                    forall|x: int| j <= x < k ==> is_digit(s@[x]),
                decreases n - k,
            {
                let ck = s.get_char(k);
                let uk = ck as u32;
                if !(0x30 <= uk && uk <= 0x39) {
                    proof {
                        assert(s@.skip(j as int)[k - j] == s@[k as int]);
                    }
                    return false;
                }
                k += 1;
            }
            proof {
                assert forall|x: int| 0 <= x < s@.skip(j as int).len() implies is_digit(
                    #[trigger] s@.skip(j as int)[x],
                ) by {
                    assert(s@.skip(j as int)[x] == s@[j + x]);
                }
            }
            return true;
        } else {
            return false;
        }
    }
}

/// Classifies one atom token: the bits of the `f64` literal it spells, or
/// nothing when it is no literal. Special words carry their fixed bit
/// patterns; decimal numbers go to the trusted software float parser, which
/// accepts every string the grammar check admits.
pub(crate) fn classify_atom(token: &String) -> (r: Option<u64>)
    ensures
        r == atom_bits(token@),
{
    let s = token.as_str();
    let n = s.unicode_len();
    if n == 0 {
        proof {
            reveal_strlit("inf");
            reveal_strlit("infinity");
            reveal_strlit("nan");
            assert(strip_sign(s@) =~= s@);
        }
        return None;
    }
    let c0 = s.get_char(0);
    let neg = c0 == '-';
    let start: usize = if c0 == '+' || c0 == '-' {
        1
    } else {
        0
    };
    proof {
        assert(s@.skip(start as int) =~= strip_sign(s@));
    }
    if eq_ignore_case_at(s, start, "inf") || eq_ignore_case_at(s, start, "infinity") {
        return Some(
            if neg {
                0xFFF0000000000000
            } else {
                0x7FF0000000000000
            },
        );
    }
    if eq_ignore_case_at(s, start, "nan") {
        return Some(
            if neg {
                0xFFF8000000000000
            } else {
                0x7FF8000000000000
            },
        );
    }
    if !is_decimal_from(s, start) {
        return None;
    }
    match parse_float_bits(s) {
        Some(b) => Some(b),
        None => {
            // the grammar check admits only text the parser accepts
            proof {
                assert(false);
            }
            None
        },
    }
}

/// What parsing one form from the front of a token stream yields: the parsed
/// expression and the unconsumed remainder, or the message of the failure.
pub open spec fn spec_parse(tokens: Seq<Seq<char>>) -> Result<(SpecExpr, Seq<Seq<char>>), Seq<char>>
    decreases tokens.len(), 0nat,
{
    if tokens.len() == 0 {
        Err("failed to parse token"@)
    } else if tokens[0] == "("@ {
        match spec_read_seq(tokens.drop_first()) {
            Ok(p) => Ok((SpecExpr::List(p.0), p.1)),
            Err(m) => Err(m),
        }
    } else if tokens[0] == ")"@ {
        Err("unexpected `)`"@)
    } else {
        match atom_bits(tokens[0]) {
            Some(b) => Ok((SpecExpr::Number(b), tokens.drop_first())),
            None => Ok((SpecExpr::Symbol(tokens[0]), tokens.drop_first())),
        }
    }
}

/// What reading list elements up to the matching `)` yields. Parsing one
/// element always consumes at least one token, so the shrinking guard on the
/// recursion never fails.
pub open spec fn spec_read_seq(tokens: Seq<Seq<char>>) -> Result<
    (Seq<SpecExpr>, Seq<Seq<char>>),
    Seq<char>,
>
    decreases tokens.len(), 1nat,
{
    if tokens.len() == 0 {
        Err("could not find closing `)`"@)
    } else if tokens[0] == ")"@ {
        Ok((Seq::empty(), tokens.drop_first()))
    } else {
        match spec_parse(tokens) {
            Ok(p) => if p.1.len() < tokens.len() {
                match spec_read_seq(p.1) {
                    Ok(q) => Ok((seq![p.0] + q.0, q.1)),
                    Err(m) => Err(m),
                }
            } else {
                Err("could not find closing `)`"@)
            },
            Err(m) => Err(m),
        }
    }
}

/// Consumes exactly one form from the front of the token stream and returns
/// it with the unconsumed remainder; fails on an empty stream, on a stray
/// `)`, and on a list that is never closed.
pub fn parse<'a>(tokens: &'a [String]) -> (r: Result<(Expr, &'a [String]), Error>)
    ensures
        match r {
            Ok(p) => spec_parse(token_views(tokens@)) == Ok::<(SpecExpr, Seq<Seq<char>>), Seq<char>>(
                (p.0@, token_views(p.1@)),
            ) && p.1@.len() < tokens@.len(),
            Err(e) => match e {
                Error::ParseError(m) => spec_parse(token_views(tokens@)) == Err::<
                    (SpecExpr, Seq<Seq<char>>),
                    Seq<char>,
                >(m@),
            },
        },
    decreases tokens@.len(), 0nat,
{
    if tokens.len() == 0 {
        return Err(Error::ParseError("failed to parse token".to_owned()));
    }
    let token: &String = slice_index_get(tokens, 0);
    let rest: &[String] = slice_subrange(tokens, 1, tokens.len());
    proof {
        assert(token_views(rest@) =~= token_views(tokens@).drop_first());
    }
    if *token == "(".to_owned() {
        read_seq(rest)
    } else if *token == ")".to_owned() {
        Err(Error::ParseError("unexpected `)`".to_owned()))
    } else {
        Ok((parse_atom(token), rest))
    }
}

/// Reads an atom token: a text that is an `f64` literal becomes a number,
/// any other text stays a symbol verbatim.
fn parse_atom(token: &String) -> (r: Expr)
    ensures
        (match atom_bits(token@) {
            Some(b) => r@ == SpecExpr::Number(b),
            None => r@ == SpecExpr::Symbol(token@),
        }),
{
    match classify_atom(token) {
        Some(b) => Expr::Number(b),
        None => Expr::Symbol(token.clone()),
    }
}

/// Reads sub-forms until the next unconsumed token is `)`, which is consumed
/// and excluded; fails when the stream runs out first.
fn read_seq<'a>(tokens: &'a [String]) -> (r: Result<(Expr, &'a [String]), Error>)
    ensures
        match r {
            Ok(p) => match p.0@ {
                SpecExpr::List(es) => spec_read_seq(token_views(tokens@)) == Ok::<
                    (Seq<SpecExpr>, Seq<Seq<char>>),
                    Seq<char>,
                >((es, token_views(p.1@))) && p.1@.len() <= tokens@.len(),
                _ => false,
            },
            Err(e) => match e {
                Error::ParseError(m) => spec_read_seq(token_views(tokens@)) == Err::<
                    (Seq<SpecExpr>, Seq<Seq<char>>),
                    Seq<char>,
                >(m@),
            },
        },
    decreases tokens@.len(), 1nat,
{
    let mut res: Vec<Expr> = Vec::new();
    let mut xs: &[String] = tokens;
    proof {
        assert(view_exprs(res@) =~= Seq::<SpecExpr>::empty());
    }
    loop
        invariant
            xs@.len() <= tokens@.len(),
            (match spec_read_seq(token_views(xs@)) {
                Ok(p) => spec_read_seq(token_views(tokens@)) == Ok::<
                    (Seq<SpecExpr>, Seq<Seq<char>>),
                    Seq<char>,
                >((view_exprs(res@) + p.0, p.1)),
                Err(m) => spec_read_seq(token_views(tokens@)) == Err::<
                    (Seq<SpecExpr>, Seq<Seq<char>>),
                    Seq<char>,
                >(m),
            }),
        decreases xs@.len(),
    {
        if xs.len() == 0 {
            return Err(Error::ParseError("could not find closing `)`".to_owned()));
        }
        let next_token: &String = slice_index_get(xs, 0);
        if *next_token == ")".to_owned() {
            let rest2: &[String] = slice_subrange(xs, 1, xs.len());
            proof {
                assert(token_views(rest2@) =~= token_views(xs@).drop_first());
                assert(view_exprs(res@) + Seq::<SpecExpr>::empty() =~= view_exprs(res@));
            }
            return Ok((Expr::List(res), rest2));
        }
        match parse(xs) {
            Ok(pair) => {
                let (exp, new_xs) = pair;
                proof {
                    let tv = token_views(xs@);
                    assert(tv[0] == xs@[0]@);
                    lemma_view_exprs_push(res@, exp);
                    match spec_read_seq(token_views(new_xs@)) {
                        Ok(q) => {
                            assert((view_exprs(res@) + (seq![spec_view(exp)] + q.0)) =~= (
                            view_exprs(res@.push(exp)) + q.0));
                        },
                        Err(m) => {},
                    }
                }
                res.push(exp);
                xs = new_xs;
            },
            Err(e) => {
                return Err(e);
            },
        }
    }
}

// ---------------------------------------------------------------------------
// Evaluator
// ---------------------------------------------------------------------------

/// What adding two binary64 values, given and returned as bits, yields.
/// A function of the operand bits alone.
pub uninterp spec fn add_bits(a: u64, b: u64) -> u64;

/// What subtracting the second binary64 value from the first, given and
/// returned as bits, yields. A function of the operand bits alone.
pub uninterp spec fn sub_bits(a: u64, b: u64) -> u64;

/// Relies on `rustc_apfloat::ieee::Double` addition (a software IEEE 754
/// binary64, rounding to nearest even): the sum's bits depend on the operand
/// bits alone.
#[verifier::external_body]
fn add_float_bits(a: u64, b: u64) -> (r: u64)
    ensures
        r == add_bits(a, b),
{
    let x: rustc_apfloat::ieee::Double = rustc_apfloat::Float::from_bits(a as u128);
    let y: rustc_apfloat::ieee::Double = rustc_apfloat::Float::from_bits(b as u128);
    rustc_apfloat::Float::to_bits((x + y).value) as u64
}

/// Relies on `rustc_apfloat::ieee::Double` subtraction (a software IEEE 754
/// binary64, rounding to nearest even): the difference's bits depend on the
/// operand bits alone.
#[verifier::external_body]
fn sub_float_bits(a: u64, b: u64) -> (r: u64)
    ensures
        r == sub_bits(a, b),
{
    let x: rustc_apfloat::ieee::Double = rustc_apfloat::Float::from_bits(a as u128);
    let y: rustc_apfloat::ieee::Double = rustc_apfloat::Float::from_bits(b as u128);
    rustc_apfloat::Float::to_bits((x - y).value) as u64
}

/// The numeric payloads of already-evaluated arguments, or the type-error
/// message when one of them is not a number.
pub open spec fn spec_number_list(args: Seq<SpecExpr>) -> Result<Seq<u64>, Seq<char>>
    decreases args.len(),
{
    if args.len() == 0 {
        Ok(Seq::empty())
    } else {
        match args[0] {
            SpecExpr::Number(b) => match spec_number_list(args.drop_first()) {
                Ok(v) => Ok(seq![b] + v),
                Err(m) => Err(m),
            },
            _ => Err("expected a number"@),
        }
    }
}

/// The left fold of binary64 addition over `vals`, starting from `acc`;
/// `spec_sum(0, vals)` is the sum a builtin computes (zero values sum to
/// `0.0`, whose bits are zero).
pub open spec fn spec_sum(acc: u64, vals: Seq<u64>) -> u64
    decreases vals.len(),
{
    if vals.len() == 0 {
        acc
    } else {
        spec_sum(add_bits(acc, vals[0]), vals.drop_first())
    }
}

/// What a builtin returns on already-evaluated arguments: `+` sums all of
/// them, `-` subtracts the sum of the rest from the first and needs at least
/// one; every argument must be a number.
pub open spec fn spec_apply(b: Builtin, args: Seq<SpecExpr>) -> Result<SpecExpr, Seq<char>> {
    match spec_number_list(args) {
        Err(m) => Err(m),
        Ok(vals) => match b {
            Builtin::Add => Ok(SpecExpr::Number(spec_sum(0u64, vals))),
            Builtin::Sub => if vals.len() == 0 {
                Err("list must not be empty"@)
            } else {
                Ok(SpecExpr::Number(sub_bits(vals[0], spec_sum(0u64, vals.drop_first()))))
            },
        },
    }
}

/// What evaluating an expression in an environment returns: a symbol is
/// looked up, a number is itself, a bare builtin is an error, and a list is
/// an application.
pub open spec fn spec_eval(env: Map<Seq<char>, SpecExpr>, e: SpecExpr) -> Result<
    SpecExpr,
    Seq<char>,
>
    decreases e, 0nat,
{
    match e {
        SpecExpr::Symbol(name) => if env.contains_key(name) {
            Ok(env[name])
        } else {
            Err("unexpected symbol k='"@ + name + "'"@)
        },
        SpecExpr::Number(_) => Ok(e),
        SpecExpr::Fun(_) => Err("unexpected form"@),
        SpecExpr::List(l) => spec_eval_list(env, l),
    }
}

/// What applying a list form returns: the head must evaluate to a builtin,
/// which is applied to the evaluated remaining elements; an empty list is an
/// error.
pub open spec fn spec_eval_list(env: Map<Seq<char>, SpecExpr>, l: Seq<SpecExpr>) -> Result<
    SpecExpr,
    Seq<char>,
>
    decreases l, l.len() + 1,
{
    if l.len() == 0 {
        Err("list must not be empty"@)
    } else {
        match spec_eval(env, l[0]) {
            Err(m) => Err(m),
            Ok(head) => match head {
                SpecExpr::Fun(b) => match spec_eval_args(env, l, 1) {
                    Ok(vals) => spec_apply(b, vals),
                    Err(m) => Err(m),
                },
                _ => Err("first form must be a function"@),
            },
        }
    }
}

/// The left-to-right evaluation of `l[i..]`, stopping at the first failure.
pub open spec fn spec_eval_args(env: Map<Seq<char>, SpecExpr>, l: Seq<SpecExpr>, i: int) -> Result<
    Seq<SpecExpr>,
    Seq<char>,
>
    decreases l, l.len() - i,
{
    if i < 0 || i >= l.len() {
        Ok(Seq::empty())
    } else {
        match spec_eval(env, l[i]) {
            Ok(v) => match spec_eval_args(env, l, i + 1) {
                Ok(vs) => Ok(seq![v] + vs),
                Err(m) => Err(m),
            },
            Err(m) => Err(m),
        }
    }
}

/// The numeric payload of one already-evaluated argument.
fn parse_float(exp: &Expr) -> (r: Result<u64, Error>)
    ensures
        match r {
            Ok(b) => exp@ == SpecExpr::Number(b),
            Err(e) => match e {
                Error::ParseError(m) => !(exp@ is Number) && m@ == "expected a number"@,
            },
        },
{
    match exp {
        Expr::Number(num) => Ok(*num),
        _ => Err(Error::ParseError("expected a number".to_owned())),
    }
}

/// The numeric payloads of a slice of already-evaluated arguments, or the
/// type error on the first argument that is not a number.
pub fn parse_float_list(args: &[Expr]) -> (r: Result<Vec<u64>, Error>)
    ensures
        match r {
            Ok(v) => spec_number_list(view_exprs(args@)) == Ok::<Seq<u64>, Seq<char>>(v@),
            Err(e) => match e {
                Error::ParseError(m) => spec_number_list(view_exprs(args@)) == Err::<
                    Seq<u64>,
                    Seq<char>,
                >(m@),
            },
        },
{
    let mut out: Vec<u64> = Vec::new();
    let mut k: usize = 0;
    proof {
        assert(args@.skip(0) =~= args@);
    }
    while k < args.len()
        invariant
            k <= args@.len(),
            (match spec_number_list(view_exprs(args@.skip(k as int))) {
                Ok(v) => spec_number_list(view_exprs(args@)) == Ok::<Seq<u64>, Seq<char>>(
                    out@ + v,
                ),
                Err(m) => spec_number_list(view_exprs(args@)) == Err::<Seq<u64>, Seq<char>>(m),
            }),
        decreases args@.len() - k,
    {
        proof {
            let t = args@.skip(k as int);
            lemma_view_exprs_len(t);
            lemma_view_exprs_len(t.drop_first());
            assert(t.drop_first() =~= args@.skip(k as int + 1));
            assert(view_exprs(t).drop_first() =~= view_exprs(t.drop_first()));
            assert(view_exprs(t)[0] == spec_view(args@[k as int]));
        }
        match parse_float(slice_index_get(args, k)) {
            Ok(b) => {
                proof {
                    match spec_number_list(view_exprs(args@.skip(k as int + 1))) {
                        Ok(v) => {
                            assert(out@ + (seq![b] + v) =~= out@.push(b) + v);
                        },
                        Err(m) => {},
                    }
                }
                out.push(b);
            },
            Err(e) => {
                return Err(e);
            },
        }
        k += 1;
    }
    proof {
        assert(view_exprs(args@.skip(args@.len() as int)).len() == 0);
        assert(out@ + Seq::<u64>::empty() =~= out@);
    }
    Ok(out)
}

/// The running sum of `vals[start..]`, folded left from `0.0`.
fn sum_from(vals: &Vec<u64>, start: usize) -> (r: u64)
    requires
        start <= vals@.len(),
    ensures
        r == spec_sum(0u64, vals@.skip(start as int)),
{
    let mut acc: u64 = 0;
    let mut k: usize = start;
    while k < vals.len()
        invariant
            start <= k <= vals@.len(),
            spec_sum(acc, vals@.skip(k as int)) == spec_sum(0u64, vals@.skip(start as int)),
        decreases vals@.len() - k,
    {
        proof {
            let t = vals@.skip(k as int);
            assert(t[0] == vals@[k as int]);
            assert(t.drop_first() =~= vals@.skip(k as int + 1));
        }
        acc = add_float_bits(acc, vals[k]);
        k += 1;
    }
    proof {
        assert(vals@.skip(vals@.len() as int).len() == 0);
    }
    acc
}

/// Applies a builtin procedure to a slice of already-evaluated arguments.
pub fn apply_builtin(b: Builtin, args: &[Expr]) -> (r: Result<Expr, Error>)
    ensures
        match r {
            Ok(v) => spec_apply(b, view_exprs(args@)) == Ok::<SpecExpr, Seq<char>>(v@),
            Err(e) => match e {
                Error::ParseError(m) => spec_apply(b, view_exprs(args@)) == Err::<
                    SpecExpr,
                    Seq<char>,
                >(m@),
            },
        },
{
    let floats = match parse_float_list(args) {
        Ok(f) => f,
        Err(e) => {
            return Err(e);
        },
    };
    match b {
        Builtin::Add => {
            let s = sum_from(&floats, 0);
            proof {
                assert(floats@.skip(0) =~= floats@);
            }
            Ok(Expr::Number(s))
        },
        Builtin::Sub => {
            if floats.len() == 0 {
                return Err(Error::ParseError("list must not be empty".to_owned()));
            }
            let first = floats[0];
            let rest_sum = sum_from(&floats, 1);
            proof {
                assert(floats@.skip(1) =~= floats@.drop_first());
            }
            Ok(Expr::Number(sub_float_bits(first, rest_sum)))
        },
    }
}

/// Recursively reduces an expression to a value in `env`: symbols are looked
/// up, numbers are self-evaluating, and a list applies its evaluated head to
/// its evaluated remaining elements. The environment is left unchanged.
#[verifier::loop_isolation(false)]
pub fn eval(env: &mut Env, expr: &Expr) -> (r: Result<Expr, Error>)
    ensures
        *final(env) == *old(env),
        match r {
            Ok(v) => spec_eval(old(env)@, expr@) == Ok::<SpecExpr, Seq<char>>(v@),
            Err(e) => match e {
                Error::ParseError(m) => spec_eval(old(env)@, expr@) == Err::<SpecExpr, Seq<char>>(
                    m@,
                ),
            },
        },
    decreases expr,
{
    match expr {
        Expr::Symbol(k) => match env.get(k) {
            Some(v) => {
                let c = v.duplicate();
                Ok(c)
            },
            None => {
                let mut m = "unexpected symbol k='".to_owned();
                m.append(k.as_str());
                m.append("'");
                Err(Error::ParseError(m))
            },
        },
        Expr::Number(_) => Ok(expr.duplicate()),
        Expr::Fun(_) => Err(Error::ParseError("unexpected form".to_owned())),
        Expr::List(list) => {
            if list.len() == 0 {
                return Err(Error::ParseError("list must not be empty".to_owned()));
            }
            proof {
                lemma_view_exprs_len(list@);
                assert(decreases_to!(*expr => expr->List_0));
                assert(decreases_to!(expr->List_0 => list@));
                assert(decreases_to!(list@ => list@[0]));
            }
            let head = match eval(env, &list[0]) {
                Ok(h) => h,
                Err(e) => {
                    return Err(e);
                },
            };
            match head {
                Expr::Fun(b) => {
                    let ghost lv = view_exprs(list@);
                    let mut argv: Vec<Expr> = Vec::new();
                    let mut idx: usize = 1;
                    while idx < list.len()
                        invariant
                            1 <= idx <= list@.len(),
                            *env == *old(env),
                            (match spec_eval_args(old(env)@, lv, idx as int) {
                                Ok(vs) => spec_eval_args(old(env)@, lv, 1) == Ok::<
                                    Seq<SpecExpr>,
                                    Seq<char>,
                                >(view_exprs(argv@) + vs),
                                Err(m) => spec_eval_args(old(env)@, lv, 1) == Err::<
                                    Seq<SpecExpr>,
                                    Seq<char>,
                                >(m),
                            }),
                        decreases list@.len() - idx,
                    {
                        proof {
                            assert(decreases_to!(list@ => list@[idx as int]));
                        }
                        match eval(env, &list[idx]) {
                            Ok(v) => {
                                proof {
                                    lemma_view_exprs_push(argv@, v);
                                    match spec_eval_args(old(env)@, lv, idx as int + 1) {
                                        Ok(vs) => {
                                            assert((view_exprs(argv@) + (seq![spec_view(v)] + vs))
                                                =~= (view_exprs(argv@.push(v)) + vs));
                                        },
                                        Err(m) => {},
                                    }
                                }
                                argv.push(v);
                            },
                            Err(e) => {
                                return Err(e);
                            },
                        }
                        idx += 1;
                    }
                    proof {
                        assert(view_exprs(argv@) + Seq::<SpecExpr>::empty() =~= view_exprs(
                            argv@,
                        ));
                    }
                    apply_builtin(b, argv.as_slice())
                },
                _ => Err(Error::ParseError("first form must be a function".to_owned())),
            }
        },
    }
}

// ---------------------------------------------------------------------------
// Laws
// ---------------------------------------------------------------------------

/// A token the tokenizer can produce: one of the two parens, or a nonempty
/// run of atom characters.
pub open spec fn wf_token(t: Seq<char>) -> bool {
    t == seq!['('] || t == seq![')'] || (t.len() > 0 && forall|j: int|
        0 <= j < t.len() ==> is_atom_char(t[j]))
}

/// The tokens joined back into one text, one space between neighbours.
pub open spec fn join_tokens(ts: Seq<Seq<char>>) -> Seq<char>
    decreases ts.len(),
{
    if ts.len() == 0 {
        Seq::empty()
    } else if ts.len() == 1 {
        ts[0]
    } else {
        ts[0] + seq![' '] + join_tokens(ts.drop_first())
    }
}

proof fn lemma_atom_len_chars(s: Seq<char>)
    ensures
        forall|j: int| 0 <= j < atom_len(s) ==> is_atom_char(s[j]),
    decreases s.len(),
{
    lemma_atom_len_le(s);
    if s.len() > 0 && is_atom_char(s[0]) {
        lemma_atom_len_le(s.drop_first());
        lemma_atom_len_chars(s.drop_first());
        assert forall|j: int| 0 <= j < atom_len(s) implies is_atom_char(s[j]) by {
            if j > 0 {
                assert(s[j] == s.drop_first()[j - 1]);
                assert(is_atom_char(s.drop_first()[j - 1]));
            }
        }
    }
}

/// Every token of a tokenization is well formed.
proof fn lemma_tokens_wf(s: Seq<char>)
    ensures
        forall|i: int|
            0 <= i < spec_tokenize(s).len() ==> wf_token(#[trigger] spec_tokenize(s)[i]),
    decreases s.len(),
{
    if s.len() == 0 {
    } else if is_space(s[0]) {
        lemma_tokens_wf(s.drop_first());
    } else if is_paren(s[0]) {
        lemma_tokens_wf(s.drop_first());
        if s[0] == '(' {
            assert(seq![s[0]] =~= seq!['(']);
        } else {
            assert(seq![s[0]] =~= seq![')']);
        }
        assert forall|i: int| 0 <= i < spec_tokenize(s).len() implies wf_token(
            #[trigger] spec_tokenize(s)[i],
        ) by {
            if i > 0 {
                assert(spec_tokenize(s)[i] == spec_tokenize(s.drop_first())[i - 1]);
            }
        }
    } else {
        let k = atom_len(s) as int;
        lemma_atom_len_le(s);
        lemma_atom_len_chars(s);
        lemma_tokens_wf(s.skip(k));
        let t0 = s.subrange(0, k);
        assert(k >= 1);
        assert(forall|j: int| 0 <= j < k ==> t0[j] == s[j]);
        assert(wf_token(t0));
        assert forall|i: int| 0 <= i < spec_tokenize(s).len() implies wf_token(
            #[trigger] spec_tokenize(s)[i],
        ) by {
            if i > 0 {
                assert(spec_tokenize(s)[i] == spec_tokenize(s.skip(k))[i - 1]);
            }
        }
    }
}

proof fn lemma_space_skip(r: Seq<char>)
    ensures
        spec_tokenize(seq![' '] + r) == spec_tokenize(r),
{
    let s = seq![' '] + r;
    assert(s[0] == ' ');
    assert(is_space(' '));
    assert(s.drop_first() =~= r);
}

/// A single well-formed token re-tokenizes to itself.
proof fn lemma_single_token(t: Seq<char>)
    requires
        wf_token(t),
    ensures
        spec_tokenize(t) == seq![t],
{
    if t == seq!['('] || t == seq![')'] {
        assert(t.len() == 1);
        assert(is_paren(t[0]));
        assert(!is_space(t[0]));
        assert(t.drop_first().len() == 0);
        assert(seq![seq![t[0]]] + spec_tokenize(t.drop_first()) =~= seq![t]);
    } else {
        assert(is_atom_char(t[0]));
        lemma_atom_len_run(t, t.len() as nat);
        assert(t.subrange(0, t.len() as int) =~= t);
        assert(t.skip(t.len() as int).len() == 0);
        assert(seq![t.subrange(0, t.len() as int)] + spec_tokenize(t.skip(t.len() as int))
            =~= seq![t]);
    }
}

/// A text joined from well-formed tokens tokenizes back to those tokens.
proof fn lemma_retokenize(ts: Seq<Seq<char>>)
    requires
        forall|i: int| 0 <= i < ts.len() ==> wf_token(#[trigger] ts[i]),
    ensures
        spec_tokenize(join_tokens(ts)) == ts,
    decreases ts.len(),
{
    if ts.len() == 0 {
        assert(spec_tokenize(join_tokens(ts)) =~= ts);
    } else if ts.len() == 1 {
        lemma_single_token(ts[0]);
        assert(seq![ts[0]] =~= ts);
    } else {
        let t = ts[0];
        let j = join_tokens(ts);
        let jr = join_tokens(ts.drop_first());
        assert(wf_token(t));
        assert(forall|i: int| 0 <= i < ts.drop_first().len() ==> ts.drop_first()[i] == ts[i
            + 1]);
        lemma_retokenize(ts.drop_first());
        lemma_space_skip(jr);
        if t == seq!['('] || t == seq![')'] {
            assert(j[0] == t[0]);
            assert(is_paren(j[0]));
            assert(!is_space(j[0]));
            assert(j.drop_first() =~= seq![' '] + jr);
            assert(seq![j[0]] =~= t);
            assert(seq![seq![j[0]]] + spec_tokenize(j.drop_first()) =~= ts);
        } else {
            let k = t.len() as int;
            assert(forall|x: int| 0 <= x < k ==> j[x] == t[x]);
            assert(j[k] == ' ');
            assert(is_space(' '));
            assert(!is_atom_char(j[k]));
            lemma_atom_len_run(j, t.len());
            assert(is_atom_char(j[0]));
            assert(j.subrange(0, k) =~= t);
            assert(j.skip(k) =~= seq![' '] + jr);
            assert(seq![j.subrange(0, k)] + spec_tokenize(j.skip(k)) =~= ts);
        }
    }
}

/// Tokenization is total and deterministic, and idempotent up to whitespace
/// normalization: re-tokenizing the space-joined tokens of any text yields
/// the same token sequence.
pub proof fn lemma_tokenize_idempotent(s: Seq<char>)
    ensures
        spec_tokenize(join_tokens(spec_tokenize(s))) == spec_tokenize(s),
{
    lemma_tokens_wf(s);
    lemma_retokenize(spec_tokenize(s));
}

/// An expression with no procedure value anywhere in it.
pub open spec fn fun_free(e: SpecExpr) -> bool
    decreases e,
{
    match e {
        SpecExpr::Fun(_) => false,
        SpecExpr::List(l) => forall|i: int| 0 <= i < l.len() ==> fun_free(#[trigger] l[i]),
        _ => true,
    }
}

/// A procedure value is never produced by parsing: it can only come out of
/// an environment lookup.
pub proof fn lemma_parse_no_fun(tokens: Seq<Seq<char>>)
    ensures
        match spec_parse(tokens) {
            Ok(p) => fun_free(p.0),
            Err(_) => true,
        },
    decreases tokens.len(), 0nat,
{
    if tokens.len() > 0 && tokens[0] == "("@ {
        lemma_read_seq_no_fun(tokens.drop_first());
    }
}

proof fn lemma_read_seq_no_fun(tokens: Seq<Seq<char>>)
    ensures
        match spec_read_seq(tokens) {
            Ok(q) => forall|i: int| 0 <= i < q.0.len() ==> fun_free(#[trigger] q.0[i]),
            Err(_) => true,
        },
    decreases tokens.len(), 1nat,
{
    if tokens.len() > 0 && tokens[0] != ")"@ {
        lemma_parse_no_fun(tokens);
        match spec_parse(tokens) {
            Ok(p) => {
                if p.1.len() < tokens.len() {
                    lemma_read_seq_no_fun(p.1);
                    match spec_read_seq(p.1) {
                        Ok(q) => {
                            assert forall|i: int| 0 <= i < (seq![p.0] + q.0).len() implies fun_free(
                                #[trigger] (seq![p.0] + q.0)[i],
                            ) by {
                                if i > 0 {
                                    assert((seq![p.0] + q.0)[i] == q.0[i - 1]);
                                }
                            }
                        },
                        Err(_) => {},
                    }
                }
            },
            Err(_) => {},
        }
    }
}

/// The combined reduction of one program text: tokenize it, parse one form,
/// and evaluate that form in the default environment.
pub open spec fn spec_run(s: Seq<char>) -> Result<SpecExpr, Seq<char>> {
    match spec_parse(spec_tokenize(s)) {
        Ok(p) => spec_eval(default_env(), p.0),
        Err(m) => Err(m),
    }
}

/// Parsing then evaluating is one fixed reduction: whatever parsing the
/// tokens of a text yields, the pipeline's outcome is `spec_run` of the text
/// alone — a function of the input text, with nothing else consulted.
pub proof fn lemma_pipeline_is_combined_reduction(s: Seq<char>)
    ensures
        (match spec_parse(spec_tokenize(s)) {
            Ok(p) => spec_run(s) == spec_eval(default_env(), p.0),
            Err(m) => spec_run(s) == Err::<SpecExpr, Seq<char>>(m),
        }),
{
}

/// Carried by diagnostics-minded callers: an expression, its source
/// location, and an optional error met while reading it.
#[derive(Debug)]
pub struct DebugExpr {
    inner: Expr,
    location: (u32, u32),
    error: Option<Error>,
}

/// A placeholder for a user-defined procedure: a parameter list and a body.
/// No evaluation rule constructs or applies one in this revision.
#[derive(Debug)]
pub struct Lambda {
    params: std::sync::Arc<Expr>,
    body: std::sync::Arc<Expr>,
}

} // verus!
